use vstd::prelude::*;
use crate::error::Error;
use crate::key::{Address, Key};
use crate::transform::{
    apply_to_slot, merge_all, merge_spec, slot_outcome, Transform, TransformView,
};
use crate::value::{held_view, Value, ValueView};

verus! {

/// The mathematical form of a transform set: keys with the transforms
/// asked for at them, in the order in which execution produced them.
pub type TransformSetView = Seq<(Key, TransformView)>;

/// Whether the key gives the right that the transform needs. Only a
/// reference carries rights: it must give the right to read for a read,
/// to write for a write, and to add for a sum or for new names.
pub open spec fn allowed(key: Key, t: TransformView) -> bool {
    match key.spec_access_rights() {
        None => true,
        Some(rights) => match t {
            TransformView::Identity => rights.read,
            TransformView::Write(_) => rights.write,
            _ => rights.add,
        },
    }
}

/// Whether every transform of the set is allowed through its key.
pub open spec fn all_allowed(set: TransformSetView) -> bool {
    forall|i: int| 0 <= i < set.len() ==> allowed(#[trigger] set[i].0, set[i].1)
}

/// The transforms that the set holds for one place, in their order.
pub open spec fn transforms_at(set: TransformSetView, address: Address) -> Seq<TransformView>
    decreases set.len(),
{
    if set.len() == 0 {
        Seq::<TransformView>::empty()
    } else if set.last().0.spec_address() == address {
        transforms_at(set.drop_last(), address).push(set.last().1)
    } else {
        transforms_at(set.drop_last(), address)
    }
}

/// The one transform that stands for all that the set holds for a place.
pub open spec fn merged_at(set: TransformSetView, address: Address) -> Result<
    TransformView,
    Error,
> {
    merge_all(transforms_at(set, address))
}

/// What a place holds after the set is applied, given what it held before.
pub open spec fn outcome_at(set: TransformSetView, held: Option<ValueView>, address: Address)
    -> Result<Option<ValueView>, Error> {
    match merged_at(set, address) {
        Ok(t) => apply_to_slot(t, held),
        Err(e) => Err(e),
    }
}

/// A transform under the key that it is asked for at.
#[derive(Debug)]
pub struct TransformEntry {
    pub key: Key,
    pub transform: Transform,
}

impl View for TransformEntry {
    type V = (Key, TransformView);

    open spec fn view(&self) -> (Key, TransformView) {
        (self.key, self.transform@)
    }
}

/// The effects of one execution: an ordered multimap from keys to
/// transforms. The transforms at one place count in their order; the order
/// of transforms at different places means nothing.
#[derive(Debug)]
pub struct TransformSet {
    pub entries: Vec<TransformEntry>,
}

impl View for TransformSet {
    type V = TransformSetView;

    open spec fn view(&self) -> TransformSetView {
        self.entries@.map_values(|e: TransformEntry| e@)
    }
}

impl TransformSet {
    /// The set without transforms.
    pub fn new() -> (r: TransformSet)
        ensures
            r@ == Seq::<(Key, TransformView)>::empty(),
    {
        let r = TransformSet { entries: Vec::new() };
        assert(r@ =~= Seq::<(Key, TransformView)>::empty());
        r
    }

    /// The number of transforms.
    pub fn len(&self) -> (r: usize)
        ensures
            r == self@.len(),
    {
        self.entries.len()
    }

    /// Adds a transform at a key behind the others.
    pub fn push(&mut self, key: Key, transform: Transform)
        ensures
            final(self)@ == old(self)@.push((key, transform@)),
    {
        let ghost t = transform@;
        self.entries.push(TransformEntry { key, transform });
        assert(self@ =~= old(self)@.push((key, t)));
    }
}

impl Clone for TransformSet {
    fn clone(&self) -> (r: TransformSet)
        ensures
            r@ == self@,
    {
        let mut r = TransformSet::new();
        let mut i: usize = 0;
        while i < self.entries.len()
            invariant
                i <= self.entries.len(),
                self@.len() == self.entries.len(),
                r@ == self@.subrange(0, i as int),
            decreases self.entries.len() - i,
        {
            assert(self@[i as int] == self.entries@[i as int]@);
            r.push(self.entries[i].key, self.entries[i].transform.clone());
            assert(r@ =~= self@.subrange(0, i + 1));
            i = i + 1;
        }
        assert(r@ =~= self@);
        r
    }
}

impl TransformSet {
    /// What a place holds after the set is applied, given what it held
    /// before.
    pub fn outcome(&self, held: Option<Value>, address: &Address) -> (r: Result<
        Option<Value>,
        Error,
    >)
        ensures
            slot_outcome(r) == outcome_at(self@, held_view(held), *address),
    {
        let mut merged = Transform::Identity;
        let mut i: usize = 0;
        assert(self@.take(0) =~= Seq::<(Key, TransformView)>::empty());
        while i < self.entries.len()
            invariant
                i <= self.entries.len(),
                self@.len() == self.entries.len(),
                merged_at(self@.take(i as int), *address) == Ok::<TransformView, Error>(merged@),
            decreases self.entries.len() - i,
        {
            assert(self@[i as int] == self.entries@[i as int]@);
            let ghost part = self@.take(i as int);
            let ghost entry = self@[i as int];
            proof {
                assert(self@.take(i + 1) =~= part.push(entry));
                lemma_merged_at_push(part, entry.0, entry.1, *address);
            }
            if self.entries[i].key.address() == *address {
                match merged.merge(self.entries[i].transform.clone()) {
                    Ok(t) => {
                        merged = t;
                    },
                    Err(e) => {
                        proof {
                            lemma_merged_at_err(self@, i + 1, *address);
                        }
                        return Err(e);
                    },
                }
            }
            i = i + 1;
        }
        assert(self@.take(i as int) =~= self@);
        merged.apply_to(held)
    }
}

/// What a set comes to at one place: the one transform that stands for
/// the transforms of the set there, or why they do not merge.
#[derive(Debug)]
pub struct Effect {
    pub address: Address,
    pub merged: Result<Transform, Error>,
}

/// The mathematical form of a merged transform, or of why there is none.
pub open spec fn merged_view(merged: Result<Transform, Error>) -> Result<TransformView, Error> {
    match merged {
        Ok(t) => Ok(t@),
        Err(e) => Err(e),
    }
}

impl View for Effect {
    type V = (Address, Result<TransformView, Error>);

    open spec fn view(&self) -> (Address, Result<TransformView, Error>) {
        (self.address, merged_view(self.merged))
    }
}

/// The mathematical form of a list of effects.
pub type EffectsView = Seq<(Address, Result<TransformView, Error>)>;

/// The mathematical form of a list of effects.
pub open spec fn effects_view(effects: Seq<Effect>) -> EffectsView {
    effects.map_values(|e: Effect| e@)
}

/// Whether the list holds no effect at the place.
pub open spec fn absent(effects: EffectsView, address: Address) -> bool {
    forall|j: int| 0 <= j < effects.len() ==> (#[trigger] effects[j]).0 != address
}

/// Whether the list holds, once for each place that the set speaks of,
/// what the set comes to at that place.
pub open spec fn grouped(effects: EffectsView, set: TransformSetView) -> bool {
    &&& forall|p: int, q: int|
        0 <= p < q < effects.len() ==> (#[trigger] effects[p]).0 != (#[trigger] effects[q]).0
    &&& forall|p: int|
        0 <= p < effects.len() ==> merged_at(set, (#[trigger] effects[p]).0) == effects[p].1
    &&& forall|address: Address| #[trigger]
        absent(effects, address) ==> transforms_at(set, address).len() == 0
}

/// What one more transform adds to the transforms at each place.
pub proof fn lemma_transforms_at_push(
    set: TransformSetView,
    key: Key,
    t: TransformView,
    address: Address,
)
    ensures
        transforms_at(set.push((key, t)), address) == (if key.spec_address() == address {
            transforms_at(set, address).push(t)
        } else {
            transforms_at(set, address)
        }),
{
    let longer = set.push((key, t));
    assert(longer.drop_last() =~= set);
    assert(longer.last() == (key, t));
}

/// What one more transform makes of the merged transform at its place.
pub proof fn lemma_merged_at_push(
    set: TransformSetView,
    key: Key,
    t: TransformView,
    address: Address,
)
    ensures
        merged_at(set.push((key, t)), address) == (if key.spec_address() == address {
            match merged_at(set, address) {
                Ok(m) => merge_spec(m, t),
                Err(e) => Err(e),
            }
        } else {
            merged_at(set, address)
        }),
{
    lemma_transforms_at_push(set, key, t, address);
    if key.spec_address() == address {
        let list = transforms_at(set, address);
        assert(list.push(t).drop_last() =~= list);
        assert(list.push(t).last() == t);
    }
}

/// A place at which a part of the set does not merge is one at which the
/// whole set does not merge, for the same reason.
pub proof fn lemma_merged_at_err(set: TransformSetView, n: int, address: Address)
    requires
        0 <= n <= set.len(),
        merged_at(set.take(n), address) is Err,
    ensures
        merged_at(set, address) == merged_at(set.take(n), address),
    decreases set.len() - n,
{
    if n == set.len() {
        assert(set.take(n) =~= set);
    } else {
        let entry = set[n];
        assert(set.take(n + 1) =~= set.take(n).push(entry));
        lemma_merged_at_push(set.take(n), entry.0, entry.1, address);
        lemma_merged_at_err(set, n + 1, address);
    }
}

/// What one more transform makes of what the set comes to at a place.
pub open spec fn merged_next(
    before: Result<TransformView, Error>,
    t: TransformView,
) -> Result<TransformView, Error> {
    match before {
        Ok(m) => merge_spec(m, t),
        Err(e) => Err(e),
    }
}

/// The grouping after one more transform is merged into the effect at its
/// place.
pub proof fn lemma_grouped_merge(
    effects: EffectsView,
    set: TransformSetView,
    key: Key,
    t: TransformView,
    p: int,
)
    requires
        grouped(effects, set),
        0 <= p < effects.len(),
        effects[p].0 == key.spec_address(),
    ensures
        grouped(
            effects.update(p, (key.spec_address(), merged_next(effects[p].1, t))),
            set.push((key, t)),
        ),
{
    let after = effects.update(p, (key.spec_address(), merged_next(effects[p].1, t)));
    let longer = set.push((key, t));
    assert forall|q: int| 0 <= q < after.len() implies merged_at(longer, (#[trigger] after[q]).0)
        == after[q].1 by {
        lemma_merged_at_push(set, key, t, after[q].0);
        assert(effects[q].0 == after[q].0);
        if q != p {
            assert(effects[q].0 != effects[p].0);
        }
    }
    assert forall|address: Address| #[trigger] absent(after, address) implies transforms_at(
        longer,
        address,
    ).len() == 0 by {
        assert forall|j: int| 0 <= j < effects.len() implies (#[trigger] effects[j]).0
            != address by {
            assert(after[j].0 == effects[j].0);
        }
        assert(absent(effects, address));
        assert(after[p].0 != address);
        lemma_transforms_at_push(set, key, t, address);
    }
    assert forall|i: int, j: int| 0 <= i < j < after.len() implies (#[trigger] after[i]).0 != (
    #[trigger] after[j]).0 by {
        assert(effects[i].0 == after[i].0);
        assert(effects[j].0 == after[j].0);
    }
}

/// The grouping after the first transform at a place is added as its
/// effect.
pub proof fn lemma_grouped_push(
    effects: EffectsView,
    set: TransformSetView,
    key: Key,
    t: TransformView,
)
    requires
        grouped(effects, set),
        absent(effects, key.spec_address()),
    ensures
        grouped(
            effects.push((key.spec_address(), Ok::<TransformView, Error>(t))),
            set.push((key, t)),
        ),
{
    let a = key.spec_address();
    let after = effects.push((a, Ok::<TransformView, Error>(t)));
    let longer = set.push((key, t));
    assert forall|q: int| 0 <= q < after.len() implies merged_at(longer, (#[trigger] after[q]).0)
        == after[q].1 by {
        lemma_merged_at_push(set, key, t, after[q].0);
        if q < effects.len() {
            assert(effects[q] == after[q]);
            assert(effects[q].0 != a);
        } else {
            assert(transforms_at(set, a).len() == 0);
            assert(transforms_at(set, a) =~= Seq::<TransformView>::empty());
        }
    }
    assert forall|address: Address| #[trigger] absent(after, address) implies transforms_at(
        longer,
        address,
    ).len() == 0 by {
        assert forall|j: int| 0 <= j < effects.len() implies (#[trigger] effects[j]).0
            != address by {
            assert(after[j] == effects[j]);
        }
        assert(absent(effects, address));
        assert(after[effects.len() as int].0 != address);
        lemma_transforms_at_push(set, key, t, address);
    }
    assert forall|i: int, j: int| 0 <= i < j < after.len() implies (#[trigger] after[i]).0 != (
    #[trigger] after[j]).0 by {
        assert(effects[i] == after[i]);
        if j < effects.len() {
            assert(effects[j] == after[j]);
        }
    }
}

/// The position of the effect at a place, if the list holds one.
pub fn find_effect(effects: &Vec<Effect>, address: &Address) -> (r: Option<usize>)
    ensures
        match r {
            Some(p) => p < effects.len() && effects@[p as int].address == *address,
            None => absent(effects_view(effects@), *address),
        },
{
    let mut i: usize = 0;
    while i < effects.len()
        invariant
            i <= effects.len(),
            forall|j: int| 0 <= j < i ==> effects@[j].address != *address,
        decreases effects.len() - i,
    {
        if effects[i].address == *address {
            return Some(i);
        }
        i = i + 1;
    }
    assert forall|j: int| 0 <= j < effects_view(effects@).len() implies (
    #[trigger] effects_view(effects@)[j]).0 != *address by {
        assert(effects_view(effects@)[j] == effects@[j]@);
    }
    None
}

/// Whether every transform of the set is allowed through its key.
pub fn check_access(set: &TransformSet) -> (r: bool)
    ensures
        r == all_allowed(set@),
{
    let mut i: usize = 0;
    while i < set.entries.len()
        invariant
            i <= set.entries.len(),
            set@.len() == set.entries.len(),
            forall|j: int| 0 <= j < i ==> allowed(#[trigger] set@[j].0, set@[j].1),
        decreases set.entries.len() - i,
    {
        assert(set@[i as int] == set.entries@[i as int]@);
        let granted = match set.entries[i].key.access_rights() {
            None => true,
            Some(rights) => match &set.entries[i].transform {
                Transform::Identity => rights.read,
                Transform::Write(_) => rights.write,
                _ => rights.add,
            },
        };
        if !granted {
            assert(!allowed(set@[i as int].0, set@[i as int].1));
            return false;
        }
        i = i + 1;
    }
    true
}

/// The effects of the set: for each place that it speaks of, once, what
/// the set comes to at that place.
pub fn effective(set: &TransformSet) -> (r: Vec<Effect>)
    ensures
        grouped(effects_view(r@), set@),
{
    let mut effects: Vec<Effect> = Vec::new();
    let mut i: usize = 0;
    assert(set@.take(0) =~= Seq::<(Key, TransformView)>::empty());
    assert(effects_view(effects@) =~= Seq::<(Address, Result<TransformView, Error>)>::empty());
    while i < set.entries.len()
        invariant
            i <= set.entries.len(),
            set@.len() == set.entries.len(),
            grouped(effects_view(effects@), set@.take(i as int)),
        decreases set.entries.len() - i,
    {
        assert(set@[i as int] == set.entries@[i as int]@);
        let key = set.entries[i].key;
        let address = key.address();
        let transform = set.entries[i].transform.clone();
        let ghost before = effects_view(effects@);
        let ghost part = set@.take(i as int);
        let ghost t = transform@;
        assert(set@.take(i + 1) =~= part.push((key, t)));
        match find_effect(&effects, &address) {
            Some(p) => {
                assert(before[p as int] == effects@[p as int]@);
                let merged = match &effects[p].merged {
                    Ok(earlier) => earlier.clone().merge(transform),
                    Err(e) => Err(*e),
                };
                let ghost next = merged_view(merged);
                effects[p] = Effect { address, merged };
                proof {
                    assert(next == merged_next(before[p as int].1, t));
                    assert(effects_view(effects@) =~= before.update(p as int, (address, next)));
                    lemma_grouped_merge(before, part, key, t, p as int);
                }
            },
            None => {
                effects.push(Effect { address, merged: Ok(transform) });
                proof {
                    assert(effects_view(effects@) =~= before.push(
                        (address, Ok::<TransformView, Error>(t)),
                    ));
                    lemma_grouped_push(before, part, key, t);
                }
            },
        }
        i = i + 1;
    }
    assert(set@.take(i as int) =~= set@);
    effects
}

} // verus!
