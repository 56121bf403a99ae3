use vstd::prelude::*;
use crate::digest::{blake2b_256, Digest};
use crate::digest_index::DigestIndex;
use crate::error::Error;
use crate::key::{Address, Key};
use crate::store::{
    digest_collision, extends, index_find, index_hashed, index_trie, index_valid,
    lemma_find_extends, lemma_pointer, lemma_trie_extends, path_of, IndexView, Node, NodeStore,
    NodeView,
};
use crate::transform_set::{
    absent, all_allowed, check_access, effective, effects_view, grouped, outcome_at,
    EffectsView, TransformSet, TransformSetView,
};
use crate::trie::{
    encode_empty_node, lemma_canonical_trie, lemma_insert_get, lemma_insert_wf, state_root,
    trie_contents, trie_get, trie_insert, trie_root, trie_wf, Trie,
};
use crate::value::{held_view, Value, ValueView};

verus! {

/// What a state holds: the values under their addresses.
pub type Contents = Map<Address, ValueView>;

/// What a state holds at an address, if anything.
pub open spec fn held_at(contents: Contents, address: Address) -> Option<ValueView> {
    if contents.contains_key(address) {
        Some(contents[address])
    } else {
        None
    }
}

/// Whether the set can be applied to a state that holds `contents`: every
/// transform is allowed through its key, and at every place the merged
/// transform applies to what the place holds.
pub open spec fn commit_ok(set: TransformSetView, contents: Contents) -> bool {
    &&& all_allowed(set)
    &&& forall|a: Address| #[trigger] outcome_at(set, held_at(contents, a), a) is Ok
}

/// What a state that held `contents` holds after the set is applied.
pub open spec fn commit_contents(set: TransformSetView, contents: Contents) -> Contents {
    Map::new(
        |a: Address| outcome_at(set, held_at(contents, a), a) matches Ok(Some(_)),
        |a: Address| outcome_at(set, held_at(contents, a), a).unwrap().unwrap(),
    )
}

/// Whether the set fails at a place of a state that holds `contents`
/// because types do not go together there.
pub open spec fn mismatch_at(set: TransformSetView, contents: Contents, a: Address) -> bool {
    outcome_at(set, held_at(contents, a), a) == Err::<Option<ValueView>, Error>(
        Error::TypeMismatch,
    )
}

/// Why a set that is allowed cannot be applied to a state that holds
/// `contents`: a type mismatch where types do not go together at some
/// place, and else an overflow.
pub open spec fn refusal(set: TransformSetView, contents: Contents) -> Error {
    if exists|a: Address| mismatch_at(set, contents, a) {
        Error::TypeMismatch
    } else {
        Error::Overflow
    }
}

/// What a commit to the state under `root` comes to: what the new state
/// holds, or why the set is refused.
pub open spec fn commit_spec(
    states: Map<Digest, Contents>,
    root: Digest,
    set: TransformSetView,
) -> Result<Contents, Error> {
    if !states.contains_key(root) {
        Err(Error::UnknownRoot)
    } else if !all_allowed(set) {
        Err(Error::InsufficientAccessRights)
    } else if !commit_ok(set, states[root]) {
        Err(refusal(set, states[root]))
    } else {
        Ok(commit_contents(set, states[root]))
    }
}

/// The root of the state that holds nothing: the digest of the bytes of
/// the empty node.
pub open spec fn spec_empty_root() -> Digest {
    choose|d: Digest| d@ == blake2b_256(encode_empty_node())
}

/// The pointer to the topmost node of the state under a root: none for the
/// empty state.
pub open spec fn root_pointer(index: IndexView, root: Digest) -> Option<Digest> {
    if index_find(index, root) == Some(NodeView::Empty) {
        None
    } else {
        Some(root)
    }
}

/// The trie of the state under a root.
pub open spec fn root_trie(index: IndexView, root: Digest) -> Option<Trie> {
    index_trie(index, root_pointer(index, root), 0)
}

/// Whether the index holds the canonical trie of a state under the root.
pub open spec fn root_ok(index: IndexView, root: Digest) -> bool {
    &&& index_find(index, root) is Some
    &&& root_trie(index, root) is Some
    &&& trie_wf(root_trie(index, root).unwrap(), Seq::<bool>::empty())
}

/// Whether, of the places that the first `done` effects speak of, the trie
/// holds what the set makes of what `base` held there, and of the other
/// places what `base` holds.
pub open spec fn progress(
    trie: Trie,
    base: Trie,
    set: TransformSetView,
    effects: EffectsView,
    done: int,
) -> bool {
    forall|x: Address| #[trigger]
        trie_get(trie, x, 0) == (if absent(effects.take(done), x) {
            trie_get(base, x, 0)
        } else {
            outcome_at(set, trie_get(base, x, 0), x).unwrap()
        })
}

/// The trie after one more effect.
pub open spec fn step_trie(trie: Trie, address: Address, outcome: Option<ValueView>) -> Trie {
    match outcome {
        Some(v) => trie_insert(trie, address, v, 0),
        None => trie,
    }
}

/// One more effect keeps the progress.
pub proof fn lemma_progress_step(
    trie: Trie,
    base: Trie,
    set: TransformSetView,
    effects: EffectsView,
    done: int,
    outcome: Option<ValueView>,
)
    requires
        progress(trie, base, set, effects, done),
        grouped(effects, set),
        0 <= done < effects.len(),
        trie_wf(trie, Seq::<bool>::empty()),
        outcome_at(set, trie_get(base, effects[done].0, 0), effects[done].0) == Ok::<
            Option<ValueView>,
            Error,
        >(outcome),
    ensures
        progress(step_trie(trie, effects[done].0, outcome), base, set, effects, done + 1),
        trie_wf(step_trie(trie, effects[done].0, outcome), Seq::<bool>::empty()),
{
    let a = effects[done].0;
    let next = step_trie(trie, a, outcome);
    let empty = Seq::<bool>::empty();
    let before = effects.take(done);
    let after = effects.take(done + 1);
    assert(after[done] == effects[done]);
    assert(absent(before, a)) by {
        assert forall|j: int| 0 <= j < before.len() implies (#[trigger] before[j]).0 != a by {
            assert(before[j] == effects[j]);
        }
    }
    assert(trie_get(trie, a, 0) == trie_get(base, a, 0));
    if outcome is Some {
        lemma_insert_wf(trie, a, outcome.unwrap(), empty);
    }
    assert forall|x: Address| #[trigger]
        trie_get(next, x, 0) == (if absent(after, x) {
            trie_get(base, x, 0)
        } else {
            outcome_at(set, trie_get(base, x, 0), x).unwrap()
        }) by {
        if outcome is Some {
            lemma_insert_get(trie, a, outcome.unwrap(), empty, x);
        }
        if x == a {
            assert(!absent(after, x));
        } else {
            assert(trie_get(next, x, 0) == trie_get(trie, x, 0));
            if absent(before, x) {
                assert forall|j: int| 0 <= j < after.len() implies (#[trigger] after[j]).0
                    != x by {
                    if j < done {
                        assert(before[j] == after[j]);
                    }
                }
            } else {
                let j = choose|j: int| 0 <= j < before.len() && (#[trigger] before[j]).0 == x;
                assert(after[j] == before[j]);
            }
        }
    }
}

/// A set that is allowed and whose effects all apply can be applied.
pub proof fn lemma_outcomes_ok(base: Trie, set: TransformSetView, effects: EffectsView)
    requires
        grouped(effects, set),
        all_allowed(set),
        forall|q: int|
            0 <= q < effects.len() ==> outcome_at(
                set,
                trie_get(base, (#[trigger] effects[q]).0, 0),
                effects[q].0,
            ) is Ok,
    ensures
        commit_ok(set, trie_contents(base)),
{
    let contents = trie_contents(base);
    assert forall|a: Address| #[trigger] outcome_at(set, held_at(contents, a), a) is Ok by {
        assert(held_at(contents, a) == trie_get(base, a, 0));
        if absent(effects, a) {
            assert(crate::transform_set::transforms_at(set, a).len() == 0);
        } else {
            let q = choose|q: int| 0 <= q < effects.len() && (#[trigger] effects[q]).0 == a;
            assert(outcome_at(set, trie_get(base, effects[q].0, 0), effects[q].0) is Ok);
        }
    }
}

/// Once every effect is done, the trie holds what the set makes of what
/// `base` held.
pub proof fn lemma_progress_done(trie: Trie, base: Trie, set: TransformSetView, effects: EffectsView)
    requires
        progress(trie, base, set, effects, effects.len() as int),
        grouped(effects, set),
        all_allowed(set),
        forall|q: int|
            0 <= q < effects.len() ==> outcome_at(
                set,
                trie_get(base, (#[trigger] effects[q]).0, 0),
                effects[q].0,
            ) is Ok,
    ensures
        commit_ok(set, trie_contents(base)),
        trie_contents(trie) == commit_contents(set, trie_contents(base)),
{
    let contents = trie_contents(base);
    assert(effects.take(effects.len() as int) =~= effects);
    assert forall|a: Address|
        held_at(contents, a) == trie_get(base, a, 0) && outcome_at(
            set,
            held_at(contents, a),
            a,
        ) is Ok && trie_get(trie, a, 0) == outcome_at(set, held_at(contents, a), a).unwrap() by {
        assert(trie_get(trie, a, 0) == (if absent(effects, a) {
            trie_get(base, a, 0)
        } else {
            outcome_at(set, trie_get(base, a, 0), a).unwrap()
        }));
        if absent(effects, a) {
            assert(crate::transform_set::transforms_at(set, a).len() == 0);
        } else {
            let q = choose|q: int| 0 <= q < effects.len() && (#[trigger] effects[q]).0 == a;
            assert(outcome_at(set, trie_get(base, effects[q].0, 0), effects[q].0) is Ok);
        }
    }
    assert forall|a: Address| #[trigger] outcome_at(set, held_at(contents, a), a) is Ok by {
        assert(held_at(contents, a) == trie_get(base, a, 0));
    }
    assert(trie_contents(trie) =~= commit_contents(set, contents)) by {
        assert forall|a: Address|
            trie_contents(trie).contains_key(a) == commit_contents(set, contents).contains_key(
                a,
            ) && (trie_contents(trie).contains_key(a) ==> trie_contents(trie)[a]
                == commit_contents(set, contents)[a]) by {
            assert(held_at(contents, a) == trie_get(base, a, 0));
        }
    }
}

/// The content-addressed store of all committed states. Each state is a
/// trie whose nodes lie in one index under their digests, and is named by
/// the digest of its topmost node, its root.
#[derive(Debug)]
pub struct GlobalState {
    store: NodeStore,
    roots: DigestIndex,
}

impl View for GlobalState {
    type V = Map<Digest, Contents>;

    /// The states that the store knows, each under its root.
    closed spec fn view(&self) -> Map<Digest, Contents> {
        Map::new(
            |root: Digest| self.roots@.contains(root),
            |root: Digest| trie_contents(root_trie(self.store@, root).unwrap()),
        )
    }
}

impl GlobalState {
    /// Whether the store is consistent: every node lies under the digest
    /// of its bytes, and under every root lies the canonical trie of a
    /// state.
    pub closed spec fn wf(&self) -> bool {
        &&& self.store.wf()
        &&& self.roots.wf()
        &&& index_hashed(self.store@)
        &&& index_valid(self.store@)
        &&& forall|i: int|
            0 <= i < self.roots@.len() ==> root_ok(self.store@, #[trigger] self.roots@[i])
        &&& self.roots@.len() > 0
        &&& self.roots@[0]@ == blake2b_256(encode_empty_node())
        &&& index_find(self.store@, self.roots@[0]) == Some(NodeView::Empty)
    }

    /// A consistent store knows the empty state under the empty root.
    pub proof fn lemma_knows_empty(self)
        requires
            self.wf(),
        ensures
            self@.contains_key(spec_empty_root()),
            self@[spec_empty_root()] == Map::<Address, ValueView>::empty(),
            spec_empty_root()@ == blake2b_256(encode_empty_node()),
    {
        let first = self.roots@[0];
        spec_empty_root().lemma_view_injective(first);
        assert(root_trie(self.store@, first) == Some(Trie::Empty));
        assert(trie_contents(Trie::Empty) =~= Map::<Address, ValueView>::empty());
    }

    /// The root of every state of a consistent store is the digest that
    /// names what the state holds.
    pub proof fn lemma_root(self, root: Digest)
        requires
            self.wf(),
            self@.contains_key(root),
        ensures
            root@ == state_root(self@[root]),
    {
        let i = choose|i: int| 0 <= i < self.roots@.len() && self.roots@[i] == root;
        assert(root_ok(self.store@, self.roots@[i]));
        lemma_root_digest(self.store@, root);
    }

    /// The root of the state that holds nothing.
    pub fn empty_root() -> (r: Digest)
        ensures
            r == spec_empty_root(),
            r@ == blake2b_256(encode_empty_node()),
            r@ == state_root(Map::<Address, ValueView>::empty()),
    {
        proof {
            lemma_empty_root();
        }
        let bytes = Node::Empty.encode();
        let r = Digest::of(&bytes);
        proof {
            spec_empty_root().lemma_view_injective(r);
        }
        r
    }

    /// A store that knows the empty state and no other.
    pub fn new() -> (r: GlobalState)
        ensures
            r.wf(),
            r@ == Map::<Digest, Contents>::empty().insert(
                spec_empty_root(),
                Map::<Address, ValueView>::empty(),
            ),
    {
        let mut store = NodeStore::new();
        let digest = Self::empty_root();
        let added = store.add(digest, Node::Empty);
        let mut roots = DigestIndex::new();
        roots.push(digest);
        let r = GlobalState { store, roots };
        proof {
            assert(store@ =~= seq![(digest, NodeView::Empty)]);
            assert(store@[0].0@ == blake2b_256(crate::store::encode_node(store@[0].1)));
            assert(index_find(store@, digest) == Some(NodeView::Empty));
            assert(root_trie(store@, digest) == Some(Trie::Empty));
            assert(roots@[0] == digest);
            assert(trie_contents(Trie::Empty) =~= Map::<Address, ValueView>::empty());
            assert(r@ =~= Map::<Digest, Contents>::empty().insert(
                digest,
                Map::<Address, ValueView>::empty(),
            )) by {
                assert forall|d: Digest| r@.contains_key(d) == (d == digest) by {
                    if d == digest {
                        assert(roots@[0] == d);
                    }
                }
            }
        }
        r
    }

    /// Whether the store knows a state under the root.
    pub fn knows(&self, root: &Digest) -> (r: bool)
        requires
            self.wf(),
        ensures
            r == self@.contains_key(*root),
    {
        self.roots.find(root).is_some()
    }

    /// The pointer to the topmost node of the state under a root.
    fn pointer(&self, root: &Digest) -> (r: Option<Digest>)
        requires
            self.wf(),
            self@.contains_key(*root),
        ensures
            r == root_pointer(self.store@, *root),
            root_ok(self.store@, *root),
    {
        proof {
            let i = choose|i: int| 0 <= i < self.roots@.len() && self.roots@[i] == *root;
            assert(root_ok(self.store@, self.roots@[i]));
        }
        match self.store.find(root) {
            None => Some(*root),
            Some(i) => match self.store.node(i) {
                Node::Empty => None,
                _ => Some(*root),
            },
        }
    }

    /// What the state under `root` holds under a key, if anything: a pure
    /// lookup, refused where the root is unknown.
    pub fn read(&self, root: &Digest, key: &Key) -> (r: Result<Option<Value>, Error>)
        requires
            self.wf(),
        ensures
            match r {
                Ok(v) => self@.contains_key(*root) && held_view(v) == held_at(
                    self@[*root],
                    key.spec_address(),
                ),
                Err(e) => !self@.contains_key(*root) && e == Error::UnknownRoot,
            },
    {
        if !self.knows(root) {
            return Err(Error::UnknownRoot);
        }
        let pointer = self.pointer(root);
        let address = key.address();
        Ok(self.store.lookup(pointer, &address))
    }

    /// Applies a transform set to the state under `root` and gives the root
    /// of the state that results. All or nothing: where the root is
    /// unknown, a transform is not allowed through its key, or the
    /// transforms at some place do not merge or do not apply to what the
    /// place holds, the store stays as it was.
    /// A set that can be applied is applied, unless the store comes upon
    /// two different byte strings with the same digest.
    pub fn commit(&mut self, root: &Digest, set: &TransformSet) -> (r: Result<Digest, Error>)
        requires
            old(self).wf(),
        ensures
            final(self).wf(),
            match commit_spec(old(self)@, *root, set@) {
                Err(e) => r == Err::<Digest, Error>(e) && final(self)@ == old(self)@,
                Ok(contents) => match r {
                    Ok(new_root) => new_root@ == state_root(contents) && final(self)@ == old(
                        self,
                    )@.insert(new_root, contents),
                    Err(e) => e == Error::CorruptNode && digest_collision() && final(self)@
                        == old(self)@,
                },
            },
    {
        if !self.knows(root) {
            return Err(Error::UnknownRoot);
        }
        if !check_access(set) {
            return Err(Error::InsufficientAccessRights);
        }
        let base = self.pointer(root);
        let ghost index0 = self.store@;
        let ghost base_trie = root_trie(index0, *root).unwrap();
        let ghost contents0 = trie_contents(base_trie);
        let ghost empty = Seq::<bool>::empty();
        assert(self@[*root] == contents0);
        proof {
            assert forall|a: Address| held_at(contents0, a) == trie_get(base_trie, a, 0) by {}
        }
        let effects = effective(set);
        let ghost ev = effects_view(effects@);
        let mut outcomes: Vec<Option<Value>> = Vec::new();
        let mut mismatch = false;
        let mut overflow = false;
        let ghost mut mismatched: int = 0;
        let ghost mut overflowed: int = 0;
        let mut q: usize = 0;
        while q < effects.len()
            invariant
                q <= effects.len(),
                outcomes.len() == q,
                ev == effects_view(effects@),
                ev.len() == effects.len(),
                grouped(ev, set@),
                self.wf(),
                *self == *old(self),
                self@.contains_key(*root),
                base == root_pointer(self.store@, *root),
                index_trie(self.store@, base, 0) == Some(base_trie),
                contents0 == trie_contents(base_trie),
                self@[*root] == contents0,
                all_allowed(set@),
                forall|j: int|
                    0 <= j < q ==> (outcome_at(
                        set@,
                        trie_get(base_trie, (#[trigger] ev[j]).0, 0),
                        ev[j].0,
                    ) matches Ok(v) ==> v == held_view(outcomes@[j])),
                mismatch ==> 0 <= mismatched < q && outcome_at(
                    set@,
                    trie_get(base_trie, ev[mismatched].0, 0),
                    ev[mismatched].0,
                ) == Err::<Option<ValueView>, Error>(Error::TypeMismatch),
                !mismatch ==> forall|j: int|
                    0 <= j < q ==> outcome_at(
                        set@,
                        trie_get(base_trie, (#[trigger] ev[j]).0, 0),
                        ev[j].0,
                    ) != Err::<Option<ValueView>, Error>(Error::TypeMismatch),
                overflow ==> 0 <= overflowed < q && outcome_at(
                    set@,
                    trie_get(base_trie, ev[overflowed].0, 0),
                    ev[overflowed].0,
                ) is Err,
                !overflow ==> forall|j: int|
                    0 <= j < q ==> (outcome_at(
                        set@,
                        trie_get(base_trie, (#[trigger] ev[j]).0, 0),
                        ev[j].0,
                    ) matches Err(e) ==> e == Error::TypeMismatch),
            decreases effects.len() - q,
        {
            assert(ev[q as int] == effects@[q as int]@);
            let address = effects[q].address;
            let held = self.store.lookup(base, &address);
            let outcome = match &effects[q].merged {
                Ok(merged) => merged.apply_to(held),
                Err(e) => Err(*e),
            };
            match outcome {
                Ok(value) => {
                    outcomes.push(value);
                },
                Err(Error::TypeMismatch) => {
                    mismatch = true;
                    proof {
                        mismatched = q as int;
                    }
                    outcomes.push(None);
                },
                Err(_) => {
                    overflow = true;
                    proof {
                        overflowed = q as int;
                    }
                    outcomes.push(None);
                },
            }
            q = q + 1;
        }
        if mismatch {
            proof {
                let a = ev[mismatched].0;
                assert(held_at(contents0, a) == trie_get(base_trie, a, 0));
                assert(mismatch_at(set@, contents0, a));
                assert(!(outcome_at(set@, held_at(contents0, a), a) is Ok));
            }
            return Err(Error::TypeMismatch);
        }
        if overflow {
            proof {
                let a = ev[overflowed].0;
                assert(held_at(contents0, a) == trie_get(base_trie, a, 0));
                assert(!(outcome_at(set@, held_at(contents0, a), a) is Ok));
                assert forall|a: Address| !mismatch_at(set@, contents0, a) by {
                    assert(held_at(contents0, a) == trie_get(base_trie, a, 0));
                    if absent(ev, a) {
                        assert(crate::transform_set::transforms_at(set@, a).len() == 0);
                    } else {
                        let j = choose|j: int| 0 <= j < ev.len() && (#[trigger] ev[j]).0 == a;
                        assert(outcome_at(set@, trie_get(base_trie, ev[j].0, 0), ev[j].0)
                            != Err::<Option<ValueView>, Error>(Error::TypeMismatch));
                    }
                }
            }
            return Err(Error::Overflow);
        }
        proof {
            assert forall|j: int| 0 <= j < ev.len() implies outcome_at(
                set@,
                trie_get(base_trie, (#[trigger] ev[j]).0, 0),
                ev[j].0,
            ) == Ok::<Option<ValueView>, Error>(held_view(outcomes@[j])) by {}
            lemma_outcomes_ok(base_trie, set@, ev);
        }
        let mut current = base;
        let mut p: usize = 0;
        assert(progress(base_trie, base_trie, set@, ev, 0)) by {
            assert forall|x: Address| absent(ev.take(0), x) by {}
        }
        while p < effects.len()
            invariant
                p <= effects.len(),
                outcomes.len() == effects.len(),
                ev == effects_view(effects@),
                ev.len() == effects.len(),
                grouped(ev, set@),
                extends(index0, self.store@),
                self.store.wf(),
                index_hashed(self.store@),
                index_valid(self.store@),
                self.roots == old(self).roots,
                index0 == old(self).store@,
                old(self).wf(),
                index_trie(self.store@, base, 0) == Some(base_trie),
                index_trie(self.store@, current, 0) is Some,
                current is None ==> base is None,
                trie_wf(index_trie(self.store@, current, 0).unwrap(), empty),
                empty == Seq::<bool>::empty(),
                progress(
                    index_trie(self.store@, current, 0).unwrap(),
                    base_trie,
                    set@,
                    ev,
                    p as int,
                ),
                forall|j: int|
                    0 <= j < ev.len() ==> outcome_at(
                        set@,
                        trie_get(base_trie, (#[trigger] ev[j]).0, 0),
                        ev[j].0,
                    ) == Ok::<Option<ValueView>, Error>(held_view(outcomes@[j])),
                contents0 == trie_contents(base_trie),
                commit_ok(set@, contents0),
                all_allowed(set@),
                old(self)@.contains_key(*root),
                old(self)@[*root] == contents0,
            decreases effects.len() - p,
        {
            assert(ev[p as int] == effects@[p as int]@);
            let address = effects[p].address;
            let ghost trie = index_trie(self.store@, current, 0).unwrap();
            let ghost before = self.store@;
            proof {
                lemma_progress_step(
                    trie,
                    base_trie,
                    set@,
                    ev,
                    p as int,
                    held_view(outcomes@[p as int]),
                );
            }
            match &outcomes[p] {
                None => {},
                Some(value) => {
                    proof {
                        assert(path_of(address, 0) =~= empty);
                    }
                    match self.store.insert(current, 0, address, value.clone()) {
                        Ok(d) => {
                            current = Some(d);
                            proof {
                                crate::store::lemma_extends_transitive(
                                    index0,
                                    before,
                                    self.store@,
                                );
                                lemma_trie_extends(before, self.store@, base, 0);
                            }
                        },
                        Err(_) => {
                            proof {
                                crate::store::lemma_extends_transitive(
                                    index0,
                                    before,
                                    self.store@,
                                );
                                lemma_state_extends(*old(self), *self);
                            }
                            return Err(Error::CorruptNode);
                        },
                    }
                },
            }
            p = p + 1;
        }
        let ghost last = index_trie(self.store@, current, 0).unwrap();
        proof {
            assert forall|j: int| 0 <= j < ev.len() implies outcome_at(
                set@,
                trie_get(base_trie, (#[trigger] ev[j]).0, 0),
                ev[j].0,
            ) is Ok by {}
            lemma_progress_done(last, base_trie, set@, ev);
            lemma_canonical_trie(last);
            lemma_pointer(self.store@, current, 0);
        }
        let new_root = match current {
            None => *root,
            Some(d) => d,
        };
        let ghost index1 = self.store@;
        proof {
            lemma_find_extends(index0, index1, *root);
            assert forall|i: int| 0 <= i < self.roots@.len() implies root_ok(
                index1,
                #[trigger] self.roots@[i],
            ) && root_trie(index1, self.roots@[i]) == root_trie(index0, self.roots@[i]) by {
                lemma_root_extends(index0, index1, self.roots@[i]);
            }
            assert(root_trie(index1, new_root) == Some(last));
            lemma_root_digest_of(index1, new_root);
            lemma_find_extends(index0, index1, self.roots@[0]);
        }
        if !self.knows(&new_root) {
            self.roots.push(new_root);
        }
        proof {
            let contents = commit_contents(set@, contents0);
            assert(trie_contents(last) == contents);
            assert forall|i: int| 0 <= i < self.roots@.len() implies root_ok(
                self.store@,
                #[trigger] self.roots@[i],
            ) by {
                if i < old(self).roots@.len() {
                    assert(self.roots@[i] == old(self).roots@[i]);
                }
            }
            assert(self@ =~= old(self)@.insert(new_root, contents)) by {
                assert forall|d: Digest|
                    self@.contains_key(d) == old(self)@.insert(new_root, contents).contains_key(
                        d,
                    ) by {
                    if old(self).roots@.contains(d) {
                        let i = choose|i: int|
                            0 <= i < old(self).roots@.len() && old(self).roots@[i] == d;
                        assert(self.roots@[i] == d);
                    }
                    if d == new_root {
                        if !old(self).roots@.contains(d) {
                            assert(self.roots@[self.roots@.len() - 1] == d);
                        }
                    }
                }
                assert forall|d: Digest| self@.contains_key(d) implies self@[d] == old(
                    self,
                )@.insert(new_root, contents)[d] by {
                    if d != new_root {
                        let i = choose|i: int|
                            0 <= i < old(self).roots@.len() && old(self).roots@[i] == d;
                        assert(root_trie(index1, old(self).roots@[i]) == root_trie(
                            index0,
                            old(self).roots@[i],
                        ));
                    }
                }
            }
        }
        Ok(new_root)
    }
}

/// A commit comes to the same, success or refusal, in whatever order the
/// set holds the transforms of different places: two sets with the same
/// entries, and at every place the same transforms in the same order, make
/// the same state of the same state.
pub proof fn lemma_commit_order(
    states: Map<Digest, Contents>,
    root: Digest,
    first: TransformSetView,
    second: TransformSetView,
)
    requires
        first.to_multiset() == second.to_multiset(),
        forall|a: Address|
            crate::transform_set::transforms_at(first, a) == crate::transform_set::transforms_at(
                second,
                a,
            ),
    ensures
        commit_spec(states, root, first) == commit_spec(states, root, second),
{
    first.to_multiset_ensures();
    second.to_multiset_ensures();
    assert(all_allowed(first) == all_allowed(second)) by {
        if all_allowed(first) {
            assert forall|i: int| 0 <= i < second.len() implies crate::transform_set::allowed(
                #[trigger] second[i].0,
                second[i].1,
            ) by {
                assert(second.contains(second[i]));
                assert(second.to_multiset().count(second[i]) > 0);
                assert(first.to_multiset().count(second[i]) > 0);
                assert(first.contains(second[i]));
                let j = choose|j: int| 0 <= j < first.len() && first[j] == second[i];
                assert(crate::transform_set::allowed(first[j].0, first[j].1));
            }
        }
        if all_allowed(second) {
            assert forall|i: int| 0 <= i < first.len() implies crate::transform_set::allowed(
                #[trigger] first[i].0,
                first[i].1,
            ) by {
                assert(first.contains(first[i]));
                assert(first.to_multiset().count(first[i]) > 0);
                assert(second.to_multiset().count(first[i]) > 0);
                assert(second.contains(first[i]));
                let j = choose|j: int| 0 <= j < second.len() && second[j] == first[i];
                assert(crate::transform_set::allowed(second[j].0, second[j].1));
            }
        }
    }
    if states.contains_key(root) {
        let contents = states[root];
        assert forall|a: Address|
            outcome_at(first, held_at(contents, a), a) == outcome_at(
                second,
                held_at(contents, a),
                a,
            ) by {
            assert(crate::transform_set::transforms_at(first, a)
                == crate::transform_set::transforms_at(second, a));
        }
        assert(commit_ok(first, contents) == commit_ok(second, contents)) by {
            if commit_ok(first, contents) {
                assert forall|a: Address| #[trigger]
                    outcome_at(second, held_at(contents, a), a) is Ok by {
                    assert(outcome_at(first, held_at(contents, a), a) is Ok);
                }
            }
            if commit_ok(second, contents) {
                assert forall|a: Address| #[trigger]
                    outcome_at(first, held_at(contents, a), a) is Ok by {
                    assert(outcome_at(second, held_at(contents, a), a) is Ok);
                }
            }
        }
        assert(commit_contents(first, contents) =~= commit_contents(second, contents));
        assert(refusal(first, contents) == refusal(second, contents)) by {
            if exists|a: Address| mismatch_at(first, contents, a) {
                let a = choose|a: Address| mismatch_at(first, contents, a);
                assert(mismatch_at(second, contents, a));
            }
            if exists|a: Address| mismatch_at(second, contents, a) {
                let a = choose|a: Address| mismatch_at(second, contents, a);
                assert(mismatch_at(first, contents, a));
            }
        }
    }
}

/// A set that holds a write through a reference without the right to
/// write is refused, whatever else it holds.
pub proof fn lemma_write_needs_right(
    states: Map<Digest, Contents>,
    root: Digest,
    set: TransformSetView,
    i: int,
)
    requires
        0 <= i < set.len(),
        set[i].0 is URef,
        !set[i].0.spec_access_rights().unwrap().write,
        set[i].1 is Write,
    ensures
        commit_spec(states, root, set) is Err,
        states.contains_key(root) ==> commit_spec(states, root, set) == Err::<Contents, Error>(
            Error::InsufficientAccessRights,
        ),
{
    assert(!crate::transform_set::allowed(set[i].0, set[i].1));
}

/// A key that the set does not speak of holds after the commit what it
/// held before.
pub proof fn lemma_commit_frame(set: TransformSetView, contents: Contents, address: Address)
    requires
        crate::transform_set::transforms_at(set, address).len() == 0,
    ensures
        held_at(commit_contents(set, contents), address) == held_at(contents, address),
{
}

/// A store whose index grew and whose roots stayed knows the states that
/// it knew.
proof fn lemma_state_extends(before: GlobalState, after: GlobalState)
    requires
        before.wf(),
        after.store.wf(),
        after.roots.wf(),
        index_hashed(after.store@),
        index_valid(after.store@),
        extends(before.store@, after.store@),
        after.roots == before.roots,
    ensures
        after.wf(),
        after@ == before@,
{
    assert forall|i: int| 0 <= i < after.roots@.len() implies root_ok(
        after.store@,
        #[trigger] after.roots@[i],
    ) && root_trie(after.store@, after.roots@[i]) == root_trie(
        before.store@,
        after.roots@[i],
    ) by {
        assert(root_ok(before.store@, before.roots@[i]));
        lemma_root_extends(before.store@, after.store@, after.roots@[i]);
    }
    lemma_find_extends(before.store@, after.store@, before.roots@[0]);
    assert(after@ =~= before@) by {
        assert forall|d: Digest| after@.contains_key(d) implies after@[d] == before@[d] by {
            let i = choose|i: int| 0 <= i < after.roots@.len() && after.roots@[i] == d;
            assert(root_trie(after.store@, after.roots@[i]) == root_trie(
                before.store@,
                after.roots@[i],
            ));
        }
    }
}

/// The root of the empty state names the state that holds nothing.
pub proof fn lemma_empty_root()
    ensures
        blake2b_256(encode_empty_node()) == state_root(Map::<Address, ValueView>::empty()),
{
    assert(trie_contents(Trie::Empty) =~= Map::<Address, ValueView>::empty());
    lemma_canonical_trie(Trie::Empty);
}

/// A root under which a hashed index holds a canonical trie is the digest
/// that names what the trie holds.
pub proof fn lemma_root_digest(index: IndexView, root: Digest)
    requires
        index_hashed(index),
        root_ok(index, root),
    ensures
        root@ == state_root(trie_contents(root_trie(index, root).unwrap())),
{
    lemma_root_digest_of(index, root);
    lemma_canonical_trie(root_trie(index, root).unwrap());
}

/// A root under which a hashed index holds a trie is the root of that trie.
pub proof fn lemma_root_digest_of(index: IndexView, root: Digest)
    requires
        index_hashed(index),
        index_find(index, root) is Some,
        root_trie(index, root) is Some,
    ensures
        root@ == trie_root(root_trie(index, root).unwrap()),
{
    crate::store::lemma_index_position(index, root, 0);
    let p = crate::store::index_position(index, root, 0);
    assert(index[p].0@ == blake2b_256(crate::store::encode_node(index[p].1)));
    lemma_pointer(index, root_pointer(index, root), 0);
}

/// An index that grows keeps the states that it had.
pub proof fn lemma_root_extends(before: IndexView, after: IndexView, root: Digest)
    requires
        extends(before, after),
        root_ok(before, root),
    ensures
        root_ok(after, root),
        root_trie(after, root) == root_trie(before, root),
{
    lemma_find_extends(before, after, root);
    lemma_trie_extends(before, after, root_pointer(before, root), 0);
}

} // verus!
