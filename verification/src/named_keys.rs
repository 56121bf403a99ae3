use vstd::prelude::*;
use crate::key::Key;

verus! {

/// The mathematical form of a named-key table: names with their keys, in the
/// order in which the names were first entered.
pub type NamedKeysView = Seq<(Seq<char>, Key)>;

/// The first position at or after `from` whose name is `name`, or the
/// table's length where there is none.
pub open spec fn position_from(table: NamedKeysView, name: Seq<char>, from: int) -> int
    decreases table.len() - from,
{
    if from < 0 || from >= table.len() {
        table.len() as int
    } else if table[from].0 == name {
        from
    } else {
        position_from(table, name, from + 1)
    }
}

/// The key entered under `name`, if any.
pub open spec fn named_get(table: NamedKeysView, name: Seq<char>) -> Option<Key> {
    let p = position_from(table, name, 0);
    if p < table.len() {
        Some(table[p].1)
    } else {
        None
    }
}

/// The table after `key` is entered under `name`: in place of the key that
/// the name had, or else at the end.
pub open spec fn named_insert(table: NamedKeysView, name: Seq<char>, key: Key) -> NamedKeysView {
    let p = position_from(table, name, 0);
    if p < table.len() {
        table.update(p, (name, key))
    } else {
        table.push((name, key))
    }
}

/// The table after the entries of `extra` from position `from` on are
/// entered, one after the other.
pub open spec fn named_merge_from(table: NamedKeysView, extra: NamedKeysView, from: int)
    -> NamedKeysView
    decreases extra.len() - from,
{
    if from < 0 || from >= extra.len() {
        table
    } else {
        named_merge_from(named_insert(table, extra[from].0, extra[from].1), extra, from + 1)
    }
}

/// The table after all entries of `extra` are entered, one after the other.
pub open spec fn named_merge(table: NamedKeysView, extra: NamedKeysView) -> NamedKeysView {
    named_merge_from(table, extra, 0)
}

/// Entering the entries of two lists one list after the other is entering
/// the entries of their concatenation.
pub proof fn lemma_named_merge_concat(
    table: NamedKeysView,
    first: NamedKeysView,
    second: NamedKeysView,
)
    ensures
        named_merge(table, first + second) == named_merge(named_merge(table, first), second),
{
    lemma_named_merge_concat_from(table, first, second, 0);
}

proof fn lemma_named_merge_concat_from(
    table: NamedKeysView,
    first: NamedKeysView,
    second: NamedKeysView,
    from: int,
)
    requires
        0 <= from <= first.len(),
    ensures
        named_merge_from(table, first + second, from) == named_merge(
            named_merge_from(table, first, from),
            second,
        ),
    decreases first.len() - from,
{
    let both = first + second;
    if from < first.len() {
        assert(both[from] == first[from]);
        lemma_named_merge_concat_from(
            named_insert(table, first[from].0, first[from].1),
            first,
            second,
            from + 1,
        );
    } else {
        lemma_named_merge_shift(table, first, second, 0);
    }
}

proof fn lemma_named_merge_shift(
    table: NamedKeysView,
    first: NamedKeysView,
    second: NamedKeysView,
    from: int,
)
    requires
        0 <= from <= second.len(),
    ensures
        named_merge_from(table, first + second, first.len() + from) == named_merge_from(
            table,
            second,
            from,
        ),
    decreases second.len() - from,
{
    let both = first + second;
    if from < second.len() {
        assert(both[first.len() + from] == second[from]);
        lemma_named_merge_shift(
            named_insert(table, second[from].0, second[from].1),
            first,
            second,
            from + 1,
        );
    }
}

/// A key under its name.
#[derive(Debug)]
pub struct NamedKey {
    pub name: String,
    pub key: Key,
}

impl View for NamedKey {
    type V = (Seq<char>, Key);

    open spec fn view(&self) -> (Seq<char>, Key) {
        (self.name@, self.key)
    }
}

impl Clone for NamedKey {
    fn clone(&self) -> (r: NamedKey)
        ensures
            r@ == self@,
    {
        NamedKey { name: self.name.clone(), key: self.key }
    }
}

/// A table from human-readable names to keys.
#[derive(Debug)]
pub struct NamedKeys {
    pub entries: Vec<NamedKey>,
}

impl View for NamedKeys {
    type V = NamedKeysView;

    open spec fn view(&self) -> NamedKeysView {
        self.entries@.map_values(|e: NamedKey| e@)
    }
}

impl NamedKeys {
    /// The empty table.
    pub fn new() -> (r: NamedKeys)
        ensures
            r@ == Seq::<(Seq<char>, Key)>::empty(),
    {
        let r = NamedKeys { entries: Vec::new() };
        assert(r@ =~= Seq::<(Seq<char>, Key)>::empty());
        r
    }

    /// The number of entries.
    pub fn len(&self) -> (r: usize)
        ensures
            r == self@.len(),
    {
        self.entries.len()
    }

    /// The position of `name`, or the number of entries where it has none.
    fn position(&self, name: &String) -> (r: usize)
        ensures
            r == position_from(self@, name@, 0),
            r <= self@.len(),
    {
        let mut i: usize = 0;
        while i < self.entries.len()
            invariant
                i <= self.entries.len(),
                self@.len() == self.entries.len(),
                position_from(self@, name@, 0) == position_from(self@, name@, i as int),
            decreases self.entries.len() - i,
        {
            assert(self@[i as int] == self.entries@[i as int]@);
            if self.entries[i].name == *name {
                return i;
            }
            i = i + 1;
        }
        i
    }

    /// The key entered under `name`, if any.
    pub fn get(&self, name: &str) -> (r: Option<Key>)
        ensures
            r == named_get(self@, name@),
    {
        let owned = name.to_owned();
        let p = self.position(&owned);
        if p < self.entries.len() {
            assert(self@[p as int] == self.entries@[p as int]@);
            Some(self.entries[p].key)
        } else {
            None
        }
    }

    /// Enters `key` under `name`: in place of the key that the name had, or
    /// else at the end.
    pub fn insert(&mut self, name: String, key: Key)
        ensures
            final(self)@ == named_insert(old(self)@, name@, key),
    {
        let p = self.position(&name);
        let entry = NamedKey { name, key };
        if p < self.entries.len() {
            self.entries[p] = entry;
            assert(self@ =~= named_insert(old(self)@, name@, key));
        } else {
            self.entries.push(entry);
            assert(self@ =~= named_insert(old(self)@, name@, key));
        }
    }

    /// Enters all entries of `extra`, one after the other.
    pub fn merge(&mut self, extra: &NamedKeys)
        ensures
            final(self)@ == named_merge(old(self)@, extra@),
    {
        let mut i: usize = 0;
        while i < extra.entries.len()
            invariant
                i <= extra.entries.len(),
                extra@.len() == extra.entries.len(),
                named_merge(old(self)@, extra@) == named_merge_from(self@, extra@, i as int),
            decreases extra.entries.len() - i,
        {
            assert(extra@[i as int] == extra.entries@[i as int]@);
            let entry = extra.entries[i].clone();
            self.insert(entry.name, entry.key);
            i = i + 1;
        }
    }

    /// Adds the entries of `extra` behind the entries of the table.
    pub fn append(&mut self, extra: &NamedKeys)
        ensures
            final(self)@ == old(self)@ + extra@,
    {
        let mut i: usize = 0;
        while i < extra.entries.len()
            invariant
                i <= extra.entries.len(),
                extra@.len() == extra.entries.len(),
                self@ == old(self)@ + extra@.subrange(0, i as int),
            decreases extra.entries.len() - i,
        {
            assert(extra@[i as int] == extra.entries@[i as int]@);
            let entry = extra.entries[i].clone();
            let ghost before = self@;
            self.entries.push(entry);
            assert(self@ =~= before.push(extra@[i as int]));
            assert(extra@.subrange(0, i + 1) =~= extra@.subrange(0, i as int).push(
                extra@[i as int],
            ));
            assert(self@ =~= old(self)@ + extra@.subrange(0, i + 1));
            i = i + 1;
        }
        assert(extra@.subrange(0, i as int) =~= extra@);
    }
}

impl Clone for NamedKeys {
    fn clone(&self) -> (r: NamedKeys)
        ensures
            r@ == self@,
    {
        let mut r = NamedKeys { entries: Vec::new() };
        assert(r@ =~= Seq::<(Seq<char>, Key)>::empty());
        r.append(self);
        assert(r@ =~= self@);
        r
    }
}

impl PartialEq for NamedKeys {
    fn eq(&self, other: &NamedKeys) -> (r: bool) {
        if self.entries.len() != other.entries.len() {
            return false;
        }
        let mut i: usize = 0;
        while i < self.entries.len()
            invariant
                i <= self.entries.len(),
                self.entries.len() == other.entries.len(),
                self@.len() == self.entries.len(),
                other@.len() == other.entries.len(),
                forall|j: int| 0 <= j < i ==> self@[j] == other@[j],
            decreases self.entries.len() - i,
        {
            assert(self@[i as int] == self.entries@[i as int]@);
            assert(other@[i as int] == other.entries@[i as int]@);
            if !(self.entries[i].name == other.entries[i].name && self.entries[i].key
                == other.entries[i].key) {
                return false;
            }
            i = i + 1;
        }
        assert(self@ =~= other@);
        true
    }
}

impl vstd::std_specs::cmp::PartialEqSpecImpl for NamedKeys {
    open spec fn obeys_eq_spec() -> bool {
        true
    }

    open spec fn eq_spec(&self, other: &NamedKeys) -> bool {
        self@ == other@
    }
}

} // verus!
