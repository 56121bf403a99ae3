use core::cmp::Ordering;
use vstd::prelude::*;

verus! {

/// Whether two 32-byte identifiers are the same.
pub fn same_bytes(a: &[u8; 32], b: &[u8; 32]) -> (r: bool)
    ensures
        r == (*a == *b),
{
    let mut i: usize = 0;
    while i < 32
        invariant
            i <= 32,
            forall|j: int| 0 <= j < i ==> a@[j] == b@[j],
        decreases 32 - i,
    {
        if a[i] != b[i] {
            return false;
        }
        i = i + 1;
    }
    assert(*a =~= *b);
    true
}

/// -1, 0 or 1 as, from position `from` on, the first byte in which two
/// byte strings of one length differ is the smaller in the first, there is
/// none, or it is the larger in the first.
pub open spec fn bytes_order(a: Seq<u8>, b: Seq<u8>, from: int) -> int
    decreases a.len() - from,
{
    if from < 0 || from >= a.len() || from >= b.len() {
        0
    } else if a[from] < b[from] {
        -1
    } else if a[from] > b[from] {
        1
    } else {
        bytes_order(a, b, from + 1)
    }
}

/// Byte strings of one length are in no order exactly when they agree
/// from `from` on, and the order turns with its arguments.
pub proof fn lemma_bytes_order(a: Seq<u8>, b: Seq<u8>, from: int)
    requires
        a.len() == b.len(),
        0 <= from,
    ensures
        -1 <= bytes_order(a, b, from) <= 1,
        bytes_order(a, b, from) == 0 <==> (forall|j: int| from <= j < a.len() ==> a[j] == b[j]),
        bytes_order(b, a, from) == -bytes_order(a, b, from),
    decreases a.len() - from,
{
    if from < a.len() {
        lemma_bytes_order(a, b, from + 1);
    }
}

/// The order of byte strings of one length is transitive.
pub proof fn lemma_bytes_order_transitive(a: Seq<u8>, b: Seq<u8>, c: Seq<u8>, from: int)
    requires
        a.len() == b.len(),
        b.len() == c.len(),
        0 <= from,
        bytes_order(a, b, from) <= 0,
        bytes_order(b, c, from) <= 0,
    ensures
        bytes_order(a, c, from) <= 0,
        bytes_order(a, c, from) == 0 ==> bytes_order(a, b, from) == 0 && bytes_order(b, c, from)
            == 0,
    decreases a.len() - from,
{
    if from < a.len() {
        lemma_bytes_order(a, b, from + 1);
        lemma_bytes_order(b, c, from + 1);
        if a[from] == b[from] && b[from] == c[from] {
            lemma_bytes_order_transitive(a, b, c, from + 1);
        }
    }
}

/// -1, 0 or 1 as the first identifier comes before, is, or comes after
/// the second in the order of their bytes.
pub fn compare_bytes(a: &[u8; 32], b: &[u8; 32]) -> (r: i8)
    ensures
        r == bytes_order(a@, b@, 0),
{
    let mut i: usize = 0;
    while i < 32
        invariant
            i <= 32,
            bytes_order(a@, b@, 0) == bytes_order(a@, b@, i as int),
        decreases 32 - i,
    {
        if a[i] < b[i] {
            return -1;
        }
        if a[i] > b[i] {
            return 1;
        }
        i = i + 1;
    }
    0
}

/// What the holder of a reference may do with the value behind it.
#[derive(Debug, Clone, Copy, PartialEq, Eq, Structural)]
pub struct AccessRights {
    pub read: bool,
    pub write: bool,
    pub add: bool,
}

impl AccessRights {
    /// The bitmask of the rights: 1 for read, 2 for write, 4 for add.
    pub open spec fn spec_bits(self) -> u8 {
        ((if self.read { 1int } else { 0int }) + (if self.write { 2int } else { 0int })
            + (if self.add { 4int } else { 0int })) as u8
    }

    /// No right at all.
    pub fn none() -> (r: AccessRights)
        ensures
            r == (AccessRights { read: false, write: false, add: false }),
    {
        AccessRights { read: false, write: false, add: false }
    }

    /// The right to read only.
    pub fn read_only() -> (r: AccessRights)
        ensures
            r == (AccessRights { read: true, write: false, add: false }),
    {
        AccessRights { read: true, write: false, add: false }
    }

    /// Every right.
    pub fn all() -> (r: AccessRights)
        ensures
            r == (AccessRights { read: true, write: true, add: true }),
    {
        AccessRights { read: true, write: true, add: true }
    }

    /// The rights of a bitmask, or `None` where a bit above the third is set.
    pub open spec fn spec_from_bits(bits: u8) -> Option<AccessRights> {
        if bits >= 8 {
            None
        } else {
            Some(
                AccessRights {
                    read: bits % 2 == 1,
                    write: (bits / 2) % 2 == 1,
                    add: (bits / 4) % 2 == 1,
                },
            )
        }
    }

    /// The rights of a bitmask are the rights whose bitmask it is.
    pub proof fn lemma_bits(self)
        ensures
            Self::spec_from_bits(self.spec_bits()) == Some(self),
            self.spec_bits() < 8,
    {
    }

    /// The rights of a bitmask, or `None` where a bit above the third is set.
    #[verifier::when_used_as_spec(spec_from_bits)]
    pub fn from_bits(bits: u8) -> (r: Option<AccessRights>)
        ensures
            r == Self::spec_from_bits(bits),
            bits < 8 ==> r.is_some() && r.unwrap().spec_bits() == bits,
            bits >= 8 ==> r.is_none(),
    {
        if bits >= 8 {
            None
        } else {
            Some(
                AccessRights {
                    read: bits % 2 == 1,
                    write: (bits / 2) % 2 == 1,
                    add: (bits / 4) % 2 == 1,
                },
            )
        }
    }

    /// The bitmask of the rights.
    #[verifier::when_used_as_spec(spec_bits)]
    pub fn bits(self) -> (r: u8)
        ensures
            r == self.spec_bits(),
            r < 8,
    {
        let read: u8 = if self.read { 1 } else { 0 };
        let write: u8 = if self.write { 2 } else { 0 };
        let add: u8 = if self.add { 4 } else { 0 };
        read + write + add
    }
}

/// The variant of a key, without its payload.
#[derive(Debug, Clone, Copy, PartialEq, Eq, Structural)]
pub enum KeyKind {
    Account,
    URef,
    Hash,
    Local,
}

impl KeyKind {
    /// The byte that stands for the variant in encodings and trie paths.
    pub open spec fn spec_tag(self) -> u8 {
        match self {
            KeyKind::Account => 0,
            KeyKind::URef => 1,
            KeyKind::Hash => 2,
            KeyKind::Local => 3,
        }
    }

    /// The byte that stands for the variant in encodings and trie paths.
    #[verifier::when_used_as_spec(spec_tag)]
    pub fn tag(self) -> (r: u8)
        ensures
            r == self.spec_tag(),
    {
        match self {
            KeyKind::Account => 0,
            KeyKind::URef => 1,
            KeyKind::Hash => 2,
            KeyKind::Local => 3,
        }
    }
}

/// Where a value lives in global state: the variant of a key and its
/// identifier, without the capability that a reference carries.
#[derive(Debug, Clone, Copy)]
pub struct Address {
    pub kind: KeyKind,
    pub id: [u8; 32],
}

impl PartialEq for Address {
    fn eq(&self, other: &Address) -> (r: bool) {
        self.kind == other.kind && same_bytes(&self.id, &other.id)
    }
}

impl Eq for Address {

}

impl vstd::std_specs::cmp::PartialEqSpecImpl for Address {
    open spec fn obeys_eq_spec() -> bool {
        true
    }

    open spec fn eq_spec(&self, other: &Address) -> bool {
        *self == *other
    }
}

/// An address into global state. A `URef` is a capability: besides the
/// identifier it carries the rights of its holder.
#[derive(Debug, Clone, Copy)]
pub enum Key {
    Account([u8; 32]),
    URef([u8; 32], AccessRights),
    Hash([u8; 32]),
    Local([u8; 32]),
}

impl Key {
    /// The variant of the key.
    pub open spec fn spec_kind(&self) -> KeyKind {
        match *self {
            Key::Account(_) => KeyKind::Account,
            Key::URef(_, _) => KeyKind::URef,
            Key::Hash(_) => KeyKind::Hash,
            Key::Local(_) => KeyKind::Local,
        }
    }

    /// The identifier of the key.
    pub open spec fn spec_id(&self) -> [u8; 32] {
        match *self {
            Key::Account(id) => id,
            Key::URef(id, _) => id,
            Key::Hash(id) => id,
            Key::Local(id) => id,
        }
    }

    /// The place that the key addresses: a reference addresses the same place
    /// whatever rights it carries.
    pub open spec fn spec_address(&self) -> Address {
        Address { kind: self.spec_kind(), id: self.spec_id() }
    }

    /// The variant of the key.
    #[verifier::when_used_as_spec(spec_kind)]
    pub fn kind(&self) -> (r: KeyKind)
        ensures
            r == self.spec_kind(),
    {
        match self {
            Key::Account(_) => KeyKind::Account,
            Key::URef(_, _) => KeyKind::URef,
            Key::Hash(_) => KeyKind::Hash,
            Key::Local(_) => KeyKind::Local,
        }
    }

    /// The identifier of the key.
    #[verifier::when_used_as_spec(spec_id)]
    pub fn id(&self) -> (r: [u8; 32])
        ensures
            r == self.spec_id(),
    {
        match self {
            Key::Account(id) => *id,
            Key::URef(id, _) => *id,
            Key::Hash(id) => *id,
            Key::Local(id) => *id,
        }
    }

    /// The place that the key addresses.
    #[verifier::when_used_as_spec(spec_address)]
    pub fn address(&self) -> (r: Address)
        ensures
            r == self.spec_address(),
    {
        Address { kind: self.kind(), id: self.id() }
    }

    /// The key as a pointer to a stored value: only a reference is one.
    pub open spec fn spec_to_u_ptr(&self) -> Option<Key> {
        match *self {
            Key::URef(_, _) => Some(*self),
            _ => None,
        }
    }

    /// The key as a pointer to a stored value: only a reference is one.
    #[verifier::when_used_as_spec(spec_to_u_ptr)]
    pub fn to_u_ptr(&self) -> (r: Option<Key>)
        ensures
            r == self.spec_to_u_ptr(),
    {
        match self {
            Key::URef(_, _) => Some(*self),
            _ => None,
        }
    }

    /// The key as a pointer to a contract: a content hash or a reference
    /// is one.
    pub open spec fn spec_to_c_ptr(&self) -> Option<Key> {
        match *self {
            Key::URef(_, _) => Some(*self),
            Key::Hash(_) => Some(*self),
            _ => None,
        }
    }

    /// The key as a pointer to a contract: a content hash or a reference
    /// is one.
    #[verifier::when_used_as_spec(spec_to_c_ptr)]
    pub fn to_c_ptr(&self) -> (r: Option<Key>)
        ensures
            r == self.spec_to_c_ptr(),
    {
        match self {
            Key::URef(_, _) => Some(*self),
            Key::Hash(_) => Some(*self),
            _ => None,
        }
    }

    /// The rights that the key carries: those of a reference, and none for
    /// the other variants.
    pub open spec fn spec_access_rights(&self) -> Option<AccessRights> {
        match *self {
            Key::URef(_, rights) => Some(rights),
            _ => None,
        }
    }

    /// The rights that the key carries.
    #[verifier::when_used_as_spec(spec_access_rights)]
    pub fn access_rights(&self) -> (r: Option<AccessRights>)
        ensures
            r == self.spec_access_rights(),
    {
        match self {
            Key::URef(_, rights) => Some(*rights),
            _ => None,
        }
    }
}

/// The bitmask of the rights that a key carries, 0 where it carries none.
pub open spec fn rights_bits(key: Key) -> u8 {
    match key.spec_access_rights() {
        Some(rights) => rights.spec_bits(),
        None => 0u8,
    }
}

/// -1, 0 or 1 as the first key comes before, is, or comes after the
/// second: keys are ordered by their variant, then by the bytes of their
/// identifier, then by the rights that they carry.
pub open spec fn key_order(a: Key, b: Key) -> int {
    if a.spec_kind().spec_tag() < b.spec_kind().spec_tag() {
        -1
    } else if a.spec_kind().spec_tag() > b.spec_kind().spec_tag() {
        1
    } else if bytes_order(a.spec_id()@, b.spec_id()@, 0) != 0 {
        bytes_order(a.spec_id()@, b.spec_id()@, 0)
    } else if rights_bits(a) < rights_bits(b) {
        -1
    } else if rights_bits(a) > rights_bits(b) {
        1
    } else {
        0
    }
}

/// The order of keys is total: two keys are in no order exactly when they
/// are the same key, and the order turns with its arguments.
pub proof fn lemma_key_order(a: Key, b: Key)
    ensures
        -1 <= key_order(a, b) <= 1,
        key_order(a, b) == 0 <==> a == b,
        key_order(b, a) == -key_order(a, b),
{
    lemma_bytes_order(a.spec_id()@, b.spec_id()@, 0);
    if key_order(a, b) == 0 {
        assert(a.spec_id() =~= b.spec_id());
    }
}

/// The order of keys is transitive.
pub proof fn lemma_key_order_transitive(a: Key, b: Key, c: Key)
    requires
        key_order(a, b) <= 0,
        key_order(b, c) <= 0,
    ensures
        key_order(a, c) <= 0,
{
    lemma_bytes_order(a.spec_id()@, b.spec_id()@, 0);
    lemma_bytes_order(b.spec_id()@, c.spec_id()@, 0);
    lemma_bytes_order(a.spec_id()@, c.spec_id()@, 0);
    if a.spec_kind().spec_tag() == b.spec_kind().spec_tag() && b.spec_kind().spec_tag()
        == c.spec_kind().spec_tag() {
        lemma_bytes_order_transitive(a.spec_id()@, b.spec_id()@, c.spec_id()@, 0);
    }
}

impl Key {
    /// -1, 0 or 1 as the key comes before, is, or comes after `other`.
    pub fn compare(&self, other: &Key) -> (r: i8)
        ensures
            r == key_order(*self, *other),
    {
        let tag = self.kind().tag();
        let other_tag = other.kind().tag();
        if tag < other_tag {
            return -1;
        }
        if tag > other_tag {
            return 1;
        }
        let by_id = compare_bytes(&self.id(), &other.id());
        if by_id != 0 {
            return by_id;
        }
        let bits: u8 = match self.access_rights() {
            Some(rights) => rights.bits(),
            None => 0,
        };
        let other_bits: u8 = match other.access_rights() {
            Some(rights) => rights.bits(),
            None => 0,
        };
        if bits < other_bits {
            -1
        } else if bits > other_bits {
            1
        } else {
            0
        }
    }
}

impl PartialOrd for Key {
    fn partial_cmp(&self, other: &Key) -> (r: Option<Ordering>) {
        let c = self.compare(other);
        if c < 0 {
            Some(Ordering::Less)
        } else if c == 0 {
            Some(Ordering::Equal)
        } else {
            Some(Ordering::Greater)
        }
    }
}

impl vstd::std_specs::cmp::PartialOrdSpecImpl for Key {
    open spec fn obeys_partial_cmp_spec() -> bool {
        true
    }

    open spec fn partial_cmp_spec(&self, other: &Key) -> Option<Ordering> {
        if key_order(*self, *other) < 0 {
            Some(Ordering::Less)
        } else if key_order(*self, *other) == 0 {
            Some(Ordering::Equal)
        } else {
            Some(Ordering::Greater)
        }
    }
}

impl PartialEq for Key {
    fn eq(&self, other: &Key) -> (r: bool) {
        match (self, other) {
            (Key::Account(a), Key::Account(b)) => same_bytes(a, b),
            (Key::URef(a, ra), Key::URef(b, rb)) => same_bytes(a, b) && *ra == *rb,
            (Key::Hash(a), Key::Hash(b)) => same_bytes(a, b),
            (Key::Local(a), Key::Local(b)) => same_bytes(a, b),
            _ => false,
        }
    }
}

impl Eq for Key {

}

impl vstd::std_specs::cmp::PartialEqSpecImpl for Key {
    open spec fn obeys_eq_spec() -> bool {
        true
    }

    open spec fn eq_spec(&self, other: &Key) -> bool {
        *self == *other
    }
}

} // verus!
