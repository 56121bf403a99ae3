use vstd::prelude::*;
use crate::codec::{encode_address, encode_value};
use crate::digest::blake2b_256;
use crate::key::Address;
use crate::value::ValueView;

verus! {

/// The number of bits in the path of an address: those of the variant's
/// tag and of the 32 bytes of the identifier.
pub const PATH_BITS: usize = 264;

/// Bit `k` of a byte, the lowest being bit 0.
pub open spec fn bit_of(b: u8, k: u8) -> bool {
    (b >> k) & 1 == 1
}

/// Bit `i` of the path of an address.
pub open spec fn path_bit(a: Address, i: int) -> bool {
    if i < 8 {
        bit_of(a.kind.spec_tag(), i as u8)
    } else {
        bit_of(a.id@[(i - 8) / 8], ((i - 8) % 8) as u8)
    }
}

/// Whether two addresses have the same first `depth` path bits.
pub open spec fn agree(a: Address, b: Address, depth: int) -> bool {
    forall|i: int| 0 <= i < depth ==> path_bit(a, i) == path_bit(b, i)
}

/// Whether the path of an address begins with `path`.
pub open spec fn under(a: Address, path: Seq<bool>) -> bool {
    forall|i: int| 0 <= i < path.len() ==> path_bit(a, i) == path[i]
}

/// Bytes with the same bits are the same.
proof fn lemma_byte_bits(x: u8, y: u8)
    requires
        forall|k: u8| k < 8 ==> bit_of(x, k) == bit_of(y, k),
    ensures
        x == y,
{
    assert(bit_of(x, 0) == bit_of(y, 0));
    assert(bit_of(x, 1) == bit_of(y, 1));
    assert(bit_of(x, 2) == bit_of(y, 2));
    assert(bit_of(x, 3) == bit_of(y, 3));
    assert(bit_of(x, 4) == bit_of(y, 4));
    assert(bit_of(x, 5) == bit_of(y, 5));
    assert(bit_of(x, 6) == bit_of(y, 6));
    assert(bit_of(x, 7) == bit_of(y, 7));
    assert(x == y) by (bit_vector)
        requires
            ((x >> 0u8) & 1 == 1) == ((y >> 0u8) & 1 == 1),
            ((x >> 1u8) & 1 == 1) == ((y >> 1u8) & 1 == 1),
            ((x >> 2u8) & 1 == 1) == ((y >> 2u8) & 1 == 1),
            ((x >> 3u8) & 1 == 1) == ((y >> 3u8) & 1 == 1),
            ((x >> 4u8) & 1 == 1) == ((y >> 4u8) & 1 == 1),
            ((x >> 5u8) & 1 == 1) == ((y >> 5u8) & 1 == 1),
            ((x >> 6u8) & 1 == 1) == ((y >> 6u8) & 1 == 1),
            ((x >> 7u8) & 1 == 1) == ((y >> 7u8) & 1 == 1),
    ;
}

/// Addresses with the same path are the same.
pub proof fn lemma_same_path(a: Address, b: Address)
    requires
        agree(a, b, PATH_BITS as int),
    ensures
        a == b,
{
    assert forall|k: u8| k < 8 implies bit_of(a.kind.spec_tag(), k) == bit_of(
        b.kind.spec_tag(),
        k,
    ) by {
        assert(path_bit(a, k as int) == path_bit(b, k as int));
    }
    lemma_byte_bits(a.kind.spec_tag(), b.kind.spec_tag());
    assert(a.kind == b.kind);
    assert forall|j: int| 0 <= j < 32 implies a.id@[j] == b.id@[j] by {
        assert forall|k: u8| k < 8 implies bit_of(a.id@[j], k) == bit_of(b.id@[j], k) by {
            let i = 8 + 8 * j + k;
            assert(path_bit(a, i) == path_bit(b, i));
            assert((i - 8) / 8 == j);
            assert(((i - 8) % 8) as u8 == k);
        }
        lemma_byte_bits(a.id@[j], b.id@[j]);
    }
    assert(a.id =~= b.id);
}

/// Bit `i` of the path of an address.
pub fn bit_at(a: &Address, i: usize) -> (r: bool)
    requires
        i < PATH_BITS,
    ensures
        r == path_bit(*a, i as int),
{
    if i < 8 {
        let k: u8 = i as u8;
        (a.kind.tag() >> k) & 1 == 1
    } else {
        let k: u8 = ((i - 8) % 8) as u8;
        (a.id[(i - 8) / 8] >> k) & 1 == 1
    }
}

/// A binary trie over the paths of addresses. A value sits in a leaf at
/// the least depth at which no other address shares its path so far.
pub enum Trie {
    Empty,
    Leaf(Address, ValueView),
    Branch(Box<Trie>, Box<Trie>),
}

/// Whether a branch with these children could be replaced by a leaf or by
/// nothing.
pub open spec fn collapsible(left: Trie, right: Trie) -> bool {
    ||| (left is Empty && right is Empty)
    ||| (left is Empty && right is Leaf)
    ||| (left is Leaf && right is Empty)
}

/// Whether the trie is the canonical one for what it holds, as the subtrie
/// reached by `path`.
pub open spec fn trie_wf(t: Trie, path: Seq<bool>) -> bool
    decreases t,
{
    match t {
        Trie::Empty => true,
        Trie::Leaf(a, _) => under(a, path),
        Trie::Branch(left, right) => {
            &&& path.len() < PATH_BITS
            &&& trie_wf(*left, path.push(false))
            &&& trie_wf(*right, path.push(true))
            &&& !collapsible(*left, *right)
        },
    }
}

/// The value that the subtrie at depth `depth` holds for an address.
pub open spec fn trie_get(t: Trie, a: Address, depth: int) -> Option<ValueView>
    decreases t,
{
    match t {
        Trie::Empty => None,
        Trie::Leaf(b, v) => if a == b {
            Some(v)
        } else {
            None
        },
        Trie::Branch(left, right) => if path_bit(a, depth) {
            trie_get(*right, a, depth + 1)
        } else {
            trie_get(*left, a, depth + 1)
        },
    }
}

/// The subtrie at depth `depth` that holds two different addresses whose
/// paths agree above it.
pub open spec fn trie_split(
    a: Address,
    va: ValueView,
    b: Address,
    vb: ValueView,
    depth: int,
) -> Trie
    decreases PATH_BITS - depth,
{
    if depth < 0 || depth >= PATH_BITS {
        Trie::Empty
    } else if path_bit(a, depth) == path_bit(b, depth) {
        let below = trie_split(a, va, b, vb, depth + 1);
        if path_bit(a, depth) {
            Trie::Branch(Box::new(Trie::Empty), Box::new(below))
        } else {
            Trie::Branch(Box::new(below), Box::new(Trie::Empty))
        }
    } else if path_bit(a, depth) {
        Trie::Branch(Box::new(Trie::Leaf(b, vb)), Box::new(Trie::Leaf(a, va)))
    } else {
        Trie::Branch(Box::new(Trie::Leaf(a, va)), Box::new(Trie::Leaf(b, vb)))
    }
}

/// The subtrie at depth `depth` after it takes `v` for `a`.
pub open spec fn trie_insert(t: Trie, a: Address, v: ValueView, depth: int) -> Trie
    decreases t,
{
    match t {
        Trie::Empty => Trie::Leaf(a, v),
        Trie::Leaf(b, w) => if a == b {
            Trie::Leaf(a, v)
        } else {
            trie_split(a, v, b, w, depth)
        },
        Trie::Branch(left, right) => if path_bit(a, depth) {
            Trie::Branch(left, Box::new(trie_insert(*right, a, v, depth + 1)))
        } else {
            Trie::Branch(Box::new(trie_insert(*left, a, v, depth + 1)), right)
        },
    }
}

/// Two different addresses under one path leave room below it.
pub proof fn lemma_room_below(a: Address, b: Address, path: Seq<bool>)
    requires
        a != b,
        under(a, path),
        under(b, path),
    ensures
        path.len() < PATH_BITS,
{
    if path.len() >= PATH_BITS {
        assert(agree(a, b, PATH_BITS as int));
        lemma_same_path(a, b);
    }
}

/// An address under a path is under the path that its next bit extends.
pub proof fn lemma_under_push(a: Address, path: Seq<bool>)
    requires
        under(a, path),
    ensures
        under(a, path.push(path_bit(a, path.len() as int))),
{
}

/// A split is a canonical branch.
pub proof fn lemma_split_wf(a: Address, va: ValueView, b: Address, vb: ValueView, path: Seq<bool>)
    requires
        a != b,
        under(a, path),
        under(b, path),
    ensures
        trie_split(a, va, b, vb, path.len() as int) is Branch,
        trie_wf(trie_split(a, va, b, vb, path.len() as int), path),
    decreases PATH_BITS - path.len(),
{
    let depth = path.len() as int;
    lemma_room_below(a, b, path);
    lemma_under_push(a, path);
    lemma_under_push(b, path);
    if path_bit(a, depth) == path_bit(b, depth) {
        let next = path.push(path_bit(a, depth));
        lemma_split_wf(a, va, b, vb, next);
        let below = trie_split(a, va, b, vb, depth + 1);
        assert(trie_wf(below, next));
        assert(trie_wf(Trie::Empty, path.push(!path_bit(a, depth))));
    } else {
        assert(trie_wf(Trie::Leaf(a, va), path.push(path_bit(a, depth))));
        assert(trie_wf(Trie::Leaf(b, vb), path.push(path_bit(b, depth))));
    }
}

/// A split holds exactly its two addresses.
pub proof fn lemma_split_get(
    a: Address,
    va: ValueView,
    b: Address,
    vb: ValueView,
    path: Seq<bool>,
    x: Address,
)
    requires
        a != b,
        under(a, path),
        under(b, path),
    ensures
        trie_get(trie_split(a, va, b, vb, path.len() as int), x, path.len() as int) == (if x
            == a {
            Some(va)
        } else if x == b {
            Some(vb)
        } else {
            None
        }),
    decreases PATH_BITS - path.len(),
{
    let depth = path.len() as int;
    lemma_room_below(a, b, path);
    lemma_under_push(a, path);
    lemma_under_push(b, path);
    let whole = trie_split(a, va, b, vb, depth);
    if path_bit(a, depth) == path_bit(b, depth) {
        let next = path.push(path_bit(a, depth));
        lemma_split_get(a, va, b, vb, next, x);
        let below = trie_split(a, va, b, vb, depth + 1);
        if path_bit(x, depth) == path_bit(a, depth) {
            assert(trie_get(whole, x, depth) == trie_get(below, x, depth + 1));
        } else {
            assert(trie_get(whole, x, depth) == trie_get(Trie::Empty, x, depth + 1));
        }
    } else {
        if path_bit(x, depth) == path_bit(a, depth) {
            assert(trie_get(whole, x, depth) == trie_get(Trie::Leaf(a, va), x, depth + 1));
        } else {
            assert(trie_get(whole, x, depth) == trie_get(Trie::Leaf(b, vb), x, depth + 1));
        }
    }
}

/// Taking a value keeps the trie canonical, and makes a leaf only of
/// nothing or of a leaf.
pub proof fn lemma_insert_wf(t: Trie, a: Address, v: ValueView, path: Seq<bool>)
    requires
        trie_wf(t, path),
        under(a, path),
    ensures
        trie_wf(trie_insert(t, a, v, path.len() as int), path),
        !(trie_insert(t, a, v, path.len() as int) is Empty),
        trie_insert(t, a, v, path.len() as int) is Leaf ==> !(t is Branch),
    decreases t,
{
    let depth = path.len() as int;
    match t {
        Trie::Empty => {},
        Trie::Leaf(b, w) => {
            if a != b {
                lemma_split_wf(a, v, b, w, path);
            }
        },
        Trie::Branch(left, right) => {
            lemma_under_push(a, path);
            if path_bit(a, depth) {
                lemma_insert_wf(*right, a, v, path.push(true));
                let grown = trie_insert(*right, a, v, depth + 1);
                assert(trie_insert(t, a, v, depth) == Trie::Branch(left, Box::new(grown)));
                assert(trie_wf(grown, path.push(true)));
                assert(trie_wf(*left, path.push(false)));
                assert(!collapsible(*left, grown));
            } else {
                lemma_insert_wf(*left, a, v, path.push(false));
                let grown = trie_insert(*left, a, v, depth + 1);
                assert(trie_insert(t, a, v, depth) == Trie::Branch(Box::new(grown), right));
                assert(trie_wf(grown, path.push(false)));
                assert(trie_wf(*right, path.push(true)));
                assert(!collapsible(grown, *right));
            }
        },
    }
}

/// Taking a value changes what the trie holds for that address and for no
/// other.
pub proof fn lemma_insert_get(t: Trie, a: Address, v: ValueView, path: Seq<bool>, x: Address)
    requires
        trie_wf(t, path),
        under(a, path),
    ensures
        trie_get(trie_insert(t, a, v, path.len() as int), x, path.len() as int) == (if x == a {
            Some(v)
        } else {
            trie_get(t, x, path.len() as int)
        }),
    decreases t,
{
    let depth = path.len() as int;
    match t {
        Trie::Empty => {
            assert(trie_insert(t, a, v, depth) == Trie::Leaf(a, v));
        },
        Trie::Leaf(b, w) => {
            if a != b {
                lemma_split_get(a, v, b, w, path, x);
            }
        },
        Trie::Branch(left, right) => {
            lemma_under_push(a, path);
            if path_bit(a, depth) {
                lemma_insert_get(*right, a, v, path.push(true), x);
                let grown = trie_insert(*right, a, v, depth + 1);
                assert(trie_insert(t, a, v, depth) == Trie::Branch(left, Box::new(grown)));
            } else {
                lemma_insert_get(*left, a, v, path.push(false), x);
                let grown = trie_insert(*left, a, v, depth + 1);
                assert(trie_insert(t, a, v, depth) == Trie::Branch(Box::new(grown), right));
            }
        },
    }
}

/// An address that a trie which is not empty holds.
pub open spec fn first_address(t: Trie) -> Address
    decreases t,
{
    match t {
        Trie::Empty => arbitrary(),
        Trie::Leaf(a, _) => a,
        Trie::Branch(left, right) => if *left is Empty {
            first_address(*right)
        } else {
            first_address(*left)
        },
    }
}

/// Another address that a branch holds.
pub open spec fn second_address(t: Trie) -> Address
    decreases t,
{
    match t {
        Trie::Branch(left, right) => if *left is Empty {
            second_address(*right)
        } else if *right is Empty {
            second_address(*left)
        } else {
            first_address(*right)
        },
        _ => arbitrary(),
    }
}

/// A canonical trie that is not empty holds its first address.
pub proof fn lemma_first_address(t: Trie, path: Seq<bool>)
    requires
        trie_wf(t, path),
        !(t is Empty),
    ensures
        under(first_address(t), path),
        trie_get(t, first_address(t), path.len() as int) is Some,
    decreases t,
{
    match t {
        Trie::Branch(left, right) => {
            if *left is Empty {
                lemma_first_address(*right, path.push(true));
                let k = first_address(*right);
                assert(path.push(true)[path.len() as int] == true);
                assert forall|i: int| 0 <= i < path.len() implies path_bit(k, i) == path[i] by {
                    assert(path.push(true)[i] == path[i]);
                }
            } else {
                lemma_first_address(*left, path.push(false));
                let k = first_address(*left);
                assert(path.push(false)[path.len() as int] == false);
                assert forall|i: int| 0 <= i < path.len() implies path_bit(k, i) == path[i] by {
                    assert(path.push(false)[i] == path[i]);
                }
            }
        },
        _ => {},
    }
}

/// A canonical branch holds two different addresses.
pub proof fn lemma_second_address(t: Trie, path: Seq<bool>)
    requires
        trie_wf(t, path),
        t is Branch,
    ensures
        under(second_address(t), path),
        trie_get(t, second_address(t), path.len() as int) is Some,
        second_address(t) != first_address(t),
    decreases t,
{
    match t {
        Trie::Branch(left, right) => {
            if *left is Empty {
                lemma_second_address(*right, path.push(true));
                lemma_first_address(*right, path.push(true));
                let k = second_address(*right);
                assert(path.push(true)[path.len() as int] == true);
                assert forall|i: int| 0 <= i < path.len() implies path_bit(k, i) == path[i] by {
                    assert(path.push(true)[i] == path[i]);
                }
            } else if *right is Empty {
                lemma_second_address(*left, path.push(false));
                lemma_first_address(*left, path.push(false));
                let k = second_address(*left);
                assert(path.push(false)[path.len() as int] == false);
                assert forall|i: int| 0 <= i < path.len() implies path_bit(k, i) == path[i] by {
                    assert(path.push(false)[i] == path[i]);
                }
            } else {
                lemma_first_address(*right, path.push(true));
                lemma_first_address(*left, path.push(false));
                let k = first_address(*right);
                let j = first_address(*left);
                assert(path.push(true)[path.len() as int] == true);
                assert(path.push(false)[path.len() as int] == false);
                assert(path_bit(k, path.len() as int) != path_bit(j, path.len() as int));
                assert forall|i: int| 0 <= i < path.len() implies path_bit(k, i) == path[i] by {
                    assert(path.push(true)[i] == path[i]);
                }
            }
        },
        _ => {},
    }
}

/// An address under a path that a bit extends is under the path, and has
/// that bit.
pub proof fn lemma_under_pop(a: Address, path: Seq<bool>, bit: bool)
    requires
        under(a, path.push(bit)),
    ensures
        under(a, path),
        path_bit(a, path.len() as int) == bit,
{
    assert(path.push(bit)[path.len() as int] == bit);
    assert forall|i: int| 0 <= i < path.len() implies path_bit(a, i) == path[i] by {
        assert(path.push(bit)[i] == path[i]);
    }
}

/// Two canonical tries that hold the same values for the addresses under
/// their path are the same trie.
pub proof fn lemma_canonical(s: Trie, t: Trie, path: Seq<bool>)
    requires
        trie_wf(s, path),
        trie_wf(t, path),
        forall|x: Address|
            under(x, path) ==> trie_get(s, x, path.len() as int) == trie_get(
                t,
                x,
                path.len() as int,
            ),
    ensures
        s == t,
    decreases s,
{
    let depth = path.len() as int;
    if !(s is Empty) {
        lemma_first_address(s, path);
    }
    if !(t is Empty) {
        lemma_first_address(t, path);
    }
    if s is Branch {
        lemma_second_address(s, path);
    }
    if t is Branch {
        lemma_second_address(t, path);
    }
    match (s, t) {
        (Trie::Branch(sl, sr), Trie::Branch(tl, tr)) => {
            assert forall|x: Address| under(x, path.push(false)) implies trie_get(
                *sl,
                x,
                depth + 1,
            ) == trie_get(*tl, x, depth + 1) by {
                lemma_under_pop(x, path, false);
                assert(trie_get(s, x, depth) == trie_get(*sl, x, depth + 1));
                assert(trie_get(t, x, depth) == trie_get(*tl, x, depth + 1));
            }
            assert forall|x: Address| under(x, path.push(true)) implies trie_get(
                *sr,
                x,
                depth + 1,
            ) == trie_get(*tr, x, depth + 1) by {
                lemma_under_pop(x, path, true);
                assert(trie_get(s, x, depth) == trie_get(*sr, x, depth + 1));
                assert(trie_get(t, x, depth) == trie_get(*tr, x, depth + 1));
            }
            lemma_canonical(*sl, *tl, path.push(false));
            lemma_canonical(*sr, *tr, path.push(true));
        },
        (Trie::Leaf(a, v), Trie::Leaf(b, w)) => {
            assert(trie_get(s, a, depth) == Some(v));
        },
        (Trie::Leaf(a, v), Trie::Branch(_, _)) => {
            assert(trie_get(s, first_address(t), depth) is Some);
            assert(trie_get(s, second_address(t), depth) is Some);
        },
        (Trie::Branch(_, _), Trie::Leaf(b, w)) => {
            assert(trie_get(t, first_address(s), depth) is Some);
            assert(trie_get(t, second_address(s), depth) is Some);
        },
        _ => {},
    }
}

/// The bytes of the node of the empty state.
pub open spec fn encode_empty_node() -> Seq<u8> {
    seq![0u8]
}

/// The bytes of a leaf: a tag, the address and the value.
pub open spec fn encode_leaf_node(a: Address, v: ValueView) -> Seq<u8> {
    seq![1u8] + encode_address(a) + encode_value(v)
}

/// The bytes of a pointer to a child: 0 for none, or 1 and the digest.
pub open spec fn encode_pointer(p: Option<Seq<u8>>) -> Seq<u8> {
    match p {
        None => seq![0u8],
        Some(d) => seq![1u8] + d,
    }
}

/// The bytes of a branch: a tag and the pointers to its two children.
pub open spec fn encode_branch_node(left: Option<Seq<u8>>, right: Option<Seq<u8>>) -> Seq<u8> {
    seq![2u8] + encode_pointer(left) + encode_pointer(right)
}

/// The pointer by which a parent refers to the subtrie: none for the empty
/// one, or else the digest of the bytes of its topmost node.
pub open spec fn trie_pointer(t: Trie) -> Option<Seq<u8>>
    decreases t,
{
    match t {
        Trie::Empty => None,
        Trie::Leaf(a, v) => Some(blake2b_256(encode_leaf_node(a, v))),
        Trie::Branch(left, right) => Some(
            blake2b_256(encode_branch_node(trie_pointer(*left), trie_pointer(*right))),
        ),
    }
}

/// The digest that names a whole trie as a state root.
pub open spec fn trie_root(t: Trie) -> Seq<u8> {
    match trie_pointer(t) {
        None => blake2b_256(encode_empty_node()),
        Some(d) => d,
    }
}

/// What a whole trie holds.
pub open spec fn trie_contents(t: Trie) -> Map<Address, ValueView> {
    Map::new(|a: Address| trie_get(t, a, 0) is Some, |a: Address| trie_get(t, a, 0).unwrap())
}

/// The canonical trie that holds `contents`.
pub open spec fn canonical_trie(contents: Map<Address, ValueView>) -> Trie {
    choose|t: Trie| trie_wf(t, Seq::<bool>::empty()) && trie_contents(t) == contents
}

/// The digest that names the state that holds `contents`.
pub open spec fn state_root(contents: Map<Address, ValueView>) -> Seq<u8> {
    trie_root(canonical_trie(contents))
}

/// A canonical trie is the canonical trie of what it holds.
pub proof fn lemma_canonical_trie(t: Trie)
    requires
        trie_wf(t, Seq::<bool>::empty()),
    ensures
        canonical_trie(trie_contents(t)) == t,
{
    let c = canonical_trie(trie_contents(t));
    assert(trie_wf(c, Seq::<bool>::empty()) && trie_contents(c) == trie_contents(t));
    assert forall|x: Address| trie_get(c, x, 0) == trie_get(t, x, 0) by {
        let m = trie_contents(t);
        assert(m.dom().contains(x) == (trie_get(t, x, 0) is Some));
        assert(trie_contents(c).dom().contains(x) == (trie_get(c, x, 0) is Some));
        if trie_get(t, x, 0) is Some {
            assert(m[x] == trie_get(t, x, 0).unwrap());
            assert(trie_contents(c)[x] == trie_get(c, x, 0).unwrap());
        }
    }
    lemma_canonical(c, t, Seq::<bool>::empty());
}

} // verus!
