use vstd::prelude::*;
use crate::codec::{
    encode_address, encode_value, valid_value, write_address, write_bytes32, write_value,
};
use crate::decode::{has_at, lemma_has_at_split, lemma_parse_address, lemma_parse_value};
use crate::digest::{blake2b_256, Digest};
use crate::digest_index::{first_position, DigestIndex};
use crate::error::Error;
use crate::key::Address;
use crate::trie::{
    bit_at, encode_branch_node, encode_empty_node, encode_leaf_node, lemma_room_below, path_bit,
    trie_get, trie_insert, trie_pointer, trie_split, trie_wf, under, Trie, PATH_BITS,
};
use crate::value::{held_view, Value, ValueView};

verus! {

/// A node of the trie as the store holds it: a branch refers to its
/// children by their digests.
#[derive(Debug)]
pub enum Node {
    /// The only node of the empty state.
    Empty,
    Leaf(Address, Value),
    Branch(Option<Digest>, Option<Digest>),
}

/// The mathematical form of a stored node.
pub enum NodeView {
    Empty,
    Leaf(Address, ValueView),
    Branch(Option<Digest>, Option<Digest>),
}

impl View for Node {
    type V = NodeView;

    open spec fn view(&self) -> NodeView {
        match self {
            Node::Empty => NodeView::Empty,
            Node::Leaf(a, v) => NodeView::Leaf(*a, v@),
            Node::Branch(l, r) => NodeView::Branch(*l, *r),
        }
    }
}

/// The bytes of a pointer.
pub open spec fn pointer_view(p: Option<Digest>) -> Option<Seq<u8>> {
    match p {
        None => None,
        Some(d) => Some(d@),
    }
}

/// The bytes of a node, of which its digest is taken.
pub open spec fn encode_node(n: NodeView) -> Seq<u8> {
    match n {
        NodeView::Empty => encode_empty_node(),
        NodeView::Leaf(a, v) => encode_leaf_node(a, v),
        NodeView::Branch(l, r) => encode_branch_node(pointer_view(l), pointer_view(r)),
    }
}

/// Whether two different byte strings have the same digest.
pub open spec fn digest_collision() -> bool {
    exists|a: Seq<u8>, b: Seq<u8>| a != b && blake2b_256(a) == blake2b_256(b)
}

/// Whether the lengths in a node can be written.
pub open spec fn valid_node(n: NodeView) -> bool {
    match n {
        NodeView::Leaf(_, v) => valid_value(v),
        _ => true,
    }
}

/// Pointers with the same bytes are the same pointer.
proof fn lemma_pointer_bytes(s: Seq<u8>, pos: int, p: Option<Digest>, q: Option<Digest>)
    requires
        has_at(s, pos, crate::trie::encode_pointer(pointer_view(p))),
        has_at(s, pos, crate::trie::encode_pointer(pointer_view(q))),
    ensures
        p == q,
{
    let a = crate::trie::encode_pointer(pointer_view(p));
    let b = crate::trie::encode_pointer(pointer_view(q));
    assert(s.subrange(pos, pos + a.len())[0] == s[pos]);
    assert(s.subrange(pos, pos + b.len())[0] == s[pos]);
    assert(a[0] == s[pos] && b[0] == s[pos]);
    match (p, q) {
        (Some(d), Some(e)) => {
            lemma_has_at_split(s, pos, seq![1u8], d@);
            lemma_has_at_split(s, pos, seq![1u8], e@);
            d.lemma_view_injective(e);
        },
        _ => {},
    }
}

/// Different nodes have different bytes.
pub proof fn lemma_encode_node_injective(m: NodeView, n: NodeView)
    requires
        valid_node(m),
        valid_node(n),
        encode_node(m) == encode_node(n),
    ensures
        m == n,
{
    let s = encode_node(m);
    assert(s.subrange(0, s.len() as int) =~= s);
    assert(encode_node(m)[0] == encode_node(n)[0]);
    match (m, n) {
        (NodeView::Leaf(a, v), NodeView::Leaf(b, w)) => {
            lemma_has_at_split(s, 0, seq![1u8] + encode_address(a), encode_value(v));
            lemma_has_at_split(s, 0, seq![1u8], encode_address(a));
            lemma_has_at_split(s, 0, seq![1u8] + encode_address(b), encode_value(w));
            lemma_has_at_split(s, 0, seq![1u8], encode_address(b));
            lemma_parse_address(s, 1, a);
            lemma_parse_address(s, 1, b);
            lemma_parse_value(s, 34, v);
            lemma_parse_value(s, 34, w);
        },
        (NodeView::Branch(l, r), NodeView::Branch(k, q)) => {
            let el = crate::trie::encode_pointer(pointer_view(l));
            let er = crate::trie::encode_pointer(pointer_view(r));
            let ek = crate::trie::encode_pointer(pointer_view(k));
            let eq = crate::trie::encode_pointer(pointer_view(q));
            lemma_has_at_split(s, 0, seq![2u8] + el, er);
            lemma_has_at_split(s, 0, seq![2u8], el);
            lemma_has_at_split(s, 0, seq![2u8] + ek, eq);
            lemma_has_at_split(s, 0, seq![2u8], ek);
            lemma_pointer_bytes(s, 1, l, k);
            lemma_pointer_bytes(s, 1 + el.len() as int, r, q);
        },
        _ => {},
    }
}

/// Whether two pointers are the same.
fn same_pointer(a: &Option<Digest>, b: &Option<Digest>) -> (r: bool)
    ensures
        r == (*a == *b),
{
    match (a, b) {
        (Some(x), Some(y)) => *x == *y,
        (None, None) => true,
        _ => false,
    }
}

/// Writes a pointer.
fn write_pointer(out: &mut Vec<u8>, p: &Option<Digest>)
    ensures
        final(out)@ == old(out)@ + crate::trie::encode_pointer(pointer_view(*p)),
{
    match p {
        None => {
            out.push(0);
        },
        Some(d) => {
            out.push(1);
            write_bytes32(out, &d.bytes);
        },
    }
    assert(out@ =~= old(out)@ + crate::trie::encode_pointer(pointer_view(*p)));
}

impl Node {
    /// The bytes of the node.
    pub fn encode(&self) -> (r: Vec<u8>)
        ensures
            r@ == encode_node(self@),
            valid_node(self@),
    {
        let mut out: Vec<u8> = Vec::new();
        match self {
            Node::Empty => {
                out.push(0);
            },
            Node::Leaf(a, v) => {
                out.push(1);
                write_address(&mut out, a);
                write_value(&mut out, v);
            },
            Node::Branch(l, r) => {
                out.push(2);
                write_pointer(&mut out, l);
                write_pointer(&mut out, r);
            },
        }
        assert(out@ =~= encode_node(self@));
        out
    }
}

impl Clone for Node {
    fn clone(&self) -> (r: Node)
        ensures
            r@ == self@,
    {
        match self {
            Node::Empty => Node::Empty,
            Node::Leaf(a, v) => Node::Leaf(*a, v.clone()),
            Node::Branch(l, r) => Node::Branch(*l, *r),
        }
    }
}

impl PartialEq for Node {
    fn eq(&self, other: &Node) -> (r: bool) {
        match (self, other) {
            (Node::Empty, Node::Empty) => true,
            (Node::Leaf(a, v), Node::Leaf(b, w)) => *a == *b && *v == *w,
            (Node::Branch(l, r), Node::Branch(m, s)) => same_pointer(l, m) && same_pointer(r, s),
            _ => false,
        }
    }
}

impl vstd::std_specs::cmp::PartialEqSpecImpl for Node {
    open spec fn obeys_eq_spec() -> bool {
        true
    }

    open spec fn eq_spec(&self, other: &Node) -> bool {
        self@ == other@
    }
}

/// The mathematical form of the index: digests with their nodes, in the
/// order in which they were entered.
pub type IndexView = Seq<(Digest, NodeView)>;

/// The first position at or after `from` that holds `digest`, or the
/// length of the index where there is none.
pub open spec fn index_position(index: IndexView, digest: Digest, from: int) -> int
    decreases index.len() - from,
{
    if from < 0 || from >= index.len() {
        index.len() as int
    } else if index[from].0 == digest {
        from
    } else {
        index_position(index, digest, from + 1)
    }
}

/// The node that the index holds under a digest.
pub open spec fn index_find(index: IndexView, digest: Digest) -> Option<NodeView> {
    let p = index_position(index, digest, 0);
    if p < index.len() {
        Some(index[p].1)
    } else {
        None
    }
}

/// The trie that a pointer at depth `depth` refers to, as far as the index
/// holds all of its nodes.
pub open spec fn index_trie(index: IndexView, pointer: Option<Digest>, depth: int) -> Option<Trie>
    decreases PATH_BITS - depth,
{
    match pointer {
        None => Some(Trie::Empty),
        Some(d) => match index_find(index, d) {
            Some(NodeView::Leaf(a, v)) => Some(Trie::Leaf(a, v)),
            Some(NodeView::Branch(l, r)) => if depth < 0 || depth >= PATH_BITS {
                None
            } else {
                match (index_trie(index, l, depth + 1), index_trie(index, r, depth + 1)) {
                    (Some(left), Some(right)) => Some(
                        Trie::Branch(Box::new(left), Box::new(right)),
                    ),
                    _ => None,
                }
            },
            _ => None,
        },
    }
}

/// Whether every digest in the index is that of the bytes of its node.
pub open spec fn index_hashed(index: IndexView) -> bool {
    forall|i: int|
        0 <= i < index.len() ==> (#[trigger] index[i]).0@ == blake2b_256(encode_node(index[i].1))
}

/// Whether the lengths in every node of the index can be written.
pub open spec fn index_valid(index: IndexView) -> bool {
    forall|i: int| 0 <= i < index.len() ==> valid_node((#[trigger] index[i]).1)
}

/// Whether `after` begins with the entries of `before`.
pub open spec fn extends(before: IndexView, after: IndexView) -> bool {
    &&& before.len() <= after.len()
    &&& forall|i: int| 0 <= i < before.len() ==> after[i] == before[i]
}

/// The first `depth` bits of the path of an address.
pub open spec fn path_of(a: Address, depth: int) -> Seq<bool> {
    Seq::new(depth as nat, |i: int| path_bit(a, i))
}

/// The path of an address grows by its next bit.
pub proof fn lemma_path_of(a: Address, depth: int)
    requires
        0 <= depth,
    ensures
        path_of(a, depth).len() == depth,
        under(a, path_of(a, depth)),
        path_of(a, depth + 1) == path_of(a, depth).push(path_bit(a, depth)),
{
    assert(path_of(a, depth + 1) =~= path_of(a, depth).push(path_bit(a, depth)));
}

/// A position found is in range and holds the digest.
pub proof fn lemma_index_position(index: IndexView, digest: Digest, from: int)
    requires
        0 <= from <= index.len(),
    ensures
        from <= index_position(index, digest, from) <= index.len(),
        index_position(index, digest, from) < index.len() ==> index[index_position(
            index,
            digest,
            from,
        )].0 == digest,
        forall|j: int| from <= j < index_position(index, digest, from) ==> index[j].0 != digest,
    decreases index.len() - from,
{
    if from < index.len() && index[from].0 != digest {
        lemma_index_position(index, digest, from + 1);
    }
}

/// An index that grows keeps the positions that it had.
pub proof fn lemma_position_extends(
    before: IndexView,
    after: IndexView,
    digest: Digest,
    from: int,
)
    requires
        extends(before, after),
        0 <= from <= before.len(),
        index_position(before, digest, from) < before.len(),
    ensures
        index_position(after, digest, from) == index_position(before, digest, from),
    decreases before.len() - from,
{
    if from < before.len() && before[from].0 != digest {
        lemma_position_extends(before, after, digest, from + 1);
    }
}

/// An index that grows keeps the nodes that it had.
pub proof fn lemma_find_extends(before: IndexView, after: IndexView, digest: Digest)
    requires
        extends(before, after),
        index_find(before, digest) is Some,
    ensures
        index_find(after, digest) == index_find(before, digest),
{
    lemma_index_position(before, digest, 0);
    lemma_position_extends(before, after, digest, 0);
}

/// An index that grows keeps the tries that it had.
pub proof fn lemma_trie_extends(
    before: IndexView,
    after: IndexView,
    pointer: Option<Digest>,
    depth: int,
)
    requires
        extends(before, after),
        index_trie(before, pointer, depth) is Some,
    ensures
        index_trie(after, pointer, depth) == index_trie(before, pointer, depth),
    decreases PATH_BITS - depth,
{
    match pointer {
        None => {},
        Some(d) => {
            lemma_find_extends(before, after, d);
            match index_find(before, d) {
                Some(NodeView::Branch(l, r)) => {
                    lemma_trie_extends(before, after, l, depth + 1);
                    lemma_trie_extends(before, after, r, depth + 1);
                },
                _ => {},
            }
        },
    }
}

/// In a hashed index a pointer is the pointer of the trie it refers to.
pub proof fn lemma_pointer(index: IndexView, pointer: Option<Digest>, depth: int)
    requires
        index_hashed(index),
        index_trie(index, pointer, depth) is Some,
    ensures
        pointer_view(pointer) == trie_pointer(index_trie(index, pointer, depth).unwrap()),
    decreases PATH_BITS - depth,
{
    match pointer {
        None => {},
        Some(d) => {
            lemma_index_position(index, d, 0);
            let p = index_position(index, d, 0);
            assert(index[p].0@ == blake2b_256(encode_node(index[p].1)));
            match index_find(index, d) {
                Some(NodeView::Branch(l, r)) => {
                    lemma_pointer(index, l, depth + 1);
                    lemma_pointer(index, r, depth + 1);
                },
                _ => {},
            }
        },
    }
}

/// The index of the trie nodes of all states: each node under the digest
/// of its bytes. Nodes are only ever added, and successive states share
/// the subtries that did not change.
#[derive(Debug)]
pub struct NodeStore {
    digests: DigestIndex,
    nodes: Vec<Node>,
}

impl View for NodeStore {
    type V = IndexView;

    closed spec fn view(&self) -> IndexView {
        Seq::new(self.nodes@.len(), |i: int| (self.digests@[i], self.nodes@[i]@))
    }
}

/// The position of a digest in an index is its position among the digests
/// of the index.
pub proof fn lemma_positions_agree(
    index: IndexView,
    digests: Seq<Digest>,
    digest: Digest,
    from: int,
)
    requires
        index.len() == digests.len(),
        forall|i: int| 0 <= i < index.len() ==> (#[trigger] index[i]).0 == digests[i],
        0 <= from,
    ensures
        index_position(index, digest, from) == first_position(digests, digest, from),
    decreases index.len() - from,
{
    if from < index.len() {
        assert(index[from].0 == digests[from]);
        lemma_positions_agree(index, digests, digest, from + 1);
    }
}

impl NodeStore {
    /// Whether the store holds a node for each of its digests, and its
    /// digests are in order.
    pub closed spec fn wf(&self) -> bool {
        self.digests.wf() && self.digests@.len() == self.nodes@.len()
    }

    /// The index without nodes.
    pub fn new() -> (r: NodeStore)
        ensures
            r.wf(),
            r@ == Seq::<(Digest, NodeView)>::empty(),
    {
        let r = NodeStore { digests: DigestIndex::new(), nodes: Vec::new() };
        assert(r@ =~= Seq::<(Digest, NodeView)>::empty());
        r
    }

    /// The node at a position.
    pub fn node(&self, position: usize) -> (r: &Node)
        requires
            position < self@.len(),
        ensures
            r@ == self@[position as int].1,
    {
        &self.nodes[position]
    }

    /// The position of the node under `digest`, if the index holds one.
    pub fn find(&self, digest: &Digest) -> (r: Option<usize>)
        requires
            self.wf(),
        ensures
            match r {
                Some(i) => i < self@.len() && i == index_position(self@, *digest, 0)
                    && index_find(self@, *digest) == Some(self@[i as int].1),
                None => index_find(self@, *digest) is None,
            },
    {
        proof {
            lemma_positions_agree(self@, self.digests@, *digest, 0);
        }
        self.digests.find(digest)
    }

    /// Enters a node under a digest. Where the index holds the same node
    /// under the digest nothing changes; where it holds another node there,
    /// the node is refused.
    pub fn add(&mut self, digest: Digest, node: Node) -> (r: Result<(), Error>)
        requires
            old(self).wf(),
        ensures
            final(self).wf(),
            index_valid(old(self)@) && valid_node(node@) ==> index_valid(final(self)@),
            match index_find(old(self)@, digest) {
                None => r is Ok && final(self)@ == old(self)@.push((digest, node@)),
                Some(held) => final(self)@ == old(self)@ && (if held == node@ {
                    r is Ok
                } else {
                    r == Err::<(), Error>(Error::CorruptNode)
                }),
            },
            r is Ok ==> index_find(final(self)@, digest) == Some(node@),
            extends(old(self)@, final(self)@),
    {
        match self.find(&digest) {
            Some(i) => {
                if self.nodes[i] == node {
                    Ok(())
                } else {
                    Err(Error::CorruptNode)
                }
            },
            None => {
                let ghost node_view = node@;
                self.digests.push(digest);
                self.nodes.push(node);
                proof {
                    assert(self@ =~= old(self)@.push((digest, node_view)));
                    lemma_index_position(old(self)@, digest, 0);
                    lemma_push_position(old(self)@, digest, node_view, 0);
                }
                Ok(())
            },
        }
    }

    /// Enters a node under the digest of its bytes, and gives the digest.
    pub fn put(&mut self, node: Node) -> (r: Result<Digest, Error>)
        requires
            old(self).wf(),
            index_hashed(old(self)@),
            index_valid(old(self)@),
        ensures
            final(self).wf(),
            index_hashed(final(self)@),
            index_valid(final(self)@),
            extends(old(self)@, final(self)@),
            match r {
                Ok(d) => d@ == blake2b_256(encode_node(node@)) && index_find(final(self)@, d)
                    == Some(node@),
                Err(e) => e == Error::CorruptNode && digest_collision() && final(self)@ == old(
                    self,
                )@,
            },
    {
        let bytes = node.encode();
        let digest = Digest::of(&bytes);
        let ghost node_view = node@;
        proof {
            if index_find(self@, digest) is Some {
                lemma_index_position(self@, digest, 0);
                let p = index_position(self@, digest, 0);
                assert(self@[p].0@ == blake2b_256(encode_node(self@[p].1)));
                assert(valid_node(self@[p].1));
                if self@[p].1 != node_view {
                    if encode_node(self@[p].1) == encode_node(node_view) {
                        lemma_encode_node_injective(self@[p].1, node_view);
                    }
                    assert(encode_node(self@[p].1) != encode_node(node_view));
                    assert(digest_collision());
                }
            }
        }
        match self.add(digest, node) {
            Ok(()) => Ok(digest),
            Err(e) => Err(e),
        }
    }

    /// The value that the trie behind a root pointer holds for an address.
    pub fn lookup(&self, pointer: Option<Digest>, address: &Address) -> (r: Option<Value>)
        requires
            self.wf(),
            index_trie(self@, pointer, 0) is Some,
        ensures
            held_view(r) == trie_get(index_trie(self@, pointer, 0).unwrap(), *address, 0),
    {
        let mut current = pointer;
        let mut depth: usize = 0;
        loop
            invariant
                depth <= PATH_BITS,
                self.wf(),
                index_trie(self@, current, depth as int) is Some,
                index_trie(self@, pointer, 0) is Some,
                trie_get(index_trie(self@, current, depth as int).unwrap(), *address, depth as int)
                    == trie_get(index_trie(self@, pointer, 0).unwrap(), *address, 0),
            decreases PATH_BITS - depth,
        {
            match current {
                None => {
                    return None;
                },
                Some(d) => {
                    match self.find(&d) {
                        None => {
                            return None;
                        },
                        Some(i) => {
                            match self.node(i) {
                                Node::Empty => {
                                    return None;
                                },
                                Node::Leaf(b, w) => {
                                    if *b == *address {
                                        return Some(w.clone());
                                    } else {
                                        return None;
                                    }
                                },
                                Node::Branch(l, r) => {
                                    if bit_at(address, depth) {
                                        current = *r;
                                    } else {
                                        current = *l;
                                    }
                                    depth = depth + 1;
                                },
                            }
                        },
                    }
                },
            }
        }
    }

    /// Enters the nodes of the subtrie at depth `depth` that holds two
    /// different addresses whose paths agree above it, and gives the
    /// pointer to it.
    pub fn split(
        &mut self,
        a: Address,
        va: Value,
        b: Address,
        vb: Value,
        depth: usize,
    ) -> (r: Result<Digest, Error>)
        requires
            old(self).wf(),
            index_hashed(old(self)@),
            index_valid(old(self)@),
            a != b,
            depth <= PATH_BITS,
            under(b, path_of(a, depth as int)),
        ensures
            final(self).wf(),
            index_hashed(final(self)@),
            index_valid(final(self)@),
            extends(old(self)@, final(self)@),
            match r {
                Ok(d) => index_trie(final(self)@, Some(d), depth as int) == Some(
                    trie_split(a, va@, b, vb@, depth as int),
                ),
                Err(e) => e == Error::CorruptNode && digest_collision(),
            },
        decreases PATH_BITS - depth,
    {
        proof {
            lemma_path_of(a, depth as int);
            lemma_room_below(a, b, path_of(a, depth as int));
        }
        let bit_a = bit_at(&a, depth);
        let bit_b = bit_at(&b, depth);
        let ghost va_view = va@;
        let ghost vb_view = vb@;
        if bit_a == bit_b {
            proof {
                assert forall|i: int| 0 <= i < depth + 1 implies path_bit(b, i) == path_of(
                    a,
                    depth + 1,
                )[i] by {
                    if i < depth {
                        assert(path_bit(b, i) == path_of(a, depth as int)[i]);
                    }
                }
            }
            let below = match self.split(a, va, b, vb, depth + 1) {
                Ok(d) => d,
                Err(e) => {
                    return Err(e);
                },
            };
            let ghost middle = self@;
            let node = if bit_a {
                Node::Branch(None, Some(below))
            } else {
                Node::Branch(Some(below), None)
            };
            let r = self.put(node);
            proof {
                lemma_extends_transitive(old(self)@, middle, self@);
                if let Ok(d) = r {
                    lemma_trie_extends(middle, self@, Some(below), depth + 1);
                    let sub = trie_split(a, va_view, b, vb_view, depth + 1);
                    assert(index_trie(self@, Some(below), depth + 1) == Some(sub));
                    assert(index_trie(self@, None, depth + 1) == Some(Trie::Empty));
                    if bit_a {
                        assert(index_find(self@, d) == Some(
                            NodeView::Branch(None, Some(below)),
                        ));
                        assert(index_trie(self@, Some(d), depth as int) == Some(
                            Trie::Branch(Box::new(Trie::Empty), Box::new(sub)),
                        ));
                    } else {
                        assert(index_find(self@, d) == Some(
                            NodeView::Branch(Some(below), None),
                        ));
                        assert(index_trie(self@, Some(d), depth as int) == Some(
                            Trie::Branch(Box::new(sub), Box::new(Trie::Empty)),
                        ));
                    }
                }
            }
            r
        } else {
            let one = match self.put(Node::Leaf(a, va)) {
                Ok(d) => d,
                Err(e) => {
                    return Err(e);
                },
            };
            let ghost first = self@;
            let other = match self.put(Node::Leaf(b, vb)) {
                Ok(d) => d,
                Err(e) => {
                    proof {
                        lemma_extends_transitive(old(self)@, first, self@);
                    }
                    return Err(e);
                },
            };
            let ghost second = self@;
            let node = if bit_a {
                Node::Branch(Some(other), Some(one))
            } else {
                Node::Branch(Some(one), Some(other))
            };
            let r = self.put(node);
            proof {
                lemma_extends_transitive(old(self)@, first, second);
                lemma_extends_transitive(old(self)@, second, self@);
                lemma_extends_transitive(first, second, self@);
                if let Ok(d) = r {
                    lemma_find_extends(first, self@, one);
                    lemma_find_extends(second, self@, other);
                    assert(index_trie(self@, Some(one), depth + 1) == Some(
                        Trie::Leaf(a, va_view),
                    ));
                    assert(index_trie(self@, Some(other), depth + 1) == Some(
                        Trie::Leaf(b, vb_view),
                    ));
                    if bit_a {
                        assert(index_find(self@, d) == Some(
                            NodeView::Branch(Some(other), Some(one)),
                        ));
                        assert(index_trie(self@, Some(d), depth as int) == Some(
                            Trie::Branch(
                                Box::new(Trie::Leaf(b, vb_view)),
                                Box::new(Trie::Leaf(a, va_view)),
                            ),
                        ));
                    } else {
                        assert(index_find(self@, d) == Some(
                            NodeView::Branch(Some(one), Some(other)),
                        ));
                        assert(index_trie(self@, Some(d), depth as int) == Some(
                            Trie::Branch(
                                Box::new(Trie::Leaf(a, va_view)),
                                Box::new(Trie::Leaf(b, vb_view)),
                            ),
                        ));
                    }
                }
            }
            r
        }
    }

    /// Enters the nodes of the subtrie at depth `depth` after it takes a
    /// value for an address, and gives the pointer to it.
    pub fn insert(
        &mut self,
        pointer: Option<Digest>,
        depth: usize,
        address: Address,
        value: Value,
    ) -> (r: Result<Digest, Error>)
        requires
            old(self).wf(),
            index_hashed(old(self)@),
            index_valid(old(self)@),
            depth <= PATH_BITS,
            index_trie(old(self)@, pointer, depth as int) is Some,
            trie_wf(
                index_trie(old(self)@, pointer, depth as int).unwrap(),
                path_of(address, depth as int),
            ),
        ensures
            final(self).wf(),
            index_hashed(final(self)@),
            index_valid(final(self)@),
            extends(old(self)@, final(self)@),
            match r {
                Ok(d) => index_trie(final(self)@, Some(d), depth as int) == Some(
                    trie_insert(
                        index_trie(old(self)@, pointer, depth as int).unwrap(),
                        address,
                        value@,
                        depth as int,
                    ),
                ),
                Err(e) => e == Error::CorruptNode && digest_collision(),
            },
        decreases PATH_BITS - depth,
    {
        let ghost before = self@;
        let ghost trie = index_trie(before, pointer, depth as int).unwrap();
        let ghost value_view = value@;
        proof {
            lemma_path_of(address, depth as int);
        }
        let digest = match pointer {
            None => {
                return self.put(Node::Leaf(address, value));
            },
            Some(d) => d,
        };
        let position = match self.find(&digest) {
            None => {
                return Err(Error::CorruptNode);
            },
            Some(i) => i,
        };
        let node = self.node(position).clone();
        match node {
            Node::Empty => Err(Error::CorruptNode),
            Node::Leaf(b, w) => {
                if b == address {
                    self.put(Node::Leaf(address, value))
                } else {
                    self.split(address, value, b, w, depth)
                }
            },
            Node::Branch(l, r) => {
                if bit_at(&address, depth) {
                    let child = match self.insert(r, depth + 1, address, value) {
                        Ok(d) => d,
                        Err(e) => {
                            return Err(e);
                        },
                    };
                    let ghost middle = self@;
                    let result = self.put(Node::Branch(l, Some(child)));
                    proof {
                        lemma_extends_transitive(before, middle, self@);
                        if let Ok(d) = result {
                            lemma_trie_extends(middle, self@, Some(child), depth + 1);
                            lemma_trie_extends(before, self@, l, depth + 1);
                        }
                    }
                    result
                } else {
                    let child = match self.insert(l, depth + 1, address, value) {
                        Ok(d) => d,
                        Err(e) => {
                            return Err(e);
                        },
                    };
                    let ghost middle = self@;
                    let result = self.put(Node::Branch(Some(child), r));
                    proof {
                        lemma_extends_transitive(before, middle, self@);
                        if let Ok(d) = result {
                            lemma_trie_extends(middle, self@, Some(child), depth + 1);
                            lemma_trie_extends(before, self@, r, depth + 1);
                        }
                    }
                    result
                }
            },
        }
    }
}

/// A digest that the index lacks is found at the end once it is added.
pub proof fn lemma_push_position(index: IndexView, digest: Digest, node: NodeView, from: int)
    requires
        0 <= from <= index.len(),
        index_position(index, digest, from) == index.len(),
    ensures
        index_position(index.push((digest, node)), digest, from) == index.len(),
    decreases index.len() - from,
{
    let after = index.push((digest, node));
    if from < index.len() {
        assert(after[from] == index[from]);
        lemma_push_position(index, digest, node, from + 1);
    } else {
        assert(after[from].0 == digest);
    }
}

/// Growth of the index is transitive.
pub proof fn lemma_extends_transitive(a: IndexView, b: IndexView, c: IndexView)
    requires
        extends(a, b),
        extends(b, c),
    ensures
        extends(a, c),
{
}

} // verus!
