use vstd::prelude::*;
use crate::codec::{encode_bytes, encode_transform_set, valid_set, write_bytes, write_bytes32};
use crate::decode::{
    decode_transform_set, has_at, lemma_decode_encode, lemma_has_at_split, lemma_parse_bytes,
    lemma_parse_bytes32, parse_bytes, parse_bytes32, read_bytes, read_bytes32,
};
use crate::digest::Digest;
use crate::error::Error;
use crate::global_state::{commit_spec, Contents, GlobalState};
use crate::store::digest_collision;
use crate::transform_set::{TransformSet, TransformSetView};
use crate::trie::state_root;

verus! {

/// The bytes that a journal keeps of a commit: the root of the state that
/// the commit was made to, and the bytes of the transform set behind their
/// number.
pub open spec fn encode_commit(root: Digest, set: TransformSetView) -> Seq<u8> {
    root@ + encode_bytes(encode_transform_set(set))
}

/// The commit at a position of a journal, and the position behind it.
pub open spec fn parse_commit(s: Seq<u8>, pos: int) -> Option<((Digest, TransformSetView), int)> {
    match parse_bytes32(s, pos) {
        Some((root, p)) => match parse_bytes(s, p) {
            Some((bytes, q)) => match decode_transform_set(bytes) {
                Some(set) => Some(((Digest { bytes: root }, set), q)),
                None => None,
            },
            None => None,
        },
        None => None,
    }
}

/// The digest with the given bytes.
pub open spec fn digest_of_bytes(bytes: Seq<u8>) -> Digest {
    choose|d: Digest| d@ == bytes
}

/// The states that a store knows once the commits of a journal from a
/// position on are made to it one after the other, or why the first
/// commit that fails is refused.
pub open spec fn replay_spec(states: Map<Digest, Contents>, s: Seq<u8>, pos: int) -> Result<
    Map<Digest, Contents>,
    Error,
>
    decreases s.len() - pos,
{
    if pos < 0 || pos >= s.len() {
        Ok(states)
    } else {
        match parse_commit(s, pos) {
            None => Err(Error::CorruptJournal),
            Some(((root, set), end)) => if end <= pos {
                Err(Error::CorruptJournal)
            } else {
                match commit_spec(states, root, set) {
                    Err(e) => Err(e),
                    Ok(contents) => replay_spec(
                        states.insert(digest_of_bytes(state_root(contents)), contents),
                        s,
                        end,
                    ),
                }
            },
        }
    }
}

/// A written commit is read back.
pub proof fn lemma_parse_commit(s: Seq<u8>, pos: int, root: Digest, set: TransformSetView)
    requires
        valid_set(set),
        encode_transform_set(set).len() <= u64::MAX,
        has_at(s, pos, encode_commit(root, set)),
    ensures
        parse_commit(s, pos) == Some(((root, set), pos + encode_commit(root, set).len())),
{
    let bytes = encode_transform_set(set);
    lemma_has_at_split(s, pos, root@, encode_bytes(bytes));
    lemma_parse_bytes32(s, pos, root.bytes);
    lemma_parse_bytes(s, pos + 32, bytes);
    lemma_decode_encode(set);
}

/// A journal that holds a written commit at a position replays as that
/// commit, and then as what lies behind it.
pub proof fn lemma_replay_commit(
    states: Map<Digest, Contents>,
    s: Seq<u8>,
    pos: int,
    root: Digest,
    set: TransformSetView,
)
    requires
        valid_set(set),
        encode_transform_set(set).len() <= u64::MAX,
        has_at(s, pos, encode_commit(root, set)),
    ensures
        replay_spec(states, s, pos) == (match commit_spec(states, root, set) {
            Err(e) => Err(e),
            Ok(contents) => replay_spec(
                states.insert(digest_of_bytes(state_root(contents)), contents),
                s,
                pos + encode_commit(root, set).len(),
            ),
        }),
{
    lemma_parse_commit(s, pos, root, set);
    vstd::bytes::lemma_auto_spec_u64_to_from_le_bytes();
}

/// Writes what a journal keeps of a commit.
pub fn write_commit(out: &mut Vec<u8>, root: &Digest, set: &TransformSet)
    ensures
        final(out)@ == old(out)@ + encode_commit(*root, set@),
        valid_set(set@),
        encode_transform_set(set@).len() <= u64::MAX,
{
    write_bytes32(out, &root.bytes);
    let bytes = set.to_bytes();
    write_bytes(out, bytes.as_slice());
    assert(out@ =~= old(out)@ + encode_commit(*root, set@));
}

/// Reads a commit from a journal.
pub fn read_commit(data: &[u8], pos: usize) -> (r: Option<((Digest, TransformSet), usize)>)
    ensures
        match r {
            Some(((root, set), end)) => parse_commit(data@, pos as int) == Some(
                ((root, set@), end as int),
            ) && pos < end <= data@.len(),
            None => parse_commit(data@, pos as int) is None,
        },
{
    let (root, p) = match read_bytes32(data, pos) {
        Some(found) => found,
        None => {
            return None;
        },
    };
    let (bytes, q) = match read_bytes(data, p) {
        Some(found) => found,
        None => {
            return None;
        },
    };
    match TransformSet::from_bytes(bytes.as_slice()) {
        Some(set) => Some(((Digest { bytes: root }, set), q)),
        None => None,
    }
}

/// Makes the commits of a journal to a store, one after the other, and
/// stops at the first that fails. A store that replays the journal of
/// another from the empty state knows every state that the other knew,
/// under the same root.
pub fn replay(state: &mut GlobalState, journal: &[u8]) -> (r: Result<(), Error>)
    requires
        old(state).wf(),
    ensures
        final(state).wf(),
        match r {
            Ok(()) => replay_spec(old(state)@, journal@, 0) == Ok::<Map<Digest, Contents>, Error>(
                final(state)@,
            ),
            Err(e) => replay_spec(old(state)@, journal@, 0) == Err::<
                Map<Digest, Contents>,
                Error,
            >(e) || (e == Error::CorruptNode && digest_collision()),
        },
{
    let mut pos: usize = 0;
    while pos < journal.len()
        invariant
            pos <= journal@.len(),
            state.wf(),
            replay_spec(old(state)@, journal@, 0) == replay_spec(state@, journal@, pos as int),
        decreases journal@.len() - pos,
    {
        let ((root, set), end) = match read_commit(journal, pos) {
            Some(found) => found,
            None => {
                return Err(Error::CorruptJournal);
            },
        };
        let ghost before = state@;
        match state.commit(&root, &set) {
            Ok(new_root) => {
                proof {
                    let contents = commit_spec(before, root, set@).unwrap();
                    digest_of_bytes(state_root(contents)).lemma_view_injective(new_root);
                }
            },
            Err(e) => {
                return Err(e);
            },
        }
        pos = end;
    }
    Ok(())
}

} // verus!
