use execution_engine::digest::Digest;
use execution_engine::error::Error;
use execution_engine::global_state::GlobalState;
use execution_engine::journal::{read_commit, replay, write_commit};
use execution_engine::key::{AccessRights, Key};
use execution_engine::transform::Transform;
use execution_engine::transform_set::TransformSet;
use execution_engine::uint512::U512;
use execution_engine::value::Value;

fn number(n: u64) -> Value {
    Value::from_u512(U512::from(n))
}

fn recorded() -> (GlobalState, Vec<Digest>, Vec<u8>) {
    let mut state = GlobalState::new();
    let mut journal = Vec::new();
    let mut roots = vec![GlobalState::empty_root()];
    for round in 0..5u64 {
        let mut set = TransformSet::new();
        set.push(Key::Hash([round as u8; 32]), Transform::Write(number(round)));
        set.push(Key::URef([1; 32], AccessRights::all()), Transform::Write(number(10 * round)));
        set.push(Key::URef([1; 32], AccessRights::all()), Transform::AddU512(U512::from(1)));
        let root = roots[roots.len() - 1];
        write_commit(&mut journal, &root, &set);
        roots.push(state.commit(&root, &set).expect("applies"));
    }
    (state, roots, journal)
}

#[test]
fn replayed_store_knows_the_same_states() {
    let (state, roots, journal) = recorded();
    let mut again = GlobalState::new();
    assert_eq!(replay(&mut again, &journal), Ok(()));
    let purse = Key::URef([1; 32], AccessRights::none());
    for (round, root) in roots.iter().enumerate() {
        assert!(again.knows(root));
        assert_eq!(again.read(root, &purse), state.read(root, &purse));
        assert_eq!(
            again.read(root, &Key::Hash([0; 32])),
            state.read(root, &Key::Hash([0; 32]))
        );
        if round > 0 {
            assert_eq!(again.read(root, &purse), Ok(Some(number(10 * (round as u64 - 1) + 1))));
        }
    }
}

#[test]
fn empty_journal_changes_nothing() {
    let mut state = GlobalState::new();
    assert_eq!(replay(&mut state, &[]), Ok(()));
    assert!(state.knows(&GlobalState::empty_root()));
}

#[test]
fn bytes_of_a_recorded_commit() {
    let mut set = TransformSet::new();
    set.push(Key::Hash([1; 32]), Transform::Identity);
    let mut journal = Vec::new();
    write_commit(&mut journal, &Digest { bytes: [9; 32] }, &set);
    let mut expected = vec![9; 32];
    expected.extend_from_slice(&[43, 0, 0, 0, 0, 0, 0, 0]);
    expected.extend_from_slice(&[1, 0, 0, 0, 0, 0, 0, 0, 2]);
    expected.extend_from_slice(&[1; 32]);
    expected.extend_from_slice(&[0, 0]);
    assert_eq!(journal, expected);
    match read_commit(&journal, 0) {
        Some(((root, read), end)) => {
            assert_eq!(root, Digest { bytes: [9; 32] });
            assert_eq!(read.len(), 1);
            assert_eq!(end, journal.len());
        }
        None => panic!("the commit was expected to be read"),
    }
    assert!(read_commit(&journal, 1).is_none());
}

#[test]
fn cut_journal_is_corrupt() {
    let (_, _, journal) = recorded();
    let mut state = GlobalState::new();
    assert_eq!(replay(&mut state, &journal[..journal.len() - 1]), Err(Error::CorruptJournal));
    let mut state = GlobalState::new();
    assert_eq!(replay(&mut state, &journal[..20]), Err(Error::CorruptJournal));
}

#[test]
fn journal_of_another_history_is_refused() {
    let (_, _, journal) = recorded();
    let first = read_commit(&journal, 0).expect("a commit").1;
    let mut state = GlobalState::new();
    assert_eq!(replay(&mut state, &journal[first..]), Err(Error::UnknownRoot));
}
