use raftkv::codec::{
    decode_mutation, decode_pairs, decode_read, decode_value, encode_mutation, encode_pairs,
    encode_read, encode_value, Mutation, Read,
};
use raftkv::error::Error;
use raftkv::memory::Memory;
use raftkv::raft::{Consensus, Local, Raft};
use raftkv::state::State;
use raftkv::store::Store;

type Pairs = Vec<(Vec<u8>, Vec<u8>)>;

fn pair(k: &[u8], v: &[u8]) -> (Vec<u8>, Vec<u8>) {
    (k.to_vec(), v.to_vec())
}

fn put(k: &[u8], v: &[u8]) -> Vec<u8> {
    encode_mutation(&Mutation::Put(k.to_vec(), v.to_vec()))
}

fn delete(k: &[u8]) -> Vec<u8> {
    encode_mutation(&Mutation::Delete(k.to_vec()))
}

fn get_prefix(state: &State<Memory>, p: &[u8]) -> Pairs {
    let out = state.read(encode_read(&Read::GetPrefix(p.to_vec()))).unwrap();
    decode_pairs(&out).unwrap()
}

fn cluster() -> Raft<Local<Memory>> {
    Raft::new(Local::new(Raft::<Local<Memory>>::new_state(Memory::new())))
}

#[test]
fn mutation_round_trip() {
    let cases = vec![
        Mutation::Delete(vec![]),
        Mutation::Delete(b"key".to_vec()),
        Mutation::Put(vec![], vec![]),
        Mutation::Put(b"k".to_vec(), vec![]),
        Mutation::Put(vec![], b"v".to_vec()),
        Mutation::Put(vec![0, 255, 7], vec![1; 300]),
    ];
    for m in cases {
        assert_eq!(decode_mutation(&encode_mutation(&m)), Ok(m));
    }
}

#[test]
fn read_round_trip() {
    let cases = vec![
        Read::Get(vec![]),
        Read::Get(b"key".to_vec()),
        Read::GetPrefix(vec![]),
        Read::GetPrefix(vec![0, 1, 2]),
    ];
    for r in cases {
        assert_eq!(decode_read(&encode_read(&r)), Ok(r));
    }
}

#[test]
fn value_round_trip() {
    for v in [None, Some(vec![]), Some(b"abc".to_vec())] {
        assert_eq!(decode_value(&encode_value(&v)), Ok(v));
    }
}

#[test]
fn pairs_round_trip() {
    let cases: Vec<Pairs> = vec![
        vec![],
        vec![pair(b"", b"")],
        vec![pair(b"a", b"1"), pair(b"b", b""), pair(b"", b"x")],
    ];
    for p in cases {
        assert_eq!(decode_pairs(&encode_pairs(&p)), Ok(p));
    }
}

#[test]
fn wire_layout_is_fixed() {
    assert_eq!(
        encode_mutation(&Mutation::Delete(b"a".to_vec())),
        vec![0, 1, 0, 0, 0, 0, 0, 0, 0, b'a']
    );
    assert_eq!(
        encode_mutation(&Mutation::Put(b"a".to_vec(), b"bc".to_vec())),
        vec![1, 1, 0, 0, 0, 0, 0, 0, 0, b'a', 2, 0, 0, 0, 0, 0, 0, 0, b'b', b'c']
    );
    assert_eq!(
        encode_read(&Read::GetPrefix(vec![])),
        vec![1, 0, 0, 0, 0, 0, 0, 0, 0]
    );
    assert_eq!(encode_value(&None), vec![0]);
    assert_eq!(encode_value(&Some(vec![])), vec![1, 0, 0, 0, 0, 0, 0, 0, 0]);
    assert_eq!(
        encode_pairs(&vec![pair(b"k", b"")]),
        vec![1, 0, 0, 0, 0, 0, 0, 0, 1, 0, 0, 0, 0, 0, 0, 0, b'k', 0, 0, 0, 0, 0, 0, 0, 0]
    );
}

#[test]
fn malformed_bytes_are_codec_errors() {
    let good = put(b"a", b"b");
    let mut trailing = good.clone();
    trailing.push(0);
    let mut bad_tag = good.clone();
    bad_tag[0] = 2;
    let mut long_length = delete(b"a");
    long_length[1] = 2;
    let cases: Vec<Vec<u8>> = vec![
        vec![],
        vec![0],
        vec![0, 1, 0],
        good[..good.len() - 1].to_vec(),
        trailing,
        bad_tag,
        long_length,
        vec![1, 255, 255, 255, 255, 255, 255, 255, 255],
    ];
    for b in &cases {
        assert_eq!(decode_mutation(b), Err(Error::Codec));
        assert_eq!(decode_read(b), Err(Error::Codec));
    }
    assert_eq!(decode_value(&[2]), Err(Error::Codec));
    assert_eq!(decode_value(&[0, 0]), Err(Error::Codec));
    assert_eq!(decode_pairs(&[1, 0, 0, 0, 0, 0, 0, 0]), Err(Error::Codec));
    assert_eq!(decode_pairs(&[0, 0, 0, 0, 0, 0, 0]), Err(Error::Codec));
    assert!(Error::Codec.is_codec());
    assert!(!Error::Store("disk".to_string()).is_codec());
    assert!(!Error::Consensus("not leader".to_string()).is_codec());
}

#[test]
fn malformed_command_leaves_store_unchanged() {
    let mut state = State::new(Memory::new());
    assert_eq!(state.mutate(put(b"a", b"1")), Ok(vec![]));
    let mut corrupt = put(b"b", b"2");
    corrupt.truncate(5);
    assert_eq!(state.mutate(corrupt), Err(Error::Codec));
    assert_eq!(state.mutate(vec![9, 9, 9]), Err(Error::Codec));
    assert_eq!(state.read(vec![7]), Err(Error::Codec));
    assert_eq!(state.read(delete(b"a")[..3].to_vec()), Err(Error::Codec));
    assert_eq!(get_prefix(&state, b""), vec![pair(b"a", b"1")]);
}

#[test]
fn replay_matches_direct_store() {
    let ops = vec![
        Mutation::Put(b"x".to_vec(), b"1".to_vec()),
        Mutation::Put(b"y".to_vec(), b"2".to_vec()),
        Mutation::Put(b"x".to_vec(), b"3".to_vec()),
        Mutation::Delete(b"y".to_vec()),
        Mutation::Delete(b"missing".to_vec()),
        Mutation::Put(b"".to_vec(), b"".to_vec()),
        Mutation::Put(b"xa".to_vec(), b"4".to_vec()),
    ];
    let mut state = State::new(Memory::new());
    let mut direct = Memory::new();
    for op in &ops {
        assert_eq!(state.mutate(encode_mutation(op)), Ok(vec![]));
        match op {
            Mutation::Delete(k) => direct.delete(k).unwrap(),
            Mutation::Put(k, v) => direct.set(k, v.clone()).unwrap(),
        }
    }
    let expected = direct.iter_prefix(b"").unwrap();
    assert_eq!(get_prefix(&state, b""), expected);
    assert_eq!(expected, vec![pair(b"", b""), pair(b"x", b"3"), pair(b"xa", b"4")]);
}

#[test]
fn prefix_lists_exactly_matching_keys_in_order() {
    let mut state = State::new(Memory::new());
    for (k, v) in [("ba", "4"), ("a", "1"), ("b", "3"), ("ab", "2"), ("c", "5"), ("bb", "6")] {
        state.mutate(put(k.as_bytes(), v.as_bytes())).unwrap();
    }
    let first = get_prefix(&state, b"b");
    assert_eq!(first, vec![pair(b"b", b"3"), pair(b"ba", b"4"), pair(b"bb", b"6")]);
    assert_eq!(get_prefix(&state, b"b"), first);
    assert_eq!(get_prefix(&state, b"ba"), vec![pair(b"ba", b"4")]);
    assert_eq!(get_prefix(&state, b"z"), vec![]);
    assert_eq!(get_prefix(&state, b"").len(), 6);
    let raw = state.read(encode_read(&Read::GetPrefix(b"b".to_vec()))).unwrap();
    assert_eq!(raw, state.read(encode_read(&Read::GetPrefix(b"b".to_vec()))).unwrap());
}

#[test]
fn absent_key_differs_from_empty_value() {
    let mut db = cluster();
    db.set(b"empty", vec![]).unwrap();
    assert_eq!(db.get(b"empty"), Ok(Some(vec![])));
    assert_eq!(db.get(b"missing"), Ok(None));
    let state = State::new(Memory::new());
    let absent = state.read(encode_read(&Read::Get(b"k".to_vec()))).unwrap();
    assert_eq!(absent, vec![0]);
    assert_ne!(absent, encode_value(&Some(vec![])));
}

#[test]
fn write_then_read_through_adapter() {
    let mut db = cluster();
    db.set(b"k", b"v".to_vec()).unwrap();
    assert_eq!(db.get(b"k"), Ok(Some(b"v".to_vec())));
    db.set(b"k", b"w".to_vec()).unwrap();
    assert_eq!(db.get(b"k"), Ok(Some(b"w".to_vec())));
    db.delete(b"k").unwrap();
    assert_eq!(db.get(b"k"), Ok(None));
    db.delete(b"k").unwrap();
    assert_eq!(db.get(b"k"), Ok(None));
}

#[test]
fn adapter_prefix_snapshot() {
    let mut db = cluster();
    db.set(b"user/2", b"bob".to_vec()).unwrap();
    db.set(b"user/1", b"amy".to_vec()).unwrap();
    db.set(b"team/1", b"core".to_vec()).unwrap();
    let users = db.iter_prefix(b"user/").unwrap();
    assert_eq!(users, vec![pair(b"user/1", b"amy"), pair(b"user/2", b"bob")]);
    assert_eq!(db.iter_prefix(b"user/").unwrap(), users);
    assert_eq!(db.iter_prefix(b"").unwrap().len(), 3);
}

#[test]
fn scenario_set_set_delete_then_list() {
    let mut state = Raft::<Local<Memory>>::new_state(Memory::new());
    assert_eq!(state.mutate(put(b"a", b"1")), Ok(vec![]));
    assert_eq!(state.mutate(put(b"b", b"2")), Ok(vec![]));
    assert_eq!(state.mutate(delete(b"a")), Ok(vec![]));
    assert_eq!(get_prefix(&state, b""), vec![pair(b"b", b"2")]);
}

#[test]
fn local_cluster_passes_commands_through() {
    let mut local = Local::new(State::new(Memory::new()));
    assert_eq!(local.mutate(put(b"a", b"1")), Ok(vec![]));
    assert_eq!(local.mutate(vec![5]), Err(Error::Codec));
    let out = local.read(encode_read(&Read::Get(b"a".to_vec()))).unwrap();
    assert_eq!(decode_value(&out), Ok(Some(b"1".to_vec())));
}

#[test]
fn memory_store_operations() {
    let mut m = Memory::new();
    assert_eq!(m.get(b"a"), Ok(None));
    m.set(b"b", b"2".to_vec()).unwrap();
    m.set(b"a", b"1".to_vec()).unwrap();
    m.set(b"c", b"3".to_vec()).unwrap();
    m.set(b"b", b"22".to_vec()).unwrap();
    assert_eq!(m.get(b"b"), Ok(Some(b"22".to_vec())));
    assert_eq!(
        m.iter_prefix(b"").unwrap(),
        vec![pair(b"a", b"1"), pair(b"b", b"22"), pair(b"c", b"3")]
    );
    m.delete(b"a").unwrap();
    m.delete(b"zz").unwrap();
    assert_eq!(m.get(b"a"), Ok(None));
    assert_eq!(m.iter_prefix(b"").unwrap(), vec![pair(b"b", b"22"), pair(b"c", b"3")]);
}

#[test]
fn replay_log_applies_in_order_and_stops_at_failure() {
    let log = vec![put(b"a", b"1"), put(b"b", b"2"), delete(b"a"), put(b"c", b"3")];
    let mut state = State::new(Memory::new());
    assert_eq!(state.replay_log(&log), Ok(()));
    assert_eq!(get_prefix(&state, b""), vec![pair(b"b", b"2"), pair(b"c", b"3")]);

    let broken = vec![put(b"a", b"1"), vec![7, 7], put(b"b", b"2")];
    let mut other = State::new(Memory::new());
    assert_eq!(other.replay_log(&broken), Err(Error::Codec));
    assert_eq!(get_prefix(&other, b""), vec![pair(b"a", b"1")]);
}
