//! The key-value store seen by ordinary callers: every call becomes a command
//! that the consensus collaborator orders, replicates and applies.
use vstd::prelude::*;
use vstd::bytes::lemma_auto_spec_u64_to_from_le_bytes;
use vstd::slice::slice_to_vec;
use crate::codec::{
    decode_pairs, decode_value, encode_mutation, encode_read, lemma_mutation_round_trip,
    lemma_read_round_trip, opt_view, pairs_view, spec_decode_read, spec_encode_value, Mutation,
    Read,
};
use crate::error::Error;
use crate::state::{answers, prefix_listing, step, State};
use crate::store::{is_prefix_listing, lookup, Store};

verus! {

/// A key that is absent answers differently from a key that holds an empty
/// value, on the wire as well as once decoded.
pub proof fn lemma_absence_distinct(m: Map<Seq<u8>, Seq<u8>>, absent: Seq<u8>, present: Seq<u8>)
    requires
        !m.contains_key(absent),
        m.contains_key(present),
        m[present] == Seq::<u8>::empty(),
    ensures
        lookup(m, absent) == None::<Seq<u8>>,
        lookup(m, present) == Some(Seq::<u8>::empty()),
        spec_encode_value(lookup(m, absent)) != spec_encode_value(lookup(m, present)),
{
    lemma_auto_spec_u64_to_from_le_bytes();
    assert(spec_encode_value(lookup(m, present)).len() == 9);
}

/// Once `set(k, v)` has succeeded, `get(k)` answers `v`.
pub proof fn lemma_write_visible(m: Map<Seq<u8>, Seq<u8>>, k: Seq<u8>, v: Seq<u8>)
    ensures
        lookup(m.insert(k, v), k) == Some(v),
{
}

/// The consensus collaborator: it commits mutations to the replicated log
/// and serves reads from the replicated state machine.
pub trait Consensus {
    /// The content of the replicated state machine.
    spec fn content(&self) -> Map<Seq<u8>, Seq<u8>>;

    spec fn inv(&self) -> bool;

    /// Commits a mutation and returns its result once it has been applied.
    /// A failure may come before or after the commit.
    fn mutate(&mut self, command: Vec<u8>) -> (r: Result<Vec<u8>, Error>)
        requires
            old(self).inv(),
        ensures
            final(self).inv(),
            r is Ok ==> final(self).content() == step(old(self).content(), command@),
            r is Err ==> final(self).content() == old(self).content() || final(self).content()
                == step(old(self).content(), command@),
    ;

    /// Answers a read from the replicated state machine.
    fn read(&self, command: Vec<u8>) -> (r: Result<Vec<u8>, Error>)
        requires
            self.inv(),
        ensures
            spec_decode_read(command@) matches Some(q) ==> (r matches Ok(out) ==> answers(
                out@,
                self.content(),
                q,
            )),
    ;
}

/// A cluster of one replica: each command is committed and applied at once.
pub struct Local<S: Store> {
    state: State<S>,
}

impl<S: Store> Local<S> {
    /// Runs a state machine as the only replica.
    pub fn new(state: State<S>) -> (r: Self)
        requires
            state.inv(),
        ensures
            r.inv(),
            r.content() == state.content(),
    {
        Local { state }
    }
}

impl<S: Store> Consensus for Local<S> {
    closed spec fn content(&self) -> Map<Seq<u8>, Seq<u8>> {
        self.state.content()
    }

    closed spec fn inv(&self) -> bool {
        self.state.inv()
    }

    fn mutate(&mut self, command: Vec<u8>) -> (r: Result<Vec<u8>, Error>) {
        self.state.mutate(command)
    }

    fn read(&self, command: Vec<u8>) -> (r: Result<Vec<u8>, Error>) {
        self.state.read(command)
    }
}

/// A key-value store backed by a consensus cluster. The cluster's state
/// machine must come from `Raft::new_state`.
pub struct Raft<C: Consensus> {
    raft: C,
}

impl<C: Consensus> Raft<C> {
    /// The content of the replicated store.
    pub closed spec fn content(&self) -> Map<Seq<u8>, Seq<u8>> {
        self.raft.content()
    }

    pub closed spec fn inv(&self) -> bool {
        self.raft.inv()
    }

    /// Creates a key-value store around a consensus cluster.
    pub fn new(raft: C) -> (r: Self)
        ensures
            r.content() == raft.content(),
            r.inv() == raft.inv(),
    {
        Raft { raft }
    }

    /// Creates the state machine that the cluster replicates, around a store.
    pub fn new_state<S: Store>(store: S) -> (r: State<S>)
        requires
            store.inv(),
        ensures
            r.inv(),
            r.content() == store.content(),
            r.never_fails() == store.never_fails(),
    {
        State::new(store)
    }

    /// Deletes a key. Collaborator failures are passed on; such a failure
    /// may come before or after the delete took effect.
    pub fn delete(&mut self, key: &[u8]) -> (r: Result<(), Error>)
        requires
            old(self).inv(),
        ensures
            final(self).inv(),
            r is Ok ==> final(self).content() == old(self).content().remove(key@),
            r is Err ==> final(self).content() == old(self).content() || final(self).content()
                == old(self).content().remove(key@),
    {
        let mutation = Mutation::Delete(slice_to_vec(key));
        let command = encode_mutation(&mutation);
        proof {
            lemma_mutation_round_trip(mutation@);
        }
        self.raft.mutate(command)?;
        Ok(())
    }

    /// Looks a key up; `None` marks an absent key.
    pub fn get(&self, key: &[u8]) -> (r: Result<Option<Vec<u8>>, Error>)
        requires
            self.inv(),
        ensures
            r matches Ok(v) ==> opt_view(v) == lookup(self.content(), key@),
    {
        let read = Read::Get(slice_to_vec(key));
        let command = encode_read(&read);
        proof {
            lemma_read_round_trip(read@);
        }
        let out = self.raft.read(command)?;
        decode_value(out.as_slice())
    }

    /// The pairs whose key starts with `prefix`, in increasing key order, as
    /// one snapshot.
    pub fn iter_prefix(&self, prefix: &[u8]) -> (r: Result<Vec<(Vec<u8>, Vec<u8>)>, Error>)
        requires
            self.inv(),
        ensures
            r matches Ok(v) ==> {
                &&& is_prefix_listing(pairs_view(v@), self.content(), prefix@)
                &&& pairs_view(v@) == prefix_listing(self.content(), prefix@)
            },
    {
        let read = Read::GetPrefix(slice_to_vec(prefix));
        let command = encode_read(&read);
        proof {
            lemma_read_round_trip(read@);
        }
        let out = self.raft.read(command)?;
        decode_pairs(out.as_slice())
    }

    /// Sets a key to a value. Collaborator failures are passed on; such a
    /// failure may come before or after the write took effect.
    pub fn set(&mut self, key: &[u8], value: Vec<u8>) -> (r: Result<(), Error>)
        requires
            old(self).inv(),
        ensures
            final(self).inv(),
            r is Ok ==> final(self).content() == old(self).content().insert(key@, value@),
            r is Err ==> final(self).content() == old(self).content() || final(self).content()
                == old(self).content().insert(key@, value@),
    {
        let mutation = Mutation::Put(slice_to_vec(key), value);
        let command = encode_mutation(&mutation);
        proof {
            lemma_mutation_round_trip(mutation@);
        }
        self.raft.mutate(command)?;
        Ok(())
    }
}

} // verus!
