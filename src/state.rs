//! The replicated state machine: it replays committed mutations against the
//! store it owns, and answers reads from it.
use vstd::prelude::*;
use crate::codec::{
    decode_mutation, decode_read, encode_pairs, encode_value, lemma_mutation_round_trip,
    lemma_pairs_round_trip, spec_encode_mutation,
    lemma_value_round_trip, opt_view, pairs_view, spec_decode_mutation, spec_decode_pairs,
    spec_decode_read, spec_decode_value, spec_encode_pairs, spec_encode_value, Mutation,
    MutationModel, Read, ReadModel,
};
use crate::error::Error;
use vstd::slice::slice_to_vec;
use crate::store::{is_prefix_listing, lemma_prefix_listing_unique, lookup, Store};

verus! {

/// What a mutation does to the content of a store.
pub open spec fn apply_mutation(
    m: Map<Seq<u8>, Seq<u8>>,
    mutation: MutationModel,
) -> Map<Seq<u8>, Seq<u8>> {
    match mutation {
        MutationModel::Delete(k) => m.remove(k),
        MutationModel::Put(k, v) => m.insert(k, v),
    }
}

/// What applying command bytes does: a command that does not decode changes
/// nothing.
pub open spec fn step(m: Map<Seq<u8>, Seq<u8>>, command: Seq<u8>) -> Map<Seq<u8>, Seq<u8>> {
    match spec_decode_mutation(command) {
        Some(mutation) => apply_mutation(m, mutation),
        None => m,
    }
}

/// The content after applying a log of commands in order.
pub open spec fn replay(m: Map<Seq<u8>, Seq<u8>>, log: Seq<Seq<u8>>) -> Map<Seq<u8>, Seq<u8>>
    decreases log.len(),
{
    if log.len() == 0 {
        m
    } else {
        replay(step(m, log[0]), log.drop_first())
    }
}

/// The commands of a log as the logic sees them.
pub open spec fn log_view(log: Seq<Vec<u8>>) -> Seq<Seq<u8>> {
    log.map_values(|c: Vec<u8>| c@)
}

proof fn lemma_replay_push(m: Map<Seq<u8>, Seq<u8>>, log: Seq<Seq<u8>>, c: Seq<u8>)
    ensures
        replay(m, log.push(c)) == step(replay(m, log), c),
    decreases log.len(),
{
    if log.len() == 0 {
        assert(log.push(c).drop_first() =~= Seq::<Seq<u8>>::empty());
        assert(replay(step(m, c), Seq::<Seq<u8>>::empty()) == step(m, c));
        assert(log.push(c)[0] == c);
    } else {
        assert(log.push(c).drop_first() =~= log.drop_first().push(c));
        assert(log.push(c)[0] == log[0]);
        lemma_replay_push(step(m, log[0]), log.drop_first(), c);
    }
}

/// The content after performing operations directly on a store, in order:
/// `set` for a put, `delete` for a delete.
pub open spec fn apply_direct(
    m: Map<Seq<u8>, Seq<u8>>,
    ops: Seq<MutationModel>,
) -> Map<Seq<u8>, Seq<u8>>
    decreases ops.len(),
{
    if ops.len() == 0 {
        m
    } else {
        let next = match ops[0] {
            MutationModel::Delete(k) => m.remove(k),
            MutationModel::Put(k, v) => m.insert(k, v),
        };
        apply_direct(next, ops.drop_first())
    }
}

/// Replaying the encoded operations through the state machine, in order,
/// leaves exactly the content that performing them directly on the store
/// leaves.
pub proof fn lemma_replay_fidelity(m: Map<Seq<u8>, Seq<u8>>, ops: Seq<MutationModel>)
    requires
        forall|i: int| 0 <= i < ops.len() ==> (#[trigger] ops[i]).wf(),
    ensures
        replay(m, ops.map_values(|o: MutationModel| spec_encode_mutation(o))) == apply_direct(
            m,
            ops,
        ),
    decreases ops.len(),
{
    let log = ops.map_values(|o: MutationModel| spec_encode_mutation(o));
    if ops.len() > 0 {
        assert(ops[0].wf());
        lemma_mutation_round_trip(ops[0]);
        let rest = ops.drop_first();
        assert(log.drop_first() =~= rest.map_values(|o: MutationModel| spec_encode_mutation(o)));
        assert forall|i: int| 0 <= i < rest.len() implies (#[trigger] rest[i]).wf() by {
            assert(rest[i] == ops[i + 1]);
        }
        lemma_replay_fidelity(step(m, log[0]), rest);
    }
}

/// The pairs of `m` under prefix `p`, in increasing key order.
pub open spec fn prefix_listing(m: Map<Seq<u8>, Seq<u8>>, p: Seq<u8>) -> Seq<(Seq<u8>, Seq<u8>)> {
    choose|s: Seq<(Seq<u8>, Seq<u8>)>| is_prefix_listing(s, m, p)
}

/// `out` is the encoded answer to read `q` on content `m`, and decodes to it.
pub open spec fn answers(out: Seq<u8>, m: Map<Seq<u8>, Seq<u8>>, q: ReadModel) -> bool {
    match q {
        ReadModel::Get(k) => {
            &&& out == spec_encode_value(lookup(m, k))
            &&& spec_decode_value(out) == Some(lookup(m, k))
        },
        ReadModel::GetPrefix(p) => {
            &&& is_prefix_listing(prefix_listing(m, p), m, p)
            &&& out == spec_encode_pairs(prefix_listing(m, p))
            &&& spec_decode_pairs(out) == Some(prefix_listing(m, p))
        },
    }
}

/// The state machine; it owns the store for its whole life.
pub struct State<S: Store> {
    store: S,
}

impl<S: Store> State<S> {
    /// The content of the owned store.
    pub closed spec fn content(&self) -> Map<Seq<u8>, Seq<u8>> {
        self.store.content()
    }

    pub closed spec fn inv(&self) -> bool {
        self.store.inv()
    }

    /// The owned store cannot fail.
    pub closed spec fn never_fails(&self) -> bool {
        self.store.never_fails()
    }

    /// Takes ownership of a store.
    pub fn new(store: S) -> (r: Self)
        requires
            store.inv(),
        ensures
            r.inv(),
            r.content() == store.content(),
            r.never_fails() == store.never_fails(),
    {
        State { store }
    }

    /// Applies a committed mutation. On success the result is empty and the
    /// content has taken the step; bytes that are not a mutation fail with a
    /// codec error; on any failure the content is unchanged.
    pub fn mutate(&mut self, command: Vec<u8>) -> (r: Result<Vec<u8>, Error>)
        requires
            old(self).inv(),
        ensures
            final(self).inv(),
            final(self).never_fails() == old(self).never_fails(),
            spec_decode_mutation(command@) is None <==> (r matches Err(e) && e is Codec),
            spec_decode_mutation(command@) is Some && old(self).never_fails() ==> r is Ok,
            r matches Err(e) ==> (e is Codec || e is Store),
            r matches Ok(out) ==> out@.len() == 0 && final(self).content() == step(
                old(self).content(),
                command@,
            ),
            r is Err ==> final(self).content() == old(self).content(),
    {
        let mutation = decode_mutation(command.as_slice())?;
        match mutation {
            Mutation::Delete(key) => {
                self.store.delete(key.as_slice())?;
            },
            Mutation::Put(key, value) => {
                self.store.set(key.as_slice(), value)?;
            },
        }
        Ok(Vec::new())
    }

    /// Applies a log of committed commands in order, stopping at the first
    /// failure. On success the content is the replay of the whole log; on a
    /// failure it is the replay of the commands before the failing one.
    pub fn replay_log(&mut self, log: &Vec<Vec<u8>>) -> (r: Result<(), Error>)
        requires
            old(self).inv(),
        ensures
            final(self).inv(),
            final(self).never_fails() == old(self).never_fails(),
            r is Ok ==> final(self).content() == replay(old(self).content(), log_view(log@)),
            r matches Err(e) ==> (e is Codec || e is Store),
            r is Err ==> exists|i: int|
                0 <= i < log@.len() && final(self).content() == replay(
                    old(self).content(),
                    #[trigger] log_view(log@).take(i),
                ),
            old(self).never_fails() && (forall|i: int|
                0 <= i < log@.len() ==> (#[trigger] spec_decode_mutation(log@[i]@)) is Some)
                ==> r is Ok,
    {
        let ghost m0 = self.content();
        let ghost lv = log_view(log@);
        let mut i: usize = 0;
        assert(lv.take(0) =~= Seq::<Seq<u8>>::empty());
        while i < log.len()
            invariant
                self.inv(),
                self.never_fails() == old(self).never_fails(),
                m0 == old(self).content(),
                lv == log_view(log@),
                i <= log@.len(),
                self.content() == replay(m0, lv.take(i as int)),
            decreases log.len() - i,
        {
            let command = slice_to_vec(log[i].as_slice());
            proof {
                lemma_replay_push(m0, lv.take(i as int), lv[i as int]);
                assert(lv.take(i + 1) =~= lv.take(i as int).push(lv[i as int]));
                assert(spec_decode_mutation(log@[i as int]@) == spec_decode_mutation(command@));
            }
            match self.mutate(command) {
                Ok(_) => {},
                Err(e) => {
                    assert(0 <= i < log@.len() && self.content() == replay(m0, lv.take(i as int)));
                    return Err(e);
                },
            }
            i += 1;
        }
        assert(lv.take(i as int) =~= lv);
        Ok(())
    }

    /// Answers a read without changing the store. Bytes that are not a read
    /// fail with a codec error.
    pub fn read(&self, command: Vec<u8>) -> (r: Result<Vec<u8>, Error>)
        requires
            self.inv(),
        ensures
            match spec_decode_read(command@) {
                Some(q) => {
                    &&& r matches Ok(out) ==> answers(out@, self.content(), q)
                    &&& !(r matches Err(e) && e is Codec)
                    &&& self.never_fails() ==> r is Ok
                },
                None => (r matches Err(e) && e is Codec),
            },
            r matches Err(e) ==> (e is Codec || e is Store),
    {
        let read = decode_read(command.as_slice())?;
        match read {
            Read::Get(key) => {
                let value = self.store.get(key.as_slice())?;
                let out = encode_value(&value);
                proof {
                    lemma_value_round_trip(opt_view(value));
                }
                Ok(out)
            },
            Read::GetPrefix(prefix) => {
                let pairs = self.store.iter_prefix(prefix.as_slice())?;
                let out = encode_pairs(&pairs);
                proof {
                    let m = self.content();
                    let s = pairs_view(pairs@);
                    let c = prefix_listing(m, prefix@);
                    assert(is_prefix_listing(c, m, prefix@));
                    lemma_prefix_listing_unique(s, c, m, prefix@);
                    lemma_pairs_round_trip(s);
                }
                Ok(out)
            },
        }
    }
}

} // verus!
