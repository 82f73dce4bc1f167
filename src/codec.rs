//! The wire format of commands and results.
//!
//! Every byte string travels as a field: its length as a little-endian `u64`,
//! then its bytes. A command starts with a one-byte tag naming its variant.
use vstd::prelude::*;
use vstd::bytes::{
    lemma_auto_spec_u64_to_from_le_bytes, spec_u64_from_le_bytes, spec_u64_to_le_bytes,
    u64_from_le_bytes, u64_to_le_bytes,
};
use vstd::slice::{slice_subrange, slice_to_vec};
use crate::error::Error;

verus! {

/// Tag of `Mutation::Delete` and of `Read::Get`.
pub const TAG_FIRST: u8 = 0;

/// Tag of `Mutation::Put` and of `Read::GetPrefix`.
pub const TAG_SECOND: u8 = 1;

/// The largest length a field can carry.
pub open spec fn fits(b: Seq<u8>) -> bool {
    b.len() <= u64::MAX
}

/// A byte string as it travels: its length, then its bytes.
pub open spec fn spec_field(b: Seq<u8>) -> Seq<u8> {
    spec_u64_to_le_bytes(b.len() as u64) + b
}

/// Reads one field from the front of `b`, giving its bytes and what follows.
pub open spec fn spec_take_field(b: Seq<u8>) -> Option<(Seq<u8>, Seq<u8>)> {
    if b.len() < 8 {
        None
    } else {
        let n = spec_u64_from_le_bytes(b.subrange(0, 8));
        if n > b.len() - 8 {
            None
        } else {
            Some((b.subrange(8, 8 + n), b.subrange(8 + n, b.len() as int)))
        }
    }
}

pub proof fn lemma_take_field_of_field(x: Seq<u8>, rest: Seq<u8>)
    requires
        fits(x),
    ensures
        spec_take_field(spec_field(x) + rest) == Some((x, rest)),
{
    lemma_auto_spec_u64_to_from_le_bytes();
    let b = spec_field(x) + rest;
    let h = spec_u64_to_le_bytes(x.len() as u64);
    assert(b.subrange(0, 8) =~= h);
    assert(b.subrange(8, 8 + x.len() as int) =~= x);
    assert(b.subrange(8 + x.len() as int, b.len() as int) =~= rest);
}

pub proof fn lemma_take_field_parts(b: Seq<u8>, x: Seq<u8>, rest: Seq<u8>)
    requires
        spec_take_field(b) == Some((x, rest)),
    ensures
        fits(x),
        b == spec_field(x) + rest,
        rest.len() < b.len(),
{
    lemma_auto_spec_u64_to_from_le_bytes();
    let n = spec_u64_from_le_bytes(b.subrange(0, 8));
    assert(spec_u64_to_le_bytes(x.len() as u64) == b.subrange(0, 8));
    assert(b =~= spec_field(x) + b.subrange(8 + n, b.len() as int));
}

/// Appends `x` to `out` as a field.
fn put_field(out: &mut Vec<u8>, x: &[u8])
    ensures
        fits(x@),
        final(out)@ == old(out)@ + spec_field(x@),
{
    let mut len = u64_to_le_bytes(x.len() as u64);
    out.append(&mut len);
    let mut body = slice_to_vec(x);
    out.append(&mut body);
    assert(final(out)@ =~= old(out)@ + spec_field(x@));
}

/// Reads the field that starts at `pos`; gives its bytes and the position after it.
fn take_field(b: &[u8], pos: usize) -> (r: Option<(Vec<u8>, usize)>)
    requires
        pos <= b@.len(),
    ensures
        match r {
            Some((x, next)) => {
                &&& pos <= next <= b@.len()
                &&& spec_take_field(b@.subrange(pos as int, b@.len() as int)) == Some(
                    (x@, b@.subrange(next as int, b@.len() as int)),
                )
            },
            None => spec_take_field(b@.subrange(pos as int, b@.len() as int)) is None,
        },
{
    let ghost s = b@.subrange(pos as int, b@.len() as int);
    if b.len() - pos < 8 {
        return None;
    }
    let n = u64_from_le_bytes(slice_subrange(b, pos, pos + 8));
    assert(s.subrange(0, 8) =~= b@.subrange(pos as int, pos + 8));
    if n > (b.len() - pos - 8) as u64 {
        return None;
    }
    let start = pos + 8;
    let next = start + n as usize;
    let x = slice_to_vec(slice_subrange(b, start, next));
    assert(s.subrange(8, 8 + n) =~= x@);
    assert(s.subrange(8 + n, s.len() as int) =~= b@.subrange(next as int, b@.len() as int));
    Some((x, next))
}

/// A state machine mutation.
#[derive(Clone, Debug, PartialEq, Eq)]
pub enum Mutation {
    /// Deletes a key.
    Delete(Vec<u8>),
    /// Sets a key to a value.
    Put(Vec<u8>, Vec<u8>),
}

/// A state machine read.
#[derive(Clone, Debug, PartialEq, Eq)]
pub enum Read {
    /// Fetches the value of a key.
    Get(Vec<u8>),
    /// Fetches the pairs whose key starts with a prefix.
    GetPrefix(Vec<u8>),
}

/// What a `Mutation` denotes.
pub enum MutationModel {
    Delete(Seq<u8>),
    Put(Seq<u8>, Seq<u8>),
}

/// What a `Read` denotes.
pub enum ReadModel {
    Get(Seq<u8>),
    GetPrefix(Seq<u8>),
}

impl View for Mutation {
    type V = MutationModel;

    open spec fn view(&self) -> MutationModel {
        match self {
            Mutation::Delete(k) => MutationModel::Delete(k@),
            Mutation::Put(k, v) => MutationModel::Put(k@, v@),
        }
    }
}

impl View for Read {
    type V = ReadModel;

    open spec fn view(&self) -> ReadModel {
        match self {
            Read::Get(k) => ReadModel::Get(k@),
            Read::GetPrefix(p) => ReadModel::GetPrefix(p@),
        }
    }
}

impl MutationModel {
    /// Every byte string fits in a field.
    pub open spec fn wf(self) -> bool {
        match self {
            MutationModel::Delete(k) => fits(k),
            MutationModel::Put(k, v) => fits(k) && fits(v),
        }
    }
}

impl ReadModel {
    /// The byte string fits in a field.
    pub open spec fn wf(self) -> bool {
        match self {
            ReadModel::Get(k) => fits(k),
            ReadModel::GetPrefix(p) => fits(p),
        }
    }
}

/// A tag byte followed by one field.
pub open spec fn spec_tagged(tag: u8, x: Seq<u8>) -> Seq<u8> {
    seq![tag] + spec_field(x)
}

/// Reads a tag byte followed by exactly one field.
pub open spec fn spec_untag(b: Seq<u8>) -> Option<(u8, Seq<u8>)> {
    if b.len() == 0 {
        None
    } else {
        match spec_take_field(b.drop_first()) {
            Some((x, rest)) => if rest.len() == 0 {
                Some((b[0], x))
            } else {
                None
            },
            None => None,
        }
    }
}

pub open spec fn spec_encode_mutation(m: MutationModel) -> Seq<u8> {
    match m {
        MutationModel::Delete(k) => spec_tagged(TAG_FIRST, k),
        MutationModel::Put(k, v) => seq![TAG_SECOND] + spec_field(k) + spec_field(v),
    }
}

pub open spec fn spec_decode_mutation(b: Seq<u8>) -> Option<MutationModel> {
    if b.len() == 0 {
        None
    } else if b[0] == TAG_FIRST {
        match spec_untag(b) {
            Some((_, k)) => Some(MutationModel::Delete(k)),
            None => None,
        }
    } else if b[0] == TAG_SECOND {
        match spec_take_field(b.drop_first()) {
            Some((k, r1)) => match spec_take_field(r1) {
                Some((v, r2)) => if r2.len() == 0 {
                    Some(MutationModel::Put(k, v))
                } else {
                    None
                },
                None => None,
            },
            None => None,
        }
    } else {
        None
    }
}

pub open spec fn spec_encode_read(r: ReadModel) -> Seq<u8> {
    match r {
        ReadModel::Get(k) => spec_tagged(TAG_FIRST, k),
        ReadModel::GetPrefix(p) => spec_tagged(TAG_SECOND, p),
    }
}

pub open spec fn spec_decode_read(b: Seq<u8>) -> Option<ReadModel> {
    match spec_untag(b) {
        Some((tag, x)) => if tag == TAG_FIRST {
            Some(ReadModel::Get(x))
        } else if tag == TAG_SECOND {
            Some(ReadModel::GetPrefix(x))
        } else {
            None
        },
        None => None,
    }
}

proof fn lemma_untag_of_tagged(tag: u8, x: Seq<u8>)
    requires
        fits(x),
    ensures
        spec_untag(spec_tagged(tag, x)) == Some((tag, x)),
{
    let b = spec_tagged(tag, x);
    assert(b.drop_first() =~= spec_field(x) + Seq::<u8>::empty());
    lemma_take_field_of_field(x, Seq::<u8>::empty());
}

proof fn lemma_untag_exact(b: Seq<u8>, tag: u8, x: Seq<u8>)
    requires
        spec_untag(b) == Some((tag, x)),
    ensures
        fits(x),
        b == spec_tagged(tag, x),
{
    let rest = spec_take_field(b.drop_first()).unwrap().1;
    assert(rest =~= Seq::<u8>::empty());
    lemma_take_field_parts(b.drop_first(), x, rest);
    assert(b =~= spec_tagged(tag, x));
}

/// Decoding an encoded mutation gives it back.
pub proof fn lemma_mutation_round_trip(m: MutationModel)
    requires
        m.wf(),
    ensures
        spec_decode_mutation(spec_encode_mutation(m)) == Some(m),
{
    match m {
        MutationModel::Delete(k) => {
            lemma_untag_of_tagged(TAG_FIRST, k);
        },
        MutationModel::Put(k, v) => {
            let b = spec_encode_mutation(m);
            assert(b.drop_first() =~= spec_field(k) + spec_field(v));
            lemma_take_field_of_field(k, spec_field(v));
            assert(spec_field(v) =~= spec_field(v) + Seq::<u8>::empty());
            lemma_take_field_of_field(v, Seq::<u8>::empty());
        },
    }
}

/// Bytes that decode to a mutation are exactly its encoding.
pub proof fn lemma_mutation_decode_exact(b: Seq<u8>, m: MutationModel)
    requires
        spec_decode_mutation(b) == Some(m),
    ensures
        m.wf(),
        spec_encode_mutation(m) == b,
{
    if b[0] == TAG_FIRST {
        let (tag, k) = spec_untag(b).unwrap();
        lemma_untag_exact(b, tag, k);
    } else {
        let (k, r1) = spec_take_field(b.drop_first()).unwrap();
        let (v, r2) = spec_take_field(r1).unwrap();
        lemma_take_field_parts(b.drop_first(), k, r1);
        lemma_take_field_parts(r1, v, r2);
        assert(r2 =~= Seq::<u8>::empty());
        assert(b.drop_first() =~= spec_field(k) + spec_field(v));
        assert(b[0] == TAG_SECOND);
        assert(b =~= seq![b[0]] + b.drop_first());
        assert(b =~= seq![TAG_SECOND] + spec_field(k) + spec_field(v));
    }
}

/// Decoding an encoded read gives it back.
pub proof fn lemma_read_round_trip(r: ReadModel)
    requires
        r.wf(),
    ensures
        spec_decode_read(spec_encode_read(r)) == Some(r),
{
    match r {
        ReadModel::Get(k) => lemma_untag_of_tagged(TAG_FIRST, k),
        ReadModel::GetPrefix(p) => lemma_untag_of_tagged(TAG_SECOND, p),
    }
}

/// Bytes that decode to a read are exactly its encoding.
pub proof fn lemma_read_decode_exact(b: Seq<u8>, r: ReadModel)
    requires
        spec_decode_read(b) == Some(r),
    ensures
        r.wf(),
        spec_encode_read(r) == b,
{
    let (tag, x) = spec_untag(b).unwrap();
    lemma_untag_exact(b, tag, x);
}

/// Encodes a mutation as command bytes.
pub fn encode_mutation(m: &Mutation) -> (r: Vec<u8>)
    ensures
        r@ == spec_encode_mutation(m@),
        m@.wf(),
{
    let mut out: Vec<u8> = Vec::new();
    match m {
        Mutation::Delete(k) => {
            out.push(TAG_FIRST);
            put_field(&mut out, k.as_slice());
        },
        Mutation::Put(k, v) => {
            out.push(TAG_SECOND);
            put_field(&mut out, k.as_slice());
            put_field(&mut out, v.as_slice());
        },
    }
    out
}

/// Reads a tag byte and exactly one field.
fn untag(b: &[u8]) -> (r: Option<(u8, Vec<u8>)>)
    ensures
        match r {
            Some((tag, x)) => spec_untag(b@) == Some((tag, x@)),
            None => spec_untag(b@) is None,
        },
{
    if b.len() == 0 {
        return None;
    }
    assert(b@.subrange(1, b@.len() as int) =~= b@.drop_first());
    match take_field(b, 1) {
        Some((x, next)) => if next == b.len() {
            Some((b[0], x))
        } else {
            None
        },
        None => None,
    }
}

/// Decodes command bytes into a mutation; fails on anything that is not
/// exactly the encoding of one.
pub fn decode_mutation(b: &[u8]) -> (r: Result<Mutation, Error>)
    ensures
        match r {
            Ok(m) => spec_decode_mutation(b@) == Some(m@) && spec_encode_mutation(m@) == b@,
            Err(e) => {
                &&& e is Codec
                &&& spec_decode_mutation(b@) is None
                &&& forall|m: MutationModel| m.wf() ==> spec_encode_mutation(m) != b@
            },
        },
{
    let r = if b.len() == 0 {
        Err(Error::Codec)
    } else if b[0] == TAG_FIRST {
        match untag(b) {
            Some((_, k)) => Ok(Mutation::Delete(k)),
            None => Err(Error::Codec),
        }
    } else if b[0] == TAG_SECOND {
        assert(b@.subrange(1, b@.len() as int) =~= b@.drop_first());
        match take_field(b, 1) {
            Some((k, p1)) => match take_field(b, p1) {
                Some((v, p2)) => if p2 == b.len() {
                    Ok(Mutation::Put(k, v))
                } else {
                    Err(Error::Codec)
                },
                None => Err(Error::Codec),
            },
            None => Err(Error::Codec),
        }
    } else {
        Err(Error::Codec)
    };
    proof {
        match &r {
            Ok(m) => lemma_mutation_decode_exact(b@, m@),
            Err(_) => {
                assert forall|m: MutationModel| m.wf() implies spec_encode_mutation(m) != b@ by {
                    lemma_mutation_round_trip(m);
                }
            },
        }
    }
    r
}

/// Encodes a read as command bytes.
pub fn encode_read(r: &Read) -> (out: Vec<u8>)
    ensures
        out@ == spec_encode_read(r@),
        r@.wf(),
{
    let mut out: Vec<u8> = Vec::new();
    match r {
        Read::Get(k) => {
            out.push(TAG_FIRST);
            put_field(&mut out, k.as_slice());
        },
        Read::GetPrefix(p) => {
            out.push(TAG_SECOND);
            put_field(&mut out, p.as_slice());
        },
    }
    out
}

/// Decodes command bytes into a read; fails on anything that is not exactly
/// the encoding of one.
pub fn decode_read(b: &[u8]) -> (r: Result<Read, Error>)
    ensures
        match r {
            Ok(q) => spec_decode_read(b@) == Some(q@) && spec_encode_read(q@) == b@,
            Err(e) => {
                &&& e is Codec
                &&& spec_decode_read(b@) is None
                &&& forall|q: ReadModel| q.wf() ==> spec_encode_read(q) != b@
            },
        },
{
    let r = match untag(b) {
        Some((tag, x)) => if tag == TAG_FIRST {
            Ok(Read::Get(x))
        } else if tag == TAG_SECOND {
            Ok(Read::GetPrefix(x))
        } else {
            Err(Error::Codec)
        },
        None => Err(Error::Codec),
    };
    proof {
        match &r {
            Ok(q) => lemma_read_decode_exact(b@, q@),
            Err(_) => {
                assert forall|q: ReadModel| q.wf() implies spec_encode_read(q) != b@ by {
                    lemma_read_round_trip(q);
                }
            },
        }
    }
    r
}

/// The result of `Get`: a tag for absent, or a tag and the value.
pub open spec fn spec_encode_value(v: Option<Seq<u8>>) -> Seq<u8> {
    match v {
        None => seq![TAG_FIRST],
        Some(x) => spec_tagged(TAG_SECOND, x),
    }
}

pub open spec fn spec_decode_value(b: Seq<u8>) -> Option<Option<Seq<u8>>> {
    if b == seq![TAG_FIRST] {
        Some(None)
    } else {
        match spec_untag(b) {
            Some((tag, x)) => if tag == TAG_SECOND {
                Some(Some(x))
            } else {
                None
            },
            None => None,
        }
    }
}

pub open spec fn value_fits(v: Option<Seq<u8>>) -> bool {
    match v {
        None => true,
        Some(x) => fits(x),
    }
}

pub open spec fn opt_view(v: Option<Vec<u8>>) -> Option<Seq<u8>> {
    match v {
        None => None,
        Some(x) => Some(x@),
    }
}

/// Decoding an encoded `Get` result gives it back.
pub proof fn lemma_value_round_trip(v: Option<Seq<u8>>)
    requires
        value_fits(v),
    ensures
        spec_decode_value(spec_encode_value(v)) == Some(v),
{
    if let Some(x) = v {
        lemma_untag_of_tagged(TAG_SECOND, x);
        assert(spec_encode_value(v).len() > 1);
    }
}

/// Bytes that decode to a `Get` result are exactly its encoding.
pub proof fn lemma_value_decode_exact(b: Seq<u8>, v: Option<Seq<u8>>)
    requires
        spec_decode_value(b) == Some(v),
    ensures
        value_fits(v),
        spec_encode_value(v) == b,
{
    if b != seq![TAG_FIRST] {
        let (tag, x) = spec_untag(b).unwrap();
        lemma_untag_exact(b, tag, x);
    }
}

/// Encodes the result of a `Get`.
pub fn encode_value(v: &Option<Vec<u8>>) -> (r: Vec<u8>)
    ensures
        r@ == spec_encode_value(opt_view(*v)),
        value_fits(opt_view(*v)),
{
    let mut out: Vec<u8> = Vec::new();
    match v {
        None => {
            out.push(TAG_FIRST);
            assert(out@ =~= seq![TAG_FIRST]);
        },
        Some(x) => {
            out.push(TAG_SECOND);
            put_field(&mut out, x.as_slice());
        },
    }
    out
}

/// Decodes the result of a `Get`; fails on anything that is not exactly the
/// encoding of one.
pub fn decode_value(b: &[u8]) -> (r: Result<Option<Vec<u8>>, Error>)
    ensures
        match r {
            Ok(v) => spec_decode_value(b@) == Some(opt_view(v)) && spec_encode_value(opt_view(v))
                == b@,
            Err(e) => {
                &&& e is Codec
                &&& spec_decode_value(b@) is None
                &&& forall|v: Option<Seq<u8>>| value_fits(v) ==> spec_encode_value(v) != b@
            },
        },
{
    let r = if b.len() == 1 && b[0] == TAG_FIRST {
        assert(b@ =~= seq![TAG_FIRST]);
        Ok(None)
    } else {
        assert(b@ != seq![TAG_FIRST]);
        match untag(b) {
            Some((tag, x)) => if tag == TAG_SECOND {
                Ok(Some(x))
            } else {
                Err(Error::Codec)
            },
            None => Err(Error::Codec),
        }
    };
    proof {
        match &r {
            Ok(v) => lemma_value_decode_exact(b@, opt_view(*v)),
            Err(_) => {
                assert forall|v: Option<Seq<u8>>| value_fits(v) implies spec_encode_value(v)
                    != b@ by {
                    lemma_value_round_trip(v);
                }
            },
        }
    }
    r
}

/// A listing of key-value pairs as the logic sees it.
pub open spec fn pairs_view(v: Seq<(Vec<u8>, Vec<u8>)>) -> Seq<(Seq<u8>, Seq<u8>)> {
    v.map_values(|p: (Vec<u8>, Vec<u8>)| (p.0@, p.1@))
}

pub open spec fn pairs_fit(s: Seq<(Seq<u8>, Seq<u8>)>) -> bool {
    &&& s.len() <= u64::MAX
    &&& forall|i: int| 0 <= i < s.len() ==> fits(#[trigger] s[i].0) && fits(s[i].1)
}

/// The pairs one after another, each as two fields.
pub open spec fn spec_pair_items(s: Seq<(Seq<u8>, Seq<u8>)>) -> Seq<u8>
    decreases s.len(),
{
    if s.len() == 0 {
        Seq::empty()
    } else {
        spec_field(s[0].0) + spec_field(s[0].1) + spec_pair_items(s.drop_first())
    }
}

/// The result of `GetPrefix`: the number of pairs, then the pairs.
pub open spec fn spec_encode_pairs(s: Seq<(Seq<u8>, Seq<u8>)>) -> Seq<u8> {
    spec_u64_to_le_bytes(s.len() as u64) + spec_pair_items(s)
}

/// Reads exactly `n` pairs, and nothing after them.
pub open spec fn spec_take_pairs(b: Seq<u8>, n: nat) -> Option<Seq<(Seq<u8>, Seq<u8>)>>
    decreases n,
{
    if n == 0 {
        if b.len() == 0 {
            Some(Seq::empty())
        } else {
            None
        }
    } else {
        match spec_take_field(b) {
            Some((k, r1)) => match spec_take_field(r1) {
                Some((v, r2)) => match spec_take_pairs(r2, (n - 1) as nat) {
                    Some(t) => Some(seq![(k, v)] + t),
                    None => None,
                },
                None => None,
            },
            None => None,
        }
    }
}

pub open spec fn spec_decode_pairs(b: Seq<u8>) -> Option<Seq<(Seq<u8>, Seq<u8>)>> {
    if b.len() < 8 {
        None
    } else {
        spec_take_pairs(
            b.subrange(8, b.len() as int),
            spec_u64_from_le_bytes(b.subrange(0, 8)) as nat,
        )
    }
}

proof fn lemma_take_pairs_of_items(s: Seq<(Seq<u8>, Seq<u8>)>)
    requires
        pairs_fit(s),
    ensures
        spec_take_pairs(spec_pair_items(s), s.len()) == Some(s),
    decreases s.len(),
{
    if s.len() == 0 {
        assert(s =~= Seq::<(Seq<u8>, Seq<u8>)>::empty());
    } else {
        let (k, v) = s[0];
        let t = s.drop_first();
        assert(fits(s[0].0) && fits(s[0].1));
        assert(pairs_fit(t)) by {
            assert forall|i: int| 0 <= i < t.len() implies fits(#[trigger] t[i].0) && fits(
                t[i].1,
            ) by {
                assert(t[i] == s[i + 1]);
                assert(fits(s[i + 1].0) && fits(s[i + 1].1));
            }
        }
        lemma_take_pairs_of_items(t);
        let b = spec_pair_items(s);
        assert(b =~= spec_field(k) + (spec_field(v) + spec_pair_items(t)));
        lemma_take_field_of_field(k, spec_field(v) + spec_pair_items(t));
        lemma_take_field_of_field(v, spec_pair_items(t));
        assert(seq![(k, v)] + t =~= s);
    }
}

proof fn lemma_take_pairs_exact(b: Seq<u8>, n: nat, s: Seq<(Seq<u8>, Seq<u8>)>)
    requires
        spec_take_pairs(b, n) == Some(s),
    ensures
        s.len() == n,
        forall|i: int| 0 <= i < s.len() ==> fits(#[trigger] s[i].0) && fits(s[i].1),
        spec_pair_items(s) == b,
    decreases n,
{
    if n == 0 {
        assert(b =~= Seq::<u8>::empty());
    } else {
        let (k, r1) = spec_take_field(b).unwrap();
        let (v, r2) = spec_take_field(r1).unwrap();
        let t = spec_take_pairs(r2, (n - 1) as nat).unwrap();
        lemma_take_field_parts(b, k, r1);
        lemma_take_field_parts(r1, v, r2);
        lemma_take_pairs_exact(r2, (n - 1) as nat, t);
        assert(s.drop_first() =~= t);
        assert forall|i: int| 0 <= i < s.len() implies fits(#[trigger] s[i].0) && fits(s[i].1) by {
            if i > 0 {
                assert(s[i] == t[i - 1]);
            }
        }
        assert(b =~= spec_field(k) + spec_field(v) + spec_pair_items(t));
    }
}

/// Decoding an encoded `GetPrefix` result gives it back.
pub proof fn lemma_pairs_round_trip(s: Seq<(Seq<u8>, Seq<u8>)>)
    requires
        pairs_fit(s),
    ensures
        spec_decode_pairs(spec_encode_pairs(s)) == Some(s),
{
    lemma_auto_spec_u64_to_from_le_bytes();
    let b = spec_encode_pairs(s);
    assert(b.subrange(0, 8) =~= spec_u64_to_le_bytes(s.len() as u64));
    assert(b.subrange(8, b.len() as int) =~= spec_pair_items(s));
    lemma_take_pairs_of_items(s);
}

/// Bytes that decode to a `GetPrefix` result are exactly its encoding.
pub proof fn lemma_pairs_decode_exact(b: Seq<u8>, s: Seq<(Seq<u8>, Seq<u8>)>)
    requires
        spec_decode_pairs(b) == Some(s),
    ensures
        pairs_fit(s),
        spec_encode_pairs(s) == b,
{
    lemma_auto_spec_u64_to_from_le_bytes();
    let n = spec_u64_from_le_bytes(b.subrange(0, 8));
    lemma_take_pairs_exact(b.subrange(8, b.len() as int), n as nat, s);
    assert(spec_u64_to_le_bytes(n) == b.subrange(0, 8));
    assert(b =~= spec_encode_pairs(s));
}

/// Encodes the result of a `GetPrefix`.
pub fn encode_pairs(v: &Vec<(Vec<u8>, Vec<u8>)>) -> (r: Vec<u8>)
    ensures
        r@ == spec_encode_pairs(pairs_view(v@)),
        pairs_fit(pairs_view(v@)),
{
    let ghost s = pairs_view(v@);
    let mut out = u64_to_le_bytes(v.len() as u64);
    let mut i: usize = 0;
    assert(s.subrange(0, s.len() as int) =~= s);
    while i < v.len()
        invariant
            i <= v@.len(),
            s == pairs_view(v@),
            out@ + spec_pair_items(s.subrange(i as int, s.len() as int)) == spec_encode_pairs(s),
            forall|j: int| #![trigger s[j]] 0 <= j < i ==> fits(s[j].0) && fits(s[j].1),
        decreases v.len() - i,
    {
        let ghost rest = s.subrange(i as int, s.len() as int);
        assert(rest.drop_first() =~= s.subrange(i + 1, s.len() as int));
        let ghost before = out@;
        let k = v[i].0.as_slice();
        let x = v[i].1.as_slice();
        put_field(&mut out, k);
        put_field(&mut out, x);
        assert(k@ == s[i as int].0 && x@ == s[i as int].1);
        assert(fits(s[i as int].0) && fits(s[i as int].1));
        assert(out@ + spec_pair_items(s.subrange(i + 1, s.len() as int)) =~= before
            + spec_pair_items(rest));
        i += 1;
    }
    assert(s.subrange(i as int, s.len() as int) =~= Seq::<(Seq<u8>, Seq<u8>)>::empty());
    assert(out@ =~= out@ + Seq::<u8>::empty());
    out
}

/// Decodes the result of a `GetPrefix`; fails on anything that is not
/// exactly the encoding of one.
pub fn decode_pairs(b: &[u8]) -> (r: Result<Vec<(Vec<u8>, Vec<u8>)>, Error>)
    ensures
        match r {
            Ok(v) => spec_decode_pairs(b@) == Some(pairs_view(v@)) && spec_encode_pairs(
                pairs_view(v@),
            ) == b@,
            Err(e) => {
                &&& e is Codec
                &&& spec_decode_pairs(b@) is None
                &&& forall|s: Seq<(Seq<u8>, Seq<u8>)>| pairs_fit(s) ==> spec_encode_pairs(s) != b@
            },
        },
{
    let r = decode_pairs_inner(b);
    proof {
        match &r {
            Ok(v) => lemma_pairs_decode_exact(b@, pairs_view(v@)),
            Err(_) => {
                assert forall|s: Seq<(Seq<u8>, Seq<u8>)>| pairs_fit(s) implies spec_encode_pairs(s)
                    != b@ by {
                    lemma_pairs_round_trip(s);
                }
            },
        }
    }
    r
}

fn decode_pairs_inner(b: &[u8]) -> (r: Result<Vec<(Vec<u8>, Vec<u8>)>, Error>)
    ensures
        match r {
            Ok(v) => spec_decode_pairs(b@) == Some(pairs_view(v@)),
            Err(e) => e is Codec && spec_decode_pairs(b@) is None,
        },
{
    if b.len() < 8 {
        return Err(Error::Codec);
    }
    let n = u64_from_le_bytes(slice_subrange(b, 0, 8));
    let ghost whole = b@.subrange(8, b@.len() as int);
    let mut out: Vec<(Vec<u8>, Vec<u8>)> = Vec::new();
    let mut pos: usize = 8;
    let mut i: u64 = 0;
    assert(pairs_view(out@) + Seq::<(Seq<u8>, Seq<u8>)>::empty() =~= Seq::<(Seq<u8>, Seq<u8>)>::empty());
    proof {
        match spec_take_pairs(whole, n as nat) {
            Some(t) => assert(pairs_view(out@) + t =~= t),
            None => {},
        }
    }
    while i < n
        invariant
            8 <= pos <= b@.len(),
            i <= n,
            whole == b@.subrange(8, b@.len() as int),
            spec_decode_pairs(b@) == spec_take_pairs(whole, n as nat),
            spec_take_pairs(whole, n as nat) == match spec_take_pairs(
                b@.subrange(pos as int, b@.len() as int),
                (n - i) as nat,
            ) {
                Some(t) => Some(pairs_view(out@) + t),
                None => None,
            },
        decreases n - i,
    {
        let ghost old_out = pairs_view(out@);
        match take_field(b, pos) {
            None => return Err(Error::Codec),
            Some((k, p1)) => match take_field(b, p1) {
                None => return Err(Error::Codec),
                Some((v, p2)) => {
                    out.push((k, v));
                    pos = p2;
                    i += 1;
                    proof {
                        assert(pairs_view(out@) =~= old_out + seq![(k@, v@)]);
                        match spec_take_pairs(b@.subrange(pos as int, b@.len() as int), (n - i) as nat) {
                            Some(t) => {
                                assert(old_out + (seq![(k@, v@)] + t) =~= pairs_view(out@) + t);
                            },
                            None => {},
                        }
                    }
                },
            },
        }
    }
    if pos == b.len() {
        assert(b@.subrange(pos as int, b@.len() as int) =~= Seq::<u8>::empty());
        assert(pairs_view(out@) + Seq::<(Seq<u8>, Seq<u8>)>::empty() =~= pairs_view(out@));
        Ok(out)
    } else {
        Err(Error::Codec)
    }
}

} // verus!
