//! The key-value capability set that backs a state machine.
use vstd::prelude::*;
use crate::codec::{opt_view, pairs_view};
use crate::error::Error;

verus! {

/// Strict lexicographic order of byte strings: a proper prefix comes first.
pub open spec fn lex_lt(a: Seq<u8>, b: Seq<u8>) -> bool
    decreases a.len(),
{
    if a.len() == 0 {
        b.len() > 0
    } else if b.len() == 0 {
        false
    } else if a[0] != b[0] {
        a[0] < b[0]
    } else {
        lex_lt(a.drop_first(), b.drop_first())
    }
}

pub proof fn lemma_lex_irreflexive(a: Seq<u8>)
    ensures
        !lex_lt(a, a),
    decreases a.len(),
{
    if a.len() > 0 {
        lemma_lex_irreflexive(a.drop_first());
    }
}

pub proof fn lemma_lex_transitive(a: Seq<u8>, b: Seq<u8>, c: Seq<u8>)
    requires
        lex_lt(a, b),
        lex_lt(b, c),
    ensures
        lex_lt(a, c),
    decreases a.len(),
{
    if a.len() > 0 && b.len() > 0 && c.len() > 0 && a[0] == b[0] && b[0] == c[0] {
        lemma_lex_transitive(a.drop_first(), b.drop_first(), c.drop_first());
    }
}

pub proof fn lemma_lex_total(a: Seq<u8>, b: Seq<u8>)
    requires
        a != b,
    ensures
        lex_lt(a, b) || lex_lt(b, a),
    decreases a.len(),
{
    if a.len() > 0 && b.len() > 0 && a[0] == b[0] {
        if a.drop_first() == b.drop_first() {
            assert(a =~= seq![a[0]] + a.drop_first());
            assert(b =~= seq![b[0]] + b.drop_first());
        }
        lemma_lex_total(a.drop_first(), b.drop_first());
    } else if a.len() == 0 && b.len() == 0 {
        assert(a =~= b);
    }
}

pub proof fn lemma_lex_asymmetric(a: Seq<u8>, b: Seq<u8>)
    requires
        lex_lt(a, b),
    ensures
        !lex_lt(b, a),
{
    if lex_lt(b, a) {
        lemma_lex_transitive(a, b, a);
        lemma_lex_irreflexive(a);
    }
}

/// Whether key `k` starts with `p`.
pub open spec fn has_prefix(k: Seq<u8>, p: Seq<u8>) -> bool {
    p.len() <= k.len() && k.subrange(0, p.len() as int) == p
}

/// What a map holds at a key, if anything.
pub open spec fn lookup(m: Map<Seq<u8>, Seq<u8>>, k: Seq<u8>) -> Option<Seq<u8>> {
    if m.contains_key(k) {
        Some(m[k])
    } else {
        None
    }
}

/// Keys strictly increase along the sequence.
pub open spec fn sorted_keys(s: Seq<(Seq<u8>, Seq<u8>)>) -> bool {
    forall|i: int, j: int| 0 <= i < j < s.len() ==> lex_lt(#[trigger] s[i].0, #[trigger] s[j].0)
}

/// `s` lists, in increasing key order, exactly the pairs of `m` whose key
/// starts with `p`.
pub open spec fn is_prefix_listing(
    s: Seq<(Seq<u8>, Seq<u8>)>,
    m: Map<Seq<u8>, Seq<u8>>,
    p: Seq<u8>,
) -> bool {
    &&& sorted_keys(s)
    &&& forall|i: int|
        0 <= i < s.len() ==> {
            &&& has_prefix(#[trigger] s[i].0, p)
            &&& m.contains_key(s[i].0)
            &&& m[s[i].0] == s[i].1
        }
    &&& forall|k: Seq<u8>|
        #![trigger m.contains_key(k)]
        m.contains_key(k) && has_prefix(k, p) ==> exists|i: int| 0 <= i < s.len() && s[i].0 == k
}

proof fn lemma_sorted_same_members(s1: Seq<(Seq<u8>, Seq<u8>)>, s2: Seq<(Seq<u8>, Seq<u8>)>)
    requires
        sorted_keys(s1),
        sorted_keys(s2),
        forall|i: int| 0 <= i < s1.len() ==> s2.contains(#[trigger] s1[i]),
        forall|j: int| 0 <= j < s2.len() ==> s1.contains(#[trigger] s2[j]),
    ensures
        s1 == s2,
    decreases s1.len(),
{
    if s1.len() == 0 {
        if s2.len() > 0 {
            assert(s1.contains(s2[0]));
        }
        assert(s1 =~= s2);
    } else {
        assert(s2.contains(s1[0]));
        let j = choose|j: int| 0 <= j < s2.len() && s2[j] == s1[0];
        assert(s1.contains(s2[0]));
        let i = choose|i: int| 0 <= i < s1.len() && s1[i] == s2[0];
        if j > 0 {
            assert(lex_lt(s2[0].0, s2[j].0));
            if i > 0 {
                assert(lex_lt(s1[0].0, s1[i].0));
                lemma_lex_asymmetric(s1[0].0, s1[i].0);
            } else {
                lemma_lex_irreflexive(s1[0].0);
            }
        }
        let t1 = s1.drop_first();
        let t2 = s2.drop_first();
        assert forall|a: int| 0 <= a < t1.len() implies t2.contains(#[trigger] t1[a]) by {
            assert(s2.contains(s1[a + 1]));
            let b = choose|b: int| 0 <= b < s2.len() && s2[b] == s1[a + 1];
            assert(lex_lt(s1[0].0, s1[a + 1].0));
            if b == 0 {
                lemma_lex_irreflexive(s1[0].0);
            }
            assert(t2[b - 1] == t1[a]);
        }
        assert forall|b: int| 0 <= b < t2.len() implies t1.contains(#[trigger] t2[b]) by {
            assert(s1.contains(s2[b + 1]));
            let a = choose|a: int| 0 <= a < s1.len() && s1[a] == s2[b + 1];
            assert(lex_lt(s2[0].0, s2[b + 1].0));
            if a == 0 {
                lemma_lex_irreflexive(s2[0].0);
            }
            assert(t1[a - 1] == t2[b]);
        }
        lemma_sorted_same_members(t1, t2);
        assert(s1 =~= s2) by {
            assert(s1 =~= seq![s1[0]] + t1);
            assert(s2 =~= seq![s2[0]] + t2);
        }
    }
}

/// A map has exactly one listing under a prefix: answering `GetPrefix`
/// twice on the same content gives the same pairs in the same order.
pub proof fn lemma_prefix_listing_unique(
    s1: Seq<(Seq<u8>, Seq<u8>)>,
    s2: Seq<(Seq<u8>, Seq<u8>)>,
    m: Map<Seq<u8>, Seq<u8>>,
    p: Seq<u8>,
)
    requires
        is_prefix_listing(s1, m, p),
        is_prefix_listing(s2, m, p),
    ensures
        s1 == s2,
{
    assert forall|i: int| 0 <= i < s1.len() implies s2.contains(#[trigger] s1[i]) by {
        assert(m.contains_key(s1[i].0));
        let j = choose|j: int| 0 <= j < s2.len() && s2[j].0 == s1[i].0;
        assert(s2[j] == s1[i]);
    }
    assert forall|j: int| 0 <= j < s2.len() implies s1.contains(#[trigger] s2[j]) by {
        assert(m.contains_key(s2[j].0));
        let i = choose|i: int| 0 <= i < s1.len() && s1[i].0 == s2[j].0;
        assert(s1[i] == s2[j]);
    }
    lemma_sorted_same_members(s1, s2);
}

/// A backing store that holds key-value pairs.
pub trait Store {
    /// The pairs the store holds.
    spec fn content(&self) -> Map<Seq<u8>, Seq<u8>>;

    /// The store's own well-formedness.
    spec fn inv(&self) -> bool;

    /// The store's operations cannot fail (true of an in-memory store).
    spec fn never_fails(&self) -> bool;

    /// Looks a key up.
    fn get(&self, key: &[u8]) -> (r: Result<Option<Vec<u8>>, Error>)
        requires
            self.inv(),
        ensures
            r matches Ok(v) ==> opt_view(v) == lookup(self.content(), key@),
            r matches Err(e) ==> e is Store,
            self.never_fails() ==> r is Ok,
    ;

    /// Sets a key to a value; on failure the content is unchanged.
    fn set(&mut self, key: &[u8], value: Vec<u8>) -> (r: Result<(), Error>)
        requires
            old(self).inv(),
        ensures
            final(self).inv(),
            r is Ok ==> final(self).content() == old(self).content().insert(key@, value@),
            r is Err ==> final(self).content() == old(self).content(),
            r matches Err(e) ==> e is Store,
            old(self).never_fails() ==> r is Ok,
            final(self).never_fails() == old(self).never_fails(),
    ;

    /// Removes a key; on failure the content is unchanged.
    fn delete(&mut self, key: &[u8]) -> (r: Result<(), Error>)
        requires
            old(self).inv(),
        ensures
            final(self).inv(),
            r is Ok ==> final(self).content() == old(self).content().remove(key@),
            r is Err ==> final(self).content() == old(self).content(),
            r matches Err(e) ==> e is Store,
            old(self).never_fails() ==> r is Ok,
            final(self).never_fails() == old(self).never_fails(),
    ;

    /// Lists the pairs under a prefix, in increasing key order.
    fn iter_prefix(&self, prefix: &[u8]) -> (r: Result<Vec<(Vec<u8>, Vec<u8>)>, Error>)
        requires
            self.inv(),
        ensures
            r matches Ok(v) ==> is_prefix_listing(pairs_view(v@), self.content(), prefix@),
            r matches Err(e) ==> e is Store,
            self.never_fails() ==> r is Ok,
    ;
}

} // verus!
