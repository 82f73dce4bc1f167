//! An in-memory store: pairs kept in a vector sorted by key.
use vstd::prelude::*;
use vstd::slice::slice_to_vec;
use crate::codec::{opt_view, pairs_view};
use crate::error::Error;
use crate::store::{
    has_prefix, is_prefix_listing, lemma_lex_asymmetric, lemma_lex_irreflexive, lemma_lex_total,
    lemma_lex_transitive, lex_lt, lookup, sorted_keys, Store,
};

verus! {

/// Whether two byte strings are equal.
fn bytes_eq(a: &[u8], b: &[u8]) -> (r: bool)
    ensures
        r == (a@ == b@),
{
    if a.len() != b.len() {
        return false;
    }
    let mut i: usize = 0;
    while i < a.len()
        invariant
            a@.len() == b@.len(),
            i <= a@.len(),
            forall|j: int| 0 <= j < i ==> a@[j] == b@[j],
        decreases a.len() - i,
    {
        if a[i] != b[i] {
            return false;
        }
        i += 1;
    }
    assert(a@ =~= b@);
    true
}

/// Whether `a` comes strictly before `b` in lexicographic order.
fn bytes_lt(a: &[u8], b: &[u8]) -> (r: bool)
    ensures
        r == lex_lt(a@, b@),
{
    let mut i: usize = 0;
    assert(a@.subrange(0, a@.len() as int) =~= a@);
    assert(b@.subrange(0, b@.len() as int) =~= b@);
    while i < a.len() && i < b.len()
        invariant
            i <= a@.len(),
            i <= b@.len(),
            lex_lt(a@, b@) == lex_lt(
                a@.subrange(i as int, a@.len() as int),
                b@.subrange(i as int, b@.len() as int),
            ),
        decreases a.len() - i,
    {
        let ghost sa = a@.subrange(i as int, a@.len() as int);
        let ghost sb = b@.subrange(i as int, b@.len() as int);
        if a[i] != b[i] {
            assert(sa[0] == a@[i as int] && sb[0] == b@[i as int]);
            return a[i] < b[i];
        }
        assert(sa.drop_first() =~= a@.subrange(i + 1, a@.len() as int));
        assert(sb.drop_first() =~= b@.subrange(i + 1, b@.len() as int));
        i += 1;
    }
    i == a.len() && i < b.len()
}

/// Whether `k` starts with `p`.
fn starts_with(k: &[u8], p: &[u8]) -> (r: bool)
    ensures
        r == has_prefix(k@, p@),
{
    if p.len() > k.len() {
        return false;
    }
    let mut i: usize = 0;
    while i < p.len()
        invariant
            p@.len() <= k@.len(),
            i <= p@.len(),
            forall|j: int| 0 <= j < i ==> k@[j] == p@[j],
        decreases p.len() - i,
    {
        if k[i] != p[i] {
            assert(k@.subrange(0, p@.len() as int)[i as int] != p@[i as int]);
            return false;
        }
        i += 1;
    }
    assert(k@.subrange(0, p@.len() as int) =~= p@);
    true
}

/// Where key `k` stands in `s`, if it does.
pub open spec fn pos_of(s: Seq<(Seq<u8>, Seq<u8>)>, k: Seq<u8>) -> int {
    choose|i: int| 0 <= i < s.len() && s[i].0 == k
}

/// The map that a sorted listing of pairs denotes.
pub open spec fn to_map(s: Seq<(Seq<u8>, Seq<u8>)>) -> Map<Seq<u8>, Seq<u8>> {
    Map::new(
        |k: Seq<u8>| exists|i: int| 0 <= i < s.len() && s[i].0 == k,
        |k: Seq<u8>| s[pos_of(s, k)].1,
    )
}

proof fn lemma_to_map_at(s: Seq<(Seq<u8>, Seq<u8>)>, i: int)
    requires
        sorted_keys(s),
        0 <= i < s.len(),
    ensures
        to_map(s).contains_key(s[i].0),
        to_map(s)[s[i].0] == s[i].1,
{
    let k = s[i].0;
    assert(exists|j: int| 0 <= j < s.len() && s[j].0 == k);
    let j = pos_of(s, k);
    if j != i {
        if j < i {
            assert(lex_lt(s[j].0, s[i].0));
        } else {
            assert(lex_lt(s[i].0, s[j].0));
        }
        lemma_lex_irreflexive(k);
    }
    assert(j == i);
    assert(to_map(s).contains_key(k));
    assert(to_map(s)[k] == s[j].1);
}

/// An in-memory store, with its pairs sorted by key.
pub struct Memory {
    pairs: Vec<(Vec<u8>, Vec<u8>)>,
}

impl Memory {
    /// The pairs in key order.
    pub closed spec fn listing(&self) -> Seq<(Seq<u8>, Seq<u8>)> {
        pairs_view(self.pairs@)
    }


    /// An empty store.
    pub fn new() -> (r: Memory)
        ensures
            r.inv(),
            r.never_fails(),
            r.content() == Map::<Seq<u8>, Seq<u8>>::empty(),
    {
        let r = Memory { pairs: Vec::new() };
        assert(to_map(r.listing()) =~= Map::<Seq<u8>, Seq<u8>>::empty());
        r
    }

    /// The first position whose key is not below `key`, and whether the key
    /// stands there.
    fn find(&self, key: &[u8]) -> (r: (usize, bool))
        requires
            sorted_keys(self.listing()),
        ensures
            r.0 <= self.listing().len(),
            forall|j: int| 0 <= j < r.0 ==> lex_lt(#[trigger] self.listing()[j].0, key@),
            r.0 < self.listing().len() ==> !lex_lt(self.listing()[r.0 as int].0, key@),
            r.1 == (r.0 < self.listing().len() && self.listing()[r.0 as int].0 == key@),
            !r.1 ==> !to_map(self.listing()).contains_key(key@),
    {
        let ghost s = self.listing();
        let mut i: usize = 0;
        while i < self.pairs.len() && bytes_lt(self.pairs[i].0.as_slice(), key)
            invariant
                s == self.listing(),
                i <= s.len(),
                forall|j: int| 0 <= j < i ==> lex_lt(#[trigger] s[j].0, key@),
            decreases self.pairs.len() - i,
        {
            i += 1;
        }
        let found = i < self.pairs.len() && bytes_eq(self.pairs[i].0.as_slice(), key);
        proof {
            if !found && to_map(s).contains_key(key@) {
                let j = choose|j: int| 0 <= j < s.len() && s[j].0 == key@;
                if j < i {
                    lemma_lex_irreflexive(key@);
                } else {
                    lemma_lex_total(s[i as int].0, key@);
                    if j > i {
                        assert(lex_lt(s[i as int].0, s[j].0));
                        lemma_lex_asymmetric(key@, s[i as int].0);
                        lemma_lex_asymmetric(s[i as int].0, s[j].0);
                    }
                }
            }
        }
        (i, found)
    }
}

impl Store for Memory {
    open spec fn content(&self) -> Map<Seq<u8>, Seq<u8>> {
        to_map(self.listing())
    }

    open spec fn inv(&self) -> bool {
        sorted_keys(self.listing())
    }

    open spec fn never_fails(&self) -> bool {
        true
    }

    fn get(&self, key: &[u8]) -> (r: Result<Option<Vec<u8>>, Error>)
        ensures
            r matches Ok(v) ==> opt_view(v) == lookup(self.content(), key@),
    {
        let (i, found) = self.find(key);
        if found {
            proof {
                lemma_to_map_at(self.listing(), i as int);
            }
            Ok(Some(slice_to_vec(self.pairs[i].1.as_slice())))
        } else {
            Ok(None)
        }
    }

    fn set(&mut self, key: &[u8], value: Vec<u8>) -> (r: Result<(), Error>)
        ensures
            final(self).inv(),
            r is Ok ==> final(self).content() == old(self).content().insert(key@, value@),
            r is Err ==> final(self).content() == old(self).content(),
    {
        let ghost s = self.listing();
        let (i, found) = self.find(key);
        let k = slice_to_vec(key);
        let ghost kv = (key@, value@);
        if found {
            self.pairs.set(i, (k, value));
            let ghost t = self.listing();
            assert(t =~= s.update(i as int, kv));
            assert(sorted_keys(t)) by {
                assert forall|a: int, b: int| 0 <= a < b < t.len() implies lex_lt(
                    #[trigger] t[a].0,
                    #[trigger] t[b].0,
                ) by {
                    assert(t[a].0 == s[a].0 && t[b].0 == s[b].0);
                }
            }
        } else {
            self.pairs.insert(i, (k, value));
            let ghost t = self.listing();
            assert(t =~= s.insert(i as int, kv));
            assert(sorted_keys(t)) by {
                assert forall|a: int, b: int| 0 <= a < b < t.len() implies lex_lt(
                    #[trigger] t[a].0,
                    #[trigger] t[b].0,
                ) by {
                    if i < s.len() {
                        lemma_lex_total(s[i as int].0, key@);
                    }
                    if b < i {
                        assert(lex_lt(s[a].0, s[b].0));
                    } else if b == i {
                        assert(lex_lt(s[a].0, key@));
                    } else if a < i {
                        assert(lex_lt(s[a].0, key@));
                        assert(lex_lt(key@, s[i as int].0));
                        if b - 1 > i {
                            assert(lex_lt(s[i as int].0, s[b - 1].0));
                            lemma_lex_transitive(key@, s[i as int].0, s[b - 1].0);
                        }
                        lemma_lex_transitive(s[a].0, key@, s[b - 1].0);
                    } else if a == i {
                        if b - 1 > i {
                            assert(lex_lt(s[i as int].0, s[b - 1].0));
                            lemma_lex_transitive(key@, s[i as int].0, s[b - 1].0);
                        }
                    } else {
                        assert(lex_lt(s[a - 1].0, s[b - 1].0));
                    }
                }
            }
        }
        proof {
            let t = self.listing();
            let m = to_map(s).insert(key@, value@);
            assert forall|k: Seq<u8>| #[trigger] to_map(t).contains_key(k) == m.contains_key(k) by {
                if to_map(t).contains_key(k) {
                    let j = choose|j: int| 0 <= j < t.len() && t[j].0 == k;
                    if k != key@ {
                        if found {
                            assert(t[j] == s[j]);
                        } else if j < i {
                            assert(t[j] == s[j]);
                        } else {
                            assert(t[j] == s[j - 1]);
                        }
                    }
                }
                if m.contains_key(k) && k != key@ {
                    let j = choose|j: int| 0 <= j < s.len() && s[j].0 == k;
                    if found || j < i {
                        assert(t[j].0 == k);
                    } else {
                        assert(t[j + 1].0 == k);
                    }
                }
                if k == key@ {
                    assert(t[i as int].0 == k);
                }
            }
            assert forall|k: Seq<u8>| #[trigger] m.contains_key(k) implies to_map(t)[k] == m[k] by {
                if k == key@ {
                    lemma_to_map_at(t, i as int);
                } else {
                    let j = choose|j: int| 0 <= j < s.len() && s[j].0 == k;
                    lemma_to_map_at(s, j);
                    if found || j < i {
                        assert(t[j] == s[j]);
                        lemma_to_map_at(t, j);
                    } else {
                        assert(t[j + 1] == s[j]);
                        lemma_to_map_at(t, j + 1);
                    }
                }
            }
            assert(to_map(t) =~= m);
        }
        Ok(())
    }

    fn delete(&mut self, key: &[u8]) -> (r: Result<(), Error>)
        ensures
            final(self).inv(),
            r is Ok ==> final(self).content() == old(self).content().remove(key@),
            r is Err ==> final(self).content() == old(self).content(),
    {
        let ghost s = self.listing();
        let (i, found) = self.find(key);
        if found {
            self.pairs.remove(i);
            let ghost t = self.listing();
            assert(t =~= s.remove(i as int));
            assert(sorted_keys(t)) by {
                assert forall|a: int, b: int| 0 <= a < b < t.len() implies lex_lt(
                    #[trigger] t[a].0,
                    #[trigger] t[b].0,
                ) by {
                    if a < i && b >= i {
                        assert(lex_lt(s[a].0, s[b + 1].0));
                    } else if b < i {
                        assert(lex_lt(s[a].0, s[b].0));
                    } else {
                        assert(lex_lt(s[a + 1].0, s[b + 1].0));
                    }
                }
            }
            proof {
                let m = to_map(s).remove(key@);
                assert forall|k: Seq<u8>| #[trigger]
                    to_map(t).contains_key(k) == m.contains_key(k) by {
                    if to_map(t).contains_key(k) {
                        let j = choose|j: int| 0 <= j < t.len() && t[j].0 == k;
                        if j < i {
                            assert(t[j] == s[j]);
                            assert(lex_lt(s[j].0, s[i as int].0));
                        } else {
                            assert(t[j] == s[j + 1]);
                            assert(lex_lt(s[i as int].0, s[j + 1].0));
                        }
                        lemma_lex_irreflexive(k);
                    }
                    if m.contains_key(k) {
                        let j = choose|j: int| 0 <= j < s.len() && s[j].0 == k;
                        if j < i {
                            assert(t[j].0 == k);
                        } else {
                            assert(t[j - 1].0 == k);
                        }
                    }
                }
                assert forall|k: Seq<u8>| #[trigger] m.contains_key(k) implies to_map(t)[k]
                    == m[k] by {
                    let j = choose|j: int| 0 <= j < s.len() && s[j].0 == k;
                    lemma_to_map_at(s, j);
                    if j < i {
                        assert(t[j] == s[j]);
                        lemma_to_map_at(t, j);
                    } else {
                        assert(t[j - 1] == s[j]);
                        lemma_to_map_at(t, j - 1);
                    }
                }
                assert(to_map(t) =~= m);
            }
        } else {
            assert(to_map(s).remove(key@) =~= to_map(s));
        }
        Ok(())
    }

    fn iter_prefix(&self, prefix: &[u8]) -> (r: Result<Vec<(Vec<u8>, Vec<u8>)>, Error>)
        ensures
            r matches Ok(v) ==> is_prefix_listing(pairs_view(v@), self.content(), prefix@),
    {
        let ghost s = self.listing();
        let mut out: Vec<(Vec<u8>, Vec<u8>)> = Vec::new();
        let mut i: usize = 0;
        while i < self.pairs.len()
            invariant
                s == self.listing(),
                sorted_keys(s),
                i <= s.len(),
                sorted_keys(pairs_view(out@)),
                forall|a: int, j: int|
                    0 <= a < out@.len() && i <= j < s.len() ==> lex_lt(
                        #[trigger] pairs_view(out@)[a].0,
                        #[trigger] s[j].0,
                    ),
                forall|a: int|
                    0 <= a < out@.len() ==> to_map(s).contains_key(
                        #[trigger] pairs_view(out@)[a].0,
                    ) && to_map(s)[pairs_view(out@)[a].0] == pairs_view(out@)[a].1,
                forall|a: int|
                    0 <= a < out@.len() ==> has_prefix(#[trigger] pairs_view(out@)[a].0, prefix@),
                forall|j: int|
                    0 <= j < i && has_prefix(#[trigger] s[j].0, prefix@) ==> exists|a: int|
                        0 <= a < out@.len() && pairs_view(out@)[a].0 == s[j].0,
            decreases self.pairs.len() - i,
        {
            if starts_with(self.pairs[i].0.as_slice(), prefix) {
                let k = slice_to_vec(self.pairs[i].0.as_slice());
                let v = slice_to_vec(self.pairs[i].1.as_slice());
                let ghost before = pairs_view(out@);
                out.push((k, v));
                proof {
                    let after = pairs_view(out@);
                    assert(after =~= before.push(s[i as int]));
                    assert forall|a: int, j: int|
                        0 <= a < out@.len() && i + 1 <= j < s.len() implies lex_lt(
                        #[trigger] after[a].0,
                        #[trigger] s[j].0,
                    ) by {
                        assert(lex_lt(s[i as int].0, s[j].0));
                        if a < before.len() {
                            assert(after[a] == before[a]);
                        }
                    }
                    assert forall|a: int, b: int| 0 <= a < b < after.len() implies lex_lt(
                        #[trigger] after[a].0,
                        #[trigger] after[b].0,
                    ) by {
                        assert(after[a] == before[a]);
                        if b < before.len() {
                            assert(after[b] == before[b]);
                        }
                    }
                    lemma_to_map_at(s, i as int);
                    assert forall|a: int| 0 <= a < after.len() implies to_map(s).contains_key(
                        #[trigger] after[a].0,
                    ) && to_map(s)[after[a].0] == after[a].1 by {
                        if a < before.len() {
                            assert(after[a] == before[a]);
                        }
                    }
                    assert forall|a: int| 0 <= a < after.len() implies has_prefix(
                        #[trigger] after[a].0,
                        prefix@,
                    ) by {
                        if a < before.len() {
                            assert(after[a] == before[a]);
                        }
                    }
                    assert forall|j: int|
                        0 <= j < i + 1 && has_prefix(#[trigger] s[j].0, prefix@) implies exists|
                        a: int,
                    | 0 <= a < after.len() && after[a].0 == s[j].0 by {
                        if j < i {
                            let a = choose|a: int| 0 <= a < before.len() && before[a].0 == s[j].0;
                            assert(after[a] == before[a]);
                        } else {
                            assert(after[before.len() as int].0 == s[j].0);
                        }
                    }
                }
            }
            i += 1;
        }
        proof {
            let r = pairs_view(out@);
            assert forall|a: int| 0 <= a < r.len() implies {
                &&& has_prefix(#[trigger] r[a].0, prefix@)
                &&& to_map(s).contains_key(r[a].0)
                &&& to_map(s)[r[a].0] == r[a].1
            } by {
            }
            assert forall|k: Seq<u8>| #[trigger]
                to_map(s).contains_key(k) && has_prefix(k, prefix@) implies exists|a: int|
                0 <= a < r.len() && r[a].0 == k by {
                let j = choose|j: int| 0 <= j < s.len() && s[j].0 == k;
                assert(has_prefix(s[j].0, prefix@));
            }
        }
        Ok(out)
    }
}

} // verus!
