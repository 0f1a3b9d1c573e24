use vstd::prelude::*;

use crate::text::{lex_lt, lemma_lex_irreflexive, lemma_lex_total, lemma_lex_transitive, str_lt};

verus! {

/// The entries of a string map, as pairs of key and value.
pub type Entries = Seq<(Seq<char>, Seq<char>)>;

/// Keys strictly increase along the entries (so each key occurs once).
pub open spec fn keys_sorted(e: Entries) -> bool {
    forall|i: int, j: int| 0 <= i < j < e.len() ==> lex_lt(#[trigger] e[i].0, #[trigger] e[j].0)
}

/// The value stored under `k`, if any.
pub open spec fn find_key(e: Entries, k: Seq<char>) -> Option<Seq<char>>
    decreases e.len(),
{
    if e.len() == 0 {
        None
    } else if e[0].0 == k {
        Some(e[0].1)
    } else {
        find_key(e.drop_first(), k)
    }
}

/// The first position whose key does not sort before `k`.
pub open spec fn insert_pos(e: Entries, k: Seq<char>) -> int
    decreases e.len(),
{
    if e.len() == 0 {
        0
    } else if lex_lt(e[0].0, k) {
        1 + insert_pos(e.drop_first(), k)
    } else {
        0
    }
}

/// The entries after storing `v` under `k`: the value is replaced where the
/// key is present, and a new entry goes in key order where it is not.
pub open spec fn insert_entry(e: Entries, k: Seq<char>, v: Seq<char>) -> Entries {
    let p = insert_pos(e, k);
    if p < e.len() && e[p].0 == k {
        e.update(p, (k, v))
    } else {
        e.insert(p, (k, v))
    }
}

pub proof fn lemma_insert_pos(e: Entries, k: Seq<char>)
    requires
        keys_sorted(e),
    ensures
        0 <= insert_pos(e, k) <= e.len(),
        forall|i: int| 0 <= i < insert_pos(e, k) ==> lex_lt(#[trigger] e[i].0, k),
        insert_pos(e, k) < e.len() ==> !lex_lt(e[insert_pos(e, k)].0, k),
        forall|i: int| insert_pos(e, k) < i < e.len() ==> lex_lt(k, #[trigger] e[i].0),
    decreases e.len(),
{
    if e.len() > 0 {
        if lex_lt(e[0].0, k) {
            let t = e.drop_first();
            assert(keys_sorted(t)) by {
                assert forall|i: int, j: int| 0 <= i < j < t.len() implies lex_lt(
                    #[trigger] t[i].0,
                    #[trigger] t[j].0,
                ) by {
                    assert(t[i] == e[i + 1] && t[j] == e[j + 1]);
                }
            }
            lemma_insert_pos(t, k);
            assert forall|i: int| 0 <= i < insert_pos(e, k) implies lex_lt(#[trigger] e[i].0, k) by {
                if i > 0 {
                    assert(e[i] == t[i - 1]);
                }
            }
            assert forall|i: int| insert_pos(e, k) < i < e.len() implies lex_lt(
                k,
                #[trigger] e[i].0,
            ) by {
                assert(e[i] == t[i - 1]);
            }
        } else {
            assert forall|i: int| 0 < i < e.len() implies lex_lt(k, #[trigger] e[i].0) by {
                lemma_lex_total(e[0].0, k);
                if e[0].0 == k {
                } else {
                    lemma_lex_transitive(k, e[0].0, e[i].0);
                }
            }
        }
    }
}

/// A key that sorts before every key of the entries is absent from them.
pub proof fn lemma_find_key_sorted(e: Entries, k: Seq<char>)
    requires
        keys_sorted(e),
    ensures
        find_key(e, k) is Some <==> exists|i: int| 0 <= i < e.len() && #[trigger] e[i].0 == k,
        forall|i: int| 0 <= i < e.len() && #[trigger] e[i].0 == k ==> find_key(e, k) == Some(e[i].1),
    decreases e.len(),
{
    if e.len() > 0 {
        let t = e.drop_first();
        assert(keys_sorted(t)) by {
            assert forall|i: int, j: int| 0 <= i < j < t.len() implies lex_lt(
                #[trigger] t[i].0,
                #[trigger] t[j].0,
            ) by {
                assert(t[i] == e[i + 1] && t[j] == e[j + 1]);
            }
        }
        lemma_find_key_sorted(t, k);
        if e[0].0 == k {
            assert forall|i: int| 0 <= i < e.len() && #[trigger] e[i].0 == k implies find_key(e, k)
                == Some(e[i].1) by {
                if i > 0 {
                    lemma_lex_irreflexive(k);
                }
            }
        } else {
            if exists|i: int| 0 <= i < e.len() && #[trigger] e[i].0 == k {
                let i = choose|i: int| 0 <= i < e.len() && #[trigger] e[i].0 == k;
                assert(t[i - 1].0 == k);
            }
            assert forall|i: int| 0 <= i < e.len() && #[trigger] e[i].0 == k implies find_key(e, k)
                == Some(e[i].1) by {
                assert(t[i - 1] == e[i]);
            }
        }
    }
}

proof fn lemma_insert_sorted(e: Entries, k: Seq<char>, v: Seq<char>)
    requires
        keys_sorted(e),
    ensures
        keys_sorted(insert_entry(e, k, v)),
{
    lemma_insert_pos(e, k);
    let p = insert_pos(e, k);
    let r = insert_entry(e, k, v);
    if p < e.len() && e[p].0 == k {
        assert forall|i: int, j: int| 0 <= i < j < r.len() implies lex_lt(
            #[trigger] r[i].0,
            #[trigger] r[j].0,
        ) by {
            assert(r[i].0 == e[i].0 && r[j].0 == e[j].0);
        }
    } else {
        assert forall|i: int, j: int| 0 <= i < j < r.len() implies lex_lt(
            #[trigger] r[i].0,
            #[trigger] r[j].0,
        ) by {
            if j < p {
                assert(r[i] == e[i] && r[j] == e[j]);
            } else if j == p {
                assert(r[i] == e[i]);
            } else if i == p {
                assert(r[j] == e[j - 1]);
                if p < e.len() {
                    lemma_lex_total(e[p].0, k);
                    if j - 1 > p {
                        assert(lex_lt(e[p].0, e[j - 1].0));
                        lemma_lex_transitive(k, e[p].0, e[j - 1].0);
                    }
                }
            } else if i < p {
                assert(r[i] == e[i] && r[j] == e[j - 1]);
            } else {
                assert(r[i] == e[i - 1] && r[j] == e[j - 1]);
            }
        }
    }
}

proof fn lemma_insert_find(e: Entries, k: Seq<char>, v: Seq<char>, k2: Seq<char>)
    requires
        keys_sorted(e),
    ensures
        find_key(insert_entry(e, k, v), k2) == if k2 == k {
            Some(v)
        } else {
            find_key(e, k2)
        },
{
    lemma_insert_pos(e, k);
    lemma_insert_sorted(e, k, v);
    let p = insert_pos(e, k);
    let r = insert_entry(e, k, v);
    lemma_find_key_sorted(e, k2);
    lemma_find_key_sorted(r, k2);
    if k2 == k {
        assert(r[p].0 == k);
    } else {
        if exists|i: int| 0 <= i < e.len() && #[trigger] e[i].0 == k2 {
            let i = choose|i: int| 0 <= i < e.len() && #[trigger] e[i].0 == k2;
            if p < e.len() && e[p].0 == k {
                assert(r[i] == e[i]);
            } else if i < p {
                assert(r[i] == e[i]);
            } else {
                assert(r[i + 1] == e[i]);
            }
        }
        if exists|i: int| 0 <= i < r.len() && #[trigger] r[i].0 == k2 {
            let i = choose|i: int| 0 <= i < r.len() && #[trigger] r[i].0 == k2;
            if p < e.len() && e[p].0 == k {
                assert(r[i] == e[i]);
            } else if i < p {
                assert(r[i] == e[i]);
            } else {
                assert(r[i] == e[i - 1]);
            }
        }
    }
}

/// Storing a value keeps the keys sorted, and a lookup afterwards gives the
/// stored value for that key and the old answer for every other key.
pub proof fn lemma_insert_entry(e: Entries, k: Seq<char>, v: Seq<char>)
    requires
        keys_sorted(e),
    ensures
        keys_sorted(insert_entry(e, k, v)),
        forall|k2: Seq<char>|
            #[trigger] find_key(insert_entry(e, k, v), k2) == if k2 == k {
                Some(v)
            } else {
                find_key(e, k2)
            },
{
    lemma_insert_sorted(e, k, v);
    assert forall|k2: Seq<char>|
        #[trigger] find_key(insert_entry(e, k, v), k2) == if k2 == k {
            Some(v)
        } else {
            find_key(e, k2)
        } by {
        lemma_insert_find(e, k, v, k2);
    }
}

/// A map from strings to strings whose entries stay sorted by key, as in a
/// `BTreeMap<String, String>`.
pub struct StrMap {
    entries: Vec<(String, String)>,
}

impl View for StrMap {
    type V = Entries;

    closed spec fn view(&self) -> Entries {
        self.entries@.map_values(|p: (String, String)| (p.0@, p.1@))
    }
}

impl StrMap {
    #[verifier::type_invariant]
    closed spec fn sorted(self) -> bool {
        keys_sorted(self@)
    }

    pub fn new() -> (m: StrMap)
        ensures
            m@ == Seq::<(Seq<char>, Seq<char>)>::empty(),
    {
        let m = StrMap { entries: Vec::new() };
        assert(m@ =~= Seq::<(Seq<char>, Seq<char>)>::empty());
        m
    }

    pub fn len(&self) -> (n: usize)
        ensures
            n == self@.len(),
    {
        self.entries.len()
    }

    pub fn is_empty(&self) -> (b: bool)
        ensures
            b == (self@.len() == 0),
    {
        self.entries.len() == 0
    }

    pub fn key_at(&self, i: usize) -> (k: &String)
        requires
            i < self@.len(),
        ensures
            k@ == self@[i as int].0,
    {
        &self.entries[i].0
    }

    pub fn value_at(&self, i: usize) -> (v: &String)
        requires
            i < self@.len(),
        ensures
            v@ == self@[i as int].1,
    {
        &self.entries[i].1
    }

    /// The value stored under `k`.
    pub fn get(&self, k: &str) -> (r: Option<&String>)
        ensures
            r matches Some(v) ==> find_key(self@, k@) == Some(v@),
            r is None ==> find_key(self@, k@) is None,
    {
        let key = crate::text::owned(k);
        let mut i: usize = 0;
        assert(self@.skip(0) =~= self@);
        while i < self.entries.len()
            invariant
                i <= self.entries.len(),
                self@.len() == self.entries.len(),
                key@ == k@,
                find_key(self@, k@) == find_key(self@.skip(i as int), k@),
            decreases self.entries.len() - i,
        {
            assert(self@.skip(i as int)[0] == self@[i as int]);
            if self.entries[i].0 == key {
                return Some(&self.entries[i].1);
            }
            assert(self@.skip(i as int).drop_first() =~= self@.skip(i + 1));
            i = i + 1;
        }
        None
    }

    /// Stores `v` under `k`, replacing the value that `k` had.
    pub fn insert(&mut self, k: String, v: String)
        ensures
            final(self)@ == insert_entry(old(self)@, k@, v@),
    {
        proof {
            use_type_invariant(&*self);
            lemma_insert_entry(self@, k@, v@);
        }
        let ghost e = self@;
        let mut p: usize = 0;
        assert(e.skip(0) =~= e);
        while p < self.entries.len() && str_lt(self.entries[p].0.as_str(), k.as_str())
            invariant
                p <= self.entries.len(),
                e == self@,
                e.len() == self.entries.len(),
                insert_pos(e, k@) == p + insert_pos(e.skip(p as int), k@),
            decreases self.entries.len() - p,
        {
            assert(e.skip(p as int)[0] == e[p as int]);
            assert(e.skip(p as int).drop_first() =~= e.skip(p + 1));
            p = p + 1;
        }
        assert(p < e.len() ==> e.skip(p as int)[0] == e[p as int]);
        assert(insert_pos(e, k@) == p);
        if p < self.entries.len() && self.entries[p].0 == k {
            let mut entries = Vec::new();
            std::mem::swap(&mut entries, &mut self.entries);
            entries.set(p, (k, v));
            let ghost r = entries@.map_values(|q: (String, String)| (q.0@, q.1@));
            assert(r =~= insert_entry(e, k@, v@));
            self.entries = entries;
        } else {
            let mut entries = Vec::new();
            std::mem::swap(&mut entries, &mut self.entries);
            entries.insert(p, (k, v));
            let ghost r = entries@.map_values(|q: (String, String)| (q.0@, q.1@));
            assert(r =~= insert_entry(e, k@, v@));
            self.entries = entries;
        }
    }

    pub fn clone_map(&self) -> (r: StrMap)
        ensures
            r@ == self@,
    {
        proof {
            use_type_invariant(self);
        }
        let mut entries: Vec<(String, String)> = Vec::new();
        let mut i: usize = 0;
        while i < self.entries.len()
            invariant
                i <= self.entries.len(),
                self@.len() == self.entries.len(),
                entries@.len() == i,
                forall|j: int|
                    0 <= j < i ==> (#[trigger] entries@[j]).0@ == self@[j].0 && entries@[j].1@
                        == self@[j].1,
            decreases self.entries.len() - i,
        {
            let k = self.entries[i].0.clone();
            let v = self.entries[i].1.clone();
            assert(self@[i as int] == (k@, v@));
            entries.push((k, v));
            i = i + 1;
        }
        let r = StrMap { entries };
        assert(r@ =~= self@);
        r
    }
}

} // verus!
