use vstd::prelude::*;

verus! {

/// The first position of `s` whose element satisfies `p`, or the length of
/// `s` where none does.
pub open spec fn first_index<A>(s: Seq<A>, p: spec_fn(A) -> bool) -> int
    decreases s.len(),
{
    if s.len() == 0 {
        0
    } else if p(s[0]) {
        0
    } else {
        1 + first_index(s.drop_first(), p)
    }
}

pub proof fn lemma_first_index<A>(s: Seq<A>, p: spec_fn(A) -> bool)
    ensures
        0 <= first_index(s, p) <= s.len(),
        first_index(s, p) < s.len() ==> p(s[first_index(s, p)]),
        forall|j: int| 0 <= j < first_index(s, p) ==> !p(#[trigger] s[j]),
    decreases s.len(),
{
    if s.len() > 0 && !p(s[0]) {
        lemma_first_index(s.drop_first(), p);
        assert forall|j: int| 0 <= j < first_index(s, p) implies !p(#[trigger] s[j]) by {
            if j > 0 {
                assert(s[j] == s.drop_first()[j - 1]);
            }
        }
    }
}

/// Stepping over an element that fails `p` moves the first match one place.
pub proof fn lemma_first_index_skip<A>(s: Seq<A>, p: spec_fn(A) -> bool, i: int)
    requires
        0 <= i < s.len(),
        !p(s[i]),
    ensures
        first_index(s.skip(i), p) == 1 + first_index(s.skip(i + 1), p),
{
    assert(s.skip(i)[0] == s[i]);
    assert(s.skip(i).drop_first() =~= s.skip(i + 1));
}

/// The number of leading elements of `s` that satisfy `p`.
pub open spec fn lead_count<A>(s: Seq<A>, p: spec_fn(A) -> bool) -> int
    decreases s.len(),
{
    if s.len() > 0 && p(s[0]) {
        1 + lead_count(s.drop_first(), p)
    } else {
        0
    }
}

pub proof fn lemma_lead_count<A>(s: Seq<A>, p: spec_fn(A) -> bool)
    ensures
        0 <= lead_count(s, p) <= s.len(),
        forall|j: int| 0 <= j < lead_count(s, p) ==> p(#[trigger] s[j]),
        lead_count(s, p) < s.len() ==> !p(s[lead_count(s, p)]),
    decreases s.len(),
{
    if s.len() > 0 && p(s[0]) {
        lemma_lead_count(s.drop_first(), p);
        assert forall|j: int| 0 <= j < lead_count(s, p) implies p(#[trigger] s[j]) by {
            if j > 0 {
                assert(s[j] == s.drop_first()[j - 1]);
            }
        }
    }
}

/// Whether the elements of `s` are distinct under `id`.
pub open spec fn distinct_by<A, K>(s: Seq<A>, id: spec_fn(A) -> K) -> bool {
    forall|i: int, j: int|
        0 <= i < s.len() && 0 <= j < s.len() && i != j ==> id(#[trigger] s[i]) != id(
            #[trigger] s[j],
        )
}

pub proof fn lemma_distinct_update<A, K>(s: Seq<A>, id: spec_fn(A) -> K, i: int, a: A)
    requires
        distinct_by(s, id),
        0 <= i < s.len(),
        id(a) == id(s[i]),
    ensures
        distinct_by(s.update(i, a), id),
{
    let r = s.update(i, a);
    assert forall|x: int, y: int|
        0 <= x < r.len() && 0 <= y < r.len() && x != y implies id(#[trigger] r[x]) != id(
        #[trigger] r[y],
    ) by {
        assert(id(r[x]) == id(s[x]));
        assert(id(r[y]) == id(s[y]));
    }
}

pub proof fn lemma_distinct_push<A, K>(s: Seq<A>, id: spec_fn(A) -> K, a: A)
    requires
        distinct_by(s, id),
        forall|j: int| 0 <= j < s.len() ==> id(#[trigger] s[j]) != id(a),
    ensures
        distinct_by(s.push(a), id),
{
    let r = s.push(a);
    assert forall|x: int, y: int|
        0 <= x < r.len() && 0 <= y < r.len() && x != y implies id(#[trigger] r[x]) != id(
        #[trigger] r[y],
    ) by {
        if x < s.len() && y < s.len() {
            assert(r[x] == s[x] && r[y] == s[y]);
        } else if x < s.len() {
            assert(r[x] == s[x]);
        } else {
            assert(r[y] == s[y]);
        }
    }
}

pub proof fn lemma_distinct_filter<A, K>(s: Seq<A>, id: spec_fn(A) -> K, p: spec_fn(A) -> bool)
    requires
        distinct_by(s, id),
    ensures
        distinct_by(s.filter(p), id),
        forall|i: int| 0 <= i < s.filter(p).len() ==> s.contains(#[trigger] s.filter(p)[i]),
    decreases s.len(),
{
    reveal_with_fuel(Seq::<_>::filter, 1);
    if s.len() > 0 {
        let d = s.drop_last();
        assert(distinct_by(d, id)) by {
            assert forall|x: int, y: int|
                0 <= x < d.len() && 0 <= y < d.len() && x != y implies id(#[trigger] d[x]) != id(
                #[trigger] d[y],
            ) by {
                assert(d[x] == s[x] && d[y] == s[y]);
            }
        }
        lemma_distinct_filter(d, id, p);
        let f = d.filter(p);
        assert forall|i: int| 0 <= i < f.len() implies id(#[trigger] f[i]) != id(s.last()) by {
            assert(d.contains(f[i]));
            let j = choose|j: int| 0 <= j < d.len() && d[j] == f[i];
            assert(s[j] == d[j]);
            assert(s.last() == s[s.len() - 1]);
        }
        assert forall|i: int| 0 <= i < s.filter(p).len() implies s.contains(
            #[trigger] s.filter(p)[i],
        ) by {
            if i < f.len() {
                assert(d.contains(f[i]));
                let j = choose|j: int| 0 <= j < d.len() && d[j] == f[i];
                assert(s[j] == d[j]);
            } else {
                assert(s[s.len() - 1] == s.last());
            }
        }
        if p(s.last()) {
            lemma_distinct_push(f, id, s.last());
        }
    }
}

} // verus!
