use vstd::prelude::*;

use crate::parser::{PixelEvent, PixelEventView};
use crate::strmap::{Entries, StrMap, insert_entry, insert_pos};
use crate::text::{
    after_char,
    before_char,
    join_strings,
    join_with,
    lemma_sorted_strs,
    owned,
    push_char,
    push_str,
    scan_to,
    sort_strings,
    sorted_strs,
    split_from,
    split_on,
    str_chars,
    strs_view,
    sub_vec,
    substring,
};

verus! {

// =====================================================================
// Tag sets and their keys
// =====================================================================

/// `key=value` for one tag.
pub open spec fn tag_part(p: (Seq<char>, Seq<char>)) -> Seq<char> {
    p.0.push('=') + p.1
}

pub open spec fn tag_parts(e: Entries) -> Seq<Seq<char>> {
    e.map_values(|p: (Seq<char>, Seq<char>)| tag_part(p))
}

/// The key of a tag set: its `key=value` parts in ascending order, joined
/// with `&`.
pub open spec fn tags_key(e: Entries) -> Seq<char> {
    join_with(sorted_strs(tag_parts(e)), '&')
}

pub fn tags_to_key(tags: &StrMap) -> (r: String)
    ensures
        r@ == tags_key(tags@),
{
    let mut parts: Vec<String> = Vec::new();
    let mut i: usize = 0;
    while i < tags.len()
        invariant
            i <= tags@.len(),
            strs_view(parts@) == tag_parts(tags@).take(i as int),
        decreases tags@.len() - i,
    {
        let mut part = tags.key_at(i).clone();
        push_char(&mut part, '=');
        push_str(&mut part, tags.value_at(i).as_str());
        let ghost before = parts@;
        assert(part@ == tag_part(tags@[i as int]));
        parts.push(part);
        assert(parts@ == before.push(part));
        assert(strs_view(parts@) =~= strs_view(before).push(part@));
        assert(tag_parts(tags@).take(i + 1) =~= tag_parts(tags@).take(i as int).push(
            tag_part(tags@[i as int]),
        ));
        i = i + 1;
    }
    assert(tag_parts(tags@).take(i as int) =~= tag_parts(tags@));
    let sorted = sort_strings(&parts);
    join_strings(&sorted, '&')
}

/// The key of a set of one tag is `key=value`.
pub proof fn lemma_single_tag_key(k: Seq<char>, v: Seq<char>)
    ensures
        tags_key(seq![(k, v)]) == k.push('=') + v,
{
    let p = tag_parts(seq![(k, v)]);
    assert(p =~= seq![k.push('=') + v]);
    lemma_sorted_strs(p, p);
}

/// The key of the empty tag set is empty.
pub proof fn lemma_empty_tags_key()
    ensures
        tags_key(Seq::empty()) == Seq::<char>::empty(),
{
    let p = tag_parts(Seq::empty());
    assert(p =~= Seq::<Seq<char>>::empty());
    lemma_sorted_strs(p, p);
}

/// The tags after reading the `key=value` pieces in turn; a piece without
/// `=` is skipped, and a later key replaces an earlier one.
pub open spec fn fold_tag_pieces(e: Entries, ps: Seq<Seq<char>>) -> Entries
    decreases ps.len(),
{
    if ps.len() == 0 {
        e
    } else {
        let p = ps[0];
        let e2 = match after_char(p, '=') {
            Some(v) => insert_entry(e, before_char(p, '='), v),
            None => e,
        };
        fold_tag_pieces(e2, ps.drop_first())
    }
}

/// The tags that a tag key stands for.
pub open spec fn spec_tags_from_key(k: Seq<char>) -> Entries {
    fold_tag_pieces(Seq::empty(), split_on(k, '&'))
}

pub fn tags_from_key(key: &str) -> (r: StrMap)
    ensures
        r@ == spec_tags_from_key(key@),
{
    let q = str_chars(key);
    let mut m = StrMap::new();
    let mut pos: usize = 0;
    loop
        invariant
            pos <= q.len(),
            q@ == key@,
            spec_tags_from_key(key@) == fold_tag_pieces(m@, split_from(q@, pos as int, '&')),
        decreases q.len() - pos,
    {
        let j = scan_to(&q, pos, '&');
        let piece = sub_vec(&q, pos, j);
        let ghost ps = split_from(q@, pos as int, '&');
        let ghost rest = if j < q.len() {
            split_from(q@, j + 1, '&')
        } else {
            Seq::<Seq<char>>::empty()
        };
        assert(ps =~= seq![piece@] + rest);
        assert(ps[0] == piece@);
        assert(ps.drop_first() =~= rest);
        let e = scan_to(&piece, 0, '=');
        if e < piece.len() {
            let k = substring(&piece, 0, e);
            let v = substring(&piece, e + 1, piece.len());
            assert(before_char(piece@, '=') == k@);
            assert(after_char(piece@, '=') == Some(v@));
            m.insert(k, v);
        }
        if j == q.len() {
            assert(fold_tag_pieces(m@, Seq::<Seq<char>>::empty()) == m@);
            return m;
        }
        pos = j + 1;
    }
}

// =====================================================================
// Pages and buckets
// =====================================================================

pub open spec fn slash() -> Seq<char> {
    seq!['/']
}

/// A page without its `#fragment`; `/` for an empty one.
pub open spec fn spec_normalize_page(page: Seq<char>) -> Seq<char> {
    let w = before_char(page, '#');
    if page.len() == 0 || w.len() == 0 {
        slash()
    } else {
        w
    }
}

pub fn normalize_page(page: &str) -> (r: String)
    ensures
        r@ == spec_normalize_page(page@),
{
    let cs = str_chars(page);
    let h = scan_to(&cs, 0, '#');
    if cs.len() == 0 || h == 0 {
        let mut r = String::new();
        push_char(&mut r, '/');
        assert(r@ =~= slash());
        return r;
    }
    substring(&cs, 0, h)
}

/// Integer division rounding toward zero, as `/` on `i64` does.
pub open spec fn trunc_div(a: int, b: int) -> int {
    if a >= 0 {
        a / b
    } else {
        -((-a) / b)
    }
}

/// The largest bucket length (in minutes) whose length in milliseconds fits
/// in an `i64`.
pub open spec fn max_bucket_minutes() -> u64 {
    153722867280912
}

/// The start of the bucket of `minutes` minutes that holds `ts`, with
/// division rounding toward zero (so `(-1, 5)` gives 0).
pub open spec fn spec_bucket_time(ts: i64, minutes: u64) -> i64 {
    let iv = minutes * 60000;
    (trunc_div(ts as int, iv) * iv) as i64
}

pub fn bucket_time_of(timestamp_ms: i64, bucket_minutes: u64) -> (r: i64)
    requires
        1 <= bucket_minutes <= max_bucket_minutes(),
    ensures
        r == spec_bucket_time(timestamp_ms, bucket_minutes),
{
    let interval_ms: i64 = (bucket_minutes * 60000) as i64;
    let q: i64 = timestamp_ms / interval_ms;
    proof {
        let iv = interval_ms as int;
        let t = timestamp_ms as int;
        assert(q as int == trunc_div(t, iv));
        if t >= 0 {
            let d = t / iv;
            assert(0 <= d * iv <= t) by (nonlinear_arith)
                requires
                    t >= 0,
                    iv > 0,
                    d == t / iv,
            ;
            assert(q as int * iv == d * iv);
        } else {
            let d = (-t) / iv;
            assert(0 <= d * iv <= -t) by (nonlinear_arith)
                requires
                    -t > 0,
                    iv > 0,
                    d == (-t) / iv,
            ;
            assert(q as int * iv == -(d * iv)) by (nonlinear_arith)
                requires
                    q as int == -d,
            ;
        }
    }
    q * interval_ms
}

// =====================================================================
// The aggregator
// =====================================================================

/// One counter: bucket start, metric name, tag key and count.
pub type CellView = (i64, Seq<char>, Seq<char>, u64);

struct Cell {
    bucket_ms: i64,
    name: String,
    tags_key: String,
    count: u64,
}

spec fn cell_view(c: Cell) -> CellView {
    (c.bucket_ms, c.name@, c.tags_key@, c.count)
}

pub open spec fn cell_id(c: CellView) -> (i64, Seq<char>, Seq<char>) {
    (c.0, c.1, c.2)
}

/// No two counters share bucket, name and tag key.
pub open spec fn cells_distinct(s: Seq<CellView>) -> bool {
    forall|i: int, j: int|
        0 <= i < s.len() && 0 <= j < s.len() && i != j ==> cell_id(#[trigger] s[i]) != cell_id(
            #[trigger] s[j],
        )
}

/// The position of the counter for `(b, n, k)`, or the length where there is
/// none.
pub open spec fn cell_index(s: Seq<CellView>, b: i64, n: Seq<char>, k: Seq<char>) -> int
    decreases s.len(),
{
    if s.len() == 0 {
        0
    } else if cell_id(s[0]) == (b, n, k) {
        0
    } else {
        1 + cell_index(s.drop_first(), b, n, k)
    }
}

/// The count for `(b, n, k)`: 0 where there is no counter.
pub open spec fn count_of(s: Seq<CellView>, b: i64, n: Seq<char>, k: Seq<char>) -> nat {
    let i = cell_index(s, b, n, k);
    if 0 <= i < s.len() {
        s[i].3 as nat
    } else {
        0
    }
}

/// Adding one to a count (a count at `u64::MAX` stays there).
pub open spec fn sat_inc(c: u64) -> u64 {
    if c < u64::MAX {
        (c + 1) as u64
    } else {
        c
    }
}

/// The counters after one more visit for `(b, n, k)`.
pub open spec fn bump(s: Seq<CellView>, b: i64, n: Seq<char>, k: Seq<char>) -> Seq<CellView> {
    let i = cell_index(s, b, n, k);
    if 0 <= i < s.len() {
        s.update(i, (b, n, k, sat_inc(s[i].3)))
    } else {
        s.push((b, n, k, 1))
    }
}

/// The counters after a visit for each `(name, tag key)` of `incs`, in turn.
pub open spec fn bump_all(s: Seq<CellView>, b: i64, incs: Seq<(Seq<char>, Seq<char>)>) -> Seq<
    CellView,
>
    decreases incs.len(),
{
    if incs.len() == 0 {
        s
    } else {
        bump(bump_all(s, b, incs.drop_last()), b, incs.last().0, incs.last().1)
    }
}

pub proof fn lemma_bump_all_push(
    s: Seq<CellView>,
    b: i64,
    incs: Seq<(Seq<char>, Seq<char>)>,
    x: (Seq<char>, Seq<char>),
)
    ensures
        bump_all(s, b, incs.push(x)) == bump(bump_all(s, b, incs), b, x.0, x.1),
{
    assert(incs.push(x).drop_last() =~= incs);
}

pub proof fn lemma_bump_all_append(
    s: Seq<CellView>,
    b: i64,
    x: Seq<(Seq<char>, Seq<char>)>,
    y: Seq<(Seq<char>, Seq<char>)>,
)
    ensures
        bump_all(s, b, x + y) == bump_all(bump_all(s, b, x), b, y),
    decreases y.len(),
{
    if y.len() == 0 {
        assert(x + y =~= x);
    } else {
        assert((x + y).drop_last() =~= x + y.drop_last());
        assert((x + y).last() == y.last());
        lemma_bump_all_append(s, b, x, y.drop_last());
    }
}

pub proof fn lemma_cell_index(s: Seq<CellView>, b: i64, n: Seq<char>, k: Seq<char>)
    ensures
        0 <= cell_index(s, b, n, k) <= s.len(),
        cell_index(s, b, n, k) < s.len() ==> cell_id(s[cell_index(s, b, n, k)]) == (b, n, k),
        forall|j: int| 0 <= j < cell_index(s, b, n, k) ==> cell_id(#[trigger] s[j]) != (b, n, k),
    decreases s.len(),
{
    if s.len() > 0 && cell_id(s[0]) != (b, n, k) {
        lemma_cell_index(s.drop_first(), b, n, k);
        assert forall|j: int| 0 <= j < cell_index(s, b, n, k) implies cell_id(#[trigger] s[j]) != (
            b,
            n,
            k,
        ) by {
            if j > 0 {
                assert(s[j] == s.drop_first()[j - 1]);
            }
        }
    }
}

pub proof fn lemma_bump_distinct(s: Seq<CellView>, b: i64, n: Seq<char>, k: Seq<char>)
    requires
        cells_distinct(s),
    ensures
        cells_distinct(bump(s, b, n, k)),
{
    lemma_cell_index(s, b, n, k);
    let r = bump(s, b, n, k);
    let i = cell_index(s, b, n, k);
    assert forall|x: int, y: int|
        0 <= x < r.len() && 0 <= y < r.len() && x != y implies cell_id(#[trigger] r[x]) != cell_id(
        #[trigger] r[y],
    ) by {
        if i < s.len() {
            assert(cell_id(r[x]) == cell_id(s[x]));
            assert(cell_id(r[y]) == cell_id(s[y]));
        } else {
            if x < s.len() && y < s.len() {
                assert(r[x] == s[x] && r[y] == s[y]);
            } else if x < s.len() {
                assert(r[x] == s[x]);
            } else {
                assert(r[y] == s[y]);
            }
        }
    }
}

pub proof fn lemma_filter_distinct(s: Seq<CellView>, p: spec_fn(CellView) -> bool)
    requires
        cells_distinct(s),
    ensures
        cells_distinct(s.filter(p)),
        forall|i: int| 0 <= i < s.filter(p).len() ==> s.contains(#[trigger] s.filter(p)[i]),
        forall|i: int| 0 <= i < s.filter(p).len() ==> p(#[trigger] s.filter(p)[i]),
    decreases s.len(),
{
    reveal_with_fuel(Seq::<_>::filter, 1);
    if s.len() > 0 {
        let d = s.drop_last();
        assert(cells_distinct(d)) by {
            assert forall|x: int, y: int|
                0 <= x < d.len() && 0 <= y < d.len() && x != y implies cell_id(#[trigger] d[x])
                != cell_id(#[trigger] d[y]) by {
                assert(d[x] == s[x] && d[y] == s[y]);
            }
        }
        lemma_filter_distinct(d, p);
        let f = d.filter(p);
        assert forall|i: int| 0 <= i < f.len() implies cell_id(#[trigger] f[i]) != cell_id(s.last()) by {
            assert(d.contains(f[i]));
            let j = choose|j: int| 0 <= j < d.len() && d[j] == f[i];
            assert(s[j] == d[j]);
            assert(s.last() == s[s.len() - 1]);
        }
        assert forall|i: int| 0 <= i < s.filter(p).len() implies s.contains(#[trigger] s.filter(p)[i]) by {
            if i < f.len() {
                assert(d.contains(f[i]));
                let j = choose|j: int| 0 <= j < d.len() && d[j] == f[i];
                assert(s[j] == d[j]);
            } else {
                assert(s[s.len() - 1] == s.last());
            }
        }
        if p(s.last()) {
            let r = s.filter(p);
            assert(r == f.push(s.last()));
            assert forall|x: int, y: int|
                0 <= x < r.len() && 0 <= y < r.len() && x != y implies cell_id(#[trigger] r[x])
                != cell_id(#[trigger] r[y]) by {
                if x < f.len() && y < f.len() {
                    assert(r[x] == f[x] && r[y] == f[y]);
                } else if x < f.len() {
                    assert(r[x] == f[x]);
                } else {
                    assert(r[y] == f[y]);
                }
            }
        }
    }
}

/// A sample of a counter: metric name, tags, count and bucket start.
pub struct MetricSample {
    pub name: String,
    pub tags: StrMap,
    pub value: u64,
    pub timestamp_ms: i64,
}

pub struct MetricSampleView {
    pub name: Seq<char>,
    pub tags: Entries,
    pub value: u64,
    pub timestamp_ms: i64,
}

impl View for MetricSample {
    type V = MetricSampleView;

    open spec fn view(&self) -> MetricSampleView {
        MetricSampleView {
            name: self.name@,
            tags: self.tags@,
            value: self.value,
            timestamp_ms: self.timestamp_ms,
        }
    }
}

pub open spec fn samples_view(s: Seq<MetricSample>) -> Seq<MetricSampleView> {
    s.map_values(|m: MetricSample| m@)
}

/// The sample that a counter gives.
pub open spec fn sample_of(c: CellView) -> MetricSampleView {
    MetricSampleView { name: c.1, tags: spec_tags_from_key(c.2), value: c.3, timestamp_ms: c.0 }
}

/// The retention in milliseconds, as `(hours * 3600000) as i64` gives it.
pub open spec fn retention_ms(hours: u64) -> i64 {
    (hours * 3600000) as i64
}

/// Counters whose bucket is no older than the retention are kept.
pub open spec fn within_retention(now: i64, ms: i64) -> spec_fn(CellView) -> bool {
    |c: CellView| now - c.0 <= ms
}

/// Counters whose bucket starts after `t` are kept.
pub open spec fn after_time(t: i64) -> spec_fn(CellView) -> bool {
    |c: CellView| c.0 > t
}

/// The counter for `name` with the one tag `key=value`, where `value` is
/// not empty.
pub open spec fn opt_increment(name: Seq<char>, key: Seq<char>, value: Seq<char>) -> Seq<
    (Seq<char>, Seq<char>),
> {
    if value.len() > 0 {
        seq![(name, key.push('=') + value)]
    } else {
        Seq::empty()
    }
}

/// The counters that every visit adds to: total, page, host and country.
pub open spec fn base_increments(e: PixelEventView, country: Seq<char>) -> Seq<
    (Seq<char>, Seq<char>),
> {
    seq![
        ("web.visits.total"@, Seq::<char>::empty()),
        ("web.visits.page"@, "page"@.push('=') + spec_normalize_page(e.page)),
        ("web.visits.host"@, "host"@.push('=') + e.host),
        ("web.visits.country"@, "country"@.push('=') + country),
    ]
}

/// The referer-domain counter, unless the domain is empty or `direct`.
pub open spec fn referer_increments(e: PixelEventView) -> Seq<(Seq<char>, Seq<char>)> {
    if e.referer_domain.len() > 0 && e.referer_domain != seq!['d', 'i', 'r', 'e', 'c', 't'] {
        seq![("web.visits.referer_domain"@, "referer_domain"@.push('=') + e.referer_domain)]
    } else {
        Seq::empty()
    }
}

/// The counters of the language and UTM parameters that are set.
pub open spec fn extra_increments(e: PixelEventView) -> Seq<(Seq<char>, Seq<char>)> {
    opt_increment("web.visits.lang"@, "lang"@, e.lang) + opt_increment(
        "web.visits.utm_source"@,
        "utm_source"@,
        e.utm_source,
    ) + opt_increment("web.visits.utm_medium"@, "utm_medium"@, e.utm_medium) + opt_increment(
        "web.visits.utm_campaign"@,
        "utm_campaign"@,
        e.utm_campaign,
    ) + opt_increment("web.visits.utm_content"@, "utm_content"@, e.utm_content) + opt_increment(
        "web.visits.utm_term"@,
        "utm_term"@,
        e.utm_term,
    )
}

/// The `(metric name, tag key)` counters that one pixel event adds to, in
/// order.
pub open spec fn visit_increments(e: PixelEventView, country: Seq<char>) -> Seq<
    (Seq<char>, Seq<char>),
> {
    base_increments(e, country) + referer_increments(e) + extra_increments(e)
}

pub open spec fn opt_view(o: Option<String>) -> Option<Seq<char>> {
    match o {
        Some(v) => Some(v@),
        None => None,
    }
}

/// The country of a visit: the resolved one, `ZZ` where none was resolved.
pub open spec fn country_or_zz(c: Option<Seq<char>>) -> Seq<char> {
    match c {
        Some(v) => v,
        None => seq!['Z', 'Z'],
    }
}

/// Counts page views into time buckets.
pub struct Aggregator {
    bucket_minutes: u64,
    cells: Vec<Cell>,
}

impl View for Aggregator {
    type V = Seq<CellView>;

    closed spec fn view(&self) -> Seq<CellView> {
        self.cells@.map_values(|c: Cell| cell_view(c))
    }
}

impl Aggregator {
    #[verifier::type_invariant]
    closed spec fn inv(self) -> bool {
        &&& cells_distinct(self@)
        &&& 1 <= self.bucket_minutes <= max_bucket_minutes()
    }

    /// The length of a bucket in minutes.
    pub closed spec fn minutes(&self) -> u64 {
        self.bucket_minutes
    }

    pub fn new(bucket_minutes: u64) -> (r: Self)
        requires
            1 <= bucket_minutes <= max_bucket_minutes(),
        ensures
            r@ == Seq::<CellView>::empty(),
            r.minutes() == bucket_minutes,
    {
        let r = Aggregator { bucket_minutes, cells: Vec::new() };
        assert(r@ =~= Seq::<CellView>::empty());
        r
    }

    /// The start of the bucket that holds `timestamp_ms`.
    pub fn bucket_time(&self, timestamp_ms: i64) -> (r: i64)
        ensures
            r == spec_bucket_time(timestamp_ms, self.minutes()),
    {
        proof {
            use_type_invariant(self);
        }
        bucket_time_of(timestamp_ms, self.bucket_minutes)
    }

    fn find_cell(&self, bucket_ms: i64, name: &String, key: &String) -> (i: usize)
        ensures
            i == cell_index(self@, bucket_ms, name@, key@),
    {
        proof {
            lemma_cell_index(self@, bucket_ms, name@, key@);
        }
        let ghost s = self@;
        let mut i: usize = 0;
        assert(s.skip(0) =~= s);
        while i < self.cells.len()
            invariant
                i <= self.cells.len(),
                s == self@,
                s.len() == self.cells.len(),
                cell_index(s, bucket_ms, name@, key@) == i + cell_index(
                    s.skip(i as int),
                    bucket_ms,
                    name@,
                    key@,
                ),
            decreases self.cells.len() - i,
        {
            assert(s.skip(i as int)[0] == s[i as int]);
            if self.cells[i].bucket_ms == bucket_ms && self.cells[i].name == *name
                && self.cells[i].tags_key == *key {
                return i;
            }
            assert(s.skip(i as int).drop_first() =~= s.skip(i + 1));
            i = i + 1;
        }
        i
    }

    fn increment_key(&mut self, bucket_ms: i64, name: String, key: String)
        ensures
            final(self)@ == bump(old(self)@, bucket_ms, name@, key@),
            final(self).minutes() == old(self).minutes(),
    {
        proof {
            use_type_invariant(&*self);
            lemma_cell_index(self@, bucket_ms, name@, key@);
            lemma_bump_distinct(self@, bucket_ms, name@, key@);
        }
        let ghost s = self@;
        let i = self.find_cell(bucket_ms, &name, &key);
        let ghost nm = name@;
        let ghost ky = key@;
        let mut cells: Vec<Cell> = Vec::new();
        let mut j: usize = 0;
        while j < self.cells.len()
            invariant
                j <= self.cells.len(),
                s == self@,
                s.len() == self.cells.len(),
                i == cell_index(s, bucket_ms, nm, ky),
                i <= s.len(),
                i < s.len() ==> cell_id(s[i as int]) == (bucket_ms, nm, ky),
                cells.len() == j,
                forall|k: int| 0 <= k < j ==> cell_view(#[trigger] cells@[k]) == bump(s, bucket_ms, nm, ky)[k],
            decreases self.cells.len() - j,
        {
            let c = &self.cells[j];
            let count = if j == i {
                if c.count < u64::MAX {
                    c.count + 1
                } else {
                    c.count
                }
            } else {
                c.count
            };
            assert(s[j as int] == cell_view(self.cells@[j as int]));
            cells.push(Cell { bucket_ms: c.bucket_ms, name: c.name.clone(), tags_key: c.tags_key.clone(), count });
            j = j + 1;
        }
        if i == self.cells.len() {
            cells.push(Cell { bucket_ms, name, tags_key: key, count: 1 });
        }
        assert(cells@.map_values(|c: Cell| cell_view(c)) =~= bump(s, bucket_ms, nm, ky));
        self.cells = cells;
    }

    /// Counts one more visit of the series `name` with `tags` in the bucket.
    pub fn increment(&mut self, bucket_ms: i64, name: String, tags: &StrMap)
        ensures
            final(self)@ == bump(old(self)@, bucket_ms, name@, tags_key(tags@)),
            final(self).minutes() == old(self).minutes(),
    {
        let key = tags_to_key(tags);
        self.increment_key(bucket_ms, name, key);
    }

    fn increment_tag(&mut self, bucket_ms: i64, name: &str, tag: &str, value: &String)
        ensures
            final(self)@ == bump(old(self)@, bucket_ms, name@, tag@.push('=') + value@),
            final(self).minutes() == old(self).minutes(),
    {
        let mut tags = StrMap::new();
        tags.insert(owned(tag), value.clone());
        proof {
            assert(insert_pos(Seq::empty(), tag@) == 0);
            assert(insert_entry(Seq::empty(), tag@, value@) =~= seq![(tag@, value@)]);
            lemma_single_tag_key(tag@, value@);
        }
        self.increment(bucket_ms, owned(name), &tags);
    }

    fn increment_tag_if_set(&mut self, bucket_ms: i64, name: &str, tag: &str, value: &String)
        ensures
            final(self)@ == bump_all(old(self)@, bucket_ms, opt_increment(name@, tag@, value@)),
            final(self).minutes() == old(self).minutes(),
    {
        if value.as_str().is_empty() {
            assert(bump_all(self@, bucket_ms, Seq::<(Seq<char>, Seq<char>)>::empty()) == self@);
            return ;
        }
        let ghost s0 = self@;
        self.increment_tag(bucket_ms, name, tag, value);
        proof {
            let x = (name@, tag@.push('=') + value@);
            lemma_bump_all_push(s0, bucket_ms, Seq::empty(), x);
            assert(Seq::<(Seq<char>, Seq<char>)>::empty().push(x) =~= opt_increment(name@, tag@, value@));
        }
    }

    fn record_extra(&mut self, b: i64, event: &PixelEvent)
        ensures
            final(self)@ == bump_all(old(self)@, b, extra_increments(event@)),
            final(self).minutes() == old(self).minutes(),
    {
        let ghost s0 = self@;
        let ghost e = event@;
        self.increment_tag_if_set(b, "web.visits.lang", "lang", &event.lang);
        let ghost x1 = opt_increment("web.visits.lang"@, "lang"@, e.lang);
        let ghost s1 = self@;
        self.increment_tag_if_set(b, "web.visits.utm_source", "utm_source", &event.utm_source);
        let ghost x2 = opt_increment("web.visits.utm_source"@, "utm_source"@, e.utm_source);
        proof { lemma_bump_all_append(s0, b, x1, x2); }
        self.increment_tag_if_set(b, "web.visits.utm_medium", "utm_medium", &event.utm_medium);
        let ghost x3 = opt_increment("web.visits.utm_medium"@, "utm_medium"@, e.utm_medium);
        proof { lemma_bump_all_append(s0, b, x1 + x2, x3); }
        self.increment_tag_if_set(b, "web.visits.utm_campaign", "utm_campaign", &event.utm_campaign);
        let ghost x4 = opt_increment("web.visits.utm_campaign"@, "utm_campaign"@, e.utm_campaign);
        proof { lemma_bump_all_append(s0, b, x1 + x2 + x3, x4); }
        self.increment_tag_if_set(b, "web.visits.utm_content", "utm_content", &event.utm_content);
        let ghost x5 = opt_increment("web.visits.utm_content"@, "utm_content"@, e.utm_content);
        proof { lemma_bump_all_append(s0, b, x1 + x2 + x3 + x4, x5); }
        self.increment_tag_if_set(b, "web.visits.utm_term", "utm_term", &event.utm_term);
        let ghost x6 = opt_increment("web.visits.utm_term"@, "utm_term"@, e.utm_term);
        proof { lemma_bump_all_append(s0, b, x1 + x2 + x3 + x4 + x5, x6); }
    }

    /// Counts a pixel event: the total, the page, the host and the country
    /// always; the referer domain (unless empty or `direct`), the language
    /// and each UTM parameter where they are set. `country` is what the
    /// GeoIP lookup gave for the visitor (`ZZ` is counted where it gave
    /// nothing).
    pub fn record(&mut self, event: PixelEvent, country: Option<String>)
        ensures
            final(self)@ == bump_all(
                old(self)@,
                spec_bucket_time(event@.timestamp, old(self).minutes()),
                visit_increments(event@, country_or_zz(opt_view(country))),
            ),
            final(self).minutes() == old(self).minutes(),
            cells_distinct(final(self)@),
    {
        let b = self.bucket_time(event.timestamp);
        let ghost cz = country_or_zz(opt_view(country));
        let country = match country {
            Some(c) => c,
            None => owned("ZZ"),
        };
        proof {
            reveal_strlit("ZZ");
        }
        assert(country@ =~= cz);
        let ghost s0 = self@;
        let ghost e = event@;
        proof {
            lemma_empty_tags_key();
        }
        let empty_tags = StrMap::new();
        self.increment(b, owned("web.visits.total"), &empty_tags);
        let ghost i1 = ("web.visits.total"@, Seq::<char>::empty());
        proof { lemma_bump_all_push(s0, b, Seq::empty(), i1); }
        let page = normalize_page(event.page.as_str());
        self.increment_tag(b, "web.visits.page", "page", &page);
        let ghost i2 = ("web.visits.page"@, "page"@.push('=') + page@);
        proof { lemma_bump_all_push(s0, b, seq![i1], i2); }
        self.increment_tag(b, "web.visits.host", "host", &event.host);
        let ghost i3 = ("web.visits.host"@, "host"@.push('=') + e.host);
        proof { lemma_bump_all_push(s0, b, seq![i1, i2], i3); }
        self.increment_tag(b, "web.visits.country", "country", &country);
        let ghost i4 = ("web.visits.country"@, "country"@.push('=') + cz);
        proof {
            lemma_bump_all_push(s0, b, seq![i1, i2, i3], i4);
            assert(seq![i1, i2, i3].push(i4) =~= base_increments(e, cz));
            assert(seq![i1, i2].push(i3) =~= seq![i1, i2, i3]);
            assert(seq![i1].push(i2) =~= seq![i1, i2]);
            assert(Seq::<(Seq<char>, Seq<char>)>::empty().push(i1) =~= seq![i1]);
        }
        let ghost s4 = self@;
        assert(s4 == bump_all(s0, b, base_increments(e, cz)));
        let direct = owned("direct");
        proof {
            reveal_strlit("direct");
        }
        assert(direct@ =~= seq!['d', 'i', 'r', 'e', 'c', 't']);
        if !event.referer_domain.as_str().is_empty() && event.referer_domain != direct {
            self.increment_tag(
                b,
                "web.visits.referer_domain",
                "referer_domain",
                &event.referer_domain,
            );
            proof {
                let x = ("web.visits.referer_domain"@, "referer_domain"@.push('=') + e.referer_domain);
                lemma_bump_all_push(s4, b, Seq::empty(), x);
                assert(Seq::<(Seq<char>, Seq<char>)>::empty().push(x) =~= referer_increments(e));
            }
        } else {
            assert(referer_increments(e) =~= Seq::<(Seq<char>, Seq<char>)>::empty());
        }
        proof {
            lemma_bump_all_append(s0, b, base_increments(e, cz), referer_increments(e));
        }
        let ghost s5 = self@;
        self.record_extra(b, &event);
        proof {
            lemma_bump_all_append(s0, b, base_increments(e, cz) + referer_increments(e), extra_increments(e));
            use_type_invariant(&*self);
        }
    }

    /// Drops the counters older than the retention (measured back from
    /// `now`) and gives a sample for each counter left.
    pub fn flush(&mut self, now: i64, retention_hours: u64) -> (r: Vec<MetricSample>)
        requires
            retention_hours * 3600000 <= u64::MAX,
        ensures
            final(self)@ == old(self)@.filter(within_retention(now, retention_ms(retention_hours))),
            samples_view(r@) == final(self)@.map_values(|c: CellView| sample_of(c)),
            final(self).minutes() == old(self).minutes(),
            cells_distinct(final(self)@),
    {
        proof {
            use_type_invariant(&*self);
        }
        let ms: i64 = #[verifier::truncate] ((retention_hours * 3600000) as i64);
        let p = Ghost(within_retention(now, ms));
        self.retain_cells(p, |c: &Cell| -> (b: bool)
            ensures b == within_retention(now, ms)(cell_view(*c))
            {
                (now as i128) - (c.bucket_ms as i128) <= ms as i128
            });
        let mut out: Vec<MetricSample> = Vec::new();
        let mut i: usize = 0;
        while i < self.cells.len()
            invariant
                i <= self.cells.len(),
                samples_view(out@) == self@.take(i as int).map_values(|c: CellView| sample_of(c)),
            decreases self.cells.len() - i,
        {
            let c = &self.cells[i];
            let s = MetricSample {
                name: c.name.clone(),
                tags: tags_from_key(c.tags_key.as_str()),
                value: c.count,
                timestamp_ms: c.bucket_ms,
            };
            let ghost before = out@;
            assert(self@[i as int] == cell_view(self.cells@[i as int]));
            assert(s@ == sample_of(self@[i as int]));
            out.push(s);
            assert(out@ == before.push(s));
            assert(samples_view(out@) =~= samples_view(before).push(s@));
            assert(self@.take(i + 1) =~= self@.take(i as int).push(self@[i as int]));
            assert(samples_view(out@) =~= self@.take(i + 1).map_values(|c: CellView| sample_of(c)));
            i = i + 1;
        }
        assert(self@.take(i as int) =~= self@);
        proof {
            use_type_invariant(&*self);
        }
        out
    }

    fn retain_cells(&mut self, p: Ghost<spec_fn(CellView) -> bool>, keep: impl Fn(&Cell) -> bool)
        requires
            forall|c: &Cell| #[trigger] keep.requires((c,)),
            forall|c: &Cell, b: bool| keep.ensures((c,), b) ==> b == p@(cell_view(*c)),
        ensures
            final(self)@ == old(self)@.filter(p@),
            final(self).minutes() == old(self).minutes(),
    {
        proof {
            use_type_invariant(&*self);
            lemma_filter_distinct(self@, p@);
        }
        let ghost s = self@;
        let mut kept: Vec<Cell> = Vec::new();
        let mut i: usize = 0;
        while i < self.cells.len()
            invariant
                i <= self.cells.len(),
                s == self@,
                s.len() == self.cells.len(),
                kept@.map_values(|c: Cell| cell_view(c)) == s.take(i as int).filter(p@),
                forall|c: &Cell| #[trigger] keep.requires((c,)),
                forall|c: &Cell, b: bool| keep.ensures((c,), b) ==> b == p@(cell_view(*c)),
            decreases self.cells.len() - i,
        {
            let c = &self.cells[i];
            assert(cell_view(*c) == s[i as int]);
            assert(s.take(i + 1).drop_last() =~= s.take(i as int));
            assert(s.take(i + 1).last() == s[i as int]);
            reveal_with_fuel(Seq::<_>::filter, 1);
            let ghost before = kept@;
            if keep(c) {
                let nc = Cell { bucket_ms: c.bucket_ms, name: c.name.clone(), tags_key: c.tags_key.clone(), count: c.count };
                kept.push(nc);
                assert(kept@ == before.push(nc));
                assert(kept@.map_values(|c: Cell| cell_view(c)) =~= before.map_values(|c: Cell| cell_view(c)).push(s[i as int]));
            }
            i = i + 1;
        }
        assert(s.take(i as int) =~= s);
        self.cells = kept;
    }

    /// Drops the counters of buckets that start at or before `sent_up_to`.
    pub fn clear_flushed(&mut self, sent_up_to: i64)
        ensures
            final(self)@ == old(self)@.filter(after_time(sent_up_to)),
            final(self).minutes() == old(self).minutes(),
            cells_distinct(final(self)@),
    {
        let p = Ghost(after_time(sent_up_to));
        self.retain_cells(p, |c: &Cell| -> (b: bool)
            ensures b == after_time(sent_up_to)(cell_view(*c))
            {
                c.bucket_ms > sent_up_to
            });
        proof {
            use_type_invariant(&*self);
        }
    }
}

} // verus!
