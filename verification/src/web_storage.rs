use std::collections::VecDeque;
use std::collections::hash_map::DefaultHasher;
use std::hash::Hasher;

use vstd::prelude::*;
use vstd::std_specs::hash::DefaultHasherAdditionalSpecFns;
use vstd::utf8::encode_utf8;
use vstd::seq_lib::{to_multiset_insert, to_multiset_build, to_multiset_contains};

use crate::aggregator::{MetricSample, MetricSampleView};
use crate::seqs::{distinct_by, first_index, lemma_first_index, lemma_first_index_skip, lead_count, lemma_lead_count, lemma_distinct_update, lemma_distinct_push, lemma_distinct_filter};
use crate::strmap::{Entries, StrMap, find_key};

verus! {

/// One stored value of a series: a time stamp in milliseconds and a count.
#[derive(Clone, Copy, Debug)]
pub struct MetricPoint {
    pub timestamp: i64,
    pub value: u64,
}

/// A sample handed to the storage.
pub struct WebMetricSample {
    pub name: String,
    pub tags: StrMap,
    pub value: u64,
    pub timestamp_ms: i64,
}

impl View for WebMetricSample {
    type V = MetricSampleView;

    open spec fn view(&self) -> MetricSampleView {
        MetricSampleView {
            name: self.name@,
            tags: self.tags@,
            value: self.value,
            timestamp_ms: self.timestamp_ms,
        }
    }
}

/// The storage sample that an aggregator sample stands for.
impl From<MetricSample> for WebMetricSample {
    fn from(sample: MetricSample) -> (r: WebMetricSample) {
        WebMetricSample {
            name: sample.name,
            tags: sample.tags,
            value: sample.value,
            timestamp_ms: sample.timestamp_ms,
        }
    }
}

impl vstd::std_specs::convert::FromSpecImpl<MetricSample> for WebMetricSample {
    open spec fn obeys_from_spec() -> bool {
        true
    }

    open spec fn from_spec(sample: MetricSample) -> WebMetricSample {
        WebMetricSample {
            name: sample.name,
            tags: sample.tags,
            value: sample.value,
            timestamp_ms: sample.timestamp_ms,
        }
    }
}

/// One series of a snapshot: metric name, tags and points.
pub struct WebMetricSeriesSnapshot {
    pub metric: String,
    pub tags: StrMap,
    pub points: Vec<MetricPoint>,
}

/// The series of a storage, as saved and restored.
pub struct WebMetricStorageSnapshot {
    pub series: Vec<WebMetricSeriesSnapshot>,
}

/// A series: metric name, series key and points (oldest first).
pub type SeriesView = (Seq<char>, u64, Seq<MetricPoint>);

/// The tags recorded for a series key.
pub type MetaView = (u64, Entries);

/// One entry of the tag index: tag name, tag value and series key.
pub type TagRefView = (Seq<char>, Seq<char>, u64);

pub open spec fn series_id(s: SeriesView) -> (Seq<char>, u64) {
    (s.0, s.1)
}

pub open spec fn meta_id(m: MetaView) -> u64 {
    m.0
}

pub open spec fn ref_id(t: TagRefView) -> TagRefView {
    t
}

struct Series {
    metric: String,
    key: u64,
    points: VecDeque<MetricPoint>,
}

struct Meta {
    key: u64,
    tags: StrMap,
}

struct TagRef {
    tag: String,
    value: String,
    key: u64,
}

spec fn series_v(s: Series) -> SeriesView {
    (s.metric@, s.key, s.points@)
}

spec fn meta_v(m: Meta) -> MetaView {
    (m.key, m.tags@)
}

spec fn ref_v(t: TagRef) -> TagRefView {
    (t.tag@, t.value@, t.key)
}

pub struct StorageView {
    pub series: Seq<SeriesView>,
    pub metadata: Seq<MetaView>,
    pub tag_index: Seq<TagRefView>,
    pub max_points: usize,
    pub retention_seconds: i64,
}

/// The largest retention (in seconds, either sign) whose milliseconds fit in
/// an `i64`.
pub open spec fn max_retention_seconds() -> i64 {
    9223372036854775
}

/// Every tag recorded for a key is indexed under that key.
pub open spec fn metas_indexed(m: Seq<MetaView>, index: Seq<TagRefView>) -> bool {
    forall|i: int| 0 <= i < m.len() ==> tags_indexed(index, (#[trigger] m[i]).1, m[i].0)
}

/// What the storage's invariant holds: series, metadata and tag index hold
/// no entry twice, every recorded tag is indexed under its key, and the
/// retention in milliseconds fits in an `i64`.
pub open spec fn storage_wf(v: StorageView) -> bool {
    &&& distinct_by(v.series, |s: SeriesView| series_id(s))
    &&& distinct_by(v.metadata, |m: MetaView| meta_id(m))
    &&& distinct_by(v.tag_index, |t: TagRefView| ref_id(t))
    &&& metas_indexed(v.metadata, v.tag_index)
    &&& -max_retention_seconds() <= v.retention_seconds <= max_retention_seconds()
}

/// An index that holds every entry of `t` still indexes what `t` did.
pub proof fn lemma_indexed_grow(m: Seq<MetaView>, t: Seq<TagRefView>, u: Seq<TagRefView>)
    requires
        metas_indexed(m, t),
        forall|r: TagRefView| t.contains(r) ==> u.contains(r),
    ensures
        metas_indexed(m, u),
{
    assert forall|i: int| 0 <= i < m.len() implies tags_indexed(u, (#[trigger] m[i]).1, m[i].0) by {
        assert(tags_indexed(t, m[i].1, m[i].0));
        assert forall|j: int| 0 <= j < m[i].1.len() implies u.contains((#[trigger] m[i].1[j].0, m[i].1[j].1, m[i].0)) by {
            assert(t.contains((m[i].1[j].0, m[i].1[j].1, m[i].0)));
        }
    }
}

/// Adding an entry keeps every entry that was there.
pub proof fn lemma_add_ref_grows(t: Seq<TagRefView>, r: TagRefView)
    ensures
        add_ref(t, r).contains(r),
        forall|x: TagRefView| t.contains(x) ==> add_ref(t, r).contains(x),
{
    if !t.contains(r) {
        assert(t.push(r)[t.len() as int] == r);
        assert forall|x: TagRefView| t.contains(x) implies add_ref(t, r).contains(x) by {
            let j = choose|j: int| 0 <= j < t.len() && t[j] == x;
            assert(t.push(r)[j] == x);
        }
    }
}

/// Adding the entries of `tags` keeps every entry that was there and
/// indexes every tag of `tags` under `key`.
pub proof fn lemma_add_refs_grows(t: Seq<TagRefView>, tags: Entries, key: u64)
    ensures
        forall|x: TagRefView| t.contains(x) ==> add_refs(t, tags, key).contains(x),
        tags_indexed(add_refs(t, tags, key), tags, key),
    decreases tags.len(),
{
    if tags.len() > 0 {
        let d = tags.drop_last();
        lemma_add_refs_grows(t, d, key);
        let inner = add_refs(t, d, key);
        let r = (tags.last().0, tags.last().1, key);
        lemma_add_ref_grows(inner, r);
        assert forall|i: int| 0 <= i < tags.len() implies add_refs(t, tags, key).contains(
            (#[trigger] tags[i].0, tags[i].1, key),
        ) by {
            if i < d.len() {
                assert(d[i] == tags[i]);
                assert(inner.contains((d[i].0, d[i].1, key)));
            } else {
                assert(tags[i] == tags.last());
            }
        }
    }
}

// ---------------------------------------------------------------------
// Series keys
// ---------------------------------------------------------------------

pub open spec fn ff() -> Seq<u8> {
    seq![0xffu8]
}

/// The byte strings that hashing the tags writes: each key and value as
/// `str::hash` writes them (the UTF-8 bytes, then `0xff`).
pub open spec fn tag_writes(tags: Entries) -> Seq<Seq<u8>>
    decreases tags.len(),
{
    if tags.len() == 0 {
        Seq::empty()
    } else {
        tag_writes(tags.drop_last()) + seq![
            encode_utf8(tags.last().0),
            ff(),
            encode_utf8(tags.last().1),
            ff(),
        ]
    }
}

/// The key of a series: `DefaultHasher` fed with the metric name and then
/// each tag in key order.
pub open spec fn series_key(metric: Seq<char>, tags: Entries) -> u64 {
    DefaultHasher::spec_finish(seq![encode_utf8(metric), ff()] + tag_writes(tags))
}

fn write_str(h: &mut DefaultHasher, s: &str)
    ensures
        final(h)@ == old(h)@ + seq![encode_utf8(s@), ff()],
{
    h.write(s.as_bytes());
    let end: [u8; 1] = [0xff];
    assert(end@ =~= ff());
    h.write(&end);
    assert(final(h)@ =~= old(h)@ + seq![encode_utf8(s@), ff()]);
}

impl WebMetricStorage {
    /// The key of the series of `metric` with `tags`.
    pub fn make_series_key(metric: &str, tags: &StrMap) -> (r: u64)
        ensures
            r == series_key(metric@, tags@),
    {
        let mut h = DefaultHasher::new();
        write_str(&mut h, metric);
        let ghost start = seq![encode_utf8(metric@), ff()];
        assert(h@ =~= start);
        let mut i: usize = 0;
        while i < tags.len()
            invariant
                i <= tags@.len(),
                h@ == start + tag_writes(tags@.take(i as int)),
            decreases tags@.len() - i,
        {
            let ghost before = h@;
            write_str(&mut h, tags.key_at(i).as_str());
            write_str(&mut h, tags.value_at(i).as_str());
            let ghost t = tags@.take(i + 1);
            assert(t.drop_last() =~= tags@.take(i as int));
            assert(t.last() == tags@[i as int]);
            assert(h@ =~= start + tag_writes(t));
            i = i + 1;
        }
        assert(tags@.take(i as int) =~= tags@);
        h.finish()
    }
}

/// Keeps time-stamped counts per metric series, with an index from tags to
/// series.
pub struct WebMetricStorage {
    series: Vec<Series>,
    metadata: Vec<Meta>,
    tag_index: Vec<TagRef>,
    max_points: usize,
    retention_seconds: i64,
}

impl View for WebMetricStorage {
    type V = StorageView;

    closed spec fn view(&self) -> StorageView {
        StorageView {
            series: self.series@.map_values(|s: Series| series_v(s)),
            metadata: self.metadata@.map_values(|m: Meta| meta_v(m)),
            tag_index: self.tag_index@.map_values(|t: TagRef| ref_v(t)),
            max_points: self.max_points,
            retention_seconds: self.retention_seconds,
        }
    }
}

impl WebMetricStorage {
    #[verifier::type_invariant]
    closed spec fn inv(self) -> bool {
        storage_wf(self@)
    }

    pub fn new(max_points: usize, retention_seconds: i64) -> (r: Self)
        requires
            -max_retention_seconds() <= retention_seconds <= max_retention_seconds(),
        ensures
            r@.series == Seq::<SeriesView>::empty(),
            r@.metadata == Seq::<MetaView>::empty(),
            r@.tag_index == Seq::<TagRefView>::empty(),
            r@.max_points == max_points,
            r@.retention_seconds == retention_seconds,
            storage_wf(r@),
    {
        let r = WebMetricStorage {
            series: Vec::new(),
            metadata: Vec::new(),
            tag_index: Vec::new(),
            max_points,
            retention_seconds,
        };
        assert(r@.series =~= Seq::<SeriesView>::empty());
        assert(r@.metadata =~= Seq::<MetaView>::empty());
        assert(r@.tag_index =~= Seq::<TagRefView>::empty());
        proof {
            use_type_invariant(&r);
        }
        r
    }

    pub fn max_points(&self) -> (r: usize)
        ensures
            r == self@.max_points,
    {
        self.max_points
    }

    pub fn retention_seconds(&self) -> (r: i64)
        ensures
            r == self@.retention_seconds,
    {
        self.retention_seconds
    }
}

// ---------------------------------------------------------------------
// Inserting
// ---------------------------------------------------------------------

pub open spec fn meta_is(key: u64) -> spec_fn(MetaView) -> bool {
    |m: MetaView| m.0 == key
}

pub open spec fn series_is(metric: Seq<char>, key: u64) -> spec_fn(SeriesView) -> bool {
    |s: SeriesView| s.0 == metric && s.1 == key
}

pub open spec fn point_at(ts: i64) -> spec_fn(MetricPoint) -> bool {
    |p: MetricPoint| p.timestamp == ts
}

pub open spec fn older_than(min_ts: i64) -> spec_fn(MetricPoint) -> bool {
    |p: MetricPoint| p.timestamp < min_ts
}

/// Whether metadata is recorded for `key`.
pub open spec fn has_meta(m: Seq<MetaView>, key: u64) -> bool {
    first_index(m, meta_is(key)) < m.len()
}

/// The tags recorded for `key`, if any.
pub open spec fn meta_of(m: Seq<MetaView>, key: u64) -> Option<Entries> {
    let i = first_index(m, meta_is(key));
    if i < m.len() {
        Some(m[i].1)
    } else {
        None
    }
}

/// The index with `r` added (it holds each entry once).
pub open spec fn add_ref(t: Seq<TagRefView>, r: TagRefView) -> Seq<TagRefView> {
    if t.contains(r) {
        t
    } else {
        t.push(r)
    }
}

/// The index with an entry for each tag of `tags` and `key`.
pub open spec fn add_refs(t: Seq<TagRefView>, tags: Entries, key: u64) -> Seq<TagRefView>
    decreases tags.len(),
{
    if tags.len() == 0 {
        t
    } else {
        add_ref(add_refs(t, tags.drop_last(), key), (tags.last().0, tags.last().1, key))
    }
}

/// The points of the series `(metric, key)`; none where there is no such
/// series.
pub open spec fn series_points(s: Seq<SeriesView>, metric: Seq<char>, key: u64) -> Seq<MetricPoint> {
    let i = first_index(s, series_is(metric, key));
    if i < s.len() {
        s[i].2
    } else {
        Seq::empty()
    }
}

/// The series with the points of `(metric, key)` set to `pts` (the series is
/// added at the end where it is new).
pub open spec fn set_series(s: Seq<SeriesView>, metric: Seq<char>, key: u64, pts: Seq<MetricPoint>) -> Seq<SeriesView> {
    let i = first_index(s, series_is(metric, key));
    if i < s.len() {
        s.update(i, (metric, key, pts))
    } else {
        s.push((metric, key, pts))
    }
}

/// The points with the value at `ts` set to `v`: the first point with that
/// time stamp is overwritten, or a point is appended.
pub open spec fn upsert_point(p: Seq<MetricPoint>, ts: i64, v: u64) -> Seq<MetricPoint> {
    let j = first_index(p, point_at(ts));
    let np = MetricPoint { timestamp: ts, value: v };
    if j < p.len() {
        p.update(j, np)
    } else {
        p.push(np)
    }
}

/// The last `max` points.
pub open spec fn keep_last(p: Seq<MetricPoint>, max: usize) -> Seq<MetricPoint> {
    if p.len() > max {
        p.skip(p.len() - max)
    } else {
        p
    }
}

/// The points without the leading ones older than `min_ts`.
pub open spec fn drop_old(p: Seq<MetricPoint>, min_ts: i64) -> Seq<MetricPoint> {
    p.skip(lead_count(p, older_than(min_ts)))
}

/// The oldest time stamp that an insert at `ts` keeps.
pub open spec fn min_keep(ts: i64, retention_seconds: i64) -> i64 {
    (ts - retention_seconds * 1000) as i64
}

/// The storage after storing `value` at `ts` in the series of `metric` with
/// `tags`: a new key gets its tags recorded and indexed; the series keeps
/// at most `max_points` points and none before `ts - retention`, each
/// dropped from the front.
pub open spec fn spec_insert(v: StorageView, metric: Seq<char>, tags: Entries, value: u64, ts: i64) -> StorageView {
    let key = series_key(metric, tags);
    let fresh = !has_meta(v.metadata, key);
    StorageView {
        series: set_series(
            v.series,
            metric,
            key,
            drop_old(
                keep_last(upsert_point(series_points(v.series, metric, key), ts, value), v.max_points),
                min_keep(ts, v.retention_seconds),
            ),
        ),
        metadata: if fresh {
            v.metadata.push((key, tags))
        } else {
            v.metadata
        },
        tag_index: if fresh {
            add_refs(v.tag_index, tags, key)
        } else {
            v.tag_index
        },
        max_points: v.max_points,
        retention_seconds: v.retention_seconds,
    }
}

pub proof fn lemma_distinct_add_ref(t: Seq<TagRefView>, r: TagRefView)
    requires
        distinct_by(t, |x: TagRefView| ref_id(x)),
    ensures
        distinct_by(add_ref(t, r), |x: TagRefView| ref_id(x)),
{
    if !t.contains(r) {
        lemma_distinct_push(t, |x: TagRefView| ref_id(x), r);
    }
}

fn copy_points(p: &VecDeque<MetricPoint>) -> (r: VecDeque<MetricPoint>)
    ensures
        r@ == p@,
{
    let mut r: VecDeque<MetricPoint> = VecDeque::new();
    let mut i: usize = 0;
    while i < p.len()
        invariant
            i <= p@.len(),
            r@ == p@.take(i as int),
        decreases p@.len() - i,
    {
        r.push_back(p[i]);
        i = i + 1;
        assert(r@ =~= p@.take(i as int));
    }
    assert(p@.take(i as int) =~= p@);
    r
}

fn point_index(p: &VecDeque<MetricPoint>, ts: i64) -> (j: usize)
    ensures
        j == first_index(p@, point_at(ts)),
{
    proof {
        lemma_first_index(p@, point_at(ts));
    }
    let mut j: usize = 0;
    assert(p@.skip(0) =~= p@);
    while j < p.len()
        invariant
            j <= p@.len(),
            first_index(p@, point_at(ts)) == j + first_index(p@.skip(j as int), point_at(ts)),
        decreases p@.len() - j,
    {
        if p[j].timestamp == ts {
            assert(p@.skip(j as int)[0] == p@[j as int]);
            return j;
        }
        proof {
            lemma_first_index_skip(p@, point_at(ts), j as int);
        }
        j = j + 1;
    }
    j
}

/// Drops the leading points older than `min_ts`.
fn drop_old_points(p: &mut VecDeque<MetricPoint>, min_ts: i64)
    ensures
        final(p)@ == drop_old(old(p)@, min_ts),
{
    let ghost q = p@;
    assert(q.skip(0) =~= q);
    while p.len() > 0 && p[0].timestamp < min_ts
        invariant
            p@ == q.skip(q.len() - p@.len()),
            p@.len() <= q.len(),
            lead_count(q, older_than(min_ts)) == (q.len() - p@.len()) + lead_count(p@, older_than(min_ts)),
        decreases p@.len(),
    {
        let ghost before = p@;
        let _ = p.pop_front();
        assert(before.drop_first() =~= p@);
        assert(p@ =~= q.skip(q.len() - p@.len()));
    }
    proof {
        lemma_lead_count(p@, older_than(min_ts));
    }
    assert(lead_count(p@, older_than(min_ts)) == 0);
}

/// `p` after storing `value` at `ts` and trimming to `max` points and to
/// none before `min_ts`.
fn update_points(p: &mut VecDeque<MetricPoint>, ts: i64, value: u64, max: usize, min_ts: i64)
    ensures
        final(p)@ == drop_old(keep_last(upsert_point(old(p)@, ts, value), max), min_ts),
{
    let j = point_index(p, ts);
    let np = MetricPoint { timestamp: ts, value };
    if j < p.len() {
        let _ = p.remove(j);
        p.insert(j, np);
        assert(p@ =~= old(p)@.update(j as int, np));
    } else {
        p.push_back(np);
    }
    let ghost p1 = p@;
    assert(p1 == upsert_point(old(p)@, ts, value));
    assert(p1.skip(0) =~= p1);
    while p.len() > max
        invariant
            p@ == p1.skip(p1.len() - p@.len()),
            p@.len() <= p1.len(),
            p1.len() > max ==> p@.len() >= max,
            p1.len() <= max ==> p@.len() == p1.len(),
        decreases p@.len(),
    {
        let ghost before = p@;
        let _ = p.pop_front();
        assert(p@ =~= p1.skip(p1.len() - p@.len()));
    }
    assert(p@ == keep_last(p1, max)) by {
        if p1.len() <= max {
            assert(p1.skip(0) =~= p1);
        }
    }
    drop_old_points(p, min_ts);
}

impl WebMetricStorage {
    fn meta_index(&self, key: u64) -> (i: usize)
        ensures
            i == first_index(self@.metadata, meta_is(key)),
    {
        let ghost m = self@.metadata;
        proof {
            lemma_first_index(m, meta_is(key));
        }
        let mut i: usize = 0;
        assert(m.skip(0) =~= m);
        while i < self.metadata.len()
            invariant
                i <= self.metadata.len(),
                m == self@.metadata,
                m.len() == self.metadata.len(),
                first_index(m, meta_is(key)) == i + first_index(m.skip(i as int), meta_is(key)),
            decreases self.metadata.len() - i,
        {
            assert(m[i as int] == meta_v(self.metadata@[i as int]));
            if self.metadata[i].key == key {
                assert(m.skip(i as int)[0] == m[i as int]);
                return i;
            }
            proof {
                lemma_first_index_skip(m, meta_is(key), i as int);
            }
            i = i + 1;
        }
        i
    }

    fn series_index(&self, metric: &String, key: u64) -> (i: usize)
        ensures
            i == first_index(self@.series, series_is(metric@, key)),
    {
        let ghost s = self@.series;
        proof {
            lemma_first_index(s, series_is(metric@, key));
        }
        let mut i: usize = 0;
        assert(s.skip(0) =~= s);
        while i < self.series.len()
            invariant
                i <= self.series.len(),
                s == self@.series,
                s.len() == self.series.len(),
                first_index(s, series_is(metric@, key)) == i + first_index(s.skip(i as int), series_is(metric@, key)),
            decreases self.series.len() - i,
        {
            assert(s[i as int] == series_v(self.series@[i as int]));
            if self.series[i].key == key && self.series[i].metric == *metric {
                assert(s.skip(i as int)[0] == s[i as int]);
                return i;
            }
            proof {
                lemma_first_index_skip(s, series_is(metric@, key), i as int);
            }
            i = i + 1;
        }
        i
    }

    fn has_ref(&self, tag: &String, value: &String, key: u64) -> (b: bool)
        ensures
            b == self@.tag_index.contains((tag@, value@, key)),
    {
        let ghost t = self@.tag_index;
        let mut i: usize = 0;
        while i < self.tag_index.len()
            invariant
                i <= self.tag_index.len(),
                t == self@.tag_index,
                t.len() == self.tag_index.len(),
                forall|j: int| 0 <= j < i ==> t[j] != (tag@, value@, key),
            decreases self.tag_index.len() - i,
        {
            assert(t[i as int] == ref_v(self.tag_index@[i as int]));
            if self.tag_index[i].key == key && self.tag_index[i].tag == *tag && self.tag_index[i].value == *value {
                return true;
            }
            i = i + 1;
        }
        false
    }

    fn add_tag_ref(&mut self, tag: String, value: String, key: u64)
        ensures
            final(self)@ == (StorageView { tag_index: add_ref(old(self)@.tag_index, (tag@, value@, key)), ..old(self)@ }),
    {
        proof {
            use_type_invariant(&*self);
            lemma_distinct_add_ref(self@.tag_index, (tag@, value@, key));
        }
        if !self.has_ref(&tag, &value, key) {
            let ghost r = (tag@, value@, key);
            let ghost v0 = self@;
            proof {
                lemma_add_ref_grows(v0.tag_index, r);
                lemma_indexed_grow(v0.metadata, v0.tag_index, add_ref(v0.tag_index, r));
            }
            let mut m: Vec<Meta> = Vec::new();
            std::mem::swap(&mut m, &mut self.metadata);
            assert(self@.metadata =~= Seq::<MetaView>::empty());
            let mut t: Vec<TagRef> = Vec::new();
            std::mem::swap(&mut t, &mut self.tag_index);
            let ghost t0 = t@;
            let nt = TagRef { tag, value, key };
            assert(ref_v(nt) == r);
            t.push(nt);
            assert(t@.map_values(|x: TagRef| ref_v(x)) =~= t0.map_values(|x: TagRef| ref_v(x)).push(r));
            self.tag_index = t;
            assert(self@.tag_index =~= add_ref(old(self)@.tag_index, r));
            self.metadata = m;
            assert(self@.metadata == v0.metadata);
        }
    }

    fn add_tag_refs(&mut self, tags: &StrMap, key: u64)
        ensures
            final(self)@ == (StorageView { tag_index: add_refs(old(self)@.tag_index, tags@, key), ..old(self)@ }),
    {
        let mut i: usize = 0;
        while i < tags.len()
            invariant
                i <= tags@.len(),
                self@ == (StorageView { tag_index: add_refs(old(self)@.tag_index, tags@.take(i as int), key), ..old(self)@ }),
            decreases tags@.len() - i,
        {
            let ghost t = tags@.take(i + 1);
            assert(t.drop_last() =~= tags@.take(i as int));
            assert(t.last() == tags@[i as int]);
            self.add_tag_ref(tags.key_at(i).clone(), tags.value_at(i).clone(), key);
            i = i + 1;
        }
        assert(tags@.take(i as int) =~= tags@);
    }

    /// Stores `value` at `timestamp_ms` in the series of `metric` with `tags`.
    pub fn insert(&mut self, metric: String, tags: StrMap, value: u64, timestamp_ms: i64)
        requires
            i64::MIN <= timestamp_ms - old(self)@.retention_seconds * 1000 <= i64::MAX,
        ensures
            final(self)@ == spec_insert(old(self)@, metric@, tags@, value, timestamp_ms),
            storage_wf(final(self)@),
    {
        proof {
            use_type_invariant(&*self);
        }
        let key = Self::make_series_key(metric.as_str(), &tags);
        let ghost v0 = self@;
        let ghost tags_v = tags@;
        let mi = self.meta_index(key);
        proof {
            lemma_first_index(v0.metadata, meta_is(key));
        }
        assert(v0.metadata.len() == self.metadata@.len());
        assert(has_meta(v0.metadata, key) == (mi < self.metadata.len()));
        if mi == self.metadata.len() {
            self.add_tag_refs(&tags, key);
            proof {
                use_type_invariant(&*self);
                lemma_first_index(v0.metadata, meta_is(key));
                lemma_distinct_push(v0.metadata, |m: MetaView| meta_id(m), (key, tags@));
                lemma_add_refs_grows(v0.tag_index, tags@, key);
                let nmv = v0.metadata.push((key, tags@));
                assert forall|i: int| 0 <= i < nmv.len() implies tags_indexed(self@.tag_index, (#[trigger] nmv[i]).1, nmv[i].0) by {
                    if i < v0.metadata.len() {
                        assert(nmv[i] == self@.metadata[i]);
                    }
                }
            }
            let ghost tv = tags@;
            assert(tv == tags_v);
            let mut m: Vec<Meta> = Vec::new();
            std::mem::swap(&mut m, &mut self.metadata);
            let ghost m0 = m@;
            let nm = Meta { key, tags };
            assert(meta_v(nm) == (key, tv));
            m.push(nm);
            assert(m@.map_values(|x: Meta| meta_v(x)) =~= m0.map_values(|x: Meta| meta_v(x)).push((key, tv)));
            self.metadata = m;
            assert(self@.metadata =~= v0.metadata.push((key, tv)));
        }
        proof {
            use_type_invariant(&*self);
        }
        let ghost v1 = self@;
        assert(has_meta(v0.metadata, key) ==> v1.metadata == v0.metadata);
        assert(!has_meta(v0.metadata, key) ==> v1.metadata == v0.metadata.push((key, tags_v)));
        let min_ts: i64 = timestamp_ms - self.retention_seconds * 1000;
        let si = self.series_index(&metric, key);
        proof {
            lemma_first_index(v1.series, series_is(metric@, key));
        }
        let mut pts = if si < self.series.len() {
            copy_points(&self.series[si].points)
        } else {
            VecDeque::new()
        };
        assert(pts@ == series_points(v1.series, metric@, key));
        update_points(&mut pts, timestamp_ms, value, self.max_points, min_ts);
        let ghost mv = metric@;
        let ghost pv = pts@;
        if si < self.series.len() {
            proof {
                lemma_distinct_update(v1.series, |s: SeriesView| series_id(s), si as int, (mv, key, pv));
            }
            let mut ss: Vec<Series> = Vec::new();
            std::mem::swap(&mut ss, &mut self.series);
            let ghost s0 = ss@;
            let ns = Series { metric, key, points: pts };
            assert(series_v(ns) == (mv, key, pv));
            ss.set(si, ns);
            assert(ss@.map_values(|x: Series| series_v(x)) =~= s0.map_values(|x: Series| series_v(x)).update(si as int, (mv, key, pv)));
            self.series = ss;
        } else {
            proof {
                lemma_distinct_push(v1.series, |s: SeriesView| series_id(s), (mv, key, pv));
            }
            let mut ss: Vec<Series> = Vec::new();
            std::mem::swap(&mut ss, &mut self.series);
            let ghost s0 = ss@;
            let ns = Series { metric, key, points: pts };
            assert(series_v(ns) == (mv, key, pv));
            ss.push(ns);
            assert(ss@.map_values(|x: Series| series_v(x)) =~= s0.map_values(|x: Series| series_v(x)).push((mv, key, pv)));
            self.series = ss;
        }
        assert(self@.series =~= set_series(v1.series, mv, key, pv));
        let ghost sp = spec_insert(v0, mv, tags_v, value, timestamp_ms);
        assert(v1.series == v0.series);
        assert(min_ts == min_keep(timestamp_ms, v0.retention_seconds));
        assert(self@.series == sp.series);
        assert(self@.metadata == sp.metadata);
        assert(self@.tag_index == sp.tag_index);
        proof {
            use_type_invariant(&*self);
        }
    }

    /// Stores a sample.
    pub fn insert_sample(&mut self, sample: WebMetricSample)
        requires
            i64::MIN <= sample.timestamp_ms - old(self)@.retention_seconds * 1000 <= i64::MAX,
        ensures
            final(self)@ == spec_insert(old(self)@, sample@.name, sample@.tags, sample@.value, sample@.timestamp_ms),
            storage_wf(final(self)@),
    {
        self.insert(sample.name, sample.tags, sample.value, sample.timestamp_ms);
    }
}

// ---------------------------------------------------------------------
// Queries
// ---------------------------------------------------------------------

/// Whether every tag of `tags` is indexed for `key`.
pub open spec fn tags_indexed(index: Seq<TagRefView>, tags: Entries, key: u64) -> bool {
    forall|i: int| 0 <= i < tags.len() ==> index.contains((#[trigger] tags[i].0, tags[i].1, key))
}

/// The series of `metric` whose key is indexed under every tag of `tags`.
pub open spec fn selects(v: StorageView, metric: Seq<char>, tags: Entries) -> spec_fn(SeriesView) -> bool {
    |s: SeriesView| s.0 == metric && tags_indexed(v.tag_index, tags, s.1)
}

/// The keys of the series that a query for `metric` and `tags` reads.
pub open spec fn spec_series_for(v: StorageView, metric: Seq<char>, tags: Entries) -> Seq<u64> {
    v.series.filter(selects(v, metric, tags)).map_values(|s: SeriesView| s.1)
}

pub open spec fn in_range(from: i64, to: i64) -> spec_fn(MetricPoint) -> bool {
    |p: MetricPoint| from <= p.timestamp && p.timestamp <= to
}

/// The sum of the values of the points in `[from, to]`.
pub open spec fn sum_in_range(p: Seq<MetricPoint>, from: i64, to: i64) -> nat
    decreases p.len(),
{
    if p.len() == 0 {
        0
    } else {
        sum_in_range(p.drop_last(), from, to) + if from <= p.last().timestamp && p.last().timestamp <= to {
            p.last().value as nat
        } else {
            0
        }
    }
}

/// The sum over the series of their values in `[from, to]`.
pub open spec fn sum_series(ss: Seq<SeriesView>, from: i64, to: i64) -> nat
    decreases ss.len(),
{
    if ss.len() == 0 {
        0
    } else {
        sum_series(ss.drop_last(), from, to) + sum_in_range(ss.last().2, from, to)
    }
}

/// A sum as a `u64`: `u64::MAX` where it does not fit.
pub open spec fn sat(n: nat) -> u64 {
    if n > u64::MAX {
        u64::MAX
    } else {
        n as u64
    }
}

pub open spec fn spec_query_sum(v: StorageView, metric: Seq<char>, tags: Entries, from: i64, to: i64) -> u64 {
    sat(sum_series(v.series.filter(selects(v, metric, tags)), from, to))
}

fn sat_add(a: u64, b: u64) -> (r: u64)
    ensures
        r == if a + b > u64::MAX { u64::MAX } else { (a + b) as u64 },
{
    if a > u64::MAX - b {
        u64::MAX
    } else {
        a + b
    }
}

fn sum_points(p: &VecDeque<MetricPoint>, from: i64, to: i64) -> (r: u64)
    ensures
        r == sat(sum_in_range(p@, from, to)),
{
    let mut acc: u64 = 0;
    let mut i: usize = 0;
    while i < p.len()
        invariant
            i <= p@.len(),
            acc == sat(sum_in_range(p@.take(i as int), from, to)),
        decreases p@.len() - i,
    {
        let q = p[i];
        let ghost t = p@.take(i + 1);
        assert(t.drop_last() =~= p@.take(i as int));
        assert(t.last() == q);
        if from <= q.timestamp && q.timestamp <= to {
            acc = sat_add(acc, q.value);
        }
        i = i + 1;
    }
    assert(p@.take(i as int) =~= p@);
    acc
}

fn points_in_range(p: &VecDeque<MetricPoint>, from: i64, to: i64) -> (r: Vec<MetricPoint>)
    ensures
        r@ == p@.filter(in_range(from, to)),
{
    let mut out: Vec<MetricPoint> = Vec::new();
    let mut i: usize = 0;
    while i < p.len()
        invariant
            i <= p@.len(),
            out@ == p@.take(i as int).filter(in_range(from, to)),
        decreases p@.len() - i,
    {
        let q = p[i];
        let ghost t = p@.take(i + 1);
        assert(t.drop_last() =~= p@.take(i as int));
        assert(t.last() == q);
        reveal_with_fuel(Seq::<_>::filter, 1);
        if from <= q.timestamp && q.timestamp <= to {
            out.push(q);
        }
        i = i + 1;
    }
    assert(p@.take(i as int) =~= p@);
    out
}

impl WebMetricStorage {
    fn tags_all_indexed(&self, tags: &StrMap, key: u64) -> (b: bool)
        ensures
            b == tags_indexed(self@.tag_index, tags@, key),
    {
        let mut i: usize = 0;
        while i < tags.len()
            invariant
                i <= tags@.len(),
                forall|j: int| 0 <= j < i ==> self@.tag_index.contains((#[trigger] tags@[j].0, tags@[j].1, key)),
            decreases tags@.len() - i,
        {
            if !self.has_ref(tags.key_at(i), tags.value_at(i), key) {
                return false;
            }
            i = i + 1;
        }
        true
    }

    fn selected(&self, i: usize, metric: &str, tags: &StrMap) -> (b: bool)
        requires
            i < self@.series.len(),
        ensures
            b == selects(self@, metric@, tags@)(self@.series[i as int]),
    {
        assert(self@.series[i as int] == series_v(self.series@[i as int]));
        crate::text::str_eq(self.series[i].metric.as_str(), metric) && self.tags_all_indexed(tags, self.series[i].key)
    }

    /// The keys of the series of `metric` indexed under every tag of `tags`
    /// (all series of `metric` when `tags` is empty).
    pub fn series_for(&self, metric: &str, tags: &StrMap) -> (r: Vec<u64>)
        ensures
            r@ == spec_series_for(self@, metric@, tags@),
    {
        let ghost ss = self@.series;
        let ghost sel = selects(self@, metric@, tags@);
        let mut out: Vec<u64> = Vec::new();
        let mut i: usize = 0;
        while i < self.series.len()
            invariant
                i <= self.series.len(),
                ss == self@.series,
                ss.len() == self.series.len(),
                sel == selects(self@, metric@, tags@),
                out@ == ss.take(i as int).filter(sel).map_values(|s: SeriesView| s.1),
            decreases self.series.len() - i,
        {
            let ghost t = ss.take(i + 1);
            assert(t.drop_last() =~= ss.take(i as int));
            assert(t.last() == ss[i as int]);
            reveal_with_fuel(Seq::<_>::filter, 1);
            assert(ss[i as int] == series_v(self.series@[i as int]));
            if self.selected(i, metric, tags) {
                out.push(self.series[i].key);
                assert(out@ =~= ss.take(i + 1).filter(sel).map_values(|s: SeriesView| s.1));
            } else {
                assert(out@ =~= ss.take(i + 1).filter(sel).map_values(|s: SeriesView| s.1));
            }
            i = i + 1;
        }
        assert(ss.take(i as int) =~= ss);
        out
    }

    /// The sum of the values in `[from_ms, to_ms]` over the series that
    /// `series_for(metric, tags)` gives (`u64::MAX` where it does not fit).
    pub fn query_sum(&self, metric: &str, tags: &StrMap, from_ms: i64, to_ms: i64) -> (r: u64)
        ensures
            r == spec_query_sum(self@, metric@, tags@, from_ms, to_ms),
    {
        let ghost ss = self@.series;
        let ghost sel = selects(self@, metric@, tags@);
        let mut acc: u64 = 0;
        let mut i: usize = 0;
        while i < self.series.len()
            invariant
                i <= self.series.len(),
                ss == self@.series,
                ss.len() == self.series.len(),
                sel == selects(self@, metric@, tags@),
                acc == sat(sum_series(ss.take(i as int).filter(sel), from_ms, to_ms)),
            decreases self.series.len() - i,
        {
            let ghost t = ss.take(i + 1);
            assert(t.drop_last() =~= ss.take(i as int));
            assert(t.last() == ss[i as int]);
            reveal_with_fuel(Seq::<_>::filter, 1);
            assert(ss[i as int] == series_v(self.series@[i as int]));
            if self.selected(i, metric, tags) {
                let x = sum_points(&self.series[i].points, from_ms, to_ms);
                let ghost f = ss.take(i as int).filter(sel);
                assert(f.push(ss[i as int]).drop_last() =~= f);
                acc = sat_add(acc, x);
            }
            i = i + 1;
        }
        assert(ss.take(i as int) =~= ss);
        acc
    }
}

/// The points of the series, each series' points in `[from, to]` in turn.
pub open spec fn collect_points(ss: Seq<SeriesView>, from: i64, to: i64) -> Seq<MetricPoint>
    decreases ss.len(),
{
    if ss.len() == 0 {
        Seq::empty()
    } else {
        collect_points(ss.drop_last(), from, to) + ss.last().2.filter(in_range(from, to))
    }
}

pub open spec fn points_sorted(p: Seq<MetricPoint>) -> bool {
    forall|i: int, j: int| 0 <= i < j < p.len() ==> (#[trigger] p[i]).timestamp <= (#[trigger] p[j]).timestamp
}

/// The points in order of time stamp (points with equal time stamps keep
/// their order).
pub fn sort_points(v: Vec<MetricPoint>) -> (r: Vec<MetricPoint>)
    ensures
        points_sorted(r@),
        r@.to_multiset() == v@.to_multiset(),
{
    let mut r: Vec<MetricPoint> = Vec::new();
    let mut i: usize = 0;
    assert(r@ =~= v@.take(0));
    while i < v.len()
        invariant
            i <= v.len(),
            points_sorted(r@),
            r@.to_multiset() == v@.take(i as int).to_multiset(),
        decreases v.len() - i,
    {
        let x = v[i];
        let mut j: usize = 0;
        while j < r.len() && r[j].timestamp <= x.timestamp
            invariant
                j <= r.len(),
                forall|k: int| 0 <= k < j ==> (#[trigger] r@[k]).timestamp <= x.timestamp,
            decreases r.len() - j,
        {
            j = j + 1;
        }
        let ghost old_r = r@;
        r.insert(j, x);
        proof {
            to_multiset_insert(old_r, j as int, x);
            assert(v@.take(i + 1) =~= v@.take(i as int).push(x));
            to_multiset_build(v@.take(i as int), x);
            let nr = r@;
            assert forall|a: int, b: int| 0 <= a < b < nr.len() implies (#[trigger] nr[a]).timestamp
                <= (#[trigger] nr[b]).timestamp by {
                if b < j {
                    assert(nr[a] == old_r[a] && nr[b] == old_r[b]);
                } else if b == j {
                    assert(nr[a] == old_r[a]);
                } else if a == j {
                    assert(nr[b] == old_r[b - 1]);
                    assert(old_r[j as int].timestamp > x.timestamp);
                } else if a < j {
                    assert(nr[a] == old_r[a] && nr[b] == old_r[b - 1]);
                } else {
                    assert(nr[a] == old_r[a - 1] && nr[b] == old_r[b - 1]);
                }
            }
        }
        i = i + 1;
    }
    assert(v@.take(i as int) =~= v@);
    r
}

impl WebMetricStorage {
    /// The points in `[from_ms, to_ms]` of the series that
    /// `series_for(metric, tags)` gives, in order of time stamp.
    pub fn query_points(&self, metric: &str, tags: &StrMap, from_ms: i64, to_ms: i64) -> (r: Vec<MetricPoint>)
        ensures
            points_sorted(r@),
            r@.to_multiset() == collect_points(
                self@.series.filter(selects(self@, metric@, tags@)),
                from_ms,
                to_ms,
            ).to_multiset(),
    {
        let ghost ss = self@.series;
        let ghost sel = selects(self@, metric@, tags@);
        let mut out: Vec<MetricPoint> = Vec::new();
        let mut i: usize = 0;
        while i < self.series.len()
            invariant
                i <= self.series.len(),
                ss == self@.series,
                ss.len() == self.series.len(),
                sel == selects(self@, metric@, tags@),
                out@ == collect_points(ss.take(i as int).filter(sel), from_ms, to_ms),
            decreases self.series.len() - i,
        {
            let ghost t = ss.take(i + 1);
            assert(t.drop_last() =~= ss.take(i as int));
            assert(t.last() == ss[i as int]);
            reveal_with_fuel(Seq::<_>::filter, 1);
            assert(ss[i as int] == series_v(self.series@[i as int]));
            if self.selected(i, metric, tags) {
                let mut pts = points_in_range(&self.series[i].points, from_ms, to_ms);
                let ghost f = ss.take(i as int).filter(sel);
                assert(f.push(ss[i as int]).drop_last() =~= f);
                out.append(&mut pts);
            }
            i = i + 1;
        }
        assert(ss.take(i as int) =~= ss);
        sort_points(out)
    }
}

// ---------------------------------------------------------------------
// Top tag values
// ---------------------------------------------------------------------

pub open spec fn of_metric(metric: Seq<char>) -> spec_fn(SeriesView) -> bool {
    |s: SeriesView| s.0 == metric
}

/// What a series adds to the totals by tag value: its sum in `[from, to]`
/// under the value of `tag_key` in its recorded tags (nothing where it has
/// no recorded tags or no such tag).
pub open spec fn contribution(v: StorageView, s: SeriesView, tag_key: Seq<char>, from: i64, to: i64) -> Option<(Seq<char>, nat)> {
    match meta_of(v.metadata, s.1) {
        None => None,
        Some(tags) => match find_key(tags, tag_key) {
            None => None,
            Some(tv) => Some((tv, sum_in_range(s.2, from, to))),
        },
    }
}

pub open spec fn contributions(v: StorageView, ss: Seq<SeriesView>, tag_key: Seq<char>, from: i64, to: i64) -> Seq<(Seq<char>, nat)>
    decreases ss.len(),
{
    if ss.len() == 0 {
        Seq::empty()
    } else {
        let rest = contributions(v, ss.drop_last(), tag_key, from, to);
        match contribution(v, ss.last(), tag_key, from, to) {
            Some(c) => rest.push(c),
            None => rest,
        }
    }
}

/// The total of the contributions under tag value `k`.
pub open spec fn total_for(c: Seq<(Seq<char>, nat)>, k: Seq<char>) -> nat
    decreases c.len(),
{
    if c.len() == 0 {
        0
    } else {
        total_for(c.drop_last(), k) + if c.last().0 == k {
            c.last().1
        } else {
            0
        }
    }
}

/// `t` holds exactly one entry per tag value of the contributions, with its
/// total.
pub open spec fn totals_match(t: Seq<(Seq<char>, u64)>, c: Seq<(Seq<char>, nat)>) -> bool {
    &&& forall|i: int, j: int| 0 <= i < t.len() && 0 <= j < t.len() && i != j ==> (#[trigger] t[i]).0 != (#[trigger] t[j]).0
    &&& forall|i: int| 0 <= i < t.len() ==> contributes(c, (#[trigger] t[i]).0)
    &&& forall|i: int| 0 <= i < t.len() ==> (#[trigger] t[i]).1 == sat(total_for(c, t[i].0))
    &&& forall|j: int| 0 <= j < c.len() ==> has_total(t, (#[trigger] c[j]).0)
}

/// Some contribution is under tag value `k`.
pub open spec fn contributes(c: Seq<(Seq<char>, nat)>, k: Seq<char>) -> bool {
    exists|j: int| 0 <= j < c.len() && (#[trigger] c[j]).0 == k
}

/// Some entry is for tag value `k`.
pub open spec fn has_total(t: Seq<(Seq<char>, u64)>, k: Seq<char>) -> bool {
    exists|i: int| 0 <= i < t.len() && (#[trigger] t[i]).0 == k
}

/// `a` comes first: a larger total, or the same total and a smaller tag value.
pub open spec fn ranks_before(a: (Seq<char>, u64), b: (Seq<char>, u64)) -> bool {
    a.1 > b.1 || (a.1 == b.1 && crate::text::lex_lt(a.0, b.0))
}

pub open spec fn rank_sorted(t: Seq<(Seq<char>, u64)>) -> bool {
    forall|i: int, j: int| 0 <= i < j < t.len() ==> ranks_before(#[trigger] t[i], #[trigger] t[j])
}

pub open spec fn totals_view(t: Seq<(String, u64)>) -> Seq<(Seq<char>, u64)> {
    t.map_values(|p: (String, u64)| (p.0@, p.1))
}

proof fn lemma_total_absent(c: Seq<(Seq<char>, nat)>, k: Seq<char>)
    requires
        forall|j: int| 0 <= j < c.len() ==> (#[trigger] c[j]).0 != k,
    ensures
        total_for(c, k) == 0,
    decreases c.len(),
{
    if c.len() > 0 {
        assert forall|j: int| 0 <= j < c.drop_last().len() implies (#[trigger] c.drop_last()[j]).0 != k by {
            assert(c.drop_last()[j] == c[j]);
        }
        lemma_total_absent(c.drop_last(), k);
        assert(c.last() == c[c.len() - 1]);
    }
}

proof fn lemma_ranks_before_trans(a: (Seq<char>, u64), b: (Seq<char>, u64), c: (Seq<char>, u64))
    requires
        ranks_before(a, b),
        ranks_before(b, c),
    ensures
        ranks_before(a, c),
{
    if a.1 == b.1 && b.1 == c.1 {
        crate::text::lemma_lex_transitive(a.0, b.0, c.0);
    }
}

proof fn lemma_ranks_total(a: (Seq<char>, u64), b: (Seq<char>, u64))
    requires
        a.0 != b.0,
    ensures
        ranks_before(a, b) || ranks_before(b, a),
        !(ranks_before(a, b) && ranks_before(b, a)),
{
    crate::text::lemma_lex_total(a.0, b.0);
}

/// Orders entries with distinct tag values by rank.
fn rank_sort(v: &Vec<(String, u64)>) -> (r: Vec<(String, u64)>)
    requires
        forall|i: int, j: int| 0 <= i < v@.len() && 0 <= j < v@.len() && i != j ==> (#[trigger] v@[i]).0@ != (#[trigger] v@[j]).0@,
    ensures
        rank_sorted(totals_view(r@)),
        totals_view(r@).to_multiset() == totals_view(v@).to_multiset(),
{
    let mut r: Vec<(String, u64)> = Vec::new();
    let mut i: usize = 0;
    assert(totals_view(r@) =~= totals_view(v@).take(0));
    while i < v.len()
        invariant
            i <= v.len(),
            forall|a: int, b: int| 0 <= a < v@.len() && 0 <= b < v@.len() && a != b ==> (#[trigger] v@[a]).0@ != (#[trigger] v@[b]).0@,
            rank_sorted(totals_view(r@)),
            totals_view(r@).to_multiset() == totals_view(v@).take(i as int).to_multiset(),
        decreases v.len() - i,
    {
        let x = (v[i].0.clone(), v[i].1);
        let ghost xv = (x.0@, x.1);
        assert(totals_view(v@)[i as int] == xv);
        proof {
            // the tag value of x is new to r
            assert forall|k: int| 0 <= k < totals_view(r@).len() implies (#[trigger] totals_view(r@)[k]).0 != xv.0 by {
                let e = totals_view(r@)[k];
                to_multiset_contains(totals_view(r@), e);
                to_multiset_contains(totals_view(v@).take(i as int), e);
                assert(totals_view(r@).contains(e));
                let m = choose|m: int| 0 <= m < i && totals_view(v@).take(i as int)[m] == e;
                assert(totals_view(v@)[m] == e);
                assert(v@[m].0@ != v@[i as int].0@);
            }
        }
        let mut j: usize = 0;
        while j < r.len() && (r[j].1 > x.1 || (r[j].1 == x.1 && crate::text::str_lt(r[j].0.as_str(), x.0.as_str())))
            invariant
                j <= r.len(),
                xv == (x.0@, x.1),
                forall|k: int| 0 <= k < j ==> ranks_before(#[trigger] totals_view(r@)[k], xv),
            decreases r.len() - j,
        {
            assert(totals_view(r@)[j as int] == (r@[j as int].0@, r@[j as int].1));
            j = j + 1;
        }
        let ghost old_r = totals_view(r@);
        proof {
            if j < old_r.len() {
                assert(old_r[j as int] == (r@[j as int].0@, r@[j as int].1));
                lemma_ranks_total(old_r[j as int], xv);
            }
        }
        r.insert(j, x);
        assert(totals_view(r@) =~= old_r.insert(j as int, xv));
        proof {
            to_multiset_insert(old_r, j as int, xv);
            assert(totals_view(v@).take(i + 1) =~= totals_view(v@).take(i as int).push(xv));
            to_multiset_build(totals_view(v@).take(i as int), xv);
            let nr = totals_view(r@);
            assert forall|a: int, b: int| 0 <= a < b < nr.len() implies ranks_before(#[trigger] nr[a], #[trigger] nr[b]) by {
                if b < j {
                    assert(nr[a] == old_r[a] && nr[b] == old_r[b]);
                } else if b == j {
                    assert(nr[a] == old_r[a]);
                } else if a == j {
                    assert(nr[b] == old_r[b - 1]);
                    if b - 1 > j {
                        lemma_ranks_before_trans(xv, old_r[j as int], old_r[b - 1]);
                    }
                } else if a < j {
                    assert(nr[a] == old_r[a] && nr[b] == old_r[b - 1]);
                } else {
                    assert(nr[a] == old_r[a - 1] && nr[b] == old_r[b - 1]);
                }
            }
        }
        i = i + 1;
    }
    assert(totals_view(v@).take(i as int) =~= totals_view(v@));
    r
}

proof fn lemma_total_push(c: Seq<(Seq<char>, nat)>, e: (Seq<char>, nat), k: Seq<char>)
    ensures
        total_for(c.push(e), k) == total_for(c, k) + if e.0 == k {
            e.1
        } else {
            0
        },
{
    assert(c.push(e).drop_last() =~= c);
}

proof fn lemma_totals_update(t0: Seq<(Seq<char>, u64)>, c: Seq<(Seq<char>, nat)>, k: Seq<char>, n: nat, idx: int)
    requires
        totals_match(t0, c),
        0 <= idx < t0.len(),
        t0[idx].0 == k,
    ensures
        totals_match(
            t0.update(idx, (k, if t0[idx].1 + sat(n) > u64::MAX { u64::MAX } else { (t0[idx].1 + sat(n)) as u64 })),
            c.push((k, n)),
        ),
{
    let c2 = c.push((k, n));
    let v = if t0[idx].1 + sat(n) > u64::MAX { u64::MAX } else { (t0[idx].1 + sat(n)) as u64 };
    let nt = t0.update(idx, (k, v));
    assert forall|kk: Seq<char>| #[trigger] total_for(c2, kk) == total_for(c, kk) + if kk == k { n } else { 0 } by {
        lemma_total_push(c, (k, n), kk);
    }
    assert(c2[c.len() as int] == (k, n));
    assert forall|i: int, j: int| 0 <= i < nt.len() && 0 <= j < nt.len() && i != j implies (#[trigger] nt[i]).0 != (#[trigger] nt[j]).0 by {
        assert(nt[i].0 == t0[i].0 && nt[j].0 == t0[j].0);
    }
    assert forall|i: int| 0 <= i < nt.len() implies contributes(c2, (#[trigger] nt[i]).0) by {
        if i == idx {
            assert(c2[c.len() as int].0 == nt[i].0);
        } else {
            assert(nt[i] == t0[i]);
            let j = choose|j: int| 0 <= j < c.len() && (#[trigger] c[j]).0 == (#[trigger] t0[i]).0;
            assert(c2[j] == c[j]);
        }
    }
    assert forall|j: int| 0 <= j < c2.len() implies has_total(nt, (#[trigger] c2[j]).0) by {
        if j < c.len() {
            assert(c2[j] == c[j]);
            let i = choose|i: int| 0 <= i < t0.len() && (#[trigger] t0[i]).0 == (#[trigger] c[j]).0;
            assert(nt[i].0 == t0[i].0);
        } else {
            assert(nt[idx].0 == c2[j].0);
        }
    }
    assert forall|i: int| 0 <= i < nt.len() implies (#[trigger] nt[i]).1 == sat(total_for(c2, nt[i].0)) by {
        if i != idx {
            assert(nt[i] == t0[i]);
            assert(t0[i].0 != k);
        }
    }
}

proof fn lemma_totals_push(t0: Seq<(Seq<char>, u64)>, c: Seq<(Seq<char>, nat)>, k: Seq<char>, n: nat)
    requires
        totals_match(t0, c),
        forall|m: int| 0 <= m < t0.len() ==> (#[trigger] t0[m]).0 != k,
    ensures
        totals_match(t0.push((k, sat(n))), c.push((k, n))),
{
    let c2 = c.push((k, n));
    let nt = t0.push((k, sat(n)));
    assert forall|kk: Seq<char>| #[trigger] total_for(c2, kk) == total_for(c, kk) + if kk == k { n } else { 0 } by {
        lemma_total_push(c, (k, n), kk);
    }
    assert(c2[c.len() as int] == (k, n));
    assert forall|j: int| 0 <= j < c.len() implies (#[trigger] c[j]).0 != k by {
        let i = choose|i: int| 0 <= i < t0.len() && (#[trigger] t0[i]).0 == (#[trigger] c[j]).0;
    }
    lemma_total_absent(c, k);
    assert forall|i: int, j: int| 0 <= i < nt.len() && 0 <= j < nt.len() && i != j implies (#[trigger] nt[i]).0 != (#[trigger] nt[j]).0 by {
        if i < t0.len() && j < t0.len() {
            assert(nt[i] == t0[i] && nt[j] == t0[j]);
        } else if i < t0.len() {
            assert(nt[i] == t0[i]);
        } else {
            assert(nt[j] == t0[j]);
        }
    }
    assert forall|i: int| 0 <= i < nt.len() implies contributes(c2, (#[trigger] nt[i]).0) by {
        if i == t0.len() {
            assert(c2[c.len() as int].0 == nt[i].0);
        } else {
            assert(nt[i] == t0[i]);
            let j = choose|j: int| 0 <= j < c.len() && (#[trigger] c[j]).0 == (#[trigger] t0[i]).0;
            assert(c2[j] == c[j]);
        }
    }
    assert forall|j: int| 0 <= j < c2.len() implies has_total(nt, (#[trigger] c2[j]).0) by {
        if j < c.len() {
            assert(c2[j] == c[j]);
            let i = choose|i: int| 0 <= i < t0.len() && (#[trigger] t0[i]).0 == (#[trigger] c[j]).0;
            assert(nt[i].0 == t0[i].0);
        } else {
            assert(nt[t0.len() as int].0 == c2[j].0);
        }
    }
    assert forall|i: int| 0 <= i < nt.len() implies (#[trigger] nt[i]).1 == sat(total_for(c2, nt[i].0)) by {
        if i < t0.len() {
            assert(nt[i] == t0[i]);
            assert(t0[i].0 != k);
        }
    }
}

fn find_total(t: &Vec<(String, u64)>, k: &String) -> (idx: usize)
    ensures
        idx <= t.len(),
        idx < t.len() ==> totals_view(t@)[idx as int].0 == k@,
        forall|m: int| 0 <= m < idx ==> (#[trigger] totals_view(t@)[m]).0 != k@,
{
    let mut idx: usize = 0;
    while idx < t.len()
        invariant
            idx <= t.len(),
            forall|m: int| 0 <= m < idx ==> (#[trigger] totals_view(t@)[m]).0 != k@,
        decreases t.len() - idx,
    {
        assert(totals_view(t@)[idx as int] == (t@[idx as int].0@, t@[idx as int].1));
        if t[idx].0 == *k {
            return idx;
        }
        idx = idx + 1;
    }
    idx
}

/// Adds `x` (the saturated value of `n`) to the total of tag value `k`.
fn add_total(t: &mut Vec<(String, u64)>, k: &String, x: u64, Ghost(c): Ghost<Seq<(Seq<char>, nat)>>, Ghost(n): Ghost<nat>)
    requires
        totals_match(totals_view(old(t)@), c),
        x == sat(n),
    ensures
        totals_match(totals_view(final(t)@), c.push((k@, n))),
{
    let ghost t0 = totals_view(t@);
    let idx = find_total(t, k);
    if idx < t.len() {
        assert(t0[idx as int] == (t@[idx as int].0@, t@[idx as int].1));
        let v = sat_add(t[idx].1, x);
        proof {
            lemma_totals_update(t0, c, k@, n, idx as int);
        }
        t.set(idx, (k.clone(), v));
        assert(totals_view(t@) =~= t0.update(idx as int, (k@, v)));
    } else {
        proof {
            lemma_totals_push(t0, c, k@, n);
        }
        t.push((k.clone(), x));
        assert(totals_view(t@) =~= t0.push((k@, x)));
    }
}

proof fn lemma_totals_perm(tv: Seq<(Seq<char>, u64)>, full: Seq<(Seq<char>, u64)>, c: Seq<(Seq<char>, nat)>)
    requires
        totals_match(tv, c),
        rank_sorted(full),
        forall|i: int| 0 <= i < full.len() ==> tv.contains(#[trigger] full[i]),
        forall|i: int| 0 <= i < tv.len() ==> full.contains(#[trigger] tv[i]),
    ensures
        totals_match(full, c),
{
    assert forall|i: int, j: int| 0 <= i < full.len() && 0 <= j < full.len() && i != j implies (#[trigger] full[i]).0 != (#[trigger] full[j]).0 by {
        assert(tv.contains(full[i]) && tv.contains(full[j]));
        let a = choose|a: int| 0 <= a < tv.len() && tv[a] == full[i];
        let b = choose|b: int| 0 <= b < tv.len() && tv[b] == full[j];
        if full[i].0 == full[j].0 {
            assert(a == b);
            if i < j {
                assert(ranks_before(full[i], full[j]));
            } else {
                assert(ranks_before(full[j], full[i]));
            }
            crate::text::lemma_lex_irreflexive(full[i].0);
        }
    }
    assert forall|i: int| 0 <= i < full.len() implies contributes(c, (#[trigger] full[i]).0) by {
        assert(tv.contains(full[i]));
        let a = choose|a: int| 0 <= a < tv.len() && tv[a] == full[i];
        let j = choose|j: int| 0 <= j < c.len() && (#[trigger] c[j]).0 == (#[trigger] tv[a]).0;
        assert(c[j].0 == full[i].0);
    }
    assert forall|i: int| 0 <= i < full.len() implies (#[trigger] full[i]).1 == sat(total_for(c, full[i].0)) by {
        assert(tv.contains(full[i]));
        let a = choose|a: int| 0 <= a < tv.len() && tv[a] == full[i];
        assert(tv[a].1 == sat(total_for(c, tv[a].0)));
    }
    assert forall|j: int| 0 <= j < c.len() implies has_total(full, (#[trigger] c[j]).0) by {
        let a = choose|a: int| 0 <= a < tv.len() && (#[trigger] tv[a]).0 == (#[trigger] c[j]).0;
        assert(full.contains(tv[a]));
        let i = choose|i: int| 0 <= i < full.len() && full[i] == tv[a];
        assert(full[i].0 == c[j].0);
    }
}

impl WebMetricStorage {
    fn meta_get(&self, key: u64) -> (r: Option<&StrMap>)
        ensures
            r matches Some(t) ==> meta_of(self@.metadata, key) == Some(t@),
            r is None ==> meta_of(self@.metadata, key) is None,
    {
        let i = self.meta_index(key);
        if i < self.metadata.len() {
            assert(self@.metadata[i as int] == meta_v(self.metadata@[i as int]));
            Some(&self.metadata[i].tags)
        } else {
            None
        }
    }

    fn top_totals(&self, metric: &str, tag_key: &str, from_ms: i64, to_ms: i64) -> (r: Vec<(String, u64)>)
        ensures
            totals_match(totals_view(r@), contributions(self@, self@.series.filter(of_metric(metric@)), tag_key@, from_ms, to_ms)),
    {
        let ghost ss = self@.series;
        let ghost om = of_metric(metric@);
        let mut totals: Vec<(String, u64)> = Vec::new();
        let mut i: usize = 0;
        while i < self.series.len()
            invariant
                i <= self.series.len(),
                ss == self@.series,
                ss.len() == self.series.len(),
                om == of_metric(metric@),
                totals_match(totals_view(totals@), contributions(self@, ss.take(i as int).filter(om), tag_key@, from_ms, to_ms)),
            decreases self.series.len() - i,
        {
            let ghost t = ss.take(i + 1);
            assert(t.drop_last() =~= ss.take(i as int));
            assert(t.last() == ss[i as int]);
            reveal_with_fuel(Seq::<_>::filter, 1);
            let ghost f = ss.take(i as int).filter(om);
            let ghost c = contributions(self@, f, tag_key@, from_ms, to_ms);
            assert(ss[i as int] == series_v(self.series@[i as int]));
            if crate::text::str_eq(self.series[i].metric.as_str(), metric) {
                assert(f.push(ss[i as int]).drop_last() =~= f);
                assert(f.push(ss[i as int]).last() == ss[i as int]);
                match self.meta_get(self.series[i].key) {
                    Some(tags) => match tags.get(tag_key) {
                        Some(tv) => {
                            let x = sum_points(&self.series[i].points, from_ms, to_ms);
                            add_total(&mut totals, tv, x, Ghost(c), Ghost(sum_in_range(ss[i as int].2, from_ms, to_ms)));
                        },
                        None => {},
                    },
                    None => {},
                }
            }
            i = i + 1;
        }
        assert(ss.take(i as int) =~= ss);
        totals
    }

    /// The tag values of `tag_key` among the series of `metric`, each with
    /// the sum of its series' values in `[from_ms, to_ms]`, largest total
    /// first (ties by tag value), at most `limit` of them.
    pub fn query_top(&self, metric: &str, tag_key: &str, from_ms: i64, to_ms: i64, limit: usize) -> (r: Vec<(String, u64)>)
        ensures
            exists|full: Seq<(Seq<char>, u64)>|
                {
                    &&& totals_match(full, contributions(self@, self@.series.filter(of_metric(metric@)), tag_key@, from_ms, to_ms))
                    &&& rank_sorted(full)
                    &&& totals_view(r@) == if limit < full.len() { full.take(limit as int) } else { full }
                },
    {
        let ghost c = contributions(self@, self@.series.filter(of_metric(metric@)), tag_key@, from_ms, to_ms);
        let totals = self.top_totals(metric, tag_key, from_ms, to_ms);
        let ghost tv = totals_view(totals@);
        assert forall|i: int, j: int| 0 <= i < totals@.len() && 0 <= j < totals@.len() && i != j implies (#[trigger] totals@[i]).0@ != (#[trigger] totals@[j]).0@ by {
            assert(tv[i].0 == totals@[i].0@ && tv[j].0 == totals@[j].0@);
        }
        let mut sorted = rank_sort(&totals);
        let ghost full = totals_view(sorted@);
        proof {
            assert forall|i: int| 0 <= i < full.len() implies tv.contains(#[trigger] full[i]) by {
                to_multiset_contains(full, full[i]);
                to_multiset_contains(tv, full[i]);
                assert(full.contains(full[i]));
            }
            assert forall|i: int| 0 <= i < tv.len() implies full.contains(#[trigger] tv[i]) by {
                to_multiset_contains(full, tv[i]);
                to_multiset_contains(tv, tv[i]);
                assert(tv.contains(tv[i]));
            }
            lemma_totals_perm(tv, full, c);
        }
        sorted.truncate(limit);
        assert(totals_view(sorted@) =~= if limit < full.len() { full.take(limit as int) } else { full });
        sorted
    }
}

// ---------------------------------------------------------------------
// Garbage collection, snapshots and views for the server
// ---------------------------------------------------------------------

pub open spec fn trim_series(min_ts: i64) -> spec_fn(SeriesView) -> SeriesView {
    |s: SeriesView| (s.0, s.1, drop_old(s.2, min_ts))
}

pub open spec fn nonempty_series() -> spec_fn(SeriesView) -> bool {
    |s: SeriesView| s.2.len() > 0
}

/// The series without their points older than `min_ts`, and without those
/// left with none.
pub open spec fn gc_series(ss: Seq<SeriesView>, min_ts: i64) -> Seq<SeriesView> {
    ss.map_values(trim_series(min_ts)).filter(nonempty_series())
}

/// Some series has key `key`.
pub open spec fn key_alive(ss: Seq<SeriesView>, key: u64) -> bool {
    exists|i: int| 0 <= i < ss.len() && (#[trigger] ss[i]).1 == key
}

pub open spec fn meta_alive(ss: Seq<SeriesView>) -> spec_fn(MetaView) -> bool {
    |m: MetaView| key_alive(ss, m.0)
}

pub open spec fn ref_alive(ss: Seq<SeriesView>) -> spec_fn(TagRefView) -> bool {
    |t: TagRefView| key_alive(ss, t.2)
}

/// The storage after dropping what is older than the retention before `now`:
/// old points, series left empty, and the metadata and index entries of keys
/// that no series has any more.
pub open spec fn spec_gc(v: StorageView, now: i64) -> StorageView {
    let ss = gc_series(v.series, min_keep(now, v.retention_seconds));
    StorageView {
        series: ss,
        metadata: v.metadata.filter(meta_alive(ss)),
        tag_index: v.tag_index.filter(ref_alive(ss)),
        max_points: v.max_points,
        retention_seconds: v.retention_seconds,
    }
}

/// Whether `now - retention` fits in an `i64`.
pub open spec fn gc_fits(v: StorageView, now: i64) -> bool {
    i64::MIN <= now - v.retention_seconds * 1000 <= i64::MAX
}

/// A series as saved: metric name, tags and points.
pub type SnapView = (Seq<char>, Entries, Seq<MetricPoint>);

pub open spec fn snap_view(s: WebMetricSeriesSnapshot) -> SnapView {
    (s.metric@, s.tags@, s.points@)
}

pub open spec fn snaps_view(s: Seq<WebMetricSeriesSnapshot>) -> Seq<SnapView> {
    s.map_values(|x: WebMetricSeriesSnapshot| snap_view(x))
}

/// The series that have recorded tags, with those tags.
pub open spec fn spec_snapshot_series(v: StorageView, ss: Seq<SeriesView>) -> Seq<SnapView>
    decreases ss.len(),
{
    if ss.len() == 0 {
        Seq::empty()
    } else {
        let rest = spec_snapshot_series(v, ss.drop_last());
        match meta_of(v.metadata, ss.last().1) {
            Some(tags) => rest.push((ss.last().0, tags, ss.last().2)),
            None => rest,
        }
    }
}

/// The series that have recorded tags and points in `[from, to]`, with
/// those tags and points.
pub open spec fn spec_series_in_range(v: StorageView, ss: Seq<SeriesView>, from: i64, to: i64) -> Seq<SnapView>
    decreases ss.len(),
{
    if ss.len() == 0 {
        Seq::empty()
    } else {
        let rest = spec_series_in_range(v, ss.drop_last(), from, to);
        let pts = ss.last().2.filter(in_range(from, to));
        match meta_of(v.metadata, ss.last().1) {
            Some(tags) => if pts.len() > 0 {
                rest.push((ss.last().0, tags, pts))
            } else {
                rest
            },
            None => rest,
        }
    }
}

/// The series that have recorded tags and a non-zero sum in `[from, to]`,
/// with those tags and the sum.
pub open spec fn spec_series_totals(v: StorageView, ss: Seq<SeriesView>, from: i64, to: i64) -> Seq<(Seq<char>, Entries, u64)>
    decreases ss.len(),
{
    if ss.len() == 0 {
        Seq::empty()
    } else {
        let rest = spec_series_totals(v, ss.drop_last(), from, to);
        let total = sat(sum_in_range(ss.last().2, from, to));
        match meta_of(v.metadata, ss.last().1) {
            Some(tags) => if total > 0 {
                rest.push((ss.last().0, tags, total))
            } else {
                rest
            },
            None => rest,
        }
    }
}

pub open spec fn set_meta(m: Seq<MetaView>, key: u64, tags: Entries) -> Seq<MetaView> {
    let i = first_index(m, meta_is(key));
    if i < m.len() {
        m.update(i, (key, tags))
    } else {
        m.push((key, tags))
    }
}

/// The storage after putting back a saved series: its tags recorded (in
/// place of any recorded before) and indexed, its points in place of any
/// the series had.
pub open spec fn spec_restore_series(v: StorageView, s: SnapView) -> StorageView {
    let key = series_key(s.0, s.1);
    StorageView {
        series: set_series(v.series, s.0, key, s.2),
        metadata: set_meta(v.metadata, key, s.1),
        tag_index: add_refs(v.tag_index, s.1, key),
        max_points: v.max_points,
        retention_seconds: v.retention_seconds,
    }
}

pub open spec fn restore_all(v: StorageView, snaps: Seq<SnapView>) -> StorageView
    decreases snaps.len(),
{
    if snaps.len() == 0 {
        v
    } else {
        spec_restore_series(restore_all(v, snaps.drop_last()), snaps.last())
    }
}

pub open spec fn empty_storage(max_points: usize, retention_seconds: i64) -> StorageView {
    StorageView {
        series: Seq::empty(),
        metadata: Seq::empty(),
        tag_index: Seq::empty(),
        max_points,
        retention_seconds,
    }
}

pub proof fn lemma_trim_distinct(ss: Seq<SeriesView>, min_ts: i64)
    requires
        distinct_by(ss, |s: SeriesView| series_id(s)),
    ensures
        distinct_by(ss.map_values(trim_series(min_ts)), |s: SeriesView| series_id(s)),
{
    let t = ss.map_values(trim_series(min_ts));
    assert forall|x: int, y: int| 0 <= x < t.len() && 0 <= y < t.len() && x != y implies series_id(#[trigger] t[x]) != series_id(#[trigger] t[y]) by {
        assert(series_id(t[x]) == series_id(ss[x]));
        assert(series_id(t[y]) == series_id(ss[y]));
    }
}

fn keys_alive(series: &Vec<Series>, key: u64) -> (b: bool)
    ensures
        b == key_alive(series@.map_values(|s: Series| series_v(s)), key),
{
    let ghost ss = series@.map_values(|s: Series| series_v(s));
    let mut i: usize = 0;
    while i < series.len()
        invariant
            i <= series.len(),
            ss == series@.map_values(|s: Series| series_v(s)),
            forall|j: int| 0 <= j < i ==> (#[trigger] ss[j]).1 != key,
        decreases series.len() - i,
    {
        assert(ss[i as int] == series_v(series@[i as int]));
        if series[i].key == key {
            assert(ss[i as int].1 == key);
            return true;
        }
        i = i + 1;
    }
    false
}

impl WebMetricStorage {
    /// Drops the points older than `now - retention`, the series left without
    /// points, and the metadata and index entries of keys without a series.
    pub fn perform_gc(&mut self, now: i64)
        requires
            gc_fits(old(self)@, now),
        ensures
            final(self)@ == spec_gc(old(self)@, now),
            storage_wf(final(self)@),
    {
        proof {
            use_type_invariant(&*self);
        }
        let ghost v0 = self@;
        let min_ts: i64 = now - self.retention_seconds * 1000;
        let ghost tr = trim_series(min_ts);
        let ghost ne = nonempty_series();
        let mut kept: Vec<Series> = Vec::new();
        let mut i: usize = 0;
        while i < self.series.len()
            invariant
                i <= self.series.len(),
                self@ == v0,
                v0.series.len() == self.series.len(),
                tr == trim_series(min_ts),
                ne == nonempty_series(),
                kept@.map_values(|s: Series| series_v(s)) == v0.series.take(i as int).map_values(tr).filter(ne),
            decreases self.series.len() - i,
        {
            let ghost t = v0.series.take(i + 1).map_values(tr);
            assert(t.drop_last() =~= v0.series.take(i as int).map_values(tr));
            assert(v0.series[i as int] == series_v(self.series@[i as int]));
            assert(t.last() == tr(v0.series[i as int]));
            reveal_with_fuel(Seq::<_>::filter, 1);
            let mut pts = copy_points(&self.series[i].points);
            drop_old_points(&mut pts, min_ts);
            if pts.len() > 0 {
                let ns = Series { metric: self.series[i].metric.clone(), key: self.series[i].key, points: pts };
                let ghost before = kept@;
                kept.push(ns);
                assert(kept@ == before.push(ns));
                assert(kept@.map_values(|s: Series| series_v(s)) =~= before.map_values(|s: Series| series_v(s)).push(series_v(ns)));
            }
            i = i + 1;
        }
        assert(v0.series.take(i as int) =~= v0.series);
        let ghost ss = gc_series(v0.series, min_ts);
        assert(kept@.map_values(|s: Series| series_v(s)) == ss);
        let mut metas: Vec<Meta> = Vec::new();
        let mut j: usize = 0;
        while j < self.metadata.len()
            invariant
                j <= self.metadata.len(),
                self@ == v0,
                v0.metadata.len() == self.metadata.len(),
                kept@.map_values(|s: Series| series_v(s)) == ss,
                metas@.map_values(|m: Meta| meta_v(m)) == v0.metadata.take(j as int).filter(meta_alive(ss)),
            decreases self.metadata.len() - j,
        {
            let ghost t = v0.metadata.take(j + 1);
            assert(t.drop_last() =~= v0.metadata.take(j as int));
            assert(v0.metadata[j as int] == meta_v(self.metadata@[j as int]));
            assert(t.last() == v0.metadata[j as int]);
            reveal_with_fuel(Seq::<_>::filter, 1);
            if keys_alive(&kept, self.metadata[j].key) {
                let nm = Meta { key: self.metadata[j].key, tags: self.metadata[j].tags.clone_map() };
                let ghost before = metas@;
                metas.push(nm);
                assert(metas@ == before.push(nm));
                assert(metas@.map_values(|m: Meta| meta_v(m)) =~= before.map_values(|m: Meta| meta_v(m)).push(meta_v(nm)));
            }
            j = j + 1;
        }
        assert(v0.metadata.take(j as int) =~= v0.metadata);
        let mut refs: Vec<TagRef> = Vec::new();
        let mut k: usize = 0;
        while k < self.tag_index.len()
            invariant
                k <= self.tag_index.len(),
                self@ == v0,
                v0.tag_index.len() == self.tag_index.len(),
                kept@.map_values(|s: Series| series_v(s)) == ss,
                refs@.map_values(|t: TagRef| ref_v(t)) == v0.tag_index.take(k as int).filter(ref_alive(ss)),
            decreases self.tag_index.len() - k,
        {
            let ghost t = v0.tag_index.take(k + 1);
            assert(t.drop_last() =~= v0.tag_index.take(k as int));
            assert(v0.tag_index[k as int] == ref_v(self.tag_index@[k as int]));
            assert(t.last() == v0.tag_index[k as int]);
            reveal_with_fuel(Seq::<_>::filter, 1);
            if keys_alive(&kept, self.tag_index[k].key) {
                let nr = TagRef { tag: self.tag_index[k].tag.clone(), value: self.tag_index[k].value.clone(), key: self.tag_index[k].key };
                let ghost before = refs@;
                refs.push(nr);
                assert(refs@ == before.push(nr));
                assert(refs@.map_values(|t: TagRef| ref_v(t)) =~= before.map_values(|t: TagRef| ref_v(t)).push(ref_v(nr)));
            }
            k = k + 1;
        }
        assert(v0.tag_index.take(k as int) =~= v0.tag_index);
        proof {
            lemma_trim_distinct(v0.series, min_ts);
            lemma_distinct_filter(v0.series.map_values(tr), |s: SeriesView| series_id(s), ne);
            lemma_distinct_filter(v0.metadata, |m: MetaView| meta_id(m), meta_alive(ss));
            lemma_distinct_filter(v0.tag_index, |t: TagRefView| ref_id(t), ref_alive(ss));
        }
        self.series = kept;
        self.metadata = metas;
        self.tag_index = refs;
        proof {
            use_type_invariant(&*self);
        }
    }

    fn set_metadata(&mut self, key: u64, tags: StrMap)
        requires
            tags_indexed(old(self)@.tag_index, tags@, key),
        ensures
            final(self)@ == (StorageView { metadata: set_meta(old(self)@.metadata, key, tags@), ..old(self)@ }),
    {
        proof {
            use_type_invariant(&*self);
        }
        let ghost v0 = self@;
        let ghost tv = tags@;
        let i = self.meta_index(key);
        proof {
            lemma_first_index(v0.metadata, meta_is(key));
        }
        let mut m: Vec<Meta> = Vec::new();
        std::mem::swap(&mut m, &mut self.metadata);
        let ghost m0 = m@;
        let nm = Meta { key, tags };
        if i < m.len() {
            proof {
                lemma_distinct_update(v0.metadata, |x: MetaView| meta_id(x), i as int, (key, tv));
            }
            m.set(i, nm);
            assert(m@.map_values(|x: Meta| meta_v(x)) =~= m0.map_values(|x: Meta| meta_v(x)).update(i as int, (key, tv)));
            proof {
                let nmv = v0.metadata.update(i as int, (key, tv));
                assert forall|j: int| 0 <= j < nmv.len() implies tags_indexed(v0.tag_index, (#[trigger] nmv[j]).1, nmv[j].0) by {
                    if j != i {
                        assert(nmv[j] == v0.metadata[j]);
                    }
                }
            }
        } else {
            proof {
                lemma_distinct_push(v0.metadata, |x: MetaView| meta_id(x), (key, tv));
            }
            m.push(nm);
            assert(m@.map_values(|x: Meta| meta_v(x)) =~= m0.map_values(|x: Meta| meta_v(x)).push((key, tv)));
            proof {
                let nmv = v0.metadata.push((key, tv));
                assert forall|j: int| 0 <= j < nmv.len() implies tags_indexed(v0.tag_index, (#[trigger] nmv[j]).1, nmv[j].0) by {
                    if j < v0.metadata.len() {
                        assert(nmv[j] == v0.metadata[j]);
                    }
                }
            }
        }
        self.metadata = m;
    }

    fn set_series_points(&mut self, metric: String, key: u64, points: VecDeque<MetricPoint>)
        ensures
            final(self)@ == (StorageView { series: set_series(old(self)@.series, metric@, key, points@), ..old(self)@ }),
    {
        proof {
            use_type_invariant(&*self);
        }
        let ghost v0 = self@;
        let ghost mv = metric@;
        let ghost pv = points@;
        let si = self.series_index(&metric, key);
        proof {
            lemma_first_index(v0.series, series_is(mv, key));
        }
        let mut ss: Vec<Series> = Vec::new();
        std::mem::swap(&mut ss, &mut self.series);
        let ghost s0 = ss@;
        let ns = Series { metric, key, points };
        assert(series_v(ns) == (mv, key, pv));
        if si < ss.len() {
            proof {
                lemma_distinct_update(v0.series, |s: SeriesView| series_id(s), si as int, (mv, key, pv));
            }
            ss.set(si, ns);
            assert(ss@.map_values(|x: Series| series_v(x)) =~= s0.map_values(|x: Series| series_v(x)).update(si as int, (mv, key, pv)));
        } else {
            proof {
                lemma_distinct_push(v0.series, |s: SeriesView| series_id(s), (mv, key, pv));
            }
            ss.push(ns);
            assert(ss@.map_values(|x: Series| series_v(x)) =~= s0.map_values(|x: Series| series_v(x)).push((mv, key, pv)));
        }
        self.series = ss;
    }

    /// Puts back a saved series.
    pub fn restore_series(&mut self, series: &WebMetricSeriesSnapshot)
        ensures
            final(self)@ == spec_restore_series(old(self)@, snap_view(*series)),
            storage_wf(final(self)@),
    {
        let key = Self::make_series_key(series.metric.as_str(), &series.tags);
        let tags_copy = series.tags.clone_map();
        let ghost t0 = self@.tag_index;
        self.add_tag_refs(&series.tags, key);
        proof {
            lemma_add_refs_grows(t0, series.tags@, key);
        }
        self.set_metadata(key, tags_copy);
        let mut deque: VecDeque<MetricPoint> = VecDeque::new();
        let mut i: usize = 0;
        while i < series.points.len()
            invariant
                i <= series.points.len(),
                deque@ == series.points@.take(i as int),
            decreases series.points.len() - i,
        {
            deque.push_back(series.points[i]);
            i = i + 1;
            assert(deque@ =~= series.points@.take(i as int));
        }
        assert(series.points@.take(i as int) =~= series.points@);
        self.set_series_points(series.metric.clone(), key, deque);
        proof {
            use_type_invariant(&*self);
        }
    }

    /// A storage holding the saved series, collected at `now`.
    pub fn restore(snapshot: WebMetricStorageSnapshot, max_points: usize, retention_seconds: i64, now: i64) -> (r: Self)
        requires
            -max_retention_seconds() <= retention_seconds <= max_retention_seconds(),
            i64::MIN <= now - retention_seconds * 1000 <= i64::MAX,
        ensures
            r@ == spec_gc(restore_all(empty_storage(max_points, retention_seconds), snaps_view(snapshot.series@)), now),
            storage_wf(r@),
    {
        let mut storage = Self::new(max_points, retention_seconds);
        let ghost e = empty_storage(max_points, retention_seconds);
        assert(storage@ == e);
        let ghost sv = snaps_view(snapshot.series@);
        let mut done: usize = 0;
        while done < snapshot.series.len()
            invariant
                done <= snapshot.series.len(),
                sv == snaps_view(snapshot.series@),
                storage@ == restore_all(e, sv.take(done as int)),
                storage@.retention_seconds == retention_seconds,
            decreases snapshot.series.len() - done,
        {
            storage.restore_series(&snapshot.series[done]);
            let ghost t = sv.take(done + 1);
            assert(t.drop_last() =~= sv.take(done as int));
            assert(t.last() == sv[done as int]);
            done = done + 1;
        }
        assert(sv.take(done as int) =~= sv);
        storage.perform_gc(now);
        proof {
            use_type_invariant(&storage);
        }
        storage
    }

    /// The series that have recorded tags, with those tags and their points,
    /// after collecting at `now`.
    pub fn snapshot(&mut self, now: i64) -> (r: WebMetricStorageSnapshot)
        requires
            gc_fits(old(self)@, now),
        ensures
            final(self)@ == spec_gc(old(self)@, now),
            snaps_view(r.series@) == spec_snapshot_series(final(self)@, final(self)@.series),
            storage_wf(final(self)@),
    {
        self.perform_gc(now);
        let ghost v = self@;
        let mut out: Vec<WebMetricSeriesSnapshot> = Vec::new();
        let mut i: usize = 0;
        while i < self.series.len()
            invariant
                i <= self.series.len(),
                self@ == v,
                v.series.len() == self.series.len(),
                snaps_view(out@) == spec_snapshot_series(v, v.series.take(i as int)),
            decreases self.series.len() - i,
        {
            let ghost t = v.series.take(i + 1);
            assert(t.drop_last() =~= v.series.take(i as int));
            assert(v.series[i as int] == series_v(self.series@[i as int]));
            assert(t.last() == v.series[i as int]);
            match self.meta_get(self.series[i].key) {
                Some(tags) => {
                    let mut pts: Vec<MetricPoint> = Vec::new();
                    let mut j: usize = 0;
                    while j < self.series[i].points.len()
                        invariant
                            i < self.series.len(),
                            j <= self.series@[i as int].points@.len(),
                            pts@ == self.series@[i as int].points@.take(j as int),
                        decreases self.series@[i as int].points@.len() - j,
                    {
                        pts.push(self.series[i].points[j]);
                        j = j + 1;
                        assert(pts@ =~= self.series@[i as int].points@.take(j as int));
                    }
                    assert(self.series@[i as int].points@.take(j as int) =~= self.series@[i as int].points@);
                    let sn = WebMetricSeriesSnapshot { metric: self.series[i].metric.clone(), tags: tags.clone_map(), points: pts };
                    let ghost before = out@;
                    out.push(sn);
                    assert(out@ == before.push(sn));
                    assert(snaps_view(out@) =~= snaps_view(before).push(snap_view(sn)));
                },
                None => {},
            }
            i = i + 1;
        }
        assert(v.series.take(i as int) =~= v.series);
        proof {
            use_type_invariant(&*self);
        }
        WebMetricStorageSnapshot { series: out }
    }

    /// The series that have recorded tags and points in `[from_ms, to_ms]`,
    /// with those tags and points.
    pub fn series_in_range(&self, from_ms: i64, to_ms: i64) -> (r: Vec<WebMetricSeriesSnapshot>)
        ensures
            snaps_view(r@) == spec_series_in_range(self@, self@.series, from_ms, to_ms),
    {
        let ghost v = self@;
        let mut out: Vec<WebMetricSeriesSnapshot> = Vec::new();
        let mut i: usize = 0;
        while i < self.series.len()
            invariant
                i <= self.series.len(),
                self@ == v,
                v.series.len() == self.series.len(),
                snaps_view(out@) == spec_series_in_range(v, v.series.take(i as int), from_ms, to_ms),
            decreases self.series.len() - i,
        {
            let ghost t = v.series.take(i + 1);
            assert(t.drop_last() =~= v.series.take(i as int));
            assert(v.series[i as int] == series_v(self.series@[i as int]));
            assert(t.last() == v.series[i as int]);
            match self.meta_get(self.series[i].key) {
                Some(tags) => {
                    let pts = points_in_range(&self.series[i].points, from_ms, to_ms);
                    if pts.len() > 0 {
                        let sn = WebMetricSeriesSnapshot { metric: self.series[i].metric.clone(), tags: tags.clone_map(), points: pts };
                        let ghost before = out@;
                        out.push(sn);
                        assert(out@ == before.push(sn));
                        assert(snaps_view(out@) =~= snaps_view(before).push(snap_view(sn)));
                    }
                },
                None => {},
            }
            i = i + 1;
        }
        assert(v.series.take(i as int) =~= v.series);
        out
    }

    /// The series that have recorded tags and a non-zero sum in
    /// `[from_ms, to_ms]`: metric name, tags and sum.
    pub fn series_totals(&self, from_ms: i64, to_ms: i64) -> (r: Vec<(String, StrMap, u64)>)
        ensures
            r@.map_values(|x: (String, StrMap, u64)| (x.0@, x.1@, x.2)) == spec_series_totals(self@, self@.series, from_ms, to_ms),
    {
        let ghost v = self@;
        let mut out: Vec<(String, StrMap, u64)> = Vec::new();
        let mut i: usize = 0;
        while i < self.series.len()
            invariant
                i <= self.series.len(),
                self@ == v,
                v.series.len() == self.series.len(),
                out@.map_values(|x: (String, StrMap, u64)| (x.0@, x.1@, x.2)) == spec_series_totals(v, v.series.take(i as int), from_ms, to_ms),
            decreases self.series.len() - i,
        {
            let ghost t = v.series.take(i + 1);
            assert(t.drop_last() =~= v.series.take(i as int));
            assert(v.series[i as int] == series_v(self.series@[i as int]));
            assert(t.last() == v.series[i as int]);
            match self.meta_get(self.series[i].key) {
                Some(tags) => {
                    let total = sum_points(&self.series[i].points, from_ms, to_ms);
                    if total > 0 {
                        let e = (self.series[i].metric.clone(), tags.clone_map(), total);
                        let ghost before = out@;
                        out.push(e);
                        assert(out@ == before.push(e));
                        assert(out@.map_values(|x: (String, StrMap, u64)| (x.0@, x.1@, x.2)) =~= before.map_values(|x: (String, StrMap, u64)| (x.0@, x.1@, x.2)).push((e.0@, e.1@, e.2)));
                    }
                },
                None => {},
            }
            i = i + 1;
        }
        assert(v.series.take(i as int) =~= v.series);
        out
    }
}

} // verus!
