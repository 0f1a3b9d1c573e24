use vstd::prelude::*;

use crate::agent::{all_digits, spec_parse_offset, trim, trim_end_pos, trim_start_pos};
use crate::aggregator::{
    CellView,
    base_increments,
    bump,
    bump_all,
    cell_id,
    cell_index,
    cells_distinct,
    count_of,
    extra_increments,
    fold_tag_pieces,
    lemma_bump_all_append,
    lemma_bump_all_push,
    lemma_cell_index,
    lemma_filter_distinct,
    lemma_empty_tags_key,
    max_bucket_minutes,
    opt_increment,
    referer_increments,
    retention_ms,
    sat_inc,
    spec_bucket_time,
    spec_normalize_page,
    spec_tags_from_key,
    tag_part,
    tag_parts,
    tags_key,
    trunc_div,
    visit_increments,
    within_retention,
    after_time,
    slash,
};
use crate::parser::{ParsedLineView, PixelEventView, digit_value, digits_value, spec_parse_line, spec_pixel_event};
use crate::server::{decimal, digit_char, name_char_ok, spec_sanitize_name};
use crate::seqs::{distinct_by, first_index, lemma_first_index, lead_count, lemma_lead_count};
use crate::web_storage::{
    spec_series_in_range,
    spec_series_totals,
    gc_series,
    meta_alive,
    nonempty_series,
    ref_alive,
    trim_series,
    lemma_add_ref_grows,
    set_meta,
    MetaView,
    lemma_add_refs_grows,
    meta_is,
    storage_wf,
    tags_indexed,
    TagRefView,
    add_ref,
    add_refs,
    has_meta,
    selects,
    spec_query_sum,
    sum_in_range,
    sum_series,
    MetricPoint,
    SeriesView,
    StorageView,
    drop_old,
    empty_storage,
    key_alive,
    keep_last,
    meta_of,
    min_keep,
    older_than,
    point_at,
    restore_all,
    series_id,
    series_is,
    series_key,
    series_points,
    set_series,
    spec_gc,
    spec_insert,
    spec_restore_series,
    spec_snapshot_series,
    upsert_point,
};
use crate::strmap::{Entries, find_key, insert_entry, keys_sorted, lemma_find_key_sorted, lemma_insert_entry};
use crate::text::{after_char, before_char, eq_ignore_ascii_case, is_ascii_digit, is_ws, join_with, lex_lt, lemma_lex_irreflexive, lemma_lex_total, lemma_scan_while_bounds, lemma_sorted_strs_exists, not_char, scan_while, sorted_strs, split_from, split_on};
use vstd::seq_lib::{to_multiset_contains, to_multiset_len};

verus! {

// =====================================================================
// Parsing
// =====================================================================

/// The page of a pixel event never holds a query string: everything from
/// the first `?` on is cut off.
pub proof fn law_page_has_no_query_string(line: Seq<char>)
    ensures
        spec_parse_line(line) matches Some(p) ==> (spec_pixel_event(p) matches Some(e) ==> !e.page.contains('?')),
{
    if let Some(p) = spec_parse_line(line) {
        if let Some(e) = spec_pixel_event(p) {
            let x = crate::parser::get_or(p.query, "page"@, Seq::empty());
            lemma_scan_while_bounds(x, 0, not_char('?'));
            let j = scan_while(x, 0, not_char('?'));
            assert forall|i: int| 0 <= i < e.page.len() implies e.page[i] != '?' by {
                assert(e.page[i] == x[i]);
                assert(not_char('?')(x[i]));
            }
        }
    }
}

/// A line reports a pixel event exactly when it is a `GET` of `/pixel` (the
/// path compared without ASCII case) answered with status 200; the event
/// keeps the line's time stamp and client address.
pub proof fn law_only_pixel_hits_count(p: ParsedLineView)
    ensures
        spec_pixel_event(p) is Some <==> (p.method == "GET"@ && eq_ignore_ascii_case(p.path, "/pixel"@) && p.status
            == 200),
        spec_pixel_event(p) matches Some(e) ==> e.timestamp == p.timestamp && e.ip == p.remote_addr,
{
    reveal_strlit("GET");
    reveal_strlit("/pixel");
    assert("GET"@ =~= seq!['G', 'E', 'T']);
    assert("/pixel"@ =~= seq!['/', 'p', 'i', 'x', 'e', 'l']);
}

/// The query parameter `name`, or `d` where the query has none.
pub open spec fn param_or(q: Entries, name: Seq<char>, d: Seq<char>) -> Seq<char> {
    match find_key(q, name) {
        Some(v) => v,
        None => d,
    }
}

/// What a pixel event holds, field by field, of the parsed line: its time
/// and client address and user agent; the host parameter (`direct` where
/// there is none); the `ref` parameter as referer (the line's referer where
/// there is none) and that referer's domain; the language and each UTM
/// field from the query parameter of its own name (empty where there is
/// none); and as page the `page` parameter up to its first `?`.
pub proof fn law_pixel_event_fields(p: ParsedLineView)
    ensures
        spec_pixel_event(p) matches Some(e) ==> {
            let raw = param_or(p.query, "page"@, Seq::empty());
            &&& e.timestamp == p.timestamp
            &&& e.ip == p.remote_addr
            &&& e.user_agent == p.user_agent
            &&& e.host == param_or(p.query, "host"@, "direct"@)
            &&& e.referer == param_or(p.query, "ref"@, p.referer)
            &&& e.referer_domain == crate::parser::spec_extract_domain(e.referer)
            &&& e.lang == param_or(p.query, "lang"@, Seq::empty())
            &&& e.utm_source == param_or(p.query, "utm_source"@, Seq::empty())
            &&& e.utm_medium == param_or(p.query, "utm_medium"@, Seq::empty())
            &&& e.utm_campaign == param_or(p.query, "utm_campaign"@, Seq::empty())
            &&& e.utm_content == param_or(p.query, "utm_content"@, Seq::empty())
            &&& e.utm_term == param_or(p.query, "utm_term"@, Seq::empty())
            &&& e.page.len() <= raw.len()
            &&& e.page == raw.subrange(0, e.page.len() as int)
            &&& !e.page.contains('?')
            &&& (e.page.len() == raw.len() || raw[e.page.len() as int] == '?')
        },
{
    reveal_strlit("direct");
    assert("direct"@ =~= crate::parser::direct_chars());
    if let Some(e) = spec_pixel_event(p) {
        let raw = param_or(p.query, "page"@, Seq::empty());
        assert(raw == crate::parser::get_or(p.query, "page"@, Seq::empty()));
        lemma_scan_while_bounds(raw, 0, not_char('?'));
        let j = scan_while(raw, 0, not_char('?'));
        assert(e.page == raw.subrange(0, j));
        assert(e.page.len() == j);
        assert(e.page == raw.subrange(0, e.page.len() as int));
        assert forall|i: int| 0 <= i < e.page.len() implies e.page[i] != '?' by {
            assert(e.page[i] == raw[i]);
            assert(not_char('?')(raw[i]));
        }
        if j < raw.len() {
            assert(!not_char('?')(raw[j]));
        }
    }
}

// =====================================================================
// Buckets and counters
// =====================================================================

/// The bucket of a time stamp starts at a multiple of the bucket length and
/// holds the time stamp: at or before it for times from the epoch on, at or
/// after it before the epoch (division rounds toward zero).
pub proof fn law_bucket_holds_time(ts: i64, minutes: u64)
    requires
        1 <= minutes <= max_bucket_minutes(),
    ensures
        ({
            let b = spec_bucket_time(ts, minutes) as int;
            let iv = minutes * 60000;
            &&& b % iv == 0
            &&& ts >= 0 ==> b <= ts < b + iv
            &&& ts < 0 ==> b - iv < ts <= b
        }),
{
    let iv = minutes * 60000;
    let t = ts as int;
    if t >= 0 {
        lemma_floor_parts(t, iv);
        assert(trunc_div(t, iv) == t / iv);
    } else {
        lemma_floor_parts(-t, iv);
        let q = (-t) / iv;
        assert(trunc_div(t, iv) == -q);
        vstd::arithmetic::mul::lemma_mul_unary_negation(q, iv);
        vstd::arithmetic::div_mod::lemma_mod_multiples_basic(-q, iv);
    }
}

proof fn lemma_floor_parts(t: int, iv: int)
    requires
        t >= 0,
        iv > 0,
    ensures
        0 <= (t / iv) * iv <= t < (t / iv) * iv + iv,
        ((t / iv) * iv) % iv == 0,
{
    vstd::arithmetic::div_mod::lemma_fundamental_div_mod(t, iv);
    vstd::arithmetic::div_mod::lemma_mod_pos_bound(t, iv);
    vstd::arithmetic::div_mod::lemma_div_pos_is_pos(t, iv);
    vstd::arithmetic::mul::lemma_mul_nonnegative(t / iv, iv);
    vstd::arithmetic::mul::lemma_mul_is_commutative(t / iv, iv);
    vstd::arithmetic::div_mod::lemma_mod_multiples_basic(t / iv, iv);
}

proof fn lemma_bump_count(s: Seq<CellView>, b: i64, n: Seq<char>, k: Seq<char>, b2: i64, n2: Seq<char>, k2: Seq<char>)
    ensures
        count_of(bump(s, b, n, k), b2, n2, k2) == if (b, n, k) == (b2, n2, k2) {
            sat_inc(count_of(s, b2, n2, k2) as u64) as nat
        } else {
            count_of(s, b2, n2, k2)
        },
{
    lemma_cell_index(s, b, n, k);
    lemma_cell_index(s, b2, n2, k2);
    let r = bump(s, b, n, k);
    lemma_cell_index(r, b2, n2, k2);
    let i = cell_index(s, b, n, k);
    let i2 = cell_index(s, b2, n2, k2);
    let j2 = cell_index(r, b2, n2, k2);
    if (b, n, k) == (b2, n2, k2) {
        if i < s.len() {
            assert(cell_id(r[i]) == (b, n, k));
            if j2 < i {
                assert(r[j2] == s[j2]);
            }
            assert(j2 == i);
        } else {
            assert(cell_id(r[s.len() as int]) == (b, n, k));
            if j2 < s.len() {
                assert(r[j2] == s[j2]);
            }
            assert(j2 == s.len());
        }
    } else {
        if j2 < i2 {
            if j2 < s.len() {
                assert(cell_id(r[j2]) == cell_id(s[j2]) || j2 == i);
                if j2 == i {
                    assert(cell_id(r[j2]) == (b, n, k));
                }
            }
        }
        if i2 < s.len() {
            assert(cell_id(r[i2]) == (b2, n2, k2)) by {
                if i2 == i {
                    assert(cell_id(s[i2]) == (b, n, k));
                }
            }
            assert(j2 == i2);
            assert(r[i2].3 == s[i2].3) by {
                if i2 == i {
                    assert(cell_id(s[i2]) == (b, n, k));
                }
            }
        } else {
            if j2 < r.len() {
                if j2 < s.len() {
                    if j2 != i {
                        assert(r[j2] == s[j2]);
                    } else {
                        assert(cell_id(r[j2]) == (b, n, k));
                    }
                } else {
                    assert(cell_id(r[j2]) == (b, n, k));
                }
            }
        }
    }
}

proof fn lemma_bump_all_other(s: Seq<CellView>, b: i64, incs: Seq<(Seq<char>, Seq<char>)>, n: Seq<char>, k: Seq<char>)
    requires
        forall|i: int| 0 <= i < incs.len() ==> (#[trigger] incs[i]).0 != n,
    ensures
        count_of(bump_all(s, b, incs), b, n, k) == count_of(s, b, n, k),
    decreases incs.len(),
{
    if incs.len() > 0 {
        assert forall|i: int| 0 <= i < incs.drop_last().len() implies (#[trigger] incs.drop_last()[i]).0 != n by {
            assert(incs.drop_last()[i] == incs[i]);
        }
        lemma_bump_all_other(s, b, incs.drop_last(), n, k);
        assert(incs.last() == incs[incs.len() - 1]);
        lemma_bump_count(bump_all(s, b, incs.drop_last()), b, incs.last().0, incs.last().1, b, n, k);
    }
}

proof fn lemma_opt_names(name: Seq<char>, key: Seq<char>, value: Seq<char>, n: Seq<char>)
    requires
        name != n,
    ensures
        forall|i: int| 0 <= i < opt_increment(name, key, value).len() ==> (#[trigger] opt_increment(name, key, value)[i]).0 != n,
{
}

proof fn lemma_names_other(x: Seq<(Seq<char>, Seq<char>)>, y: Seq<(Seq<char>, Seq<char>)>, n: Seq<char>)
    requires
        forall|i: int| 0 <= i < x.len() ==> (#[trigger] x[i]).0 != n,
        forall|i: int| 0 <= i < y.len() ==> (#[trigger] y[i]).0 != n,
    ensures
        forall|i: int| 0 <= i < (x + y).len() ==> (#[trigger] (x + y)[i]).0 != n,
{
    assert forall|i: int| 0 <= i < (x + y).len() implies (#[trigger] (x + y)[i]).0 != n by {
        if i < x.len() {
            assert((x + y)[i] == x[i]);
        } else {
            assert((x + y)[i] == y[i - x.len()]);
        }
    }
}

/// Recording a pixel event counts one more visit in the total of its
/// bucket (a count at `u64::MAX` stays there).
pub proof fn law_record_counts_one_visit(s: Seq<CellView>, e: PixelEventView, country: Seq<char>, minutes: u64)
    ensures
        ({
            let b = spec_bucket_time(e.timestamp, minutes);
            count_of(bump_all(s, b, visit_increments(e, country)), b, "web.visits.total"@, Seq::empty())
                == sat_inc(count_of(s, b, "web.visits.total"@, Seq::empty()) as u64) as nat
        }),
{
    let b = spec_bucket_time(e.timestamp, minutes);
    let total = "web.visits.total"@;
    reveal_strlit("web.visits.total");
    reveal_strlit("web.visits.page");
    reveal_strlit("web.visits.host");
    reveal_strlit("web.visits.country");
    reveal_strlit("web.visits.referer_domain");
    reveal_strlit("web.visits.lang");
    reveal_strlit("web.visits.utm_source");
    reveal_strlit("web.visits.utm_medium");
    reveal_strlit("web.visits.utm_campaign");
    reveal_strlit("web.visits.utm_content");
    reveal_strlit("web.visits.utm_term");
    let base = base_increments(e, country);
    let first = seq![base[0]];
    let rest = base.drop_first() + referer_increments(e) + extra_increments(e);
    assert(visit_increments(e, country) =~= first + rest);
    assert("web.visits.page"@ != total) by {
        assert("web.visits.page"@[11] != total[11]);
    }
    assert("web.visits.host"@ != total) by {
        assert("web.visits.host"@[11] != total[11]);
    }
    assert("web.visits.country"@ != total) by {
        assert("web.visits.country"@.len() != total.len());
    }
    assert("web.visits.referer_domain"@ != total) by {
        assert("web.visits.referer_domain"@.len() != total.len());
    }
    assert("web.visits.lang"@ != total) by {
        assert("web.visits.lang"@.len() != total.len());
    }
    assert("web.visits.utm_source"@ != total) by {
        assert("web.visits.utm_source"@.len() != total.len());
    }
    assert("web.visits.utm_medium"@ != total) by {
        assert("web.visits.utm_medium"@.len() != total.len());
    }
    assert("web.visits.utm_campaign"@ != total) by {
        assert("web.visits.utm_campaign"@.len() != total.len());
    }
    assert("web.visits.utm_content"@ != total) by {
        assert("web.visits.utm_content"@.len() != total.len());
    }
    assert("web.visits.utm_term"@ != total) by {
        assert("web.visits.utm_term"@.len() != total.len());
    }
    let r = referer_increments(e);
    let x = extra_increments(e);
    assert forall|i: int| 0 <= i < base.drop_first().len() implies (#[trigger] base.drop_first()[i]).0 != total by {
        assert(base.drop_first()[i] == base[i + 1]);
    }
    assert forall|i: int| 0 <= i < r.len() implies (#[trigger] r[i]).0 != total by {}
    lemma_opt_names("web.visits.lang"@, "lang"@, e.lang, total);
    lemma_opt_names("web.visits.utm_source"@, "utm_source"@, e.utm_source, total);
    lemma_opt_names("web.visits.utm_medium"@, "utm_medium"@, e.utm_medium, total);
    lemma_opt_names("web.visits.utm_campaign"@, "utm_campaign"@, e.utm_campaign, total);
    lemma_opt_names("web.visits.utm_content"@, "utm_content"@, e.utm_content, total);
    lemma_opt_names("web.visits.utm_term"@, "utm_term"@, e.utm_term, total);
    let o1 = opt_increment("web.visits.lang"@, "lang"@, e.lang);
    let o2 = opt_increment("web.visits.utm_source"@, "utm_source"@, e.utm_source);
    let o3 = opt_increment("web.visits.utm_medium"@, "utm_medium"@, e.utm_medium);
    let o4 = opt_increment("web.visits.utm_campaign"@, "utm_campaign"@, e.utm_campaign);
    let o5 = opt_increment("web.visits.utm_content"@, "utm_content"@, e.utm_content);
    let o6 = opt_increment("web.visits.utm_term"@, "utm_term"@, e.utm_term);
    lemma_names_other(o1, o2, total);
    lemma_names_other(o1 + o2, o3, total);
    lemma_names_other(o1 + o2 + o3, o4, total);
    lemma_names_other(o1 + o2 + o3 + o4, o5, total);
    lemma_names_other(o1 + o2 + o3 + o4 + o5, o6, total);
    lemma_names_other(base.drop_first(), r, total);
    lemma_names_other(base.drop_first() + r, x, total);
    lemma_bump_all_append(s, b, first, rest);
    lemma_bump_all_push(s, b, Seq::empty(), base[0]);
    assert(Seq::<(Seq<char>, Seq<char>)>::empty().push(base[0]) =~= first);
    lemma_bump_count(s, b, total, Seq::empty(), b, total, Seq::empty());
    lemma_bump_all_other(bump_all(s, b, first), b, rest, total, Seq::empty());
}

proof fn lemma_index_of_member(s: Seq<CellView>, i: int)
    requires
        cells_distinct(s),
        0 <= i < s.len(),
    ensures
        cell_index(s, s[i].0, s[i].1, s[i].2) == i,
{
    let c = cell_index(s, s[i].0, s[i].1, s[i].2);
    lemma_cell_index(s, s[i].0, s[i].1, s[i].2);
    if c < i {
        assert(cell_id(s[c]) == cell_id(s[i]));
    }
}

proof fn lemma_filter_count(s: Seq<CellView>, p: spec_fn(CellView) -> bool, b: i64, n: Seq<char>, k: Seq<char>)
    requires
        cells_distinct(s),
    ensures
        count_of(s.filter(p), b, n, k) == if cell_index(s, b, n, k) < s.len() && p(s[cell_index(s, b, n, k)]) {
            count_of(s, b, n, k)
        } else {
            0
        },
{
    let f = s.filter(p);
    lemma_filter_distinct(s, p);
    lemma_cell_index(s, b, n, k);
    lemma_cell_index(f, b, n, k);
    let ci = cell_index(s, b, n, k);
    let cf = cell_index(f, b, n, k);
    if ci < s.len() && p(s[ci]) {
        s.lemma_filter_contains(p, ci);
        let j = choose|j: int| 0 <= j < f.len() && f[j] == s[ci];
        lemma_index_of_member(f, j);
    } else if cf < f.len() {
        assert(s.contains(f[cf]));
        let i = choose|i: int| 0 <= i < s.len() && s[i] == f[cf];
        lemma_index_of_member(s, i);
        assert(p(f[cf]));
    }
}

/// Flushing at `now` keeps the count of every counter whose bucket is within
/// the retention and drops every other counter.
pub proof fn law_flush_keeps_recent(s: Seq<CellView>, now: i64, hours: u64, b: i64, n: Seq<char>, k: Seq<char>)
    requires
        cells_distinct(s),
    ensures
        count_of(s.filter(within_retention(now, retention_ms(hours))), b, n, k) == if now - b <= retention_ms(hours) {
            count_of(s, b, n, k)
        } else {
            0
        },
{
    lemma_filter_count(s, within_retention(now, retention_ms(hours)), b, n, k);
    lemma_cell_index(s, b, n, k);
}

/// Flushing at `now` with a retention of `hours` hours keeps the count of
/// exactly the counters whose bucket started at most `hours * 3_600_000`
/// milliseconds before `now`, and drops every other counter (where that
/// many milliseconds fit in an `i64`).
pub proof fn law_flush_retention_in_hours(s: Seq<CellView>, now: i64, hours: u64, b: i64, n: Seq<char>, k: Seq<char>)
    requires
        cells_distinct(s),
        hours * 3_600_000 <= i64::MAX,
    ensures
        count_of(s.filter(within_retention(now, retention_ms(hours))), b, n, k) == if now - b <= hours * 3_600_000 {
            count_of(s, b, n, k)
        } else {
            0
        },
{
    assert(retention_ms(hours) == hours * 3_600_000);
    lemma_filter_count(s, within_retention(now, retention_ms(hours)), b, n, k);
    lemma_cell_index(s, b, n, k);
}

/// Clearing up to `t` drops the counters of buckets at or before `t` and
/// keeps the others.
pub proof fn law_clear_flushed_drops_sent(s: Seq<CellView>, t: i64, b: i64, n: Seq<char>, k: Seq<char>)
    requires
        cells_distinct(s),
    ensures
        count_of(s.filter(after_time(t)), b, n, k) == if b > t {
            count_of(s, b, n, k)
        } else {
            0
        },
{
    lemma_filter_count(s, after_time(t), b, n, k);
    lemma_cell_index(s, b, n, k);
}

proof fn lemma_filter_twice(s: Seq<CellView>, p: spec_fn(CellView) -> bool)
    ensures
        s.filter(p).filter(p) == s.filter(p),
{
    let f = s.filter(p);
    assert forall|i: int| 0 <= i < f.len() implies p(#[trigger] f[i]) by {
        s.lemma_filter_pred(p, i);
    }
    lemma_filter_all(f, p);
}

proof fn lemma_filter_all<A>(s: Seq<A>, p: spec_fn(A) -> bool)
    requires
        forall|i: int| 0 <= i < s.len() ==> p(#[trigger] s[i]),
    ensures
        s.filter(p) == s,
    decreases s.len(),
{
    reveal_with_fuel(Seq::<_>::filter, 1);
    if s.len() > 0 {
        let d = s.drop_last();
        assert forall|i: int| 0 <= i < d.len() implies p(#[trigger] d[i]) by {
            assert(d[i] == s[i]);
        }
        lemma_filter_all(d, p);
        assert(p(s[s.len() - 1]));
        assert(d.push(s.last()) =~= s);
    } else {
        assert(s.filter(p) =~= s);
    }
}

/// A second flush at the same time, with nothing recorded in between,
/// keeps the same counters (and so gives the same samples): a flush only
/// drops buckets out of the retention and never resets a count.
pub proof fn law_flush_again_changes_nothing(s: Seq<CellView>, now: i64, hours: u64)
    ensures
        s.filter(within_retention(now, retention_ms(hours))).filter(within_retention(now, retention_ms(hours)))
            == s.filter(within_retention(now, retention_ms(hours))),
{
    lemma_filter_twice(s, within_retention(now, retention_ms(hours)));
}

// =====================================================================
// Tag keys
// =====================================================================

proof fn lemma_scan_first(s: Seq<char>, x: char, j: int)
    requires
        0 <= j <= s.len(),
        forall|i: int| 0 <= i < j ==> s[i] != x,
        j < s.len() ==> s[j] == x,
    ensures
        scan_while(s, 0, not_char(x)) == j,
{
    lemma_scan_while_bounds(s, 0, not_char(x));
    let r = scan_while(s, 0, not_char(x));
    if r < j {
        assert(s[r] != x);
    }
    if r > j {
        assert(not_char(x)(s[j]));
    }
}

proof fn lemma_scan_shift(p: Seq<char>, b: Seq<char>, k: int, f: spec_fn(char) -> bool)
    requires
        0 <= k <= b.len(),
    ensures
        scan_while(p + b, p.len() + k, f) == p.len() + scan_while(b, k, f),
    decreases b.len() - k,
{
    if k < b.len() {
        assert((p + b)[p.len() + k] == b[k]);
        if f(b[k]) {
            lemma_scan_shift(p, b, k + 1, f);
        }
    }
}

proof fn lemma_split_shift(p: Seq<char>, b: Seq<char>, k: int, x: char)
    requires
        0 <= k <= b.len(),
    ensures
        split_from(p + b, p.len() + k, x) == split_from(b, k, x),
    decreases b.len() - k,
{
    lemma_scan_shift(p, b, k, not_char(x));
    lemma_scan_while_bounds(b, k, not_char(x));
    let j = scan_while(b, k, not_char(x));
    if j < b.len() {
        lemma_split_shift(p, b, j + 1, x);
        assert((p + b).subrange(p.len() + k, p.len() + j) =~= b.subrange(k, j));
    } else {
        assert((p + b).subrange(p.len() + k, (p + b).len() as int) =~= b.subrange(k, b.len() as int));
    }
}

proof fn lemma_scan_before_sep(a: Seq<char>, b: Seq<char>, i: int, x: char)
    requires
        0 <= i <= a.len(),
    ensures
        scan_while(a.push(x) + b, i, not_char(x)) == scan_while(a, i, not_char(x)),
    decreases a.len() - i,
{
    let t = a.push(x) + b;
    if i < a.len() {
        assert(t[i] == a[i]);
        if a[i] != x {
            lemma_scan_before_sep(a, b, i + 1, x);
        }
    } else {
        assert(t[i] == x);
    }
}

proof fn lemma_split_concat(a: Seq<char>, b: Seq<char>, i: int, x: char)
    requires
        0 <= i <= a.len(),
    ensures
        split_from(a.push(x) + b, i, x) == split_from(a, i, x) + split_from(b, 0, x),
    decreases a.len() - i,
{
    let t = a.push(x) + b;
    lemma_scan_before_sep(a, b, i, x);
    lemma_scan_while_bounds(a, i, not_char(x));
    let j = scan_while(a, i, not_char(x));
    assert(t.subrange(i, j) =~= a.subrange(i, j));
    let first = seq![a.subrange(i, j)];
    if j < a.len() {
        lemma_split_concat(a, b, j + 1, x);
        assert(split_from(t, i, x) == first + split_from(t, j + 1, x));
        assert(split_from(a, i, x) == first + split_from(a, j + 1, x));
        assert(first + (split_from(a, j + 1, x) + split_from(b, 0, x)) =~= (first + split_from(a, j + 1, x))
            + split_from(b, 0, x));
    } else {
        lemma_split_shift(a.push(x), b, 0, x);
        assert(split_from(t, i, x) == first + split_from(t, j + 1, x));
        assert(split_from(a, i, x) == first);
    }
}

proof fn lemma_split_no_sep(s: Seq<char>, x: char)
    requires
        !s.contains(x),
    ensures
        split_on(s, x) == seq![s],
{
    lemma_scan_while_bounds(s, 0, not_char(x));
    let j = scan_while(s, 0, not_char(x));
    if j < s.len() {
        assert(!not_char(x)(s[j]));
        assert(s.contains(x));
    }
    assert(s.subrange(0, s.len() as int) =~= s);
}

/// Splitting what `join_with` joined gives back the parts, where no part
/// holds the separator.
proof fn lemma_split_join(ps: Seq<Seq<char>>, x: char)
    requires
        ps.len() >= 1,
        forall|i: int| 0 <= i < ps.len() ==> !(#[trigger] ps[i]).contains(x),
    ensures
        split_on(join_with(ps, x), x) == ps,
    decreases ps.len(),
{
    if ps.len() == 1 {
        lemma_split_no_sep(ps[0], x);
        assert(seq![ps[0]] =~= ps);
    } else {
        let d = ps.drop_last();
        assert forall|i: int| 0 <= i < d.len() implies !(#[trigger] d[i]).contains(x) by {
            assert(d[i] == ps[i]);
        }
        lemma_split_join(d, x);
        assert(ps.last() == ps[ps.len() - 1]);
        lemma_split_no_sep(ps.last(), x);
        lemma_split_concat(join_with(d, x), ps.last(), 0, x);
        assert(d + seq![ps.last()] =~= ps);
    }
}

/// The part `k=v` of a tag reads back as that tag, where `k` holds no `=`.
proof fn lemma_tag_part_reads_back(k: Seq<char>, v: Seq<char>)
    requires
        !k.contains('='),
    ensures
        before_char(tag_part((k, v)), '=') == k,
        after_char(tag_part((k, v)), '=') == Some(v),
{
    let s = k.push('=') + v;
    assert forall|i: int| 0 <= i < k.len() implies s[i] != '=' by {
        assert(s[i] == k[i]);
        if k[i] == '=' {
            assert(k.contains('='));
        }
    }
    lemma_scan_first(s, '=', k.len() as int);
    assert(s.subrange(0, k.len() as int) =~= k);
    assert(s.subrange(k.len() as int + 1, s.len() as int) =~= v);
}

/// Reading pieces that all hold a `=` into sorted tags: each key ends with
/// the value of some piece of that key, and a key of no piece keeps what it
/// had.
proof fn lemma_fold_pieces(e: Entries, ps: Seq<Seq<char>>, k: Seq<char>)
    requires
        keys_sorted(e),
        forall|i: int| 0 <= i < ps.len() ==> (#[trigger] after_char(ps[i], '=')) is Some,
    ensures
        keys_sorted(fold_tag_pieces(e, ps)),
        (exists|i: int|
            0 <= i < ps.len() && #[trigger] before_char(ps[i], '=') == k && find_key(fold_tag_pieces(e, ps), k)
                == after_char(ps[i], '=')) || ((forall|i: int|
            0 <= i < ps.len() ==> #[trigger] before_char(ps[i], '=') != k) && find_key(fold_tag_pieces(e, ps), k)
            == find_key(e, k)),
    decreases ps.len(),
{
    if ps.len() > 0 {
        let p0 = ps[0];
        assert(after_char(ps[0], '=') is Some);
        let k0 = before_char(p0, '=');
        let v0 = after_char(p0, '=').unwrap();
        let e2 = insert_entry(e, k0, v0);
        lemma_insert_entry(e, k0, v0);
        let rest = ps.drop_first();
        assert forall|i: int| 0 <= i < rest.len() implies (#[trigger] after_char(rest[i], '=')) is Some by {
            assert(rest[i] == ps[i + 1]);
            assert(after_char(ps[i + 1], '=') is Some);
        }
        lemma_fold_pieces(e2, rest, k);
        assert(fold_tag_pieces(e, ps) == fold_tag_pieces(e2, rest));
        let r = fold_tag_pieces(e, ps);
        if exists|i: int|
            0 <= i < rest.len() && #[trigger] before_char(rest[i], '=') == k && find_key(fold_tag_pieces(e2, rest), k)
                == after_char(rest[i], '=') {
            let i = choose|i: int|
                0 <= i < rest.len() && #[trigger] before_char(rest[i], '=') == k && find_key(
                    fold_tag_pieces(e2, rest),
                    k,
                ) == after_char(rest[i], '=');
            assert(rest[i] == ps[i + 1]);
            assert(before_char(ps[i + 1], '=') == k);
        } else {
            assert(find_key(r, k) == find_key(e2, k));
            assert(find_key(e2, k) == if k == k0 { Some(v0) } else { find_key(e, k) });
            if k == k0 {
                assert(before_char(ps[0], '=') == k);
            } else {
                assert forall|i: int| 0 <= i < ps.len() implies #[trigger] before_char(ps[i], '=') != k by {
                    if i > 0 {
                        assert(rest[i - 1] == ps[i]);
                        assert(before_char(rest[i - 1], '=') != k);
                    }
                }
            }
        }
    }
}

/// Two key-sorted tag lists that give the same value for every key are
/// the same list.
proof fn lemma_same_finds(a: Entries, b: Entries)
    requires
        keys_sorted(a),
        keys_sorted(b),
        forall|k: Seq<char>| #[trigger] find_key(a, k) == find_key(b, k),
    ensures
        a == b,
    decreases a.len(),
{
    lemma_find_key_sorted(a, Seq::empty());
    if a.len() == 0 {
        if b.len() > 0 {
            lemma_find_key_sorted(b, b[0].0);
            lemma_find_key_sorted(a, b[0].0);
            assert(find_key(a, b[0].0) == find_key(b, b[0].0));
        }
        assert(a =~= b);
    } else if b.len() == 0 {
        lemma_find_key_sorted(a, a[0].0);
        lemma_find_key_sorted(b, a[0].0);
        assert(find_key(a, a[0].0) == find_key(b, a[0].0));
    } else {
        let ka = a[0].0;
        let kb = b[0].0;
        lemma_find_key_sorted(a, ka);
        lemma_find_key_sorted(b, ka);
        lemma_find_key_sorted(a, kb);
        lemma_find_key_sorted(b, kb);
        assert(find_key(a, ka) == find_key(b, ka));
        assert(find_key(a, kb) == find_key(b, kb));
        let j = choose|j: int| 0 <= j < b.len() && #[trigger] b[j].0 == ka;
        let i = choose|i: int| 0 <= i < a.len() && #[trigger] a[i].0 == kb;
        if ka != kb {
            assert(j > 0 && i > 0);
            assert(lex_lt(b[0].0, b[j].0));
            assert(lex_lt(a[0].0, a[i].0));
            lemma_lex_total(ka, kb);
        }
        assert(a[0] == b[0]);
        let a2 = a.drop_first();
        let b2 = b.drop_first();
        assert(keys_sorted(a2)) by {
            assert forall|x: int, y: int| 0 <= x < y < a2.len() implies lex_lt(#[trigger] a2[x].0, #[trigger] a2[y].0) by {
                assert(a2[x] == a[x + 1] && a2[y] == a[y + 1]);
            }
        }
        assert(keys_sorted(b2)) by {
            assert forall|x: int, y: int| 0 <= x < y < b2.len() implies lex_lt(#[trigger] b2[x].0, #[trigger] b2[y].0) by {
                assert(b2[x] == b[x + 1] && b2[y] == b[y + 1]);
            }
        }
        assert forall|k: Seq<char>| #[trigger] find_key(a2, k) == find_key(b2, k) by {
            assert(find_key(a, k) == find_key(b, k));
            if k == ka {
                lemma_find_key_sorted(a2, k);
                lemma_find_key_sorted(b2, k);
                if find_key(a2, k) is Some {
                    let x = choose|x: int| 0 <= x < a2.len() && #[trigger] a2[x].0 == k;
                    assert(a2[x] == a[x + 1]);
                    lemma_lex_irreflexive(ka);
                }
                if find_key(b2, k) is Some {
                    let x = choose|x: int| 0 <= x < b2.len() && #[trigger] b2[x].0 == k;
                    assert(b2[x] == b[x + 1]);
                    lemma_lex_irreflexive(ka);
                }
            }
        }
        lemma_same_finds(a2, b2);
        assert(a =~= seq![a[0]] + a2);
        assert(b =~= seq![b[0]] + b2);
    }
}

spec fn is_part_of(tags: Entries, p: Seq<char>) -> bool {
    exists|j: int| 0 <= j < tags.len() && #[trigger] tag_part(tags[j]) == p
}

/// The tag key of a tag set reads back as that tag set, where no tag name
/// holds `=` or `&` and no value holds `&`.
pub proof fn law_tags_round_trip(tags: Entries)
    requires
        keys_sorted(tags),
        forall|i: int| 0 <= i < tags.len() ==> !(#[trigger] tags[i]).0.contains('='),
        forall|i: int| 0 <= i < tags.len() ==> !(#[trigger] tags[i]).0.contains('&'),
        forall|i: int| 0 <= i < tags.len() ==> !(#[trigger] tags[i]).1.contains('&'),
    ensures
        spec_tags_from_key(tags_key(tags)) == tags,
{
    if tags.len() == 0 {
        lemma_empty_tags_round_trip();
        assert(tags =~= Seq::<(Seq<char>, Seq<char>)>::empty());
    } else {
        let parts = tag_parts(tags);
        let ps = sorted_strs(parts);
        lemma_sorted_strs_exists(parts);
        to_multiset_len(ps);
        to_multiset_len(parts);
        // each piece is the part of some tag
        assert forall|i: int| 0 <= i < ps.len() implies is_part_of(tags, #[trigger] ps[i]) by {
            to_multiset_contains(ps, ps[i]);
            to_multiset_contains(parts, ps[i]);
            let j = choose|j: int| 0 <= j < parts.len() && parts[j] == ps[i];
            assert(tag_part(tags[j]) == parts[j]);
        }
        assert forall|i: int| 0 <= i < ps.len() implies !(#[trigger] ps[i]).contains('&') && after_char(ps[i], '=')
            is Some by {
            assert(is_part_of(tags, ps[i]));
            let j = choose|j: int| 0 <= j < tags.len() && #[trigger] tag_part(tags[j]) == ps[i];
            let (k, v) = tags[j];
            assert(!k.contains('&') && !v.contains('&') && !k.contains('='));
            lemma_tag_part_reads_back(k, v);
            if ps[i].contains('&') {
                let c = choose|c: int| 0 <= c < ps[i].len() && ps[i][c] == '&';
                if c < k.len() {
                    assert(ps[i][c] == k[c]);
                    assert(k.contains('&'));
                } else if c > k.len() {
                    assert(ps[i][c] == v[c - k.len() - 1]);
                    assert(v.contains('&'));
                }
            }
        }
        assert forall|i: int| 0 <= i < ps.len() implies (#[trigger] after_char(ps[i], '=')) is Some by {
            assert(!ps[i].contains('&') && after_char(ps[i], '=') is Some);
        }
        assert forall|i: int| 0 <= i < ps.len() implies !(#[trigger] ps[i]).contains('&') by {
            assert(!ps[i].contains('&') && after_char(ps[i], '=') is Some);
        }
        lemma_split_join(ps, '&');
        let e = Seq::<(Seq<char>, Seq<char>)>::empty();
        let r = fold_tag_pieces(e, ps);
        assert(spec_tags_from_key(tags_key(tags)) == r);
        assert(keys_sorted(e));
        lemma_fold_pieces(e, ps, Seq::empty());
        assert forall|k: Seq<char>| #[trigger] find_key(r, k) == find_key(tags, k) by {
            lemma_fold_pieces(e, ps, k);
            lemma_find_key_sorted(tags, k);
            if exists|i: int|
                0 <= i < ps.len() && #[trigger] before_char(ps[i], '=') == k && find_key(r, k) == after_char(ps[i], '=') {
                let i = choose|i: int|
                    0 <= i < ps.len() && #[trigger] before_char(ps[i], '=') == k && find_key(r, k) == after_char(
                        ps[i],
                        '=',
                    );
                assert(is_part_of(tags, ps[i]));
                let j = choose|j: int| 0 <= j < tags.len() && #[trigger] tag_part(tags[j]) == ps[i];
                lemma_tag_part_reads_back(tags[j].0, tags[j].1);
                assert(tags[j].0 == k);
            } else {
                assert(find_key(r, k) == find_key(e, k));
                if find_key(tags, k) is Some {
                    let j = choose|j: int| 0 <= j < tags.len() && #[trigger] tags[j].0 == k;
                    assert(parts[j] == tag_part(tags[j]));
                    to_multiset_contains(parts, parts[j]);
                    to_multiset_contains(ps, parts[j]);
                    let i = choose|i: int| 0 <= i < ps.len() && ps[i] == parts[j];
                    lemma_tag_part_reads_back(tags[j].0, tags[j].1);
                    assert(before_char(ps[i], '=') == k);
                }
            }
        }
        lemma_same_finds(r, tags);
    }
}

/// The tag key of no tags reads back as no tags.
proof fn lemma_empty_tags_round_trip()
    ensures
        spec_tags_from_key(tags_key(Seq::empty())) == Seq::<(Seq<char>, Seq<char>)>::empty(),
{
    lemma_empty_tags_key();
    let s = Seq::<char>::empty();
    assert(scan_while(s, 0, not_char('&')) == 0);
    assert(s.subrange(0, 0) =~= s);
    assert(split_on(s, '&') =~= seq![s]);
    assert(scan_while(s, 0, not_char('=')) == 0);
    assert(after_char(s, '=') is None);
    assert(seq![s].drop_first() =~= Seq::<Seq<char>>::empty());
    let e = Seq::<(Seq<char>, Seq<char>)>::empty();
    assert(fold_tag_pieces(e, Seq::empty()) == e);
    assert(fold_tag_pieces(e, seq![s]) == fold_tag_pieces(e, seq![s].drop_first()));
}

// =====================================================================
// Pages
// =====================================================================

/// A normalized page is never empty and holds no fragment: it is `/` where
/// the page is empty or starts with `#`, and otherwise the page up to its
/// first `#` (the whole page where it has none).
pub proof fn law_normalized_page(page: Seq<char>)
    ensures
        spec_normalize_page(page).len() > 0,
        !spec_normalize_page(page).contains('#'),
        (page.len() == 0 || page[0] == '#') ==> spec_normalize_page(page) == seq!['/'],
        (page.len() > 0 && page[0] != '#') ==> {
            let r = spec_normalize_page(page);
            &&& r.len() <= page.len()
            &&& r == page.subrange(0, r.len() as int)
            &&& (r.len() == page.len() || page[r.len() as int] == '#')
        },
{
    lemma_scan_while_bounds(page, 0, not_char('#'));
    let w = before_char(page, '#');
    let j = scan_while(page, 0, not_char('#'));
    if page.len() == 0 || w.len() == 0 {
        assert(slash()[0] == '/');
        assert(slash() =~= seq!['/']);
        if page.len() > 0 && page[0] != '#' {
            assert(not_char('#')(page[0]));
            assert(j > 0);
        }
    } else {
        assert forall|i: int| 0 <= i < w.len() implies w[i] != '#' by {
            assert(w[i] == page[i]);
            assert(not_char('#')(page[i]));
        }
        if page[0] == '#' {
            assert(!not_char('#')(page[0]));
        }
        if j < page.len() {
            assert(!not_char('#')(page[j]));
        }
    }
}

// =====================================================================
// Offsets
// =====================================================================

proof fn lemma_decimal(n: nat)
    ensures
        decimal(n).len() > 0,
        all_digits(decimal(n)),
        digits_value(decimal(n)) == n,
        is_ascii_digit(decimal(n)[0]),
        is_ascii_digit(decimal(n).last()),
    decreases n,
{
    if n < 10 {
        let d = decimal(n);
        assert(d.drop_last() =~= Seq::<char>::empty());
        assert(digits_value(Seq::<char>::empty()) == 0);
        assert(digit_value(digit_char(n)) == n);
    } else {
        lemma_decimal(n / 10);
        let d = decimal(n);
        let p = decimal(n / 10);
        assert(d.drop_last() =~= p);
        assert(digit_value(digit_char(n % 10)) == n % 10);
        assert((n / 10) * 10 + n % 10 == n) by {
            vstd::arithmetic::div_mod::lemma_fundamental_div_mod(n as int, 10);
        }
        assert(d[0] == p[0]);
        assert forall|i: int| 0 <= i < d.len() implies is_ascii_digit(#[trigger] d[i]) by {
            if i < p.len() {
                assert(d[i] == p[i]);
            }
        }
    }
}

/// An offset written in decimal (as `u64::to_string` writes it) reads back
/// as the same offset.
pub proof fn law_offset_round_trip(n: u64)
    ensures
        spec_parse_offset(decimal(n as nat)) == Some(n),
{
    let d = decimal(n as nat);
    lemma_decimal(n as nat);
    assert(!is_ws(d[0]));
    assert(!is_ws(d.last()));
    assert(trim_start_pos(d, 0) == 0);
    assert(trim_end_pos(d, d.len() as int) == d.len());
    assert(d.subrange(0, d.len() as int) =~= d);
    assert(trim(d) == d);
    assert(d[0] != '+');
}

// =====================================================================
// Storage
// =====================================================================

proof fn lemma_points_of_set_series(ss: Seq<SeriesView>, metric: Seq<char>, key: u64, pts: Seq<MetricPoint>)
    ensures
        series_points(set_series(ss, metric, key, pts), metric, key) == pts,
{
    lemma_first_index(ss, series_is(metric, key));
    let i = first_index(ss, series_is(metric, key));
    let r = set_series(ss, metric, key, pts);
    lemma_first_index(r, series_is(metric, key));
    let j = first_index(r, series_is(metric, key));
    if j < i {
        assert(r[j] == ss[j]);
    }
    assert(series_is(metric, key)(r[i]));
}

/// A point stays in a series through trimming from the front while it lies
/// within the last `max` points and is not older than `min_ts`.
proof fn lemma_point_survives(p: Seq<MetricPoint>, j: int, max: usize, min_ts: i64)
    requires
        0 <= j < p.len(),
        p.len() - j <= max,
        p[j].timestamp >= min_ts,
    ensures
        drop_old(keep_last(p, max), min_ts).contains(p[j]),
{
    let k = keep_last(p, max);
    let j2 = if p.len() > max { j - (p.len() - max) } else { j };
    assert(k[j2] == p[j]);
    lemma_lead_count(k, older_than(min_ts));
    let c = lead_count(k, older_than(min_ts));
    if c > j2 {
        assert(older_than(min_ts)(k[j2]));
    }
    assert(drop_old(k, min_ts)[j2 - c] == p[j]);
}

/// What a write stores, a read of its series gives back: after storing
/// `value` at `ts`, the series of `metric` with `tags` holds the point
/// `(ts, value)`, where the storage keeps at least one point, the retention
/// is not negative, and the write either adds a new time stamp or finds the
/// series within `max_points` points.
pub proof fn law_insert_then_read(v: StorageView, metric: Seq<char>, tags: Entries, value: u64, ts: i64)
    requires
        v.max_points >= 1,
        v.retention_seconds >= 0,
        i64::MIN <= ts - v.retention_seconds * 1000,
        ({
            let old_pts = series_points(v.series, metric, series_key(metric, tags));
            first_index(old_pts, point_at(ts)) == old_pts.len() || old_pts.len() <= v.max_points
        }),
    ensures
        series_points(spec_insert(v, metric, tags, value, ts).series, metric, series_key(metric, tags)).contains(
            MetricPoint { timestamp: ts, value },
        ),
{
    let key = series_key(metric, tags);
    let old_pts = series_points(v.series, metric, key);
    let up = upsert_point(old_pts, ts, value);
    let np = MetricPoint { timestamp: ts, value };
    lemma_first_index(old_pts, point_at(ts));
    let j = first_index(old_pts, point_at(ts));
    let jn = if j < old_pts.len() { j } else { old_pts.len() as int };
    assert(up[jn] == np);
    lemma_point_survives(up, jn, v.max_points, min_keep(ts, v.retention_seconds));
    lemma_points_of_set_series(
        v.series,
        metric,
        key,
        drop_old(keep_last(up, v.max_points), min_keep(ts, v.retention_seconds)),
    );
}

/// After collecting, no series is empty, the oldest point that a series
/// starts with is at or after `now - retention`, and every recorded key and
/// index entry belongs to a series that is still there.
pub proof fn law_gc_leaves_live_data(v: StorageView, now: i64)
    requires
        i64::MIN <= now - v.retention_seconds * 1000 <= i64::MAX,
    ensures
        ({
            let g = spec_gc(v, now);
            &&& forall|i: int| 0 <= i < g.series.len() ==> (#[trigger] g.series[i]).2.len() > 0
            &&& forall|i: int|
                0 <= i < g.series.len() ==> (#[trigger] g.series[i]).2[0].timestamp >= now - v.retention_seconds
                    * 1000
            &&& forall|i: int| 0 <= i < g.metadata.len() ==> key_alive(g.series, (#[trigger] g.metadata[i]).0)
            &&& forall|i: int| 0 <= i < g.tag_index.len() ==> key_alive(g.series, (#[trigger] g.tag_index[i]).2)
        }),
{
    let g = spec_gc(v, now);
    let min_ts = min_keep(now, v.retention_seconds);
    let t = v.series.map_values(crate::web_storage::trim_series(min_ts));
    assert forall|i: int| 0 <= i < g.series.len() implies (#[trigger] g.series[i]).2.len() > 0 by {
        t.lemma_filter_pred(crate::web_storage::nonempty_series(), i);
    }
    assert forall|i: int| 0 <= i < g.series.len() implies (#[trigger] g.series[i]).2[0].timestamp >= now
        - v.retention_seconds * 1000 by {
        t.lemma_filter_pred(crate::web_storage::nonempty_series(), i);
        assert(t.filter(crate::web_storage::nonempty_series()).contains(g.series[i]));
        t.lemma_filter_contains_rev(crate::web_storage::nonempty_series(), g.series[i]);
        let x = choose|x: int| 0 <= x < t.len() && t[x] == g.series[i];
        let orig = v.series[x].2;
        lemma_lead_count(orig, older_than(min_ts));
        let c = lead_count(orig, older_than(min_ts));
        assert(g.series[i].2 == orig.skip(c));
        assert(g.series[i].2[0] == orig[c]);
    }
    assert forall|i: int| 0 <= i < g.metadata.len() implies key_alive(g.series, (#[trigger] g.metadata[i]).0) by {
        v.metadata.lemma_filter_pred(crate::web_storage::meta_alive(g.series), i);
    }
    assert forall|i: int| 0 <= i < g.tag_index.len() implies key_alive(g.series, (#[trigger] g.tag_index[i]).2) by {
        v.tag_index.lemma_filter_pred(crate::web_storage::ref_alive(g.series), i);
    }
}

/// The series has recorded tags that give back its key.
pub open spec fn key_matches_tags(v: StorageView, s: SeriesView) -> bool {
    match meta_of(v.metadata, s.1) {
        Some(t) => series_key(s.0, t) == s.1,
        None => false,
    }
}

/// Every series has recorded tags that give back its key.
pub open spec fn keys_match_tags(v: StorageView, ss: Seq<SeriesView>) -> bool {
    forall|i: int| 0 <= i < ss.len() ==> key_matches_tags(v, #[trigger] ss[i])
}

/// Restoring the series that a snapshot writes gives back the same series,
/// in the same order, where each series has recorded tags that hash to its
/// key (as `insert` and `restore_series` record them, barring a collision of
/// keys across metrics).
pub proof fn law_snapshot_restore_round_trip(v: StorageView, ss: Seq<SeriesView>, max_points: usize, retention_seconds: i64)
    requires
        distinct_by(ss, |s: SeriesView| series_id(s)),
        keys_match_tags(v, ss),
    ensures
        restore_all(empty_storage(max_points, retention_seconds), spec_snapshot_series(v, ss)).series == ss,
    decreases ss.len(),
{
    let e = empty_storage(max_points, retention_seconds);
    if ss.len() > 0 {
        let d = ss.drop_last();
        let last = ss.last();
        assert(last == ss[ss.len() - 1]);
        assert(key_matches_tags(v, ss[ss.len() - 1]));
        let t = meta_of(v.metadata, last.1).unwrap();
        assert(distinct_by(d, |s: SeriesView| series_id(s))) by {
            assert forall|x: int, y: int| 0 <= x < d.len() && 0 <= y < d.len() && x != y implies series_id(
                #[trigger] d[x],
            ) != series_id(#[trigger] d[y]) by {
                assert(d[x] == ss[x] && d[y] == ss[y]);
            }
        }
        assert(keys_match_tags(v, d)) by {
            assert forall|i: int| 0 <= i < d.len() implies key_matches_tags(v, #[trigger] d[i]) by {
                assert(d[i] == ss[i]);
            }
        }
        law_snapshot_restore_round_trip(v, d, max_points, retention_seconds);
        let x = spec_snapshot_series(v, d);
        let y = (last.0, t, last.2);
        assert(spec_snapshot_series(v, ss) == x.push(y));
        assert(x.push(y).drop_last() =~= x);
        assert(x.push(y).last() == y);
        assert(restore_all(e, x.push(y)) == spec_restore_series(restore_all(e, x), y));
        lemma_first_index(d, series_is(last.0, last.1));
        let fi = first_index(d, series_is(last.0, last.1));
        if fi < d.len() {
            assert(d[fi] == ss[fi]);
            assert(series_id(ss[fi]) == series_id(ss[ss.len() - 1]));
        }
        assert(d.push(last) =~= ss);
    }
}

// =====================================================================
// Exposition
// =====================================================================

/// A sanitized name is a valid Prometheus name: not empty, made of ASCII
/// letters, digits, `_` and `:`, and not starting with a digit.
pub proof fn law_sanitized_name_is_valid(s: Seq<char>)
    ensures
        spec_sanitize_name(s).len() > 0,
        forall|i: int| 0 <= i < spec_sanitize_name(s).len() ==> name_char_ok(#[trigger] spec_sanitize_name(s)[i]),
        !('0' <= spec_sanitize_name(s)[0] && spec_sanitize_name(s)[0] <= '9'),
{
    let r = spec_sanitize_name(s);
    if s.len() > 0 {
        assert forall|i: int| 0 <= i < r.len() implies name_char_ok(#[trigger] r[i]) by {
            if '0' <= s[0] && s[0] <= '9' {
                if i > 0 {
                    assert(r[i] == crate::server::sanitize_char(s[i - 1]));
                }
            } else {
                assert(r[i] == crate::server::sanitize_char(s[i]));
            }
        }
        if !('0' <= s[0] && s[0] <= '9') {
            assert(r[0] == crate::server::sanitize_char(s[0]));
        }
    }
}

proof fn lemma_add_refs_contains(t: Seq<TagRefView>, tags: Entries, key: u64)
    ensures
        forall|i: int| 0 <= i < tags.len() ==> add_refs(t, tags, key).contains((#[trigger] tags[i].0, tags[i].1, key)),
    decreases tags.len(),
{
    if tags.len() > 0 {
        let d = tags.drop_last();
        lemma_add_refs_contains(t, d, key);
        let inner = add_refs(t, d, key);
        let r = (tags.last().0, tags.last().1, key);
        assert(add_refs(t, tags, key) == add_ref(inner, r));
        assert(add_ref(inner, r).contains(r)) by {
            if !inner.contains(r) {
                assert(inner.push(r)[inner.len() as int] == r);
            }
        }
        assert forall|i: int| 0 <= i < tags.len() implies add_refs(t, tags, key).contains(
            (#[trigger] tags[i].0, tags[i].1, key),
        ) by {
            if i < d.len() {
                assert(d[i] == tags[i]);
                assert(inner.contains((d[i].0, d[i].1, key)));
                let j = choose|j: int| 0 <= j < inner.len() && inner[j] == (d[i].0, d[i].1, key);
                if !inner.contains(r) {
                    assert(inner.push(r)[j] == inner[j]);
                }
            } else {
                assert(tags[i] == tags.last());
            }
        }
    }
}

/// A write into an empty storage is what a query over a window reads back:
/// the sum over the series of `metric` with `tags` (or with no tags asked
/// for) is `value` where the window holds `ts` and 0 where it does not,
/// where the storage keeps at least one point and the retention is not
/// negative.
pub proof fn law_write_then_query(
    max_points: usize,
    retention_seconds: i64,
    metric: Seq<char>,
    tags: Entries,
    value: u64,
    ts: i64,
    from: i64,
    to: i64,
)
    requires
        max_points >= 1,
        retention_seconds >= 0,
        i64::MIN <= ts - retention_seconds * 1000,
    ensures
        ({
            let after = spec_insert(empty_storage(max_points, retention_seconds), metric, tags, value, ts);
            let expected = if from <= ts && ts <= to { value } else { 0 };
            &&& spec_query_sum(after, metric, tags, from, to) == expected
            &&& spec_query_sum(after, metric, Seq::empty(), from, to) == expected
        }),
{
    let e = empty_storage(max_points, retention_seconds);
    let key = series_key(metric, tags);
    let after = spec_insert(e, metric, tags, value, ts);
    let np = MetricPoint { timestamp: ts, value };
    let none = Seq::<MetricPoint>::empty();
    assert(series_points(e.series, metric, key) == none);
    assert(first_index(none, point_at(ts)) == 0);
    assert(upsert_point(none, ts, value) == seq![np]);
    assert(keep_last(seq![np], max_points) == seq![np]);
    let min_ts = min_keep(ts, retention_seconds);
    assert(lead_count(seq![np], older_than(min_ts)) == 0) by {
        assert(!older_than(min_ts)(seq![np][0]));
    }
    assert(seq![np].skip(0) =~= seq![np]);
    assert(drop_old(seq![np], min_ts) == seq![np]);
    assert(first_index(e.series, series_is(metric, key)) == 0);
    assert(after.series == seq![(metric, key, seq![np])]);
    assert(!has_meta(e.metadata, key));
    lemma_add_refs_contains(e.tag_index, tags, key);
    let sv = (metric, key, seq![np]);
    assert(selects(after, metric, tags)(sv));
    assert(selects(after, metric, Seq::empty())(sv));
    reveal_with_fuel(Seq::<_>::filter, 2);
    assert(after.series.drop_last() =~= Seq::<SeriesView>::empty());
    assert(after.series.filter(selects(after, metric, tags)) =~= seq![sv]);
    assert(after.series.filter(selects(after, metric, Seq::empty())) =~= seq![sv]);
    assert(seq![sv].drop_last() =~= Seq::<SeriesView>::empty());
    assert(seq![np].drop_last() =~= Seq::<MetricPoint>::empty());
    assert(sum_in_range(Seq::<MetricPoint>::empty(), from, to) == 0);
    assert(seq![np].last() == np);
    assert(sum_in_range(seq![np], from, to) == if from <= ts && ts <= to { value as nat } else { 0 });
    assert(sum_series(Seq::<SeriesView>::empty(), from, to) == 0);
    assert(seq![sv].last() == sv);
    assert(sum_series(seq![sv], from, to) == sum_in_range(seq![np], from, to));
}

proof fn lemma_meta_after_push(m: Seq<MetaView>, key: u64, tags: Entries)
    requires
        !has_meta(m, key),
    ensures
        meta_of(m.push((key, tags)), key) == Some(tags),
{
    lemma_first_index(m, meta_is(key));
    let n = m.push((key, tags));
    lemma_first_index(n, meta_is(key));
    let j = first_index(n, meta_is(key));
    if j < m.len() {
        assert(n[j] == m[j]);
    }
    assert(meta_is(key)(n[m.len() as int]));
}

proof fn lemma_set_series_shape(ss: Seq<SeriesView>, metric: Seq<char>, key: u64, pts: Seq<MetricPoint>, max: usize)
    requires
        pts.len() <= max,
        forall|i: int| 0 <= i < ss.len() ==> (#[trigger] ss[i]).2.len() <= max,
    ensures
        first_index(set_series(ss, metric, key, pts), series_is(metric, key)) < set_series(ss, metric, key, pts).len(),
        forall|i: int|
            0 <= i < set_series(ss, metric, key, pts).len() ==> (#[trigger] set_series(ss, metric, key, pts)[i]).2.len()
                <= max,
{
    lemma_first_index(ss, series_is(metric, key));
    let r = set_series(ss, metric, key, pts);
    lemma_first_index(r, series_is(metric, key));
    let i0 = first_index(ss, series_is(metric, key));
    assert(series_is(metric, key)(r[i0]));
    assert forall|i: int| 0 <= i < r.len() implies (#[trigger] r[i]).2.len() <= max by {
        if i != i0 {
            assert(r[i] == ss[i]);
        }
    }
}

/// After a write, the storage records the written tags for the series key,
/// indexes every one of them under that key, and holds the series; and
/// where no series held more than `max_points` points before, none does
/// after. This holds where no other tag set was recorded under the same key
/// (a collision of keys).
pub proof fn law_insert_records_and_indexes(v: StorageView, metric: Seq<char>, tags: Entries, value: u64, ts: i64)
    requires
        storage_wf(v),
        meta_of(v.metadata, series_key(metric, tags)) is None || meta_of(v.metadata, series_key(metric, tags))
            == Some(tags),
    ensures
        ({
            let key = series_key(metric, tags);
            let a = spec_insert(v, metric, tags, value, ts);
            &&& meta_of(a.metadata, key) == Some(tags)
            &&& tags_indexed(a.tag_index, tags, key)
            &&& first_index(a.series, series_is(metric, key)) < a.series.len()
            &&& (forall|i: int| 0 <= i < v.series.len() ==> (#[trigger] v.series[i]).2.len() <= v.max_points) ==> (
            forall|i: int| 0 <= i < a.series.len() ==> (#[trigger] a.series[i]).2.len() <= a.max_points)
        }),
{
    let key = series_key(metric, tags);
    let a = spec_insert(v, metric, tags, value, ts);
    lemma_first_index(v.metadata, meta_is(key));
    if !has_meta(v.metadata, key) {
        lemma_meta_after_push(v.metadata, key, tags);
        lemma_add_refs_grows(v.tag_index, tags, key);
    } else {
        let i = first_index(v.metadata, meta_is(key));
        assert(tags_indexed(v.tag_index, v.metadata[i].1, v.metadata[i].0));
    }
    let up = upsert_point(series_points(v.series, metric, key), ts, value);
    let kl = keep_last(up, v.max_points);
    let pts = drop_old(kl, min_keep(ts, v.retention_seconds));
    assert(kl.len() <= v.max_points);
    lemma_lead_count(kl, older_than(min_keep(ts, v.retention_seconds)));
    assert(pts.len() <= kl.len());
    if forall|i: int| 0 <= i < v.series.len() ==> (#[trigger] v.series[i]).2.len() <= v.max_points {
        lemma_set_series_shape(v.series, metric, key, pts, v.max_points);
    } else {
        lemma_first_index(v.series, series_is(metric, key));
        let r = set_series(v.series, metric, key, pts);
        lemma_first_index(r, series_is(metric, key));
        assert(series_is(metric, key)(r[first_index(v.series, series_is(metric, key))]));
    }
}

proof fn lemma_meta_of_set_meta(m: Seq<MetaView>, key: u64, tags: Entries, k: u64)
    ensures
        meta_of(set_meta(m, key, tags), k) == if k == key { Some(tags) } else { meta_of(m, k) },
{
    lemma_first_index(m, meta_is(key));
    lemma_first_index(m, meta_is(k));
    let i = first_index(m, meta_is(key));
    let n = set_meta(m, key, tags);
    lemma_first_index(n, meta_is(k));
    let jm = first_index(m, meta_is(k));
    let jn = first_index(n, meta_is(k));
    if k == key {
        if jn < i {
            assert(n[jn] == m[jn]);
        }
        assert(meta_is(k)(n[i]));
    } else {
        // the changed place is not a place of `k`
        if jn < n.len() && jn != i {
            assert(n[jn] == m[jn]);
        }
        if jm < m.len() && jm != i {
            assert(n[jm] == m[jm]);
        }
        if jn == i {
            assert(n[i] == (key, tags));
        }
    }
}

proof fn lemma_add_refs_exact(t: Seq<TagRefView>, tags: Entries, key: u64, r: TagRefView)
    ensures
        add_refs(t, tags, key).contains(r) <==> (t.contains(r) || (r.2 == key && tags.contains((r.0, r.1)))),
    decreases tags.len(),
{
    if tags.len() > 0 {
        let d = tags.drop_last();
        lemma_add_refs_exact(t, d, key, r);
        let inner = add_refs(t, d, key);
        let x = (tags.last().0, tags.last().1, key);
        lemma_add_ref_grows(inner, x);
        if add_refs(t, tags, key).contains(r) && !inner.contains(r) {
            if !inner.contains(x) {
                let j = choose|j: int| 0 <= j < inner.push(x).len() && inner.push(x)[j] == r;
                if j < inner.len() {
                    assert(inner.push(x)[j] == inner[j]);
                }
            }
            assert(r == x);
            assert(tags[tags.len() - 1] == tags.last());
        }
        if r.2 == key && tags.contains((r.0, r.1)) {
            let j = choose|j: int| 0 <= j < tags.len() && tags[j] == (r.0, r.1);
            if j < d.len() {
                assert(d[j] == tags[j]);
            } else {
                assert(tags[j] == tags.last());
            }
        }
        if d.contains((r.0, r.1)) {
            let j = choose|j: int| 0 <= j < d.len() && d[j] == (r.0, r.1);
            assert(tags[j] == d[j]);
        }
    }
}

/// The tag `(r.0, r.1)` is recorded for the key `r.2`.
pub open spec fn tag_recorded(v: StorageView, r: TagRefView) -> bool {
    match meta_of(v.metadata, r.2) {
        Some(t) => t.contains((r.0, r.1)),
        None => false,
    }
}

proof fn lemma_restore_prefix(g: StorageView, ss: Seq<SeriesView>, max_points: usize, retention_seconds: i64)
    requires
        distinct_by(ss, |s: SeriesView| series_id(s)),
        keys_match_tags(g, ss),
    ensures
        ({
            let r = restore_all(empty_storage(max_points, retention_seconds), spec_snapshot_series(g, ss));
            &&& forall|k: u64| #[trigger] meta_of(r.metadata, k) == if key_alive(ss, k) {
                meta_of(g.metadata, k)
            } else {
                None
            }
            &&& forall|x: TagRefView| #[trigger] r.tag_index.contains(x) <==> (key_alive(ss, x.2) && tag_recorded(g, x))
        }),
    decreases ss.len(),
{
    let e = empty_storage(max_points, retention_seconds);
    if ss.len() == 0 {
        assert forall|k: u64| #[trigger] meta_of(e.metadata, k) == None::<Entries> by {
            assert(first_index(e.metadata, meta_is(k)) == 0);
        }
        assert forall|k: u64| !key_alive(ss, k) by {}
        assert(restore_all(e, spec_snapshot_series(g, ss)) == e);
    } else {
        let d = ss.drop_last();
        let last = ss.last();
        assert(last == ss[ss.len() - 1]);
        assert(key_matches_tags(g, ss[ss.len() - 1]));
        let t = meta_of(g.metadata, last.1).unwrap();
        assert(distinct_by(d, |s: SeriesView| series_id(s))) by {
            assert forall|x: int, y: int| 0 <= x < d.len() && 0 <= y < d.len() && x != y implies series_id(
                #[trigger] d[x],
            ) != series_id(#[trigger] d[y]) by {
                assert(d[x] == ss[x] && d[y] == ss[y]);
            }
        }
        assert(keys_match_tags(g, d)) by {
            assert forall|i: int| 0 <= i < d.len() implies key_matches_tags(g, #[trigger] d[i]) by {
                assert(d[i] == ss[i]);
            }
        }
        lemma_restore_prefix(g, d, max_points, retention_seconds);
        let x = spec_snapshot_series(g, d);
        let y = (last.0, t, last.2);
        assert(spec_snapshot_series(g, ss) == x.push(y));
        assert(x.push(y).drop_last() =~= x);
        assert(x.push(y).last() == y);
        let r0 = restore_all(e, x);
        let r = restore_all(e, x.push(y));
        assert(r == spec_restore_series(r0, y));
        assert(series_key(last.0, t) == last.1);
        assert forall|k: u64| key_alive(ss, k) <==> (key_alive(d, k) || k == last.1) by {
            if key_alive(ss, k) {
                let i = choose|i: int| 0 <= i < ss.len() && (#[trigger] ss[i]).1 == k;
                if i < d.len() {
                    assert(d[i] == ss[i]);
                }
            }
            if key_alive(d, k) {
                let i = choose|i: int| 0 <= i < d.len() && (#[trigger] d[i]).1 == k;
                assert(ss[i] == d[i]);
            }
        }
        assert forall|k: u64| #[trigger] meta_of(r.metadata, k) == if key_alive(ss, k) {
            meta_of(g.metadata, k)
        } else {
            None
        } by {
            lemma_meta_of_set_meta(r0.metadata, last.1, t, k);
        }
        assert forall|z: TagRefView| #[trigger] r.tag_index.contains(z) <==> (key_alive(ss, z.2) && tag_recorded(g, z)) by {
            lemma_add_refs_exact(r0.tag_index, t, last.1, z);
            assert(r0.tag_index.contains(z) <==> (key_alive(d, z.2) && tag_recorded(g, z)));
        }
    }
}

/// Restoring what a snapshot writes gives back the storage's series, its
/// recorded tags (key by key) and its tag index (entry by entry), where
/// each series has recorded tags that hash to its key, every recorded key
/// belongs to a series, and every index entry is a recorded tag (as a
/// collection leaves them, barring a collision of keys across metrics).
pub proof fn law_snapshot_restore_keeps_tags(g: StorageView, max_points: usize, retention_seconds: i64)
    requires
        storage_wf(g),
        keys_match_tags(g, g.series),
        forall|i: int| 0 <= i < g.metadata.len() ==> key_alive(g.series, (#[trigger] g.metadata[i]).0),
        forall|i: int| 0 <= i < g.tag_index.len() ==> tag_recorded(g, #[trigger] g.tag_index[i]),
    ensures
        ({
            let r = restore_all(empty_storage(max_points, retention_seconds), spec_snapshot_series(g, g.series));
            &&& r.series == g.series
            &&& forall|k: u64| #[trigger] meta_of(r.metadata, k) == meta_of(g.metadata, k)
            &&& forall|x: TagRefView| #[trigger] r.tag_index.contains(x) <==> g.tag_index.contains(x)
        }),
{
    law_snapshot_restore_round_trip(g, g.series, max_points, retention_seconds);
    lemma_restore_prefix(g, g.series, max_points, retention_seconds);
    let r = restore_all(empty_storage(max_points, retention_seconds), spec_snapshot_series(g, g.series));
    assert forall|k: u64| #[trigger] meta_of(r.metadata, k) == meta_of(g.metadata, k) by {
        lemma_first_index(g.metadata, meta_is(k));
        let i = first_index(g.metadata, meta_is(k));
        if !key_alive(g.series, k) && i < g.metadata.len() {
            assert(key_alive(g.series, g.metadata[i].0));
        }
    }
    assert forall|x: TagRefView| #[trigger] r.tag_index.contains(x) <==> g.tag_index.contains(x) by {
        lemma_first_index(g.metadata, meta_is(x.2));
        let i = first_index(g.metadata, meta_is(x.2));
        if g.tag_index.contains(x) {
            let j = choose|j: int| 0 <= j < g.tag_index.len() && g.tag_index[j] == x;
            assert(tag_recorded(g, g.tag_index[j]));
            assert(key_alive(g.series, g.metadata[i].0));
        }
        if key_alive(g.series, x.2) && tag_recorded(g, x) {
            let t = g.metadata[i].1;
            assert(tags_indexed(g.tag_index, g.metadata[i].1, g.metadata[i].0));
            let j = choose|j: int| 0 <= j < t.len() && t[j] == (x.0, x.1);
            assert(g.tag_index.contains((t[j].0, t[j].1, x.2)));
        }
    }
}

/// Collecting at `now` changes nothing in a storage whose series are not
/// empty and start at or after `now - retention`, and whose recorded keys
/// and index entries all belong to a series.
pub proof fn law_gc_keeps_collected(v: StorageView, now: i64)
    requires
        i64::MIN <= now - v.retention_seconds * 1000 <= i64::MAX,
        forall|i: int| 0 <= i < v.series.len() ==> (#[trigger] v.series[i]).2.len() > 0,
        forall|i: int|
            0 <= i < v.series.len() ==> (#[trigger] v.series[i]).2[0].timestamp >= now - v.retention_seconds * 1000,
        forall|i: int| 0 <= i < v.metadata.len() ==> key_alive(v.series, (#[trigger] v.metadata[i]).0),
        forall|i: int| 0 <= i < v.tag_index.len() ==> key_alive(v.series, (#[trigger] v.tag_index[i]).2),
    ensures
        spec_gc(v, now) == v,
{
    let min_ts = min_keep(now, v.retention_seconds);
    let tr = trim_series(min_ts);
    let t = v.series.map_values(tr);
    assert forall|i: int| 0 <= i < v.series.len() implies #[trigger] t[i] == v.series[i] by {
        let p = v.series[i].2;
        lemma_lead_count(p, older_than(min_ts));
        if lead_count(p, older_than(min_ts)) > 0 {
            assert(older_than(min_ts)(p[0]));
        }
        assert(p.skip(0) =~= p);
    }
    assert(t =~= v.series);
    assert forall|i: int| 0 <= i < t.len() implies nonempty_series()(#[trigger] t[i]) by {
        assert(t[i] == v.series[i]);
    }
    lemma_filter_all(t, nonempty_series());
    assert(gc_series(v.series, min_ts) == v.series);
    lemma_filter_all(v.metadata, meta_alive(v.series));
    lemma_filter_all(v.tag_index, ref_alive(v.series));
}

/// Restoring what a snapshot of a collected storage writes, and collecting
/// again at the same time (as loading does), gives back the series, the
/// recorded tags key by key and the tag index entry by entry.
pub proof fn law_save_then_load(g: StorageView, max_points: usize, now: i64)
    requires
        storage_wf(g),
        keys_match_tags(g, g.series),
        i64::MIN <= now - g.retention_seconds * 1000 <= i64::MAX,
        forall|i: int| 0 <= i < g.series.len() ==> (#[trigger] g.series[i]).2.len() > 0,
        forall|i: int|
            0 <= i < g.series.len() ==> (#[trigger] g.series[i]).2[0].timestamp >= now - g.retention_seconds * 1000,
        forall|i: int| 0 <= i < g.metadata.len() ==> key_alive(g.series, (#[trigger] g.metadata[i]).0),
        forall|i: int| 0 <= i < g.tag_index.len() ==> tag_recorded(g, #[trigger] g.tag_index[i]),
    ensures
        ({
            let r = spec_gc(
                restore_all(empty_storage(max_points, g.retention_seconds), spec_snapshot_series(g, g.series)),
                now,
            );
            &&& r.series == g.series
            &&& forall|k: u64| #[trigger] meta_of(r.metadata, k) == meta_of(g.metadata, k)
            &&& forall|x: TagRefView| #[trigger] r.tag_index.contains(x) <==> g.tag_index.contains(x)
            &&& r.max_points == max_points
            &&& r.retention_seconds == g.retention_seconds
        }),
{
    let r0 = restore_all(empty_storage(max_points, g.retention_seconds), spec_snapshot_series(g, g.series));
    law_snapshot_restore_keeps_tags(g, max_points, g.retention_seconds);
    lemma_restore_prefix(g, g.series, max_points, g.retention_seconds);
    lemma_restore_limits(g, g.series, max_points, g.retention_seconds);
    assert forall|i: int| 0 <= i < r0.metadata.len() implies key_alive(r0.series, (#[trigger] r0.metadata[i]).0) by {
        let k = r0.metadata[i].0;
        lemma_first_index(r0.metadata, meta_is(k));
        assert(meta_of(r0.metadata, k) is Some);
    }
    assert forall|i: int| 0 <= i < r0.tag_index.len() implies key_alive(r0.series, (#[trigger] r0.tag_index[i]).2) by {
        assert(r0.tag_index.contains(r0.tag_index[i]));
    }
    law_gc_keeps_collected(r0, now);
}

proof fn lemma_restore_limits(g: StorageView, ss: Seq<SeriesView>, max_points: usize, retention_seconds: i64)
    ensures
        restore_all(empty_storage(max_points, retention_seconds), spec_snapshot_series(g, ss)).max_points == max_points,
        restore_all(empty_storage(max_points, retention_seconds), spec_snapshot_series(g, ss)).retention_seconds
            == retention_seconds,
    decreases ss.len(),
{
    if ss.len() > 0 {
        lemma_restore_limits(g, ss.drop_last(), max_points, retention_seconds);
        let x = spec_snapshot_series(g, ss.drop_last());
        match meta_of(g.metadata, ss.last().1) {
            Some(t) => {
                let y = (ss.last().0, t, ss.last().2);
                assert(x.push(y).drop_last() =~= x);
            },
            None => {},
        }
    }
}

/// In the metadata kept by a collection, a key that some series still has
/// is recorded with the tags it had.
proof fn lemma_meta_of_kept(m: Seq<MetaView>, ss: Seq<SeriesView>, k: u64)
    requires
        distinct_by(m, |x: MetaView| crate::web_storage::meta_id(x)),
        key_alive(ss, k),
    ensures
        meta_of(m.filter(meta_alive(ss)), k) == meta_of(m, k),
{
    let f = m.filter(meta_alive(ss));
    lemma_first_index(m, meta_is(k));
    lemma_first_index(f, meta_is(k));
    let i = first_index(m, meta_is(k));
    let j = first_index(f, meta_is(k));
    if i < m.len() {
        m.lemma_filter_contains(meta_alive(ss), i);
        let x = choose|x: int| 0 <= x < f.len() && f[x] == m[i];
        assert(meta_is(k)(f[x]));
        assert(j <= x);
        assert(f.contains(f[j]));
        m.lemma_filter_contains_rev(meta_alive(ss), f[j]);
        let y = choose|y: int| 0 <= y < m.len() && m[y] == f[j];
        if y != i {
            assert(crate::web_storage::meta_id(m[y]) == crate::web_storage::meta_id(m[i]));
        }
    } else if j < f.len() {
        assert(f.contains(f[j]));
        m.lemma_filter_contains_rev(meta_alive(ss), f[j]);
        let y = choose|y: int| 0 <= y < m.len() && m[y] == f[j];
        assert(meta_is(k)(m[y]));
    }
}

/// A collection keeps the storage's invariant and the recorded tags of
/// every key that a series still has.
proof fn lemma_gc_wf(v: StorageView, now: i64)
    requires
        storage_wf(v),
        i64::MIN <= now - v.retention_seconds * 1000 <= i64::MAX,
    ensures
        storage_wf(spec_gc(v, now)),
        forall|k: u64| key_alive(spec_gc(v, now).series, k) ==> #[trigger] meta_of(spec_gc(v, now).metadata, k)
            == meta_of(v.metadata, k),
{
    let g = spec_gc(v, now);
    let min_ts = min_keep(now, v.retention_seconds);
    let ss = g.series;
    crate::web_storage::lemma_trim_distinct(v.series, min_ts);
    crate::seqs::lemma_distinct_filter(
        v.series.map_values(trim_series(min_ts)),
        |s: SeriesView| series_id(s),
        nonempty_series(),
    );
    crate::seqs::lemma_distinct_filter(v.metadata, |m: MetaView| crate::web_storage::meta_id(m), meta_alive(ss));
    crate::seqs::lemma_distinct_filter(v.tag_index, |t: TagRefView| crate::web_storage::ref_id(t), ref_alive(ss));
    assert forall|i: int| 0 <= i < g.metadata.len() implies crate::web_storage::tags_indexed(
        g.tag_index,
        (#[trigger] g.metadata[i]).1,
        g.metadata[i].0,
    ) by {
        let mi = g.metadata[i];
        v.metadata.lemma_filter_pred(meta_alive(ss), i);
        assert(g.metadata.contains(mi));
        v.metadata.lemma_filter_contains_rev(meta_alive(ss), mi);
        let x = choose|x: int| 0 <= x < v.metadata.len() && v.metadata[x] == mi;
        assert(tags_indexed(v.tag_index, v.metadata[x].1, v.metadata[x].0));
        assert forall|j: int| 0 <= j < mi.1.len() implies g.tag_index.contains((#[trigger] mi.1[j].0, mi.1[j].1, mi.0)) by {
            let r = (mi.1[j].0, mi.1[j].1, mi.0);
            assert(v.tag_index.contains(r));
            let y = choose|y: int| 0 <= y < v.tag_index.len() && v.tag_index[y] == r;
            v.tag_index.lemma_filter_contains(ref_alive(ss), y);
        }
    }
    assert forall|k: u64| key_alive(g.series, k) implies #[trigger] meta_of(g.metadata, k) == meta_of(v.metadata, k) by {
        lemma_meta_of_kept(v.metadata, ss, k);
    }
}

/// Taking a snapshot at `now` and restoring it at the same `now` (what
/// `snapshot(now)` and `restore(.., now)` do, by their contracts) gives back
/// the series that the snapshot's collection left, the recorded tags key by
/// key and the tag index entry by entry, with the same limits; where each
/// series' recorded tags hash to its key and every index entry is a
/// recorded tag (as writes record them, barring a collision of keys).
pub proof fn law_snapshot_then_restore(v: StorageView, max_points: usize, now: i64)
    requires
        storage_wf(v),
        i64::MIN <= now - v.retention_seconds * 1000 <= i64::MAX,
        keys_match_tags(v, v.series),
        forall|i: int| 0 <= i < v.tag_index.len() ==> tag_recorded(v, #[trigger] v.tag_index[i]),
    ensures
        ({
            let g = spec_gc(v, now);
            let r = spec_gc(
                restore_all(empty_storage(max_points, v.retention_seconds), spec_snapshot_series(g, g.series)),
                now,
            );
            &&& r.series == g.series
            &&& forall|k: u64| #[trigger] meta_of(r.metadata, k) == meta_of(g.metadata, k)
            &&& forall|x: TagRefView| #[trigger] r.tag_index.contains(x) <==> g.tag_index.contains(x)
            &&& r.max_points == max_points
            &&& r.retention_seconds == v.retention_seconds
        }),
{
    let g = spec_gc(v, now);
    let min_ts = min_keep(now, v.retention_seconds);
    let t = v.series.map_values(trim_series(min_ts));
    law_gc_leaves_live_data(v, now);
    lemma_gc_wf(v, now);
    assert forall|i: int| 0 <= i < g.series.len() implies key_matches_tags(g, #[trigger] g.series[i]) by {
        assert(g.series.contains(g.series[i]));
        t.lemma_filter_contains_rev(nonempty_series(), g.series[i]);
        let x = choose|x: int| 0 <= x < t.len() && t[x] == g.series[i];
        assert(key_matches_tags(v, v.series[x]));
        assert(key_alive(g.series, g.series[i].1));
    }
    assert forall|i: int| 0 <= i < g.tag_index.len() implies tag_recorded(g, #[trigger] g.tag_index[i]) by {
        let r = g.tag_index[i];
        v.tag_index.lemma_filter_pred(ref_alive(g.series), i);
        assert(g.tag_index.contains(r));
        v.tag_index.lemma_filter_contains_rev(ref_alive(g.series), r);
        let y = choose|y: int| 0 <= y < v.tag_index.len() && v.tag_index[y] == r;
        assert(tag_recorded(v, v.tag_index[y]));
    }
    assert forall|i: int| 0 <= i < g.metadata.len() implies key_alive(g.series, (#[trigger] g.metadata[i]).0) by {}
    law_save_then_load(g, max_points, now);
}

// =====================================================================
// What a visit counts
// =====================================================================

/// How many times `x` occurs in `incs`.
pub open spec fn occurrences(incs: Seq<(Seq<char>, Seq<char>)>, x: (Seq<char>, Seq<char>)) -> nat
    decreases incs.len(),
{
    if incs.len() == 0 {
        0
    } else {
        occurrences(incs.drop_last(), x) + if incs.last() == x { 1nat } else { 0nat }
    }
}

/// `c + m`, held at `u64::MAX`.
pub open spec fn add_held(c: nat, m: nat) -> nat {
    if c + m > u64::MAX {
        u64::MAX as nat
    } else {
        c + m
    }
}

proof fn lemma_occurrences_add(a: Seq<(Seq<char>, Seq<char>)>, b: Seq<(Seq<char>, Seq<char>)>, x: (Seq<char>, Seq<char>))
    ensures
        occurrences(a + b, x) == occurrences(a, x) + occurrences(b, x),
    decreases b.len(),
{
    if b.len() == 0 {
        assert(a + b =~= a);
    } else {
        lemma_occurrences_add(a, b.drop_last(), x);
        assert((a + b).drop_last() =~= a + b.drop_last());
        assert((a + b).last() == b.last());
    }
}

proof fn lemma_count_bounded(s: Seq<CellView>, b: i64, n: Seq<char>, k: Seq<char>)
    ensures
        count_of(s, b, n, k) <= u64::MAX,
{
}

/// Each `(name, key)` of `incs` adds one to its counter in bucket `b` (held
/// at `u64::MAX`); counters of other buckets stay.
proof fn lemma_bump_all_occurrences(
    s: Seq<CellView>,
    b: i64,
    incs: Seq<(Seq<char>, Seq<char>)>,
    b2: i64,
    n: Seq<char>,
    k: Seq<char>,
)
    ensures
        count_of(bump_all(s, b, incs), b2, n, k) == if b2 == b {
            add_held(count_of(s, b2, n, k), occurrences(incs, (n, k)))
        } else {
            count_of(s, b2, n, k)
        },
    decreases incs.len(),
{
    lemma_count_bounded(s, b2, n, k);
    if incs.len() > 0 {
        let d = incs.drop_last();
        let x = incs.last();
        lemma_bump_all_occurrences(s, b, d, b2, n, k);
        lemma_bump_count(bump_all(s, b, d), b, x.0, x.1, b2, n, k);
        lemma_count_bounded(bump_all(s, b, d), b2, n, k);
    }
}

/// The indicator of a condition.
pub open spec fn one_if(c: bool) -> nat {
    if c { 1 } else { 0 }
}

/// The country counted for a visit: the resolved one, `ZZ` where none was
/// resolved.
pub open spec fn counted_country(country: Option<Seq<char>>) -> Seq<char> {
    match country {
        Some(v) => v,
        None => "ZZ"@,
    }
}

/// How often a visit counts toward `(n, k)` among the counters every visit
/// has: the total (no tags), `page=` the page without its fragment, `host=`
/// the host and `country=` the country.
pub open spec fn base_hits(e: PixelEventView, c: Seq<char>, n: Seq<char>, k: Seq<char>) -> nat {
    one_if(n == "web.visits.total"@ && k == Seq::<char>::empty())
        + one_if(n == "web.visits.page"@ && k == "page="@ + spec_normalize_page(e.page))
        + one_if(n == "web.visits.host"@ && k == "host="@ + e.host)
        + one_if(n == "web.visits.country"@ && k == "country="@ + c)
}

/// How often a visit counts toward `(n, k)` as a referer domain: once
/// under `referer_domain=` the event's referer domain, where that is set
/// and not `direct`.
pub open spec fn referer_hits(e: PixelEventView, n: Seq<char>, k: Seq<char>) -> nat {
    one_if(e.referer_domain.len() > 0 && e.referer_domain != "direct"@ && n == "web.visits.referer_domain"@
        && k == "referer_domain="@ + e.referer_domain)
}

/// Once under `tag=value` for the counter `name`, where the value is set.
pub open spec fn tag_hit(name: Seq<char>, tag: Seq<char>, value: Seq<char>, n: Seq<char>, k: Seq<char>) -> nat {
    one_if(value.len() > 0 && n == name && k == tag + "="@ + value)
}

/// How often a visit counts toward `(n, k)` for its language and each UTM
/// parameter, each under its own name.
pub open spec fn extra_hits(e: PixelEventView, n: Seq<char>, k: Seq<char>) -> nat {
    tag_hit("web.visits.lang"@, "lang"@, e.lang, n, k)
        + tag_hit("web.visits.utm_source"@, "utm_source"@, e.utm_source, n, k)
        + tag_hit("web.visits.utm_medium"@, "utm_medium"@, e.utm_medium, n, k)
        + tag_hit("web.visits.utm_campaign"@, "utm_campaign"@, e.utm_campaign, n, k)
        + tag_hit("web.visits.utm_content"@, "utm_content"@, e.utm_content, n, k)
        + tag_hit("web.visits.utm_term"@, "utm_term"@, e.utm_term, n, k)
}

/// How many times a visit counts toward the counter `(n, k)`.
pub open spec fn visit_hits(e: PixelEventView, country: Option<Seq<char>>, n: Seq<char>, k: Seq<char>) -> nat {
    base_hits(e, counted_country(country), n, k) + referer_hits(e, n, k) + extra_hits(e, n, k)
}

proof fn lemma_occ_single(y: (Seq<char>, Seq<char>), x: (Seq<char>, Seq<char>))
    ensures
        occurrences(seq![y], x) == one_if(y == x),
{
    assert(seq![y].drop_last() =~= Seq::<(Seq<char>, Seq<char>)>::empty());
    assert(seq![y].last() == y);
    assert(occurrences(Seq::<(Seq<char>, Seq<char>)>::empty(), x) == 0);
}

proof fn lemma_tag_text(key: Seq<char>, value: Seq<char>)
    ensures
        key.push('=') + value == key + "="@ + value,
{
    reveal_strlit("=");
    assert(key.push('=') + value =~= key + "="@ + value);
}

proof fn lemma_opt_occurrences(name: Seq<char>, key: Seq<char>, value: Seq<char>, n: Seq<char>, k: Seq<char>)
    ensures
        occurrences(opt_increment(name, key, value), (n, k)) == one_if(value.len() > 0 && n == name && k == key
            + "="@ + value),
{
    lemma_tag_text(key, value);
    if value.len() > 0 {
        lemma_occ_single((name, key.push('=') + value), (n, k));
    } else {
        assert(occurrences(Seq::<(Seq<char>, Seq<char>)>::empty(), (n, k)) == 0);
    }
}

proof fn lemma_base_occurrences(e: PixelEventView, c: Seq<char>, n: Seq<char>, k: Seq<char>)
    ensures
        occurrences(base_increments(e, c), (n, k)) == base_hits(e, c, n, k),
{
    reveal_strlit("=");
    reveal_strlit("page=");
    reveal_strlit("page");
    reveal_strlit("host=");
    reveal_strlit("host");
    reveal_strlit("country=");
    reveal_strlit("country");
    assert("page"@ + "="@ =~= "page="@);
    assert("host"@ + "="@ =~= "host="@);
    assert("country"@ + "="@ =~= "country="@);
    let x = (n, k);
    let base = base_increments(e, c);
    let a1 = ("web.visits.total"@, Seq::<char>::empty());
    let a2 = ("web.visits.page"@, "page"@.push('=') + spec_normalize_page(e.page));
    let a3 = ("web.visits.host"@, "host"@.push('=') + e.host);
    let a4 = ("web.visits.country"@, "country"@.push('=') + c);
    assert(base =~= seq![a1] + seq![a2] + seq![a3] + seq![a4]);
    lemma_occ_single(a1, x);
    lemma_occ_single(a2, x);
    lemma_occ_single(a3, x);
    lemma_occ_single(a4, x);
    lemma_occurrences_add(seq![a1], seq![a2], x);
    lemma_occurrences_add(seq![a1] + seq![a2], seq![a3], x);
    lemma_occurrences_add(seq![a1] + seq![a2] + seq![a3], seq![a4], x);
    lemma_tag_text("page"@, spec_normalize_page(e.page));
    lemma_tag_text("host"@, e.host);
    lemma_tag_text("country"@, c);
}

proof fn lemma_referer_occurrences(e: PixelEventView, n: Seq<char>, k: Seq<char>)
    ensures
        occurrences(referer_increments(e), (n, k)) == referer_hits(e, n, k),
{
    reveal_strlit("=");
    reveal_strlit("referer_domain=");
    reveal_strlit("referer_domain");
    reveal_strlit("direct");
    assert("direct"@ =~= seq!['d', 'i', 'r', 'e', 'c', 't']);
    assert("referer_domain"@ + "="@ =~= "referer_domain="@);
    lemma_tag_text("referer_domain"@, e.referer_domain);
    let ar = ("web.visits.referer_domain"@, "referer_domain"@.push('=') + e.referer_domain);
    lemma_occ_single(ar, (n, k));
    assert(occurrences(Seq::<(Seq<char>, Seq<char>)>::empty(), (n, k)) == 0);
}

proof fn lemma_extra_occurrences(e: PixelEventView, n: Seq<char>, k: Seq<char>)
    ensures
        occurrences(extra_increments(e), (n, k)) == extra_hits(e, n, k),
{
    let x = (n, k);
    let o1 = opt_increment("web.visits.lang"@, "lang"@, e.lang);
    let o2 = opt_increment("web.visits.utm_source"@, "utm_source"@, e.utm_source);
    let o3 = opt_increment("web.visits.utm_medium"@, "utm_medium"@, e.utm_medium);
    let o4 = opt_increment("web.visits.utm_campaign"@, "utm_campaign"@, e.utm_campaign);
    let o5 = opt_increment("web.visits.utm_content"@, "utm_content"@, e.utm_content);
    let o6 = opt_increment("web.visits.utm_term"@, "utm_term"@, e.utm_term);
    lemma_opt_occurrences("web.visits.lang"@, "lang"@, e.lang, n, k);
    lemma_opt_occurrences("web.visits.utm_source"@, "utm_source"@, e.utm_source, n, k);
    lemma_opt_occurrences("web.visits.utm_medium"@, "utm_medium"@, e.utm_medium, n, k);
    lemma_opt_occurrences("web.visits.utm_campaign"@, "utm_campaign"@, e.utm_campaign, n, k);
    lemma_opt_occurrences("web.visits.utm_content"@, "utm_content"@, e.utm_content, n, k);
    lemma_opt_occurrences("web.visits.utm_term"@, "utm_term"@, e.utm_term, n, k);
    lemma_occurrences_add(o1, o2, x);
    lemma_occurrences_add(o1 + o2, o3, x);
    lemma_occurrences_add(o1 + o2 + o3, o4, x);
    lemma_occurrences_add(o1 + o2 + o3 + o4, o5, x);
    lemma_occurrences_add(o1 + o2 + o3 + o4 + o5, o6, x);
}

/// Recording a visit adds, in the visit's bucket, exactly the counts that
/// `visit_hits` lists (each held at `u64::MAX`), and changes no counter of
/// another bucket: the total, the page without its fragment, the host, the
/// country (`ZZ` where none was resolved), the referer domain where it is
/// set and not `direct`, and the language and each UTM parameter under its
/// own name where set.
pub proof fn law_record_counts_visit(
    s: Seq<CellView>,
    e: PixelEventView,
    country: Option<Seq<char>>,
    minutes: u64,
    b2: i64,
    n: Seq<char>,
    k: Seq<char>,
)
    ensures
        ({
            let b = spec_bucket_time(e.timestamp, minutes);
            let after = bump_all(s, b, visit_increments(e, crate::aggregator::country_or_zz(country)));
            count_of(after, b2, n, k) == if b2 == b {
                add_held(count_of(s, b2, n, k), visit_hits(e, country, n, k))
            } else {
                count_of(s, b2, n, k)
            }
        }),
{
    let b = spec_bucket_time(e.timestamp, minutes);
    let cz = crate::aggregator::country_or_zz(country);
    let incs = visit_increments(e, cz);
    lemma_bump_all_occurrences(s, b, incs, b2, n, k);
    reveal_strlit("ZZ");
    assert("ZZ"@ =~= seq!['Z', 'Z']);
    assert(cz == counted_country(country));
    lemma_base_occurrences(e, cz, n, k);
    lemma_referer_occurrences(e, n, k);
    lemma_extra_occurrences(e, n, k);
    lemma_occurrences_add(base_increments(e, cz), referer_increments(e), (n, k));
    lemma_occurrences_add(base_increments(e, cz) + referer_increments(e), extra_increments(e), (n, k));
}

// =====================================================================
// Metrics answers
// =====================================================================

/// A point lies in the window `[from, to]`.
pub open spec fn in_window(from: i64, to: i64) -> spec_fn(MetricPoint) -> bool {
    |q: MetricPoint| from <= q.timestamp && q.timestamp <= to
}

/// The sum of the values of the points in `[from, to]`.
pub open spec fn window_total(p: Seq<MetricPoint>, from: i64, to: i64) -> nat
    decreases p.len(),
{
    if p.len() == 0 {
        0
    } else {
        window_total(p.drop_first(), from, to) + if from <= p[0].timestamp && p[0].timestamp <= to {
            p[0].value as nat
        } else {
            0
        }
    }
}

/// `n`, held at `u64::MAX`.
pub open spec fn held(n: nat) -> u64 {
    if n <= u64::MAX {
        n as u64
    } else {
        u64::MAX
    }
}

proof fn lemma_window_total(p: Seq<MetricPoint>, from: i64, to: i64)
    ensures
        sum_in_range(p, from, to) == window_total(p, from, to),
    decreases p.len(),
{
    if p.len() > 0 {
        lemma_window_total(p.drop_last(), from, to);
        lemma_window_total_last(p, from, to);
    }
}

proof fn lemma_window_total_last(p: Seq<MetricPoint>, from: i64, to: i64)
    requires
        p.len() > 0,
    ensures
        window_total(p, from, to) == window_total(p.drop_last(), from, to) + if from <= p.last().timestamp
            && p.last().timestamp <= to {
            p.last().value as nat
        } else {
            0
        },
    decreases p.len(),
{
    if p.len() == 1 {
        assert(p.drop_first() =~= Seq::<MetricPoint>::empty());
        assert(p.drop_last() =~= Seq::<MetricPoint>::empty());
        assert(p.last() == p[0]);
    } else {
        lemma_window_total_last(p.drop_first(), from, to);
        assert(p.drop_first().drop_last() =~= p.drop_last().drop_first());
        assert(p.drop_last()[0] == p[0]);
        assert(p.drop_first().last() == p.last());
    }
}

/// The series totals hold an entry for every series with recorded tags
/// (the empty tag set included) and a non-zero sum in `[from, to]`: its
/// metric, its tags and that sum (held at `u64::MAX`); and every entry is
/// such a series' entry.
pub proof fn law_series_totals_complete(v: StorageView, ss: Seq<SeriesView>, from: i64, to: i64)
    ensures
        forall|i: int|
            0 <= i < ss.len() && (#[trigger] meta_of(v.metadata, ss[i].1)) is Some && held(
                window_total(ss[i].2, from, to),
            ) > 0 ==> spec_series_totals(v, ss, from, to).contains(
                (ss[i].0, meta_of(v.metadata, ss[i].1).unwrap(), held(window_total(ss[i].2, from, to))),
            ),
        forall|j: int|
            0 <= j < spec_series_totals(v, ss, from, to).len() ==> exists|i: int|
                0 <= i < ss.len() && meta_of(v.metadata, ss[i].1) is Some && held(window_total(ss[i].2, from, to)) > 0
                    && #[trigger] spec_series_totals(v, ss, from, to)[j] == (
                    ss[i].0,
                    meta_of(v.metadata, ss[i].1).unwrap(),
                    held(window_total(ss[i].2, from, to)),
                ),
    decreases ss.len(),
{
    if ss.len() > 0 {
        let d = ss.drop_last();
        law_series_totals_complete(v, d, from, to);
        let rest = spec_series_totals(v, d, from, to);
        let r = spec_series_totals(v, ss, from, to);
        let last = ss.last();
        lemma_window_total(last.2, from, to);
        assert(last == ss[ss.len() - 1]);
        assert forall|i: int|
            0 <= i < ss.len() && (#[trigger] meta_of(v.metadata, ss[i].1)) is Some && held(
                window_total(ss[i].2, from, to),
            ) > 0 implies r.contains(
            (ss[i].0, meta_of(v.metadata, ss[i].1).unwrap(), held(window_total(ss[i].2, from, to))),
        ) by {
            if i < d.len() {
                assert(d[i] == ss[i]);
                assert(meta_of(v.metadata, d[i].1) is Some);
                let x = (ss[i].0, meta_of(v.metadata, ss[i].1).unwrap(), held(window_total(ss[i].2, from, to)));
                assert(rest.contains(x));
                let j = choose|j: int| 0 <= j < rest.len() && rest[j] == x;
                if r != rest {
                    assert(r == rest.push(r.last()));
                    assert(r[j] == rest[j]);
                }
            } else {
                assert(r.last() == (last.0, meta_of(v.metadata, last.1).unwrap(), held(window_total(last.2, from, to))));
                assert(r[r.len() - 1] == r.last());
            }
        }
        assert forall|j: int| 0 <= j < r.len() implies exists|i: int|
            0 <= i < ss.len() && meta_of(v.metadata, ss[i].1) is Some && held(window_total(ss[i].2, from, to)) > 0
                && #[trigger] r[j] == (
                ss[i].0,
                meta_of(v.metadata, ss[i].1).unwrap(),
                held(window_total(ss[i].2, from, to)),
            ) by {
            if j < rest.len() {
                assert(r[j] == rest[j]);
                let i = choose|i: int|
                    0 <= i < d.len() && meta_of(v.metadata, d[i].1) is Some && held(window_total(d[i].2, from, to)) > 0
                        && #[trigger] rest[j] == (
                        d[i].0,
                        meta_of(v.metadata, d[i].1).unwrap(),
                        held(window_total(d[i].2, from, to)),
                    );
                assert(d[i] == ss[i]);
            } else {
                let i = ss.len() - 1;
                assert(ss[i] == last);
            }
        }
    }
}

/// The metrics answer holds an entry for every series with recorded tags
/// (the empty tag set included) and at least one point in `[from, to]`: its
/// metric, its tags and exactly its points in the window, in order; and
/// every entry is such a series' entry.
pub proof fn law_series_in_range_complete(v: StorageView, ss: Seq<SeriesView>, from: i64, to: i64)
    ensures
        forall|i: int|
            0 <= i < ss.len() && (#[trigger] meta_of(v.metadata, ss[i].1)) is Some && ss[i].2.filter(
                in_window(from, to),
            ).len() > 0 ==> spec_series_in_range(v, ss, from, to).contains(
                (ss[i].0, meta_of(v.metadata, ss[i].1).unwrap(), ss[i].2.filter(in_window(from, to))),
            ),
        forall|j: int|
            0 <= j < spec_series_in_range(v, ss, from, to).len() ==> exists|i: int|
                0 <= i < ss.len() && meta_of(v.metadata, ss[i].1) is Some && ss[i].2.filter(in_window(from, to)).len()
                    > 0 && #[trigger] spec_series_in_range(v, ss, from, to)[j] == (
                    ss[i].0,
                    meta_of(v.metadata, ss[i].1).unwrap(),
                    ss[i].2.filter(in_window(from, to)),
                ),
    decreases ss.len(),
{
    assert(crate::web_storage::in_range(from, to) =~= in_window(from, to));
    if ss.len() > 0 {
        let d = ss.drop_last();
        law_series_in_range_complete(v, d, from, to);
        let rest = spec_series_in_range(v, d, from, to);
        let r = spec_series_in_range(v, ss, from, to);
        let last = ss.last();
        assert(last == ss[ss.len() - 1]);
        assert forall|i: int|
            0 <= i < ss.len() && (#[trigger] meta_of(v.metadata, ss[i].1)) is Some && ss[i].2.filter(
                in_window(from, to),
            ).len() > 0 implies r.contains(
            (ss[i].0, meta_of(v.metadata, ss[i].1).unwrap(), ss[i].2.filter(in_window(from, to))),
        ) by {
            if i < d.len() {
                assert(d[i] == ss[i]);
                assert(meta_of(v.metadata, d[i].1) is Some);
                let x = (ss[i].0, meta_of(v.metadata, ss[i].1).unwrap(), ss[i].2.filter(in_window(from, to)));
                assert(rest.contains(x));
                let j = choose|j: int| 0 <= j < rest.len() && rest[j] == x;
                if r != rest {
                    assert(r == rest.push(r.last()));
                    assert(r[j] == rest[j]);
                }
            } else {
                assert(r[r.len() - 1] == r.last());
            }
        }
        assert forall|j: int| 0 <= j < r.len() implies exists|i: int|
            0 <= i < ss.len() && meta_of(v.metadata, ss[i].1) is Some && ss[i].2.filter(in_window(from, to)).len() > 0
                && #[trigger] r[j] == (
                ss[i].0,
                meta_of(v.metadata, ss[i].1).unwrap(),
                ss[i].2.filter(in_window(from, to)),
            ) by {
            if j < rest.len() {
                assert(r[j] == rest[j]);
                let i = choose|i: int|
                    0 <= i < d.len() && meta_of(v.metadata, d[i].1) is Some && d[i].2.filter(in_window(from, to)).len()
                        > 0 && #[trigger] rest[j] == (
                        d[i].0,
                        meta_of(v.metadata, d[i].1).unwrap(),
                        d[i].2.filter(in_window(from, to)),
                    );
                assert(d[i] == ss[i]);
            } else {
                let i = ss.len() - 1;
                assert(ss[i] == last);
            }
        }
    }
}

proof fn lemma_join_without(ps: Seq<Seq<char>>, sep: char, c: char)
    requires
        c != sep,
        forall|i: int| 0 <= i < ps.len() ==> !(#[trigger] ps[i]).contains(c),
    ensures
        !join_with(ps, sep).contains(c),
    decreases ps.len(),
{
    if ps.len() == 1 {
        assert(!ps[0].contains(c));
    } else if ps.len() > 1 {
        let d = ps.drop_last();
        assert forall|i: int| 0 <= i < d.len() implies !(#[trigger] d[i]).contains(c) by {
            assert(d[i] == ps[i]);
        }
        lemma_join_without(d, sep, c);
        assert(!ps[ps.len() - 1].contains(c));
        let j = join_with(d, sep);
        let r = j.push(sep) + ps.last();
        if r.contains(c) {
            let x = choose|x: int| 0 <= x < r.len() && r[x] == c;
            if x < j.len() {
                assert(r[x] == j[x]);
            } else if x > j.len() {
                assert(r[x] == ps.last()[x - j.len() - 1]);
                assert(ps.last().contains(c));
            }
        }
    }
}

proof fn lemma_escape_no_newline(v: Seq<char>)
    ensures
        !crate::server::spec_escape_label(v).contains('\n'),
    decreases v.len(),
{
    if v.len() > 0 {
        lemma_escape_no_newline(v.drop_last());
        let a = crate::server::spec_escape_label(v.drop_last());
        let b = crate::server::escape_char(v.last());
        assert(!b.contains('\n')) by {
            if b.contains('\n') {
                let x = choose|x: int| 0 <= x < b.len() && b[x] == '\n';
            }
        }
        if (a + b).contains('\n') {
            let x = choose|x: int| 0 <= x < (a + b).len() && (a + b)[x] == '\n';
            if x < a.len() {
                assert((a + b)[x] == a[x]);
            } else {
                assert((a + b)[x] == b[x - a.len()]);
            }
        }
    }
}

proof fn lemma_name_no_newline(m: Seq<char>)
    ensures
        !spec_sanitize_name(m).contains('\n'),
{
    law_sanitized_name_is_valid(m);
    if spec_sanitize_name(m).contains('\n') {
        let x = choose|x: int| 0 <= x < spec_sanitize_name(m).len() && spec_sanitize_name(m)[x] == '\n';
        assert(name_char_ok(spec_sanitize_name(m)[x]));
    }
}

proof fn lemma_no_newline_concat(a: Seq<char>, b: Seq<char>)
    requires
        !a.contains('\n'),
        !b.contains('\n'),
    ensures
        !(a + b).contains('\n'),
{
    if (a + b).contains('\n') {
        let x = choose|x: int| 0 <= x < (a + b).len() && (a + b)[x] == '\n';
        if x < a.len() {
            assert((a + b)[x] == a[x]);
        } else {
            assert((a + b)[x] == b[x - a.len()]);
        }
    }
}

proof fn lemma_line_no_newline(metric: Seq<char>, tags: Entries, value: u64)
    ensures
        !crate::server::prometheus_line(metric, tags, value).contains('\n'),
{
    lemma_name_no_newline(metric);
    let labels = crate::server::spec_format_labels(tags);
    assert(!labels.contains('\n')) by {
        if tags.len() > 0 {
            let parts = tags.map_values(|p: (Seq<char>, Seq<char>)| crate::server::label_part(p));
            assert forall|i: int| 0 <= i < parts.len() implies !(#[trigger] parts[i]).contains('\n') by {
                let p = tags[i];
                lemma_name_no_newline(p.0);
                lemma_escape_no_newline(p.1);
                assert(!seq!['=', '"'].contains('\n')) by {
                    if seq!['=', '"'].contains('\n') {
                        let x = choose|x: int| 0 <= x < 2 && seq!['=', '"'][x] == '\n';
                    }
                }
                assert(!seq!['"'].contains('\n')) by {
                    if seq!['"'].contains('\n') {
                        let x = choose|x: int| 0 <= x < 1 && seq!['"'][x] == '\n';
                    }
                }
                lemma_no_newline_concat(spec_sanitize_name(p.0), seq!['=', '"']);
                lemma_no_newline_concat(spec_sanitize_name(p.0) + seq!['=', '"'], crate::server::spec_escape_label(p.1));
                lemma_no_newline_concat(
                    spec_sanitize_name(p.0) + seq!['=', '"'] + crate::server::spec_escape_label(p.1),
                    seq!['"'],
                );
            }
            lemma_join_without(parts, ',', '\n');
            assert(!seq!['{'].contains('\n')) by {
                if seq!['{'].contains('\n') {
                    let x = choose|x: int| 0 <= x < 1 && seq!['{'][x] == '\n';
                }
            }
            assert(!seq!['}'].contains('\n')) by {
                if seq!['}'].contains('\n') {
                    let x = choose|x: int| 0 <= x < 1 && seq!['}'][x] == '\n';
                }
            }
            lemma_no_newline_concat(seq!['{'], join_with(parts, ','));
            lemma_no_newline_concat(seq!['{'] + join_with(parts, ','), seq!['}']);
        }
    }
    lemma_decimal(value as nat);
    let d = decimal(value as nat);
    assert(!d.contains('\n')) by {
        if d.contains('\n') {
            let x = choose|x: int| 0 <= x < d.len() && d[x] == '\n';
            assert(is_ascii_digit(d[x]));
        }
    }
    assert(!seq![' '].contains('\n')) by {
        if seq![' '].contains('\n') {
            let x = choose|x: int| 0 <= x < 1 && seq![' '][x] == '\n';
        }
    }
    lemma_no_newline_concat(spec_sanitize_name(metric), labels);
    lemma_no_newline_concat(spec_sanitize_name(metric) + labels, seq![' ']);
    lemma_no_newline_concat(spec_sanitize_name(metric) + labels + seq![' '], d);
}

/// The exposition is one line per series total, in order, each the total's
/// `name{labels} value` line, whatever the number of labels: the body ends
/// with a newline, and splitting what comes before it at newlines gives
/// exactly those lines; where there is no total it is the one comment line.
pub proof fn law_prometheus_body_lines(totals: Seq<(Seq<char>, Entries, u64)>)
    ensures
        ({
            let body = crate::server::spec_prometheus_body(totals);
            &&& body.len() > 0 && body.last() == '\n'
            &&& totals.len() > 0 ==> {
                let lines = split_on(body.drop_last(), '\n');
                &&& lines.len() == totals.len()
                &&& forall|i: int|
                    0 <= i < totals.len() ==> #[trigger] lines[i] == crate::server::prometheus_line(
                        totals[i].0,
                        totals[i].1,
                        totals[i].2,
                    )
            }
            &&& totals.len() == 0 ==> body == "# no pixel metrics yet\n"@
        }),
{
    let lines = totals.map_values(|t: (Seq<char>, Entries, u64)| crate::server::prometheus_line(t.0, t.1, t.2));
    let body = crate::server::spec_prometheus_body(totals);
    reveal_strlit("# no pixel metrics yet\n");
    reveal_strlit("# no pixel metrics yet");
    if totals.len() > 0 {
        assert forall|i: int| 0 <= i < lines.len() implies !(#[trigger] lines[i]).contains('\n') by {
            lemma_line_no_newline(totals[i].0, totals[i].1, totals[i].2);
        }
        lemma_split_join(lines, '\n');
        assert(body.drop_last() =~= join_with(lines, '\n'));
    } else {
        assert(body =~= "# no pixel metrics yet\n"@);
    }
}

} // verus!
