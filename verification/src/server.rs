use vstd::prelude::*;

use crate::strmap::{Entries, StrMap};
use crate::text::{join_strings, join_with, owned, push_char, push_str, str_chars, strs_view};
use crate::web_storage::{WebMetricSeriesSnapshot, WebMetricStorage, snaps_view, spec_series_in_range, spec_series_totals};

verus! {

// =====================================================================
// Prometheus exposition
// =====================================================================

pub open spec fn is_ascii_alnum(c: char) -> bool {
    ('0' <= c && c <= '9') || ('a' <= c && c <= 'z') || ('A' <= c && c <= 'Z')
}

/// A character allowed in a metric or label name: ASCII letters and digits,
/// `_` and `:`.
pub open spec fn name_char_ok(c: char) -> bool {
    is_ascii_alnum(c) || c == '_' || c == ':'
}

pub open spec fn sanitize_char(c: char) -> char {
    if name_char_ok(c) {
        c
    } else {
        '_'
    }
}

pub open spec fn metric_chars() -> Seq<char> {
    seq!['m', 'e', 't', 'r', 'i', 'c']
}

/// A name made fit for Prometheus: every other character becomes `_`, a
/// leading digit gets `_` before it, and an empty name becomes `metric`.
pub open spec fn spec_sanitize_name(s: Seq<char>) -> Seq<char> {
    let body = s.map_values(|c: char| sanitize_char(c));
    if s.len() == 0 {
        metric_chars()
    } else if '0' <= s[0] && s[0] <= '9' {
        seq!['_'] + body
    } else {
        body
    }
}

pub fn sanitize_name(name: &str) -> (r: String)
    ensures
        r@ == spec_sanitize_name(name@),
{
    let cs = str_chars(name);
    let mut out = String::new();
    if cs.len() == 0 {
        let m = owned("metric");
        proof {
            reveal_strlit("metric");
        }
        assert(m@ =~= metric_chars());
        return m;
    }
    let ghost prefix: Seq<char> = if '0' <= cs@[0] && cs@[0] <= '9' {
        seq!['_']
    } else {
        Seq::empty()
    };
    if '0' <= cs[0] && cs[0] <= '9' {
        push_char(&mut out, '_');
    }
    assert(out@ =~= prefix + cs@.take(0).map_values(|c: char| sanitize_char(c)));
    let mut i: usize = 0;
    while i < cs.len()
        invariant
            i <= cs.len(),
            out@ == prefix + cs@.take(i as int).map_values(|c: char| sanitize_char(c)),
        decreases cs.len() - i,
    {
        let c = cs[i];
        let ok = ('0' <= c && c <= '9') || ('a' <= c && c <= 'z') || ('A' <= c && c <= 'Z') || c
            == '_' || c == ':';
        if ok {
            push_char(&mut out, c);
        } else {
            push_char(&mut out, '_');
        }
        i = i + 1;
        assert(out@ =~= prefix + cs@.take(i as int).map_values(|c: char| sanitize_char(c)));
    }
    assert(cs@.take(i as int) =~= cs@);
    out
}

/// The escape of one character in a label value.
pub open spec fn escape_char(c: char) -> Seq<char> {
    if c == '\\' {
        seq!['\\', '\\']
    } else if c == '"' {
        seq!['\\', '"']
    } else if c == '\n' {
        seq!['\\', 'n']
    } else {
        seq![c]
    }
}

/// A label value with `\`, `"` and newlines escaped.
pub open spec fn spec_escape_label(s: Seq<char>) -> Seq<char>
    decreases s.len(),
{
    if s.len() == 0 {
        Seq::empty()
    } else {
        spec_escape_label(s.drop_last()) + escape_char(s.last())
    }
}

pub fn escape_label(value: &str) -> (r: String)
    ensures
        r@ == spec_escape_label(value@),
{
    let cs = str_chars(value);
    let mut out = String::new();
    let mut i: usize = 0;
    while i < cs.len()
        invariant
            i <= cs.len(),
            out@ == spec_escape_label(cs@.take(i as int)),
        decreases cs.len() - i,
    {
        let c = cs[i];
        let ghost before = out@;
        if c == '\\' {
            push_char(&mut out, '\\');
            push_char(&mut out, '\\');
        } else if c == '"' {
            push_char(&mut out, '\\');
            push_char(&mut out, '"');
        } else if c == '\n' {
            push_char(&mut out, '\\');
            push_char(&mut out, 'n');
        } else {
            push_char(&mut out, c);
        }
        let ghost t = cs@.take(i + 1);
        assert(t.drop_last() =~= cs@.take(i as int));
        assert(t.last() == c);
        assert(out@ =~= before + escape_char(c));
        i = i + 1;
    }
    assert(cs@.take(i as int) =~= cs@);
    out
}

/// `name="value"` for one label.
pub open spec fn label_part(p: (Seq<char>, Seq<char>)) -> Seq<char> {
    spec_sanitize_name(p.0) + seq!['=', '"'] + spec_escape_label(p.1) + seq!['"']
}

/// The labels of a series: `{name="value",...}` in key order; nothing for
/// no tags.
pub open spec fn spec_format_labels(tags: Entries) -> Seq<char> {
    if tags.len() == 0 {
        Seq::empty()
    } else {
        seq!['{'] + join_with(tags.map_values(|p: (Seq<char>, Seq<char>)| label_part(p)), ',') + seq!['}']
    }
}

pub fn format_labels(tags: &StrMap) -> (r: String)
    ensures
        r@ == spec_format_labels(tags@),
{
    if tags.is_empty() {
        return String::new();
    }
    let mut parts: Vec<String> = Vec::new();
    let mut i: usize = 0;
    while i < tags.len()
        invariant
            i <= tags@.len(),
            strs_view(parts@) == tags@.take(i as int).map_values(|p: (Seq<char>, Seq<char>)| label_part(p)),
        decreases tags@.len() - i,
    {
        let mut part = sanitize_name(tags.key_at(i).as_str());
        push_char(&mut part, '=');
        push_char(&mut part, '"');
        let esc = escape_label(tags.value_at(i).as_str());
        push_str(&mut part, esc.as_str());
        push_char(&mut part, '"');
        assert(part@ =~= label_part(tags@[i as int]));
        let ghost before = parts@;
        parts.push(part);
        assert(parts@ == before.push(part));
        assert(strs_view(parts@) =~= strs_view(before).push(part@));
        assert(tags@.take(i + 1).map_values(|p: (Seq<char>, Seq<char>)| label_part(p)) =~= tags@.take(i as int).map_values(|p: (Seq<char>, Seq<char>)| label_part(p)).push(label_part(tags@[i as int])));
        assert(strs_view(parts@) =~= tags@.take(i + 1).map_values(|p: (Seq<char>, Seq<char>)| label_part(p)));
        i = i + 1;
    }
    assert(tags@.take(i as int) =~= tags@);
    let mut out = String::new();
    push_char(&mut out, '{');
    let inner = join_strings(&parts, ',');
    push_str(&mut out, inner.as_str());
    push_char(&mut out, '}');
    assert(out@ =~= spec_format_labels(tags@));
    out
}

pub open spec fn digit_char(d: nat) -> char {
    (d + 48) as char
}

/// The decimal digits of `n`.
pub open spec fn decimal(n: nat) -> Seq<char>
    decreases n,
{
    if n < 10 {
        seq![digit_char(n)]
    } else {
        decimal(n / 10).push(digit_char(n % 10))
    }
}

/// Appends the decimal digits of `n`.
pub fn push_decimal(s: &mut String, n: u64)
    ensures
        final(s)@ == old(s)@ + decimal(n as nat),
    decreases n,
{
    if n >= 10 {
        push_decimal(s, n / 10);
    }
    let d: u32 = (n % 10) as u32;
    let c = (48u8 + d as u8) as char;
    assert(c == digit_char((n % 10) as nat));
    push_char(s, c);
    assert(final(s)@ =~= old(s)@ + decimal(n as nat));
}

/// One line of the exposition: name, labels, a space and the value.
pub open spec fn prometheus_line(metric: Seq<char>, tags: Entries, value: u64) -> Seq<char> {
    spec_sanitize_name(metric) + spec_format_labels(tags) + seq![' '] + decimal(value as nat)
}

pub open spec fn no_metrics_line() -> Seq<char> {
    "# no pixel metrics yet"@
}

/// The exposition body: one line per series total, or a comment where there
/// is none, each line ended by a newline.
pub open spec fn spec_prometheus_body(totals: Seq<(Seq<char>, Entries, u64)>) -> Seq<char> {
    let lines = totals.map_values(|t: (Seq<char>, Entries, u64)| prometheus_line(t.0, t.1, t.2));
    if lines.len() == 0 {
        no_metrics_line().push('\n')
    } else {
        join_with(lines, '\n').push('\n')
    }
}

pub fn prometheus_body(totals: &Vec<(String, StrMap, u64)>) -> (r: String)
    ensures
        r@ == spec_prometheus_body(totals@.map_values(|x: (String, StrMap, u64)| (x.0@, x.1@, x.2))),
{
    let ghost tv = totals@.map_values(|x: (String, StrMap, u64)| (x.0@, x.1@, x.2));
    let ghost lines = tv.map_values(|t: (Seq<char>, Entries, u64)| prometheus_line(t.0, t.1, t.2));
    let mut parts: Vec<String> = Vec::new();
    let mut i: usize = 0;
    while i < totals.len()
        invariant
            i <= totals.len(),
            tv == totals@.map_values(|x: (String, StrMap, u64)| (x.0@, x.1@, x.2)),
            lines == tv.map_values(|t: (Seq<char>, Entries, u64)| prometheus_line(t.0, t.1, t.2)),
            strs_view(parts@) == lines.take(i as int),
        decreases totals.len() - i,
    {
        let mut line = sanitize_name(totals[i].0.as_str());
        let labels = format_labels(&totals[i].1);
        push_str(&mut line, labels.as_str());
        push_char(&mut line, ' ');
        push_decimal(&mut line, totals[i].2);
        assert(tv[i as int] == (totals@[i as int].0@, totals@[i as int].1@, totals@[i as int].2));
        assert(line@ =~= lines[i as int]);
        let ghost before = parts@;
        parts.push(line);
        assert(parts@ == before.push(line));
        assert(strs_view(parts@) =~= strs_view(before).push(line@));
        assert(lines.take(i + 1) =~= lines.take(i as int).push(lines[i as int]));
        assert(strs_view(parts@) =~= lines.take(i + 1));
        i = i + 1;
    }
    assert(lines.take(i as int) =~= lines);
    if parts.len() == 0 {
        let mut out = owned("# no pixel metrics yet");
        push_char(&mut out, '\n');
        return out;
    }
    let mut out = join_strings(&parts, '\n');
    push_char(&mut out, '\n');
    out
}

/// The length of the window that the exposition covers: one day.
pub open spec fn day_ms() -> i64 {
    86400000
}

/// The exposition for the day up to `now`.
pub fn prometheus_text(storage: &WebMetricStorage, now: i64) -> (r: String)
    requires
        now - day_ms() >= i64::MIN,
    ensures
        r@ == spec_prometheus_body(spec_series_totals(storage@, storage@.series, (now - day_ms()) as i64, now)),
{
    let totals = storage.series_totals(now - 86400000, now);
    prometheus_body(&totals)
}

// =====================================================================
// The metrics API
// =====================================================================

/// The window a metrics request asks for: a positive bound as given, else
/// the day up to `now` (from) and `now` (to).
pub open spec fn spec_request_window(from_ms: i64, to_ms: i64, now: i64) -> (i64, i64) {
    (
        if from_ms > 0 {
            from_ms
        } else {
            (now - day_ms()) as i64
        },
        if to_ms > 0 {
            to_ms
        } else {
            now
        },
    )
}

pub fn request_window(from_ms: i64, to_ms: i64, now: i64) -> (r: (i64, i64))
    requires
        from_ms <= 0 ==> now - day_ms() >= i64::MIN,
    ensures
        r == spec_request_window(from_ms, to_ms, now),
{
    let from = if from_ms > 0 {
        from_ms
    } else {
        now - 86400000
    };
    let to = if to_ms > 0 {
        to_ms
    } else {
        now
    };
    (from, to)
}

/// What the metrics API answers: the window and the series with points in
/// it.
pub struct MetricsResponse {
    pub from_ms: i64,
    pub to_ms: i64,
    pub series: Vec<WebMetricSeriesSnapshot>,
}

pub fn metrics_response(storage: &WebMetricStorage, from_param: i64, to_param: i64, now: i64) -> (r: MetricsResponse)
    requires
        from_param <= 0 ==> now - day_ms() >= i64::MIN,
    ensures
        (r.from_ms, r.to_ms) == spec_request_window(from_param, to_param, now),
        snaps_view(r.series@) == spec_series_in_range(storage@, storage@.series, r.from_ms, r.to_ms),
{
    let (from_ms, to_ms) = request_window(from_param, to_param, now);
    let series = storage.series_in_range(from_ms, to_ms);
    MetricsResponse { from_ms, to_ms, series }
}

} // verus!
