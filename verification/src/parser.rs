use vstd::prelude::*;

use crate::strmap::{StrMap, Entries, find_key, insert_entry};
use crate::text::{all_ascii, ascii_lower, before_char, after_char, split_from, split_on, sub_vec, owned, str_eq_ignore_ascii_case, eq_ignore_ascii_case, to_lowercase, unicode_lowercase, scan_while, non_ws, blank, not_char, digit, is_ascii_digit, lemma_scan_while_bounds, scan_non_ws, scan_blank, scan_to, scan_digits, str_chars, substring, push_char};

verus! {

// =====================================================================
// The grammar of one line of the combined log format
// =====================================================================

/// A non-empty run of characters that are not white space.
pub open spec fn spec_token(s: Seq<char>, i: int) -> Option<int> {
    let j = scan_while(s, i, non_ws());
    if j > i {
        Some(j)
    } else {
        None
    }
}

/// A non-empty run of spaces and tabs.
pub open spec fn spec_blank1(s: Seq<char>, i: int) -> Option<int> {
    let j = scan_while(s, i, blank());
    if j > i {
        Some(j)
    } else {
        None
    }
}

/// `[`, then anything up to the first `]`, then `]`: the position of that `]`.
pub open spec fn spec_bracketed(s: Seq<char>, i: int) -> Option<int> {
    if 0 <= i < s.len() && s[i] == '[' {
        let j = scan_while(s, i + 1, not_char(']'));
        if j < s.len() {
            Some(j)
        } else {
            None
        }
    } else {
        None
    }
}

/// `"` METHOD blanks URL blanks PROTOCOL `"`, where METHOD is a token, URL
/// runs to the next white space (and may be empty) and PROTOCOL runs to the
/// next `"`. Gives the end of the method, the start and end of the URL and
/// the position of the closing quote.
pub open spec fn spec_request(s: Seq<char>, i: int) -> Option<(int, int, int, int)> {
    if 0 <= i < s.len() && s[i] == '"' {
        match spec_token(s, i + 1) {
            None => None,
            Some(me) => match spec_blank1(s, me) {
                None => None,
                Some(us) => {
                    let ue = scan_while(s, us, non_ws());
                    match spec_blank1(s, ue) {
                        None => None,
                        Some(ps) => {
                            let pe = scan_while(s, ps, not_char('"'));
                            if pe < s.len() {
                                Some((me, us, ue, pe))
                            } else {
                                None
                            }
                        },
                    }
                },
            },
        }
    } else {
        None
    }
}

pub open spec fn digit_value(c: char) -> int {
    (c as u32) - 48
}

/// The decimal number that a run of ASCII digits writes.
pub open spec fn digits_value(d: Seq<char>) -> nat
    decreases d.len(),
{
    if d.len() == 0 {
        0
    } else {
        (digits_value(d.drop_last()) * 10 + digit_value(d.last())) as nat
    }
}

/// A non-empty run of ASCII digits whose value fits in a `u16`: the value
/// and the end of the run.
pub open spec fn spec_status(s: Seq<char>, i: int) -> Option<(u16, int)> {
    let j = scan_while(s, i, digit());
    if j > i && digits_value(s.subrange(i, j)) < 0x10000 {
        Some((digits_value(s.subrange(i, j)) as u16, j))
    } else {
        None
    }
}

/// The content of a quoted string that starts at `i` (just after the
/// opening quote): `\"` stands for `"` and `\\` for `\`; any other character
/// after a backslash, a backslash at the end, or a missing closing quote
/// makes it fail. Gives the content and the position after the closing quote.
pub open spec fn spec_quoted_body(s: Seq<char>, i: int) -> Option<(Seq<char>, int)>
    decreases s.len() - i,
{
    if i < 0 || i >= s.len() {
        None
    } else if s[i] == '"' {
        Some((Seq::<char>::empty(), i + 1))
    } else if s[i] == '\\' {
        if i + 1 < s.len() && (s[i + 1] == '"' || s[i + 1] == '\\') {
            match spec_quoted_body(s, i + 2) {
                Some((r, e)) => Some((seq![s[i + 1]] + r, e)),
                None => None,
            }
        } else {
            None
        }
    } else {
        match spec_quoted_body(s, i + 1) {
            Some((r, e)) => Some((seq![s[i]] + r, e)),
            None => None,
        }
    }
}

pub open spec fn spec_quoted(s: Seq<char>, i: int) -> Option<(Seq<char>, int)> {
    if 0 <= i < s.len() && s[i] == '"' {
        spec_quoted_body(s, i + 1)
    } else {
        None
    }
}

/// The fields of a log line, as the grammar gives them.
pub struct LogFields {
    pub remote_addr: String,
    pub time: String,
    pub method: String,
    pub url: String,
    pub status: u16,
    pub referer: String,
    pub user_agent: String,
    /// What follows the user agent and the blanks after it.
    pub rest: String,
}

pub struct LogFieldsView {
    pub remote_addr: Seq<char>,
    pub time: Seq<char>,
    pub method: Seq<char>,
    pub url: Seq<char>,
    pub status: u16,
    pub referer: Seq<char>,
    pub user_agent: Seq<char>,
    pub rest: Seq<char>,
}

impl View for LogFields {
    type V = LogFieldsView;

    open spec fn view(&self) -> LogFieldsView {
        LogFieldsView {
            remote_addr: self.remote_addr@,
            time: self.time@,
            method: self.method@,
            url: self.url@,
            status: self.status,
            referer: self.referer@,
            user_agent: self.user_agent@,
            rest: self.rest@,
        }
    }
}

/// The tail of the line from the status on: status, bytes sent, referer and
/// user agent, each after blanks; and where the parse ends: after the user
/// agent and the blanks that follow it.
pub open spec fn spec_tail(s: Seq<char>, i: int) -> Option<(u16, Seq<char>, Seq<char>, int)> {
    match spec_blank1(s, i) {
        None => None,
        Some(p5) => match spec_status(s, p5) {
            None => None,
            Some((st, se)) => match spec_blank1(s, se) {
                None => None,
                Some(p6) => match spec_token(s, p6) {
                    None => None,
                    Some(e7) => match spec_blank1(s, e7) {
                        None => None,
                        Some(p7) => match spec_quoted(s, p7) {
                            None => None,
                            Some((referer, re)) => match spec_blank1(s, re) {
                                None => None,
                                Some(p8) => match spec_quoted(s, p8) {
                                    None => None,
                                    Some((ua, ue)) => Some((st, referer, ua, scan_while(s, ue, blank()))),
                                },
                            },
                        },
                    },
                },
            },
        },
    }
}

/// The head of the line: remote address, two ignored tokens and the
/// bracketed time, each separated by blanks. Gives the end of the address,
/// the start and end of the time.
pub open spec fn spec_head(s: Seq<char>) -> Option<(int, int, int)> {
    match spec_token(s, 0) {
        None => None,
        Some(a) => match spec_blank1(s, a) {
            None => None,
            Some(p1) => match spec_token(s, p1) {
                None => None,
                Some(e2) => match spec_blank1(s, e2) {
                    None => None,
                    Some(p2) => match spec_token(s, p2) {
                        None => None,
                        Some(e3) => match spec_blank1(s, e3) {
                            None => None,
                            Some(p3) => match spec_bracketed(s, p3) {
                                None => None,
                                Some(te) => Some((a, p3 + 1, te)),
                            },
                        },
                    },
                },
            },
        },
    }
}

/// The fields of a combined-format log line, or `None` where the line does
/// not follow the grammar. What follows the user agent and the blanks after
/// it is the rest of the line.
pub open spec fn spec_log_fields(s: Seq<char>) -> Option<LogFieldsView> {
    match spec_head(s) {
        None => None,
        Some((a, ts, te)) => match spec_blank1(s, te + 1) {
            None => None,
            Some(p4) => match spec_request(s, p4) {
                None => None,
                Some((me, us, ue, pe)) => match spec_tail(s, pe + 1) {
                    None => None,
                    Some((st, referer, ua, end)) => Some(
                        LogFieldsView {
                            remote_addr: s.subrange(0, a),
                            time: s.subrange(ts, te),
                            method: s.subrange(p4 + 1, me),
                            url: s.subrange(us, ue),
                            status: st,
                            referer: referer,
                            user_agent: ua,
                            rest: s.subrange(end, s.len() as int),
                        },
                    ),
                },
            },
        },
    }
}

// ---------------------------------------------------------------------
// Executable grammar
// ---------------------------------------------------------------------

fn token_at(s: &Vec<char>, i: usize) -> (r: Option<usize>)
    requires
        i <= s.len(),
    ensures
        r matches Some(j) ==> spec_token(s@, i as int) == Some(j as int) && j <= s.len(),
        r is None ==> spec_token(s@, i as int) is None,
{
    let j = scan_non_ws(s, i);
    if j > i {
        Some(j)
    } else {
        None
    }
}

fn blank1_at(s: &Vec<char>, i: usize) -> (r: Option<usize>)
    requires
        i <= s.len(),
    ensures
        r matches Some(j) ==> spec_blank1(s@, i as int) == Some(j as int) && j <= s.len(),
        r is None ==> spec_blank1(s@, i as int) is None,
{
    let j = scan_blank(s, i);
    if j > i {
        Some(j)
    } else {
        None
    }
}

fn bracketed_at(s: &Vec<char>, i: usize) -> (r: Option<usize>)
    requires
        i <= s.len(),
    ensures
        r matches Some(j) ==> spec_bracketed(s@, i as int) == Some(j as int) && i < j < s.len(),
        r is None ==> spec_bracketed(s@, i as int) is None,
{
    if i < s.len() && s[i] == '[' {
        let j = scan_to(s, i + 1, ']');
        if j < s.len() {
            Some(j)
        } else {
            None
        }
    } else {
        None
    }
}

fn request_at(s: &Vec<char>, i: usize) -> (r: Option<(usize, usize, usize, usize)>)
    requires
        i <= s.len(),
    ensures
        r matches Some((me, us, ue, pe)) ==> spec_request(s@, i as int) == Some(
            (me as int, us as int, ue as int, pe as int),
        ) && i < me <= us <= ue <= pe < s.len(),
        r is None ==> spec_request(s@, i as int) is None,
{
    if i < s.len() && s[i] == '"' {
        let me = token_at(s, i + 1)?;
        let us = blank1_at(s, me)?;
        let ue = scan_non_ws(s, us);
        let ps = blank1_at(s, ue)?;
        let pe = scan_to(s, ps, '"');
        if pe < s.len() {
            Some((me, us, ue, pe))
        } else {
            None
        }
    } else {
        None
    }
}

proof fn lemma_digits_value_sat(d: Seq<char>, c: char, v: nat)
    requires
        v == if digits_value(d) < 0x10000 {
            digits_value(d)
        } else {
            0x10000
        },
        is_ascii_digit(c),
    ensures
        ({
            let w = digits_value(d.push(c));
            let n = v * 10 + digit_value(c);
            (if n < 0x10000 {
                n
            } else {
                0x10000
            }) == if w < 0x10000 {
                w
            } else {
                0x10000
            }
        }),
{
    assert(d.push(c).drop_last() =~= d);
    assert(d.push(c).last() == c);
}

fn status_at(s: &Vec<char>, i: usize) -> (r: Option<(u16, usize)>)
    requires
        i <= s.len(),
    ensures
        r matches Some((v, j)) ==> spec_status(s@, i as int) == Some((v, j as int)) && j <= s.len(),
        r is None ==> spec_status(s@, i as int) is None,
{
    let j = scan_digits(s, i);
    if j == i {
        return None;
    }
    proof {
        lemma_scan_while_bounds(s@, i as int, digit());
        assert forall|x: int| i <= x < j implies #[trigger] is_ascii_digit(s@[x]) by {
            assert(digit()(s@[x]));
        }
    }
    let mut v: u32 = 0;
    let mut k = i;
    assert(s@.subrange(i as int, i as int) =~= Seq::<char>::empty());
    while k < j
        invariant
            i <= k <= j <= s.len(),
            forall|x: int| i <= x < j ==> #[trigger] is_ascii_digit(s@[x]),
            v == if digits_value(s@.subrange(i as int, k as int)) < 0x10000 {
                digits_value(s@.subrange(i as int, k as int))
            } else {
                0x10000
            },
        decreases j - k,
    {
        let c = s[k];
        assert(is_ascii_digit(s@[k as int]));
        proof {
            lemma_digits_value_sat(s@.subrange(i as int, k as int), c, v as nat);
            assert(s@.subrange(i as int, k as int).push(c) =~= s@.subrange(i as int, k + 1));
        }
        let n = v * 10 + (c as u32 - 48);
        if n < 0x10000 {
            v = n;
        } else {
            v = 0x10000;
        }
        k = k + 1;
    }
    if v < 0x10000 {
        Some((v as u16, j))
    } else {
        None
    }
}

proof fn lemma_quoted_step(s: Seq<char>, i: int, j: int, out: Seq<char>, c: char, j2: int)
    requires
        spec_quoted_body(s, i) == match spec_quoted_body(s, j) {
            Some((r, e)) => Some((out + r, e)),
            None => None,
        },
        spec_quoted_body(s, j) == match spec_quoted_body(s, j2) {
            Some((r, e)) => Some((seq![c] + r, e)),
            None => None,
        },
    ensures
        spec_quoted_body(s, i) == match spec_quoted_body(s, j2) {
            Some((r, e)) => Some((out.push(c) + r, e)),
            None => None,
        },
{
    match spec_quoted_body(s, j2) {
        Some((r, e)) => {
            assert(out + (seq![c] + r) =~= out.push(c) + r);
        },
        None => {},
    }
}

fn quoted_at(s: &Vec<char>, i: usize) -> (r: Option<(String, usize)>)
    requires
        i <= s.len(),
    ensures
        r matches Some((v, e)) ==> spec_quoted(s@, i as int) == Some((v@, e as int)) && e <= s.len(),
        r is None ==> spec_quoted(s@, i as int) is None,
{
    if i >= s.len() || s[i] != '"' {
        return None;
    }
    let mut out = String::new();
    let mut j = i + 1;
    assert(out@ + Seq::<char>::empty() =~= Seq::<char>::empty());
    loop
        invariant
            i + 1 <= j <= s.len(),
            s@[i as int] == '"',
            spec_quoted_body(s@, i + 1) == match spec_quoted_body(s@, j as int) {
                Some((r, e)) => Some((out@ + r, e)),
                None => None,
            },
        decreases s.len() - j,
    {
        if j >= s.len() {
            return None;
        }
        let c = s[j];
        if c == '"' {
            assert(spec_quoted_body(s@, j as int) == Some((Seq::<char>::empty(), j + 1)));
            assert(out@ + Seq::<char>::empty() =~= out@);
            assert(spec_quoted_body(s@, i + 1) == Some((out@, j + 1)));
            assert(spec_quoted(s@, i as int) == spec_quoted_body(s@, i + 1));
            return Some((out, j + 1));
        } else if c == '\\' {
            if j + 1 < s.len() && (s[j + 1] == '"' || s[j + 1] == '\\') {
                let d = s[j + 1];
                proof {
                    lemma_quoted_step(s@, i + 1, j as int, out@, d, j + 2);
                }
                push_char(&mut out, d);
                j = j + 2;
            } else {
                return None;
            }
        } else {
            proof {
                lemma_quoted_step(s@, i + 1, j as int, out@, c, j + 1);
            }
            push_char(&mut out, c);
            j = j + 1;
        }
    }
}

fn tail_at(s: &Vec<char>, i: usize) -> (r: Option<(u16, String, String, usize)>)
    requires
        i <= s.len(),
    ensures
        r matches Some((st, re, ua, end)) ==> spec_tail(s@, i as int) == Some((st, re@, ua@, end as int)) && end
            <= s.len(),
        r is None ==> spec_tail(s@, i as int) is None,
{
    let p5 = blank1_at(s, i)?;
    let (st, se) = status_at(s, p5)?;
    let p6 = blank1_at(s, se)?;
    let e7 = token_at(s, p6)?;
    let p7 = blank1_at(s, e7)?;
    let (referer, re) = quoted_at(s, p7)?;
    let p8 = blank1_at(s, re)?;
    let (ua, ue) = quoted_at(s, p8)?;
    let end = scan_blank(s, ue);
    Some((st, referer, ua, end))
}

fn head_at(s: &Vec<char>) -> (r: Option<(usize, usize, usize)>)
    ensures
        r matches Some((a, ts, te)) ==> spec_head(s@) == Some((a as int, ts as int, te as int))
            && 0 < a <= ts <= te < s.len(),
        r is None ==> spec_head(s@) is None,
{
    let a = token_at(s, 0)?;
    let p1 = blank1_at(s, a)?;
    let e2 = token_at(s, p1)?;
    let p2 = blank1_at(s, e2)?;
    let e3 = token_at(s, p2)?;
    let p3 = blank1_at(s, e3)?;
    let te = bracketed_at(s, p3)?;
    proof {
        lemma_scan_while_bounds(s@, 0, non_ws());
        lemma_scan_while_bounds(s@, a as int, blank());
        lemma_scan_while_bounds(s@, p1 as int, non_ws());
        lemma_scan_while_bounds(s@, e2 as int, blank());
        lemma_scan_while_bounds(s@, p2 as int, non_ws());
        lemma_scan_while_bounds(s@, e3 as int, blank());
    }
    Some((a, p3 + 1, te))
}

/// Splits a combined-format log line into its fields, or gives `None` where
/// the line does not follow the grammar.
pub fn parse_log_fields(line: &str) -> (r: Option<LogFields>)
    ensures
        r matches Some(f) ==> spec_log_fields(line@) == Some(f@),
        r is None ==> spec_log_fields(line@) is None,
{
    let s = str_chars(line);
    let (a, ts, te) = head_at(&s)?;
    let p4 = blank1_at(&s, te + 1)?;
    let (me, us, ue, pe) = request_at(&s, p4)?;
    let (status, referer, user_agent, end) = tail_at(&s, pe + 1)?;
    proof {
        lemma_scan_while_bounds(s@, te + 1, blank());
    }
    Some(
        LogFields {
            remote_addr: substring(&s, 0, a),
            time: substring(&s, ts, te),
            method: substring(&s, p4 + 1, me),
            url: substring(&s, us, ue),
            status,
            referer,
            user_agent,
            rest: substring(&s, end, s.len()),
        },
    )
}

// =====================================================================
// Time stamps (chrono)
// =====================================================================

/// What `chrono::DateTime::<FixedOffset>::parse_from_str(value, fmt)` gives,
/// taken to milliseconds since the epoch; `None` where it fails.
pub uninterp spec fn datetime_millis(value: Seq<char>, fmt: Seq<char>) -> Option<i64>;

#[verifier::external_type_specification]
#[verifier::external_body]
pub struct ExChronoParseError(chrono::format::ParseError);

/// Calls `chrono::DateTime::<FixedOffset>::parse_from_str` and takes the
/// parsed time to milliseconds with `DateTime::timestamp_millis`. The contract
/// claims that the outcome is the named result for these arguments (chrono's
/// strftime parsing is not restated) and, for the nginx format, that the
/// milliseconds are whole seconds: that format sets no fraction of a second,
/// so the parsed nanoseconds are 0 (or exactly 1_000_000_000 for a leap
/// second 60, `Parsed::to_naive_time`), and `timestamp_millis` adds
/// `nanosecond / 1_000_000` to the seconds times 1000.
#[verifier::external_body]
fn parse_datetime_millis(value: &str, fmt: &str) -> (r: Result<i64, chrono::format::ParseError>)
    ensures
        r matches Ok(v) ==> datetime_millis(value@, fmt@) == Some(v),
        r is Err ==> datetime_millis(value@, fmt@) is None,
        fmt@ == nginx_time_format() ==> (r matches Ok(v) ==> v % 1000 == 0),
{
    match chrono::DateTime::parse_from_str(value, fmt) {
        Ok(dt) => Ok(dt.timestamp_millis()),
        Err(e) => Err(e),
    }
}

/// The time format of nginx logs.
pub open spec fn nginx_time_format() -> Seq<char> {
    "%d/%b/%Y:%H:%M:%S %z"@
}

/// The time of an nginx log line (`10/Jul/2026:00:00:02 +0300`), in
/// milliseconds since the epoch.
pub open spec fn nginx_time_millis(value: Seq<char>) -> Option<i64> {
    datetime_millis(value, nginx_time_format())
}

pub fn parse_nginx_time(value: &str) -> (r: Result<i64, chrono::format::ParseError>)
    ensures
        r matches Ok(v) ==> nginx_time_millis(value@) == Some(v) && v % 1000 == 0,
        r is Err ==> nginx_time_millis(value@) is None,
{
    parse_datetime_millis(value, "%d/%b/%Y:%H:%M:%S %z")
}

// =====================================================================
// URLs (urlencoding)
// =====================================================================

/// What `urlencoding::decode` gives for a string: its percent-decoding when
/// that is valid UTF-8, `None` otherwise.
pub uninterp spec fn url_decode(s: Seq<char>) -> Option<Seq<char>>;

/// Calls `urlencoding::decode`. Besides the name of its result, the
/// contract states what its source shows directly: a string without `%` is
/// given back as it is.
#[verifier::external_body]
fn urlencoding_decode(s: &str) -> (r: Option<String>)
    ensures
        r matches Some(d) ==> url_decode(s@) == Some(d@),
        r is None ==> url_decode(s@) is None,
        !s@.contains('%') ==> r is Some,
        r matches Some(d) ==> (!s@.contains('%') ==> d@ == s@),
{
    match urlencoding::decode(s) {
        Ok(d) => Some(d.into_owned()),
        Err(_) => None,
    }
}

/// A query component after decoding; one that does not decode is kept raw.
pub open spec fn decode_or_raw(s: Seq<char>) -> Seq<char> {
    match url_decode(s) {
        Some(d) => d,
        None => s,
    }
}

pub fn decode_component(s: &str) -> (r: String)
    ensures
        r@ == decode_or_raw(s@),
{
    match urlencoding_decode(s) {
        Some(d) => d,
        None => owned(s),
    }
}

/// The path of a URL: what precedes the first `?`.
pub open spec fn url_path(u: Seq<char>) -> Seq<char> {
    before_char(u, '?')
}

/// The query string of a URL: what follows the first `?` (empty without one).
pub open spec fn url_query_str(u: Seq<char>) -> Seq<char> {
    match after_char(u, '?') {
        Some(q) => q,
        None => Seq::<char>::empty(),
    }
}

pub open spec fn pair_key(p: Seq<char>) -> Seq<char> {
    before_char(p, '=')
}

pub open spec fn pair_value(p: Seq<char>) -> Seq<char> {
    match after_char(p, '=') {
        Some(v) => v,
        None => Seq::<char>::empty(),
    }
}

/// The `key=value` pairs of the pieces, in order, leaving out those with an
/// empty key.
pub open spec fn raw_pairs(ps: Seq<Seq<char>>) -> Entries
    decreases ps.len(),
{
    if ps.len() == 0 {
        Seq::empty()
    } else if pair_key(ps[0]).len() > 0 {
        seq![(pair_key(ps[0]), pair_value(ps[0]))] + raw_pairs(ps.drop_first())
    } else {
        raw_pairs(ps.drop_first())
    }
}

/// The raw pairs of the query string of a URL.
pub open spec fn url_raw_pairs(u: Seq<char>) -> Entries {
    raw_pairs(split_on(url_query_str(u), '&'))
}

pub open spec fn decode_pairs(ps: Entries) -> Entries {
    ps.map_values(|p: (Seq<char>, Seq<char>)| (decode_or_raw(p.0), decode_or_raw(p.1)))
}

/// The map after storing each pair in turn (a later pair replaces an earlier
/// one with the same key).
pub open spec fn fold_entries(e: Entries, ps: Entries) -> Entries
    decreases ps.len(),
{
    if ps.len() == 0 {
        e
    } else {
        fold_entries(insert_entry(e, ps[0].0, ps[0].1), ps.drop_first())
    }
}

/// The query parameters of a URL, decoded.
pub open spec fn url_query(u: Seq<char>) -> Entries {
    fold_entries(Seq::empty(), decode_pairs(url_raw_pairs(u)))
}

pub open spec fn pairs_view(v: Seq<(String, String)>) -> Entries {
    v.map_values(|p: (String, String)| (p.0@, p.1@))
}

fn query_pairs(q: &Vec<char>) -> (r: Vec<(String, String)>)
    ensures
        pairs_view(r@) == raw_pairs(split_on(q@, '&')),
{
    let mut out: Vec<(String, String)> = Vec::new();
    let mut pos: usize = 0;
    assert(pairs_view(out@) + raw_pairs(split_from(q@, 0, '&')) =~= raw_pairs(split_from(q@, 0, '&')));
    loop
        invariant
            pos <= q.len(),
            raw_pairs(split_on(q@, '&')) == pairs_view(out@) + raw_pairs(split_from(q@, pos as int, '&')),
        decreases q.len() - pos,
    {
        let j = scan_to(q, pos, '&');
        let piece = sub_vec(q, pos, j);
        let k = scan_to(&piece, 0, '=');
        let ghost ps = split_from(q@, pos as int, '&');
        let ghost rest = if j < q.len() { split_from(q@, j + 1, '&') } else { Seq::<Seq<char>>::empty() };
        assert(ps =~= seq![piece@] + rest);
        assert(ps[0] == piece@);
        assert(ps.drop_first() =~= rest);
        let ghost before = pairs_view(out@);
        if k > 0 {
            let key = substring(&piece, 0, k);
            let value = if k < piece.len() { substring(&piece, k + 1, piece.len()) } else { String::new() };
            assert(pair_key(piece@) == key@);
            assert(pair_value(piece@) == value@);
            out.push((key, value));
            assert(pairs_view(out@) =~= before.push((pair_key(piece@), pair_value(piece@))));
            assert(before + raw_pairs(ps) =~= pairs_view(out@) + raw_pairs(rest));
        } else {
            assert(pair_key(piece@).len() == 0);
        }
        if j == q.len() {
            assert(raw_pairs(rest) =~= Seq::<(Seq<char>, Seq<char>)>::empty());
            assert(pairs_view(out@) + Seq::<(Seq<char>, Seq<char>)>::empty() =~= pairs_view(out@));
            return out;
        }
        pos = j + 1;
    }
}

/// Splits a URL into its path and the raw `key=value` pairs of its query
/// string (pairs with an empty key left out).
pub fn split_url(url: &str) -> (r: (String, Vec<(String, String)>))
    ensures
        r.0@ == url_path(url@),
        pairs_view(r.1@) == url_raw_pairs(url@),
{
    let u = str_chars(url);
    let q = scan_to(&u, 0, '?');
    let path = substring(&u, 0, q);
    let query = if q < u.len() { sub_vec(&u, q + 1, u.len()) } else { Vec::new() };
    assert(query@ == url_query_str(url@));
    let pairs = query_pairs(&query);
    (path, pairs)
}

/// The map that holds each pair in turn, a later pair replacing an earlier
/// one with the same key.
pub fn build_query(pairs: &Vec<(String, String)>) -> (r: StrMap)
    ensures
        r@ == fold_entries(Seq::empty(), pairs_view(pairs@)),
{
    let mut m = StrMap::new();
    let mut i: usize = 0;
    assert(pairs_view(pairs@).skip(0) =~= pairs_view(pairs@));
    while i < pairs.len()
        invariant
            i <= pairs.len(),
            fold_entries(Seq::empty(), pairs_view(pairs@)) == fold_entries(m@, pairs_view(pairs@).skip(i as int)),
        decreases pairs.len() - i,
    {
        let ghost ps = pairs_view(pairs@).skip(i as int);
        assert(ps[0] == (pairs@[i as int].0@, pairs@[i as int].1@));
        assert(ps.drop_first() =~= pairs_view(pairs@).skip(i + 1));
        let k = pairs[i].0.clone();
        let v = pairs[i].1.clone();
        m.insert(k, v);
        i = i + 1;
    }
    assert(pairs_view(pairs@).skip(i as int) =~= Seq::<(Seq<char>, Seq<char>)>::empty());
    m
}

/// The path of a URL and its decoded query parameters.
pub fn parse_url(url: &str) -> (r: (String, StrMap))
    ensures
        r.0@ == url_path(url@),
        r.1@ == url_query(url@),
{
    let (path, raw) = split_url(url);
    let mut decoded: Vec<(String, String)> = Vec::new();
    let mut i: usize = 0;
    while i < raw.len()
        invariant
            i <= raw.len(),
            pairs_view(raw@) == url_raw_pairs(url@),
            pairs_view(decoded@) == decode_pairs(pairs_view(raw@).take(i as int)),
        decreases raw.len() - i,
    {
        let k = decode_component(raw[i].0.as_str());
        let v = decode_component(raw[i].1.as_str());
        let ghost before = decoded@;
        assert(pairs_view(raw@)[i as int] == (raw@[i as int].0@, raw@[i as int].1@));
        decoded.push((k, v));
        assert(decoded@ == before.push((k, v)));
        assert(pairs_view(decoded@) =~= pairs_view(before).push((k@, v@)));
        assert(pairs_view(raw@).take(i + 1) =~= pairs_view(raw@).take(i as int).push(pairs_view(raw@)[i as int]));
        i = i + 1;
        assert(pairs_view(decoded@) =~= decode_pairs(pairs_view(raw@).take(i as int)));
    }
    assert(pairs_view(raw@).take(i as int) =~= pairs_view(raw@));
    let query = build_query(&decoded);
    (path, query)
}

// =====================================================================
// Parsed lines and pixel events
// =====================================================================

/// One log line, with its time stamp and query parameters decoded.
pub struct ParsedLine {
    pub remote_addr: String,
    pub timestamp: i64,
    pub method: String,
    pub path: String,
    pub query: StrMap,
    pub status: u16,
    pub referer: String,
    pub user_agent: String,
}

pub struct ParsedLineView {
    pub remote_addr: Seq<char>,
    pub timestamp: i64,
    pub method: Seq<char>,
    pub path: Seq<char>,
    pub query: Entries,
    pub status: u16,
    pub referer: Seq<char>,
    pub user_agent: Seq<char>,
}

impl View for ParsedLine {
    type V = ParsedLineView;

    open spec fn view(&self) -> ParsedLineView {
        ParsedLineView {
            remote_addr: self.remote_addr@,
            timestamp: self.timestamp,
            method: self.method@,
            path: self.path@,
            query: self.query@,
            status: self.status,
            referer: self.referer@,
            user_agent: self.user_agent@,
        }
    }
}

/// What a log line parses to: the fields of the grammar, the time stamp in
/// milliseconds (the line is refused where the time does not parse), the
/// path of the URL and its decoded query.
pub open spec fn spec_parse_line(s: Seq<char>) -> Option<ParsedLineView> {
    match spec_log_fields(s) {
        None => None,
        Some(f) => match nginx_time_millis(f.time) {
            None => None,
            Some(ts) => Some(spec_line_of(f, ts)),
        },
    }
}

/// The parsed line for the fields of a log line and its time stamp.
pub open spec fn spec_line_of(f: LogFieldsView, ts: i64) -> ParsedLineView {
    ParsedLineView {
        remote_addr: f.remote_addr,
        timestamp: ts,
        method: f.method,
        path: url_path(f.url),
        query: url_query(f.url),
        status: f.status,
        referer: f.referer,
        user_agent: f.user_agent,
    }
}

/// The parsed line for the fields of a log line and the time stamp that its
/// time field gave.
pub fn parsed_line_from(fields: LogFields, timestamp: i64) -> (r: ParsedLine)
    ensures
        r@ == spec_line_of(fields@, timestamp),
{
    let (path, query) = parse_url(fields.url.as_str());
    ParsedLine {
        remote_addr: fields.remote_addr,
        timestamp,
        method: fields.method,
        path,
        query,
        status: fields.status,
        referer: fields.referer,
        user_agent: fields.user_agent,
    }
}

/// The parsed line and the rest of the input after it, or `None` where the
/// line does not parse.
fn parse_combined_line(input: &str) -> (r: Option<(String, ParsedLine)>)
    ensures
        r matches Some((rest, p)) ==> spec_parse_line(input@) == Some(p@) && (spec_log_fields(input@) matches Some(
            f,
        ) && rest@ == f.rest) && p.timestamp % 1000 == 0,
        r is None ==> spec_parse_line(input@) is None,
{
    let fields = parse_log_fields(input)?;
    let rest = owned(fields.rest.as_str());
    let timestamp = match parse_nginx_time(fields.time.as_str()) {
        Ok(ts) => ts,
        Err(_) => return None,
    };
    Some((rest, parsed_line_from(fields, timestamp)))
}

/// A page view reported by the tracking pixel.
pub struct PixelEvent {
    pub timestamp: i64,
    pub ip: String,
    pub page: String,
    pub host: String,
    pub referer: String,
    pub referer_domain: String,
    pub user_agent: String,
    pub lang: String,
    pub utm_source: String,
    pub utm_medium: String,
    pub utm_campaign: String,
    pub utm_content: String,
    pub utm_term: String,
}

pub struct PixelEventView {
    pub timestamp: i64,
    pub ip: Seq<char>,
    pub page: Seq<char>,
    pub host: Seq<char>,
    pub referer: Seq<char>,
    pub referer_domain: Seq<char>,
    pub user_agent: Seq<char>,
    pub lang: Seq<char>,
    pub utm_source: Seq<char>,
    pub utm_medium: Seq<char>,
    pub utm_campaign: Seq<char>,
    pub utm_content: Seq<char>,
    pub utm_term: Seq<char>,
}

impl View for PixelEvent {
    type V = PixelEventView;

    open spec fn view(&self) -> PixelEventView {
        PixelEventView {
            timestamp: self.timestamp,
            ip: self.ip@,
            page: self.page@,
            host: self.host@,
            referer: self.referer@,
            referer_domain: self.referer_domain@,
            user_agent: self.user_agent@,
            lang: self.lang@,
            utm_source: self.utm_source@,
            utm_medium: self.utm_medium@,
            utm_campaign: self.utm_campaign@,
            utm_content: self.utm_content@,
            utm_term: self.utm_term@,
        }
    }
}

impl Clone for PixelEvent {
    fn clone(&self) -> (r: Self)
        ensures
            r@ == self@,
    {
        PixelEvent {
            timestamp: self.timestamp,
            ip: self.ip.clone(),
            page: self.page.clone(),
            host: self.host.clone(),
            referer: self.referer.clone(),
            referer_domain: self.referer_domain.clone(),
            user_agent: self.user_agent.clone(),
            lang: self.lang.clone(),
            utm_source: self.utm_source.clone(),
            utm_medium: self.utm_medium.clone(),
            utm_campaign: self.utm_campaign.clone(),
            utm_content: self.utm_content.clone(),
            utm_term: self.utm_term.clone(),
        }
    }
}

impl Default for PixelEvent {
    fn default() -> (r: Self)
        ensures
            r.timestamp == 0,
            r.ip@.len() == 0,
            r.page@.len() == 0,
            r.host@.len() == 0,
            r.referer@.len() == 0,
            r.referer_domain@.len() == 0,
            r.user_agent@.len() == 0,
            r.lang@.len() == 0,
            r.utm_source@.len() == 0,
            r.utm_medium@.len() == 0,
            r.utm_campaign@.len() == 0,
            r.utm_content@.len() == 0,
            r.utm_term@.len() == 0,
    {
        PixelEvent {
            timestamp: 0,
            ip: String::new(),
            page: String::new(),
            host: String::new(),
            referer: String::new(),
            referer_domain: String::new(),
            user_agent: String::new(),
            lang: String::new(),
            utm_source: String::new(),
            utm_medium: String::new(),
            utm_campaign: String::new(),
            utm_content: String::new(),
            utm_term: String::new(),
        }
    }
}

/// The position of the first `://` at or after `i`, or the length of `s`.
pub open spec fn find_scheme_sep(s: Seq<char>, i: int) -> int
    decreases s.len() - i,
{
    if i < 0 || i + 3 > s.len() {
        s.len() as int
    } else if s[i] == ':' && s[i + 1] == '/' && s[i + 2] == '/' {
        i
    } else {
        find_scheme_sep(s, i + 1)
    }
}

/// The host part of a URL or bare domain, before lower-casing: after `://`
/// where there is one, up to the first `/`, without a `:port`.
pub open spec fn domain_host(u: Seq<char>) -> Seq<char> {
    let p = find_scheme_sep(u, 0);
    if p < u.len() {
        before_char(before_char(u.subrange(p + 3, u.len() as int), '/'), ':')
    } else {
        before_char(before_char(u, '/'), ':')
    }
}

pub open spec fn direct_chars() -> Seq<char> {
    seq!['d', 'i', 'r', 'e', 'c', 't']
}

/// The domain of a referer: `direct` for an empty one, else its host part
/// lower-cased.
pub open spec fn spec_extract_domain(u: Seq<char>) -> Seq<char> {
    if u.len() == 0 {
        direct_chars()
    } else {
        unicode_lowercase(domain_host(u))
    }
}

fn scheme_sep(u: &Vec<char>) -> (p: usize)
    ensures
        p == find_scheme_sep(u@, 0),
        p == u.len() || p + 3 <= u.len(),
{
    let mut i: usize = 0;
    while i < u.len() && u.len() - i >= 3
        invariant
            i <= u.len(),
            find_scheme_sep(u@, 0) == find_scheme_sep(u@, i as int),
        decreases u.len() - i,
    {
        if u[i] == ':' && u[i + 1] == '/' && u[i + 2] == '/' {
            return i;
        }
        i = i + 1;
    }
    u.len()
}

/// The host part of a URL or bare domain, before lower-casing.
pub fn domain_host_of(url: &str) -> (r: String)
    ensures
        r@ == domain_host(url@),
{
    let u = str_chars(url);
    let p = scheme_sep(&u);
    let rem = if p < u.len() { sub_vec(&u, p + 3, u.len()) } else { u };
    let slash = scan_to(&rem, 0, '/');
    let host = sub_vec(&rem, 0, slash);
    let colon = scan_to(&host, 0, ':');
    substring(&host, 0, colon)
}

pub fn extract_domain(url: &str) -> (r: String)
    ensures
        r@ == spec_extract_domain(url@),
        url@.len() > 0 && all_ascii(domain_host(url@)) ==> r@ == domain_host(url@).map_values(
            |c: char| ascii_lower(c),
        ),
{
    if url.is_empty() {
        let d = owned("direct");
        proof {
            reveal_strlit("direct");
        }
        assert(d@ =~= direct_chars());
        return d;
    }
    let host = domain_host_of(url);
    to_lowercase(host.as_str())
}

/// The value stored under `k`, or `d` where there is none.
pub open spec fn get_or(e: Entries, k: Seq<char>, d: Seq<char>) -> Seq<char> {
    match find_key(e, k) {
        Some(v) => v,
        None => d,
    }
}

fn query_get_or(m: &StrMap, k: &str, d: String) -> (r: String)
    ensures
        r@ == get_or(m@, k@, d@),
{
    match m.get(k) {
        Some(v) => v.clone(),
        None => d,
    }
}

/// The pixel event that a parsed line reports: only `GET` requests of
/// `/pixel` (ASCII case ignored) answered with 200 count. The page loses its
/// own query string; the host defaults to `direct`, the referer to the one
/// of the request line, the other parameters to empty.
pub open spec fn spec_pixel_event(p: ParsedLineView) -> Option<PixelEventView> {
    if p.method != seq!['G', 'E', 'T'] || !eq_ignore_ascii_case(
        p.path,
        seq!['/', 'p', 'i', 'x', 'e', 'l'],
    ) || p.status != 200 {
        None
    } else {
        let referer = get_or(p.query, "ref"@, p.referer);
        Some(
            PixelEventView {
                timestamp: p.timestamp,
                ip: p.remote_addr,
                page: before_char(get_or(p.query, "page"@, Seq::empty()), '?'),
                host: get_or(p.query, "host"@, direct_chars()),
                referer: referer,
                referer_domain: spec_extract_domain(referer),
                user_agent: p.user_agent,
                lang: get_or(p.query, "lang"@, Seq::empty()),
                utm_source: get_or(p.query, "utm_source"@, Seq::empty()),
                utm_medium: get_or(p.query, "utm_medium"@, Seq::empty()),
                utm_campaign: get_or(p.query, "utm_campaign"@, Seq::empty()),
                utm_content: get_or(p.query, "utm_content"@, Seq::empty()),
                utm_term: get_or(p.query, "utm_term"@, Seq::empty()),
            },
        )
    }
}

/// The pixel event that a parsed line reports, if it reports one.
pub fn pixel_event_from(parsed: ParsedLine) -> (r: Option<PixelEvent>)
    ensures
        r matches Some(e) ==> spec_pixel_event(parsed@) == Some(e@),
        r is None ==> spec_pixel_event(parsed@) is None,
{
    let get = owned("GET");
    let pixel = owned("/pixel");
    proof {
        reveal_strlit("GET");
        reveal_strlit("/pixel");
    }
    assert(get@ =~= seq!['G', 'E', 'T']);
    assert(pixel@ =~= seq!['/', 'p', 'i', 'x', 'e', 'l']);
    if parsed.method != get || !str_eq_ignore_ascii_case(parsed.path.as_str(), pixel.as_str()) {
        return None;
    }
    if parsed.status != 200 {
        return None;
    }
    let page_full = query_get_or(&parsed.query, "page", String::new());
    let page_chars = str_chars(page_full.as_str());
    let q = scan_to(&page_chars, 0, '?');
    let page = substring(&page_chars, 0, q);
    let direct = owned("direct");
    proof {
        reveal_strlit("direct");
    }
    assert(direct@ =~= direct_chars());
    let host = query_get_or(&parsed.query, "host", direct);
    let referer = query_get_or(&parsed.query, "ref", parsed.referer);
    let referer_domain = extract_domain(referer.as_str());
    Some(
        PixelEvent {
            timestamp: parsed.timestamp,
            ip: parsed.remote_addr,
            page,
            host,
            referer,
            referer_domain,
            user_agent: parsed.user_agent,
            lang: query_get_or(&parsed.query, "lang", String::new()),
            utm_source: query_get_or(&parsed.query, "utm_source", String::new()),
            utm_medium: query_get_or(&parsed.query, "utm_medium", String::new()),
            utm_campaign: query_get_or(&parsed.query, "utm_campaign", String::new()),
            utm_content: query_get_or(&parsed.query, "utm_content", String::new()),
            utm_term: query_get_or(&parsed.query, "utm_term", String::new()),
        },
    )
}

/// Parses nginx log lines into pixel events.
pub struct LogParser;

impl LogParser {
    pub fn new() -> (r: Self) {
        LogParser
    }

    /// The fields of a combined-format log line, or `None` where it does not
    /// parse.
    pub fn parse_line(&self, line: &str) -> (r: Option<ParsedLine>)
        ensures
            r matches Some(p) ==> spec_parse_line(line@) == Some(p@) && p.timestamp % 1000 == 0,
            r is None ==> spec_parse_line(line@) is None,
    {
        match parse_combined_line(line) {
            Some((_, parsed)) => Some(parsed),
            None => None,
        }
    }

    /// The pixel event that a log line reports, or `None` where the line does
    /// not parse or is no pixel hit.
    pub fn parse_pixel_event(&self, line: &str) -> (r: Option<PixelEvent>)
        ensures
            r matches Some(e) ==> (spec_parse_line(line@) matches Some(p) && spec_pixel_event(p) == Some(e@)),
            r is None ==> (spec_parse_line(line@) matches Some(p) ==> spec_pixel_event(p) is None),
    {
        let parsed = self.parse_line(line)?;
        pixel_event_from(parsed)
    }
}

} // verus!
