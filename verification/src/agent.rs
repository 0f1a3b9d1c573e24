use vstd::prelude::*;

use crate::aggregator::{MetricSample, MetricSampleView, samples_view};
use crate::parser::{digit_value, digits_value};
use crate::text::{all_ascii, ascii_lower, is_ascii_digit, is_ws, str_chars, str_eq, to_lowercase, unicode_lowercase};

verus! {

// =====================================================================
// Reading the log from an offset
// =====================================================================

/// Where a poll of the log starts.
#[derive(PartialEq, Eq, Structural, Debug, Clone, Copy)]
pub enum PollStart {
    /// The file is shorter than the offset (it was rotated): the offset goes
    /// back to 0 and nothing is read this time.
    ResetOffset,
    /// Read from this byte offset.
    ReadFrom(u64),
}

pub fn poll_start(offset: u64, file_size: u64) -> (r: PollStart)
    ensures
        r == if file_size < offset {
            PollStart::ResetOffset
        } else {
            PollStart::ReadFrom(offset)
        },
{
    if file_size < offset {
        PollStart::ResetOffset
    } else {
        PollStart::ReadFrom(offset)
    }
}

/// The offset after reading `bytes_read` more bytes.
pub fn advance_offset(offset: u64, bytes_read: u64) -> (r: u64)
    requires
        offset + bytes_read <= u64::MAX,
    ensures
        r == offset + bytes_read,
{
    offset + bytes_read
}

/// The position after the leading white space.
pub open spec fn trim_start_pos(s: Seq<char>, i: int) -> int
    decreases s.len() - i,
{
    if 0 <= i < s.len() && is_ws(s[i]) {
        trim_start_pos(s, i + 1)
    } else {
        i
    }
}

/// The position after the last character that is not white space.
pub open spec fn trim_end_pos(s: Seq<char>, j: int) -> int
    decreases j,
{
    if 0 < j <= s.len() && is_ws(s[j - 1]) {
        trim_end_pos(s, j - 1)
    } else {
        j
    }
}

/// `s` without leading and trailing white space (`str::trim`).
pub open spec fn trim(s: Seq<char>) -> Seq<char> {
    let a = trim_start_pos(s, 0);
    let b = trim_end_pos(s, s.len() as int);
    if a < b {
        s.subrange(a, b)
    } else {
        Seq::empty()
    }
}

/// `str::parse::<u64>`: an optional `+`, then one or more ASCII digits whose
/// value fits in a `u64`.
pub open spec fn spec_parse_u64(t: Seq<char>) -> Option<u64> {
    if t.len() > 0 && t[0] == '+' {
        parse_digits(t.drop_first())
    } else {
        parse_digits(t)
    }
}

pub open spec fn all_digits(d: Seq<char>) -> bool {
    forall|i: int| 0 <= i < d.len() ==> is_ascii_digit(#[trigger] d[i])
}

/// One or more ASCII digits whose value fits in a `u64`.
pub open spec fn parse_digits(d: Seq<char>) -> Option<u64> {
    if d.len() > 0 && all_digits(d) && digits_value(d) <= u64::MAX {
        Some(digits_value(d) as u64)
    } else {
        None
    }
}

/// The offset stored in a file's content: the trimmed content as a `u64`.
pub open spec fn spec_parse_offset(content: Seq<char>) -> Option<u64> {
    spec_parse_u64(trim(content))
}

proof fn lemma_digits_sat(d: Seq<char>, c: char, v: nat, bound: nat)
    requires
        v == (if digits_value(d) < bound {
            digits_value(d)
        } else {
            bound
        }),
        is_ascii_digit(c),
    ensures
        ({
            let w = digits_value(d.push(c));
            let n = v * 10 + digit_value(c);
            (if n < bound {
                n
            } else {
                bound as int
            }) == (if w < bound {
                w as int
            } else {
                bound as int
            })
        }),
{
    assert(d.push(c).drop_last() =~= d);
    assert(d.push(c).last() == c);
}

fn trimmed_range(s: &Vec<char>) -> (r: (usize, usize))
    ensures
        r.0 <= r.1 <= s.len(),
        s@.subrange(r.0 as int, r.1 as int) == trim(s@),
{
    let mut a: usize = 0;
    while a < s.len() && crate::text::char_is_ws(s[a])
        invariant
            a <= s.len(),
            trim_start_pos(s@, 0) == trim_start_pos(s@, a as int),
        decreases s.len() - a,
    {
        a = a + 1;
    }
    let mut b: usize = s.len();
    while b > 0 && crate::text::char_is_ws(s[b - 1])
        invariant
            b <= s.len(),
            trim_end_pos(s@, s.len() as int) == trim_end_pos(s@, b as int),
        decreases b,
    {
        b = b - 1;
    }
    if a < b {
        (a, b)
    } else {
        assert(s@.subrange(a as int, a as int) =~= Seq::<char>::empty());
        (a, a)
    }
}

/// The offset stored in a file's content, or `None` where it is no number.
pub fn parse_offset(content: &str) -> (r: Option<u64>)
    ensures
        r == spec_parse_offset(content@),
{
    let s = str_chars(content);
    let (a, b) = trimmed_range(&s);
    let ghost t = trim(content@);
    let mut start = a;
    if a < b && s[a] == '+' {
        start = a + 1;
    }
    let ghost d = s@.subrange(start as int, b as int);
    assert(d == if t.len() > 0 && t[0] == '+' { t.drop_first() } else { t });
    if start == b {
        return None;
    }
    let bound: u128 = 0x1_0000_0000_0000_0000;
    let mut v: u128 = 0;
    let mut k = start;
    assert(s@.subrange(start as int, start as int) =~= Seq::<char>::empty());
    while k < b
        invariant
            start <= k <= b <= s.len(),
            d == s@.subrange(start as int, b as int),
            t == trim(content@),
            d == (if t.len() > 0 && t[0] == '+' { t.drop_first() } else { t }),
            d.len() > 0,
            bound == 0x1_0000_0000_0000_0000,
            forall|x: int| start <= x < k ==> #[trigger] is_ascii_digit(s@[x]),
            v == if digits_value(s@.subrange(start as int, k as int)) < bound {
                digits_value(s@.subrange(start as int, k as int))
            } else {
                bound as nat
            },
        decreases b - k,
    {
        let c = s[k];
        if !('0' <= c && c <= '9') {
            assert(d[k - start] == c);
            assert(!is_ascii_digit(d[k - start]));
            assert(!all_digits(d));
            return None;
        }
        proof {
            lemma_digits_sat(s@.subrange(start as int, k as int), c, v as nat, bound as nat);
            assert(s@.subrange(start as int, k as int).push(c) =~= s@.subrange(start as int, k + 1));
        }
        let n = v * 10 + (c as u32 - 48) as u128;
        if n < bound {
            v = n;
        } else {
            v = bound;
        }
        k = k + 1;
    }
    assert(all_digits(d)) by {
        assert forall|i: int| 0 <= i < d.len() implies is_ascii_digit(#[trigger] d[i]) by {
            assert(d[i] == s@[start + i]);
        }
    }
    if v < bound {
        Some(v as u64)
    } else {
        None
    }
}

// =====================================================================
// Flushing
// =====================================================================

/// The latest bucket time among the samples, 0 for none.
pub open spec fn max_sample_time(s: Seq<MetricSampleView>) -> i64
    decreases s.len(),
{
    if s.len() == 0 {
        0
    } else if s.len() == 1 {
        s[0].timestamp_ms
    } else {
        let m = max_sample_time(s.drop_last());
        if s.last().timestamp_ms > m {
            s.last().timestamp_ms
        } else {
            m
        }
    }
}

pub fn max_timestamp(samples: &Vec<MetricSample>) -> (r: i64)
    ensures
        r == max_sample_time(samples_view(samples@)),
{
    let ghost sv = samples_view(samples@);
    let mut m: i64 = 0;
    let mut i: usize = 0;
    while i < samples.len()
        invariant
            i <= samples.len(),
            sv == samples_view(samples@),
            m == max_sample_time(sv.take(i as int)),
        decreases samples.len() - i,
    {
        let t = samples[i].timestamp_ms;
        let ghost tk = sv.take(i + 1);
        assert(tk.drop_last() =~= sv.take(i as int));
        assert(tk.last() == sv[i as int]);
        assert(sv[i as int].timestamp_ms == t);
        if i == 0 || t > m {
            m = t;
        }
        i = i + 1;
    }
    assert(sv.take(i as int) =~= sv);
    m
}

// =====================================================================
// Log levels
// =====================================================================

#[derive(PartialEq, Eq, Structural, Debug, Clone, Copy)]
pub enum LogLevel {
    Trace,
    Debug,
    Info,
    Warn,
    Error,
}

/// The level that a lower-cased setting names: `trace`, `debug`, `warn`
/// and `error` name theirs, anything else is `Info`.
pub open spec fn spec_level_of(l: Seq<char>) -> LogLevel {
    if l == "trace"@ {
        LogLevel::Trace
    } else if l == "debug"@ {
        LogLevel::Debug
    } else if l == "warn"@ {
        LogLevel::Warn
    } else if l == "error"@ {
        LogLevel::Error
    } else {
        LogLevel::Info
    }
}

/// The level that a setting names, after lower-casing.
pub open spec fn spec_log_level(name: Seq<char>) -> LogLevel {
    spec_level_of(unicode_lowercase(name))
}

/// The level that an already lower-cased setting names.
pub fn level_of_lowercase(l: &str) -> (r: LogLevel)
    ensures
        r == spec_level_of(l@),
{
    if str_eq(l, "trace") {
        LogLevel::Trace
    } else if str_eq(l, "debug") {
        LogLevel::Debug
    } else if str_eq(l, "warn") {
        LogLevel::Warn
    } else if str_eq(l, "error") {
        LogLevel::Error
    } else {
        LogLevel::Info
    }
}

pub fn log_level_from_name(level: &str) -> (r: LogLevel)
    ensures
        r == spec_log_level(level@),
        all_ascii(level@) ==> r == spec_level_of(level@.map_values(|c: char| ascii_lower(c))),
{
    let l = to_lowercase(level);
    level_of_lowercase(l.as_str())
}

} // verus!
