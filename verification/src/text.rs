use vstd::prelude::*;
use vstd::seq_lib::{to_multiset_insert, to_multiset_build, to_multiset_remove, to_multiset_len, to_multiset_contains};

verus! {

// ---------------------------------------------------------------------
// Character classes
// ---------------------------------------------------------------------

/// The Unicode `White_Space` property, which is what `char::is_whitespace` tests.
pub open spec fn is_ws(c: char) -> bool {
    let n = c as u32;
    ||| (0x09 <= n && n <= 0x0d)
    ||| n == 0x20
    ||| n == 0x85
    ||| n == 0xa0
    ||| n == 0x1680
    ||| (0x2000 <= n && n <= 0x200a)
    ||| n == 0x2028
    ||| n == 0x2029
    ||| n == 0x202f
    ||| n == 0x205f
    ||| n == 0x3000
}

pub fn char_is_ws(c: char) -> (r: bool)
    ensures
        r == is_ws(c),
{
    let n = c as u32;
    (0x09 <= n && n <= 0x0d) || n == 0x20 || n == 0x85 || n == 0xa0 || n == 0x1680 || (0x2000
        <= n && n <= 0x200a) || n == 0x2028 || n == 0x2029 || n == 0x202f || n == 0x205f || n
        == 0x3000
}

pub open spec fn is_ascii_digit(c: char) -> bool {
    '0' <= c && c <= '9'
}

pub open spec fn is_ascii_upper(c: char) -> bool {
    'A' <= c && c <= 'Z'
}

/// ASCII lower-casing of one character (other characters are kept).
pub open spec fn ascii_lower(c: char) -> char {
    if is_ascii_upper(c) {
        ((c as u32) + 32) as char
    } else {
        c
    }
}

pub fn char_ascii_lower(c: char) -> (r: char)
    ensures
        r == ascii_lower(c),
{
    if 'A' <= c && c <= 'Z' {
        let n: u32 = (c as u32) + 32;
        assert(n < 0xd800);
        let r = n as u8 as char;
        assert(r == ((c as u32) + 32) as char);
        r
    } else {
        c
    }
}

// ---------------------------------------------------------------------
// Scanning
// ---------------------------------------------------------------------

/// The first position at or after `i` whose character does not satisfy `p`
/// (or the end of `s`).
pub open spec fn scan_while(s: Seq<char>, i: int, p: spec_fn(char) -> bool) -> int
    decreases s.len() - i,
{
    if 0 <= i < s.len() && p(s[i]) {
        scan_while(s, i + 1, p)
    } else {
        i
    }
}

pub proof fn lemma_scan_while_bounds(s: Seq<char>, i: int, p: spec_fn(char) -> bool)
    requires
        0 <= i <= s.len(),
    ensures
        i <= scan_while(s, i, p) <= s.len(),
        forall|k: int| i <= k < scan_while(s, i, p) ==> #[trigger] p(s[k]),
        scan_while(s, i, p) < s.len() ==> !p(s[scan_while(s, i, p)]),
    decreases s.len() - i,
{
    if i < s.len() && p(s[i]) {
        lemma_scan_while_bounds(s, i + 1, p);
    }
}

pub open spec fn non_ws() -> spec_fn(char) -> bool {
    |c: char| !is_ws(c)
}

pub open spec fn blank() -> spec_fn(char) -> bool {
    |c: char| c == ' ' || c == '\t'
}

pub open spec fn digit() -> spec_fn(char) -> bool {
    |c: char| is_ascii_digit(c)
}

pub open spec fn not_char(x: char) -> spec_fn(char) -> bool {
    |c: char| c != x
}

pub fn scan_non_ws(s: &Vec<char>, i: usize) -> (j: usize)
    requires
        i <= s.len(),
    ensures
        j == scan_while(s@, i as int, non_ws()),
        i <= j <= s.len(),
{
    let mut j = i;
    while j < s.len() && !char_is_ws(s[j])
        invariant
            i <= j <= s.len(),
            scan_while(s@, j as int, non_ws()) == scan_while(s@, i as int, non_ws()),
        decreases s.len() - j,
    {
        j = j + 1;
    }
    j
}

pub fn scan_blank(s: &Vec<char>, i: usize) -> (j: usize)
    requires
        i <= s.len(),
    ensures
        j == scan_while(s@, i as int, blank()),
        i <= j <= s.len(),
{
    let mut j = i;
    while j < s.len() && (s[j] == ' ' || s[j] == '\t')
        invariant
            i <= j <= s.len(),
            scan_while(s@, j as int, blank()) == scan_while(s@, i as int, blank()),
        decreases s.len() - j,
    {
        j = j + 1;
    }
    j
}

pub fn scan_digits(s: &Vec<char>, i: usize) -> (j: usize)
    requires
        i <= s.len(),
    ensures
        j == scan_while(s@, i as int, digit()),
        i <= j <= s.len(),
{
    let mut j = i;
    while j < s.len() && ('0' <= s[j] && s[j] <= '9')
        invariant
            i <= j <= s.len(),
            scan_while(s@, j as int, digit()) == scan_while(s@, i as int, digit()),
        decreases s.len() - j,
    {
        j = j + 1;
    }
    j
}

pub fn scan_to(s: &Vec<char>, i: usize, x: char) -> (j: usize)
    requires
        i <= s.len(),
    ensures
        j == scan_while(s@, i as int, not_char(x)),
        i <= j <= s.len(),
{
    let mut j = i;
    while j < s.len() && s[j] != x
        invariant
            i <= j <= s.len(),
            scan_while(s@, j as int, not_char(x)) == scan_while(s@, i as int, not_char(x)),
        decreases s.len() - j,
    {
        j = j + 1;
    }
    j
}

// ---------------------------------------------------------------------
// Splitting
// ---------------------------------------------------------------------

/// The part of `s` before the first `x` (all of `s` when there is none):
/// what `s.split(x).next()` yields.
pub open spec fn before_char(s: Seq<char>, x: char) -> Seq<char> {
    s.subrange(0, scan_while(s, 0, not_char(x)))
}

/// The part of `s` after the first `x`, if `s` holds one.
pub open spec fn after_char(s: Seq<char>, x: char) -> Option<Seq<char>> {
    let j = scan_while(s, 0, not_char(x));
    if j < s.len() {
        Some(s.subrange(j + 1, s.len() as int))
    } else {
        None
    }
}

/// The pieces of `s[i..]` between occurrences of `x`.
pub open spec fn split_from(s: Seq<char>, i: int, x: char) -> Seq<Seq<char>>
    decreases s.len() - i,
{
    let j = scan_while(s, i, not_char(x));
    if 0 <= i <= j < s.len() {
        seq![s.subrange(i, j)] + split_from(s, j + 1, x)
    } else {
        seq![s.subrange(i, s.len() as int)]
    }
}

/// The pieces of `s` between occurrences of `x`, as `str::split` gives them.
pub open spec fn split_on(s: Seq<char>, x: char) -> Seq<Seq<char>> {
    split_from(s, 0, x)
}

/// A vector of the characters `s[from..to]`.
pub fn sub_vec(s: &Vec<char>, from: usize, to: usize) -> (r: Vec<char>)
    requires
        from <= to <= s.len(),
    ensures
        r@ == s@.subrange(from as int, to as int),
{
    let mut r: Vec<char> = Vec::new();
    let mut i = from;
    while i < to
        invariant
            from <= i <= to <= s.len(),
            r@ == s@.subrange(from as int, i as int),
        decreases to - i,
    {
        r.push(s[i]);
        i = i + 1;
        assert(r@ =~= s@.subrange(from as int, i as int));
    }
    r
}

// ---------------------------------------------------------------------
// Strings
// ---------------------------------------------------------------------

/// Appends one character to a string (`String::push`).
#[verifier::external_body]
pub(crate) fn push_char(s: &mut String, c: char)
    ensures
        final(s)@ == old(s)@.push(c),
{
    s.push(c);
}

/// The characters of a string slice, in order.
pub fn str_chars(s: &str) -> (r: Vec<char>)
    ensures
        r@ == s@,
{
    let mut r: Vec<char> = Vec::new();
    for c in it: s.chars()
        invariant
            r@ == it.seq().take(it.index() as int),
            it.seq() == s@,
    {
        r.push(c);
    }
    r
}

/// A string made of the characters `s[from..to]`.
pub fn substring(s: &Vec<char>, from: usize, to: usize) -> (r: String)
    requires
        from <= to <= s.len(),
    ensures
        r@ == s@.subrange(from as int, to as int),
{
    let mut r = String::new();
    let mut i = from;
    while i < to
        invariant
            from <= i <= to <= s.len(),
            r@ == s@.subrange(from as int, i as int),
        decreases to - i,
    {
        push_char(&mut r, s[i]);
        i = i + 1;
        assert(r@ =~= s@.subrange(from as int, i as int));
    }
    r
}

/// Appends the characters of `t` to `s`.
pub fn push_str(s: &mut String, t: &str)
    ensures
        final(s)@ == old(s)@ + t@,
{
    let cs = str_chars(t);
    let mut i: usize = 0;
    while i < cs.len()
        invariant
            i <= cs.len(),
            cs@ == t@,
            s@ == old(s)@ + t@.take(i as int),
        decreases cs.len() - i,
    {
        push_char(s, cs[i]);
        i = i + 1;
        assert(s@ =~= old(s)@ + t@.take(i as int));
    }
    assert(t@.take(i as int) =~= t@);
}

/// An owned copy of a string slice.
pub fn owned(t: &str) -> (r: String)
    ensures
        r@ == t@,
{
    t.to_owned()
}

/// Whether two strings hold the same characters.
pub fn str_eq(a: &str, b: &str) -> (r: bool)
    ensures
        r == (a@ == b@),
{
    let x = owned(a);
    let y = owned(b);
    x == y
}

/// Lower-casing of a string as `str::to_lowercase` does it (Unicode rules).
pub uninterp spec fn unicode_lowercase(s: Seq<char>) -> Seq<char>;

/// Whether every character is ASCII.
pub open spec fn all_ascii(s: Seq<char>) -> bool {
    forall|i: int| 0 <= i < s.len() ==> (#[trigger] s[i] as u32) < 128
}

/// `str::to_lowercase`: the string lower-cased by the Unicode rules. The
/// general mapping (the Unicode `Lowercase` mapping) takes tables to state
/// and is only named; for a string of ASCII characters the contract states
/// what std documents for ASCII: each letter `A`-`Z` becomes `a`-`z` and every
/// other character stays.
#[verifier::external_body]
pub(crate) fn to_lowercase(s: &str) -> (r: String)
    ensures
        r@ == unicode_lowercase(s@),
        all_ascii(s@) ==> r@ == s@.map_values(|c: char| ascii_lower(c)),
{
    s.to_lowercase()
}

/// Whether `a` and `b` are equal when ASCII letters are compared without case
/// (`str::eq_ignore_ascii_case`).
pub open spec fn eq_ignore_ascii_case(a: Seq<char>, b: Seq<char>) -> bool {
    &&& a.len() == b.len()
    &&& forall|i: int| 0 <= i < a.len() ==> ascii_lower(#[trigger] a[i]) == ascii_lower(b[i])
}

pub fn str_eq_ignore_ascii_case(a: &str, b: &str) -> (r: bool)
    ensures
        r == eq_ignore_ascii_case(a@, b@),
{
    let x = str_chars(a);
    let y = str_chars(b);
    if x.len() != y.len() {
        return false;
    }
    let mut i: usize = 0;
    while i < x.len()
        invariant
            x@ == a@,
            y@ == b@,
            x.len() == y.len(),
            i <= x.len(),
            forall|k: int| 0 <= k < i ==> ascii_lower(#[trigger] x@[k]) == ascii_lower(y@[k]),
        decreases x.len() - i,
    {
        if char_ascii_lower(x[i]) != char_ascii_lower(y[i]) {
            return false;
        }
        i = i + 1;
    }
    true
}

// ---------------------------------------------------------------------
// Lexicographic order (the order of `str`: UTF-8 bytes compare as code points)
// ---------------------------------------------------------------------

pub open spec fn lex_lt(a: Seq<char>, b: Seq<char>) -> bool
    decreases a.len(),
{
    if a.len() == 0 {
        b.len() > 0
    } else if b.len() == 0 {
        false
    } else if a[0] != b[0] {
        a[0] < b[0]
    } else {
        lex_lt(a.drop_first(), b.drop_first())
    }
}

pub proof fn lemma_lex_irreflexive(a: Seq<char>)
    ensures
        !lex_lt(a, a),
    decreases a.len(),
{
    if a.len() > 0 {
        lemma_lex_irreflexive(a.drop_first());
    }
}

pub proof fn lemma_lex_total(a: Seq<char>, b: Seq<char>)
    ensures
        a != b ==> lex_lt(a, b) || lex_lt(b, a),
        !(lex_lt(a, b) && lex_lt(b, a)),
    decreases a.len(),
{
    if a.len() > 0 && b.len() > 0 {
        lemma_lex_total(a.drop_first(), b.drop_first());
        if a[0] == b[0] && a.drop_first() == b.drop_first() {
            assert(a =~= seq![a[0]] + a.drop_first());
            assert(b =~= seq![b[0]] + b.drop_first());
        }
    } else if a.len() == 0 && b.len() == 0 {
        assert(a =~= b);
    }
}

pub proof fn lemma_lex_transitive(a: Seq<char>, b: Seq<char>, c: Seq<char>)
    requires
        lex_lt(a, b),
        lex_lt(b, c),
    ensures
        lex_lt(a, c),
    decreases a.len(),
{
    if a.len() > 0 && b.len() > 0 && c.len() > 0 && a[0] == b[0] && b[0] == c[0] {
        lemma_lex_transitive(a.drop_first(), b.drop_first(), c.drop_first());
    }
}

/// Whether `a` sorts strictly before `b`.
pub fn str_lt(a: &str, b: &str) -> (r: bool)
    ensures
        r == lex_lt(a@, b@),
{
    let x = str_chars(a);
    let y = str_chars(b);
    let mut i: usize = 0;
    assert(a@.skip(0) =~= a@);
    assert(b@.skip(0) =~= b@);
    while i < x.len() && i < y.len() && x[i] == y[i]
        invariant
            x@ == a@,
            y@ == b@,
            i <= x.len(),
            i <= y.len(),
            lex_lt(a@, b@) == lex_lt(a@.skip(i as int), b@.skip(i as int)),
        decreases x.len() - i,
    {
        assert(a@.skip(i as int).drop_first() =~= a@.skip(i + 1));
        assert(b@.skip(i as int).drop_first() =~= b@.skip(i + 1));
        i = i + 1;
    }
    assert(a@.skip(i as int).len() > 0 ==> a@.skip(i as int)[0] == a@[i as int]);
    assert(b@.skip(i as int).len() > 0 ==> b@.skip(i as int)[0] == b@[i as int]);
    if i == x.len() {
        i < y.len()
    } else if i == y.len() {
        false
    } else {
        x[i] < y[i]
    }
}

// ---------------------------------------------------------------------
// Sorting and joining strings
// ---------------------------------------------------------------------

pub open spec fn lex_le(a: Seq<char>, b: Seq<char>) -> bool {
    !lex_lt(b, a)
}

pub open spec fn strs_sorted(s: Seq<Seq<char>>) -> bool {
    forall|i: int, j: int| 0 <= i < j < s.len() ==> lex_le(#[trigger] s[i], #[trigger] s[j])
}

pub open spec fn strs_view(s: Seq<String>) -> Seq<Seq<char>> {
    s.map_values(|x: String| x@)
}

/// The strings of `s` in ascending order (the one sorted sequence with the
/// same elements, counted with repetition).
pub open spec fn sorted_strs(s: Seq<Seq<char>>) -> Seq<Seq<char>> {
    choose|q: Seq<Seq<char>>| strs_sorted(q) && q.to_multiset() == s.to_multiset()
}

proof fn lemma_lex_antisym(a: Seq<char>, b: Seq<char>)
    requires
        lex_le(a, b),
        lex_le(b, a),
    ensures
        a == b,
{
    lemma_lex_total(a, b);
}

/// Two sorted sequences with the same elements are equal.
pub proof fn lemma_sorted_unique(a: Seq<Seq<char>>, b: Seq<Seq<char>>)
    requires
        strs_sorted(a),
        strs_sorted(b),
        a.to_multiset() == b.to_multiset(),
    ensures
        a == b,
    decreases a.len(),
{
    to_multiset_len(a);
    to_multiset_len(b);
    if a.len() == 0 {
        assert(a =~= b);
    } else {
        to_multiset_contains(a, a[0]);
        to_multiset_contains(b, a[0]);
        to_multiset_contains(b, b[0]);
        to_multiset_contains(a, b[0]);
        assert(a.contains(a[0]));
        assert(b.contains(b[0]));
        let j = choose|j: int| 0 <= j < b.len() && b[j] == a[0];
        let k = choose|k: int| 0 <= k < a.len() && a[k] == b[0];
        if j > 0 {
            assert(lex_le(b[0], b[j]));
        } else {
            lemma_lex_irreflexive(b[0]);
        }
        if k > 0 {
            assert(lex_le(a[0], a[k]));
        } else {
            lemma_lex_irreflexive(a[0]);
        }
        lemma_lex_antisym(a[0], b[0]);
        to_multiset_remove(a, 0);
        to_multiset_remove(b, 0);
        assert(a.remove(0) =~= a.drop_first());
        assert(b.remove(0) =~= b.drop_first());
        let a1 = a.drop_first();
        let b1 = b.drop_first();
        assert(strs_sorted(a1)) by {
            assert forall|i: int, j: int| 0 <= i < j < a1.len() implies lex_le(
                #[trigger] a1[i],
                #[trigger] a1[j],
            ) by {
                assert(a1[i] == a[i + 1] && a1[j] == a[j + 1]);
            }
        }
        assert(strs_sorted(b1)) by {
            assert forall|i: int, j: int| 0 <= i < j < b1.len() implies lex_le(
                #[trigger] b1[i],
                #[trigger] b1[j],
            ) by {
                assert(b1[i] == b[i + 1] && b1[j] == b[j + 1]);
            }
        }
        lemma_sorted_unique(a1, b1);
        assert forall|i: int| 0 <= i < a.len() implies a[i] == b[i] by {
            if i > 0 {
                assert(a[i] == a1[i - 1] && b[i] == b1[i - 1]);
            }
        }
        assert(a =~= b);
    }
}

/// A sorted sequence with the elements of `s` is `sorted_strs(s)`.
pub proof fn lemma_sorted_strs(q: Seq<Seq<char>>, s: Seq<Seq<char>>)
    requires
        strs_sorted(q),
        q.to_multiset() == s.to_multiset(),
    ensures
        sorted_strs(s) == q,
{
    let c = sorted_strs(s);
    assert(strs_sorted(c) && c.to_multiset() == s.to_multiset());
    lemma_sorted_unique(c, q);
}

/// The position before which `x` goes in a sorted sequence: the first
/// element that `x` sorts before.
pub open spec fn sorted_insert_pos(q: Seq<Seq<char>>, x: Seq<char>) -> int
    decreases q.len(),
{
    if q.len() == 0 {
        0
    } else if lex_lt(x, q[0]) {
        0
    } else {
        1 + sorted_insert_pos(q.drop_first(), x)
    }
}

proof fn lemma_sorted_insert_pos(q: Seq<Seq<char>>, x: Seq<char>)
    ensures
        0 <= sorted_insert_pos(q, x) <= q.len(),
        forall|k: int| 0 <= k < sorted_insert_pos(q, x) ==> lex_le(#[trigger] q[k], x),
        sorted_insert_pos(q, x) < q.len() ==> lex_lt(x, q[sorted_insert_pos(q, x)]),
    decreases q.len(),
{
    if q.len() > 0 && !lex_lt(x, q[0]) {
        lemma_sorted_insert_pos(q.drop_first(), x);
        assert forall|k: int| 0 <= k < sorted_insert_pos(q, x) implies lex_le(#[trigger] q[k], x) by {
            if k > 0 {
                assert(q[k] == q.drop_first()[k - 1]);
            }
        }
    }
}

/// Every sequence of strings has a sorted arrangement, so `sorted_strs`
/// is one.
pub proof fn lemma_sorted_strs_exists(s: Seq<Seq<char>>)
    ensures
        strs_sorted(sorted_strs(s)),
        sorted_strs(s).to_multiset() == s.to_multiset(),
    decreases s.len(),
{
    if s.len() == 0 {
        let q = Seq::<Seq<char>>::empty();
        assert(strs_sorted(q) && q.to_multiset() == s.to_multiset()) by {
            assert(q =~= s);
        }
    } else {
        let d = s.drop_last();
        let x = s.last();
        lemma_sorted_strs_exists(d);
        let old_r = sorted_strs(d);
        lemma_sorted_insert_pos(old_r, x);
        let j = sorted_insert_pos(old_r, x);
        let nr = old_r.insert(j, x);
        to_multiset_insert(old_r, j, x);
        assert(d.push(x) =~= s);
        to_multiset_build(d, x);
        assert forall|a: int, b: int| 0 <= a < b < nr.len() implies lex_le(#[trigger] nr[a], #[trigger] nr[b]) by {
            if b < j {
                assert(nr[a] == old_r[a] && nr[b] == old_r[b]);
            } else if b == j {
                assert(nr[a] == old_r[a]);
            } else if a == j {
                assert(nr[b] == old_r[b - 1]);
                if b - 1 > j {
                    assert(lex_le(old_r[j], old_r[b - 1]));
                    lemma_lex_total(old_r[j], old_r[b - 1]);
                    if old_r[j] != old_r[b - 1] {
                        lemma_lex_transitive(x, old_r[j], old_r[b - 1]);
                    }
                }
                lemma_lex_total(x, old_r[b - 1]);
            } else if a < j {
                assert(nr[a] == old_r[a] && nr[b] == old_r[b - 1]);
            } else {
                assert(nr[a] == old_r[a - 1] && nr[b] == old_r[b - 1]);
            }
        }
        lemma_sorted_strs(nr, s);
    }
}

/// The strings in ascending order.
pub fn sort_strings(v: &Vec<String>) -> (r: Vec<String>)
    ensures
        strs_view(r@) == sorted_strs(strs_view(v@)),
        strs_sorted(strs_view(r@)),
        strs_view(r@).to_multiset() == strs_view(v@).to_multiset(),
{
    let mut r: Vec<String> = Vec::new();
    let mut i: usize = 0;
    assert(strs_view(r@).to_multiset() =~= strs_view(v@).take(0).to_multiset()) by {
        assert(strs_view(r@) =~= strs_view(v@).take(0));
    }
    while i < v.len()
        invariant
            i <= v.len(),
            strs_sorted(strs_view(r@)),
            strs_view(r@).to_multiset() == strs_view(v@).take(i as int).to_multiset(),
        decreases v.len() - i,
    {
        let x = v[i].clone();
        let mut j: usize = 0;
        while j < r.len() && !str_lt(x.as_str(), r[j].as_str())
            invariant
                j <= r.len(),
                forall|k: int| 0 <= k < j ==> lex_le(#[trigger] strs_view(r@)[k], x@),
            decreases r.len() - j,
        {
            j = j + 1;
        }
        let ghost old_r = strs_view(r@);
        r.insert(j, x);
        assert(strs_view(r@) =~= old_r.insert(j as int, x@));
        proof {
            to_multiset_insert(old_r, j as int, x@);
            assert(strs_view(v@).take(i + 1) =~= strs_view(v@).take(i as int).push(x@));
            to_multiset_build(strs_view(v@).take(i as int), x@);
            let nr = strs_view(r@);
            assert forall|a: int, b: int| 0 <= a < b < nr.len() implies lex_le(
                #[trigger] nr[a],
                #[trigger] nr[b],
            ) by {
                if b < j {
                    assert(nr[a] == old_r[a] && nr[b] == old_r[b]);
                } else if b == j {
                    assert(nr[a] == old_r[a]);
                } else if a == j {
                    assert(nr[b] == old_r[b - 1]);
                    assert(lex_lt(x@, old_r[j as int]));
                    if b - 1 > j {
                        assert(lex_le(old_r[j as int], old_r[b - 1]));
                        lemma_lex_total(old_r[j as int], old_r[b - 1]);
                        if old_r[j as int] != old_r[b - 1] {
                            lemma_lex_transitive(x@, old_r[j as int], old_r[b - 1]);
                        }
                    }
                    lemma_lex_total(x@, old_r[b - 1]);
                } else if a < j {
                    assert(nr[a] == old_r[a] && nr[b] == old_r[b - 1]);
                } else {
                    assert(nr[a] == old_r[a - 1] && nr[b] == old_r[b - 1]);
                }
            }
        }
        i = i + 1;
    }
    assert(strs_view(v@).take(i as int) =~= strs_view(v@));
    proof {
        lemma_sorted_strs(strs_view(r@), strs_view(v@));
    }
    r
}

/// The strings joined with `sep` between neighbours.
pub open spec fn join_with(s: Seq<Seq<char>>, sep: char) -> Seq<char>
    decreases s.len(),
{
    if s.len() == 0 {
        Seq::empty()
    } else if s.len() == 1 {
        s[0]
    } else {
        join_with(s.drop_last(), sep).push(sep) + s.last()
    }
}

pub fn join_strings(parts: &Vec<String>, sep: char) -> (r: String)
    ensures
        r@ == join_with(strs_view(parts@), sep),
{
    let mut r = String::new();
    let mut i: usize = 0;
    while i < parts.len()
        invariant
            i <= parts.len(),
            r@ == join_with(strs_view(parts@).take(i as int), sep),
        decreases parts.len() - i,
    {
        let ghost t = strs_view(parts@).take(i + 1);
        assert(t.drop_last() =~= strs_view(parts@).take(i as int));
        assert(t.last() == parts@[i as int]@);
        if i > 0 {
            push_char(&mut r, sep);
        }
        push_str(&mut r, parts[i].as_str());
        if i == 0 {
            assert(r@ =~= t[0]);
        }
        i = i + 1;
    }
    assert(strs_view(parts@).take(i as int) =~= strs_view(parts@));
    r
}

} // verus!
