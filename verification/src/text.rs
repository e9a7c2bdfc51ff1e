//! Small text helpers over `char` sequences: ASCII case folding, building
//! strings, decimal digits.
use vstd::prelude::*;

verus! {

/// ASCII upper-case letters folded to lower case; everything else unchanged.
pub open spec fn lower_char(c: char) -> char {
    if 'A' <= c && c <= 'Z' {
        ((c as u32) + 32) as char
    } else {
        c
    }
}

pub open spec fn spec_ascii_lower(s: Seq<char>) -> Seq<char> {
    s.map_values(|c: char| lower_char(c))
}

pub fn to_lower_char(c: char) -> (r: char)
    ensures
        r == lower_char(c),
{
    if 'A' <= c && c <= 'Z' {
        let b = (c as u8) + 32;
        b as char
    } else {
        c
    }
}

/// The characters of `s`.
pub fn chars_of(s: &str) -> (r: Vec<char>)
    ensures
        r@ == s@,
{
    let n = s.unicode_len();
    let mut out: Vec<char> = Vec::new();
    let mut i: usize = 0;
    while i < n
        invariant
            n == s@.len(),
            i <= n,
            out@ == s@.subrange(0, i as int),
        decreases n - i,
    {
        out.push(s.get_char(i));
        i = i + 1;
        assert(out@ =~= s@.subrange(0, i as int));
    }
    assert(out@ =~= s@);
    out
}

/// `s` with ASCII letters folded to lower case.
pub fn ascii_lower(s: &str) -> (r: Vec<char>)
    ensures
        r@ == spec_ascii_lower(s@),
{
    let cs = chars_of(s);
    let mut out: Vec<char> = Vec::new();
    let mut i: usize = 0;
    while i < cs.len()
        invariant
            cs@ == s@,
            i <= cs@.len(),
            out@ == spec_ascii_lower(s@).subrange(0, i as int),
        decreases cs.len() - i,
    {
        out.push(to_lower_char(cs[i]));
        i = i + 1;
        assert(out@ =~= spec_ascii_lower(s@).subrange(0, i as int));
    }
    assert(out@ =~= spec_ascii_lower(s@));
    out
}

/// Append `c` to `s` (std's `String::push`).
#[verifier::external_body]
pub(crate) fn push_char(s: &mut String, c: char)
    ensures
        final(s)@ == old(s)@.push(c),
{
    s.push(c);
}

/// Name for std's `str::to_lowercase` (full Unicode lower-casing).
pub uninterp spec fn unicode_lowercase(s: Seq<char>) -> Seq<char>;

/// std's `str::to_lowercase` (see `unicode_lowercase`).
#[verifier::external_body]
pub(crate) fn to_lowercase(s: &str) -> (r: String)
    ensures
        r@ == unicode_lowercase(s@),
{
    s.to_lowercase()
}

/// Name for std's `str::to_uppercase` (full Unicode upper-casing).
pub uninterp spec fn unicode_uppercase(s: Seq<char>) -> Seq<char>;

/// std's `str::to_uppercase` (see `unicode_uppercase`).
#[verifier::external_body]
pub(crate) fn to_uppercase(s: &str) -> (r: String)
    ensures
        r@ == unicode_uppercase(s@),
{
    s.to_uppercase()
}

/// A `String` holding `cs`.
pub fn string_of(cs: &Vec<char>) -> (r: String)
    ensures
        r@ == cs@,
{
    let mut s = String::new();
    let mut i: usize = 0;
    while i < cs.len()
        invariant
            i <= cs@.len(),
            s@ == cs@.subrange(0, i as int),
        decreases cs.len() - i,
    {
        push_char(&mut s, cs[i]);
        i = i + 1;
        assert(s@ =~= cs@.subrange(0, i as int));
    }
    assert(s@ =~= cs@);
    s
}

// ---- trimming ----------------------------------------------------------------------

/// `s` without its leading run of characters satisfying `p`.
pub open spec fn trim_start_by(s: Seq<char>, p: spec_fn(char) -> bool) -> Seq<char>
    decreases s.len(),
{
    if s.len() > 0 && p(s[0]) {
        trim_start_by(s.drop_first(), p)
    } else {
        s
    }
}

/// `s` without its trailing run of characters satisfying `p`.
pub open spec fn trim_end_by(s: Seq<char>, p: spec_fn(char) -> bool) -> Seq<char>
    decreases s.len(),
{
    if s.len() > 0 && p(s.last()) {
        trim_end_by(s.drop_last(), p)
    } else {
        s
    }
}

/// `s` without leading and trailing characters satisfying `p`.
pub open spec fn trim_by(s: Seq<char>, p: spec_fn(char) -> bool) -> Seq<char> {
    trim_end_by(trim_start_by(s, p), p)
}

/// The predicate "is `c`".
pub open spec fn is_char(c: char) -> spec_fn(char) -> bool {
    |x: char| x == c
}

/// std's `trim_matches(c)` for one character.
pub open spec fn trim_char(s: Seq<char>, c: char) -> Seq<char> {
    trim_by(s, is_char(c))
}

/// `s.trim_matches('"')`.
pub open spec fn trim_quotes(s: Seq<char>) -> Seq<char> {
    trim_char(s, '"')
}

/// The Unicode White_Space property, which std's `char::is_whitespace`
/// tests: tab, line feed, vertical tab, form feed, carriage return, space,
/// next line, no-break space, ogham space mark, the spaces U+2000..=U+200A,
/// line and paragraph separators, narrow no-break space, medium
/// mathematical space and ideographic space.
pub open spec fn is_white_space(c: char) -> bool {
    ('\u{9}' <= c && c <= '\u{d}') || c == ' ' || c == '\u{85}' || c == '\u{a0}' || c == '\u{1680}'
        || ('\u{2000}' <= c && c <= '\u{200a}') || c == '\u{2028}' || c == '\u{2029}' || c
        == '\u{202f}' || c == '\u{205f}' || c == '\u{3000}'
}

pub fn white_space(c: char) -> (r: bool)
    ensures
        r == is_white_space(c),
{
    ('\u{9}' <= c && c <= '\u{d}') || c == ' ' || c == '\u{85}' || c == '\u{a0}' || c == '\u{1680}'
        || ('\u{2000}' <= c && c <= '\u{200a}') || c == '\u{2028}' || c == '\u{2029}' || c
        == '\u{202f}' || c == '\u{205f}' || c == '\u{3000}'
}

/// std's `str::trim`.
pub open spec fn trim_ws(s: Seq<char>) -> Seq<char> {
    trim_by(s, |x: char| is_white_space(x))
}

/// Trimming skips a leading run.
pub proof fn lemma_trim_start_index(s: Seq<char>, p: spec_fn(char) -> bool, i: int)
    requires
        0 <= i <= s.len(),
        forall|k: int| 0 <= k < i ==> p(s[k]),
    ensures
        trim_start_by(s, p) == trim_start_by(s.subrange(i, s.len() as int), p),
    decreases i,
{
    if i > 0 {
        assert(s.drop_first().subrange(i - 1, s.drop_first().len() as int) =~= s.subrange(i, s.len() as int));
        lemma_trim_start_index(s.drop_first(), p, i - 1);
    } else {
        assert(s.subrange(0, s.len() as int) =~= s);
    }
}

/// Trimming skips a trailing run.
pub proof fn lemma_trim_end_index(s: Seq<char>, p: spec_fn(char) -> bool, j: int)
    requires
        0 <= j <= s.len(),
        forall|k: int| j <= k < s.len() ==> p(s[k]),
    ensures
        trim_end_by(s, p) == trim_end_by(s.subrange(0, j), p),
    decreases s.len() - j,
{
    if j < s.len() {
        assert(s.drop_last().subrange(0, j) =~= s.subrange(0, j));
        lemma_trim_end_index(s.drop_last(), p, j);
    } else {
        assert(s.subrange(0, j) =~= s);
    }
}

/// `cs[i..j]`, where nothing before `i` and after `j` is kept by the trim
/// and the ends of `cs[i..j]` are not trimmed, is the trimmed `cs`.
proof fn lemma_trim_bounds(s: Seq<char>, p: spec_fn(char) -> bool, i: int, j: int)
    requires
        0 <= i <= j <= s.len(),
        forall|k: int| 0 <= k < i ==> p(s[k]),
        forall|k: int| j <= k < s.len() ==> p(s[k]),
        i < j ==> !p(s[i]) && !p(s[j - 1]),
        i == j ==> j == s.len(),
    ensures
        trim_by(s, p) == s.subrange(i, j),
{
    lemma_trim_start_index(s, p, i);
    let mid = s.subrange(i, s.len() as int);
    if i < j {
        assert(mid[0] == s[i]);
    }
    assert(trim_start_by(mid, p) == mid);
    lemma_trim_end_index(mid, p, j - i);
    assert(mid.subrange(0, j - i) =~= s.subrange(i, j));
    let t = s.subrange(i, j);
    if t.len() > 0 {
        assert(t.last() == s[j - 1]);
    }
}

fn copy_range(cs: &Vec<char>, i: usize, j: usize) -> (r: Vec<char>)
    requires
        i <= j <= cs@.len(),
    ensures
        r@ == cs@.subrange(i as int, j as int),
{
    let mut out: Vec<char> = Vec::new();
    let mut k: usize = i;
    while k < j
        invariant
            i <= k <= j <= cs@.len(),
            out@ == cs@.subrange(i as int, k as int),
        decreases j - k,
    {
        out.push(cs[k]);
        k = k + 1;
        assert(out@ =~= cs@.subrange(i as int, k as int));
    }
    out
}

/// `cs` without leading and trailing `c`s (std's `trim_matches(c)`).
pub fn trim_char_vec(cs: &Vec<char>, c: char) -> (r: Vec<char>)
    ensures
        r@ == trim_char(cs@, c),
{
    let ghost p = is_char(c);
    let n = cs.len();
    let mut i: usize = 0;
    while i < n && cs[i] == c
        invariant
            n == cs@.len(),
            i <= n,
            forall|k: int| 0 <= k < i ==> cs@[k] == c,
        decreases n - i,
    {
        i = i + 1;
    }
    let mut j: usize = n;
    while j > i && cs[j - 1] == c
        invariant
            n == cs@.len(),
            i <= j <= n,
            forall|k: int| j <= k < n ==> cs@[k] == c,
        decreases j,
    {
        j = j - 1;
    }
    proof {
        lemma_trim_bounds(cs@, p, i as int, j as int);
    }
    copy_range(cs, i, j)
}

/// `s.trim_matches(c)`.
pub fn strip_char(s: &str, c: char) -> (r: Vec<char>)
    ensures
        r@ == trim_char(s@, c),
{
    trim_char_vec(&chars_of(s), c)
}

/// `cs` without leading and trailing white space (std's `str::trim`).
pub fn trim_ws_vec(cs: &Vec<char>) -> (r: Vec<char>)
    ensures
        r@ == trim_ws(cs@),
{
    let ghost p = |x: char| is_white_space(x);
    let n = cs.len();
    let mut i: usize = 0;
    while i < n && white_space(cs[i])
        invariant
            n == cs@.len(),
            i <= n,
            forall|k: int| 0 <= k < i ==> is_white_space(cs@[k]),
        decreases n - i,
    {
        i = i + 1;
    }
    let mut j: usize = n;
    while j > i && white_space(cs[j - 1])
        invariant
            n == cs@.len(),
            i <= j <= n,
            forall|k: int| j <= k < n ==> is_white_space(cs@[k]),
        decreases j,
    {
        j = j - 1;
    }
    proof {
        lemma_trim_bounds(cs@, p, i as int, j as int);
    }
    copy_range(cs, i, j)
}

/// `cs` without its trailing `c`s (std's `trim_end_matches(c)`).
pub fn trim_end_char_vec(cs: &Vec<char>, c: char) -> (r: Vec<char>)
    ensures
        r@ == trim_end_by(cs@, is_char(c)),
{
    let ghost p = is_char(c);
    let n = cs.len();
    let mut j: usize = n;
    while j > 0 && cs[j - 1] == c
        invariant
            n == cs@.len(),
            j <= n,
            forall|k: int| j <= k < n ==> cs@[k] == c,
        decreases j,
    {
        j = j - 1;
    }
    proof {
        lemma_trim_end_index(cs@, p, j as int);
        let t = cs@.subrange(0, j as int);
        if t.len() > 0 {
            assert(t.last() == cs@[j - 1]);
        }
        assert(trim_end_by(t, p) == t);
    }
    copy_range(cs, 0, j)
}

/// `cs` without its leading `c`s (std's `trim_start_matches(c)`).
pub fn trim_start_char_vec(cs: &Vec<char>, c: char) -> (r: Vec<char>)
    ensures
        r@ == trim_start_by(cs@, is_char(c)),
{
    let ghost p = is_char(c);
    let n = cs.len();
    let mut i: usize = 0;
    while i < n && cs[i] == c
        invariant
            n == cs@.len(),
            i <= n,
            forall|k: int| 0 <= k < i ==> cs@[k] == c,
        decreases n - i,
    {
        i = i + 1;
    }
    proof {
        lemma_trim_start_index(cs@, p, i as int);
        let t = cs@.subrange(i as int, n as int);
        if t.len() > 0 {
            assert(t[0] == cs@[i as int]);
        }
        assert(trim_start_by(t, p) == t);
    }
    copy_range(cs, i, n)
}

/// `s` with every leading copy of the non-empty `p` removed (std's
/// `trim_start_matches` with a string pattern).
pub open spec fn strip_prefixes(s: Seq<char>, p: Seq<char>) -> Seq<char>
    decreases s.len(),
{
    if p.len() > 0 && p.len() <= s.len() && s.subrange(0, p.len() as int) == p {
        strip_prefixes(s.subrange(p.len() as int, s.len() as int), p)
    } else {
        s
    }
}

/// `s` with every trailing copy of the non-empty `p` removed (std's
/// `trim_end_matches` with a string pattern).
pub open spec fn strip_suffixes(s: Seq<char>, p: Seq<char>) -> Seq<char>
    decreases s.len(),
{
    if p.len() > 0 && p.len() <= s.len() && s.subrange(s.len() - p.len(), s.len() as int) == p {
        strip_suffixes(s.subrange(0, s.len() - p.len()), p)
    } else {
        s
    }
}

/// Whether `cs[at..]` starts with `p`.
fn chars_at(cs: &Vec<char>, at: usize, p: &[char]) -> (r: bool)
    requires
        at <= cs@.len(),
    ensures
        r == (p@.len() <= cs@.len() - at && cs@.subrange(at as int, at + p@.len()) == p@),
{
    let n = cs.len();
    if p.len() > n - at {
        return false;
    }
    let mut k: usize = 0;
    while k < p.len()
        invariant
            n == cs@.len(),
            at + p@.len() <= cs@.len(),
            k <= p@.len(),
            forall|m: int| 0 <= m < k ==> cs@[at + m] == p@[m],
        decreases p.len() - k,
    {
        if cs[at + k] != p[k] {
            assert(cs@.subrange(at as int, at + p@.len())[k as int] != p@[k as int]);
            return false;
        }
        k = k + 1;
    }
    assert(cs@.subrange(at as int, at + p@.len()) =~= p@);
    true
}

/// `cs` with every leading copy of `p` removed.
pub fn strip_prefixes_vec(cs: &Vec<char>, p: &[char]) -> (r: Vec<char>)
    requires
        p@.len() > 0,
    ensures
        r@ == strip_prefixes(cs@, p@),
{
    let n = cs.len();
    let mut i: usize = 0;
    assert(cs@.subrange(0, n as int) =~= cs@);
    while chars_at(cs, i, p)
        invariant
            n == cs@.len(),
            i <= n,
            p@.len() > 0,
            strip_prefixes(cs@, p@) == strip_prefixes(cs@.subrange(i as int, n as int), p@),
        decreases n - i,
    {
        let ghost t = cs@.subrange(i as int, n as int);
        assert(t.subrange(0, p@.len() as int) =~= cs@.subrange(i as int, i + p@.len()));
        assert(t.subrange(p@.len() as int, t.len() as int) =~= cs@.subrange(i + p@.len(), n as int));
        i = i + p.len();
    }
    proof {
        let t = cs@.subrange(i as int, n as int);
        if p@.len() <= t.len() {
            assert(t.subrange(0, p@.len() as int) =~= cs@.subrange(i as int, i + p@.len()));
        }
    }
    copy_range(cs, i, n)
}

/// `cs` with every trailing copy of `p` removed.
pub fn strip_suffixes_vec(cs: &Vec<char>, p: &[char]) -> (r: Vec<char>)
    requires
        p@.len() > 0,
    ensures
        r@ == strip_suffixes(cs@, p@),
{
    let mut j: usize = cs.len();
    assert(cs@.subrange(0, j as int) =~= cs@);
    while j >= p.len() && chars_at(cs, j - p.len(), p)
        invariant
            j <= cs@.len(),
            p@.len() > 0,
            strip_suffixes(cs@, p@) == strip_suffixes(cs@.subrange(0, j as int), p@),
        decreases j,
    {
        let ghost t = cs@.subrange(0, j as int);
        assert(t.subrange(t.len() - p@.len(), t.len() as int) =~= cs@.subrange(j - p@.len(), j as int));
        assert(t.subrange(0, t.len() - p@.len()) =~= cs@.subrange(0, j - p@.len()));
        j = j - p.len();
    }
    proof {
        let t = cs@.subrange(0, j as int);
        if p@.len() <= t.len() {
            assert(t.subrange(t.len() - p@.len(), t.len() as int) =~= cs@.subrange(j - p@.len(), j as int));
        }
    }
    copy_range(cs, 0, j)
}

// ---- decimal numbers ------------------------------------------------------------------

/// The digit character for `d` (`d < 10`).
pub open spec fn digit_char(d: nat) -> char {
    ((d + 48) as u8) as char
}

/// The decimal representation of `n`, without leading zeros.
pub open spec fn decimal(n: nat) -> Seq<char>
    decreases n,
{
    if n < 10 {
        seq![digit_char(n)]
    } else {
        decimal(n / 10).push(digit_char(n % 10))
    }
}

/// Append the decimal representation of `n` to `out`.
pub fn push_decimal(out: &mut Vec<char>, n: u64)
    ensures
        final(out)@ == old(out)@ + decimal(n as nat),
    decreases n,
{
    if n >= 10 {
        push_decimal(out, n / 10);
    }
    let d = (n % 10) as u8;
    out.push((d + 48) as char);
    assert(out@ =~= old(out)@ + decimal(n as nat));
}

/// Append the characters of `t` to `out`.
pub fn push_all(out: &mut Vec<char>, t: &[char])
    ensures
        final(out)@ == old(out)@ + t@,
{
    let mut i: usize = 0;
    while i < t.len()
        invariant
            i <= t@.len(),
            out@ == old(out)@ + t@.subrange(0, i as int),
        decreases t.len() - i,
    {
        out.push(t[i]);
        i = i + 1;
        assert(out@ =~= old(out)@ + t@.subrange(0, i as int));
    }
    assert(t@.subrange(0, t@.len() as int) =~= t@);
}

/// Whether `s` is the text `t`.
pub fn chars_are(s: &Vec<char>, t: &[char]) -> (r: bool)
    ensures
        r == (s@ == t@),
{
    if s.len() != t.len() {
        return false;
    }
    let mut i: usize = 0;
    while i < s.len()
        invariant
            s@.len() == t@.len(),
            i <= s@.len(),
            forall|k: int| 0 <= k < i ==> s@[k] == t@[k],
        decreases s.len() - i,
    {
        if s[i] != t[i] {
            return false;
        }
        i = i + 1;
    }
    assert(s@ =~= t@);
    true
}

} // verus!
