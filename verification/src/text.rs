//! Character-level helpers shared by the HTML and HTTP parsers.
//!
//! Text is handled as sequences of `char`s; the spec functions here say
//! what the usual `str` operations (trimming, searching, splitting, number
//! parsing) mean on such sequences, and the executable functions implement
//! them on `Vec<char>` / `&[char]`.
use vstd::prelude::*;
use vstd::slice::slice_subrange;

verus! {

/// `String::push` appends one character to the end of the string.
pub assume_specification[ String::push ](s: &mut String, ch: char)
    ensures
        final(s)@ == old(s)@.push(ch),
;

/// Whitespace as `char::is_ascii_whitespace` defines it (no vertical tab).
pub open spec fn is_ascii_whitespace(c: char) -> bool {
    c == ' ' || c == '\t' || c == '\n' || c == '\x0C' || c == '\r'
}

/// Whitespace as `char::is_whitespace` defines it: the Unicode `White_Space` property.
pub open spec fn is_whitespace(c: char) -> bool {
    ('\t' <= c && c <= '\r') || c == ' ' || c == '\u{85}' || c == '\u{A0}' || c == '\u{1680}'
        || ('\u{2000}' <= c && c <= '\u{200A}') || c == '\u{2028}' || c == '\u{2029}'
        || c == '\u{202F}' || c == '\u{205F}' || c == '\u{3000}'
}

pub fn ascii_whitespace(c: char) -> (r: bool)
    ensures
        r == is_ascii_whitespace(c),
{
    c == ' ' || c == '\t' || c == '\n' || c == '\x0C' || c == '\r'
}

pub fn whitespace(c: char) -> (r: bool)
    ensures
        r == is_whitespace(c),
{
    ('\t' <= c && c <= '\r') || c == ' ' || c == '\u{85}' || c == '\u{A0}' || c == '\u{1680}'
        || ('\u{2000}' <= c && c <= '\u{200A}') || c == '\u{2028}' || c == '\u{2029}'
        || c == '\u{202F}' || c == '\u{205F}' || c == '\u{3000}'
}

/// `pat` occurs in `s` starting at index `i`.
pub open spec fn matches_at(s: Seq<char>, i: int, pat: Seq<char>) -> bool {
    0 <= i && i + pat.len() <= s.len() && s.subrange(i, i + pat.len()) == pat
}

/// `s` starts with `pat`.
pub open spec fn has_prefix(s: Seq<char>, pat: Seq<char>) -> bool {
    matches_at(s, 0, pat)
}

/// The first index `j >= i` at which `pat` occurs in `s`.
pub open spec fn find_from(s: Seq<char>, i: int, pat: Seq<char>) -> Option<int>
    decreases s.len() - i,
{
    if i >= s.len() {
        None
    } else if matches_at(s, i, pat) {
        Some(i)
    } else {
        find_from(s, i + 1, pat)
    }
}

/// The first index of the character `c` in `s`.
pub open spec fn find_char(s: Seq<char>, c: char) -> Option<int> {
    find_from(s, 0, seq![c])
}

/// The last index of the character `c` in `s`.
pub open spec fn rfind_char(s: Seq<char>, c: char) -> Option<int>
    decreases s.len(),
{
    if s.len() == 0 {
        None
    } else if s.last() == c {
        Some(s.len() - 1)
    } else {
        rfind_char(s.drop_last(), c)
    }
}

/// Number of leading whitespace characters.
pub open spec fn leading_ws(s: Seq<char>) -> nat
    decreases s.len(),
{
    if s.len() > 0 && is_whitespace(s[0]) {
        1 + leading_ws(s.drop_first())
    } else {
        0
    }
}

/// Number of trailing whitespace characters.
pub open spec fn trailing_ws(s: Seq<char>) -> nat
    decreases s.len(),
{
    if s.len() > 0 && is_whitespace(s.last()) {
        1 + trailing_ws(s.drop_last())
    } else {
        0
    }
}

/// `str::trim_start`.
pub open spec fn trim_start(s: Seq<char>) -> Seq<char> {
    s.skip(leading_ws(s) as int)
}

/// `str::trim_end`.
pub open spec fn trim_end(s: Seq<char>) -> Seq<char> {
    s.take(s.len() - trailing_ws(s))
}

/// `str::trim`.
pub open spec fn trim(s: Seq<char>) -> Seq<char> {
    trim_end(trim_start(s))
}

pub open spec fn ascii_lower_char(c: char) -> char {
    if 'A' <= c && c <= 'Z' {
        ((c as u32) + 32) as char
    } else {
        c
    }
}

/// `str::to_ascii_lowercase`.
pub open spec fn ascii_lowercase(s: Seq<char>) -> Seq<char> {
    s.map_values(|c: char| ascii_lower_char(c))
}

/// Every character is ASCII (`str::is_ascii`).
pub open spec fn all_ascii(s: Seq<char>) -> bool {
    forall|i: int| 0 <= i < s.len() ==> (s[i] as u32) < 128
}

pub open spec fn is_digit(c: char) -> bool {
    '0' <= c && c <= '9'
}

pub open spec fn digit_value(c: char) -> int {
    (c as int) - ('0' as int)
}

pub open spec fn all_digits(s: Seq<char>) -> bool {
    forall|i: int| 0 <= i < s.len() ==> #[trigger] is_digit(s[i])
}

/// The number written by the decimal digits `s`.
pub open spec fn decimal_value(s: Seq<char>) -> nat
    decreases s.len(),
{
    if s.len() == 0 {
        0
    } else {
        (decimal_value(s.drop_last()) * 10 + digit_value(s.last())) as nat
    }
}

/// What `u16::from_str` / `usize::from_str` return for `s`, with `max` the
/// type's largest value: an optional `+`, then at least one ASCII digit,
/// and a value that fits.
pub open spec fn parse_unsigned(s: Seq<char>, max: nat) -> Option<nat> {
    let digits = if s.len() > 0 && s[0] == '+' {
        s.drop_first()
    } else {
        s
    };
    if digits.len() == 0 || !all_digits(digits) || decimal_value(digits) > max {
        None
    } else {
        Some(decimal_value(digits))
    }
}

/// The decimal digits of `n`, as `u16`'s `Display` writes them.
pub open spec fn decimal_string(n: nat) -> Seq<char>
    decreases n,
{
    if n < 10 {
        seq![(n + 48) as char]
    } else {
        decimal_string(n / 10).push(((n % 10) + 48) as char)
    }
}

/// `str::lines`: pieces split at `\n`, each with one `\r` before the `\n`
/// removed; a final line ending does not start an empty line.
pub open spec fn lines(s: Seq<char>) -> Seq<Seq<char>>
    decreases s.len(),
{
    if s.len() == 0 {
        seq![]
    } else {
        match find_char(s, '\n') {
            None => seq![s],
            Some(i) => {
                let line = s.take(i);
                let line = if line.len() > 0 && line.last() == '\r' {
                    line.drop_last()
                } else {
                    line
                };
                if 0 <= i < s.len() {
                    seq![line] + lines(s.skip(i + 1))
                } else {
                    seq![line]
                }
            },
        }
    }
}

pub proof fn lemma_find_from_bounds(s: Seq<char>, i: int, pat: Seq<char>)
    ensures
        find_from(s, i, pat) matches Some(j) ==> i <= j < s.len() && matches_at(s, j, pat),
        find_from(s, i, pat) matches Some(j) ==> forall|k: int|
            i <= k < j ==> !#[trigger] matches_at(s, k, pat),
        find_from(s, i, pat) is None ==> forall|k: int|
            i <= k < s.len() ==> !#[trigger] matches_at(s, k, pat),
    decreases s.len() - i,
{
    if i >= s.len() {
    } else if matches_at(s, i, pat) {
    } else {
        lemma_find_from_bounds(s, i + 1, pat);
    }
}

/// The characters of `s`, one per element.
pub fn chars_of(s: &str) -> (r: Vec<char>)
    ensures
        r@ == s@,
{
    let mut out: Vec<char> = Vec::new();
    for c in it: s.chars()
        invariant
            it.seq() == s@,
            out@ == it.seq().take(it.index() as int),
    {
        out.push(c);
    }
    out
}

/// A `String` holding the characters `cs`.
pub fn string_of(cs: &[char]) -> (r: String)
    ensures
        r@ == cs@,
{
    let mut s = String::new();
    let mut i: usize = 0;
    while i < cs.len()
        invariant
            i <= cs.len(),
            s@ == cs@.take(i as int),
        decreases cs.len() - i,
    {
        s.push(cs[i]);
        assert(cs@.take(i + 1) == cs@.take(i as int).push(cs@[i as int]));
        i += 1;
    }
    assert(cs@.take(cs.len() as int) == cs@);
    s
}

/// A `String` holding `cs[begin..end]`.
pub fn string_of_range(cs: &[char], begin: usize, end: usize) -> (r: String)
    requires
        begin <= end <= cs@.len(),
    ensures
        r@ == cs@.subrange(begin as int, end as int),
{
    string_of(slice_subrange(cs, begin, end))
}

/// Appends the characters `cs` to `dst`.
pub fn push_chars(dst: &mut String, cs: &[char])
    ensures
        final(dst)@ == old(dst)@ + cs@,
{
    let mut i: usize = 0;
    while i < cs.len()
        invariant
            i <= cs.len(),
            dst@ == old(dst)@ + cs@.take(i as int),
        decreases cs.len() - i,
    {
        dst.push(cs[i]);
        assert(cs@.take(i + 1) == cs@.take(i as int).push(cs@[i as int]));
        i += 1;
    }
    assert(cs@.take(cs.len() as int) == cs@);
}

/// Appends `s` to `dst`.
pub fn push_str(dst: &mut String, s: &str)
    ensures
        final(dst)@ == old(dst)@ + s@,
{
    let cs = chars_of(s);
    push_chars(dst, cs.as_slice());
}

/// `a` and `b` hold the same characters.
pub fn chars_eq(a: &[char], b: &[char]) -> (r: bool)
    ensures
        r == (a@ == b@),
{
    if a.len() != b.len() {
        return false;
    }
    let mut i: usize = 0;
    while i < a.len()
        invariant
            i <= a.len(),
            a.len() == b.len(),
            forall|k: int| 0 <= k < i ==> a@[k] == b@[k],
        decreases a.len() - i,
    {
        if a[i] != b[i] {
            return false;
        }
        i += 1;
    }
    assert(a@ =~= b@);
    true
}

/// `a` and `b` are the same string.
pub fn str_eq(a: &str, b: &str) -> (r: bool)
    ensures
        r == (a@ == b@),
{
    let ca = chars_of(a);
    let cb = chars_of(b);
    chars_eq(ca.as_slice(), cb.as_slice())
}

/// The characters of `cs` are exactly those of `lit`.
pub fn chars_eq_str(cs: &[char], lit: &str) -> (r: bool)
    ensures
        r == (cs@ == lit@),
{
    let cl = chars_of(lit);
    chars_eq(cs, cl.as_slice())
}

/// `pat` occurs in `s` at index `i`.
pub fn matches_at_exec(s: &[char], i: usize, pat: &[char]) -> (r: bool)
    ensures
        r == matches_at(s@, i as int, pat@),
{
    if i > s.len() || pat.len() > s.len() - i {
        return false;
    }
    let mut k: usize = 0;
    while k < pat.len()
        invariant
            k <= pat.len(),
            i + pat.len() <= s.len(),
            forall|m: int| 0 <= m < k ==> s@[i + m] == pat@[m],
        decreases pat.len() - k,
    {
        if s[i + k] != pat[k] {
            assert(s@.subrange(i as int, i + pat@.len())[k as int] != pat@[k as int]);
            return false;
        }
        k += 1;
    }
    assert(s@.subrange(i as int, i + pat@.len()) =~= pat@);
    true
}

/// `s` starts with the string `lit`.
pub fn starts_with_str(s: &[char], lit: &str) -> (r: bool)
    ensures
        r == has_prefix(s@, lit@),
{
    let cl = chars_of(lit);
    matches_at_exec(s, 0, cl.as_slice())
}

/// The first index `j >= i` at which `pat` occurs in `s`.
pub fn find_from_exec(s: &[char], i: usize, pat: &[char]) -> (r: Option<usize>)
    ensures
        r matches Some(j) ==> find_from(s@, i as int, pat@) == Some(j as int),
        r is None ==> find_from(s@, i as int, pat@) is None,
{
    let mut j = i;
    while j < s.len()
        invariant
            i <= j,
            find_from(s@, j as int, pat@) == find_from(s@, i as int, pat@),
        decreases s.len() - j,
    {
        if matches_at_exec(s, j, pat) {
            return Some(j);
        }
        j += 1;
    }
    None
}

/// The first index of `c` in `s`.
pub fn find_char_exec(s: &[char], c: char) -> (r: Option<usize>)
    ensures
        r matches Some(j) ==> find_char(s@, c) == Some(j as int),
        r is None ==> find_char(s@, c) is None,
{
    let pat = vec![c];
    assert(pat@ == seq![c]);
    find_from_exec(s, 0, pat.as_slice())
}

/// The last index of `c` in `s`.
pub fn rfind_char_exec(s: &[char], c: char) -> (r: Option<usize>)
    ensures
        r matches Some(j) ==> rfind_char(s@, c) == Some(j as int),
        r is None ==> rfind_char(s@, c) is None,
{
    let mut n = s.len();
    proof {
        lemma_take_full(s@);
    }
    while n > 0
        invariant
            n <= s.len(),
            rfind_char(s@.take(n as int), c) == rfind_char(s@, c),
        decreases n,
    {
        assert(s@.take(n as int).last() == s@[n - 1]);
        if s[n - 1] == c {
            return Some(n - 1);
        }
        assert(s@.take(n as int).drop_last() =~= s@.take(n - 1));
        n -= 1;
    }
    assert(s@.take(0) =~= Seq::<char>::empty());
    None
}

proof fn lemma_take_full(s: Seq<char>)
    ensures
        s.take(s.len() as int) == s,
{
    assert(s.take(s.len() as int) =~= s);
}

/// `str::trim_start` on characters.
pub fn trim_start_exec(s: &[char]) -> (r: Vec<char>)
    ensures
        r@ == trim_start(s@),
{
    let mut i: usize = 0;
    assert(s@.skip(0) =~= s@);
    while i < s.len() && whitespace(s[i])
        invariant
            i <= s.len(),
            leading_ws(s@) == i + leading_ws(s@.skip(i as int)),
        decreases s.len() - i,
    {
        assert(s@.skip(i as int).drop_first() =~= s@.skip(i + 1));
        i += 1;
    }
    assert(leading_ws(s@.skip(i as int)) == 0);
    slice_to_vec_range(s, i, s.len())
}

/// `str::trim_end` on characters.
pub fn trim_end_exec(s: &[char]) -> (r: Vec<char>)
    ensures
        r@ == trim_end(s@),
{
    let mut n: usize = s.len();
    proof {
        lemma_take_full(s@);
    }
    while n > 0 && whitespace(s[n - 1])
        invariant
            n <= s.len(),
            trailing_ws(s@) == (s.len() - n) + trailing_ws(s@.take(n as int)),
        decreases n,
    {
        assert(s@.take(n as int).drop_last() =~= s@.take(n - 1));
        n -= 1;
    }
    assert(trailing_ws(s@.take(n as int)) == 0);
    slice_to_vec_range(s, 0, n)
}

pub proof fn lemma_trim_start_len(s: Seq<char>)
    ensures
        leading_ws(s) <= s.len(),
    decreases s.len(),
{
    if s.len() > 0 && is_whitespace(s[0]) {
        lemma_trim_start_len(s.drop_first());
    }
}

pub proof fn lemma_trim_end_len(s: Seq<char>)
    ensures
        trailing_ws(s) <= s.len(),
    decreases s.len(),
{
    if s.len() > 0 && is_whitespace(s.last()) {
        lemma_trim_end_len(s.drop_last());
    }
}

proof fn lemma_leading_ws(s: Seq<char>)
    ensures
        leading_ws(s) <= s.len(),
        forall|i: int| 0 <= i < leading_ws(s) ==> is_whitespace(#[trigger] s[i]),
        leading_ws(s) < s.len() ==> !is_whitespace(s[leading_ws(s) as int]),
    decreases s.len(),
{
    if s.len() > 0 && is_whitespace(s[0]) {
        let t = s.drop_first();
        lemma_leading_ws(t);
        assert forall|i: int| 0 <= i < leading_ws(s) implies is_whitespace(#[trigger] s[i]) by {
            if i > 0 {
                assert(s[i] == t[i - 1]);
            }
        }
        if leading_ws(s) < s.len() {
            assert(s[leading_ws(s) as int] == t[leading_ws(t) as int]);
        }
    }
}

proof fn lemma_trailing_ws(s: Seq<char>)
    ensures
        trailing_ws(s) <= s.len(),
        forall|i: int| s.len() - trailing_ws(s) <= i < s.len() ==> is_whitespace(#[trigger] s[i]),
        trailing_ws(s) < s.len() ==> !is_whitespace(s[s.len() - trailing_ws(s) - 1]),
    decreases s.len(),
{
    if s.len() > 0 && is_whitespace(s.last()) {
        let t = s.drop_last();
        lemma_trailing_ws(t);
        assert forall|i: int| s.len() - trailing_ws(s) <= i < s.len() implies is_whitespace(
            #[trigger] s[i],
        ) by {
            if i < s.len() - 1 {
                assert(s[i] == t[i]);
            }
        }
        if trailing_ws(s) < s.len() {
            assert(s[s.len() - trailing_ws(s) - 1] == t[t.len() - trailing_ws(t) - 1]);
        }
    }
}

/// `trim` removes exactly the whitespace at both ends: what is left is a
/// stretch of the input with only whitespace before and after it, and it
/// neither starts nor ends with whitespace. Trimming twice changes nothing.
pub proof fn lemma_trim_shape(s: Seq<char>)
    ensures
        exists|a: int, b: int|
            {
                &&& 0 <= a <= b <= s.len()
                &&& trim(s) == s.subrange(a, b)
                &&& forall|i: int| 0 <= i < a ==> is_whitespace(#[trigger] s[i])
                &&& forall|i: int| b <= i < s.len() ==> is_whitespace(#[trigger] s[i])
            },
        trim(s).len() > 0 ==> !is_whitespace(trim(s)[0]) && !is_whitespace(trim(s).last()),
        trim(trim(s)) == trim(s),
{
    lemma_leading_ws(s);
    let a = leading_ws(s) as int;
    let t = trim_start(s);
    lemma_trailing_ws(t);
    let b = a + t.len() - trailing_ws(t);
    let r = trim(s);
    assert(r =~= s.subrange(a, b));
    assert forall|i: int| b <= i < s.len() implies is_whitespace(#[trigger] s[i]) by {
        assert(s[i] == t[i - a]);
    }
    if r.len() > 0 {
        assert(r[0] == t[0]);
        assert(r.last() == t[t.len() - trailing_ws(t) - 1]);
    }
    assert(leading_ws(r) == 0);
    assert(trailing_ws(r) == 0);
    assert(r.skip(0) =~= r);
    assert(r.take(r.len() as int) =~= r);
}

/// The first `c` of `x + [c] + y` is the one after `x` when `x` has none.
pub proof fn lemma_find_char_first(x: Seq<char>, c: char, y: Seq<char>)
    requires
        !x.contains(c),
    ensures
        find_char(x + seq![c] + y, c) == Some(x.len() as int),
{
    let u = x + seq![c] + y;
    let j = x.len() as int;
    lemma_find_from_bounds(u, 0, seq![c]);
    assert(matches_at(u, j, seq![c])) by {
        assert(u.subrange(j, j + 1) =~= seq![c]);
    }
    if let Some(k) = find_char(u, c) {
        if k < j {
            assert(u.subrange(k, k + 1)[0] == u[k]);
            assert(u[k] == x[k]);
        }
    }
}

/// A character that does not occur is not found.
pub proof fn lemma_find_char_absent(x: Seq<char>, c: char)
    requires
        !x.contains(c),
    ensures
        find_char(x, c) is None,
{
    lemma_find_from_bounds(x, 0, seq![c]);
    if let Some(k) = find_char(x, c) {
        assert(x.subrange(k, k + 1)[0] == x[k]);
    }
}

/// `str::trim` on characters.
pub fn trim_exec(s: &[char]) -> (r: Vec<char>)
    ensures
        r@ == trim(s@),
{
    let a = trim_start_exec(s);
    trim_end_exec(a.as_slice())
}

/// A copy of `s[begin..end]`.
pub fn slice_to_vec_range(s: &[char], begin: usize, end: usize) -> (r: Vec<char>)
    requires
        begin <= end <= s@.len(),
    ensures
        r@ == s@.subrange(begin as int, end as int),
{
    let mut out: Vec<char> = Vec::new();
    let mut i = begin;
    while i < end
        invariant
            begin <= i <= end,
            end <= s@.len(),
            out@ == s@.subrange(begin as int, i as int),
        decreases end - i,
    {
        out.push(s[i]);
        assert(s@.subrange(begin as int, i + 1) == s@.subrange(begin as int, i as int).push(
            s@[i as int],
        ));
        i += 1;
    }
    out
}

/// `str::to_ascii_lowercase` on characters.
pub fn ascii_lowercase_exec(s: &[char]) -> (r: Vec<char>)
    ensures
        r@ == ascii_lowercase(s@),
{
    let mut out: Vec<char> = Vec::new();
    let mut i: usize = 0;
    while i < s.len()
        invariant
            i <= s.len(),
            out@ == ascii_lowercase(s@.take(i as int)),
        decreases s.len() - i,
    {
        let c = s[i];
        let l = if 'A' <= c && c <= 'Z' {
            char_from_ascii((c as u8) + 32)
        } else {
            c
        };
        assert(l == ascii_lower_char(c)) by {
            if 'A' <= c && c <= 'Z' {
                assert((c as u8) as u32 == c as u32);
            }
        }
        out.push(l);
        assert(ascii_lowercase(s@.take(i + 1)) =~= ascii_lowercase(s@.take(i as int)).push(l));
        i += 1;
    }
    assert(s@.take(s.len() as int) =~= s@);
    out
}

/// The character with the ASCII code `b`.
pub fn char_from_ascii(b: u8) -> (r: char)
    requires
        b < 128,
    ensures
        r as u32 == b as u32,
{
    b as char
}

pub proof fn lemma_decimal_value_push(s: Seq<char>, c: char)
    requires
        is_digit(c),
    ensures
        decimal_value(s.push(c)) == decimal_value(s) * 10 + digit_value(c),
{
    assert(s.push(c).drop_last() =~= s);
    assert(s.push(c).last() == c);
}

/// `n` written in decimal is a non-empty run of digits whose value is `n`.
pub proof fn lemma_decimal_string_value(n: nat)
    ensures
        decimal_string(n).len() > 0,
        all_digits(decimal_string(n)),
        decimal_string(n)[0] != '+',
        decimal_value(decimal_string(n)) == n,
    decreases n,
{
    if n < 10 {
        let c = (n + 48) as char;
        assert(seq![c].drop_last() =~= Seq::<char>::empty());
        assert(decimal_value(Seq::<char>::empty()) == 0);
        assert(seq![c].last() == c);
        assert(decimal_value(seq![c]) == decimal_value(seq![c].drop_last()) * 10 + digit_value(c));
    } else {
        let q = n / 10;
        let d = n % 10;
        lemma_decimal_string_value(q);
        let c = (d + 48) as char;
        let s = decimal_string(q);
        lemma_decimal_value_push(s, c);
        assert(q * 10 + d == n) by (nonlinear_arith)
            requires
                q == n / 10,
                d == n % 10,
        ;
        assert forall|i: int| 0 <= i < s.push(c).len() implies #[trigger] is_digit(s.push(c)[i]) by {
            if i < s.len() {
                assert(s.push(c)[i] == s[i]);
            }
        }
        assert(s.push(c)[0] == s[0]);
    }
}

/// Reading back a number written in decimal gives the number, with or
/// without a leading `+`, as long as it fits.
pub proof fn lemma_parse_decimal_roundtrip(n: nat, max: nat)
    requires
        n <= max,
    ensures
        parse_unsigned(decimal_string(n), max) == Some(n),
        parse_unsigned(seq!['+'] + decimal_string(n), max) == Some(n),
{
    lemma_decimal_string_value(n);
    assert((seq!['+'] + decimal_string(n)).drop_first() =~= decimal_string(n));
}

/// Parses `s` as `u16::from_str` / `usize::from_str` would, for a type
/// whose largest value is `max`.
pub fn parse_unsigned_exec(s: &[char], max: u64) -> (r: Option<u64>)
    ensures
        r matches Some(v) ==> parse_unsigned(s@, max as nat) == Some(v as nat),
        r is None ==> parse_unsigned(s@, max as nat) is None,
{
    let start: usize = if s.len() > 0 && s[0] == '+' {
        1
    } else {
        0
    };
    let ghost digits = if s@.len() > 0 && s@[0] == '+' {
        s@.drop_first()
    } else {
        s@
    };
    assert(digits =~= s@.skip(start as int));
    if start >= s.len() {
        return None;
    }
    let mut acc: u128 = 0;
    let mut i = start;
    let cap: u128 = (max as u128) + 1;
    assert(s@.subrange(start as int, start as int) =~= Seq::<char>::empty());
    while i < s.len()
        invariant
            start <= i <= s.len(),
            cap == max + 1,
            digits == s@.skip(start as int),
            digits == (if s@.len() > 0 && s@[0] == '+' {
                s@.drop_first()
            } else {
                s@
            }),
            all_digits(s@.subrange(start as int, i as int)),
            acc == if decimal_value(s@.subrange(start as int, i as int)) > max {
                cap as int
            } else {
                decimal_value(s@.subrange(start as int, i as int)) as int
            },
        decreases s.len() - i,
    {
        let c = s[i];
        let ghost prefix = s@.subrange(start as int, i as int);
        assert(s@.subrange(start as int, i + 1) =~= prefix.push(c));
        if !('0' <= c && c <= '9') {
            assert(digits[i - start] == c);
            assert(!is_digit(digits[i - start]));
            assert(!all_digits(digits));
            assert(parse_unsigned(s@, max as nat) is None);
            return None;
        }
        let d = (c as u32 - '0' as u32) as u128;
        proof {
            lemma_decimal_value_push(prefix, c);
        }
        if acc >= cap {
            acc = cap;
        } else {
            let next = acc * 10 + d;
            acc = if next > max as u128 {
                cap
            } else {
                next
            };
        }
        i += 1;
    }
    assert(s@.subrange(start as int, s.len() as int) =~= digits);
    if acc > max as u128 {
        None
    } else {
        Some(acc as u64)
    }
}

/// Appends the decimal digits of `n` to `dst`.
pub fn push_decimal(dst: &mut String, n: u16)
    ensures
        final(dst)@ == old(dst)@ + decimal_string(n as nat),
    decreases n,
{
    if n < 10 {
        dst.push(char_from_ascii((n as u8) + 48));
        assert(seq![((n as nat) + 48) as char] =~= Seq::<char>::empty().push(
            ((n as nat) + 48) as char,
        ));
        assert(old(dst)@ + decimal_string(n as nat) =~= old(dst)@.push(((n as nat) + 48) as char));
    } else {
        push_decimal(dst, n / 10);
        let d = n % 10;
        dst.push(char_from_ascii((d as u8) + 48));
        assert(old(dst)@ + decimal_string(n as nat) =~= old(dst)@ + decimal_string(
            (n / 10) as nat,
        ) + seq![((n % 10) as nat + 48) as char]);
    }
}

/// `str::lines` on characters.
pub fn lines_exec(s: &[char]) -> (r: Vec<Vec<char>>)
    ensures
        r@.map_values(|l: Vec<char>| l@) == lines(s@),
{
    let mut out: Vec<Vec<char>> = Vec::new();
    let mut i: usize = 0;
    assert(s@.skip(0) =~= s@);
    assert(out@.map_values(|l: Vec<char>| l@) + lines(s@) =~= lines(s@));
    while i < s.len()
        invariant
            i <= s.len(),
            out@.map_values(|l: Vec<char>| l@) + lines(s@.skip(i as int)) == lines(s@),
        decreases s.len() - i,
    {
        let ghost rest = s@.skip(i as int);
        let nl = find_char_exec(slice_subrange(s, i, s.len()), '\n');
        proof {
            assert(s@.subrange(i as int, s.len() as int) =~= rest);
            lemma_find_from_bounds(rest, 0, seq!['\n']);
        }
        match nl {
            None => {
                let line = slice_to_vec_range(s, i, s.len());
                assert(line@ =~= rest);
                let ghost before = out@.map_values(|l: Vec<char>| l@);
                out.push(line);
                assert(out@.map_values(|l: Vec<char>| l@) =~= before.push(rest));
                assert(s@.skip(s.len() as int) =~= Seq::<char>::empty());
                assert(lines(rest) == seq![rest]);
                assert(before + seq![rest] =~= before.push(rest) + lines(
                    s@.skip(s.len() as int),
                ));
                i = s.len();
            },
            Some(k) => {
                let mut end = i + k;
                if end > i && s[end - 1] == '\r' {
                    end = end - 1;
                }
                let line = slice_to_vec_range(s, i, end);
                let ghost expect = if rest.take(k as int).len() > 0 && rest.take(k as int).last()
                    == '\r' {
                    rest.take(k as int).drop_last()
                } else {
                    rest.take(k as int)
                };
                assert(line@ =~= expect);
                assert(rest.skip(k + 1) =~= s@.skip(i + k + 1));
                let ghost before = out@.map_values(|l: Vec<char>| l@);
                out.push(line);
                assert(out@.map_values(|l: Vec<char>| l@) =~= before.push(expect));
                assert(lines(rest) == seq![expect] + lines(rest.skip(k + 1)));
                assert(before + lines(rest) =~= before.push(expect) + lines(s@.skip(i + k + 1)));
                i = i + k + 1;
            },
        }
    }
    assert(s@.skip(i as int) =~= Seq::<char>::empty());
    assert(out@.map_values(|l: Vec<char>| l@) + seq![] =~= out@.map_values(|l: Vec<char>| l@));
    out
}

} // verus!

verus! {

/// What `str::to_lowercase` returns for a string: each character mapped to
/// its Unicode lowercase form (which may be several characters).
pub uninterp spec fn lowercase(s: Seq<char>) -> Seq<char>;

/// Calls `str::to_lowercase`; the result is named by `lowercase`. The Unicode
/// lowercase mapping of an ASCII character is its ASCII lowercase form, so on
/// all-ASCII text the result is what `str::to_ascii_lowercase` gives.
#[verifier::external_body]
pub(crate) fn to_lowercase(s: &str) -> (r: String)
    ensures
        r@ == lowercase(s@),
        all_ascii(s@) ==> r@ == ascii_lowercase(s@),
{
    s.to_lowercase()
}

} // verus!
