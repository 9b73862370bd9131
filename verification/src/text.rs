//! Character-level text helpers, and the std text conversions they rest on.
use vstd::prelude::*;
use vstd::utf8::{decode_utf8, valid_utf8};

verus! {

// ---------------------------------------------------------------------------
// Names for std results that the contracts refer to.
// ---------------------------------------------------------------------------

/// What `String::from_utf8_lossy` yields for the given bytes.
pub uninterp spec fn lossy_utf8(bytes: Seq<u8>) -> Seq<char>;

/// The text `String::from_utf8` reports for the given bytes when they are
/// not well-formed UTF-8 (the `Display` of its error).
pub uninterp spec fn utf8_error_text(bytes: Seq<u8>) -> Seq<char>;

/// What `Path::new(p).file_stem()` yields, read back as text.
pub uninterp spec fn path_file_stem(p: Seq<char>) -> Option<Seq<char>>;

/// What `Path::new(p).extension()` yields, read back as text.
pub uninterp spec fn path_extension(p: Seq<char>) -> Option<Seq<char>>;

// ---------------------------------------------------------------------------
// std text and path conversions.
// ---------------------------------------------------------------------------

/// `String::from_utf8`: succeeds exactly on well-formed UTF-8 and then
/// holds the decoded characters; the error is rendered with its `Display`,
/// which depends on the bytes alone.
#[verifier::external_body]
pub(crate) fn utf8_strict(bytes: Vec<u8>) -> (r: Result<String, String>)
    ensures
        r is Ok <==> valid_utf8(bytes@),
        r matches Ok(s) ==> s@ == decode_utf8(bytes@),
        r matches Err(e) ==> e@ == utf8_error_text(bytes@),
{
    String::from_utf8(bytes).map_err(|e| e.to_string())
}

/// `String::from_utf8_lossy`: on well-formed UTF-8 it gives the decoded
/// characters; otherwise each bad sequence becomes U+FFFD (left unstated).
#[verifier::external_body]
pub(crate) fn utf8_lossy(bytes: &[u8]) -> (r: String)
    ensures
        r@ == lossy_utf8(bytes@),
        valid_utf8(bytes@) ==> r@ == decode_utf8(bytes@),
{
    String::from_utf8_lossy(bytes).into_owned()
}

/// Whether `c` has the Unicode `White_Space` property, the test of
/// `char::is_whitespace`: U+0009..=U+000D, U+0020, U+0085, U+00A0, U+1680,
/// U+2000..=U+200A, U+2028, U+2029, U+202F, U+205F and U+3000.
pub open spec fn white_space(c: char) -> bool {
    let v = c as u32;
    (0x09 <= v && v <= 0x0D) || v == 0x20 || v == 0x85 || v == 0xA0 || v == 0x1680 || (0x2000 <= v && v
        <= 0x200A) || v == 0x2028 || v == 0x2029 || v == 0x202F || v == 0x205F || v == 0x3000
}

/// `char::is_whitespace`: whether `c` has the Unicode `White_Space` property.
pub fn is_white_space(c: char) -> (r: bool)
    ensures
        r == white_space(c),
{
    let v = c as u32;
    (0x09 <= v && v <= 0x0D) || v == 0x20 || v == 0x85 || v == 0xA0 || v == 0x1680 || (0x2000 <= v && v
        <= 0x200A) || v == 0x2028 || v == 0x2029 || v == 0x202F || v == 0x205F || v == 0x3000
}

/// The text that `String::from_utf8_lossy` gives for `b`: the decoded
/// characters when `b` is well-formed UTF-8, else its named result.
pub open spec fn text_of(b: Seq<u8>) -> Seq<char> {
    if valid_utf8(b) {
        decode_utf8(b)
    } else {
        lossy_utf8(b)
    }
}

/// `Path::new(path).file_stem()`, read back as text (a stem taken from a
/// `&str` path is always valid UTF-8).
#[verifier::external_body]
pub(crate) fn file_stem(path: &str) -> (r: Option<String>)
    ensures
        r matches Some(s) ==> path_file_stem(path@) == Some(s@),
        r is None ==> path_file_stem(path@) is None,
{
    std::path::Path::new(path).file_stem().and_then(|s| s.to_str()).map(|s| s.to_string())
}

/// `Path::new(path).extension()`, read back as text.
#[verifier::external_body]
pub(crate) fn file_extension(path: &str) -> (r: Option<String>)
    ensures
        r matches Some(s) ==> path_extension(path@) == Some(s@),
        r is None ==> path_extension(path@) is None,
{
    std::path::Path::new(path).extension().and_then(|s| s.to_str()).map(|s| s.to_string())
}

/// `String::push`.
#[verifier::external_body]
pub(crate) fn push_char(s: &mut String, c: char)
    ensures
        final(s)@ == old(s)@.push(c),
{
    s.push(c)
}

/// The characters of `s`, in order.
pub fn chars_of(s: &str) -> (r: Vec<char>)
    ensures
        r@ == s@,
{
    let mut out: Vec<char> = Vec::new();
    for c in it: s.chars()
        invariant
            out@ == it.seq().take(it.index() as int),
            it.seq() == s@,
    {
        out.push(c);
    }
    out
}

// ---------------------------------------------------------------------------
// Specifications of the text operations.
// ---------------------------------------------------------------------------

/// Index of the first character at or after `i` that fails `p`.
pub open spec fn lead_from(s: Seq<char>, p: spec_fn(char) -> bool, i: int) -> int
    decreases s.len() - i,
{
    if i < 0 || i >= s.len() || !p(s[i]) {
        i
    } else {
        lead_from(s, p, i + 1)
    }
}

/// End of `s` after dropping trailing characters that satisfy `p`, not below `lo`.
pub open spec fn trail_to(s: Seq<char>, p: spec_fn(char) -> bool, lo: int, j: int) -> int
    decreases j - lo,
{
    if j <= lo || j > s.len() || !p(s[j - 1]) {
        j
    } else {
        trail_to(s, p, lo, j - 1)
    }
}

/// `s` with leading and trailing characters satisfying `p` removed.
pub open spec fn strip_by(s: Seq<char>, p: spec_fn(char) -> bool) -> Seq<char> {
    let a = lead_from(s, p, 0);
    s.subrange(a, trail_to(s, p, a, s.len() as int))
}

/// The whitespace test used by `str::trim`.
pub open spec fn ws_pred() -> spec_fn(char) -> bool {
    |c: char| white_space(c)
}

/// The NUL test used by `trim_matches('\0')`.
pub open spec fn nul_pred() -> spec_fn(char) -> bool {
    |c: char| c == '\0'
}

/// `str::trim`: whitespace removed from both ends.
pub open spec fn trim_ws(s: Seq<char>) -> Seq<char> {
    strip_by(s, ws_pred())
}

/// `str::trim_matches('\0')`: NUL characters removed from both ends.
pub open spec fn trim_nul(s: Seq<char>) -> Seq<char> {
    strip_by(s, nul_pred())
}

/// ASCII lower-casing of one character.
pub open spec fn lower(c: char) -> char {
    if 'A' <= c && c <= 'Z' { ((c as u32) + 32) as char } else { c }
}

/// ASCII upper-casing of one character.
pub open spec fn upper(c: char) -> char {
    if 'a' <= c && c <= 'z' { ((c as u32) - 32) as char } else { c }
}

/// `to_ascii_lowercase` on text.
pub open spec fn lower_all(s: Seq<char>) -> Seq<char> {
    s.map_values(|c: char| lower(c))
}

/// `to_ascii_uppercase` on text.
pub open spec fn upper_all(s: Seq<char>) -> Seq<char> {
    s.map_values(|c: char| upper(c))
}

/// `eq_ignore_ascii_case` on text.
pub open spec fn eq_ci(a: Seq<char>, b: Seq<char>) -> bool {
    lower_all(a) == lower_all(b)
}

/// Decimal digit character of `d` (0..=9).
pub open spec fn digit_char(d: int) -> char {
    (('0' as u32) + d) as char
}

/// Decimal rendering of `n`, as `format!("{}", n)` gives it.
pub open spec fn decimal(n: nat) -> Seq<char>
    decreases n,
{
    if n < 10 {
        seq![digit_char(n as int)]
    } else {
        decimal(n / 10).push(digit_char((n % 10) as int))
    }
}

/// Upper-case hexadecimal digit character of `d` (0..=15).
pub open spec fn hex_char(d: int) -> char {
    if d < 10 { (('0' as u32) + d) as char } else { (('A' as u32) + d - 10) as char }
}

// ---------------------------------------------------------------------------
// Executable helpers.
// ---------------------------------------------------------------------------

/// ASCII lower-casing of one character.
pub fn lower_char(c: char) -> (r: char)
    ensures
        r == lower(c),
{
    if 'A' <= c && c <= 'Z' {
        let v: u32 = (c as u32) + 32;
        char_from_ascii(v)
    } else {
        c
    }
}

/// ASCII upper-casing of one character.
pub fn upper_char(c: char) -> (r: char)
    ensures
        r == upper(c),
{
    if 'a' <= c && c <= 'z' {
        let v: u32 = (c as u32) - 32;
        char_from_ascii(v)
    } else {
        c
    }
}

/// The ASCII character with code `v`.
pub fn char_from_ascii(v: u32) -> (r: char)
    requires
        v < 0x80,
    ensures
        r == v as char,
        r as u32 == v,
{
    let b: u8 = v as u8;
    b as char
}

/// Builds a `String` holding exactly the characters `v`.
pub fn string_from_chars(v: &[char]) -> (r: String)
    ensures
        r@ == v@,
{
    let mut s = String::new();
    let mut i: usize = 0;
    while i < v.len()
        invariant
            i <= v.len(),
            s@ == v@.subrange(0, i as int),
        decreases v.len() - i,
    {
        push_char(&mut s, v[i]);
        i = i + 1;
        assert(s@ == v@.subrange(0, i as int));
    }
    assert(v@.subrange(0, v@.len() as int) == v@);
    s
}

/// Appends all of `t` to `s`.
pub fn push_chars(s: &mut String, t: &[char])
    ensures
        final(s)@ == old(s)@ + t@,
{
    let mut i: usize = 0;
    while i < t.len()
        invariant
            i <= t.len(),
            s@ == old(s)@ + t@.subrange(0, i as int),
        decreases t.len() - i,
    {
        push_char(s, t[i]);
        i = i + 1;
        assert(s@ == old(s)@ + t@.subrange(0, i as int));
    }
    assert(t@.subrange(0, t@.len() as int) == t@);
}

/// Appends the text of `t` to `s`.
pub fn push_str(s: &mut String, t: &str)
    ensures
        final(s)@ == old(s)@ + t@,
{
    let v = chars_of(t);
    push_chars(s, v.as_slice());
}

/// `str::trim` on characters.
pub fn trim_chars(s: &[char]) -> (r: Vec<char>)
    ensures
        r@ == trim_ws(s@),
{
    let ghost p = ws_pred();
    let n = s.len();
    let mut a: usize = 0;
    while a < n && is_white_space(s[a])
        invariant
            a <= n,
            n == s@.len(),
            p == ws_pred(),
            lead_from(s@, p, a as int) == lead_from(s@, p, 0),
        decreases n - a,
    {
        a = a + 1;
    }
    let mut b: usize = n;
    while b > a && is_white_space(s[b - 1])
        invariant
            a <= b <= n,
            n == s@.len(),
            p == ws_pred(),
            trail_to(s@, p, a as int, b as int) == trail_to(s@, p, a as int, n as int),
        decreases b,
    {
        b = b - 1;
    }
    slice_range(s, a, b)
}

/// `str::trim_matches('\0')` on characters.
pub fn trim_nul_chars(s: &[char]) -> (r: Vec<char>)
    ensures
        r@ == trim_nul(s@),
{
    let ghost p = nul_pred();
    let n = s.len();
    let mut a: usize = 0;
    while a < n && s[a] == '\0'
        invariant
            a <= n,
            n == s@.len(),
            p == nul_pred(),
            lead_from(s@, p, a as int) == lead_from(s@, p, 0),
        decreases n - a,
    {
        a = a + 1;
    }
    let mut b: usize = n;
    while b > a && s[b - 1] == '\0'
        invariant
            a <= b <= n,
            n == s@.len(),
            p == nul_pred(),
            trail_to(s@, p, a as int, b as int) == trail_to(s@, p, a as int, n as int),
        decreases b,
    {
        b = b - 1;
    }
    slice_range(s, a, b)
}

/// Copy of `s[a..b]`.
pub fn slice_range<T: Copy>(s: &[T], a: usize, b: usize) -> (r: Vec<T>)
    requires
        a <= b <= s@.len(),
    ensures
        r@ == s@.subrange(a as int, b as int),
{
    let mut r: Vec<T> = Vec::new();
    let mut i: usize = a;
    while i < b
        invariant
            a <= i <= b,
            b <= s@.len(),
            r@ == s@.subrange(a as int, i as int),
        decreases b - i,
    {
        r.push(s[i]);
        i = i + 1;
        assert(r@ == s@.subrange(a as int, i as int));
    }
    r
}

/// `to_ascii_lowercase` on characters.
pub fn lower_chars(s: &[char]) -> (r: Vec<char>)
    ensures
        r@ == lower_all(s@),
{
    let mut r: Vec<char> = Vec::new();
    let mut i: usize = 0;
    while i < s.len()
        invariant
            i <= s@.len(),
            r@ == lower_all(s@.subrange(0, i as int)),
        decreases s.len() - i,
    {
        let c = lower_char(s[i]);
        r.push(c);
        i = i + 1;
        assert(r@ == lower_all(s@.subrange(0, i as int)));
    }
    assert(s@.subrange(0, s@.len() as int) == s@);
    r
}

/// `to_ascii_uppercase` on characters.
pub fn upper_chars(s: &[char]) -> (r: Vec<char>)
    ensures
        r@ == upper_all(s@),
{
    let mut r: Vec<char> = Vec::new();
    let mut i: usize = 0;
    while i < s.len()
        invariant
            i <= s@.len(),
            r@ == upper_all(s@.subrange(0, i as int)),
        decreases s.len() - i,
    {
        let c = upper_char(s[i]);
        r.push(c);
        i = i + 1;
        assert(r@ == upper_all(s@.subrange(0, i as int)));
    }
    assert(s@.subrange(0, s@.len() as int) == s@);
    r
}

/// `eq_ignore_ascii_case` on characters.
pub fn eq_ignore_case(a: &[char], b: &[char]) -> (r: bool)
    ensures
        r == eq_ci(a@, b@),
{
    if a.len() != b.len() {
        assert(lower_all(a@).len() != lower_all(b@).len());
        return false;
    }
    let mut i: usize = 0;
    while i < a.len()
        invariant
            i <= a@.len(),
            a@.len() == b@.len(),
            forall|k: int| 0 <= k < i ==> lower(#[trigger] a@[k]) == lower(b@[k]),
        decreases a.len() - i,
    {
        let x = lower_char(a[i]);
        let y = lower_char(b[i]);
        if x != y {
            assert(lower_all(a@)[i as int] != lower_all(b@)[i as int]);
            return false;
        }
        i = i + 1;
    }
    assert(lower_all(a@) =~= lower_all(b@));
    true
}

/// Decimal rendering of a byte.
pub fn decimal_u8(n: u8) -> (r: Vec<char>)
    ensures
        r@ == decimal(n as nat),
{
    let mut r: Vec<char> = Vec::new();
    proof {
        reveal_with_fuel(decimal, 3);
    }
    if n >= 100 {
        r.push(char_from_ascii(48 + (n / 100) as u32));
        r.push(char_from_ascii(48 + ((n / 10) % 10) as u32));
        r.push(char_from_ascii(48 + (n % 10) as u32));
        assert(decimal((n / 10) as nat) == seq![digit_char((n / 100) as int), digit_char(((n / 10) % 10) as int)]);
    } else if n >= 10 {
        r.push(char_from_ascii(48 + (n / 10) as u32));
        r.push(char_from_ascii(48 + (n % 10) as u32));
        assert(decimal((n / 10) as nat) == seq![digit_char((n / 10) as int)]);
    } else {
        r.push(char_from_ascii(48 + n as u32));
    }
    assert(r@ =~= decimal(n as nat));
    r
}

/// Upper-case hex digit for `d` below 16.
pub fn hex_digit(d: u8) -> (r: char)
    requires
        d < 16,
    ensures
        r == hex_char(d as int),
{
    if d < 10 {
        char_from_ascii(48 + d as u32)
    } else {
        char_from_ascii(55 + d as u32)
    }
}

/// Whether `s` ends with `suf`.
pub open spec fn ends_with(s: Seq<char>, suf: Seq<char>) -> bool {
    s.len() >= suf.len() && s.subrange(s.len() - suf.len(), s.len() as int) == suf
}

/// Whether `s` ends with `suf`.
pub fn ends_with_chars(s: &[char], suf: &[char]) -> (r: bool)
    ensures
        r == ends_with(s@, suf@),
{
    if s.len() < suf.len() {
        return false;
    }
    let n = s.len();
    let off = n - suf.len();
    let mut i: usize = 0;
    while i < suf.len()
        invariant
            i <= suf@.len(),
            n == s@.len(),
            off + suf@.len() == s@.len(),
            forall|k: int| 0 <= k < i ==> s@[off + k] == #[trigger] suf@[k],
        decreases suf.len() - i,
    {
        if s[off + i] != suf[i] {
            assert(s@.subrange(off as int, s@.len() as int)[i as int] != suf@[i as int]);
            return false;
        }
        i = i + 1;
    }
    assert(s@.subrange(off as int, s@.len() as int) =~= suf@);
    true
}

/// Whether two texts are equal.
pub fn chars_eq(a: &[char], b: &[char]) -> (r: bool)
    ensures
        r == (a@ == b@),
{
    if a.len() != b.len() {
        return false;
    }
    let mut i: usize = 0;
    while i < a.len()
        invariant
            i <= a@.len(),
            a@.len() == b@.len(),
            forall|k: int| 0 <= k < i ==> a@[k] == #[trigger] b@[k],
        decreases a.len() - i,
    {
        if a[i] != b[i] {
            return false;
        }
        i = i + 1;
    }
    assert(a@ =~= b@);
    true
}

/// Whether the text of `s` equals the text of `t`.
pub fn str_eq(s: &str, t: &str) -> (r: bool)
    ensures
        r == (s@ == t@),
{
    let a = chars_of(s);
    let b = chars_of(t);
    chars_eq(a.as_slice(), b.as_slice())
}

/// The character `safe_stem` keeps for `c`: ASCII letters, digits, `-` and
/// `_` stay, anything else becomes `_`.
pub open spec fn safe_char(c: char) -> char {
    if ('a' <= c && c <= 'z') || ('A' <= c && c <= 'Z') || ('0' <= c && c <= '9') || c == '-' || c == '_' {
        c
    } else {
        '_'
    }
}

/// The file stem of `path` (or `fallback` when it has none) with every
/// character outside `[A-Za-z0-9_-]` replaced by `_`.
pub open spec fn safe_stem_spec(path: Seq<char>, fallback: Seq<char>) -> Seq<char> {
    let stem = match path_file_stem(path) {
        Some(s) => s,
        None => fallback,
    };
    stem.map_values(|c: char| safe_char(c))
}

/// `safe_stem` with the given fallback.
pub fn safe_stem_with(path: &str, fallback: &str) -> (r: String)
    ensures
        r@ == safe_stem_spec(path@, fallback@),
{
    let stem = match file_stem(path) {
        Some(s) => chars_of(s.as_str()),
        None => chars_of(fallback),
    };
    let mut out: Vec<char> = Vec::new();
    let mut i: usize = 0;
    while i < stem.len()
        invariant
            i <= stem@.len(),
            out@ == stem@.subrange(0, i as int).map_values(|c: char| safe_char(c)),
        decreases stem.len() - i,
    {
        let c = stem[i];
        let keep = ('a' <= c && c <= 'z') || ('A' <= c && c <= 'Z') || ('0' <= c && c <= '9') || c == '-'
            || c == '_';
        if keep {
            out.push(c);
        } else {
            out.push('_');
        }
        i = i + 1;
        assert(out@ =~= stem@.subrange(0, i as int).map_values(|c: char| safe_char(c)));
    }
    assert(stem@.subrange(0, stem@.len() as int) =~= stem@);
    string_from_chars(out.as_slice())
}

/// Whether `c` is an ASCII letter, an ASCII digit, `-` or `_`.
pub open spec fn is_safe_char(c: char) -> bool {
    ('a' <= c && c <= 'z') || ('A' <= c && c <= 'Z') || ('0' <= c && c <= '9') || c == '-' || c == '_'
}

/// A safe stem holds only ASCII letters, digits, `-` and `_`, and has as
/// many characters as the stem (or fallback) it was made from.
pub proof fn law_safe_stem_is_safe(path: Seq<char>, fallback: Seq<char>)
    ensures
        forall|k: int|
            0 <= k < safe_stem_spec(path, fallback).len() ==> is_safe_char(#[trigger] safe_stem_spec(path, fallback)[k]),
        safe_stem_spec(path, fallback).len() == match path_file_stem(path) {
            Some(s) => s.len(),
            None => fallback.len(),
        },
{
}

/// ASCII bytes are well-formed UTF-8 and read as the characters with the
/// same codes.
pub proof fn law_ascii_text(b: Seq<u8>)
    requires
        forall|i: int| 0 <= i < b.len() ==> b[i] < 0x80,
    ensures
        valid_utf8(b),
        text_of(b) == b.map_values(|x: u8| (x as u32) as char),
    decreases b.len(),
{
    if b.len() > 0 {
        let rest = b.subrange(1, b.len() as int);
        law_ascii_text(rest);
        let x = b[0];
        assert(x & 0x7f == x) by (bit_vector)
            requires
                x < 0x80,
        ;
        assert(vstd::utf8::pop_first_scalar(b) =~= rest);
        assert(b.map_values(|x: u8| (x as u32) as char) =~= seq![(x as u32) as char] + rest.map_values(
            |x: u8| (x as u32) as char,
        ));
    } else {
        assert(b.map_values(|x: u8| (x as u32) as char) =~= Seq::<char>::empty());
    }
}

} // verus!
