//! Game identification: the ID in a disc header, and its title in a
//! GameTDB XML database.
use vstd::prelude::*;
use crate::text::{
    chars_of, eq_ci, eq_ignore_case, text_of, string_from_chars, trim_chars, trim_nul, trim_nul_chars,
    trim_ws, upper_all, upper_chars, utf8_lossy,
};

verus! {

/// Why no title could be given for an ID.
#[derive(Debug, PartialEq, Eq, Clone, Copy)]
pub enum TitleError {
    /// The trimmed ID is not 6 bytes long.
    BadIdLength,
    /// A `<game` tag has no closing `>`.
    UnclosedGameTag,
    /// A game entry has no `</game>`.
    MissingGameEnd,
    /// The entry for the ID has no `<title>`.
    NoTitle,
    /// No entry has the ID.
    NotFound,
}

// ---------------------------------------------------------------------------
// The ID in a disc header.
// ---------------------------------------------------------------------------

/// The game ID held by the first six bytes of a disc header: decoded
/// leniently, NULs trimmed from both ends, then whitespace.
pub open spec fn header_id_spec(header: Seq<u8>) -> Seq<char> {
    trim_ws(trim_nul(text_of(header.subrange(0, 6))))
}

/// Reads the game ID from a disc header.
pub fn get_id(header: &[u8]) -> (r: String)
    requires
        header@.len() >= 6,
    ensures
        r@ == header_id_spec(header@),
{
    let raw = utf8_lossy(&header[0..6]);
    let chars = chars_of(raw.as_str());
    let no_nul = trim_nul_chars(chars.as_slice());
    let trimmed = trim_chars(no_nul.as_slice());
    string_from_chars(trimmed.as_slice())
}

// ---------------------------------------------------------------------------
// Substring search.
// ---------------------------------------------------------------------------

/// Whether `pat` occurs in `hay` at `i`.
pub open spec fn occurs_at(hay: Seq<char>, pat: Seq<char>, i: int) -> bool {
    0 <= i && i + pat.len() <= hay.len() && hay.subrange(i, i + pat.len()) == pat
}

/// The first position at or after `from` where `pat` occurs in `hay`.
pub open spec fn find_from(hay: Seq<char>, pat: Seq<char>, from: int) -> Option<int>
    decreases hay.len() + 1 - from,
{
    if from < 0 || from + pat.len() > hay.len() {
        None
    } else if occurs_at(hay, pat, from) {
        Some(from)
    } else {
        find_from(hay, pat, from + 1)
    }
}

/// A found position lies at or after `from`, and `pat` occurs there.
pub proof fn lemma_find_from(hay: Seq<char>, pat: Seq<char>, from: int)
    ensures
        find_from(hay, pat, from) matches Some(i) ==> from <= i && occurs_at(hay, pat, i) && i + pat.len()
            <= hay.len(),
    decreases hay.len() + 1 - from,
{
    if !(from < 0 || from + pat.len() > hay.len()) && !occurs_at(hay, pat, from) {
        lemma_find_from(hay, pat, from + 1);
    }
}

/// Whether `pat` occurs in `hay` at `i`.
fn matches_at(hay: &[char], pat: &[char], i: usize) -> (r: bool)
    requires
        i <= hay@.len(),
    ensures
        r == occurs_at(hay@, pat@, i as int),
{
    let n = hay.len();
    if n - i < pat.len() {
        return false;
    }
    let mut k: usize = 0;
    while k < pat.len()
        invariant
            n == hay@.len(),
            i + pat@.len() <= hay@.len(),
            k <= pat@.len(),
            forall|j: int| 0 <= j < k ==> hay@[i + j] == pat@[j],
        decreases pat.len() - k,
    {
        assert(i + k < hay@.len());
        if hay[i + k] != pat[k] {
            assert(hay@.subrange(i as int, i + pat@.len())[k as int] != pat@[k as int]);
            return false;
        }
        k = k + 1;
    }
    assert(hay@.subrange(i as int, i + pat@.len()) =~= pat@);
    true
}

/// The first position at or after `from` where `pat` occurs in `hay`.
pub fn find_chars(hay: &[char], pat: &[char], from: usize) -> (r: Option<usize>)
    ensures
        r matches Some(i) ==> find_from(hay@, pat@, from as int) == Some(i as int) && from <= i && i
            + pat@.len() <= hay@.len(),
        r is None ==> find_from(hay@, pat@, from as int) is None,
{
    proof {
        lemma_find_from(hay@, pat@, from as int);
    }
    let n = hay.len();
    let m = pat.len();
    if from > n || n - from < m {
        return None;
    }
    if m == 0 {
        assert(hay@.subrange(from as int, from as int) =~= pat@);
        return Some(from);
    }
    let mut i = from;
    while i <= n - m
        invariant
            n == hay@.len(),
            m == pat@.len(),
            1 <= m <= n,
            from <= i <= n - m + 1,
            find_from(hay@, pat@, from as int) == find_from(hay@, pat@, i as int),
        decreases n - m + 1 - i,
    {
        if matches_at(hay, pat, i) {
            return Some(i);
        }
        i = i + 1;
    }
    None
}

// ---------------------------------------------------------------------------
// XML fragments.
// ---------------------------------------------------------------------------

/// `<tag>`.
pub open spec fn open_tag(tag: Seq<char>) -> Seq<char> {
    seq!['<'] + tag + seq!['>']
}

/// `</tag>`.
pub open spec fn close_tag(tag: Seq<char>) -> Seq<char> {
    seq!['<', '/'] + tag + seq!['>']
}

/// The text between the first `<tag>` of `block` and the first `</tag>`
/// after it.
pub open spec fn extract_tag_spec(block: Seq<char>, tag: Seq<char>) -> Option<Seq<char>> {
    match find_from(block, open_tag(tag), 0) {
        None => None,
        Some(i) => {
            let start = i + open_tag(tag).len();
            match find_from(block, close_tag(tag), start) {
                None => None,
                Some(end) => Some(block.subrange(start, end)),
            }
        },
    }
}

/// Builds `open`, `tag`, `close` as characters.
fn wrap_tag(lead: &str, tag: &[char]) -> (r: Vec<char>)
    ensures
        r@ == lead@ + tag@ + seq!['>'],
{
    let mut out = chars_of(lead);
    let mut k: usize = 0;
    while k < tag.len()
        invariant
            k <= tag@.len(),
            out@ == lead@ + tag@.subrange(0, k as int),
        decreases tag.len() - k,
    {
        out.push(tag[k]);
        k = k + 1;
        assert(tag@.subrange(0, k as int) =~= tag@.subrange(0, k - 1).push(tag@[k - 1]));
    }
    assert(tag@.subrange(0, tag@.len() as int) =~= tag@);
    out.push('>');
    out
}

/// The text between the first `<tag>` of `block` and the first `</tag>`
/// after it.
pub fn extract_tag_text(block: &[char], tag: &[char]) -> (r: Option<Vec<char>>)
    ensures
        match extract_tag_spec(block@, tag@) {
            Some(t) => r matches Some(v) && v@ == t,
            None => r is None,
        },
{
    proof {
        reveal_strlit("<");
        reveal_strlit("</");
    }
    let open = wrap_tag("<", tag);
    let close = wrap_tag("</", tag);
    assert(open@ =~= open_tag(tag@));
    assert(close@ =~= close_tag(tag@));
    let bl = block.len();
    let i = match find_chars(block, open.as_slice(), 0) {
        Some(i) => i,
        None => return None,
    };
    proof {
        lemma_find_from(block@, open@, 0);
    }
    let start = i + open.len();
    let end = match find_chars(block, close.as_slice(), start) {
        Some(e) => e,
        None => return None,
    };
    proof {
        lemma_find_from(block@, close@, start as int);
    }
    Some(crate::text::slice_range(block, start, end))
}

/// `s` with each occurrence of `pat`, taken left to right without overlap,
/// replaced by `rep`.
pub open spec fn replace_all(s: Seq<char>, pat: Seq<char>, rep: Seq<char>) -> Seq<char>
    decreases s.len(),
{
    if pat.len() == 0 || s.len() == 0 {
        s
    } else if pat.len() <= s.len() && s.subrange(0, pat.len() as int) == pat {
        rep + replace_all(s.subrange(pat.len() as int, s.len() as int), pat, rep)
    } else {
        seq![s[0]] + replace_all(s.subrange(1, s.len() as int), pat, rep)
    }
}

/// `s.replace(pat, rep)` on characters.
pub fn replace_chars(s: &[char], pat: &[char], rep: &[char]) -> (r: Vec<char>)
    requires
        pat@.len() > 0,
    ensures
        r@ == replace_all(s@, pat@, rep@),
{
    let n = s.len();
    let m = pat.len();
    let mut out: Vec<char> = Vec::new();
    let mut i: usize = 0;
    assert(s@.subrange(0, n as int) =~= s@);
    while i < n
        invariant
            n == s@.len(),
            m == pat@.len(),
            m > 0,
            i <= n,
            out@ + replace_all(s@.subrange(i as int, n as int), pat@, rep@) == replace_all(s@, pat@, rep@),
        decreases n - i,
    {
        let ghost rest = s@.subrange(i as int, n as int);
        if matches_at(s, pat, i) {
            assert(rest.subrange(0, m as int) =~= s@.subrange(i as int, i + m));
            assert(rest.subrange(m as int, rest.len() as int) =~= s@.subrange(i + m, n as int));
            let ghost before = out@;
            let mut k: usize = 0;
            while k < rep.len()
                invariant
                    k <= rep@.len(),
                    out@ == before + rep@.subrange(0, k as int),
                decreases rep.len() - k,
            {
                out.push(rep[k]);
                k = k + 1;
                assert(rep@.subrange(0, k as int) =~= rep@.subrange(0, k - 1).push(rep@[k - 1]));
            }
            assert(rep@.subrange(0, rep@.len() as int) =~= rep@);
            assert(before + (rep@ + replace_all(s@.subrange(i + m, n as int), pat@, rep@)) =~= out@
                + replace_all(s@.subrange(i + m, n as int), pat@, rep@));
            i = i + m;
        } else {
            proof {
                if m <= rest.len() {
                    assert(rest.subrange(0, m as int) =~= s@.subrange(i as int, i + m));
                }
                assert(rest.subrange(1, rest.len() as int) =~= s@.subrange(i + 1, n as int));
            }
            let ghost before = out@;
            out.push(s[i]);
            assert(before + (seq![s@[i as int]] + replace_all(s@.subrange(i + 1, n as int), pat@, rep@)) =~= out@
                + replace_all(s@.subrange(i + 1, n as int), pat@, rep@));
            i = i + 1;
        }
    }
    assert(s@.subrange(n as int, n as int) =~= Seq::<char>::empty());
    assert(out@ + Seq::<char>::empty() =~= out@);
    out
}

/// The five predefined XML entities decoded, one after the other, in the
/// order `&amp;`, `&lt;`, `&gt;`, `&quot;`, `&apos;`.
pub open spec fn unescape_spec(s: Seq<char>) -> Seq<char> {
    let a = replace_all(s, "&amp;"@, "&"@);
    let b = replace_all(a, "&lt;"@, "<"@);
    let c = replace_all(b, "&gt;"@, ">"@);
    let d = replace_all(c, "&quot;"@, "\""@);
    replace_all(d, "&apos;"@, "'"@)
}

/// One replacement step with string literals.
fn replace_lit(s: &[char], pat: &str, rep: &str) -> (r: Vec<char>)
    requires
        pat@.len() > 0,
    ensures
        r@ == replace_all(s@, pat@, rep@),
{
    let p = chars_of(pat);
    let q = chars_of(rep);
    replace_chars(s, p.as_slice(), q.as_slice())
}

/// Decodes the predefined XML entities.
pub fn xml_unescape(input: &[char]) -> (r: Vec<char>)
    ensures
        r@ == unescape_spec(input@),
{
    proof {
        reveal_strlit("&amp;");
        reveal_strlit("&lt;");
        reveal_strlit("&gt;");
        reveal_strlit("&quot;");
        reveal_strlit("&apos;");
    }
    let a = replace_lit(input, "&amp;", "&");
    let b = replace_lit(a.as_slice(), "&lt;", "<");
    let c = replace_lit(b.as_slice(), "&gt;", ">");
    let d = replace_lit(c.as_slice(), "&quot;", "\"");
    replace_lit(d.as_slice(), "&apos;", "'")
}

/// A replacement whose pattern starts with a character that `s` lacks
/// leaves `s` as it is.
proof fn lemma_replace_absent(s: Seq<char>, pat: Seq<char>, rep: Seq<char>)
    requires
        pat.len() > 0,
        !s.contains(pat[0]),
    ensures
        replace_all(s, pat, rep) == s,
    decreases s.len(),
{
    if s.len() > 0 {
        let t = s.subrange(1, s.len() as int);
        assert forall|c: char| t.contains(c) implies s.contains(c) by {
            let k = choose|k: int| 0 <= k < t.len() && t[k] == c;
            assert(s[k + 1] == c);
        }
        if pat.len() <= s.len() && s.subrange(0, pat.len() as int) == pat {
            assert(s.subrange(0, pat.len() as int)[0] == s[0]);
            assert(s.contains(s[0]));
        }
        lemma_replace_absent(t, pat, rep);
        assert(seq![s[0]] + t =~= s);
    }
}

/// Text without `&` comes out of entity decoding unchanged.
pub proof fn law_unescape_plain_text(s: Seq<char>)
    requires
        !s.contains('&'),
    ensures
        unescape_spec(s) == s,
{
    reveal_strlit("&amp;");
    reveal_strlit("&lt;");
    reveal_strlit("&gt;");
    reveal_strlit("&quot;");
    reveal_strlit("&apos;");
    lemma_replace_absent(s, "&amp;"@, "&"@);
    lemma_replace_absent(s, "&lt;"@, "<"@);
    lemma_replace_absent(s, "&gt;"@, ">"@);
    lemma_replace_absent(s, "&quot;"@, "\""@);
    lemma_replace_absent(s, "&apos;"@, "'"@);
}

/// `pat` is found at `k` when it occurs there and at no place from `from`
/// on before it.
proof fn lemma_find_first(hay: Seq<char>, pat: Seq<char>, from: int, k: int)
    requires
        0 <= from <= k,
        occurs_at(hay, pat, k),
        forall|j: int| from <= j < k ==> !#[trigger] occurs_at(hay, pat, j),
    ensures
        find_from(hay, pat, from) == Some(k),
    decreases k - from,
{
    if from < k {
        lemma_find_first(hay, pat, from + 1, k);
    }
}

/// A tag's text is what stands between `<tag>` and the first `</tag>`
/// after it: in a block made of text without `<`, then `<tag>`, text `x`
/// without `<`, `</tag>` and anything, the text found is `x`.
pub proof fn law_extract_tag(pre: Seq<char>, tag: Seq<char>, x: Seq<char>, post: Seq<char>)
    requires
        !pre.contains('<'),
        !x.contains('<'),
    ensures
        extract_tag_spec(pre + seq!['<'] + tag + seq!['>'] + x + seq!['<', '/'] + tag + seq!['>'] + post, tag)
            == Some(x),
{
    let o = seq!['<'] + tag + seq!['>'];
    let c = seq!['<', '/'] + tag + seq!['>'];
    let block = pre + o + x + c + post;
    assert(block =~= pre + seq!['<'] + tag + seq!['>'] + x + seq!['<', '/'] + tag + seq!['>'] + post);
    assert(o =~= open_tag(tag));
    assert(c =~= close_tag(tag));
    let start: int = pre.len() as int + o.len() as int;
    let end: int = start + x.len();
    assert(block.subrange(pre.len() as int, start) =~= o);
    assert(block.subrange(end, end + c.len()) =~= c);
    assert forall|j: int| 0 <= j < pre.len() implies !#[trigger] occurs_at(block, o, j) by {
        assert(block[j] == pre[j]);
        if occurs_at(block, o, j) {
            assert(block.subrange(j, j + o.len())[0] == block[j]);
        }
    }
    lemma_find_first(block, o, 0, pre.len() as int);
    assert forall|j: int| start <= j < end implies !#[trigger] occurs_at(block, c, j) by {
        assert(block[j] == x[j - start]);
        if occurs_at(block, c, j) {
            assert(block.subrange(j, j + c.len())[0] == block[j]);
        }
    }
    lemma_find_first(block, c, start, end);
    assert(block.subrange(start, end) =~= x);
}

/// A sequence made of two without `c` has no `c`.
proof fn lemma_lacks_concat(x: Seq<char>, y: Seq<char>, c: char)
    requires
        !x.contains(c),
        !y.contains(c),
    ensures
        !(x + y).contains(c),
{
    assert forall|i: int| 0 <= i < (x + y).len() implies (x + y)[i] != c by {
        if i < x.len() {
            assert((x + y)[i] == x[i]);
        } else {
            assert((x + y)[i] == y[i - x.len()]);
        }
    }
}

/// Text without `pat[0]` before `t` passes through a replacement as it is.
proof fn lemma_replace_after_plain(a: Seq<char>, t: Seq<char>, pat: Seq<char>, rep: Seq<char>)
    requires
        pat.len() > 0,
        !a.contains(pat[0]),
    ensures
        replace_all(a + t, pat, rep) == a + replace_all(t, pat, rep),
    decreases a.len(),
{
    if a.len() == 0 {
        assert(a + t =~= t);
        assert(a + replace_all(t, pat, rep) =~= replace_all(t, pat, rep));
    } else {
        let s = a + t;
        let a1 = a.subrange(1, a.len() as int);
        assert(s[0] == a[0]);
        if pat.len() <= s.len() && s.subrange(0, pat.len() as int) == pat {
            assert(s.subrange(0, pat.len() as int)[0] == s[0]);
        }
        assert forall|c: char| a1.contains(c) implies a.contains(c) by {
            let k = choose|k: int| 0 <= k < a1.len() && a1[k] == c;
            assert(a[k + 1] == c);
        }
        assert(s.subrange(1, s.len() as int) =~= a1 + t);
        lemma_replace_after_plain(a1, t, pat, rep);
        assert(seq![a[0]] + (a1 + replace_all(t, pat, rep)) =~= a + replace_all(t, pat, rep));
    }
}

/// A replacement of an `&`-pattern leaves `a + t` as it is when `a` has no
/// `&`, `t` starts with one that does not begin the pattern (`t` is shorter,
/// or differs from it at `j`) and has no other.
proof fn lemma_keep(a: Seq<char>, t: Seq<char>, pat: Seq<char>, rep: Seq<char>, j: int)
    requires
        pat.len() > 0,
        pat[0] == '&',
        !a.contains('&'),
        t.len() > 0,
        !t.subrange(1, t.len() as int).contains('&'),
        t.len() < pat.len() || (0 < j < pat.len() && j < t.len() && t[j] != pat[j]),
    ensures
        replace_all(a + t, pat, rep) == a + t,
{
    lemma_replace_after_plain(a, t, pat, rep);
    if pat.len() <= t.len() && t.subrange(0, pat.len() as int) == pat {
        assert(t.subrange(0, pat.len() as int)[j] == t[j]);
    }
    let t1 = t.subrange(1, t.len() as int);
    lemma_replace_absent(t1, pat, rep);
    assert(seq![t[0]] + t1 =~= t);
}

/// The pattern `e` itself, between `a` and `b` without `&`, is replaced
/// once.
proof fn lemma_replace_here(a: Seq<char>, e: Seq<char>, b: Seq<char>, rep: Seq<char>)
    requires
        e.len() > 0,
        e[0] == '&',
        !a.contains('&'),
        !b.contains('&'),
    ensures
        replace_all(a + e + b, e, rep) == a + rep + b,
{
    let t = e + b;
    assert(a + e + b =~= a + t);
    lemma_replace_after_plain(a, t, e, rep);
    assert(t.subrange(0, e.len() as int) =~= e);
    assert(t.subrange(e.len() as int, t.len() as int) =~= b);
    lemma_replace_absent(b, e, rep);
    assert(a + (rep + b) =~= a + rep + b);
}

/// Each predefined entity between text without `&` decodes to its
/// character: `&lt;` to `<`, `&gt;` to `>`, `&quot;` to `"`, `&apos;` to
/// `'`, and `&amp;` to `&` unless what follows it spells the rest of
/// another entity (decoding runs entity by entity, `&amp;` first).
pub proof fn law_unescape_entity(a: Seq<char>, b: Seq<char>)
    requires
        !a.contains('&'),
        !b.contains('&'),
    ensures
        unescape_spec(a + "&lt;"@ + b) == a + "<"@ + b,
        unescape_spec(a + "&gt;"@ + b) == a + ">"@ + b,
        unescape_spec(a + "&quot;"@ + b) == a + "\""@ + b,
        unescape_spec(a + "&apos;"@ + b) == a + "'"@ + b,
        b.len() == 0 || !(b[0] == 'l' || b[0] == 'g' || b[0] == 'q' || b[0] == 'a') ==> unescape_spec(
            a + "&amp;"@ + b,
        ) == a + "&"@ + b,
{
    reveal_strlit("&amp;");
    reveal_strlit("&lt;");
    reveal_strlit("&gt;");
    reveal_strlit("&quot;");
    reveal_strlit("&apos;");
    reveal_strlit("&");
    reveal_strlit("<");
    reveal_strlit(">");
    reveal_strlit("\"");
    reveal_strlit("'");
    let amp = "&amp;"@;
    let lt = "&lt;"@;
    let gt = "&gt;"@;
    let quot = "&quot;"@;
    let apos = "&apos;"@;
    assert(!lt.subrange(1, 4).contains('&')) by {
        assert(lt.subrange(1, 4) =~= seq!['l', 't', ';']);
    }
    assert(!gt.subrange(1, 4).contains('&')) by {
        assert(gt.subrange(1, 4) =~= seq!['g', 't', ';']);
    }
    assert(!quot.subrange(1, 6).contains('&')) by {
        assert(quot.subrange(1, 6) =~= seq!['q', 'u', 'o', 't', ';']);
    }
    assert(!apos.subrange(1, 6).contains('&')) by {
        assert(apos.subrange(1, 6) =~= seq!['a', 'p', 'o', 's', ';']);
    }
    assert(!"<"@.contains('&') && !">"@.contains('&') && !"\""@.contains('&') && !"'"@.contains('&'));
    // `&lt;`
    assert(unescape_spec(a + lt + b) == a + "<"@ + b) by {
        let t = lt + b;
        assert(a + lt + b =~= a + t);
        assert(t.subrange(1, t.len() as int) =~= lt.subrange(1, 4) + b);
        lemma_lacks_concat(lt.subrange(1, 4), b, '&');
        lemma_keep(a, t, amp, "&"@, 1);
        lemma_replace_here(a, lt, b, "<"@);
        let r = a + "<"@ + b;
        lemma_lacks_concat(a, "<"@, '&');
        lemma_lacks_concat(a + "<"@, b, '&');
        lemma_replace_absent(r, gt, ">"@);
        lemma_replace_absent(r, quot, "\""@);
        lemma_replace_absent(r, apos, "'"@);
    }
    // `&gt;`
    assert(unescape_spec(a + gt + b) == a + ">"@ + b) by {
        let t = gt + b;
        assert(a + gt + b =~= a + t);
        assert(t.subrange(1, t.len() as int) =~= gt.subrange(1, 4) + b);
        lemma_lacks_concat(gt.subrange(1, 4), b, '&');
        lemma_keep(a, t, amp, "&"@, 1);
        lemma_keep(a, t, lt, "<"@, 1);
        lemma_replace_here(a, gt, b, ">"@);
        let r = a + ">"@ + b;
        lemma_lacks_concat(a, ">"@, '&');
        lemma_lacks_concat(a + ">"@, b, '&');
        lemma_replace_absent(r, quot, "\""@);
        lemma_replace_absent(r, apos, "'"@);
    }
    // `&quot;`
    assert(unescape_spec(a + quot + b) == a + "\""@ + b) by {
        let t = quot + b;
        assert(a + quot + b =~= a + t);
        assert(t.subrange(1, t.len() as int) =~= quot.subrange(1, 6) + b);
        lemma_lacks_concat(quot.subrange(1, 6), b, '&');
        lemma_keep(a, t, amp, "&"@, 1);
        lemma_keep(a, t, lt, "<"@, 1);
        lemma_keep(a, t, gt, ">"@, 1);
        lemma_replace_here(a, quot, b, "\""@);
        let r = a + "\""@ + b;
        lemma_lacks_concat(a, "\""@, '&');
        lemma_lacks_concat(a + "\""@, b, '&');
        lemma_replace_absent(r, apos, "'"@);
    }
    // `&apos;`
    assert(unescape_spec(a + apos + b) == a + "'"@ + b) by {
        let t = apos + b;
        assert(a + apos + b =~= a + t);
        assert(t.subrange(1, t.len() as int) =~= apos.subrange(1, 6) + b);
        lemma_lacks_concat(apos.subrange(1, 6), b, '&');
        lemma_keep(a, t, amp, "&"@, 2);
        lemma_keep(a, t, lt, "<"@, 1);
        lemma_keep(a, t, gt, ">"@, 1);
        lemma_keep(a, t, quot, "\""@, 1);
        lemma_replace_here(a, apos, b, "'"@);
    }
    // `&amp;`
    if b.len() == 0 || !(b[0] == 'l' || b[0] == 'g' || b[0] == 'q' || b[0] == 'a') {
        lemma_replace_here(a, amp, b, "&"@);
        let t = "&"@ + b;
        assert(a + "&"@ + b =~= a + t);
        assert(t.subrange(1, t.len() as int) =~= b);
        assert(b.len() > 0 ==> t[1] == b[0]);
        lemma_keep(a, t, lt, "<"@, 1);
        lemma_keep(a, t, gt, ">"@, 1);
        lemma_keep(a, t, quot, "\""@, 1);
        lemma_keep(a, t, apos, "'"@, 1);
    }
}

// ---------------------------------------------------------------------------
// Looking up a title.
// ---------------------------------------------------------------------------

/// Bytes that `c` takes in UTF-8.
pub open spec fn utf8_width(c: char) -> int {
    if (c as u32) < 0x80 {
        1
    } else if (c as u32) < 0x800 {
        2
    } else if (c as u32) < 0x10000 {
        3
    } else {
        4
    }
}

/// Bytes that `s` takes in UTF-8.
pub open spec fn utf8_len(s: Seq<char>) -> int
    decreases s.len(),
{
    if s.len() == 0 {
        0
    } else {
        utf8_len(s.drop_last()) + utf8_width(s.last())
    }
}

/// The ID a lookup uses: whitespace trimmed, ASCII letters upper-cased.
pub open spec fn normalized_id(game_id: Seq<char>) -> Seq<char> {
    upper_all(trim_ws(game_id))
}

proof fn lemma_utf8_len_grows(s: Seq<char>, i: int)
    requires
        0 <= i <= s.len(),
    ensures
        utf8_len(s.subrange(0, i)) <= utf8_len(s),
    decreases s.len() - i,
{
    if i < s.len() {
        lemma_utf8_len_grows(s, i + 1);
        assert(s.subrange(0, i + 1).drop_last() =~= s.subrange(0, i));
    } else {
        assert(s.subrange(0, i) =~= s);
    }
}

/// Whether `s` takes exactly six bytes in UTF-8.
fn six_bytes(s: &[char]) -> (r: bool)
    ensures
        r == (utf8_len(s@) == 6),
{
    let mut total: usize = 0;
    let mut i: usize = 0;
    while i < s.len()
        invariant
            i <= s@.len(),
            total == utf8_len(s@.subrange(0, i as int)),
            total <= 6,
        decreases s.len() - i,
    {
        let c = s[i];
        let w: usize = if (c as u32) < 0x80 {
            1
        } else if (c as u32) < 0x800 {
            2
        } else if (c as u32) < 0x10000 {
            3
        } else {
            4
        };
        assert(s@.subrange(0, i + 1).drop_last() =~= s@.subrange(0, i as int));
        if total + w > 6 {
            proof {
                lemma_utf8_len_grows(s@, i + 1);
            }
            return false;
        }
        total = total + w;
        i = i + 1;
    }
    assert(s@.subrange(0, s@.len() as int) =~= s@);
    total == 6
}

/// Trims and upper-cases a game ID, which must then take six bytes.
pub fn normalize_game_id(game_id: &str) -> (r: Result<Vec<char>, TitleError>)
    ensures
        match r {
            Ok(v) => v@ == normalized_id(game_id@) && utf8_len(v@) == 6,
            Err(e) => e == TitleError::BadIdLength && utf8_len(normalized_id(game_id@)) != 6,
        },
{
    let chars = chars_of(game_id);
    let trimmed = trim_chars(chars.as_slice());
    let id = upper_chars(trimmed.as_slice());
    if !six_bytes(id.as_slice()) {
        return Err(TitleError::BadIdLength);
    }
    Ok(id)
}

/// What the game entry `block` answers for `id`: nothing when its `<id>`
/// does not match, else its `<title>`, trimmed and with entities decoded.
pub open spec fn entry_answer(block: Seq<char>, id: Seq<char>) -> Option<Result<Seq<char>, TitleError>> {
    let hit = match extract_tag_spec(block, "id"@) {
        Some(found) => eq_ci(trim_ws(found), id),
        None => false,
    };
    if !hit {
        None
    } else {
        match extract_tag_spec(block, "title"@) {
            Some(t) => Some(Ok(unescape_spec(trim_ws(t)))),
            None => Some(Err(TitleError::NoTitle)),
        }
    }
}

/// The title the database `xml` gives for `id`, searching the game entries
/// from `from` on.
pub open spec fn search_spec(xml: Seq<char>, id: Seq<char>, from: int) -> Result<Seq<char>, TitleError>
    decreases xml.len() + 1 - from,
{
    match find_from(xml, "<game"@, from) {
        None => Err(TitleError::NotFound),
        Some(game_start) => match find_from(xml, ">"@, game_start) {
            None => Err(TitleError::UnclosedGameTag),
            Some(open_end) => match find_from(xml, "</game>"@, open_end + 1) {
                None => Err(TitleError::MissingGameEnd),
                Some(game_end) => match entry_answer(xml.subrange(open_end + 1, game_end), id) {
                    Some(answer) => answer,
                    None => {
                        proof {
                            reveal_strlit("</game>");
                            lemma_find_from(xml, "<game"@, from);
                            lemma_find_from(xml, ">"@, game_start);
                            lemma_find_from(xml, "</game>"@, open_end + 1);
                        }
                        search_spec(xml, id, game_end + 7)
                    },
                },
            },
        },
    }
}

/// The title the database `xml` gives for the game ID `game_id`.
pub open spec fn title_spec(xml: Seq<char>, game_id: Seq<char>) -> Result<Seq<char>, TitleError> {
    let id = normalized_id(game_id);
    if utf8_len(id) != 6 {
        Err(TitleError::BadIdLength)
    } else {
        search_spec(xml, id, 0)
    }
}

/// Looks up the title of the game `game_id` in the GameTDB XML text `xml`:
/// the first `<game>` entry whose `<id>` matches, ignoring ASCII case,
/// gives its `<title>`, trimmed and with entities decoded.
pub fn get_title_from_id(xml: &str, game_id: &str) -> (r: Result<String, TitleError>)
    ensures
        match title_spec(xml@, game_id@) {
            Ok(t) => r matches Ok(s) && s@ == t,
            Err(e) => r == Err::<String, TitleError>(e),
        },
{
    proof {
        reveal_strlit("<game");
        reveal_strlit(">");
        reveal_strlit("</game>");
        reveal_strlit("id");
        reveal_strlit("title");
    }
    let id = normalize_game_id(game_id)?;
    let x = chars_of(xml);
    let game_open = chars_of("<game");
    let gt = chars_of(">");
    let game_close = chars_of("</game>");
    let id_tag = chars_of("id");
    let title_tag = chars_of("title");
    let n = x.len();
    let mut search_from: usize = 0;
    while search_from <= n
        invariant
            n == x@.len(),
            x@ == xml@,
            id@ == normalized_id(game_id@),
            utf8_len(id@) == 6,
            game_open@ == "<game"@,
            gt@ == ">"@,
            game_close@ == "</game>"@,
            id_tag@ == "id"@,
            title_tag@ == "title"@,
            title_spec(xml@, game_id@) == search_spec(x@, id@, search_from as int),
        decreases n + 1 - search_from,
    {
        proof {
            reveal_strlit("<game");
            reveal_strlit(">");
            reveal_strlit("</game>");
        }
        let game_start = match find_chars(x.as_slice(), game_open.as_slice(), search_from) {
            Some(v) => v,
            None => {
                return Err(TitleError::NotFound);
            },
        };
        let open_end = match find_chars(x.as_slice(), gt.as_slice(), game_start) {
            Some(v) => v,
            None => {
                return Err(TitleError::UnclosedGameTag);
            },
        };
        proof {
            lemma_find_from(x@, game_open@, search_from as int);
            lemma_find_from(x@, gt@, game_start as int);
        }
        let content_start = open_end + 1;
        let game_end = match find_chars(x.as_slice(), game_close.as_slice(), content_start) {
            Some(v) => v,
            None => {
                return Err(TitleError::MissingGameEnd);
            },
        };
        proof {
            lemma_find_from(x@, game_close@, content_start as int);
        }
        assert(game_end + 7 <= n);
        let block = crate::text::slice_range(x.as_slice(), content_start, game_end);
        let hit = match extract_tag_text(block.as_slice(), id_tag.as_slice()) {
            Some(found) => {
                let t = trim_chars(found.as_slice());
                eq_ignore_case(t.as_slice(), id.as_slice())
            },
            None => false,
        };
        assert(block@ == x@.subrange(content_start as int, game_end as int));
        if hit {
            return match extract_tag_text(block.as_slice(), title_tag.as_slice()) {
                Some(t) => {
                    let trimmed = trim_chars(t.as_slice());
                    let decoded = xml_unescape(trimmed.as_slice());
                    Ok(string_from_chars(decoded.as_slice()))
                },
                None => Err(TitleError::NoTitle),
            };
        }
        search_from = game_end + 7;
    }
    proof {
        assert(find_from(x@, "<game"@, search_from as int) is None);
    }
    Err(TitleError::NotFound)
}

} // verus!
