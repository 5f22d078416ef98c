//! Character-level text model.
//!
//! The adb tool talks in lines of text, so the library needs precise versions
//! of the `str` operations it relies on: `trim`, `trim_matches`,
//! `split_whitespace`, `lines`, `rsplit_once`, substring search and decimal
//! formatting. Each is specified here over `Seq<char>` and implemented by a
//! verified function that works on a character vector.

use vstd::prelude::*;

verus! {

/// `String::push` appends one character.
pub assume_specification[ String::push ](s: &mut String, ch: char)
    ensures
        final(s)@ == old(s)@.push(ch),
;

/// `String::push_str` appends a string slice.
pub assume_specification[ String::push_str ](s: &mut String, t: &str)
    ensures
        final(s)@ == old(s)@ + t@,
;

// ---------------------------------------------------------------------------
// Character classes
// ---------------------------------------------------------------------------

/// `char::is_whitespace`: the Unicode `White_Space` property.
pub open spec fn is_space(c: char) -> bool {
    ||| ('\u{9}' <= c && c <= '\u{d}')
    ||| c == ' '
    ||| c == '\u{85}'
    ||| c == '\u{a0}'
    ||| c == '\u{1680}'
    ||| ('\u{2000}' <= c && c <= '\u{200a}')
    ||| c == '\u{2028}'
    ||| c == '\u{2029}'
    ||| c == '\u{202f}'
    ||| c == '\u{205f}'
    ||| c == '\u{3000}'
}

/// The classes of characters that the scanners below skip over.
#[derive(Clone, Copy, PartialEq, Eq, Structural, Debug)]
pub enum CharClass {
    Space,
    NonSpace,
    Bracket,
    NotNewline,
    NotColon,
}

pub open spec fn in_class(k: CharClass, c: char) -> bool {
    match k {
        CharClass::Space => is_space(c),
        CharClass::NonSpace => !is_space(c),
        CharClass::Bracket => c == '[' || c == ']',
        CharClass::NotNewline => c != '\n',
        CharClass::NotColon => c != ':',
    }
}

pub fn is_space_char(c: char) -> (r: bool)
    ensures
        r == is_space(c),
{
    ('\u{9}' <= c && c <= '\u{d}') || c == ' ' || c == '\u{85}' || c == '\u{a0}' || c
        == '\u{1680}' || ('\u{2000}' <= c && c <= '\u{200a}') || c == '\u{2028}' || c
        == '\u{2029}' || c == '\u{202f}' || c == '\u{205f}' || c == '\u{3000}'
}

pub fn class_has(k: CharClass, c: char) -> (r: bool)
    ensures
        r == in_class(k, c),
{
    match k {
        CharClass::Space => is_space_char(c),
        CharClass::NonSpace => !is_space_char(c),
        CharClass::Bracket => c == '[' || c == ']',
        CharClass::NotNewline => c != '\n',
        CharClass::NotColon => c != ':',
    }
}

// ---------------------------------------------------------------------------
// Runs of a class at either end
// ---------------------------------------------------------------------------

/// Length of the longest prefix of `s` made of characters of class `k`.
pub open spec fn leading(s: Seq<char>, k: CharClass) -> nat
    decreases s.len(),
{
    if s.len() > 0 && in_class(k, s[0]) {
        1 + leading(s.drop_first(), k)
    } else {
        0
    }
}

/// Length of the longest suffix of `s` made of characters of class `k`.
pub open spec fn trailing(s: Seq<char>, k: CharClass) -> nat
    decreases s.len(),
{
    if s.len() > 0 && in_class(k, s.last()) {
        1 + trailing(s.drop_last(), k)
    } else {
        0
    }
}

/// `trim_matches` for a character class: both runs removed.
pub open spec fn strip(s: Seq<char>, k: CharClass) -> Seq<char> {
    let t = s.skip(leading(s, k) as int);
    t.take(t.len() - trailing(t, k))
}

/// `str::trim`.
pub open spec fn trim(s: Seq<char>) -> Seq<char> {
    strip(s, CharClass::Space)
}

/// `str::trim_start`.
pub open spec fn trim_start(s: Seq<char>) -> Seq<char> {
    s.skip(leading(s, CharClass::Space) as int)
}

pub proof fn lemma_leading(s: Seq<char>, k: CharClass)
    ensures
        leading(s, k) <= s.len(),
        forall|j: int| 0 <= j < leading(s, k) ==> in_class(k, #[trigger] s[j]),
        leading(s, k) < s.len() ==> !in_class(k, s[leading(s, k) as int]),
    decreases s.len(),
{
    if s.len() > 0 && in_class(k, s[0]) {
        lemma_leading(s.drop_first(), k);
        assert forall|j: int| 0 <= j < leading(s, k) implies in_class(k, #[trigger] s[j]) by {
            if j > 0 {
                assert(s[j] == s.drop_first()[j - 1]);
            }
        }
    }
}

pub proof fn lemma_leading_exact(s: Seq<char>, k: CharClass, n: nat)
    requires
        n <= s.len(),
        forall|j: int| 0 <= j < n ==> in_class(k, #[trigger] s[j]),
        n == s.len() || !in_class(k, s[n as int]),
    ensures
        leading(s, k) == n,
    decreases n,
{
    if n > 0 {
        assert(in_class(k, s[0]));
        assert forall|j: int| 0 <= j < n - 1 implies in_class(k, #[trigger] s.drop_first()[j]) by {
            assert(s.drop_first()[j] == s[j + 1]);
        }
        if n - 1 < s.drop_first().len() {
            assert(s.drop_first()[n - 1] == s[n as int]);
        }
        lemma_leading_exact(s.drop_first(), k, (n - 1) as nat);
    }
}

pub proof fn lemma_trailing(s: Seq<char>, k: CharClass)
    ensures
        trailing(s, k) <= s.len(),
        forall|j: int| s.len() - trailing(s, k) <= j < s.len() ==> in_class(k, #[trigger] s[j]),
        trailing(s, k) < s.len() ==> !in_class(k, s[s.len() - trailing(s, k) - 1]),
    decreases s.len(),
{
    if s.len() > 0 && in_class(k, s.last()) {
        lemma_trailing(s.drop_last(), k);
        assert forall|j: int| s.len() - trailing(s, k) <= j < s.len() implies in_class(
            k,
            #[trigger] s[j],
        ) by {
            if j < s.len() - 1 {
                assert(s[j] == s.drop_last()[j]);
            }
        }
        if trailing(s, k) < s.len() {
            assert(s[s.len() - trailing(s, k) - 1] == s.drop_last()[s.drop_last().len()
                - trailing(s.drop_last(), k) - 1]);
        }
    }
}

pub proof fn lemma_trailing_exact(s: Seq<char>, k: CharClass, n: nat)
    requires
        n <= s.len(),
        forall|j: int| s.len() - n <= j < s.len() ==> in_class(k, #[trigger] s[j]),
        n == s.len() || !in_class(k, s[s.len() - n - 1]),
    ensures
        trailing(s, k) == n,
    decreases n,
{
    if n > 0 {
        assert(in_class(k, s[s.len() - 1]));
        let d = s.drop_last();
        assert forall|j: int| d.len() - (n - 1) <= j < d.len() implies in_class(
            k,
            #[trigger] d[j],
        ) by {
            assert(d[j] == s[j]);
        }
        if n - 1 < d.len() {
            assert(d[d.len() - (n - 1) - 1] == s[s.len() - n - 1]);
        }
        lemma_trailing_exact(d, k, (n - 1) as nat);
    }
}

// ---------------------------------------------------------------------------
// Words and lines
// ---------------------------------------------------------------------------

/// `str::split_whitespace`: the maximal runs of non-whitespace characters.
pub open spec fn words(s: Seq<char>) -> Seq<Seq<char>>
    decreases s.len(),
{
    let t = trim_start(s);
    if t.len() == 0 {
        seq![]
    } else {
        let n = leading(t, CharClass::NonSpace);
        proof {
            lemma_leading(s, CharClass::Space);
            lemma_leading(t, CharClass::NonSpace);
            assert(t[0] == s[leading(s, CharClass::Space) as int]);
        }
        seq![t.take(n as int)] + words(t.skip(n as int))
    }
}

/// Removes one `'\r'` at the end, as `str::lines` does before a `'\n'`.
pub open spec fn strip_cr(line: Seq<char>) -> Seq<char> {
    if line.len() > 0 && line.last() == '\r' {
        line.drop_last()
    } else {
        line
    }
}

/// `str::lines`: split at `'\n'`, dropping a `'\r'` just before it; a final
/// line ending adds no empty line, and an empty text has no lines.
pub open spec fn lines(s: Seq<char>) -> Seq<Seq<char>>
    decreases s.len(),
{
    if s.len() == 0 {
        seq![]
    } else {
        let n = leading(s, CharClass::NotNewline);
        proof {
            lemma_leading(s, CharClass::NotNewline);
        }
        if n == s.len() {
            seq![s]
        } else {
            seq![strip_cr(s.take(n as int))] + lines(s.skip(n + 1 as int))
        }
    }
}

/// `pat` occurs in `s` starting at `k`.
pub open spec fn occurs_at(s: Seq<char>, pat: Seq<char>, k: int) -> bool {
    0 <= k && k + pat.len() <= s.len() && s.subrange(k, k + pat.len()) == pat
}

/// `str::contains` for a string pattern.
pub open spec fn contains_text(s: Seq<char>, pat: Seq<char>) -> bool {
    exists|k: int| #[trigger] occurs_at(s, pat, k)
}

/// `pieces` joined with `sep` between neighbours (`[T]::join`).
pub open spec fn join(pieces: Seq<Seq<char>>, sep: Seq<char>) -> Seq<char>
    decreases pieces.len(),
{
    if pieces.len() == 0 {
        seq![]
    } else if pieces.len() == 1 {
        pieces[0]
    } else {
        join(pieces.drop_last(), sep) + sep + pieces.last()
    }
}

/// Index of the last `':'`, as `rsplit_once(':')` finds it.
pub open spec fn last_colon(s: Seq<char>) -> Option<int> {
    let n = trailing(s, CharClass::NotColon);
    if n < s.len() {
        Some(s.len() - n - 1)
    } else {
        None
    }
}

/// The decimal digit character for `d < 10`.
pub open spec fn digit(d: nat) -> char {
    (d + 48) as char
}

/// The decimal representation of `n`, without leading zeros.
pub open spec fn decimal(n: nat) -> Seq<char>
    decreases n,
{
    if n < 10 {
        seq![digit(n)]
    } else {
        decimal(n / 10).push(digit(n % 10))
    }
}

/// `lines` of a text that ends a line, followed by more text.
pub proof fn lemma_lines_append(a: Seq<char>, b: Seq<char>)
    requires
        a.len() == 0 || a.last() == '\n',
    ensures
        lines(a + b) == lines(a) + lines(b),
    decreases a.len(),
{
    if a.len() == 0 {
        assert(a + b =~= b);
        assert(lines(a) + lines(b) =~= lines(b));
    } else {
        let n = leading(a, CharClass::NotNewline);
        lemma_leading(a, CharClass::NotNewline);
        if n == a.len() {
            assert(in_class(CharClass::NotNewline, a[a.len() - 1]));
        }
        assert(n < a.len());
        let ab = a + b;
        assert forall|j: int| 0 <= j < n implies in_class(CharClass::NotNewline, #[trigger] ab[j]) by {
            assert(ab[j] == a[j]);
            assert(in_class(CharClass::NotNewline, a[j]));
        }
        assert(ab[n as int] == a[n as int]);
        lemma_leading_exact(ab, CharClass::NotNewline, n);
        assert(ab.take(n as int) =~= a.take(n as int));
        let rest = a.skip(n + 1 as int);
        assert(ab.skip(n + 1 as int) =~= rest + b);
        if rest.len() > 0 {
            assert(rest.last() == a.last());
        }
        lemma_lines_append(rest, b);
        assert(lines(ab) == seq![strip_cr(a.take(n as int))] + lines(rest + b));
        assert(lines(a) == seq![strip_cr(a.take(n as int))] + lines(rest));
        assert(lines(ab) =~= lines(a) + lines(b));
    }
}

/// A line of text without a line break inside, ended by one, is one line.
pub proof fn lemma_single_line(body: Seq<char>)
    requires
        forall|i: int| 0 <= i < body.len() ==> body[i] != '\n',
    ensures
        lines(body + seq!['\n']).len() == 1,
        lines(body + seq!['\n']) == seq![strip_cr(body)],
{
    let l = body + seq!['\n'];
    assert forall|j: int| 0 <= j < body.len() implies in_class(CharClass::NotNewline, #[trigger] l[j]) by {
        assert(l[j] == body[j]);
    }
    lemma_leading_exact(l, CharClass::NotNewline, body.len());
    assert(l.skip(body.len() + 1 as int) =~= seq![]);
    assert(l.take(body.len() as int) =~= body);
    assert(lines(l) == seq![strip_cr(l.take(body.len() as int))] + lines(seq![]));
    assert(lines(l) =~= seq![strip_cr(body)]);
}

/// `lines` of a text followed by one more line break: an empty line is
/// added when the text is empty or already ends a line; otherwise the last
/// line is closed (losing a final `'\r'`).
pub proof fn lemma_lines_then_newline(a: Seq<char>)
    ensures
        a.len() > 0 ==> lines(a).len() > 0,
        lines(a + seq!['\n']) == if a.len() == 0 || a.last() == '\n' {
            lines(a).push(seq![])
        } else {
            lines(a).drop_last().push(strip_cr(lines(a).last()))
        },
    decreases a.len(),
{
    let an = a + seq!['\n'];
    if a.len() == 0 {
        lemma_leading_exact(an, CharClass::NotNewline, 0);
        assert(an.take(0) =~= seq![]);
        assert(an.skip(1) =~= seq![]);
        assert(lines(an) == seq![strip_cr(an.take(0))] + lines(an.skip(1)));
        assert(lines(an) =~= seq![seq![]]);
        assert(lines(a).push(seq![]) =~= seq![seq![]]);
    } else {
        let n = leading(a, CharClass::NotNewline);
        lemma_leading(a, CharClass::NotNewline);
        assert forall|j: int| 0 <= j < n implies in_class(CharClass::NotNewline, #[trigger] an[j]) by {
            assert(an[j] == a[j]);
            assert(in_class(CharClass::NotNewline, a[j]));
        }
        if n == a.len() {
            assert(an[n as int] == '\n');
            lemma_leading_exact(an, CharClass::NotNewline, n);
            assert(an.take(n as int) =~= a);
            assert(an.skip(n + 1 as int) =~= seq![]);
            assert(lines(an) == seq![strip_cr(an.take(n as int))] + lines(an.skip(n + 1 as int)));
            assert(lines(a) == seq![a]);
            assert(in_class(CharClass::NotNewline, a[a.len() - 1]));
            assert(lines(an) =~= lines(a).drop_last().push(strip_cr(lines(a).last())));
        } else {
            assert(an[n as int] == a[n as int]);
            lemma_leading_exact(an, CharClass::NotNewline, n);
            let h = strip_cr(a.take(n as int));
            let rest = a.skip(n + 1 as int);
            assert(an.take(n as int) =~= a.take(n as int));
            assert(an.skip(n + 1 as int) =~= rest + seq!['\n']);
            lemma_lines_then_newline(rest);
            if rest.len() > 0 {
                assert(rest.last() == a.last());
            } else {
                assert(a.last() == a[n as int]);
            }
            assert(lines(a) == seq![h] + lines(rest));
            assert(lines(an) == seq![h] + lines(rest + seq!['\n']));
            if a.len() == 0 || a.last() == '\n' {
                assert(lines(an) =~= lines(a).push(seq![]));
            } else {
                assert(lines(an) =~= lines(a).drop_last().push(strip_cr(lines(a).last())));
            }
        }
    }
}

/// No line holds a line break.
pub proof fn lemma_lines_have_no_newline(s: Seq<char>)
    ensures
        forall|i: int, j: int|
            0 <= i < lines(s).len() && 0 <= j < lines(s)[i].len() ==> #[trigger] lines(s)[i][j]
                != '\n',
    decreases s.len(),
{
    if s.len() > 0 {
        let n = leading(s, CharClass::NotNewline);
        lemma_leading(s, CharClass::NotNewline);
        if n < s.len() {
            let rest = s.skip(n + 1 as int);
            lemma_lines_have_no_newline(rest);
            let h = strip_cr(s.take(n as int));
            assert(lines(s) == seq![h] + lines(rest));
            assert forall|i: int, j: int|
                0 <= i < lines(s).len() && 0 <= j < lines(s)[i].len() implies #[trigger] lines(
                s,
            )[i][j] != '\n' by {
                if i == 0 {
                    assert(h[j] == s[j]);
                    assert(in_class(CharClass::NotNewline, s[j]));
                } else {
                    assert(lines(s)[i] == lines(rest)[i - 1]);
                }
            }
        } else {
            assert(lines(s) == seq![s]);
            assert forall|i: int, j: int|
                0 <= i < lines(s).len() && 0 <= j < lines(s)[i].len() implies #[trigger] lines(
                s,
            )[i][j] != '\n' by {
                assert(in_class(CharClass::NotNewline, s[j]));
            }
        }
    }
}

/// A non-empty line without line breaks, ending in a character other than
/// `'\r'`.
pub open spec fn is_plain_line(d: Seq<char>) -> bool {
    &&& d.len() > 0
    &&& d.last() != '\r'
    &&& forall|j: int| 0 <= j < d.len() ==> d[j] != '\n'
}

/// Plain lines joined with line breaks read back as the same lines.
pub proof fn lemma_lines_of_joined_lines(ds: Seq<Seq<char>>)
    requires
        forall|i: int| 0 <= i < ds.len() ==> is_plain_line(#[trigger] ds[i]),
    ensures
        lines(join(ds, seq!['\n'])) == ds,
    decreases ds.len(),
{
    if ds.len() == 0 {
        assert(lines(seq![]) =~= ds);
    } else if ds.len() == 1 {
        let d = ds[0];
        assert(is_plain_line(d));
        assert forall|j: int| 0 <= j < d.len() implies in_class(CharClass::NotNewline, #[trigger] d[j]) by {}
        lemma_leading_exact(d, CharClass::NotNewline, d.len());
        assert(lines(d) == seq![d]);
        assert(lines(join(ds, seq!['\n'])) =~= ds);
    } else {
        let front = ds.drop_last();
        let last = ds.last();
        assert(is_plain_line(ds[ds.len() - 1]));
        assert forall|i: int| 0 <= i < front.len() implies is_plain_line(#[trigger] front[i]) by {
            assert(front[i] == ds[i]);
        }
        lemma_lines_of_joined_lines(front);
        let jf = join(front, seq!['\n']);
        lemma_join_last(front);
        assert(is_plain_line(front[front.len() - 1]));
        lemma_lines_then_newline(jf);
        assert(lines(jf + seq!['\n']) =~= front.drop_last().push(strip_cr(front.last())));
        assert(strip_cr(front.last()) == front.last());
        assert(lines(jf + seq!['\n']) =~= front);
        assert forall|j: int| 0 <= j < last.len() implies in_class(CharClass::NotNewline, #[trigger] last[j]) by {}
        lemma_leading_exact(last, CharClass::NotNewline, last.len());
        assert(lines(last) == seq![last]);
        lemma_lines_append(jf + seq!['\n'], last);
        assert(join(ds, seq!['\n']) == jf + seq!['\n'] + last);
        assert(lines(join(ds, seq!['\n'])) =~= front.push(last));
        assert(front.push(last) =~= ds);
    }
}

/// Joining non-empty pieces ends with the last piece's last character.
proof fn lemma_join_last(ds: Seq<Seq<char>>)
    requires
        ds.len() > 0,
        ds.last().len() > 0,
    ensures
        join(ds, seq!['\n']).len() > 0,
        join(ds, seq!['\n']).last() == ds.last().last(),
{
    if ds.len() > 1 {
        let j = join(ds, seq!['\n']);
        assert(j == join(ds.drop_last(), seq!['\n']) + seq!['\n'] + ds.last());
    }
}

/// The trimmed text, when not empty, starts and ends with non-whitespace and
/// takes its characters from the text.
pub proof fn lemma_trim_shape(s: Seq<char>)
    ensures
        trim(s).len() > 0 ==> !is_space(trim(s)[0]) && !is_space(trim(s).last()),
        leading(s, CharClass::Space) + trim(s).len() <= s.len(),
        forall|j: int|
            0 <= j < trim(s).len() ==> #[trigger] trim(s)[j] == s[leading(s, CharClass::Space)
                + j],
{
    let k = leading(s, CharClass::Space);
    lemma_leading(s, CharClass::Space);
    let t = s.skip(k as int);
    lemma_trailing(t, CharClass::Space);
    if trim(s).len() > 0 {
        assert(trim(s)[0] == s[k as int]);
        assert(trim(s).last() == t[t.len() - trailing(t, CharClass::Space) - 1]);
    }
}

/// Text with non-whitespace at both ends is its own trim.
pub proof fn lemma_trim_of_trimmed(d: Seq<char>)
    requires
        d.len() > 0,
        !is_space(d[0]),
        !is_space(d.last()),
    ensures
        trim(d) == d,
{
    assert(leading(d, CharClass::Space) == 0);
    assert(d.skip(0) =~= d);
    assert(trailing(d, CharClass::Space) == 0);
    assert(d.take(d.len() as int) =~= d);
}

/// A whitespace character at the end does not change the trim.
pub proof fn lemma_trim_drop_trailing_space(l: Seq<char>)
    requires
        l.len() > 0,
        is_space(l.last()),
    ensures
        trim(l.drop_last()) == trim(l),
{
    let d = l.drop_last();
    let k = leading(l, CharClass::Space);
    lemma_leading(l, CharClass::Space);
    if k == l.len() {
        assert forall|j: int| 0 <= j < d.len() implies in_class(CharClass::Space, #[trigger] d[j]) by {
            assert(d[j] == l[j]);
            assert(in_class(CharClass::Space, l[j]));
        }
        lemma_leading_exact(d, CharClass::Space, d.len());
        assert(d.skip(d.len() as int) =~= seq![]);
        assert(l.skip(k as int) =~= seq![]);
        assert(trim(d) =~= trim(l));
    } else {
        assert(k < l.len() - 1);
        assert forall|j: int| 0 <= j < k implies in_class(CharClass::Space, #[trigger] d[j]) by {
            assert(d[j] == l[j]);
            assert(in_class(CharClass::Space, l[j]));
        }
        assert(d[k as int] == l[k as int]);
        lemma_leading_exact(d, CharClass::Space, k);
        let t = l.skip(k as int);
        let td = d.skip(k as int);
        assert(td =~= t.drop_last());
        assert(t.last() == l.last());
        assert(trailing(t, CharClass::Space) == 1 + trailing(td, CharClass::Space));
        lemma_trailing(td, CharClass::Space);
        assert(td.take(td.len() - trailing(td, CharClass::Space)) =~= t.take(
            t.len() - trailing(t, CharClass::Space),
        ));
    }
}

/// Dropping a final `'\r'` does not change the trim.
pub proof fn lemma_trim_strip_cr(l: Seq<char>)
    ensures
        trim(strip_cr(l)) == trim(l),
{
    if l.len() > 0 && l.last() == '\r' {
        lemma_trim_drop_trailing_space(l);
    }
}

// ---------------------------------------------------------------------------
// Executable scanners
// ---------------------------------------------------------------------------

/// The characters of `s`, in order.
pub fn str_chars(s: &str) -> (v: Vec<char>)
    ensures
        v@ == s@,
{
    let mut v: Vec<char> = Vec::new();
    for c in it: s.chars()
        invariant
            v@ == it.seq().take(it.index() as int),
            it.seq() == s@,
    {
        v.push(c);
    }
    v
}

/// A copy of `v[from..to]`.
pub fn chars_slice(v: &Vec<char>, from: usize, to: usize) -> (r: Vec<char>)
    requires
        from <= to <= v.len(),
    ensures
        r@ == v@.subrange(from as int, to as int),
{
    let mut r: Vec<char> = Vec::new();
    let mut i = from;
    while i < to
        invariant
            from <= i <= to <= v.len(),
            r@ == v@.subrange(from as int, i as int),
        decreases to - i,
    {
        r.push(v[i]);
        i += 1;
    }
    r
}

/// `v[from..to]` as a `String`.
pub fn chars_to_string(v: &Vec<char>, from: usize, to: usize) -> (r: String)
    requires
        from <= to <= v.len(),
    ensures
        r@ == v@.subrange(from as int, to as int),
{
    let mut r = String::new();
    let mut i = from;
    while i < to
        invariant
            from <= i <= to <= v.len(),
            r@ == v@.subrange(from as int, i as int),
        decreases to - i,
    {
        r.push(v[i]);
        i += 1;
    }
    r
}

/// Number of characters of class `k` at the start of `v[from..to]`.
pub fn count_leading(v: &Vec<char>, from: usize, to: usize, k: CharClass) -> (n: usize)
    requires
        from <= to <= v.len(),
    ensures
        n == leading(v@.subrange(from as int, to as int), k),
        from + n <= to,
{
    let mut i = from;
    while i < to && class_has(k, v[i])
        invariant
            from <= i <= to <= v.len(),
            forall|j: int| from <= j < i ==> in_class(k, #[trigger] v@[j]),
        decreases to - i,
    {
        i += 1;
    }
    let ghost s = v@.subrange(from as int, to as int);
    proof {
        assert forall|j: int| 0 <= j < i - from implies in_class(k, #[trigger] s[j]) by {
            assert(s[j] == v@[from + j]);
        }
        if i < to {
            assert(s[i - from] == v@[i as int]);
        }
        lemma_leading_exact(s, k, (i - from) as nat);
    }
    i - from
}

/// Number of characters of class `k` at the end of `v[from..to]`.
pub fn count_trailing(v: &Vec<char>, from: usize, to: usize, k: CharClass) -> (n: usize)
    requires
        from <= to <= v.len(),
    ensures
        n == trailing(v@.subrange(from as int, to as int), k),
        from + n <= to,
{
    let mut i = to;
    while i > from && class_has(k, v[i - 1])
        invariant
            from <= i <= to <= v.len(),
            forall|j: int| i <= j < to ==> in_class(k, #[trigger] v@[j]),
        decreases i - from,
    {
        i -= 1;
    }
    let ghost s = v@.subrange(from as int, to as int);
    proof {
        assert forall|j: int| s.len() - (to - i) <= j < s.len() implies in_class(
            k,
            #[trigger] s[j],
        ) by {
            assert(s[j] == v@[from + j]);
        }
        if i > from {
            assert(s[s.len() - (to - i) - 1] == v@[i - 1]);
        }
        lemma_trailing_exact(s, k, (to - i) as nat);
    }
    to - i
}

/// Bounds of `strip(v[from..to], k)` inside `v`.
pub fn strip_bounds(v: &Vec<char>, from: usize, to: usize, k: CharClass) -> (r: (usize, usize))
    requires
        from <= to <= v.len(),
    ensures
        from <= r.0 <= r.1 <= to,
        v@.subrange(r.0 as int, r.1 as int) == strip(v@.subrange(from as int, to as int), k),
{
    let lead = count_leading(v, from, to, k);
    let a = from + lead;
    let trail = count_trailing(v, a, to, k);
    let b = to - trail;
    proof {
        let s = v@.subrange(from as int, to as int);
        let t = s.skip(lead as int);
        assert(t =~= v@.subrange(a as int, to as int));
        assert(t.take(t.len() - trail) =~= v@.subrange(a as int, b as int));
    }
    (a, b)
}

/// `v[from..to]` starts with `p`.
pub fn has_prefix_at(v: &Vec<char>, from: usize, to: usize, p: &Vec<char>) -> (r: bool)
    requires
        from <= to <= v.len(),
    ensures
        r == p@.is_prefix_of(v@.subrange(from as int, to as int)),
{
    if p.len() > to - from {
        return false;
    }
    let mut i: usize = 0;
    while i < p.len()
        invariant
            from <= to <= v.len(),
            p.len() <= to - from,
            i <= p.len(),
            forall|j: int| 0 <= j < i ==> p@[j] == v@[from + j],
        decreases p.len() - i,
    {
        if p[i] != v[from + i] {
            proof {
                assert(v@.subrange(from as int, to as int)[i as int] == v@[from + i]);
            }
            return false;
        }
        i += 1;
    }
    proof {
        assert(p@ =~= v@.subrange(from as int, to as int).subrange(0, p@.len() as int));
    }
    true
}

/// `p` occurs in `v`.
pub fn has_substring(v: &Vec<char>, p: &Vec<char>) -> (r: bool)
    ensures
        r == contains_text(v@, p@),
{
    if p.len() > v.len() {
        proof {
            assert forall|k: int| !#[trigger] occurs_at(v@, p@, k) by {}
        }
        return false;
    }
    let last = v.len() - p.len();
    let mut k: usize = 0;
    while k <= last
        invariant
            p.len() <= v.len(),
            last == v.len() - p.len(),
            forall|j: int| 0 <= j < k ==> !#[trigger] occurs_at(v@, p@, j),
        decreases last + 1 - k,
    {
        if has_prefix_at(v, k, v.len(), p) {
            proof {
                assert(v@.subrange(k as int, k + p.len()) =~= v@.subrange(
                    k as int,
                    v.len() as int,
                ).subrange(0, p.len() as int));
                assert(occurs_at(v@, p@, k as int));
            }
            return true;
        }
        proof {
            if occurs_at(v@, p@, k as int) {
                assert(v@.subrange(k as int, k + p.len()) =~= v@.subrange(
                    k as int,
                    v.len() as int,
                ).subrange(0, p.len() as int));
            }
        }
        k += 1;
    }
    proof {
        assert forall|j: int| !#[trigger] occurs_at(v@, p@, j) by {
            if 0 <= j < k {
            }
        }
    }
    false
}

/// Character sequences compared for equality.
pub fn chars_equal(a: &Vec<char>, b: &Vec<char>) -> (r: bool)
    ensures
        r == (a@ == b@),
{
    if a.len() != b.len() {
        return false;
    }
    let mut i: usize = 0;
    while i < a.len()
        invariant
            a.len() == b.len(),
            i <= a.len(),
            forall|j: int| 0 <= j < i ==> a@[j] == b@[j],
        decreases a.len() - i,
    {
        if a[i] != b[i] {
            return false;
        }
        i += 1;
    }
    proof {
        assert(a@ =~= b@);
    }
    true
}

/// String slices compared for equality.
pub fn same_text(a: &str, b: &str) -> (r: bool)
    ensures
        r == (a@ == b@),
{
    let va = str_chars(a);
    let vb = str_chars(b);
    chars_equal(&va, &vb)
}

/// `s.trim().is_empty()`.
pub fn is_blank(s: &str) -> (r: bool)
    ensures
        r == (trim(s@).len() == 0),
{
    let v = str_chars(s);
    let (a, b) = strip_bounds(&v, 0, v.len(), CharClass::Space);
    proof {
        assert(v@.subrange(0, v@.len() as int) =~= v@);
    }
    a == b
}

/// Appends the decimal representation of `n`.
pub fn push_decimal(s: &mut String, n: u32)
    ensures
        final(s)@ == old(s)@ + decimal(n as nat),
    decreases n,
{
    if n >= 10 {
        push_decimal(s, n / 10);
    }
    let d = (n % 10) as u8;
    let c = (48u8 + d) as char;
    proof {
        assert(c == digit((n % 10) as nat));
    }
    s.push(c);
    proof {
        if n >= 10 {
            assert(decimal(n as nat) == decimal((n / 10) as nat).push(digit((n % 10) as nat)));
        }
    }
}

/// The whitespace-separated words of `v[from..to]`.
pub fn split_words(v: &Vec<char>, from: usize, to: usize) -> (r: Vec<Vec<char>>)
    requires
        from <= to <= v.len(),
    ensures
        r.deep_view() == words(v@.subrange(from as int, to as int)),
{
    let ghost whole = v@.subrange(from as int, to as int);
    let mut r: Vec<Vec<char>> = Vec::new();
    let mut pos = from;
    loop
        invariant
            from <= pos <= to <= v.len(),
            whole == v@.subrange(from as int, to as int),
            words(whole) == r.deep_view() + words(v@.subrange(pos as int, to as int)),
        decreases to - pos,
    {
        let ghost rest = v@.subrange(pos as int, to as int);
        let gap = count_leading(v, pos, to, CharClass::Space);
        let start = pos + gap;
        proof {
            assert(trim_start(rest) =~= v@.subrange(start as int, to as int));
        }
        if start == to {
            proof {
                assert(words(rest) =~= seq![]);
                assert(r.deep_view() + seq![] =~= r.deep_view());
            }
            return r;
        }
        let len = count_leading(v, start, to, CharClass::NonSpace);
        let end = start + len;
        let word = chars_slice(v, start, end);
        proof {
            let t = v@.subrange(start as int, to as int);
            assert(t.take(len as int) =~= v@.subrange(start as int, end as int));
            assert(t.skip(len as int) =~= v@.subrange(end as int, to as int));
            assert(words(rest) == seq![t.take(len as int)] + words(t.skip(len as int)));
            lemma_leading(t, CharClass::NonSpace);
            lemma_leading(rest, CharClass::Space);
            assert(t[0] == rest[gap as int]);
        }
        let ghost before = r.deep_view();
        proof {
            assert(word.deep_view() =~= word@);
        }
        r.push(word);
        proof {
            assert(r.deep_view() =~= before.push(word@));
            assert(words(whole) =~= r.deep_view() + words(v@.subrange(end as int, to as int)));
        }
        pos = end;
    }
}

/// The lines of `v`, as `str::lines` yields them.
pub fn split_lines(v: &Vec<char>) -> (r: Vec<Vec<char>>)
    ensures
        r.deep_view() == lines(v@),
{
    let mut r: Vec<Vec<char>> = Vec::new();
    let mut pos: usize = 0;
    proof {
        assert(v@.subrange(0, v@.len() as int) =~= v@);
    }
    while pos < v.len()
        invariant
            pos <= v.len(),
            lines(v@) == r.deep_view() + lines(v@.subrange(pos as int, v@.len() as int)),
        decreases v.len() - pos,
    {
        let ghost rest = v@.subrange(pos as int, v@.len() as int);
        let n = count_leading(v, pos, v.len(), CharClass::NotNewline);
        let end = pos + n;
        let ghost before = r.deep_view();
        proof {
            lemma_leading(rest, CharClass::NotNewline);
        }
        if end == v.len() {
            let line = chars_slice(v, pos, end);
            proof {
                assert(line.deep_view() =~= line@);
            }
            r.push(line);
            proof {
                assert(lines(rest) == seq![rest]);
                assert(r.deep_view() =~= before.push(rest));
                assert(lines(v@.subrange(end as int, v@.len() as int)) =~= seq![]);
            }
            pos = end;
        } else {
            let mut line_end = end;
            if line_end > pos && v[line_end - 1] == '\r' {
                line_end = line_end - 1;
            }
            let line = chars_slice(v, pos, line_end);
            proof {
                assert(line.deep_view() =~= line@);
            }
            r.push(line);
            proof {
                let t = rest.take(n as int);
                assert(strip_cr(t) =~= v@.subrange(pos as int, line_end as int));
                assert(rest.skip(n + 1 as int) =~= v@.subrange(end + 1, v@.len() as int));
                assert(rest[n as int] == '\n');
                assert(lines(rest) == seq![strip_cr(t)] + lines(rest.skip(n + 1 as int)));
                assert(r.deep_view() =~= before.push(strip_cr(t)));
            }
            pos = end + 1;
        }
        proof {
            assert(lines(v@) =~= r.deep_view() + lines(v@.subrange(pos as int, v@.len() as int)));
        }
    }
    proof {
        assert(lines(v@.subrange(pos as int, v@.len() as int)) =~= seq![]);
        assert(r.deep_view() + seq![] =~= r.deep_view());
    }
    r
}

/// The strings of `parts` with `sep` between neighbours.
pub fn join_strings(parts: &Vec<String>, sep: &str) -> (r: String)
    ensures
        r@ == join(parts.deep_view(), sep@),
{
    let ghost all = parts.deep_view();
    let mut r = String::new();
    let mut i: usize = 0;
    while i < parts.len()
        invariant
            i <= parts.len(),
            all == parts.deep_view(),
            r@ == join(all.take(i as int), sep@),
        decreases parts.len() - i,
    {
        proof {
            assert(all.take(i + 1).drop_last() =~= all.take(i as int));
            assert(all.take(i + 1).last() == parts@[i as int]@);
        }
        if i > 0 {
            r.push_str(sep);
        } else {
            assert(r@ =~= seq![]);
        }
        r.push_str(parts[i].as_str());
        i += 1;
    }
    proof {
        assert(all.take(parts.len() as int) =~= all);
    }
    r
}

} // verus!
