//! Character-level text handling: whitespace trimming, line cleaning and
//! character-count truncation, all stated over the `Seq<char>` view of strings.
use vstd::prelude::*;

verus! {

/// The Unicode `White_Space` property, which `char::is_whitespace` reports: tab,
/// line feed, vertical tab, form feed, carriage return, space, next line,
/// no-break space, Ogham space mark, the spaces U+2000 to U+200A, line and
/// paragraph separators, narrow no-break space, medium mathematical space and
/// ideographic space.
pub open spec fn spec_is_whitespace(c: char) -> bool {
    ('\u{9}' <= c && c <= '\u{d}') || c == ' ' || c == '\u{85}' || c == '\u{a0}' || c
        == '\u{1680}' || ('\u{2000}' <= c && c <= '\u{200a}') || c == '\u{2028}' || c
        == '\u{2029}' || c == '\u{202f}' || c == '\u{205f}' || c == '\u{3000}'
}

/// Whether `c` is white space (see `spec_is_whitespace`).
pub fn is_whitespace(c: char) -> (r: bool)
    ensures
        r == spec_is_whitespace(c),
{
    ('\u{9}' <= c && c <= '\u{d}') || c == ' ' || c == '\u{85}' || c == '\u{a0}' || c
        == '\u{1680}' || ('\u{2000}' <= c && c <= '\u{200a}') || c == '\u{2028}' || c
        == '\u{2029}' || c == '\u{202f}' || c == '\u{205f}' || c == '\u{3000}'
}

/// `String::from_iter` over characters. Claimed: the string holds exactly the given
/// characters, in order.
#[verifier::external_body]
pub(crate) fn string_from_chars(chars: &Vec<char>) -> (r: String)
    ensures
        r@ == chars@,
{
    chars.iter().collect()
}

/// The characters of a string, in order.
pub fn chars_of(s: &str) -> (r: Vec<char>)
    ensures
        r@ == s@,
{
    broadcast use vstd::string::axiom_spec_iter;

    let mut r: Vec<char> = Vec::new();
    for c in it: s.chars()
        invariant
            r@ == it.seq().take(it.index()),
    {
        r.push(c);
    }
    r
}

/// `s` without its leading whitespace.
pub open spec fn trim_start(s: Seq<char>) -> Seq<char>
    decreases s.len(),
{
    if s.len() > 0 && spec_is_whitespace(s[0]) {
        trim_start(s.drop_first())
    } else {
        s
    }
}

/// `s` without its trailing whitespace.
pub open spec fn trim_end(s: Seq<char>) -> Seq<char>
    decreases s.len(),
{
    if s.len() > 0 && spec_is_whitespace(s.last()) {
        trim_end(s.drop_last())
    } else {
        s
    }
}

/// `s` without leading and trailing whitespace, as `str::trim` gives it.
pub open spec fn trim(s: Seq<char>) -> Seq<char> {
    trim_end(trim_start(s))
}

/// The pieces of `ls` joined with `sep` between consecutive pieces.
pub open spec fn join_with(ls: Seq<Seq<char>>, sep: Seq<char>) -> Seq<char>
    decreases ls.len(),
{
    if ls.len() == 0 {
        Seq::empty()
    } else if ls.len() == 1 {
        ls[0]
    } else {
        join_with(ls.drop_last(), sep) + sep + ls.last()
    }
}

/// Index of the first line feed of `s` at or after `i`, or `s.len()` when there is none.
pub open spec fn line_end(s: Seq<char>, i: int) -> int
    decreases s.len() - i,
{
    if i >= s.len() {
        s.len() as int
    } else if s[i] == '\n' {
        i
    } else {
        line_end(s, i + 1)
    }
}

/// A line ends between its start and the end of the text, at a line feed or the end.
pub proof fn lemma_line_end_bounds(s: Seq<char>, i: int)
    requires
        0 <= i <= s.len(),
    ensures
        i <= line_end(s, i) <= s.len(),
        line_end(s, i) < s.len() ==> s[line_end(s, i)] == '\n',
        forall|k: int| i <= k < line_end(s, i) ==> s[k] != '\n',
    decreases s.len() - i,
{
    if i < s.len() && s[i] != '\n' {
        lemma_line_end_bounds(s, i + 1);
    }
}

/// The lines of `s` that start at or after position `i` (lines are separated by
/// line feeds), each trimmed, with the lines left empty by trimming dropped.
pub open spec fn kept_lines_from(s: Seq<char>, i: int) -> Seq<Seq<char>>
    decreases s.len() + 1 - i,
{
    if i < 0 || i > s.len() {
        Seq::empty()
    } else {
        let e = line_end(s, i);
        proof {
            lemma_line_end_bounds(s, i);
        }
        let line = trim(s.subrange(i, e));
        let rest = if e < s.len() {
            kept_lines_from(s, e + 1)
        } else {
            Seq::<Seq<char>>::empty()
        };
        if line.len() > 0 {
            seq![line] + rest
        } else {
            rest
        }
    }
}

/// Text normalised line by line: every line trimmed, empty lines dropped, the
/// remaining lines joined with single line feeds.
pub open spec fn clean(s: Seq<char>) -> Seq<char> {
    join_with(kept_lines_from(s, 0), seq!['\n'])
}

/// Trimming never lengthens a text.
pub proof fn lemma_trim_shorter(s: Seq<char>)
    ensures
        trim(s).len() <= s.len(),
{
    lemma_trim_start_shorter(s);
    lemma_trim_end_shorter(trim_start(s));
}

proof fn lemma_trim_start_shorter(s: Seq<char>)
    ensures
        trim_start(s).len() <= s.len(),
    decreases s.len(),
{
    if s.len() > 0 && spec_is_whitespace(s[0]) {
        lemma_trim_start_shorter(s.drop_first());
    }
}

proof fn lemma_trim_end_shorter(s: Seq<char>)
    ensures
        trim_end(s).len() <= s.len(),
    decreases s.len(),
{
    if s.len() > 0 && spec_is_whitespace(s.last()) {
        lemma_trim_end_shorter(s.drop_last());
    }
}

/// Joining a first piece to the others: the piece, then the separator and the
/// rest when there is a rest.
pub proof fn lemma_join_prepend(a: Seq<char>, r: Seq<Seq<char>>, sep: Seq<char>)
    ensures
        join_with(seq![a] + r, sep) == if r.len() == 0 {
            a
        } else {
            a + sep + join_with(r, sep)
        },
    decreases r.len(),
{
    let t = seq![a] + r;
    if r.len() == 0 {
        assert(t =~= seq![a]);
    } else if r.len() == 1 {
        assert(t.drop_last() =~= seq![a]);
        assert(t.last() == r[0]);
        assert(join_with(seq![a], sep) == a);
        assert(join_with(r, sep) == r[0]);
        assert(join_with(t, sep) == join_with(t.drop_last(), sep) + sep + t.last());
    } else {
        assert(t.drop_last() =~= seq![a] + r.drop_last());
        lemma_join_prepend(a, r.drop_last(), sep);
        assert(t.last() == r.last());
        assert(join_with(t, sep) == join_with(t.drop_last(), sep) + sep + t.last());
        assert(join_with(r, sep) == join_with(r.drop_last(), sep) + sep + r.last());
        assert(a + sep + join_with(r.drop_last(), sep) + sep + r.last() =~= a + sep + (join_with(
            r.drop_last(),
            sep,
        ) + sep + r.last()));
    }
}

proof fn lemma_kept_lines_shorter(s: Seq<char>, i: int)
    requires
        0 <= i <= s.len(),
    ensures
        join_with(kept_lines_from(s, i), seq!['\n']).len() <= s.len() - i,
    decreases s.len() + 1 - i,
{
    let e = line_end(s, i);
    lemma_line_end_bounds(s, i);
    let line = trim(s.subrange(i, e));
    lemma_trim_shorter(s.subrange(i, e));
    let rest = if e < s.len() {
        kept_lines_from(s, e + 1)
    } else {
        Seq::<Seq<char>>::empty()
    };
    if e < s.len() {
        lemma_kept_lines_shorter(s, e + 1);
    }
    if line.len() > 0 {
        lemma_join_prepend(line, rest, seq!['\n']);
    }
}

/// Law: cleaning never lengthens a text.
pub proof fn lemma_clean_shorter(s: Seq<char>)
    ensures
        clean(s).len() <= s.len(),
{
    lemma_kept_lines_shorter(s, 0);
}

/// `trim_start(x)` is a suffix of `x` that is empty or starts with a character
/// other than white space.
proof fn lemma_trim_start_shape(x: Seq<char>)
    ensures
        trim_start(x).len() <= x.len(),
        trim_start(x) =~= x.subrange(x.len() - trim_start(x).len(), x.len() as int),
        trim_start(x).len() > 0 ==> !spec_is_whitespace(trim_start(x)[0]),
    decreases x.len(),
{
    if x.len() > 0 && spec_is_whitespace(x[0]) {
        let y = x.drop_first();
        lemma_trim_start_shape(y);
        let t = trim_start(y);
        assert(y.subrange(y.len() - t.len(), y.len() as int) =~= x.subrange(
            x.len() - t.len(),
            x.len() as int,
        ));
    } else {
        assert(x.subrange(0, x.len() as int) =~= x);
    }
}

/// `trim_end(y)` is a prefix of `y` that is empty or ends with a character other
/// than white space.
proof fn lemma_trim_end_shape(y: Seq<char>)
    ensures
        trim_end(y).len() <= y.len(),
        trim_end(y) =~= y.subrange(0, trim_end(y).len() as int),
        trim_end(y).len() > 0 ==> !spec_is_whitespace(trim_end(y).last()),
    decreases y.len(),
{
    if y.len() > 0 && spec_is_whitespace(y.last()) {
        let z = y.drop_last();
        lemma_trim_end_shape(z);
        let t = trim_end(z);
        assert(z.subrange(0, t.len() as int) =~= y.subrange(0, t.len() as int));
    } else {
        assert(y.subrange(0, y.len() as int) =~= y);
    }
}

/// `trim(x)` is the stretch `x[lo..hi)` of `x`, and trimming it again changes nothing.
proof fn lemma_trim_shape(x: Seq<char>) -> (lo: int)
    ensures
        0 <= lo <= lo + trim(x).len() <= x.len(),
        trim(x) =~= x.subrange(lo, lo + trim(x).len()),
        trim(trim(x)) == trim(x),
{
    lemma_trim_start_shape(x);
    let y = trim_start(x);
    lemma_trim_end_shape(y);
    let z = trim_end(y);
    let lo = x.len() - y.len();
    assert(z =~= x.subrange(lo, lo + z.len()));
    if z.len() > 0 {
        assert(z[0] == y[0]);
        assert(trim_start(z) == z);
        assert(trim_end(z) == z);
    } else {
        assert(trim_start(z) == z);
        assert(trim_end(z) == z);
    }
    lo
}

/// A line of cleaned text: not empty, trimmed, and without a line feed.
pub open spec fn is_clean_line(l: Seq<char>) -> bool {
    &&& l.len() > 0
    &&& trim(l) == l
    &&& forall|k: int| 0 <= k < l.len() ==> l[k] != '\n'
}

/// The lines kept from position `i` on are clean lines.
proof fn lemma_kept_lines_clean(s: Seq<char>, i: int)
    requires
        0 <= i <= s.len(),
    ensures
        forall|k: int|
            0 <= k < kept_lines_from(s, i).len() ==> is_clean_line(#[trigger] kept_lines_from(s, i)[k]),
    decreases s.len() + 1 - i,
{
    let e = line_end(s, i);
    lemma_line_end_bounds(s, i);
    let seg = s.subrange(i, e);
    let line = trim(seg);
    let lo = lemma_trim_shape(seg);
    assert forall|k: int| 0 <= k < line.len() implies line[k] != '\n' by {
        assert(line[k] == seg[lo + k]);
        assert(seg[lo + k] == s[i + lo + k]);
    }
    let rest = if e < s.len() {
        kept_lines_from(s, e + 1)
    } else {
        Seq::<Seq<char>>::empty()
    };
    if e < s.len() {
        lemma_kept_lines_clean(s, e + 1);
    }
    let all = kept_lines_from(s, i);
    assert forall|k: int| 0 <= k < all.len() implies is_clean_line(#[trigger] all[k]) by {
        if line.len() > 0 {
            assert(all == seq![line] + rest);
            if k > 0 {
                assert(all[k] == rest[k - 1]);
            }
        } else {
            assert(all == rest);
        }
    }
}

/// `line_end` finds the first line feed at or after `i`.
proof fn lemma_line_end_at(s: Seq<char>, i: int, m: int)
    requires
        0 <= i <= m <= s.len(),
        forall|k: int| i <= k < m ==> s[k] != '\n',
        m == s.len() || s[m] == '\n',
    ensures
        line_end(s, i) == m,
    decreases m - i,
{
    if i < m {
        lemma_line_end_at(s, i + 1, m);
    }
}

/// Line ends do not depend on a dropped prefix.
proof fn lemma_line_end_shift(s: Seq<char>, i: int, j: int)
    requires
        0 <= i,
        0 <= j,
        i + j <= s.len(),
    ensures
        line_end(s, i + j) == i + line_end(s.skip(i), j),
    decreases s.len() - (i + j),
{
    if i + j < s.len() && s[i + j] != '\n' {
        lemma_line_end_shift(s, i, j + 1);
    }
}

/// The lines kept from a position do not depend on a dropped prefix.
proof fn lemma_kept_lines_shift(s: Seq<char>, i: int, j: int)
    requires
        0 <= i,
        0 <= j,
        i + j <= s.len(),
    ensures
        kept_lines_from(s, i + j) == kept_lines_from(s.skip(i), j),
    decreases s.len() + 1 - (i + j),
{
    let t = s.skip(i);
    lemma_line_end_shift(s, i, j);
    lemma_line_end_bounds(s, i + j);
    let e = line_end(s, i + j);
    assert(s.subrange(i + j, e) =~= t.subrange(j, e - i));
    if e < s.len() {
        lemma_kept_lines_shift(s, i, e - i + 1);
    }
}

/// Cleaning clean lines joined by line feeds gives back those lines.
proof fn lemma_kept_lines_of_join(ls: Seq<Seq<char>>)
    requires
        forall|k: int| 0 <= k < ls.len() ==> is_clean_line(#[trigger] ls[k]),
    ensures
        kept_lines_from(join_with(ls, seq!['\n']), 0) == ls,
    decreases ls.len(),
{
    let s = join_with(ls, seq!['\n']);
    if ls.len() == 0 {
        lemma_line_end_at(s, 0, 0);
        assert(trim(s.subrange(0, 0)).len() == 0) by {
            assert(s.subrange(0, 0).len() == 0);
        }
        assert(kept_lines_from(s, 0) =~= ls);
    } else {
        let a = ls[0];
        let r = ls.drop_first();
        assert(ls =~= seq![a] + r);
        lemma_join_prepend(a, r, seq!['\n']);
        assert(is_clean_line(a));
        if r.len() == 0 {
            assert(s == a);
            lemma_line_end_at(s, 0, a.len() as int);
            assert(s.subrange(0, a.len() as int) =~= a);
            assert(kept_lines_from(s, 0) =~= seq![a]);
        } else {
            assert(s == a + seq!['\n'] + join_with(r, seq!['\n']));
            assert forall|k: int| 0 <= k < a.len() implies s[k] != '\n' by {
                assert(s[k] == a[k]);
            }
            assert(s[a.len() as int] == '\n');
            lemma_line_end_at(s, 0, a.len() as int);
            assert(s.subrange(0, a.len() as int) =~= a);
            assert forall|k: int| 0 <= k < r.len() implies is_clean_line(#[trigger] r[k]) by {
                assert(r[k] == ls[k + 1]);
            }
            lemma_kept_lines_of_join(r);
            lemma_kept_lines_shift(s, a.len() as int + 1, 0);
            assert(s.skip(a.len() as int + 1) =~= join_with(r, seq!['\n']));
            assert(kept_lines_from(s, 0) =~= seq![a] + r);
        }
    }
}

/// Law: cleaned text is made of non-empty, trimmed lines joined by line feeds,
/// and cleaning it again changes nothing.
pub proof fn lemma_clean_lines(s: Seq<char>)
    ensures
        clean(s) == join_with(kept_lines_from(s, 0), seq!['\n']),
        forall|k: int|
            0 <= k < kept_lines_from(s, 0).len() ==> is_clean_line(#[trigger] kept_lines_from(s, 0)[k]),
        clean(clean(s)) == clean(s),
{
    lemma_kept_lines_clean(s, 0);
    lemma_kept_lines_of_join(kept_lines_from(s, 0));
}

/// Start and end of `trim(chars[lo..hi])` inside `chars`.
pub fn trim_bounds(chars: &Vec<char>, lo: usize, hi: usize) -> (r: (usize, usize))
    requires
        lo <= hi <= chars@.len(),
    ensures
        lo <= r.0 <= r.1 <= hi,
        chars@.subrange(r.0 as int, r.1 as int) == trim(chars@.subrange(lo as int, hi as int)),
{
    let mut a = lo;
    while a < hi && is_whitespace(chars[a])
        invariant
            lo <= a <= hi,
            hi <= chars@.len(),
            trim_start(chars@.subrange(lo as int, hi as int)) == trim_start(
                chars@.subrange(a as int, hi as int),
            ),
        decreases hi - a,
    {
        assert(chars@.subrange(a as int, hi as int).drop_first() =~= chars@.subrange(
            a + 1,
            hi as int,
        ));
        a += 1;
    }
    assert(trim_start(chars@.subrange(a as int, hi as int)) == chars@.subrange(a as int, hi as int));
    let mut b = hi;
    while b > a && is_whitespace(chars[b - 1])
        invariant
            lo <= a <= b <= hi,
            hi <= chars@.len(),
            trim_end(chars@.subrange(a as int, hi as int)) == trim_end(
                chars@.subrange(a as int, b as int),
            ),
        decreases b - a,
    {
        assert(chars@.subrange(a as int, b as int).drop_last() =~= chars@.subrange(
            a as int,
            b - 1,
        ));
        b -= 1;
    }
    assert(trim_end(chars@.subrange(a as int, b as int)) == chars@.subrange(a as int, b as int));
    (a, b)
}

/// Appends `chars[lo..hi]` to `out`.
pub fn extend_from_range(out: &mut Vec<char>, chars: &Vec<char>, lo: usize, hi: usize)
    requires
        lo <= hi <= chars@.len(),
    ensures
        final(out)@ == old(out)@ + chars@.subrange(lo as int, hi as int),
{
    let mut k = lo;
    while k < hi
        invariant
            lo <= k <= hi,
            hi <= chars@.len(),
            out@ == old(out)@ + chars@.subrange(lo as int, k as int),
        decreases hi - k,
    {
        out.push(chars[k]);
        k += 1;
        assert(out@ =~= old(out)@ + chars@.subrange(lo as int, k as int));
    }
}

/// The characters `chars[lo..hi]` as a new vector.
pub fn copy_range(chars: &Vec<char>, lo: usize, hi: usize) -> (r: Vec<char>)
    requires
        lo <= hi <= chars@.len(),
    ensures
        r@ == chars@.subrange(lo as int, hi as int),
{
    let mut r: Vec<char> = Vec::new();
    extend_from_range(&mut r, chars, lo, hi);
    assert(r@ =~= chars@.subrange(lo as int, hi as int));
    r
}

/// `str::trim`: the string without leading and trailing whitespace.
pub fn trim_str(s: &str) -> (r: String)
    ensures
        r@ == trim(s@),
{
    let chars = chars_of(s);
    let (a, b) = trim_bounds(&chars, 0, chars.len());
    assert(chars@.subrange(0, chars@.len() as int) =~= chars@);
    string_from_chars(&copy_range(&chars, a, b))
}

/// Line-by-line cleaning of a character sequence (see `clean`).
pub fn clean_chars(chars: &Vec<char>) -> (r: Vec<char>)
    ensures
        r@ == clean(chars@),
{
    let ghost s = chars@;
    let n = chars.len();
    let mut out: Vec<char> = Vec::new();
    let mut any = false;
    let mut i: usize = 0;
    let ghost mut done: Seq<Seq<char>> = Seq::empty();
    loop
        invariant_except_break
            kept_lines_from(s, 0) == done + kept_lines_from(s, i as int),
        invariant
            i <= n,
            n == s.len(),
            s == chars@,
            out@ == join_with(done, seq!['\n']),
            any == (done.len() > 0),
        ensures
            out@ == clean(s),
        decreases n + 1 - i,
    {
        let mut e = i;
        while e < n && chars[e] != '\n'
            invariant
                i <= e <= n,
                n == s.len(),
                s == chars@,
                line_end(s, i as int) == line_end(s, e as int),
            decreases n - e,
        {
            e += 1;
        }
        proof {
            lemma_line_end_bounds(s, i as int);
        }
        let (a, b) = trim_bounds(chars, i, e);
        let ghost line = s.subrange(a as int, b as int);
        let ghost before = done;
        if a < b {
            if any {
                out.push('\n');
            }
            extend_from_range(&mut out, chars, a, b);
            proof {
                done = done.push(line);
                assert(done.drop_last() =~= before);
                if before.len() == 0 {
                    assert(out@ =~= line);
                } else {
                    assert(out@ =~= join_with(before, seq!['\n']) + seq!['\n'] + line);
                }
            }
            any = true;
        }
        if e >= n {
            proof {
                assert(kept_lines_from(s, 0) =~= done);
            }
            break;
        }
        proof {
            if line.len() > 0 {
                assert(before + kept_lines_from(s, i as int) =~= done + kept_lines_from(
                    s,
                    e + 1,
                ));
            }
        }
        i = e + 1;
    }
    out
}

/// `clean_text`: every line trimmed, empty lines dropped, lines joined by `\n`.
pub fn clean_text(text: &str) -> (r: String)
    ensures
        r@ == clean(text@),
{
    let chars = chars_of(text);
    string_from_chars(&clean_chars(&chars))
}

/// At most the first `maximum` characters of `value`; characters, not bytes, are counted.
pub fn truncate_chars(value: &str, maximum: usize) -> (r: String)
    ensures
        r@ == if maximum < value@.len() { value@.take(maximum as int) } else { value@ },
{
    let chars = chars_of(value);
    let end = if maximum < chars.len() { maximum } else { chars.len() };
    let kept = copy_range(&chars, 0, end);
    assert(chars@.subrange(0, chars@.len() as int) =~= chars@);
    string_from_chars(&kept)
}

/// String equality by characters.
pub fn str_eq(a: &str, b: &str) -> (r: bool)
    ensures
        r == (a@ == b@),
{
    let x = a.to_owned();
    let y = b.to_owned();
    x == y
}

/// Whether `s` is empty or made of whitespace only.
pub fn is_blank(s: &str) -> (r: bool)
    ensures
        r == (trim(s@).len() == 0),
{
    let t = trim_str(s);
    t.as_str().is_empty()
}

/// `char::to_ascii_lowercase`: ASCII capitals become small letters; every other
/// character is unchanged.
pub open spec fn ascii_lower(c: char) -> char {
    if 'A' <= c && c <= 'Z' {
        ((c as int) + 32) as char
    } else {
        c
    }
}

/// `char::to_ascii_lowercase` (see `ascii_lower`).
pub fn ascii_lower_char(c: char) -> (r: char)
    ensures
        r == ascii_lower(c),
{
    if 'A' <= c && c <= 'Z' {
        let b = c as u8;
        assert(b as int == c as int);
        ((b + 32) as char)
    } else {
        c
    }
}

/// The string with ASCII capitals lowered.
pub open spec fn ascii_lowercase(s: Seq<char>) -> Seq<char> {
    s.map_values(|c: char| ascii_lower(c))
}

/// `str::to_ascii_lowercase`.
pub fn to_ascii_lowercase(s: &str) -> (r: String)
    ensures
        r@ == ascii_lowercase(s@),
{
    let chars = chars_of(s);
    let mut out: Vec<char> = Vec::new();
    let mut i: usize = 0;
    while i < chars.len()
        invariant
            i <= chars@.len(),
            out@ == ascii_lowercase(chars@.take(i as int)),
        decreases chars@.len() - i,
    {
        out.push(ascii_lower_char(chars[i]));
        i += 1;
        assert(out@ =~= ascii_lowercase(chars@.take(i as int)));
    }
    assert(chars@.take(chars@.len() as int) =~= chars@);
    string_from_chars(&out)
}

/// `str::eq_ignore_ascii_case`: equal once ASCII capitals are lowered.
pub open spec fn eq_ignore_ascii_case(a: Seq<char>, b: Seq<char>) -> bool {
    ascii_lowercase(a) == ascii_lowercase(b)
}

/// Compares two strings ignoring ASCII case.
pub fn eq_ignore_ascii_case_str(a: &str, b: &str) -> (r: bool)
    ensures
        r == eq_ignore_ascii_case(a@, b@),
{
    let x = chars_of(a);
    let y = chars_of(b);
    if x.len() != y.len() {
        assert(ascii_lowercase(a@).len() != ascii_lowercase(b@).len());
        return false;
    }
    let mut i: usize = 0;
    while i < x.len()
        invariant
            i <= x@.len() == y@.len(),
            x@ == a@,
            y@ == b@,
            forall|k: int| 0 <= k < i ==> ascii_lower(#[trigger] x@[k]) == ascii_lower(y@[k]),
        decreases x@.len() - i,
    {
        if ascii_lower_char(x[i]) != ascii_lower_char(y[i]) {
            assert(ascii_lowercase(a@)[i as int] != ascii_lowercase(b@)[i as int]);
            return false;
        }
        i += 1;
    }
    assert(ascii_lowercase(a@) =~= ascii_lowercase(b@));
    true
}

/// `p` begins `s`.
pub open spec fn is_prefix(p: Seq<char>, s: Seq<char>) -> bool {
    p.len() <= s.len() && s.take(p.len() as int) == p
}

/// `str::starts_with` for a string prefix.
pub fn starts_with_str(s: &str, prefix: &str) -> (r: bool)
    ensures
        r == is_prefix(prefix@, s@),
{
    let x = chars_of(s);
    let p = chars_of(prefix);
    if p.len() > x.len() {
        return false;
    }
    let mut i: usize = 0;
    while i < p.len()
        invariant
            i <= p@.len() <= x@.len(),
            x@ == s@,
            p@ == prefix@,
            forall|k: int| 0 <= k < i ==> #[trigger] x@[k] == p@[k],
        decreases p@.len() - i,
    {
        if x[i] != p[i] {
            assert(x@.take(p@.len() as int)[i as int] != p@[i as int]);
            return false;
        }
        i += 1;
    }
    assert(x@.take(p@.len() as int) =~= p@);
    true
}

} // verus!
