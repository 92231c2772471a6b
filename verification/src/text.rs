//! Text primitives: searching, cutting and joining sequences of characters.
//!
//! The specification side works on `Seq<char>`; the executable side works on
//! `&[char]`, so that a text is decoded once and cut without copying.
use vstd::prelude::*;
use vstd::slice::slice_subrange;

verus! {

/// The texts held by a list of strings.
pub open spec fn texts(v: Seq<String>) -> Seq<Seq<char>> {
    Seq::new(v.len(), |i: int| v[i]@)
}

/// The text held by an optional string.
pub open spec fn opt_text(o: Option<String>) -> Option<Seq<char>> {
    match o {
        Some(s) => Some(s@),
        None => None,
    }
}

/// The texts held by a list of character slices.
pub open spec fn slices(v: Seq<&[char]>) -> Seq<Seq<char>> {
    Seq::new(v.len(), |i: int| v[i]@)
}

/// The texts held by a list of string pairs.
pub open spec fn text_pairs(v: Seq<(String, String)>) -> Seq<(Seq<char>, Seq<char>)> {
    Seq::new(v.len(), |i: int| (v[i].0@, v[i].1@))
}

/// The texts held by a list of string slice pairs.
pub open spec fn str_pairs(v: Seq<(&str, &str)>) -> Seq<(Seq<char>, Seq<char>)> {
    Seq::new(v.len(), |i: int| (v[i].0@, v[i].1@))
}

// ---- Searching --------------------------------------------------------------

/// `pat` stands in `s` at position `i`.
pub open spec fn occurs_at(s: Seq<char>, pat: Seq<char>, i: int) -> bool {
    &&& 0 <= i
    &&& i + pat.len() <= s.len()
    &&& forall|k: int| 0 <= k < pat.len() ==> s[i + k] == #[trigger] pat[k]
}

/// First position at or after `from` at which `pat` stands in `s`.
pub open spec fn index_from(s: Seq<char>, pat: Seq<char>, from: int) -> Option<int>
    decreases s.len() - from,
{
    if from + pat.len() > s.len() || from < 0 {
        None
    } else if occurs_at(s, pat, from) {
        Some(from)
    } else if from < s.len() {
        index_from(s, pat, from + 1)
    } else {
        None
    }
}

/// First position at which `pat` stands in `s`.
pub open spec fn index_of(s: Seq<char>, pat: Seq<char>) -> Option<int> {
    index_from(s, pat, 0)
}

pub proof fn lemma_index_from(s: Seq<char>, pat: Seq<char>, from: int)
    requires
        0 <= from,
    ensures
        match index_from(s, pat, from) {
            Some(i) => from <= i && occurs_at(s, pat, i) && forall|j: int|
                from <= j < i ==> !occurs_at(s, pat, j),
            None => forall|j: int| from <= j ==> !occurs_at(s, pat, j),
        },
    decreases s.len() - from,
{
    if from + pat.len() <= s.len() && !occurs_at(s, pat, from) && from < s.len() {
        lemma_index_from(s, pat, from + 1);
    }
}

/// A first occurrence is the one that `index_of` gives.
pub proof fn lemma_index_of_is(s: Seq<char>, pat: Seq<char>, i: int)
    requires
        occurs_at(s, pat, i),
        forall|j: int| 0 <= j < i ==> !occurs_at(s, pat, j),
    ensures
        index_of(s, pat) == Some(i),
{
    lemma_index_from(s, pat, 0);
}

/// Where there is no occurrence, `index_of` gives none.
pub proof fn lemma_index_of_none(s: Seq<char>, pat: Seq<char>)
    requires
        forall|j: int| 0 <= j ==> !occurs_at(s, pat, j),
    ensures
        index_of(s, pat) is None,
{
    lemma_index_from(s, pat, 0);
}

/// A text without the character `c` holds no occurrence of it.
pub proof fn lemma_absent(s: Seq<char>, c: char)
    requires
        !s.contains(c),
    ensures
        index_of(s, seq![c]) is None,
{
    assert forall|j: int| 0 <= j implies !occurs_at(s, seq![c], j) by {
        if occurs_at(s, seq![c], j) {
            assert(seq![c][0] == c);
            assert(s[j + 0] == c);
        }
    }
    lemma_index_of_none(s, seq![c]);
}

/// The first `c` in `a + [c] + b` stands behind `a`, where `a` is without it.
pub proof fn lemma_first_after(a: Seq<char>, c: char, b: Seq<char>)
    requires
        !a.contains(c),
    ensures
        index_of(a + seq![c] + b, seq![c]) == Some(a.len() as int),
        (a + seq![c] + b).take(a.len() as int) == a,
        (a + seq![c] + b).skip(a.len() as int + 1) == b,
{
    let s = a + seq![c] + b;
    assert(occurs_at(s, seq![c], a.len() as int));
    assert forall|j: int| 0 <= j < a.len() implies !occurs_at(s, seq![c], j) by {
        if occurs_at(s, seq![c], j) {
            assert(seq![c][0] == c);
            assert(s[j + 0] == c);
            assert(a[j] == c);
        }
    }
    lemma_index_of_is(s, seq![c], a.len() as int);
    assert(s.take(a.len() as int) =~= a);
    assert(s.skip(a.len() as int + 1) =~= b);
}

fn stands_at(s: &[char], pat: &[char], i: usize) -> (r: bool)
    requires
        i + pat@.len() <= s@.len(),
    ensures
        r == occurs_at(s@, pat@, i as int),
{
    let n: usize = s.len();
    let mut k: usize = 0;
    while k < pat.len()
        invariant
            n == s@.len(),
            i + pat@.len() <= n,
            k <= pat@.len(),
            forall|m: int| 0 <= m < k ==> s@[i + m] == #[trigger] pat@[m],
        decreases pat@.len() - k,
    {
        if s[i + k] != pat[k] {
            assert(s@[i + k] != pat@[k as int]);
            return false;
        }
        k += 1;
    }
    true
}

/// First position of `pat` in `s`.
pub fn find(s: &[char], pat: &[char]) -> (r: Option<usize>)
    ensures
        match r {
            Some(i) => index_of(s@, pat@) == Some(i as int) && i + pat@.len() <= s@.len(),
            None => index_of(s@, pat@) is None,
        },
{
    if pat.len() > s.len() {
        return None;
    }
    let last: usize = s.len() - pat.len();
    let mut i: usize = 0;
    while i <= last
        invariant
            last == s@.len() - pat@.len(),
            i <= last + 1,
            index_of(s@, pat@) == index_from(s@, pat@, i as int),
        decreases last + 1 - i,
    {
        if stands_at(s, pat, i) {
            return Some(i);
        }
        if i == last {
            assert(index_from(s@, pat@, i + 1) is None);
            return None;
        }
        i += 1;
    }
    None
}

/// First position of the character `c` in `s`.
pub fn find_char(s: &[char], c: char) -> (r: Option<usize>)
    ensures
        match r {
            Some(i) => index_of(s@, seq![c]) == Some(i as int) && i < s@.len(),
            None => index_of(s@, seq![c]) is None,
        },
{
    let pat = [c];
    assert(pat@ =~= seq![c]);
    find(s, &pat)
}

// ---- Cutting ----------------------------------------------------------------

/// What follows the prefix `p`, if `s` starts with it.
pub open spec fn without_prefix(s: Seq<char>, p: Seq<char>) -> Option<Seq<char>> {
    if p.is_prefix_of(s) {
        Some(s.skip(p.len() as int))
    } else {
        None
    }
}

/// The two parts of `s` around the first `pat`.
pub open spec fn cut(s: Seq<char>, pat: Seq<char>) -> Option<(Seq<char>, Seq<char>)> {
    match index_of(s, pat) {
        Some(i) => Some((s.take(i), s.skip(i + pat.len()))),
        None => None,
    }
}

/// The parts of `s` between the separators; one more than there are separators.
pub open spec fn pieces(s: Seq<char>, sep: char) -> Seq<Seq<char>>
    decreases s.len(),
{
    match index_of(s, seq![sep]) {
        Some(i) => if 0 <= i < s.len() {
            seq![s.take(i)] + pieces(s.skip(i + 1), sep)
        } else {
            seq![s]
        },
        None => seq![s],
    }
}

/// The text up to and with the first line feed, or all of it.
pub open spec fn raw_line(s: Seq<char>) -> Seq<char> {
    match index_of(s, seq!['\n']) {
        Some(i) => s.take(i + 1),
        None => s,
    }
}

/// What follows the first line feed.
pub open spec fn after_line(s: Seq<char>) -> Seq<char> {
    match index_of(s, seq!['\n']) {
        Some(i) => s.skip(i + 1),
        None => Seq::empty(),
    }
}

/// A line without the carriage return that stood before its line feed.
pub open spec fn without_return(s: Seq<char>) -> Seq<char> {
    if s.len() > 0 && s.last() == '\r' {
        s.drop_last()
    } else {
        s
    }
}

/// The lines of `s`: each without its line end, `\n` or `\r\n`. Nothing stands
/// for the empty rest behind a last line end.
pub open spec fn line_list(s: Seq<char>) -> Seq<Seq<char>>
    decreases s.len(),
{
    if s.len() == 0 {
        Seq::empty()
    } else {
        match index_of(s, seq!['\n']) {
            Some(i) => if 0 <= i < s.len() {
                seq![without_return(s.take(i))] + line_list(s.skip(i + 1))
            } else {
                seq![s]
            },
            None => seq![s],
        }
    }
}

/// The text that `prefix` is taken from, if it starts with it.
pub fn strip_prefix<'a>(s: &'a [char], prefix: &str) -> (r: Option<&'a [char]>)
    ensures
        match r {
            Some(rest) => without_prefix(s@, prefix@) == Some(rest@),
            None => without_prefix(s@, prefix@) is None,
        },
{
    let p = chars_of(prefix);
    if p.len() > s.len() {
        return None;
    }
    if stands_at(s, p.as_slice(), 0) {
        assert(p@ =~= s@.subrange(0, p@.len() as int)) by {
            assert forall|k: int| 0 <= k < p@.len() implies p@[k] == s@[k] by {
                assert(s@[0 + k] == p@[k]);
            }
        }
        let rest = slice_subrange(s, p.len(), s.len());
        assert(rest@ =~= s@.skip(p@.len() as int));
        Some(rest)
    } else {
        proof {
            if p@.is_prefix_of(s@) {
                assert forall|k: int| 0 <= k < p@.len() implies s@[0 + k] == #[trigger] p@[k] by {
                    assert(s@.subrange(0, p@.len() as int)[k] == s@[k]);
                }
                assert(occurs_at(s@, p@, 0));
            }
        }
        None
    }
}

/// The two parts of `s` around the first `pat`.
pub fn split_once<'a>(s: &'a [char], pat: &str) -> (r: Option<(&'a [char], &'a [char])>)
    ensures
        match r {
            Some((a, b)) => cut(s@, pat@) == Some((a@, b@)),
            None => cut(s@, pat@) is None,
        },
{
    let p = chars_of(pat);
    let n: usize = s.len();
    match find(s, p.as_slice()) {
        Some(i) => {
            let a = slice_subrange(s, 0, i);
            let b = slice_subrange(s, i + p.len(), n);
            assert(a@ =~= s@.take(i as int));
            assert(b@ =~= s@.skip(i + p@.len()));
            Some((a, b))
        },
        None => None,
    }
}

/// The two parts of `s` around the first `c`.
pub fn split_at_char<'a>(s: &'a [char], c: char) -> (r: Option<(&'a [char], &'a [char])>)
    ensures
        match r {
            Some((a, b)) => cut(s@, seq![c]) == Some((a@, b@)),
            None => cut(s@, seq![c]) is None,
        },
{
    let n: usize = s.len();
    match find_char(s, c) {
        Some(i) => {
            let a = slice_subrange(s, 0, i);
            let b = slice_subrange(s, i + 1, n);
            assert(a@ =~= s@.take(i as int));
            assert(b@ =~= s@.skip(i + 1));
            Some((a, b))
        },
        None => None,
    }
}

/// The parts of `s` between the separators.
pub fn split<'a>(s: &'a [char], sep: char) -> (r: Vec<&'a [char]>)
    ensures
        slices(r@) == pieces(s@, sep),
{
    let mut out: Vec<&'a [char]> = Vec::new();
    let mut rest: &'a [char] = s;
    assert(slices(out@) + pieces(rest@, sep) =~= pieces(s@, sep));
    loop
        invariant
            pieces(s@, sep) == slices(out@) + pieces(rest@, sep),
        decreases rest@.len(),
    {
        let ghost before = out@;
        let n: usize = rest.len();
        match find_char(rest, sep) {
            None => {
                out.push(rest);
                assert(slices(out@) =~= slices(before) + seq![rest@]);
                return out;
            },
            Some(i) => {
                let part = slice_subrange(rest, 0, i);
                let tail = slice_subrange(rest, i + 1, n);
                assert(part@ =~= rest@.take(i as int));
                assert(tail@ =~= rest@.skip(i + 1));
                out.push(part);
                assert(slices(out@) =~= slices(before) + seq![part@]);
                assert(slices(before) + (seq![part@] + pieces(tail@, sep)) =~= slices(out@)
                    + pieces(tail@, sep));
                rest = tail;
            },
        }
    }
}

/// The lines of `s`, without their line ends.
pub fn lines<'a>(s: &'a [char]) -> (r: Vec<&'a [char]>)
    ensures
        slices(r@) == line_list(s@),
{
    let mut out: Vec<&'a [char]> = Vec::new();
    let mut rest: &'a [char] = s;
    assert(slices(out@) + line_list(rest@) =~= line_list(s@));
    while rest.len() > 0
        invariant
            line_list(s@) == slices(out@) + line_list(rest@),
        decreases rest@.len(),
    {
        let ghost before = out@;
        let n: usize = rest.len();
        match find_char(rest, '\n') {
            None => {
                out.push(rest);
                assert(slices(out@) =~= slices(before) + seq![rest@]);
                return out;
            },
            Some(i) => {
                let full = slice_subrange(rest, 0, i);
                let tail = slice_subrange(rest, i + 1, n);
                assert(full@ =~= rest@.take(i as int));
                assert(tail@ =~= rest@.skip(i + 1));
                let line = if full.len() > 0 && full[full.len() - 1] == '\r' {
                    let short = slice_subrange(full, 0, full.len() - 1);
                    assert(short@ =~= full@.drop_last());
                    short
                } else {
                    full
                };
                out.push(line);
                assert(slices(out@) =~= slices(before) + seq![line@]);
                assert(slices(before) + (seq![line@] + line_list(tail@)) =~= slices(out@)
                    + line_list(tail@));
                rest = tail;
            },
        }
    }
    assert(slices(out@) + line_list(rest@) =~= slices(out@));
    out
}

// ---- Trimming and comparing -------------------------------------------------

/// Characters with the Unicode property `White_Space`.
pub open spec fn is_white(c: char) -> bool {
    ||| '\u{9}' <= c <= '\u{d}'
    ||| c == ' '
    ||| c == '\u{85}'
    ||| c == '\u{a0}'
    ||| c == '\u{1680}'
    ||| '\u{2000}' <= c <= '\u{200a}'
    ||| c == '\u{2028}'
    ||| c == '\u{2029}'
    ||| c == '\u{202f}'
    ||| c == '\u{205f}'
    ||| c == '\u{3000}'
}

/// `s` without the white space at its front.
pub open spec fn trimmed_front(s: Seq<char>) -> Seq<char>
    decreases s.len(),
{
    if s.len() > 0 && is_white(s[0]) {
        trimmed_front(s.skip(1))
    } else {
        s
    }
}

/// `s` without the white space at its back.
pub open spec fn trimmed_back(s: Seq<char>) -> Seq<char>
    decreases s.len(),
{
    if s.len() > 0 && is_white(s.last()) {
        trimmed_back(s.drop_last())
    } else {
        s
    }
}

/// `s` without white space at either end.
pub open spec fn trimmed(s: Seq<char>) -> Seq<char> {
    trimmed_front(trimmed_back(s))
}

/// `s` without the line-end characters at its back.
pub open spec fn trimmed_line_end(s: Seq<char>) -> Seq<char>
    decreases s.len(),
{
    if s.len() > 0 && (s.last() == '\r' || s.last() == '\n') {
        trimmed_line_end(s.drop_last())
    } else {
        s
    }
}

/// The lower-case form of an ASCII letter; any other character is its own.
pub open spec fn ascii_lower(c: char) -> char {
    if 'A' <= c <= 'Z' {
        ((c as u8) + 32) as char
    } else {
        c
    }
}

/// Equal up to the case of ASCII letters.
pub open spec fn same_ignoring_case(a: Seq<char>, b: Seq<char>) -> bool {
    &&& a.len() == b.len()
    &&& forall|i: int| 0 <= i < a.len() ==> ascii_lower(#[trigger] a[i]) == ascii_lower(b[i])
}

/// Whether a character has the Unicode property `White_Space`.
pub fn is_whitespace(c: char) -> (r: bool)
    ensures
        r == is_white(c),
{
    ('\u{9}' <= c && c <= '\u{d}') || c == ' ' || c == '\u{85}' || c == '\u{a0}' || c == '\u{1680}'
        || ('\u{2000}' <= c && c <= '\u{200a}') || c == '\u{2028}' || c == '\u{2029}' || c
        == '\u{202f}' || c == '\u{205f}' || c == '\u{3000}'
}

/// `s` without white space at either end.
pub fn trim<'a>(s: &'a [char]) -> (r: &'a [char])
    ensures
        r@ == trimmed(s@),
{
    let mut back: &'a [char] = s;
    while back.len() > 0 && is_whitespace(back[back.len() - 1])
        invariant
            trimmed_back(back@) == trimmed_back(s@),
        decreases back@.len(),
    {
        let ghost before = back@;
        back = slice_subrange(back, 0, back.len() - 1);
        assert(back@ =~= before.drop_last());
    }
    let mut front: &'a [char] = back;
    while front.len() > 0 && is_whitespace(front[0])
        invariant
            trimmed_front(front@) == trimmed_front(back@),
        decreases front@.len(),
    {
        let ghost before = front@;
        front = slice_subrange(front, 1, front.len());
        assert(front@ =~= before.skip(1));
    }
    front
}

/// `s` without the line-end characters at its back.
pub fn trim_line_end<'a>(s: &'a [char]) -> (r: &'a [char])
    ensures
        r@ == trimmed_line_end(s@),
{
    let mut back: &'a [char] = s;
    while back.len() > 0 && (back[back.len() - 1] == '\r' || back[back.len() - 1] == '\n')
        invariant
            trimmed_line_end(back@) == trimmed_line_end(s@),
        decreases back@.len(),
    {
        let ghost before = back@;
        back = slice_subrange(back, 0, back.len() - 1);
        assert(back@ =~= before.drop_last());
    }
    back
}

fn to_lower(c: char) -> (r: char)
    ensures
        r == ascii_lower(c),
{
    if 'A' <= c && c <= 'Z' {
        ((c as u8) + 32) as char
    } else {
        c
    }
}

/// Equal up to the case of ASCII letters.
pub fn eq_ignore_case(a: &[char], b: &str) -> (r: bool)
    ensures
        r == same_ignoring_case(a@, b@),
{
    let other = chars_of(b);
    if a.len() != other.len() {
        return false;
    }
    let mut i: usize = 0;
    while i < a.len()
        invariant
            other@ == b@,
            a@.len() == b@.len(),
            i <= a@.len(),
            forall|j: int| 0 <= j < i ==> ascii_lower(#[trigger] a@[j]) == ascii_lower(b@[j]),
        decreases a@.len() - i,
    {
        if to_lower(a[i]) != to_lower(other[i]) {
            assert(ascii_lower(a@[i as int]) != ascii_lower(b@[i as int]));
            return false;
        }
        i += 1;
    }
    true
}

/// Equal character by character.
pub fn eq_chars(a: &[char], b: &[char]) -> (r: bool)
    ensures
        r == (a@ == b@),
{
    if a.len() != b.len() {
        return false;
    }
    let mut i: usize = 0;
    while i < a.len()
        invariant
            a@.len() == b@.len(),
            i <= a@.len(),
            forall|j: int| 0 <= j < i ==> a@[j] == b@[j],
        decreases a@.len() - i,
    {
        if a[i] != b[i] {
            assert(a@[i as int] != b@[i as int]);
            return false;
        }
        i += 1;
    }
    assert(a@ =~= b@);
    true
}

/// The text `a` is the text `b`.
pub fn is_text(a: &[char], b: &str) -> (r: bool)
    ensures
        r == (a@ == b@),
{
    let b = chars_of(b);
    eq_chars(a, b.as_slice())
}

// ---- Joining and replacing --------------------------------------------------

/// The parts, one separator between each two.
pub open spec fn joined(parts: Seq<Seq<char>>, sep: char) -> Seq<char>
    decreases parts.len(),
{
    if parts.len() == 0 {
        Seq::empty()
    } else if parts.len() == 1 {
        parts[0]
    } else {
        parts[0] + seq![sep] + joined(parts.skip(1), sep)
    }
}

/// A joined text holds the separator and what its parts hold.
pub proof fn lemma_joined_chars(parts: Seq<Seq<char>>, sep: char, c: char)
    requires
        joined(parts, sep).contains(c),
        c != sep,
    ensures
        exists|i: int| 0 <= i < parts.len() && (#[trigger] parts[i]).contains(c),
    decreases parts.len(),
{
    if parts.len() == 1 {
        assert(parts[0].contains(c));
    } else if parts.len() > 1 {
        let whole = joined(parts, sep);
        let rest = joined(parts.skip(1), sep);
        let k = choose|k: int| 0 <= k < whole.len() && whole[k] == c;
        if k < parts[0].len() {
            assert(parts[0][k] == c);
            assert(parts[0].contains(c));
        } else {
            assert(k > parts[0].len());
            assert(rest[k - parts[0].len() - 1] == c);
            lemma_joined_chars(parts.skip(1), sep, c);
            let i = choose|i: int|
                0 <= i < parts.skip(1).len() && (#[trigger] parts.skip(1)[i]).contains(c);
            assert(parts[i + 1].contains(c));
        }
    }
}

/// Splitting what was joined gives the parts back, where none holds the separator.
pub proof fn lemma_pieces_of_joined(parts: Seq<Seq<char>>, sep: char)
    requires
        parts.len() > 0,
        forall|i: int| 0 <= i < parts.len() ==> !(#[trigger] parts[i]).contains(sep),
    ensures
        pieces(joined(parts, sep), sep) == parts,
    decreases parts.len(),
{
    if parts.len() == 1 {
        lemma_absent(parts[0], sep);
        assert(pieces(joined(parts, sep), sep) =~= parts);
    } else {
        let rest = parts.skip(1);
        assert forall|i: int| 0 <= i < rest.len() implies !(#[trigger] rest[i]).contains(sep) by {
            assert(rest[i] == parts[i + 1]);
        }
        lemma_pieces_of_joined(rest, sep);
        lemma_first_after(parts[0], sep, joined(rest, sep));
        assert(seq![parts[0]] + rest =~= parts);
    }
}

/// The lines, each with a line feed behind it.
pub open spec fn ended_lines(lines: Seq<Seq<char>>) -> Seq<char>
    decreases lines.len(),
{
    if lines.len() == 0 {
        Seq::empty()
    } else {
        lines[0] + seq!['\n'] + ended_lines(lines.skip(1))
    }
}

/// A text that keeps its form as one line: without a line feed, and not ending
/// in a carriage return.
pub open spec fn is_line(s: Seq<char>) -> bool {
    !s.contains('\n') && !(s.len() > 0 && s.last() == '\r')
}

/// Reading lines that were written gives them back.
pub proof fn lemma_lines_of_ended(lines: Seq<Seq<char>>)
    requires
        forall|i: int| 0 <= i < lines.len() ==> is_line(#[trigger] lines[i]),
    ensures
        line_list(ended_lines(lines)) == lines,
    decreases lines.len(),
{
    if lines.len() == 0 {
        assert(line_list(ended_lines(lines)) =~= lines);
    } else {
        let rest = lines.skip(1);
        assert forall|i: int| 0 <= i < rest.len() implies is_line(#[trigger] rest[i]) by {
            assert(rest[i] == lines[i + 1]);
        }
        lemma_lines_of_ended(rest);
        assert(is_line(lines[0]));
        lemma_first_after(lines[0], '\n', ended_lines(rest));
        assert(without_return(lines[0]) == lines[0]);
        assert(seq![lines[0]] + rest =~= lines);
    }
}

/// One more line at the end of a text of lines.
pub proof fn lemma_ended_lines_push(lines: Seq<Seq<char>>, last: Seq<char>)
    ensures
        ended_lines(lines.push(last)) == ended_lines(lines) + last + seq!['\n'],
    decreases lines.len(),
{
    if lines.len() == 0 {
        assert(lines.push(last).skip(1) =~= Seq::<Seq<char>>::empty());
        assert(ended_lines(lines.push(last).skip(1)) =~= Seq::<char>::empty());
        assert(ended_lines(lines.push(last)) =~= ended_lines(lines) + last + seq!['\n']);
    } else {
        lemma_ended_lines_push(lines.skip(1), last);
        assert(lines.push(last).skip(1) =~= lines.skip(1).push(last));
        assert(lines.push(last)[0] == lines[0]);
        assert(ended_lines(lines.push(last)) =~= ended_lines(lines) + last + seq!['\n']);
    }
}

/// What follows a prefix that was put in front.
pub proof fn lemma_own_prefix(p: Seq<char>, v: Seq<char>)
    ensures
        without_prefix(p + v, p) == Some(v),
{
    assert(p =~= (p + v).subrange(0, p.len() as int));
    assert((p + v).skip(p.len() as int) =~= v);
}

/// Two prefixes that differ somewhere do not begin one text.
pub proof fn lemma_other_prefix(p: Seq<char>, v: Seq<char>, q: Seq<char>, k: int)
    requires
        0 <= k < p.len(),
        k < q.len(),
        p[k] != q[k],
    ensures
        without_prefix(p + v, q) is None,
{
    if q.is_prefix_of(p + v) {
        assert((p + v).subrange(0, q.len() as int)[k] == (p + v)[k]);
    }
}

/// The parts, one separator between each two.
pub fn join(parts: &Vec<String>, sep: char) -> (r: String)
    ensures
        r@ == joined(texts(parts@), sep),
{
    let ghost all = texts(parts@);
    if parts.len() == 0 {
        return String::new();
    }
    let mut out = String::new();
    out.append(parts[0].as_str());
    let mut i: usize = 1;
    proof {
        if all.len() == 1 {
            assert(out@ =~= joined(all, sep));
        } else {
            assert(out@ + (seq![sep] + joined(all.skip(1), sep)) =~= joined(all, sep));
        }
    }
    while i < parts.len()
        invariant
            all == texts(parts@),
            1 <= i <= parts@.len(),
            i < parts@.len() ==> joined(all, sep) == out@ + (seq![sep] + joined(
                all.skip(i as int),
                sep,
            )),
            i == parts@.len() ==> joined(all, sep) == out@,
        decreases parts@.len() - i,
    {
        let ghost before = out@;
        out.push(sep);
        out.append(parts[i].as_str());
        proof {
            let tail = all.skip(i as int);
            assert(tail[0] == all[i as int]);
            assert(out@ =~= before + (seq![sep] + tail[0]));
            if i + 1 < parts@.len() {
                assert(tail.skip(1) =~= all.skip(i + 1));
                assert(out@ + (seq![sep] + joined(all.skip(i + 1), sep)) =~= before + (seq![sep]
                    + joined(tail, sep)));
            }
        }
        i += 1;
    }
    out
}

/// `s` with every `from`, taken from the left without overlap, replaced by `to`.
pub open spec fn replaced(s: Seq<char>, from: Seq<char>, to: Seq<char>) -> Seq<char>
    decreases s.len(),
{
    match index_of(s, from) {
        Some(i) => if 0 <= i && i + from.len() <= s.len() && from.len() > 0 {
            s.take(i) + to + replaced(s.skip(i + from.len()), from, to)
        } else {
            s
        },
        None => s,
    }
}

/// `s` with every `from`, taken from the left without overlap, replaced by `to`.
pub fn replace(s: &[char], from: &str, to: &str) -> (r: Vec<char>)
    requires
        from@.len() > 0,
    ensures
        r@ == replaced(s@, from@, to@),
{
    let pat = chars_of(from);
    let put = chars_of(to);
    let mut out: Vec<char> = Vec::new();
    let mut rest: &[char] = s;
    assert(out@ + replaced(rest@, from@, to@) =~= replaced(s@, from@, to@));
    loop
        invariant
            pat@ == from@,
            put@ == to@,
            from@.len() > 0,
            replaced(s@, from@, to@) == out@ + replaced(rest@, from@, to@),
        decreases rest@.len(),
    {
        let ghost before = out@;
        let n: usize = rest.len();
        match find(rest, pat.as_slice()) {
            None => {
                out.extend_from_slice(rest);
                assert(out@ =~= before + rest@);
                return out;
            },
            Some(i) => {
                let part = slice_subrange(rest, 0, i);
                let tail = slice_subrange(rest, i + pat.len(), n);
                assert(part@ =~= rest@.take(i as int));
                assert(tail@ =~= rest@.skip(i + pat@.len()));
                out.extend_from_slice(part);
                out.extend_from_slice(put.as_slice());
                assert(out@ =~= before + part@ + put@);
                assert(before + (part@ + put@ + replaced(tail@, from@, to@)) =~= out@ + replaced(
                    tail@,
                    from@,
                    to@,
                ));
                rest = tail;
            },
        }
    }
}

// ---- Strings ----------------------------------------------------------------

/// `String::push` appends one character.
pub assume_specification[ String::push ](s: &mut String, c: char)
    ensures
        final(s)@ == old(s)@.push(c),
;

/// The characters of a string.
pub fn chars_of(s: &str) -> (r: Vec<char>)
    ensures
        r@ == s@,
{
    let mut out: Vec<char> = Vec::new();
    for c in it: s.chars()
        invariant
            out@ == it.seq().take(it.index() as int),
            it.seq() == s@,
    {
        out.push(c);
    }
    assert(out@ =~= s@);
    out
}

/// The string with the given characters.
pub fn string_of(s: &[char]) -> (r: String)
    ensures
        r@ == s@,
{
    let mut out = String::new();
    let mut i: usize = 0;
    while i < s.len()
        invariant
            i <= s@.len(),
            out@ == s@.take(i as int),
        decreases s@.len() - i,
    {
        out.push(s[i]);
        i += 1;
        assert(s@.take(i as int) =~= s@.take(i - 1).push(s@[i - 1]));
    }
    assert(s@.take(i as int) =~= s@);
    out
}

// ---- Tab-separated pairs ----------------------------------------------------

/// The lines that hold a tab, each cut at its first one; other lines are left out.
pub open spec fn tab_pairs(lines: Seq<Seq<char>>) -> Seq<(Seq<char>, Seq<char>)>
    decreases lines.len(),
{
    if lines.len() == 0 {
        Seq::empty()
    } else {
        match cut(lines[0], seq!['\t']) {
            Some(pair) => seq![pair] + tab_pairs(lines.skip(1)),
            None => tab_pairs(lines.skip(1)),
        }
    }
}

/// A pair as a line, with a tab between its parts.
pub open spec fn pair_line(pair: (Seq<char>, Seq<char>)) -> Seq<char> {
    pair.0 + seq!['\t'] + pair.1
}

pub open spec fn pair_lines(pairs: Seq<(Seq<char>, Seq<char>)>) -> Seq<Seq<char>> {
    Seq::new(pairs.len(), |i: int| pair_line(pairs[i]))
}

/// A pair that keeps its form as a line: no tab in its first part, and one line.
pub open spec fn is_line_pair(pair: (Seq<char>, Seq<char>)) -> bool {
    !pair.0.contains('\t') && is_line(pair_line(pair))
}

proof fn lemma_tab_pairs(pairs: Seq<(Seq<char>, Seq<char>)>)
    requires
        forall|i: int| 0 <= i < pairs.len() ==> !(#[trigger] pairs[i]).0.contains('\t'),
    ensures
        tab_pairs(pair_lines(pairs)) == pairs,
    decreases pairs.len(),
{
    let ls = pair_lines(pairs);
    if pairs.len() == 0 {
        assert(tab_pairs(ls) =~= pairs);
    } else {
        let rest = pairs.skip(1);
        assert forall|i: int| 0 <= i < rest.len() implies !(#[trigger] rest[i]).0.contains(
            '\t',
        ) by {
            assert(rest[i] == pairs[i + 1]);
        }
        lemma_tab_pairs(rest);
        assert(!pairs[0].0.contains('\t'));
        lemma_first_after(pairs[0].0, '\t', pairs[0].1);
        assert(ls.skip(1) =~= pair_lines(rest));
        assert(seq![pairs[0]] + rest =~= pairs);
    }
}

/// Reading pairs that were written as lines gives them back.
pub proof fn law_pairs_round_trip(pairs: Seq<(Seq<char>, Seq<char>)>)
    requires
        forall|i: int| 0 <= i < pairs.len() ==> is_line_pair(#[trigger] pairs[i]),
    ensures
        tab_pairs(line_list(ended_lines(pair_lines(pairs)))) == pairs,
{
    let ls = pair_lines(pairs);
    assert forall|i: int| 0 <= i < ls.len() implies is_line(#[trigger] ls[i]) by {
        assert(is_line_pair(pairs[i]));
    }
    lemma_lines_of_ended(ls);
    lemma_tab_pairs(pairs);
}

/// The pairs that the lines of `s` hold.
pub fn read_pairs(s: &str) -> (r: Vec<(String, String)>)
    ensures
        text_pairs(r@) == tab_pairs(line_list(s@)),
{
    let chars = chars_of(s);
    let all = lines(chars.as_slice());
    let ghost ls = slices(all@);
    let mut out: Vec<(String, String)> = Vec::new();
    let mut i: usize = 0;
    assert(ls.skip(0) =~= ls);
    assert(text_pairs(out@) + tab_pairs(ls) =~= tab_pairs(ls));
    while i < all.len()
        invariant
            i <= all@.len(),
            ls == slices(all@),
            tab_pairs(ls) == text_pairs(out@) + tab_pairs(ls.skip(i as int)),
        decreases all@.len() - i,
    {
        let ghost before = out@;
        assert(ls.skip(i as int)[0] == all@[i as int]@);
        assert(ls.skip(i as int).skip(1) =~= ls.skip(i + 1));
        match split_at_char(all[i], '\t') {
            Some((a, b)) => {
                out.push((string_of(a), string_of(b)));
                assert(text_pairs(out@) =~= text_pairs(before).push((a@, b@)));
                assert(text_pairs(before) + (seq![(a@, b@)] + tab_pairs(ls.skip(i + 1)))
                    =~= text_pairs(out@) + tab_pairs(ls.skip(i + 1)));
            },
            None => {},
        }
        i += 1;
    }
    assert(text_pairs(out@) + tab_pairs(ls.skip(i as int)) =~= text_pairs(out@));
    out
}

/// The pairs as lines, each with a line feed behind it.
pub fn write_pairs(pairs: &[(&str, &str)]) -> (r: String)
    ensures
        r@ == ended_lines(pair_lines(str_pairs(pairs@))),
{
    let ghost ls = pair_lines(str_pairs(pairs@));
    let mut out = String::new();
    let mut i: usize = 0;
    assert(ls.take(0) =~= Seq::<Seq<char>>::empty());
    while i < pairs.len()
        invariant
            i <= pairs@.len(),
            ls == pair_lines(str_pairs(pairs@)),
            out@ == ended_lines(ls.take(i as int)),
        decreases pairs@.len() - i,
    {
        let ghost before = out@;
        out.append(pairs[i].0);
        out.push('\t');
        out.append(pairs[i].1);
        out.push('\n');
        proof {
            lemma_ended_lines_push(ls.take(i as int), ls[i as int]);
            assert(ls.take(i + 1) =~= ls.take(i as int).push(ls[i as int]));
            assert(out@ =~= before + ls[i as int] + seq!['\n']);
        }
        i += 1;
    }
    assert(ls.take(i as int) =~= ls);
    out
}

// ---- What the parts of a text are --------------------------------------------

/// A place of a pattern is one where the text reads as the pattern; the first place is
/// the one before which there is none; where there is none, none is found.
pub proof fn law_find(s: Seq<char>, pat: Seq<char>, i: int)
    requires
        0 <= i <= s.len() - pat.len(),
    ensures
        occurs_at(s, pat, i) <==> s.subrange(i, i + pat.len()) == pat,
        match index_of(s, pat) {
            Some(k) => 0 <= k <= s.len() - pat.len() && s.subrange(k, k + pat.len()) == pat && (
            s.subrange(i, i + pat.len()) == pat ==> k <= i),
            None => s.subrange(i, i + pat.len()) != pat,
        },
{
    lemma_occurs(s, pat, i);
    lemma_index_from(s, pat, 0);
    match index_of(s, pat) {
        Some(k) => lemma_occurs(s, pat, k),
        None => {},
    }
}

proof fn lemma_occurs(s: Seq<char>, pat: Seq<char>, i: int)
    requires
        0 <= i <= s.len() - pat.len(),
    ensures
        occurs_at(s, pat, i) <==> s.subrange(i, i + pat.len()) == pat,
{
    let part = s.subrange(i, i + pat.len());
    if occurs_at(s, pat, i) {
        assert forall|k: int| 0 <= k < pat.len() implies part[k] == pat[k] by {
            assert(s[i + k] == pat[k]);
        }
        assert(part =~= pat);
    }
    if part == pat {
        assert forall|k: int| 0 <= k < pat.len() implies s[i + k] == #[trigger] pat[k] by {
            assert(part[k] == s[i + k]);
        }
    }
}

/// What follows a prefix is what the text has behind it, and only a text that begins
/// with the prefix has such a part.
pub proof fn law_without_prefix(s: Seq<char>, p: Seq<char>, v: Seq<char>)
    ensures
        without_prefix(s, p) == Some(v) <==> s == p + v,
{
    if s == p + v {
        lemma_own_prefix(p, v);
    }
    if without_prefix(s, p) == Some(v) {
        assert(s =~= p + v) by {
            assert forall|k: int| 0 <= k < p.len() implies s[k] == p[k] by {
                assert(s.subrange(0, p.len() as int)[k] == s[k]);
            }
        }
    }
}

/// Cutting a text takes out the first place of the pattern: what is before it and what
/// is behind it make up the text again, and there is none in front.
pub proof fn law_cut(s: Seq<char>, pat: Seq<char>, i: int)
    requires
        0 <= i <= s.len() - pat.len(),
    ensures
        match cut(s, pat) {
            Some((a, b)) => s == a + pat + b && (i < a.len() ==> s.subrange(i, i + pat.len())
                != pat),
            None => s.subrange(i, i + pat.len()) != pat,
        },
{
    law_find(s, pat, i);
    match cut(s, pat) {
        Some((a, b)) => {
            let k = index_of(s, pat)->0;
            assert(s =~= s.take(k) + s.subrange(k, k + pat.len()) + s.skip(k + pat.len()));
        },
        None => {},
    }
}

/// The parts between separators hold none, and make up the text again with separators
/// between them.
pub proof fn law_pieces(s: Seq<char>, sep: char)
    ensures
        pieces(s, sep).len() > 0,
        forall|i: int| 0 <= i < pieces(s, sep).len() ==> !(#[trigger] pieces(s, sep)[i]).contains(sep),
        joined(pieces(s, sep), sep) == s,
    decreases s.len(),
{
    lemma_index_from(s, seq![sep], 0);
    let all = pieces(s, sep);
    match index_of(s, seq![sep]) {
        Some(k) => {
            let a = s.take(k);
            let rest = s.skip(k + 1);
            law_pieces(rest, sep);
            assert(seq![sep][0] == sep);
            assert(s[k + 0] == sep);
            assert(!a.contains(sep)) by {
                assert forall|j: int| 0 <= j < a.len() implies a[j] != sep by {
                    if a[j] == sep {
                        assert(occurs_at(s, seq![sep], j));
                    }
                }
            }
            assert(all == seq![a] + pieces(rest, sep));
            assert forall|i: int| 0 <= i < all.len() implies !(#[trigger] all[i]).contains(sep) by {
                if i > 0 {
                    assert(all[i] == pieces(rest, sep)[i - 1]);
                }
            }
            assert(all.skip(1) =~= pieces(rest, sep));
            assert(s =~= a + seq![sep] + rest);
        },
        None => {
            assert(!s.contains(sep)) by {
                assert forall|j: int| 0 <= j < s.len() implies s[j] != sep by {
                    if s[j] == sep {
                        assert(occurs_at(s, seq![sep], j));
                    }
                }
            }
        },
    }
}

/// Joining puts one separator behind each part but the last.
pub proof fn law_joined(parts: Seq<Seq<char>>, last: Seq<char>, sep: char)
    ensures
        joined(Seq::empty(), sep) == Seq::<char>::empty(),
        joined(parts.push(last), sep) == if parts.len() == 0 {
            last
        } else {
            joined(parts, sep) + seq![sep] + last
        },
    decreases parts.len(),
{
    let all = parts.push(last);
    if parts.len() > 0 {
        law_joined(parts.skip(1), last, sep);
        assert(all.skip(1) =~= parts.skip(1).push(last));
        assert(all[0] == parts[0]);
        assert(joined(all, sep) =~= joined(parts, sep) + seq![sep] + last);
    }
}

/// A line of the input goes up to its first line feed; line and rest make up the input.
pub proof fn law_raw_line(line: Seq<char>, rest: Seq<char>)
    requires
        !line.contains('\n'),
    ensures
        raw_line(line + seq!['\n'] + rest) == line + seq!['\n'],
        after_line(line + seq!['\n'] + rest) == rest,
        raw_line(line) == line,
        after_line(line) == Seq::<char>::empty(),
{
    lemma_first_after(line, '\n', rest);
    assert((line + seq!['\n'] + rest).take(line.len() as int + 1) =~= line + seq!['\n']);
    lemma_absent(line, '\n');
}

/// Lines are read one after the other, each without its line feed and without one carriage
/// return before that; a rest without a line feed is a line as it is, where it is not
/// empty.
pub proof fn law_lines(line: Seq<char>, rest: Seq<char>)
    requires
        !line.contains('\n'),
    ensures
        line_list(line + seq!['\n'] + rest) == seq![
            if line.len() > 0 && line[line.len() - 1] == '\r' {
                line.take(line.len() - 1)
            } else {
                line
            },
        ] + line_list(rest),
        line_list(line) == if line.len() == 0 {
            Seq::empty()
        } else {
            seq![line]
        },
{
    lemma_first_after(line, '\n', rest);
    lemma_absent(line, '\n');
    if line.len() > 0 {
        assert(line.drop_last() =~= line.take(line.len() - 1));
    }
}

/// White space is the characters from the tab to the carriage return, the space, the next
/// line and the no-break space, and beyond Latin-1 the Ogham space mark, the quads and
/// spaces of general punctuation, the separators of lines and paragraphs, and the
/// ideographic space.
pub proof fn law_white(c: char)
    ensures
        is_white(c) <==> seq![
            9int, 10, 11, 12, 13, 32, 133, 160, 5760, 8232, 8233, 8239, 8287, 12288,
        ].contains(c as int) || 8192 <= c as int <= 8202,
{
    let listed = seq![
        9int, 10, 11, 12, 13, 32, 133, 160, 5760, 8232, 8233, 8239, 8287, 12288,
    ];
    assert(listed[0] == 9 && listed[1] == 10 && listed[2] == 11 && listed[3] == 12 && listed[4]
        == 13 && listed[5] == 32 && listed[6] == 133);
    assert(listed[7] == 160 && listed[8] == 5760 && listed[9] == 8232 && listed[10] == 8233
        && listed[11] == 8239 && listed[12] == 8287 && listed[13] == 12288);
    assert(listed.len() == 14);
}

/// White space only.
pub open spec fn all_white(s: Seq<char>) -> bool {
    forall|i: int| 0 <= i < s.len() ==> is_white(#[trigger] s[i])
}

proof fn lemma_trimmed_back(s: Seq<char>) -> (b: Seq<char>)
    ensures
        s == trimmed_back(s) + b,
        all_white(b),
        trimmed_back(s).len() > 0 ==> !is_white(trimmed_back(s).last()),
    decreases s.len(),
{
    if s.len() > 0 && is_white(s.last()) {
        let b = lemma_trimmed_back(s.drop_last());
        assert(s =~= s.drop_last().push(s.last()));
        assert((trimmed_back(s) + b).push(s.last()) =~= trimmed_back(s) + b.push(s.last()));
        b.push(s.last())
    } else {
        assert(s =~= s + Seq::<char>::empty());
        Seq::empty()
    }
}

proof fn lemma_trimmed_front(s: Seq<char>) -> (a: Seq<char>)
    ensures
        s == a + trimmed_front(s),
        all_white(a),
        trimmed_front(s).len() > 0 ==> !is_white(trimmed_front(s)[0]),
    decreases s.len(),
{
    if s.len() > 0 && is_white(s[0]) {
        let a = lemma_trimmed_front(s.skip(1));
        assert(s =~= seq![s[0]] + s.skip(1));
        assert(seq![s[0]] + (a + trimmed_front(s)) =~= (seq![s[0]] + a) + trimmed_front(s));
        seq![s[0]] + a
    } else {
        assert(s =~= Seq::<char>::empty() + s);
        Seq::empty()
    }
}

/// Trimming takes white space off both ends, and all of it.
pub proof fn law_trimmed(s: Seq<char>)
    ensures
        exists|a: Seq<char>, b: Seq<char>|
            #![trigger all_white(a), all_white(b)]
            all_white(a) && all_white(b) && s == a + trimmed(s) + b,
        trimmed(s).len() > 0 ==> !is_white(trimmed(s)[0]) && !is_white(trimmed(s).last()),
{
    let b = lemma_trimmed_back(s);
    let a = lemma_trimmed_front(trimmed_back(s));
    assert(s =~= a + trimmed(s) + b);
    assert(all_white(a) && all_white(b));
    if trimmed(s).len() > 0 {
        assert(trimmed(s).last() == trimmed_back(s).last());
    }
}

/// Carriage returns and line feeds only.
pub open spec fn all_line_end(s: Seq<char>) -> bool {
    forall|i: int| 0 <= i < s.len() ==> #[trigger] s[i] == '\r' || s[i] == '\n'
}

/// Taking the line end off takes the carriage returns and line feeds off the back, and all
/// of them.
pub proof fn law_trimmed_line_end(s: Seq<char>)
    ensures
        exists|b: Seq<char>| #[trigger] all_line_end(b) && s == trimmed_line_end(s) + b,
        trimmed_line_end(s).len() > 0 ==> trimmed_line_end(s).last() != '\r' && trimmed_line_end(
            s,
        ).last() != '\n',
    decreases s.len(),
{
    if s.len() > 0 && (s.last() == '\r' || s.last() == '\n') {
        law_trimmed_line_end(s.drop_last());
        let b = choose|b: Seq<char>| #[trigger]
            all_line_end(b) && s.drop_last() == trimmed_line_end(s.drop_last()) + b;
        assert(all_line_end(b.push(s.last())));
        assert(s =~= s.drop_last().push(s.last()));
        assert((trimmed_line_end(s) + b).push(s.last()) =~= trimmed_line_end(s) + b.push(s.last()));
    } else {
        assert(all_line_end(Seq::<char>::empty()));
        assert(s =~= s + Seq::<char>::empty());
    }
}

/// Two characters are alike up to the case of ASCII letters.
pub open spec fn alike(c: char, d: char) -> bool {
    ||| c == d
    ||| 'A' <= c <= 'Z' && d as int == c as int + 32
    ||| 'A' <= d <= 'Z' && c as int == d as int + 32
}

/// Texts are equal up to case where they are as long as each other and each two characters
/// are alike.
pub proof fn law_ignoring_case(a: Seq<char>, b: Seq<char>)
    ensures
        same_ignoring_case(a, b) <==> a.len() == b.len() && forall|i: int|
            0 <= i < a.len() ==> alike(#[trigger] a[i], b[i]),
{
    if same_ignoring_case(a, b) {
        assert forall|i: int| 0 <= i < a.len() implies alike(#[trigger] a[i], b[i]) by {
            assert(ascii_lower(a[i]) == ascii_lower(b[i]));
            lemma_alike(a[i], b[i]);
        }
    }
    if a.len() == b.len() && forall|i: int| 0 <= i < a.len() ==> alike(#[trigger] a[i], b[i]) {
        assert forall|i: int| 0 <= i < a.len() implies ascii_lower(#[trigger] a[i]) == ascii_lower(
            b[i],
        ) by {
            assert(alike(a[i], b[i]));
            lemma_alike(a[i], b[i]);
        }
    }
}

proof fn lemma_alike(c: char, d: char)
    ensures
        alike(c, d) <==> ascii_lower(c) == ascii_lower(d),
{
}

/// Lines that hold a tab give a pair each, cut at the first tab; other lines give none;
/// and the pairs come in the order of the lines.
pub proof fn law_tab_pairs(lines: Seq<Seq<char>>, name: Seq<char>, value: Seq<char>)
    requires
        !name.contains('\t'),
    ensures
        tab_pairs(Seq::empty()) == Seq::<(Seq<char>, Seq<char>)>::empty(),
        tab_pairs(lines.push(name + seq!['\t'] + value)) == tab_pairs(lines).push((name, value)),
        tab_pairs(lines.push(name)) == tab_pairs(lines),
    decreases lines.len(),
{
    let line = name + seq!['\t'] + value;
    let none = Seq::<Seq<char>>::empty();
    lemma_first_after(name, '\t', value);
    lemma_absent(name, '\t');
    let with = lines.push(line);
    let plain = lines.push(name);
    if lines.len() == 0 {
        assert(with.skip(1) =~= none);
        assert(plain.skip(1) =~= none);
        assert(tab_pairs(none) =~= Seq::<(Seq<char>, Seq<char>)>::empty());
        assert(tab_pairs(with) =~= tab_pairs(lines).push((name, value)));
    } else {
        law_tab_pairs(lines.skip(1), name, value);
        assert(with.skip(1) =~= lines.skip(1).push(line));
        assert(plain.skip(1) =~= lines.skip(1).push(name));
        assert(with[0] == lines[0] && plain[0] == lines[0]);
        assert(tab_pairs(with) =~= tab_pairs(lines).push((name, value)));
        assert(tab_pairs(plain) =~= tab_pairs(lines));
    }
}

/// Pairs are written one line each: the name, a tab, the value and a line feed.
pub proof fn law_pairs_written(
    pairs: Seq<(Seq<char>, Seq<char>)>,
    name: Seq<char>,
    value: Seq<char>,
)
    ensures
        ended_lines(pair_lines(Seq::empty())) == Seq::<char>::empty(),
        ended_lines(pair_lines(pairs.push((name, value)))) == ended_lines(pair_lines(pairs)) + name
            + seq!['\t'] + value + seq!['\n'],
{
    let line = name + seq!['\t'] + value;
    lemma_ended_lines_push(pair_lines(pairs), line);
    assert(pair_lines(pairs.push((name, value))) =~= pair_lines(pairs).push(line));
    assert(pair_lines(Seq::empty()) =~= Seq::<Seq<char>>::empty());
    assert(ended_lines(pair_lines(pairs)) + line + seq!['\n'] =~= ended_lines(pair_lines(pairs))
        + name + seq!['\t'] + value + seq!['\n']);
}

} // verus!
