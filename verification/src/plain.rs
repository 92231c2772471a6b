//! Configurations in plain text: a name and a default value on each line.
use vstd::prelude::*;
use vstd::slice::slice_subrange;

use crate::config::{defs, Config, ConfigModel, DefModel, ParamDef};
use crate::params::valid_def;
use crate::text::{
    all_white, chars_of, ended_lines, is_line, is_white, is_whitespace, lemma_lines_of_ended,
    line_list, lines, slices, string_of, trimmed_front,
};

verus! {

/// First position of white space from `k` on; the length where there is none.
pub open spec fn word_end(s: Seq<char>, k: int) -> int
    decreases s.len() - k,
{
    if k < 0 || k >= s.len() {
        s.len() as int
    } else if is_white(s[k]) {
        k
    } else {
        word_end(s, k + 1)
    }
}

/// The words of a line: what white space separates.
pub open spec fn words(s: Seq<char>) -> Seq<Seq<char>>
    decreases s.len(),
{
    let t = trimmed_front(s);
    let e = word_end(t, 0);
    if t.len() == 0 || t.skip(e).len() >= s.len() {
        Seq::empty()
    } else {
        seq![t.take(e)] + words(t.skip(e))
    }
}

/// A definition that gives no more than a name and a default value.
pub open spec fn simple_def(name: Seq<char>, default: Seq<char>) -> DefModel {
    DefModel {
        name,
        default,
        min: None,
        max: None,
        step: None,
        opts: Seq::empty(),
        prec: None,
        unit: None,
        unit_conv: Seq::empty(),
    }
}

/// The definitions that the lines give, a name and a default value each; blank
/// lines give none. None at all where a line has another number of words.
pub open spec fn text_defs(ls: Seq<Seq<char>>) -> Option<Seq<DefModel>>
    decreases ls.len(),
{
    if ls.len() == 0 {
        Some(Seq::empty())
    } else {
        let w = words(ls[0]);
        match text_defs(ls.skip(1)) {
            None => None,
            Some(more) => if w.len() == 0 {
                Some(more)
            } else if w.len() == 2 {
                Some(seq![simple_def(w[0], w[1])] + more)
            } else {
                None
            },
        }
    }
}

/// The configuration that plain text gives; none where it defines no parameter.
pub open spec fn text_config(src: Seq<char>) -> Option<ConfigModel> {
    match text_defs(line_list(src)) {
        Some(params) => if params.len() > 0 {
            Some(ConfigModel { max_sse_hz: "30"@, params })
        } else {
            None
        },
        None => None,
    }
}

proof fn lemma_trimmed_front_len(s: Seq<char>)
    ensures
        trimmed_front(s).len() <= s.len(),
        trimmed_front(s).len() > 0 ==> !is_white(trimmed_front(s)[0]),
    decreases s.len(),
{
    if s.len() > 0 && is_white(s[0]) {
        lemma_trimmed_front_len(s.skip(1));
    }
}

fn split_words<'a>(s: &'a [char]) -> (r: Vec<&'a [char]>)
    ensures
        slices(r@) == words(s@),
{
    let mut out: Vec<&'a [char]> = Vec::new();
    let mut rest: &'a [char] = s;
    assert(slices(out@) + words(rest@) =~= words(s@));
    loop
        invariant
            words(s@) == slices(out@) + words(rest@),
        decreases rest@.len(),
    {
        let ghost sofar = slices(out@);
        let mut t: &'a [char] = rest;
        while t.len() > 0 && is_whitespace(t[0])
            invariant
                trimmed_front(t@) == trimmed_front(rest@),
            decreases t@.len(),
        {
            let ghost before = t@;
            t = slice_subrange(t, 1, t.len());
            assert(t@ =~= before.skip(1));
        }
        proof {
            lemma_trimmed_front_len(rest@);
        }
        if t.len() == 0 {
            assert(sofar + words(rest@) =~= sofar);
            return out;
        }
        let n: usize = t.len();
        let mut e: usize = 0;
        while e < n && !is_whitespace(t[e])
            invariant
                n == t@.len(),
                e <= n,
                word_end(t@, 0) == word_end(t@, e as int),
            decreases n - e,
        {
            e += 1;
        }
        assert(word_end(t@, 0) == e);
        proof {
            lemma_word_end_positive(t@);
        }
        let word = slice_subrange(t, 0, e);
        let tail = slice_subrange(t, e, n);
        assert(word@ =~= t@.take(e as int));
        assert(tail@ =~= t@.skip(e as int));
        out.push(word);
        assert(slices(out@) =~= sofar.push(word@));
        assert(sofar + (seq![word@] + words(tail@)) =~= slices(out@) + words(tail@));
        rest = tail;
    }
}

proof fn lemma_word_end_from(t: Seq<char>, k: int)
    requires
        0 <= k <= t.len(),
    ensures
        k <= word_end(t, k) <= t.len(),
    decreases t.len() - k,
{
    if k < t.len() && !is_white(t[k]) {
        lemma_word_end_from(t, k + 1);
    }
}

proof fn lemma_word_end_positive(t: Seq<char>)
    requires
        t.len() > 0,
        !is_white(t[0]),
    ensures
        1 <= word_end(t, 0) <= t.len(),
{
    lemma_word_end_from(t, 1);
}

fn simple_param(name: &[char], default: &[char]) -> (r: ParamDef)
    ensures
        r@ == simple_def(name@, default@),
{
    let r = ParamDef {
        name: string_of(name),
        default: string_of(default),
        min: None,
        max: None,
        step: None,
        opts: Vec::new(),
        prec: None,
        unit: None,
        unit_conv: Vec::new(),
    };
    assert(r@ =~= simple_def(name@, default@));
    r
}

/// The configuration that plain text gives.
pub fn parse_text(src: &str) -> (r: Option<Config>)
    ensures
        match r {
            Some(c) => text_config(src@) == Some(c@) && c@.wf(),
            None => text_config(src@) is None,
        },
{
    let chars = chars_of(src);
    let all = lines(chars.as_slice());
    let ghost ls = slices(all@);
    let mut params: Vec<ParamDef> = Vec::new();
    let mut i: usize = 0;
    assert(ls.skip(0) =~= ls);
    proof {
        if text_defs(ls) is Some {
            assert(defs(params@) + text_defs(ls)->0 =~= text_defs(ls)->0);
        }
    }
    while i < all.len()
        invariant
            i <= all@.len(),
            ls == slices(all@),
            ls == line_list(src@),
            text_defs(ls) is Some <==> text_defs(ls.skip(i as int)) is Some,
            text_defs(ls) is Some ==> text_defs(ls)->0 == defs(params@) + text_defs(
                ls.skip(i as int),
            )->0,
            forall|k: int| 0 <= k < params@.len() ==> valid_def(#[trigger] defs(params@)[k]),
        decreases all@.len() - i,
    {
        let ghost sofar = defs(params@);
        let ghost tail = ls.skip(i as int);
        assert(tail[0] == all@[i as int]@);
        assert(tail.skip(1) =~= ls.skip(i + 1));
        let w = split_words(all[i]);
        let ghost ws = slices(w@);
        assert(ws == words(tail[0]));
        assert(ws.len() == w@.len());
        if w.len() == 2 {
            assert(ws[0] == w@[0]@ && ws[1] == w@[1]@);
            let d = simple_param(w[0], w[1]);
            params.push(d);
            proof {
                assert(defs(params@) =~= sofar.push(d@));
                if text_defs(tail.skip(1)) is Some {
                    assert(sofar + (seq![d@] + text_defs(tail.skip(1))->0) =~= defs(params@)
                        + text_defs(tail.skip(1))->0);
                }
                assert forall|k: int| 0 <= k < params@.len() implies valid_def(
                    #[trigger] defs(params@)[k],
                ) by {
                    if k < sofar.len() {
                        assert(defs(params@)[k] == sofar[k]);
                    }
                }
            }
        } else if w.len() != 0 {
            assert(text_defs(tail) is None);
            return None;
        }
        i += 1;
    }
    assert(defs(params@) + text_defs(ls.skip(i as int))->0 =~= defs(params@));
    if params.len() == 0 {
        return None;
    }
    let mut cfg = Config::default();
    cfg.params = params;
    Some(cfg)
}

/// A word: one character at least, and no white space.
pub open spec fn is_word(s: Seq<char>) -> bool {
    s.len() > 0 && forall|i: int| 0 <= i < s.len() ==> !is_white(#[trigger] s[i])
}

/// White space between two words of a line.
pub open spec fn is_gap(s: Seq<char>) -> bool {
    s.len() > 0 && forall|i: int| 0 <= i < s.len() ==> is_white(#[trigger] s[i]) && s[i] != '\n'
}

proof fn lemma_word_end_is(s: Seq<char>, k: int, e: int)
    requires
        0 <= k <= e <= s.len(),
        forall|i: int| k <= i < e ==> !is_white(#[trigger] s[i]),
        e < s.len() ==> is_white(s[e]),
    ensures
        word_end(s, k) == e,
    decreases e - k,
{
    if k < e {
        lemma_word_end_is(s, k + 1, e);
    }
}

proof fn lemma_gap_trimmed(gap: Seq<char>, s: Seq<char>)
    requires
        forall|i: int| 0 <= i < gap.len() ==> is_white(#[trigger] gap[i]),
        s.len() > 0,
        !is_white(s[0]),
    ensures
        trimmed_front(gap + s) == s,
    decreases gap.len(),
{
    if gap.len() == 0 {
        assert(gap + s =~= s);
    } else {
        assert(is_white(gap[0]));
        let rest = gap.skip(1);
        assert forall|i: int| 0 <= i < rest.len() implies is_white(#[trigger] rest[i]) by {
            assert(rest[i] == gap[i + 1]);
        }
        lemma_gap_trimmed(rest, s);
        assert((gap + s).skip(1) =~= rest + s);
    }
}

proof fn lemma_two_words(name: Seq<char>, gap: Seq<char>, default: Seq<char>)
    requires
        is_word(name),
        is_gap(gap),
        is_word(default),
    ensures
        words(name + gap + default) == seq![name, default],
        is_line(name + gap + default),
{
    let s = name + gap + default;
    let n = name.len() as int;
    let none = Seq::<char>::empty();
    assert(!is_white(name[0]));
    assert(!is_white(default[0]));
    assert(s[0] == name[0]);
    assert(trimmed_front(s) == s);
    assert forall|i: int| 0 <= i < n implies !is_white(#[trigger] s[i]) by {
        assert(s[i] == name[i]);
    }
    assert(s[n] == gap[0]);
    lemma_word_end_is(s, 0, n);
    assert(s.take(n) =~= name);
    let tail = s.skip(n);
    assert(tail =~= gap + default);
    lemma_gap_trimmed(gap, default);
    lemma_word_end_is(default, 0, default.len() as int);
    assert(default.take(default.len() as int) =~= default);
    assert(default.skip(default.len() as int) =~= none);
    assert(trimmed_front(none) == none);
    assert(words(none) == Seq::<Seq<char>>::empty());
    assert(words(tail) =~= seq![default]);
    assert(words(s) =~= seq![name, default]);
    assert forall|i: int| 0 <= i < s.len() implies s[i] != '\n' by {
        if n <= i < n + gap.len() {
            assert(gap[i - n] == s[i]);
        } else if i >= n + gap.len() {
            assert(!is_white(default[i - n - gap.len()]));
        }
    }
    assert(s.last() == default.last());
    assert(!is_white(default.last()));
}

/// Lines with a name and a default value each, and a gap between them.
pub open spec fn config_lines(
    pairs: Seq<(Seq<char>, Seq<char>)>,
    gaps: Seq<Seq<char>>,
) -> Seq<Seq<char>> {
    Seq::new(pairs.len(), |i: int| pairs[i].0 + gaps[i] + pairs[i].1)
}

/// Definitions with a name and a default value each.
pub open spec fn simple_defs(pairs: Seq<(Seq<char>, Seq<char>)>) -> Seq<DefModel> {
    Seq::new(pairs.len(), |i: int| simple_def(pairs[i].0, pairs[i].1))
}

proof fn lemma_text_defs(pairs: Seq<(Seq<char>, Seq<char>)>, gaps: Seq<Seq<char>>)
    requires
        pairs.len() == gaps.len(),
        forall|i: int|
            0 <= i < pairs.len() ==> is_word((#[trigger] pairs[i]).0) && is_word(pairs[i].1),
        forall|i: int| 0 <= i < gaps.len() ==> is_gap(#[trigger] gaps[i]),
    ensures
        text_defs(config_lines(pairs, gaps)) == Some(simple_defs(pairs)),
    decreases pairs.len(),
{
    let ls = config_lines(pairs, gaps);
    if pairs.len() == 0 {
        assert(simple_defs(pairs) =~= Seq::<DefModel>::empty());
    } else {
        let rest = pairs.skip(1);
        let others = gaps.skip(1);
        assert forall|i: int| 0 <= i < rest.len() implies is_word((#[trigger] rest[i]).0)
            && is_word(rest[i].1) by {
            assert(rest[i] == pairs[i + 1]);
        }
        assert forall|i: int| 0 <= i < others.len() implies is_gap(#[trigger] others[i]) by {
            assert(others[i] == gaps[i + 1]);
        }
        lemma_text_defs(rest, others);
        assert(is_word(pairs[0].0) && is_word(pairs[0].1) && is_gap(gaps[0]));
        lemma_two_words(pairs[0].0, gaps[0], pairs[0].1);
        assert(ls.skip(1) =~= config_lines(rest, others));
        assert(seq![simple_def(pairs[0].0, pairs[0].1)] + simple_defs(rest) =~= simple_defs(pairs));
    }
}

/// A text with a name and a default value on each line, white space between them,
/// gives one parameter for each line, in their order.
pub proof fn law_text_config(pairs: Seq<(Seq<char>, Seq<char>)>, gaps: Seq<Seq<char>>)
    requires
        pairs.len() > 0,
        pairs.len() == gaps.len(),
        forall|i: int|
            0 <= i < pairs.len() ==> is_word((#[trigger] pairs[i]).0) && is_word(pairs[i].1),
        forall|i: int| 0 <= i < gaps.len() ==> is_gap(#[trigger] gaps[i]),
    ensures
        text_config(ended_lines(config_lines(pairs, gaps))) == Some(
            ConfigModel { max_sse_hz: "30"@, params: simple_defs(pairs) },
        ),
{
    let ls = config_lines(pairs, gaps);
    assert forall|i: int| 0 <= i < ls.len() implies is_line(#[trigger] ls[i]) by {
        assert(is_word(pairs[i].0) && is_word(pairs[i].1) && is_gap(gaps[i]));
        lemma_two_words(pairs[i].0, gaps[i], pairs[i].1);
    }
    lemma_lines_of_ended(ls);
    lemma_text_defs(pairs, gaps);
}

// ---- What plain text gives ---------------------------------------------------

proof fn lemma_white_gone(gap: Seq<char>, s: Seq<char>)
    requires
        all_white(gap),
    ensures
        trimmed_front(gap + s) == trimmed_front(s),
    decreases gap.len(),
{
    if gap.len() == 0 {
        assert(gap + s =~= s);
    } else {
        let rest = gap.skip(1);
        assert(is_white(gap[0]));
        assert forall|i: int| 0 <= i < rest.len() implies is_white(#[trigger] rest[i]) by {
            assert(rest[i] == gap[i + 1]);
        }
        lemma_white_gone(rest, s);
        assert((gap + s).skip(1) =~= rest + s);
    }
}

/// Words are read one after the other: white space in front says nothing, and a word goes
/// up to the next white space, or to the end.
pub proof fn law_words(gap: Seq<char>, word: Seq<char>, c: char, rest: Seq<char>)
    requires
        all_white(gap),
        is_word(word),
        is_white(c),
    ensures
        words(gap) == Seq::<Seq<char>>::empty(),
        words(gap + word) == seq![word],
        words(gap + word + seq![c] + rest) == seq![word] + words(rest),
{
    let none = Seq::<char>::empty();
    lemma_white_gone(gap, none);
    assert(gap + none =~= gap);
    assert(trimmed_front(none) == none);
    assert(words(none) == Seq::<Seq<char>>::empty());
    assert(!is_white(word[0]));
    lemma_white_gone(gap, word);
    assert(trimmed_front(word) == word);
    lemma_word_end_is(word, 0, word.len() as int);
    assert(word.take(word.len() as int) =~= word);
    assert(word.skip(word.len() as int) =~= none);
    assert(words(gap + word) =~= seq![word]);
    let s = word + seq![c] + rest;
    let n = word.len() as int;
    let one = seq![c];
    assert(gap + word + one + rest =~= gap + s);
    lemma_white_gone(gap, s);
    assert(s[0] == word[0]);
    assert(trimmed_front(s) == s);
    assert forall|i: int| 0 <= i < n implies !is_white(#[trigger] s[i]) by {
        assert(s[i] == word[i]);
    }
    lemma_word_end_is(s, 0, n);
    assert(s.take(n) =~= word);
    assert(s.skip(n) =~= one + rest);
    assert(all_white(one));
    lemma_white_gone(one, rest);
    lemma_words_behind_white(one, rest);
}

proof fn lemma_words_behind_white(gap: Seq<char>, s: Seq<char>)
    requires
        all_white(gap),
    ensures
        words(gap + s) == words(s),
{
    lemma_white_gone(gap, s);
    let t = trimmed_front(s);
    let e = word_end(t, 0);
    lemma_trimmed_front_len(s);
    if t.len() > 0 {
        lemma_word_end_positive(t);
    }
}

/// A line with a name and a value gives one more definition, a blank line none; a line with
/// one word, or with three and more, gives no configuration at all, wherever it stands.
pub proof fn law_text_lines(ls: Seq<Seq<char>>, line: Seq<char>)
    ensures
        text_defs(Seq::empty()) == Some(Seq::<DefModel>::empty()),
        text_defs(ls) is None ==> text_defs(ls.push(line)) is None,
        text_defs(ls) is Some ==> text_defs(ls.push(line)) == (if words(line).len() == 0 {
            text_defs(ls)
        } else if words(line).len() == 2 {
            Some(
                (text_defs(ls)->0).push(
                    DefModel {
                        name: words(line)[0],
                        default: words(line)[1],
                        min: None,
                        max: None,
                        step: None,
                        opts: Seq::empty(),
                        prec: None,
                        unit: None,
                        unit_conv: Seq::empty(),
                    },
                ),
            )
        } else {
            None
        }),
    decreases ls.len(),
{
    let all = ls.push(line);
    if ls.len() == 0 {
        assert(all.skip(1) =~= Seq::<Seq<char>>::empty());
        assert(text_defs(all.skip(1)) == Some(Seq::<DefModel>::empty()));
        if words(line).len() == 2 {
            let d = simple_def(words(line)[0], words(line)[1]);
            assert(seq![d] + Seq::<DefModel>::empty() =~= Seq::<DefModel>::empty().push(d));
        }
    } else {
        law_text_lines(ls.skip(1), line);
        assert(all.skip(1) =~= ls.skip(1).push(line));
        assert(all[0] == ls[0]);
        if text_defs(ls) is Some && words(ls[0]).len() == 2 && words(line).len() == 2 {
            let first = seq![simple_def(words(ls[0])[0], words(ls[0])[1])];
            let more = text_defs(ls.skip(1))->0;
            let d = simple_def(words(line)[0], words(line)[1]);
            assert(first + more.push(d) =~= (first + more).push(d));
        }
    }
}

/// Plain text gives a configuration where its lines give definitions, one at least, with
/// thirty events a second.
pub proof fn law_text_config_is(src: Seq<char>)
    ensures
        text_config(src) is Some <==> text_defs(line_list(src)) is Some && (text_defs(
            line_list(src),
        )->0).len() > 0,
        text_config(src) is Some ==> Some((text_config(src)->0).params) == text_defs(line_list(src))
            && (text_config(src)->0).max_sse_hz == seq!['3', '0'],
{
    reveal_strlit("30");
    assert("30"@ =~= seq!['3', '0']);
}

} // verus!
