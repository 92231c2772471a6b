//! Parameter descriptions on the wire: one line per parameter, its name first,
//! then tagged fields, with tabs between them.
use vstd::prelude::*;

use crate::config::{DefModel, ParamDef};
use crate::number::{
    are_digits, decimal, decimal_text, denotes_float, i32_value, is_digit, is_float_char,
    is_float_text, is_float_word, law_float_only, law_float_read, law_i32_only, law_i32_read,
    law_i32_round_trip, law_unsigned_only, law_unsigned_read, law_unsigned_round_trip,
    law_words_are_floats, lemma_float_chars, lemma_signed_decimal_chars, parse_i32, parse_usize,
    run_value, sign_text, signed_decimal, signed_text, unsigned_value, FloatParts,
};
use crate::text::{
    ascii_lower, chars_of, cut, ended_lines, is_line, join, joined, law_joined, law_pieces,
    law_without_prefix, lemma_absent, lemma_first_after, lemma_joined_chars, lemma_lines_of_ended,
    lemma_other_prefix, lemma_own_prefix, lemma_pieces_of_joined, line_list, lines, opt_text,
    pieces, slices, split, split_at_char, string_of, strip_prefix, texts, without_prefix,
};

verus! {

/// Param metadata returned by `Connection::list()`.
///
/// The bounds and the step are kept as the text of a floating-point number.
pub struct ParamInfo {
    pub name: String,
    pub opts: Vec<String>,
    pub prec: Option<usize>,
    pub unit: Option<String>,
    pub unit_conv: Vec<(String, i32)>,
    pub min: Option<String>,
    pub max: Option<String>,
    pub step: Option<String>,
}

/// What a parameter description holds.
#[verifier::ext_equal]
pub struct InfoModel {
    pub name: Seq<char>,
    pub opts: Seq<Seq<char>>,
    pub prec: Option<int>,
    pub unit: Option<Seq<char>>,
    pub unit_conv: Seq<(Seq<char>, int)>,
    pub min: Option<Seq<char>>,
    pub max: Option<Seq<char>>,
    pub step: Option<Seq<char>>,
}

/// The units and their powers of ten.
pub open spec fn conversions(v: Seq<(String, i32)>) -> Seq<(Seq<char>, int)> {
    Seq::new(v.len(), |i: int| (v[i].0@, v[i].1 as int))
}

impl View for ParamInfo {
    type V = InfoModel;

    open spec fn view(&self) -> InfoModel {
        InfoModel {
            name: self.name@,
            opts: texts(self.opts@),
            prec: match self.prec {
                Some(n) => Some(n as int),
                None => None,
            },
            unit: opt_text(self.unit),
            unit_conv: conversions(self.unit_conv@),
            min: opt_text(self.min),
            max: opt_text(self.max),
            step: opt_text(self.step),
        }
    }
}

// ---- Reading a line ---------------------------------------------------------

/// A description that gives no more than the name.
pub open spec fn bare_info(name: Seq<char>) -> InfoModel {
    InfoModel {
        name,
        opts: Seq::empty(),
        prec: None,
        unit: None,
        unit_conv: Seq::empty(),
        min: None,
        max: None,
        step: None,
    }
}

/// The text itself, where it denotes a floating-point number.
pub open spec fn float_field(v: Seq<char>) -> Option<Seq<char>> {
    if is_float_text(v) {
        Some(v)
    } else {
        None
    }
}

/// The conversion that `name=exponent` denotes.
pub open spec fn conversion(part: Seq<char>) -> Option<(Seq<char>, int)> {
    match cut(part, seq!['=']) {
        Some((name, exp)) => match i32_value(exp) {
            Some(e) => Some((name, e)),
            None => None,
        },
        None => None,
    }
}

/// The conversions that the parts denote; a part that denotes none is left out.
pub open spec fn conversion_list(parts: Seq<Seq<char>>) -> Seq<(Seq<char>, int)>
    decreases parts.len(),
{
    if parts.len() == 0 {
        Seq::empty()
    } else {
        match conversion(parts[0]) {
            Some(c) => seq![c] + conversion_list(parts.skip(1)),
            None => conversion_list(parts.skip(1)),
        }
    }
}

/// The description with one more field taken into account. A later field
/// replaces an earlier one with the same tag; conversions add up; a field with
/// an unknown tag says nothing.
pub open spec fn with_field(info: InfoModel, field: Seq<char>) -> InfoModel {
    if without_prefix(field, "opts:"@) is Some {
        InfoModel { opts: pieces(without_prefix(field, "opts:"@)->0, ','), ..info }
    } else if without_prefix(field, "prec:"@) is Some {
        InfoModel {
            prec: unsigned_value(without_prefix(field, "prec:"@)->0, usize::MAX as int),
            ..info
        }
    } else if without_prefix(field, "unit:"@) is Some {
        InfoModel { unit: without_prefix(field, "unit:"@), ..info }
    } else if without_prefix(field, "unit_conv:"@) is Some {
        InfoModel {
            unit_conv: info.unit_conv + conversion_list(
                pieces(without_prefix(field, "unit_conv:"@)->0, ','),
            ),
            ..info
        }
    } else if without_prefix(field, "min:"@) is Some {
        InfoModel { min: float_field(without_prefix(field, "min:"@)->0), ..info }
    } else if without_prefix(field, "max:"@) is Some {
        InfoModel { max: float_field(without_prefix(field, "max:"@)->0), ..info }
    } else if without_prefix(field, "step:"@) is Some {
        InfoModel { step: float_field(without_prefix(field, "step:"@)->0), ..info }
    } else {
        info
    }
}

/// The description with the fields taken into account from the left.
pub open spec fn with_fields(info: InfoModel, fields: Seq<Seq<char>>) -> InfoModel
    decreases fields.len(),
{
    if fields.len() == 0 {
        info
    } else {
        with_fields(with_field(info, fields[0]), fields.skip(1))
    }
}

/// The description that a line gives; none without a name.
pub open spec fn line_info(line: Seq<char>) -> Option<InfoModel> {
    let fields = pieces(line, '\t');
    if fields[0].len() == 0 {
        None
    } else {
        Some(with_fields(bare_info(fields[0]), fields.skip(1)))
    }
}

/// The text itself, where it denotes a floating-point number.
fn read_float(v: &[char]) -> (r: Option<String>)
    ensures
        opt_text(r) == float_field(v@),
{
    if denotes_float(v) {
        Some(string_of(v))
    } else {
        None
    }
}

/// The strings that the parts hold.
fn strings_of(parts: &Vec<&[char]>) -> (r: Vec<String>)
    ensures
        texts(r@) == slices(parts@),
{
    let mut out: Vec<String> = Vec::new();
    let mut i: usize = 0;
    while i < parts.len()
        invariant
            i <= parts@.len(),
            texts(out@) == slices(parts@).take(i as int),
        decreases parts@.len() - i,
    {
        let ghost before = out@;
        let s = string_of(parts[i]);
        out.push(s);
        assert(texts(out@) =~= texts(before).push(s@));
        assert(slices(parts@).take(i + 1) =~= slices(parts@).take(i as int).push(parts@[i as int]@));
        i += 1;
    }
    assert(slices(parts@).take(i as int) =~= slices(parts@));
    out
}

/// Appends the conversions that the parts denote.
fn read_conversions(parts: &Vec<&[char]>, out: &mut Vec<(String, i32)>)
    ensures
        conversions(final(out)@) == conversions(old(out)@) + conversion_list(slices(parts@)),
{
    let ghost all = slices(parts@);
    let mut i: usize = 0;
    assert(all.skip(0) =~= all);
    while i < parts.len()
        invariant
            i <= parts@.len(),
            all == slices(parts@),
            conversions(old(out)@) + conversion_list(all) == conversions(out@) + conversion_list(
                all.skip(i as int),
            ),
        decreases parts@.len() - i,
    {
        let ghost before = out@;
        assert(all.skip(i as int)[0] == parts@[i as int]@);
        assert(all.skip(i as int).skip(1) =~= all.skip(i + 1));
        match split_at_char(parts[i], '=') {
            Some((name, exp)) => match parse_i32(exp) {
                Some(e) => {
                    out.push((string_of(name), e));
                    assert(conversions(out@) =~= conversions(before).push((name@, e as int)));
                    assert(conversions(before) + (seq![(name@, e as int)] + conversion_list(
                        all.skip(i + 1),
                    )) =~= conversions(out@) + conversion_list(all.skip(i + 1)));
                },
                None => {},
            },
            None => {},
        }
        i += 1;
    }
    assert(conversions(out@) + conversion_list(all.skip(i as int)) =~= conversions(out@));
}

/// Takes one more field into account.
fn read_field(info: &mut ParamInfo, field: &[char])
    ensures
        final(info)@ == with_field(old(info)@, field@),
{
    if let Some(v) = strip_prefix(field, "opts:") {
        let parts = split(v, ',');
        info.opts = strings_of(&parts);
    } else if let Some(v) = strip_prefix(field, "prec:") {
        info.prec = parse_usize(v);
    } else if let Some(v) = strip_prefix(field, "unit:") {
        info.unit = Some(string_of(v));
    } else if let Some(v) = strip_prefix(field, "unit_conv:") {
        let parts = split(v, ',');
        read_conversions(&parts, &mut info.unit_conv);
    } else if let Some(v) = strip_prefix(field, "min:") {
        info.min = read_float(v);
    } else if let Some(v) = strip_prefix(field, "max:") {
        info.max = read_float(v);
    } else if let Some(v) = strip_prefix(field, "step:") {
        info.step = read_float(v);
    }
}

/// Parse a single `/params` response line into a `ParamInfo`.
pub fn parse_param_line(line: &str) -> (r: Option<ParamInfo>)
    ensures
        match r {
            Some(info) => line_info(line@) == Some(info@),
            None => line_info(line@) is None,
        },
{
    let chars = chars_of(line);
    let fields = split(chars.as_slice(), '\t');
    let ghost all = slices(fields@);
    assert(all.len() > 0);
    assert(all[0] == fields@[0]@);
    let name = string_of(fields[0]);
    if fields[0].len() == 0 {
        return None;
    }
    let mut info = ParamInfo {
        name,
        opts: Vec::new(),
        prec: None,
        unit: None,
        unit_conv: Vec::new(),
        min: None,
        max: None,
        step: None,
    };
    assert(info@ =~= bare_info(all[0]));
    let mut i: usize = 1;
    while i < fields.len()
        invariant
            1 <= i <= fields@.len(),
            all == slices(fields@),
            with_fields(bare_info(all[0]), all.skip(1)) == with_fields(info@, all.skip(i as int)),
        decreases fields@.len() - i,
    {
        assert(all.skip(i as int)[0] == fields@[i as int]@);
        assert(all.skip(i as int).skip(1) =~= all.skip(i + 1));
        read_field(&mut info, fields[i]);
        i += 1;
    }
    Some(info)
}

/// The descriptions that the lines give; a line that gives none is left out.
pub open spec fn info_list(lines: Seq<Seq<char>>) -> Seq<InfoModel>
    decreases lines.len(),
{
    if lines.len() == 0 {
        Seq::empty()
    } else {
        match line_info(lines[0]) {
            Some(info) => seq![info] + info_list(lines.skip(1)),
            None => info_list(lines.skip(1)),
        }
    }
}

/// What a list of descriptions holds.
pub open spec fn infos(v: Seq<ParamInfo>) -> Seq<InfoModel> {
    Seq::new(v.len(), |i: int| v[i]@)
}

/// The descriptions that the lines of `body` give.
pub fn parse_param_lines(body: &str) -> (r: Vec<ParamInfo>)
    ensures
        infos(r@) == info_list(line_list(body@)),
{
    let chars = chars_of(body);
    let all = lines(chars.as_slice());
    let ghost ls = slices(all@);
    let mut out: Vec<ParamInfo> = Vec::new();
    let mut i: usize = 0;
    assert(ls.skip(0) =~= ls);
    assert(infos(out@) + info_list(ls) =~= info_list(ls));
    while i < all.len()
        invariant
            i <= all@.len(),
            ls == slices(all@),
            info_list(ls) == infos(out@) + info_list(ls.skip(i as int)),
        decreases all@.len() - i,
    {
        let ghost before = out@;
        assert(ls.skip(i as int)[0] == all@[i as int]@);
        assert(ls.skip(i as int).skip(1) =~= ls.skip(i + 1));
        let line = string_of(all[i]);
        match parse_param_line(line.as_str()) {
            Some(info) => {
                out.push(info);
                assert(infos(out@) =~= infos(before).push(info@));
                assert(infos(before) + (seq![info@] + info_list(ls.skip(i + 1))) =~= infos(out@)
                    + info_list(ls.skip(i + 1)));
            },
            None => {},
        }
        i += 1;
    }
    assert(infos(out@) + info_list(ls.skip(i as int)) =~= infos(out@));
    out
}

// ---- Writing a line ---------------------------------------------------------

/// The field with the given tag, where there is a value.
pub open spec fn tagged(tag: Seq<char>, v: Option<Seq<char>>) -> Seq<Seq<char>> {
    match v {
        Some(x) => seq![tag + x],
        None => Seq::empty(),
    }
}

/// The parts with commas between them, where there is any.
pub open spec fn comma_list(parts: Seq<Seq<char>>) -> Option<Seq<char>> {
    if parts.len() == 0 {
        None
    } else {
        Some(joined(parts, ','))
    }
}

/// A conversion as `name=exponent`.
pub open spec fn conversion_text(c: (Seq<char>, int)) -> Seq<char> {
    c.0 + seq!['='] + signed_decimal(c.1)
}

pub open spec fn conversion_texts(cs: Seq<(Seq<char>, int)>) -> Seq<Seq<char>> {
    Seq::new(cs.len(), |i: int| conversion_text(cs[i]))
}

pub open spec fn prec_text(prec: Option<int>) -> Option<Seq<char>> {
    match prec {
        Some(n) => Some(decimal(n)),
        None => None,
    }
}

/// The fields that describe a parameter whose current unit is `unit`.
pub open spec fn param_fields(def: DefModel, unit: Option<Seq<char>>) -> Seq<Seq<char>> {
    seq![def.name] + tagged("opts:"@, comma_list(def.opts)) + tagged("prec:"@, prec_text(def.prec))
        + tagged("unit:"@, unit) + tagged(
        "unit_conv:"@,
        comma_list(conversion_texts(def.unit_conv)),
    ) + tagged("min:"@, def.min) + tagged("max:"@, def.max) + tagged("step:"@, def.step)
}

/// The line that describes a parameter whose current unit is `unit`.
pub open spec fn param_line(def: DefModel, unit: Option<Seq<char>>) -> Seq<char> {
    joined(param_fields(def, unit), '\t')
}

/// The lines that describe the parameters, in their order.
pub open spec fn param_lines(ds: Seq<DefModel>, units: Seq<Option<Seq<char>>>) -> Seq<Seq<char>> {
    Seq::new(ds.len(), |i: int| param_line(ds[i], units[i]))
}

fn push_tagged(fields: &mut Vec<String>, tag: &str, v: &str)
    ensures
        texts(final(fields)@) == texts(old(fields)@) + tagged(tag@, Some(v@)),
{
    let mut s = String::new();
    s.append(tag);
    s.append(v);
    assert(s@ =~= tag@ + v@);
    fields.push(s);
    assert(texts(fields@) =~= texts(old(fields)@) + tagged(tag@, Some(v@)));
}

fn push_optional(fields: &mut Vec<String>, tag: &str, v: &Option<String>)
    ensures
        texts(final(fields)@) == texts(old(fields)@) + tagged(tag@, opt_text(*v)),
{
    match v {
        Some(s) => push_tagged(fields, tag, s.as_str()),
        None => {
            assert(texts(fields@) =~= texts(fields@) + tagged(tag@, None));
        },
    }
}

fn push_list(fields: &mut Vec<String>, tag: &str, parts: &Vec<String>)
    ensures
        texts(final(fields)@) == texts(old(fields)@) + tagged(tag@, comma_list(texts(parts@))),
{
    if parts.len() > 0 {
        let list = join(parts, ',');
        push_tagged(fields, tag, list.as_str());
    } else {
        assert(texts(fields@) =~= texts(fields@) + tagged(tag@, None));
    }
}

fn write_conversions(cs: &Vec<(String, i32)>) -> (r: Vec<String>)
    ensures
        texts(r@) == conversion_texts(conversions(cs@)),
{
    let ghost all = conversion_texts(conversions(cs@));
    let mut out: Vec<String> = Vec::new();
    let mut i: usize = 0;
    while i < cs.len()
        invariant
            i <= cs@.len(),
            all == conversion_texts(conversions(cs@)),
            texts(out@) == all.take(i as int),
        decreases cs@.len() - i,
    {
        let ghost before = out@;
        let mut s = String::new();
        s.append(cs[i].0.as_str());
        s.push('=');
        let exp = signed_text(cs[i].1 as i64);
        s.append(exp.as_str());
        assert(s@ =~= all[i as int]);
        out.push(s);
        assert(texts(out@) =~= texts(before).push(s@));
        assert(all.take(i + 1) =~= all.take(i as int).push(all[i as int]));
        i += 1;
    }
    assert(all.take(i as int) =~= all);
    out
}

/// The line that describes a parameter whose current unit is `unit`.
pub fn write_param_line(def: &ParamDef, unit: &Option<String>) -> (r: String)
    ensures
        r@ == param_line(def@, opt_text(*unit)),
{
    let mut fields: Vec<String> = Vec::new();
    fields.push(def.name.clone());
    assert(texts(fields@) =~= seq![def@.name]);
    push_list(&mut fields, "opts:", &def.opts);
    match def.prec {
        Some(n) => {
            let digits = decimal_text(n as u64);
            push_tagged(&mut fields, "prec:", digits.as_str());
        },
        None => {
            assert(texts(fields@) =~= texts(fields@) + tagged("prec:"@, None));
        },
    }
    push_optional(&mut fields, "unit:", unit);
    let cs = write_conversions(&def.unit_conv);
    push_list(&mut fields, "unit_conv:", &cs);
    push_optional(&mut fields, "min:", &def.min);
    push_optional(&mut fields, "max:", &def.max);
    push_optional(&mut fields, "step:", &def.step);
    join(&fields, '\t')
}

// ---- What is read back ------------------------------------------------------

/// The description that a client is meant to get of a parameter.
pub open spec fn info_of(def: DefModel, unit: Option<Seq<char>>) -> InfoModel {
    InfoModel {
        name: def.name,
        opts: def.opts,
        prec: def.prec,
        unit,
        unit_conv: def.unit_conv,
        min: def.min,
        max: def.max,
        step: def.step,
    }
}

/// The numbers of a definition are such as its type allows.
pub open spec fn valid_def(def: DefModel) -> bool {
    &&& match def.prec {
        Some(n) => 0 <= n <= usize::MAX,
        None => true,
    }
    &&& forall|i: int|
        0 <= i < def.unit_conv.len() ==> i32::MIN <= (#[trigger] def.unit_conv[i]).1 <= i32::MAX
    &&& def.min is Some ==> is_float_text(def.min->0)
    &&& def.max is Some ==> is_float_text(def.max->0)
    &&& def.step is Some ==> is_float_text(def.step->0)
}

/// No part of a definition holds one of the separators that stand around it.
pub open spec fn separable(def: DefModel, unit: Option<Seq<char>>) -> bool {
    &&& def.name.len() > 0 && !def.name.contains('\t')
    &&& forall|i: int|
        0 <= i < def.opts.len() ==> !(#[trigger] def.opts[i]).contains('\t')
            && !def.opts[i].contains(',')
    &&& unit is Some ==> !(unit->0).contains('\t')
    &&& forall|i: int|
        0 <= i < def.unit_conv.len() ==> !(#[trigger] def.unit_conv[i]).0.contains('\t')
            && !def.unit_conv[i].0.contains(',') && !def.unit_conv[i].0.contains('=')
}

proof fn lemma_with_fields_concat(info: InfoModel, a: Seq<Seq<char>>, b: Seq<Seq<char>>)
    ensures
        with_fields(info, a + b) == with_fields(with_fields(info, a), b),
    decreases a.len(),
{
    if a.len() == 0 {
        assert(a + b =~= b);
    } else {
        assert((a + b).skip(1) =~= a.skip(1) + b);
        assert((a + b)[0] == a[0]);
        lemma_with_fields_concat(with_field(info, a[0]), a.skip(1), b);
    }
}

proof fn lemma_one_field(info: InfoModel, field: Seq<char>)
    ensures
        with_fields(info, seq![field]) == with_field(info, field),
{
    assert(seq![field].skip(1) =~= Seq::<Seq<char>>::empty());
    assert(seq![field][0] == field);
    assert(with_fields(with_field(info, field), Seq::<Seq<char>>::empty()) == with_field(
        info,
        field,
    ));
}

proof fn lemma_tags()
    ensures
        "opts:"@ == seq!['o', 'p', 't', 's', ':'],
        "prec:"@ == seq!['p', 'r', 'e', 'c', ':'],
        "unit:"@ == seq!['u', 'n', 'i', 't', ':'],
        "unit_conv:"@ == seq!['u', 'n', 'i', 't', '_', 'c', 'o', 'n', 'v', ':'],
        "min:"@ == seq!['m', 'i', 'n', ':'],
        "max:"@ == seq!['m', 'a', 'x', ':'],
        "step:"@ == seq!['s', 't', 'e', 'p', ':'],
{
    reveal_strlit("opts:");
    reveal_strlit("prec:");
    reveal_strlit("unit:");
    reveal_strlit("unit_conv:");
    reveal_strlit("min:");
    reveal_strlit("max:");
    reveal_strlit("step:");
    assert("opts:"@ =~= seq!['o', 'p', 't', 's', ':']);
    assert("prec:"@ =~= seq!['p', 'r', 'e', 'c', ':']);
    assert("unit:"@ =~= seq!['u', 'n', 'i', 't', ':']);
    assert("unit_conv:"@ =~= seq!['u', 'n', 'i', 't', '_', 'c', 'o', 'n', 'v', ':']);
    assert("min:"@ =~= seq!['m', 'i', 'n', ':']);
    assert("max:"@ =~= seq!['m', 'a', 'x', ':']);
    assert("step:"@ =~= seq!['s', 't', 'e', 'p', ':']);
}

proof fn lemma_opts_field(info: InfoModel, v: Seq<char>)
    ensures
        with_field(info, "opts:"@ + v) == (InfoModel { opts: pieces(v, ','), ..info }),
{
    lemma_own_prefix("opts:"@, v);
}

proof fn lemma_prec_field(info: InfoModel, v: Seq<char>)
    ensures
        with_field(info, "prec:"@ + v) == (InfoModel {
            prec: unsigned_value(v, usize::MAX as int),
            ..info
        }),
{
    lemma_tags();
    lemma_own_prefix("prec:"@, v);
    lemma_other_prefix("prec:"@, v, "opts:"@, 0);
}

proof fn lemma_unit_field(info: InfoModel, v: Seq<char>)
    ensures
        with_field(info, "unit:"@ + v) == (InfoModel { unit: Some(v), ..info }),
{
    lemma_tags();
    lemma_own_prefix("unit:"@, v);
    lemma_other_prefix("unit:"@, v, "opts:"@, 0);
    lemma_other_prefix("unit:"@, v, "prec:"@, 0);
}

proof fn lemma_unit_conv_field(info: InfoModel, v: Seq<char>)
    ensures
        with_field(info, "unit_conv:"@ + v) == (InfoModel {
            unit_conv: info.unit_conv + conversion_list(pieces(v, ',')),
            ..info
        }),
{
    lemma_tags();
    lemma_own_prefix("unit_conv:"@, v);
    lemma_other_prefix("unit_conv:"@, v, "opts:"@, 0);
    lemma_other_prefix("unit_conv:"@, v, "prec:"@, 0);
    lemma_other_prefix("unit_conv:"@, v, "unit:"@, 4);
}

proof fn lemma_min_field(info: InfoModel, v: Seq<char>)
    ensures
        with_field(info, "min:"@ + v) == (InfoModel { min: float_field(v), ..info }),
{
    lemma_tags();
    lemma_own_prefix("min:"@, v);
    lemma_other_prefix("min:"@, v, "opts:"@, 0);
    lemma_other_prefix("min:"@, v, "prec:"@, 0);
    lemma_other_prefix("min:"@, v, "unit:"@, 0);
    lemma_other_prefix("min:"@, v, "unit_conv:"@, 0);
}

proof fn lemma_max_field(info: InfoModel, v: Seq<char>)
    ensures
        with_field(info, "max:"@ + v) == (InfoModel { max: float_field(v), ..info }),
{
    lemma_tags();
    lemma_own_prefix("max:"@, v);
    lemma_other_prefix("max:"@, v, "opts:"@, 0);
    lemma_other_prefix("max:"@, v, "prec:"@, 0);
    lemma_other_prefix("max:"@, v, "unit:"@, 0);
    lemma_other_prefix("max:"@, v, "unit_conv:"@, 0);
    lemma_other_prefix("max:"@, v, "min:"@, 1);
}

proof fn lemma_step_field(info: InfoModel, v: Seq<char>)
    ensures
        with_field(info, "step:"@ + v) == (InfoModel { step: float_field(v), ..info }),
{
    lemma_tags();
    lemma_own_prefix("step:"@, v);
    lemma_other_prefix("step:"@, v, "opts:"@, 0);
    lemma_other_prefix("step:"@, v, "prec:"@, 0);
    lemma_other_prefix("step:"@, v, "unit:"@, 0);
    lemma_other_prefix("step:"@, v, "unit_conv:"@, 0);
    lemma_other_prefix("step:"@, v, "min:"@, 0);
    lemma_other_prefix("step:"@, v, "max:"@, 0);
}

proof fn lemma_conversion_text(c: (Seq<char>, int))
    requires
        i32::MIN <= c.1 <= i32::MAX,
        !c.0.contains('='),
    ensures
        conversion(conversion_text(c)) == Some(c),
{
    lemma_first_after(c.0, '=', signed_decimal(c.1));
    law_i32_round_trip(c.1);
}

proof fn lemma_conversion_list(cs: Seq<(Seq<char>, int)>)
    requires
        forall|i: int|
            0 <= i < cs.len() ==> i32::MIN <= (#[trigger] cs[i]).1 <= i32::MAX
                && !cs[i].0.contains('='),
    ensures
        conversion_list(conversion_texts(cs)) == cs,
    decreases cs.len(),
{
    let ts = conversion_texts(cs);
    if cs.len() == 0 {
        assert(conversion_list(ts) =~= cs);
    } else {
        let rest = cs.skip(1);
        assert forall|i: int| 0 <= i < rest.len() implies i32::MIN <= (#[trigger] rest[i]).1
            <= i32::MAX && !rest[i].0.contains('=') by {
            assert(rest[i] == cs[i + 1]);
        }
        lemma_conversion_list(rest);
        assert(cs[0].1 <= i32::MAX);
        lemma_conversion_text(cs[0]);
        assert(ts.skip(1) =~= conversion_texts(rest));
        assert(seq![cs[0]] + rest =~= cs);
    }
}

/// A conversion text holds no character that its name does not hold, but for
/// digits, the minus sign and the equals sign.
proof fn lemma_conversion_chars(c: (Seq<char>, int), x: char)
    requires
        conversion_text(c).contains(x),
        !c.0.contains(x),
    ensures
        x == '=' || x == '-' || is_digit(x),
{
    let s = conversion_text(c);
    let d = signed_decimal(c.1);
    lemma_signed_decimal_chars(c.1);
    let k = choose|k: int| 0 <= k < s.len() && s[k] == x;
    if k < c.0.len() {
        assert(c.0[k] == x);
    } else if k > c.0.len() {
        assert(d[k - c.0.len() - 1] == x);
    }
}

/// No part holds the character `c`.
pub open spec fn none_holds(parts: Seq<Seq<char>>, c: char) -> bool {
    forall|i: int| 0 <= i < parts.len() ==> !(#[trigger] parts[i]).contains(c)
}

proof fn lemma_none_holds_concat(a: Seq<Seq<char>>, b: Seq<Seq<char>>, c: char)
    requires
        none_holds(a, c),
        none_holds(b, c),
    ensures
        none_holds(a + b, c),
{
    assert forall|i: int| 0 <= i < (a + b).len() implies !(#[trigger] (a + b)[i]).contains(c) by {
        if i < a.len() {
            assert((a + b)[i] == a[i]);
        } else {
            assert((a + b)[i] == b[i - a.len()]);
        }
    }
}

/// A tagged field holds what its tag and its value hold.
proof fn lemma_tagged_holds(tag: Seq<char>, v: Option<Seq<char>>, c: char)
    requires
        !tag.contains(c),
        v is Some ==> !(v->0).contains(c),
    ensures
        none_holds(tagged(tag, v), c),
{
    match v {
        Some(x) => {
            let s = tag + x;
            assert forall|i: int| 0 <= i < s.len() implies s[i] != c by {
                if i < tag.len() {
                    assert(s[i] == tag[i]);
                } else {
                    assert(s[i] == x[i - tag.len()]);
                }
            }
            assert(tagged(tag, v)[0] == s);
        },
        None => {},
    }
}

/// A list holds what its parts hold, and commas.
proof fn lemma_comma_list_holds(parts: Seq<Seq<char>>, c: char)
    requires
        none_holds(parts, c),
        c != ',',
    ensures
        comma_list(parts) is Some ==> !(comma_list(parts)->0).contains(c),
{
    if parts.len() > 0 && joined(parts, ',').contains(c) {
        lemma_joined_chars(parts, ',', c);
    }
}

/// A tab, a line feed or a carriage return.
pub open spec fn is_control(c: char) -> bool {
    c == '\t' || c == '\n' || c == '\r'
}

proof fn lemma_float_holds(v: Option<Seq<char>>, c: char)
    requires
        v is Some ==> is_float_text(v->0),
        is_control(c),
    ensures
        v is Some ==> !(v->0).contains(c),
{
    if v is Some {
        lemma_float_chars(v->0);
        if (v->0).contains(c) {
            let k = choose|k: int| 0 <= k < (v->0).len() && (v->0)[k] == c;
            assert(is_float_char(ascii_lower((v->0)[k])));
        }
    }
}

/// The fields of a description hold a control character only where the name, an
/// option, the unit or a conversion's name holds it.
proof fn lemma_fields_hold(def: DefModel, unit: Option<Seq<char>>, c: char)
    requires
        valid_def(def),
        is_control(c),
        !def.name.contains(c),
        none_holds(def.opts, c),
        unit is Some ==> !(unit->0).contains(c),
        forall|i: int|
            0 <= i < def.unit_conv.len() ==> !(#[trigger] def.unit_conv[i]).0.contains(c),
    ensures
        none_holds(param_fields(def, unit), c),
{
    lemma_tags();
    let cts = conversion_texts(def.unit_conv);
    assert(none_holds(cts, c)) by {
        assert forall|i: int| 0 <= i < cts.len() implies !(#[trigger] cts[i]).contains(c) by {
            if cts[i].contains(c) {
                lemma_conversion_chars(def.unit_conv[i], c);
            }
        }
    }
    lemma_comma_list_holds(def.opts, c);
    lemma_comma_list_holds(cts, c);
    if def.prec is Some {
        lemma_signed_decimal_chars(def.prec->0);
        if decimal(def.prec->0).contains(c) {
            let k = choose|k: int|
                0 <= k < decimal(def.prec->0).len() && decimal(def.prec->0)[k] == c;
            assert(signed_decimal(def.prec->0)[k] == c);
        }
    }
    lemma_float_holds(def.min, c);
    lemma_float_holds(def.max, c);
    lemma_float_holds(def.step, c);
    let f1 = tagged("opts:"@, comma_list(def.opts));
    let f2 = tagged("prec:"@, prec_text(def.prec));
    let f3 = tagged("unit:"@, unit);
    let f4 = tagged("unit_conv:"@, comma_list(cts));
    let f5 = tagged("min:"@, def.min);
    let f6 = tagged("max:"@, def.max);
    let f7 = tagged("step:"@, def.step);
    lemma_tagged_holds("opts:"@, comma_list(def.opts), c);
    lemma_tagged_holds("prec:"@, prec_text(def.prec), c);
    lemma_tagged_holds("unit:"@, unit, c);
    lemma_tagged_holds("unit_conv:"@, comma_list(cts), c);
    lemma_tagged_holds("min:"@, def.min, c);
    lemma_tagged_holds("max:"@, def.max, c);
    lemma_tagged_holds("step:"@, def.step, c);
    let f0 = seq![def.name];
    lemma_none_holds_concat(f0, f1, c);
    lemma_none_holds_concat(f0 + f1, f2, c);
    lemma_none_holds_concat(f0 + f1 + f2, f3, c);
    lemma_none_holds_concat(f0 + f1 + f2 + f3, f4, c);
    lemma_none_holds_concat(f0 + f1 + f2 + f3 + f4, f5, c);
    lemma_none_holds_concat(f0 + f1 + f2 + f3 + f4 + f5, f6, c);
    lemma_none_holds_concat(f0 + f1 + f2 + f3 + f4 + f5 + f6, f7, c);
}

proof fn lemma_read_opts(info: InfoModel, opts: Seq<Seq<char>>)
    requires
        none_holds(opts, ','),
        info.opts.len() == 0,
    ensures
        with_fields(info, tagged("opts:"@, comma_list(opts))) == (InfoModel { opts, ..info }),
{
    if opts.len() > 0 {
        let v = joined(opts, ',');
        lemma_one_field(info, "opts:"@ + v);
        lemma_opts_field(info, v);
        lemma_pieces_of_joined(opts, ',');
    } else {
        assert(opts =~= info.opts);
    }
}

proof fn lemma_read_prec(info: InfoModel, prec: Option<int>)
    requires
        prec is Some ==> 0 <= prec->0 <= usize::MAX,
        info.prec is None,
    ensures
        with_fields(info, tagged("prec:"@, prec_text(prec))) == (InfoModel { prec, ..info }),
{
    if prec is Some {
        lemma_one_field(info, "prec:"@ + decimal(prec->0));
        lemma_prec_field(info, decimal(prec->0));
        law_unsigned_round_trip(prec->0, usize::MAX as int);
    }
}

proof fn lemma_read_unit(info: InfoModel, unit: Option<Seq<char>>)
    requires
        info.unit is None,
    ensures
        with_fields(info, tagged("unit:"@, unit)) == (InfoModel { unit, ..info }),
{
    if unit is Some {
        lemma_one_field(info, "unit:"@ + unit->0);
        lemma_unit_field(info, unit->0);
    }
}

proof fn lemma_read_unit_conv(info: InfoModel, unit_conv: Seq<(Seq<char>, int)>)
    requires
        forall|i: int|
            0 <= i < unit_conv.len() ==> i32::MIN <= (#[trigger] unit_conv[i]).1 <= i32::MAX
                && !unit_conv[i].0.contains('=') && !unit_conv[i].0.contains(','),
        info.unit_conv.len() == 0,
    ensures
        with_fields(info, tagged("unit_conv:"@, comma_list(conversion_texts(unit_conv)))) == (
        InfoModel { unit_conv, ..info }),
{
    let cts = conversion_texts(unit_conv);
    if unit_conv.len() > 0 {
        let v = joined(cts, ',');
        lemma_one_field(info, "unit_conv:"@ + v);
        lemma_unit_conv_field(info, v);
        assert forall|i: int| 0 <= i < cts.len() implies !(#[trigger] cts[i]).contains(',') by {
            if cts[i].contains(',') {
                assert(!unit_conv[i].0.contains(','));
                lemma_conversion_chars(unit_conv[i], ',');
            }
        }
        lemma_pieces_of_joined(cts, ',');
        lemma_conversion_list(unit_conv);
        assert(info.unit_conv + unit_conv =~= unit_conv);
    } else {
        assert(unit_conv =~= info.unit_conv);
    }
}

proof fn lemma_read_min(info: InfoModel, min: Option<Seq<char>>)
    requires
        min is Some ==> is_float_text(min->0),
        info.min is None,
    ensures
        with_fields(info, tagged("min:"@, min)) == (InfoModel { min, ..info }),
{
    if min is Some {
        lemma_one_field(info, "min:"@ + min->0);
        lemma_min_field(info, min->0);
    }
}

proof fn lemma_read_max(info: InfoModel, max: Option<Seq<char>>)
    requires
        max is Some ==> is_float_text(max->0),
        info.max is None,
    ensures
        with_fields(info, tagged("max:"@, max)) == (InfoModel { max, ..info }),
{
    if max is Some {
        lemma_one_field(info, "max:"@ + max->0);
        lemma_max_field(info, max->0);
    }
}

proof fn lemma_read_step(info: InfoModel, step: Option<Seq<char>>)
    requires
        step is Some ==> is_float_text(step->0),
        info.step is None,
    ensures
        with_fields(info, tagged("step:"@, step)) == (InfoModel { step, ..info }),
{
    if step is Some {
        lemma_one_field(info, "step:"@ + step->0);
        lemma_step_field(info, step->0);
    }
}

proof fn lemma_tail_concat(a: Seq<Seq<char>>, b: Seq<Seq<char>>)
    requires
        a.len() > 0,
    ensures
        (a + b).skip(1) == a.skip(1) + b,
        (a + b).len() > 0,
        (a + b)[0] == a[0],
{
    assert((a + b).skip(1) =~= a.skip(1) + b);
}

/// Taking one more list of fields into account.
proof fn lemma_read_more(
    start: InfoModel,
    fields: Seq<Seq<char>>,
    more: Seq<Seq<char>>,
    mid: InfoModel,
    end: InfoModel,
)
    requires
        fields.len() > 0,
        with_fields(start, fields.skip(1)) == mid,
        with_fields(mid, more) == end,
    ensures
        (fields + more).len() > 0,
        (fields + more)[0] == fields[0],
        with_fields(start, (fields + more).skip(1)) == end,
{
    lemma_tail_concat(fields, more);
    lemma_with_fields_concat(start, fields.skip(1), more);
}

/// Taking the fields of a description into account yields the description.
proof fn lemma_fields_read(def: DefModel, unit: Option<Seq<char>>)
    requires
        valid_def(def),
        separable(def, unit),
    ensures
        with_fields(bare_info(def.name), param_fields(def, unit).skip(1)) == info_of(def, unit),
{
    let f1 = tagged("opts:"@, comma_list(def.opts));
    let f2 = tagged("prec:"@, prec_text(def.prec));
    let f3 = tagged("unit:"@, unit);
    let f4 = tagged("unit_conv:"@, comma_list(conversion_texts(def.unit_conv)));
    let f5 = tagged("min:"@, def.min);
    let f6 = tagged("max:"@, def.max);
    let f7 = tagged("step:"@, def.step);
    let f0 = seq![def.name];
    let i0 = bare_info(def.name);
    let i1 = InfoModel { opts: def.opts, ..i0 };
    let i2 = InfoModel { prec: def.prec, ..i1 };
    let i3 = InfoModel { unit, ..i2 };
    let i4 = InfoModel { unit_conv: def.unit_conv, ..i3 };
    let i5 = InfoModel { min: def.min, ..i4 };
    let i6 = InfoModel { max: def.max, ..i5 };
    let i7 = InfoModel { step: def.step, ..i6 };
    assert(f0.skip(1) =~= Seq::<Seq<char>>::empty());
    lemma_read_opts(i0, def.opts);
    lemma_read_more(i0, f0, f1, i0, i1);
    lemma_read_prec(i1, def.prec);
    lemma_read_more(i0, f0 + f1, f2, i1, i2);
    lemma_read_unit(i2, unit);
    lemma_read_more(i0, f0 + f1 + f2, f3, i2, i3);
    lemma_read_unit_conv(i3, def.unit_conv);
    lemma_read_more(i0, f0 + f1 + f2 + f3, f4, i3, i4);
    lemma_read_min(i4, def.min);
    lemma_read_more(i0, f0 + f1 + f2 + f3 + f4, f5, i4, i5);
    lemma_read_max(i5, def.max);
    lemma_read_more(i0, f0 + f1 + f2 + f3 + f4 + f5, f6, i5, i6);
    lemma_read_step(i6, def.step);
    lemma_read_more(i0, f0 + f1 + f2 + f3 + f4 + f5 + f6, f7, i6, i7);
}

/// Reading the line that describes a parameter gives its description back, where
/// no part of the definition holds a separator.
pub proof fn law_param_line_round_trip(def: DefModel, unit: Option<Seq<char>>)
    requires
        valid_def(def),
        separable(def, unit),
    ensures
        line_info(param_line(def, unit)) == Some(info_of(def, unit)),
{
    let fields = param_fields(def, unit);
    lemma_fields_hold(def, unit, '\t');
    lemma_pieces_of_joined(fields, '\t');
    lemma_fields_read(def, unit);
    assert(fields[0] == def.name);
}

/// The descriptions that a client is meant to get of the parameters.
pub open spec fn infos_of(ds: Seq<DefModel>, units: Seq<Option<Seq<char>>>) -> Seq<InfoModel> {
    Seq::new(ds.len(), |i: int| info_of(ds[i], units[i]))
}

/// Reading the body that describes the parameters gives all descriptions back, in
/// their order, where no part of a definition holds a separator and each
/// description keeps to one line.
pub proof fn law_list_round_trip(ds: Seq<DefModel>, units: Seq<Option<Seq<char>>>)
    requires
        ds.len() == units.len(),
        forall|i: int|
            #![trigger ds[i]]
            0 <= i < ds.len() ==> valid_def(ds[i]) && separable(ds[i], units[i]) && is_line(
                param_line(ds[i], units[i]),
            ),
    ensures
        info_list(line_list(ended_lines(param_lines(ds, units)))) == infos_of(ds, units),
{
    lemma_lines_of_ended(param_lines(ds, units));
    lemma_info_list(ds, units);
}

proof fn lemma_info_list(ds: Seq<DefModel>, units: Seq<Option<Seq<char>>>)
    requires
        ds.len() == units.len(),
        forall|i: int|
            #![trigger ds[i]]
            0 <= i < ds.len() ==> valid_def(ds[i]) && separable(ds[i], units[i]),
    ensures
        info_list(param_lines(ds, units)) == infos_of(ds, units),
    decreases ds.len(),
{
    let ls = param_lines(ds, units);
    if ds.len() == 0 {
        assert(info_list(ls) =~= infos_of(ds, units));
    } else {
        let rest = ds.skip(1);
        assert forall|i: int|
            #![trigger rest[i]]
            0 <= i < rest.len() implies valid_def(rest[i]) && separable(
            rest[i],
            units.skip(1)[i],
        ) by {
            assert(rest[i] == ds[i + 1]);
        }
        lemma_info_list(rest, units.skip(1));
        assert(valid_def(ds[0]));
        law_param_line_round_trip(ds[0], units[0]);
        assert(ls.skip(1) =~= param_lines(rest, units.skip(1)));
        assert(seq![info_of(ds[0], units[0])] + infos_of(rest, units.skip(1)) =~= infos_of(
            ds,
            units,
        ));
    }
}

// ---- The order of the fields ------------------------------------------------

/// The tag of a field: what stands before its first colon.
pub open spec fn tag_of(field: Seq<char>) -> Seq<char> {
    match cut(field, seq![':']) {
        Some((tag, _)) => tag,
        None => field,
    }
}

/// A field that starts with none of the tags and a colon behind it.
pub open spec fn says_nothing(field: Seq<char>) -> bool {
    &&& without_prefix(field, "opts:"@) is None
    &&& without_prefix(field, "prec:"@) is None
    &&& without_prefix(field, "unit:"@) is None
    &&& without_prefix(field, "unit_conv:"@) is None
    &&& without_prefix(field, "min:"@) is None
    &&& without_prefix(field, "max:"@) is None
    &&& without_prefix(field, "step:"@) is None
}

/// A field that starts with a tag and a colon has that tag.
proof fn lemma_tag_of(field: Seq<char>, tag: Seq<char>, p: Seq<char>)
    requires
        p == tag + seq![':'],
        !tag.contains(':'),
        without_prefix(field, p) is Some,
    ensures
        tag_of(field) == tag,
{
    let rest = field.skip(p.len() as int);
    assert(field =~= tag + seq![':'] + rest) by {
        assert forall|k: int| 0 <= k < p.len() implies field[k] == p[k] by {
            assert(field.subrange(0, p.len() as int)[k] == field[k]);
        }
    }
    lemma_first_after(tag, ':', rest);
}

proof fn lemma_known_tags()
    ensures
        "opts:"@ == "opts"@ + seq![':'] && !"opts"@.contains(':'),
        "prec:"@ == "prec"@ + seq![':'] && !"prec"@.contains(':'),
        "unit:"@ == "unit"@ + seq![':'] && !"unit"@.contains(':'),
        "unit_conv:"@ == "unit_conv"@ + seq![':'] && !"unit_conv"@.contains(':'),
        "min:"@ == "min"@ + seq![':'] && !"min"@.contains(':'),
        "max:"@ == "max"@ + seq![':'] && !"max"@.contains(':'),
        "step:"@ == "step"@ + seq![':'] && !"step"@.contains(':'),
{
    lemma_tags();
    reveal_strlit("opts");
    reveal_strlit("prec");
    reveal_strlit("unit");
    reveal_strlit("unit_conv");
    reveal_strlit("min");
    reveal_strlit("max");
    reveal_strlit("step");
    assert("opts:"@ =~= "opts"@ + seq![':']);
    assert("prec:"@ =~= "prec"@ + seq![':']);
    assert("unit:"@ =~= "unit"@ + seq![':']);
    assert("unit_conv:"@ =~= "unit_conv"@ + seq![':']);
    assert("min:"@ =~= "min"@ + seq![':']);
    assert("max:"@ =~= "max"@ + seq![':']);
    assert("step:"@ =~= "step"@ + seq![':']);
}

/// A field says something only of what its tag names.
proof fn lemma_field_tag(field: Seq<char>)
    ensures
        without_prefix(field, "opts:"@) is Some ==> tag_of(field) == "opts"@,
        without_prefix(field, "prec:"@) is Some ==> tag_of(field) == "prec"@,
        without_prefix(field, "unit:"@) is Some ==> tag_of(field) == "unit"@,
        without_prefix(field, "unit_conv:"@) is Some ==> tag_of(field) == "unit_conv"@,
        without_prefix(field, "min:"@) is Some ==> tag_of(field) == "min"@,
        without_prefix(field, "max:"@) is Some ==> tag_of(field) == "max"@,
        without_prefix(field, "step:"@) is Some ==> tag_of(field) == "step"@,
{
    lemma_known_tags();
    if without_prefix(field, "opts:"@) is Some {
        lemma_tag_of(field, "opts"@, "opts:"@);
    }
    if without_prefix(field, "prec:"@) is Some {
        lemma_tag_of(field, "prec"@, "prec:"@);
    }
    if without_prefix(field, "unit:"@) is Some {
        lemma_tag_of(field, "unit"@, "unit:"@);
    }
    if without_prefix(field, "unit_conv:"@) is Some {
        lemma_tag_of(field, "unit_conv"@, "unit_conv:"@);
    }
    if without_prefix(field, "min:"@) is Some {
        lemma_tag_of(field, "min"@, "min:"@);
    }
    if without_prefix(field, "max:"@) is Some {
        lemma_tag_of(field, "max"@, "max:"@);
    }
    if without_prefix(field, "step:"@) is Some {
        lemma_tag_of(field, "step"@, "step:"@);
    }
}

proof fn lemma_field_put_in(info: InfoModel, fields: Seq<Seq<char>>, k: int, field: Seq<char>)
    requires
        0 <= k <= fields.len(),
        says_nothing(field),
    ensures
        with_fields(info, fields.insert(k, field)) == with_fields(info, fields),
    decreases k,
{
    let all = fields.insert(k, field);
    if k == 0 {
        assert(all[0] == field);
        assert(all.skip(1) =~= fields);
    } else {
        assert(all[0] == fields[0]);
        assert(all.skip(1) =~= fields.skip(1).insert(k - 1, field));
        lemma_field_put_in(with_field(info, fields[0]), fields.skip(1), k - 1, field);
    }
}

/// A field that starts with none of the known tags changes nothing, wherever it stands
/// behind the name: `other` is `line` with such a field put in as its `k`-th one.
pub proof fn law_unknown_field(line: Seq<char>, other: Seq<char>, k: int, field: Seq<char>)
    requires
        1 <= k <= pieces(line, '\t').len(),
        pieces(other, '\t') == pieces(line, '\t').insert(k, field),
        says_nothing(field),
    ensures
        line_info(other) == line_info(line),
{
    let fields = pieces(line, '\t');
    lemma_field_put_in(bare_info(fields[0]), fields.skip(1), k - 1, field);
    assert(fields.insert(k, field).skip(1) =~= fields.skip(1).insert(k - 1, field));
    assert(fields.insert(k, field)[0] == fields[0]);
}

/// Both fields say something, and have the same tag.
pub open spec fn clash(a: Seq<char>, b: Seq<char>) -> bool {
    !says_nothing(a) && !says_nothing(b) && tag_of(a) == tag_of(b)
}

/// Two fields that do not clash can change places.
proof fn lemma_fields_commute(info: InfoModel, a: Seq<char>, b: Seq<char>)
    requires
        !clash(a, b),
    ensures
        with_field(with_field(info, a), b) == with_field(with_field(info, b), a),
{
    lemma_field_tag(a);
    lemma_field_tag(b);
}

/// No two fields that say something have the same tag.
pub open spec fn distinct_tags(fields: Seq<Seq<char>>) -> bool {
    forall|i: int, j: int|
        0 <= i < j < fields.len() ==> !clash(#[trigger] fields[i], #[trigger] fields[j])
}

/// A field can be moved to the front.
proof fn lemma_field_to_front(info: InfoModel, fields: Seq<Seq<char>>, k: int)
    requires
        distinct_tags(fields),
        0 <= k < fields.len(),
    ensures
        with_fields(info, fields) == with_fields(with_field(info, fields[k]), fields.remove(k)),
    decreases k,
{
    if k == 0 {
        assert(fields.remove(0) =~= fields.skip(1));
    } else {
        let rest = fields.skip(1);
        assert forall|i: int, j: int| 0 <= i < j < rest.len() implies !clash(
            #[trigger] rest[i],
            #[trigger] rest[j],
        ) by {
            assert(rest[i] == fields[i + 1] && rest[j] == fields[j + 1]);
        }
        assert(rest[k - 1] == fields[k]);
        lemma_field_to_front(with_field(info, fields[0]), rest, k - 1);
        assert(!clash(fields[0], fields[k]));
        lemma_fields_commute(info, fields[0], fields[k]);
        let other = fields.remove(k);
        assert(other[0] == fields[0]);
        assert(other.skip(1) =~= rest.remove(k - 1));
    }
}

proof fn lemma_fields_reordered(info: InfoModel, a: Seq<Seq<char>>, b: Seq<Seq<char>>)
    requires
        distinct_tags(a),
        a.to_multiset() == b.to_multiset(),
    ensures
        with_fields(info, a) == with_fields(info, b),
    decreases b.len(),
{
    a.to_multiset_ensures();
    b.to_multiset_ensures();
    if b.len() > 0 {
        let first = b[0];
        assert(b.contains(first));
        assert(b.to_multiset().count(first) > 0);
        assert(a.contains(first));
        let k = choose|k: int| 0 <= k < a.len() && a[k] == first;
        lemma_field_to_front(info, a, k);
        let rest = a.remove(k);
        assert forall|i: int, j: int| 0 <= i < j < rest.len() implies !clash(
            #[trigger] rest[i],
            #[trigger] rest[j],
        ) by {
            let i0 = if i < k {
                i
            } else {
                i + 1
            };
            let j0 = if j < k {
                j
            } else {
                j + 1
            };
            assert(rest[i] == a[i0] && rest[j] == a[j0]);
        }
        assert(b.remove(0) =~= b.skip(1));
        assert(rest.to_multiset() =~= b.skip(1).to_multiset());
        lemma_fields_reordered(with_field(info, first), rest, b.skip(1));
    } else {
        assert(a =~= b);
    }
}

/// The order of the fields behind the name does not matter, where no two that say
/// something have the same tag.
pub proof fn law_fields_reordered(line: Seq<char>, other: Seq<char>)
    requires
        pieces(line, '\t')[0] == pieces(other, '\t')[0],
        pieces(line, '\t').skip(1).to_multiset() == pieces(other, '\t').skip(1).to_multiset(),
        distinct_tags(pieces(line, '\t').skip(1)),
    ensures
        line_info(line) == line_info(other),
{
    lemma_fields_reordered(
        bare_info(pieces(line, '\t')[0]),
        pieces(line, '\t').skip(1),
        pieces(other, '\t').skip(1),
    );
}

// ---- What each field says -----------------------------------------------------

/// A bound or a step is read from every text of a floating-point number: digits, one at
/// least, with a sign, a point and an exponent or without. Nothing else changes.
pub proof fn law_bound_fields(info: InfoModel, p: FloatParts)
    requires
        p.valid(),
    ensures
        with_field(info, "min:"@ + p.text()) == (InfoModel { min: Some(p.text()), ..info }),
        with_field(info, "max:"@ + p.text()) == (InfoModel { max: Some(p.text()), ..info }),
        with_field(info, "step:"@ + p.text()) == (InfoModel { step: Some(p.text()), ..info }),
{
    law_float_read(p);
    lemma_min_field(info, p.text());
    lemma_max_field(info, p.text());
    lemma_step_field(info, p.text());
}

/// So it is from the words for what is no finite number.
pub proof fn law_bound_words(info: InfoModel, v: Seq<char>)
    requires
        is_float_word(v),
    ensures
        with_field(info, "min:"@ + v) == (InfoModel { min: Some(v), ..info }),
        with_field(info, "max:"@ + v) == (InfoModel { max: Some(v), ..info }),
        with_field(info, "step:"@ + v) == (InfoModel { step: Some(v), ..info }),
{
    law_words_are_floats(v);
    lemma_min_field(info, v);
    lemma_max_field(info, v);
    lemma_step_field(info, v);
}

/// From any other text it is not: the bound is then unknown, whatever it was before.
pub proof fn law_bound_fields_only(info: InfoModel, v: Seq<char>)
    requires
        !is_float_word(v),
        forall|p: FloatParts| #[trigger] p.valid() ==> p.text() != v,
    ensures
        with_field(info, "min:"@ + v) == (InfoModel { min: None, ..info }),
        with_field(info, "max:"@ + v) == (InfoModel { max: None, ..info }),
        with_field(info, "step:"@ + v) == (InfoModel { step: None, ..info }),
{
    if is_float_text(v) {
        law_float_only(v);
    }
    lemma_min_field(info, v);
    lemma_max_field(info, v);
    lemma_step_field(info, v);
}

/// The options are the texts between the commas, and the unit is the text itself.
pub proof fn law_text_fields(info: InfoModel, parts: Seq<Seq<char>>, unit: Seq<char>)
    requires
        parts.len() > 0,
        none_holds(parts, ','),
    ensures
        with_field(info, "opts:"@ + joined(parts, ',')) == (InfoModel { opts: parts, ..info }),
        with_field(info, "unit:"@ + unit) == (InfoModel { unit: Some(unit), ..info }),
{
    lemma_opts_field(info, joined(parts, ','));
    lemma_pieces_of_joined(parts, ',');
    lemma_unit_field(info, unit);
}

/// The precision is the number that the digits denote, behind a plus sign or none; too
/// large a number, or any other text, is none.
pub proof fn law_prec_field(info: InfoModel, digits: Seq<char>, plus: bool, v: Seq<char>)
    requires
        are_digits(digits),
        digits.len() > 0,
        !(are_digits(v) && v.len() > 0),
        !(v.len() > 1 && v[0] == '+' && are_digits(v.skip(1))),
    ensures
        with_field(
            info,
            "prec:"@ + (if plus {
                seq!['+'] + digits
            } else {
                digits
            }),
        ) == (InfoModel {
            prec: if run_value(digits) <= usize::MAX {
                Some(run_value(digits))
            } else {
                None
            },
            ..info
        }),
        with_field(info, "prec:"@ + v) == (InfoModel { prec: None, ..info }),
{
    law_unsigned_read(digits, plus, usize::MAX as int);
    lemma_prec_field(
        info,
        if plus {
            seq!['+'] + digits
        } else {
            digits
        },
    );
    lemma_prec_field(info, v);
    if unsigned_value(v, usize::MAX as int) is Some {
        law_unsigned_only(v, usize::MAX as int);
    }
}

/// A conversion is a name, an equals sign and an exponent that is a number with a sign or
/// without one; a part without an equals sign is none, nor is one with another exponent.
pub proof fn law_conversion(
    name: Seq<char>,
    sign: Option<bool>,
    digits: Seq<char>,
    other: Seq<char>,
)
    requires
        !name.contains('='),
        are_digits(digits),
        digits.len() > 0,
        !(are_digits(other) && other.len() > 0),
        !(other.len() > 1 && (other[0] == '+' || other[0] == '-') && are_digits(other.skip(1))),
    ensures
        conversion(name + seq!['='] + (sign_text(sign) + digits)) == ({
            let n = if sign == Some(true) {
                -run_value(digits)
            } else {
                run_value(digits)
            };
            if i32::MIN <= n <= i32::MAX {
                Some((name, n))
            } else {
                None
            }
        }),
        conversion(name) is None,
        conversion(name + seq!['='] + other) is None,
{
    lemma_first_after(name, '=', sign_text(sign) + digits);
    lemma_first_after(name, '=', other);
    lemma_absent(name, '=');
    law_i32_read(sign, digits);
    if i32_value(other) is Some {
        law_i32_only(other);
    }
}

proof fn lemma_conversion_list_push(parts: Seq<Seq<char>>, part: Seq<char>)
    ensures
        conversion_list(parts.push(part)) == match conversion(part) {
            Some(c) => conversion_list(parts).push(c),
            None => conversion_list(parts),
        },
    decreases parts.len(),
{
    let all = parts.push(part);
    let none = Seq::<Seq<char>>::empty();
    if parts.len() == 0 {
        assert(all.skip(1) =~= none);
        assert(conversion_list(none) =~= Seq::<(Seq<char>, int)>::empty());
        assert(all[0] == part);
        if conversion(part) is Some {
            assert(conversion_list(all) =~= conversion_list(parts).push(conversion(part)->0));
        }
    } else {
        lemma_conversion_list_push(parts.skip(1), part);
        assert(all.skip(1) =~= parts.skip(1).push(part));
        assert(all[0] == parts[0]);
        if conversion(part) is Some {
            assert(conversion_list(all) =~= conversion_list(parts).push(conversion(part)->0));
        }
    }
}

/// The conversions of a field come behind those that are there already, in the order of
/// the parts between the commas; a part that is no conversion is left out.
pub proof fn law_unit_conv_field(info: InfoModel, parts: Seq<Seq<char>>, part: Seq<char>)
    requires
        none_holds(parts, ','),
        !part.contains(','),
    ensures
        ({
            let before = if parts.len() == 0 {
                info
            } else {
                with_field(info, "unit_conv:"@ + joined(parts, ','))
            };
            with_field(info, "unit_conv:"@ + joined(parts.push(part), ',')) == (InfoModel {
                unit_conv: match conversion(part) {
                    Some(c) => before.unit_conv.push(c),
                    None => before.unit_conv,
                },
                ..info
            })
        }),
{
    let all = parts.push(part);
    assert(none_holds(all, ',')) by {
        assert forall|i: int| 0 <= i < all.len() implies !(#[trigger] all[i]).contains(',') by {
            if i < parts.len() {
                assert(all[i] == parts[i]);
            }
        }
    }
    lemma_unit_conv_field(info, joined(all, ','));
    lemma_pieces_of_joined(all, ',');
    lemma_conversion_list_push(parts, part);
    let old_list = conversion_list(parts);
    if parts.len() > 0 {
        lemma_unit_conv_field(info, joined(parts, ','));
        lemma_pieces_of_joined(parts, ',');
    } else {
        assert(old_list =~= Seq::<(Seq<char>, int)>::empty());
        assert(info.unit_conv + old_list =~= info.unit_conv);
    }
    match conversion(part) {
        Some(c) => assert(info.unit_conv + old_list.push(c) =~= (info.unit_conv + old_list).push(c)),
        None => {},
    }
}

/// A field that begins with none of the known tags says nothing.
pub proof fn law_other_field(info: InfoModel, field: Seq<char>)
    requires
        forall|v: Seq<char>| field != #[trigger] ("opts:"@ + v),
        forall|v: Seq<char>| field != #[trigger] ("prec:"@ + v),
        forall|v: Seq<char>| field != #[trigger] ("unit:"@ + v),
        forall|v: Seq<char>| field != #[trigger] ("unit_conv:"@ + v),
        forall|v: Seq<char>| field != #[trigger] ("min:"@ + v),
        forall|v: Seq<char>| field != #[trigger] ("max:"@ + v),
        forall|v: Seq<char>| field != #[trigger] ("step:"@ + v),
    ensures
        with_field(info, field) == info,
        says_nothing(field),
{
    lemma_not_tagged(field, "opts:"@);
    lemma_not_tagged(field, "prec:"@);
    lemma_not_tagged(field, "unit:"@);
    lemma_not_tagged(field, "unit_conv:"@);
    lemma_not_tagged(field, "min:"@);
    lemma_not_tagged(field, "max:"@);
    lemma_not_tagged(field, "step:"@);
}

proof fn lemma_not_tagged(field: Seq<char>, p: Seq<char>)
    requires
        forall|v: Seq<char>| field != #[trigger] (p + v),
    ensures
        without_prefix(field, p) is None,
{
    if without_prefix(field, p) is Some {
        let v = without_prefix(field, p)->0;
        law_without_prefix(field, p, v);
        assert(field != p + v);
    }
}

/// A line is read from the left: it gives a description exactly if it has a name, a name
/// alone gives no more than the name, and one more field behind a tab is one more field
/// taken into account.
pub proof fn law_line_read(line: Seq<char>, name: Seq<char>, field: Seq<char>)
    requires
        !name.contains('\t'),
        !field.contains('\t'),
    ensures
        line_info(name) == if name.len() == 0 {
            None
        } else {
            Some(
                InfoModel {
                    name,
                    opts: Seq::empty(),
                    prec: None,
                    unit: None,
                    unit_conv: Seq::empty(),
                    min: None,
                    max: None,
                    step: None,
                },
            )
        },
        line_info(line + seq!['\t'] + field) == match line_info(line) {
            Some(info) => Some(with_field(info, field)),
            None => None,
        },
{
    lemma_absent(name, '\t');
    assert(pieces(name, '\t') == seq![name]);
    assert(seq![name].skip(1) =~= Seq::<Seq<char>>::empty());
    let fields = pieces(line, '\t');
    let all = fields.push(field);
    law_pieces(line, '\t');
    law_joined(fields, field, '\t');
    assert forall|i: int| 0 <= i < all.len() implies !(#[trigger] all[i]).contains('\t') by {
        if i < fields.len() {
            assert(all[i] == fields[i]);
        }
    }
    lemma_pieces_of_joined(all, '\t');
    assert(all.skip(1) =~= fields.skip(1) + seq![field]);
    assert(all[0] == fields[0]);
    lemma_with_fields_concat(bare_info(fields[0]), fields.skip(1), seq![field]);
    lemma_one_field(with_fields(bare_info(fields[0]), fields.skip(1)), field);
}

proof fn lemma_bound_in_line(line: Seq<char>, tag: Seq<char>, p: FloatParts)
    requires
        p.valid(),
        !tag.contains('\t'),
        line_info(line) is Some,
    ensures
        line_info(line + seq!['\t'] + (tag + p.text())) == Some(
            with_field(line_info(line)->0, tag + p.text()),
        ),
{
    law_float_read(p);
    lemma_float_holds(Some(p.text()), '\t');
    lemma_tagged_holds(tag, Some(p.text()), '\t');
    assert(tagged(tag, Some(p.text()))[0] == tag + p.text());
    law_line_read(line, Seq::empty(), tag + p.text());
}

/// In a line, a bound or a step with the text of a floating-point number is read as that
/// bound, whatever stands before it.
#[verifier::spinoff_prover]
#[verifier::rlimit(40)]
pub proof fn law_bound_in_line(line: Seq<char>, p: FloatParts)
    requires
        line_info(line) is Some,
        p.valid(),
    ensures
        line_info(line + seq!['\t'] + ("min:"@ + p.text())) == Some(
            InfoModel { min: Some(p.text()), ..line_info(line)->0 },
        ),
        line_info(line + seq!['\t'] + ("max:"@ + p.text())) == Some(
            InfoModel { max: Some(p.text()), ..line_info(line)->0 },
        ),
        line_info(line + seq!['\t'] + ("step:"@ + p.text())) == Some(
            InfoModel { step: Some(p.text()), ..line_info(line)->0 },
        ),
{
    assert(!"min:"@.contains('\t') && !"max:"@.contains('\t') && !"step:"@.contains('\t')) by {
        lemma_tags();
    }
    law_bound_fields(line_info(line)->0, p);
    lemma_bound_in_line(line, "min:"@, p);
    lemma_bound_in_line(line, "max:"@, p);
    lemma_bound_in_line(line, "step:"@, p);
}

/// Every line that gives a description adds it behind the others; other lines are left out.
pub proof fn law_info_list(lines: Seq<Seq<char>>, line: Seq<char>)
    ensures
        info_list(Seq::empty()) == Seq::<InfoModel>::empty(),
        info_list(lines.push(line)) == match line_info(line) {
            Some(info) => info_list(lines).push(info),
            None => info_list(lines),
        },
    decreases lines.len(),
{
    let all = lines.push(line);
    let none = Seq::<Seq<char>>::empty();
    if lines.len() == 0 {
        assert(all.skip(1) =~= none);
        assert(info_list(none) =~= Seq::<InfoModel>::empty());
        assert(all[0] == line);
    } else {
        law_info_list(lines.skip(1), line);
        assert(all.skip(1) =~= lines.skip(1).push(line));
        assert(all[0] == lines[0]);
    }
    if line_info(line) is Some {
        assert(info_list(all) =~= info_list(lines).push(line_info(line)->0));
    }
}

/// A tab, the tag and the value, where there is a value.
pub open spec fn labelled(tag: Seq<char>, v: Option<Seq<char>>) -> Seq<char> {
    match v {
        Some(x) => seq!['\t'] + (tag + x),
        None => Seq::empty(),
    }
}

proof fn lemma_joined_tagged(fields: Seq<Seq<char>>, tag: Seq<char>, v: Option<Seq<char>>)
    requires
        fields.len() > 0,
    ensures
        joined(fields + tagged(tag, v), '\t') == joined(fields, '\t') + labelled(tag, v),
{
    match v {
        Some(x) => {
            assert(fields + tagged(tag, v) =~= fields.push(tag + x));
            law_joined(fields, tag + x, '\t');
            assert(joined(fields, '\t') + seq!['\t'] + (tag + x) =~= joined(fields, '\t')
                + labelled(tag, v));
        },
        None => {
            assert(fields + tagged(tag, v) =~= fields);
            assert(joined(fields, '\t') + labelled(tag, v) =~= joined(fields, '\t'));
        },
    }
}

/// A description is written as the name, the options, the precision, the current unit, the
/// conversions, the bounds and the step, in this order, each where there is one.
pub proof fn law_param_line_is(def: DefModel, unit: Option<Seq<char>>)
    ensures
        param_line(def, unit) == def.name + labelled(
            "opts:"@,
            if def.opts.len() > 0 {
                Some(joined(def.opts, ','))
            } else {
                None
            },
        ) + labelled(
            "prec:"@,
            match def.prec {
                Some(n) => Some(decimal(n)),
                None => None,
            },
        ) + labelled("unit:"@, unit) + labelled(
            "unit_conv:"@,
            if def.unit_conv.len() > 0 {
                Some(
                    joined(
                        Seq::new(
                            def.unit_conv.len(),
                            |i: int|
                                def.unit_conv[i].0 + seq!['='] + signed_decimal(def.unit_conv[i].1),
                        ),
                        ',',
                    ),
                )
            } else {
                None
            },
        ) + labelled("min:"@, def.min) + labelled("max:"@, def.max) + labelled(
            "step:"@,
            def.step,
        ),
{
    let f0 = seq![def.name];
    let f1 = tagged("opts:"@, comma_list(def.opts));
    let f2 = tagged("prec:"@, prec_text(def.prec));
    let f3 = tagged("unit:"@, unit);
    let cts = conversion_texts(def.unit_conv);
    let f4 = tagged("unit_conv:"@, comma_list(cts));
    let f5 = tagged("min:"@, def.min);
    let f6 = tagged("max:"@, def.max);
    assert(cts =~= Seq::new(
        def.unit_conv.len(),
        |i: int| def.unit_conv[i].0 + seq!['='] + signed_decimal(def.unit_conv[i].1),
    ));
    assert(f0 =~= Seq::<Seq<char>>::empty().push(def.name));
    law_joined(Seq::empty(), def.name, '\t');
    lemma_joined_tagged(f0, "opts:"@, comma_list(def.opts));
    lemma_joined_tagged(f0 + f1, "prec:"@, prec_text(def.prec));
    lemma_joined_tagged(f0 + f1 + f2, "unit:"@, unit);
    lemma_joined_tagged(f0 + f1 + f2 + f3, "unit_conv:"@, comma_list(cts));
    lemma_joined_tagged(f0 + f1 + f2 + f3 + f4, "min:"@, def.min);
    lemma_joined_tagged(f0 + f1 + f2 + f3 + f4 + f5, "max:"@, def.max);
    lemma_joined_tagged(f0 + f1 + f2 + f3 + f4 + f5 + f6, "step:"@, def.step);
}

/// What a client reads of a parameter is what its definition gives, field by field, with
/// the current unit; the default is not told.
pub proof fn law_info_is(def: DefModel, unit: Option<Seq<char>>)
    requires
        valid_def(def),
        separable(def, unit),
    ensures
        ({
            let info = line_info(param_line(def, unit))->0;
            &&& line_info(param_line(def, unit)) is Some
            &&& info.name == def.name
            &&& info.opts == def.opts
            &&& info.prec == def.prec
            &&& info.unit == unit
            &&& info.unit_conv == def.unit_conv
            &&& info.min == def.min
            &&& info.max == def.max
            &&& info.step == def.step
        }),
{
    law_param_line_round_trip(def, unit);
}

} // verus!
