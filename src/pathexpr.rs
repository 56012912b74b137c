//! Path expressions: patterns over `/`-separated paths made of literal
//! text, named placeholders and strftime-style time fields. Each path
//! element is matched by a regular expression compiled from its parts.

use vstd::prelude::*;
use crate::civil::{
    civil_before, civil_from_tm, civil_of_tm, strptime, strptime_result, time_field_text, with_time_field,
    CivilTime, PERIOD_TIME_FORMAT,
};
use crate::text::{
    bounded_field_value, chars_of, parse_unsigned, push_chars, string_of, string_of_range,
};

verus! {

/// What a part of a path element says, over character sequences.
pub enum PartModel {
    Literal(Seq<char>),
    Placeholder { name: Seq<char>, value: Option<Seq<char>> },
    TimePart { fmt: Seq<char>, value: Option<Seq<char>>, last: bool },
}

/// One part of a path element: fixed text, a named placeholder, or a time
/// field written as a strftime conversion character. A placeholder or a
/// time field may be bound to a concrete value.
#[derive(Debug, Clone)]
pub enum PathElementPart {
    Literal(String),
    Placeholder { name: String, value: Option<String> },
    TimePart { fmt: String, value: Option<String>, last_in_expression: bool },
}

pub open spec fn opt_text(o: Option<String>) -> Option<Seq<char>> {
    match o {
        Some(s) => Some(s@),
        None => None,
    }
}

impl PathElementPart {
    pub open spec fn model(self) -> PartModel {
        match self {
            PathElementPart::Literal(s) => PartModel::Literal(s@),
            PathElementPart::Placeholder { name, value } => PartModel::Placeholder {
                name: name@,
                value: opt_text(value),
            },
            PathElementPart::TimePart { fmt, value, last_in_expression } => PartModel::TimePart {
                fmt: fmt@,
                value: opt_text(value),
                last: last_in_expression,
            },
        }
    }

    /// Whether the part is fixed text.
    pub fn is_literal(&self) -> (r: bool)
        ensures
            r == is_literal_part(self.model()),
    {
        if let PathElementPart::Literal(_) = self {
            true
        } else {
            false
        }
    }

    /// Whether the part still stands for text not known yet: a placeholder
    /// or a time field without a value.
    pub fn is_variable(&self) -> (r: bool)
        ensures
            r == is_variable_part(self.model()),
    {
        match self {
            PathElementPart::Literal(_) => false,
            PathElementPart::TimePart { value: Some(_), .. } => false,
            PathElementPart::TimePart { value: None, .. } => true,
            PathElementPart::Placeholder { value: Some(_), .. } => false,
            PathElementPart::Placeholder { .. } => true,
        }
    }

    /// Whether the part is a time field.
    pub fn is_timepart(&self) -> (r: bool)
        ensures
            r == is_time_part(self.model()),
    {
        if let PathElementPart::TimePart { .. } = self {
            true
        } else {
            false
        }
    }

    /// A copy of the part.
    pub fn duplicate(&self) -> (r: PathElementPart)
        ensures
            r.model() == self.model(),
    {
        match self {
            PathElementPart::Literal(s) => PathElementPart::Literal(s.clone()),
            PathElementPart::Placeholder { name, value } => PathElementPart::Placeholder {
                name: name.clone(),
                value: copy_opt_string(value),
            },
            PathElementPart::TimePart { fmt, value, last_in_expression } => PathElementPart::TimePart {
                fmt: fmt.clone(),
                value: copy_opt_string(value),
                last_in_expression: *last_in_expression,
            },
        }
    }
}

fn copy_opt_string(o: &Option<String>) -> (r: Option<String>)
    ensures
        opt_text(r) == opt_text(*o),
{
    match o {
        Some(s) => Some(s.clone()),
        None => None,
    }
}

pub open spec fn is_literal_part(p: PartModel) -> bool {
    p is Literal
}

pub open spec fn is_variable_part(p: PartModel) -> bool {
    match p {
        PartModel::Literal(_) => false,
        PartModel::Placeholder { value, .. } => value is None,
        PartModel::TimePart { value, .. } => value is None,
    }
}

pub open spec fn is_time_part(p: PartModel) -> bool {
    p is TimePart
}

pub open spec fn parts_model(ps: Seq<PathElementPart>) -> Seq<PartModel> {
    ps.map_values(|p: PathElementPart| p.model())
}

pub open spec fn has_placeholder(ps: Seq<PartModel>) -> bool {
    exists|j: int| 0 <= j < ps.len() && !is_literal_part(#[trigger] ps[j])
}

pub open spec fn has_variable(ps: Seq<PartModel>) -> bool {
    exists|j: int| 0 <= j < ps.len() && is_variable_part(#[trigger] ps[j])
}

pub open spec fn has_time_part(ps: Seq<PartModel>) -> bool {
    exists|j: int| 0 <= j < ps.len() && is_time_part(#[trigger] ps[j])
}

/// The characters that have a meaning in a regular expression.
pub open spec fn is_regex_meta(c: char) -> bool {
    c == '\\' || c == '.' || c == '+' || c == '*' || c == '?' || c == '(' || c == ')' || c == '|' || c == '['
        || c == ']' || c == '{' || c == '}' || c == '^' || c == '$' || c == '#' || c == '&' || c == '-' || c
        == '~'
}

/// The text with a backslash before each character that has a meaning in a
/// regular expression, as `regex::escape` writes it.
pub open spec fn regex_escaped(s: Seq<char>) -> Seq<char>
    decreases s.len(),
{
    if s.len() == 0 {
        seq![]
    } else {
        regex_escaped(s.drop_last()) + if is_regex_meta(s.last()) {
            seq!['\\', s.last()]
        } else {
            seq![s.last()]
        }
    }
}

/// Relies on `regex::escape`: a backslash before each of its meta
/// characters, every other character copied.
#[verifier::external_body]
fn escape_regex(s: &str) -> (r: String)
    ensures
        r@ == regex_escaped(s@),
{
    regex::escape(s)
}

/// The capture groups (after the whole match) that `regex::Regex` finds
/// when the pattern compiles and matches the text.
pub uninterp spec fn regex_captures(pattern: Seq<char>, text: Seq<char>) -> Option<Seq<Seq<char>>>;

pub open spec fn opt_texts(r: Option<Vec<String>>) -> Option<Seq<Seq<char>>> {
    match r {
        Some(v) => Some(v@.map_values(|s: String| s@)),
        None => None,
    }
}

/// Relies on `regex::Regex::new` and `Regex::captures`: `None` where the
/// pattern does not compile or does not match the text; else the text of
/// each group after the whole match, in order, a group that took no part
/// giving empty text.
#[verifier::external_body]
fn captures(pattern: &str, text: &str) -> (r: Option<Vec<String>>)
    ensures
        opt_texts(r) == regex_captures(pattern@, text@),
{
    let re = regex::Regex::new(pattern).ok()?;
    let caps = re.captures(text)?;
    Some(caps.iter().skip(1).map(|m| m.map_or(String::new(), |m| m.as_str().to_string())).collect())
}

/// The regular expression text of one part.
pub open spec fn part_regex(p: PartModel) -> Seq<char> {
    match p {
        PartModel::Literal(s) => regex_escaped(s),
        PartModel::Placeholder { value: Some(v), .. } => regex_escaped(v),
        PartModel::Placeholder { value: None, .. } => seq!['(', '.', '*', ')'],
        PartModel::TimePart { value: Some(v), .. } => regex_escaped(v),
        PartModel::TimePart { value: None, .. } => seq!['(', '\\', 'd', '+', ')'],
    }
}

pub open spec fn regex_body(ps: Seq<PartModel>) -> Seq<char>
    decreases ps.len(),
{
    if ps.len() == 0 {
        seq![]
    } else {
        regex_body(ps.drop_last()) + part_regex(ps.last())
    }
}

/// The anchored regular expression that an element with these parts
/// compiles to.
pub open spec fn regex_source(ps: Seq<PartModel>) -> Seq<char> {
    seq!['^'] + regex_body(ps) + seq!['$']
}

fn part_regex_text(p: &PathElementPart) -> (r: Vec<char>)
    ensures
        r@ == part_regex(p.model()),
{
    match p {
        PathElementPart::Literal(s) => chars_of(escape_regex(s.as_str()).as_str()),
        PathElementPart::Placeholder { value: Some(v), .. } => chars_of(escape_regex(v.as_str()).as_str()),
        PathElementPart::Placeholder { value: None, .. } => {
            let r = vec!['(', '.', '*', ')'];
            assert(r@ =~= part_regex(p.model()));
            r
        },
        PathElementPart::TimePart { value: Some(v), .. } => chars_of(escape_regex(v.as_str()).as_str()),
        PathElementPart::TimePart { value: None, .. } => {
            let r = vec!['(', '\\', 'd', '+', ')'];
            assert(r@ =~= part_regex(p.model()));
            r
        },
    }
}

/// A `/`-free element of a path expression: its parts, what kinds of part
/// it holds, and the regular expression compiled from the parts.
#[derive(Debug, Clone)]
pub struct PathElement {
    parts: Vec<PathElementPart>,
    placeholders: bool,
    variable: bool,
    timeparts: bool,
    re: String,
}

impl PathElement {
    pub closed spec fn model(&self) -> Seq<PartModel> {
        parts_model(self.parts@)
    }

    /// The cached facts agree with the parts.
    pub closed spec fn wf(&self) -> bool {
        &&& self.placeholders == has_placeholder(self.model())
        &&& self.variable == has_variable(self.model())
        &&& self.timeparts == has_time_part(self.model())
        &&& self.re@ == regex_source(self.model())
    }

    /// An element of these parts.
    pub fn new(parts: Vec<PathElementPart>) -> (r: PathElement)
        ensures
            r.wf(),
            r.model() == parts_model(parts@),
    {
        let mut placeholders = false;
        let mut variable = false;
        let mut timeparts = false;
        let mut re: Vec<char> = vec!['^'];
        let ghost m = parts_model(parts@);
        let mut i: usize = 0;
        while i < parts.len()
            invariant
                i <= parts.len(),
                m == parts_model(parts@),
                placeholders == has_placeholder(m.subrange(0, i as int)),
                variable == has_variable(m.subrange(0, i as int)),
                timeparts == has_time_part(m.subrange(0, i as int)),
                re@ == seq!['^'] + regex_body(m.subrange(0, i as int)),
            decreases parts.len() - i,
        {
            let p = &parts[i];
            let ghost pre = m.subrange(0, i as int);
            let ghost post = m.subrange(0, i as int + 1);
            assert(post.drop_last() =~= pre);
            assert(post.last() == p.model());
            if !p.is_literal() {
                placeholders = true;
            }
            if p.is_variable() {
                variable = true;
            }
            if p.is_timepart() {
                timeparts = true;
            }
            let t = part_regex_text(p);
            push_chars(&mut re, &t);
            proof {
                assert(re@ =~= seq!['^'] + regex_body(post));
                assert(placeholders == has_placeholder(post)) by {
                    if has_placeholder(post) && !has_placeholder(pre) {
                        let j = choose|j: int| 0 <= j < post.len() && !is_literal_part(#[trigger] post[j]);
                        assert(j == i);
                    }
                    if has_placeholder(pre) {
                        let j = choose|j: int| 0 <= j < pre.len() && !is_literal_part(#[trigger] pre[j]);
                        assert(post[j] == pre[j]);
                    }
                }
                assert(variable == has_variable(post)) by {
                    if has_variable(post) && !has_variable(pre) {
                        let j = choose|j: int| 0 <= j < post.len() && is_variable_part(#[trigger] post[j]);
                        assert(j == i);
                    }
                    if has_variable(pre) {
                        let j = choose|j: int| 0 <= j < pre.len() && is_variable_part(#[trigger] pre[j]);
                        assert(post[j] == pre[j]);
                    }
                }
                assert(timeparts == has_time_part(post)) by {
                    if has_time_part(post) && !has_time_part(pre) {
                        let j = choose|j: int| 0 <= j < post.len() && is_time_part(#[trigger] post[j]);
                        assert(j == i);
                    }
                    if has_time_part(pre) {
                        let j = choose|j: int| 0 <= j < pre.len() && is_time_part(#[trigger] pre[j]);
                        assert(post[j] == pre[j]);
                    }
                }
            }
            i = i + 1;
        }
        re.push('$');
        assert(m.subrange(0, i as int) =~= m);
        assert(re@ =~= regex_source(m));
        let source = string_of(re.as_slice());
        PathElement { parts, placeholders, variable, timeparts, re: source }
    }

    /// Whether some part is not fixed text.
    pub fn has_placeholders(&self) -> (r: bool)
        requires
            self.wf(),
        ensures
            r == has_placeholder(self.model()),
    {
        self.placeholders
    }

    /// Whether some part still stands for unknown text.
    pub fn has_variable(&self) -> (r: bool)
        requires
            self.wf(),
        ensures
            r == has_variable(self.model()),
    {
        self.variable
    }

    /// Whether some part is a time field.
    pub fn has_timeparts(&self) -> (r: bool)
        requires
            self.wf(),
        ensures
            r == has_time_part(self.model()),
    {
        self.timeparts
    }
}

/// An optional time range that matched paths must fall in.
#[derive(Debug, Clone, Copy)]
pub struct PathMatchOptions {
    pub from: Option<CivilTime>,
    pub to: Option<CivilTime>,
}

impl PathMatchOptions {
    /// Where both bounds are given, `from` is earlier than `to`.
    pub open spec fn wf(&self) -> bool {
        (self.from is Some && self.to is Some) ==> civil_before(self.from.unwrap(), self.to.unwrap())
    }

    /// Options without bounds.
    pub fn new() -> (r: PathMatchOptions)
        ensures
            r.from is None,
            r.to is None,
            r.wf(),
    {
        PathMatchOptions { from: None, to: None }
    }

    /// Sets the lower bound, which must be earlier than an upper bound
    /// already set.
    pub fn from(&mut self, from: CivilTime)
        requires
            old(self).to is Some ==> civil_before(from, old(self).to.unwrap()),
        ensures
            final(self).from == Some(from),
            final(self).to == old(self).to,
            final(self).wf(),
    {
        self.from = Some(from);
    }

    /// Sets the upper bound, which must be later than a lower bound
    /// already set.
    pub fn to(&mut self, to: CivilTime)
        requires
            old(self).from is Some ==> civil_before(old(self).from.unwrap(), to),
        ensures
            final(self).to == Some(to),
            final(self).from == old(self).from,
            final(self).wf(),
    {
        self.to = Some(to);
    }
}

/// The bounds of a time range, and the time that the time fields of the
/// path matched so far spell out.
#[derive(Debug, Clone, Copy)]
pub struct MatchContext {
    pub match_time: CivilTime,
    pub from: Option<CivilTime>,
    pub to: Option<CivilTime>,
}

impl MatchContext {
    /// A context with the bounds of `opts`. Its time starts at the lower
    /// bound, so that the fields a path does not spell out are those of the
    /// lower bound; without one every field starts at zero.
    pub fn new(opts: &PathMatchOptions) -> (r: MatchContext)
        ensures
            r.match_time == initial_time(opts.from),
            r.from == opts.from,
            r.to == opts.to,
    {
        let start = match opts.from {
            Some(f) => f,
            None => CivilTime::zero(),
        };
        MatchContext { match_time: start, from: opts.from, to: opts.to }
    }

    /// Records the value of the time field that the conversion character
    /// `fmt` names.
    pub fn set_time_part(&mut self, fmt: char, part: i32)
        ensures
            final(self).match_time == with_time_field(old(self).match_time, fmt, part as i64),
            final(self).from == old(self).from,
            final(self).to == old(self).to,
    {
        self.match_time.set_field(fmt, part as i64);
    }
}

/// The time that matching starts from: the lower bound where there is one,
/// else every field zero.
pub open spec fn initial_time(from: Option<CivilTime>) -> CivilTime {
    match from {
        Some(f) => f,
        None => CivilTime::spec_zero(),
    }
}

/// `t` lies outside the bounds.
pub open spec fn out_of_bounds(t: CivilTime, from: Option<CivilTime>, to: Option<CivilTime>) -> bool {
    ||| (from is Some && civil_before(t, from.unwrap()))
    ||| (to is Some && civil_before(to.unwrap(), t))
}

/// Characters as bytes: ASCII characters as themselves, others as a byte
/// that is no digit and no sign.
pub open spec fn ascii_bytes(s: Seq<char>) -> Seq<u8> {
    s.map_values(|c: char| if (c as u32) < 128 { (c as u32) as u8 } else { 0u8 })
}

/// The value of a time field's text: unsigned decimal that fits in `i32`.
pub open spec fn time_value_of(s: Seq<char>) -> Option<nat> {
    bounded_field_value(ascii_bytes(s), 0x7fff_ffff)
}

/// The conversion character of a time field's format.
pub open spec fn fmt_char(fmt: Seq<char>) -> char {
    if fmt.len() > 0 {
        fmt[0]
    } else {
        ' '
    }
}

/// Walks the parts of an element against the groups that its expression
/// captured: each time field takes its value, or the next group, and sets
/// its field of the time; the last time field of the expression then
/// checks the bounds. Each unbound placeholder takes a group of its own.
/// Gives whether the walk succeeded and the time it left.
pub open spec fn scan_time_parts(
    ps: Seq<PartModel>,
    caps: Seq<Seq<char>>,
    t: CivilTime,
    from: Option<CivilTime>,
    to: Option<CivilTime>,
) -> (bool, CivilTime)
    decreases ps.len(),
{
    if ps.len() == 0 {
        (true, t)
    } else {
        match ps[0] {
            PartModel::TimePart { fmt, value, last } => {
                let text = match value {
                    Some(v) => Some(v),
                    None => if caps.len() > 0 {
                        Some(caps[0])
                    } else {
                        None
                    },
                };
                let rest = if value is None && caps.len() > 0 {
                    caps.drop_first()
                } else {
                    caps
                };
                match text {
                    None => (false, t),
                    Some(x) => match time_value_of(x) {
                        None => (false, t),
                        Some(n) => {
                            let t2 = with_time_field(t, fmt_char(fmt), n as i64);
                            if last && out_of_bounds(t2, from, to) {
                                (false, t2)
                            } else {
                                scan_time_parts(ps.drop_first(), rest, t2, from, to)
                            }
                        },
                    },
                }
            },
            PartModel::Placeholder { value: None, .. } => scan_time_parts(
                ps.drop_first(),
                if caps.len() > 0 {
                    caps.drop_first()
                } else {
                    caps
                },
                t,
                from,
                to,
            ),
            _ => scan_time_parts(ps.drop_first(), caps, t, from, to),
        }
    }
}

/// Whether an element with these parts matches the text `name`, and the
/// time that the match leaves.
pub open spec fn element_match(
    ps: Seq<PartModel>,
    name: Seq<char>,
    t: CivilTime,
    from: Option<CivilTime>,
    to: Option<CivilTime>,
) -> (bool, CivilTime) {
    match regex_captures(regex_source(ps), name) {
        None => (false, t),
        Some(caps) => if has_time_part(ps) {
            scan_time_parts(ps, caps, t, from, to)
        } else {
            (true, t)
        },
    }
}

/// The text of a part where it is known.
pub open spec fn part_text(p: PartModel) -> Option<Seq<char>> {
    match p {
        PartModel::Literal(s) => Some(s),
        PartModel::Placeholder { value, .. } => value,
        PartModel::TimePart { value, .. } => value,
    }
}

/// The known text at the start of an element, and whether that is the
/// whole element.
pub open spec fn element_prefix(ps: Seq<PartModel>) -> (Seq<char>, bool)
    decreases ps.len(),
{
    if ps.len() == 0 {
        (seq![], true)
    } else {
        match part_text(ps[0]) {
            None => (seq![], false),
            Some(t) => {
                let r = element_prefix(ps.drop_first());
                (t + r.0, r.1)
            },
        }
    }
}

/// The value of a time field's text.
fn time_value(s: &String) -> (r: Option<i32>)
    ensures
        r matches Some(v) <==> time_value_of(s@) is Some,
        r matches Some(v) ==> v >= 0 && time_value_of(s@) == Some(v as nat),
{
    let cs = chars_of(s.as_str());
    let mut bytes: Vec<u8> = Vec::new();
    let mut i: usize = 0;
    while i < cs.len()
        invariant
            i <= cs.len(),
            cs@ == s@,
            bytes@ =~= ascii_bytes(cs@.subrange(0, i as int)),
        decreases cs.len() - i,
    {
        let c = cs[i];
        let b: u8 = if (c as u32) < 128 {
            (c as u32) as u8
        } else {
            0u8
        };
        bytes.push(b);
        i = i + 1;
        assert(bytes@ =~= ascii_bytes(cs@.subrange(0, i as int)));
    }
    assert(cs@.subrange(0, i as int) =~= cs@);
    match parse_unsigned(bytes.as_slice(), 0x7fff_ffff) {
        Some(v) => Some(v as i32),
        None => None,
    }
}

impl PathElement {
    /// Whether the element matches `name`. A time field takes the value it
    /// is bound to or the group that it captured, and sets its field of the
    /// context's time; the last time field of the expression then requires
    /// that time to lie within the context's bounds.
    pub fn matches(&self, ctx: &mut MatchContext, name: &str) -> (r: bool)
        requires
            self.wf(),
        ensures
            (r, final(ctx).match_time) == element_match(
                self.model(),
                name@,
                old(ctx).match_time,
                old(ctx).from,
                old(ctx).to,
            ),
            final(ctx).from == old(ctx).from,
            final(ctx).to == old(ctx).to,
    {
        let found = captures(self.re.as_str(), name);
        let caps = match found {
            None => return false,
            Some(caps) => caps,
        };
        if !self.timeparts {
            return true;
        }
        self.match_captures(ctx, &caps)
    }

    /// Walks the parts against the groups that the element's expression
    /// captured: each time field takes the value it is bound to or the next
    /// group, and sets its field of the context's time; the last time field
    /// of the expression then requires that time to lie within the context's
    /// bounds. Each unbound placeholder takes a group of its own.
    pub fn match_captures(&self, ctx: &mut MatchContext, caps: &Vec<String>) -> (r: bool)
        requires
            self.wf(),
        ensures
            (r, final(ctx).match_time) == scan_time_parts(
                self.model(),
                caps@.map_values(|s: String| s@),
                old(ctx).match_time,
                old(ctx).from,
                old(ctx).to,
            ),
            final(ctx).from == old(ctx).from,
            final(ctx).to == old(ctx).to,
    {
        let ghost m = self.model();
        let ghost cs = caps@.map_values(|s: String| s@);
        let ghost t0 = ctx.match_time;
        assert(m.subrange(0, m.len() as int) =~= m);
        assert(cs.subrange(0, cs.len() as int) =~= cs);
        let mut i: usize = 0;
        let mut k: usize = 0;
        while i < self.parts.len()
            invariant
                i <= self.parts.len(),
                k <= caps.len(),
                m == self.model(),
                m == parts_model(self.parts@),
                cs == caps@.map_values(|s: String| s@),
                t0 == old(ctx).match_time,
                ctx.from == old(ctx).from,
                ctx.to == old(ctx).to,
                scan_time_parts(m, cs, t0, ctx.from, ctx.to) == scan_time_parts(
                    m.subrange(i as int, m.len() as int),
                    cs.subrange(k as int, cs.len() as int),
                    ctx.match_time,
                    ctx.from,
                    ctx.to,
                ),
            decreases self.parts.len() - i,
        {
            let ghost ms = m.subrange(i as int, m.len() as int);
            let ghost csk = cs.subrange(k as int, cs.len() as int);
            assert(ms.drop_first() =~= m.subrange(i as int + 1, m.len() as int));
            assert(ms[0] == self.parts@[i as int].model());
            if k < caps.len() {
                assert(csk.drop_first() =~= cs.subrange(k as int + 1, cs.len() as int));
                assert(csk[0] == caps@[k as int]@);
            }
            let ghost tt = ctx.match_time;
            match &self.parts[i] {
                PathElementPart::TimePart { fmt, value, last_in_expression } => {
                    let fc = chars_of(fmt.as_str());
                    let c: char = if fc.len() > 0 {
                        fc[0]
                    } else {
                        ' '
                    };
                    assert(c == fmt_char(fmt@));
                    assert(ms[0] == (PartModel::TimePart {
                        fmt: fmt@,
                        value: opt_text(*value),
                        last: *last_in_expression,
                    }));
                    let ghost k0 = k;
                    let text: &String = match value {
                        Some(v) => v,
                        None => {
                            if k < caps.len() {
                                k = k + 1;
                                &caps[k - 1]
                            } else {
                                assert(scan_time_parts(ms, csk, tt, ctx.from, ctx.to) == (false, tt));
                                return false;
                            }
                        },
                    };
                    let n = match time_value(text) {
                        Some(n) => n,
                        None => {
                            assert(scan_time_parts(ms, csk, tt, ctx.from, ctx.to) == (false, tt));
                            return false;
                        },
                    };
                    proof {
                        if value is None {
                            assert(text@ == csk[0]);
                            assert(k == k0 + 1);
                        } else {
                            assert(text@ == value.unwrap()@);
                        }
                        assert(time_value_of(text@) == Some(n as nat));
                    }
                    ctx.set_time_part(c, n);
                    let ghost t2 = ctx.match_time;
                    assert(t2 == with_time_field(tt, fmt_char(fmt@), (n as nat) as i64));
                    if *last_in_expression {
                        if let Some(from) = ctx.from {
                            if ctx.match_time.is_before(&from) {
                                assert(scan_time_parts(ms, csk, tt, ctx.from, ctx.to) == (false, t2));
                                return false;
                            }
                        }
                        if let Some(to) = ctx.to {
                            if to.is_before(&ctx.match_time) {
                                assert(scan_time_parts(ms, csk, tt, ctx.from, ctx.to) == (false, t2));
                                return false;
                            }
                        }
                    }
                    assert(scan_time_parts(ms, csk, tt, ctx.from, ctx.to) == scan_time_parts(
                        m.subrange(i as int + 1, m.len() as int),
                        cs.subrange(k as int, cs.len() as int),
                        t2,
                        ctx.from,
                        ctx.to,
                    ));
                },
                PathElementPart::Placeholder { value: None, .. } => {
                    if k < caps.len() {
                        k = k + 1;
                    }
                },
                _ => {},
            }
            i = i + 1;
        }
        true
    }

    /// Appends the known text at the start of the element; returns whether
    /// that was the whole element.
    pub fn common_prefix(&self, prefix: &mut Vec<char>) -> (r: bool)
        ensures
            final(prefix)@ == old(prefix)@ + element_prefix(self.model()).0,
            r == element_prefix(self.model()).1,
    {
        let ghost m = self.model();
        assert(m.subrange(0, m.len() as int) =~= m);
        let mut i: usize = 0;
        while i < self.parts.len()
            invariant
                i <= self.parts.len(),
                m == self.model(),
                m == parts_model(self.parts@),
                old(prefix)@ + element_prefix(m).0 == prefix@ + element_prefix(
                    m.subrange(i as int, m.len() as int),
                ).0,
                element_prefix(m).1 == element_prefix(m.subrange(i as int, m.len() as int)).1,
            decreases self.parts.len() - i,
        {
            let ghost ms = m.subrange(i as int, m.len() as int);
            assert(ms.drop_first() =~= m.subrange(i as int + 1, m.len() as int));
            assert(ms[0] == self.parts@[i as int].model());
            let text: &String = match &self.parts[i] {
                PathElementPart::Literal(s) => s,
                PathElementPart::Placeholder { value: Some(v), .. } => v,
                PathElementPart::TimePart { value: Some(v), .. } => v,
                _ => {
                    assert(prefix@ + seq![] =~= prefix@);
                    return false;
                },
            };
            let t = chars_of(text.as_str());
            let ghost before = prefix@;
            push_chars(prefix, &t);
            assert(before + element_prefix(ms).0 =~= prefix@ + element_prefix(
                m.subrange(i as int + 1, m.len() as int),
            ).0);
            i = i + 1;
        }
        assert(prefix@ + seq![] =~= prefix@);
        true
    }

    /// A copy of the element.
    pub fn duplicate(&self) -> (r: PathElement)
        requires
            self.wf(),
        ensures
            r.wf(),
            r.model() == self.model(),
    {
        let mut parts: Vec<PathElementPart> = Vec::new();
        let mut i: usize = 0;
        while i < self.parts.len()
            invariant
                i <= self.parts.len(),
                parts@.len() == i,
                forall|j: int| 0 <= j < i ==> (#[trigger] parts@[j]).model() == self.parts@[j].model(),
            decreases self.parts.len() - i,
        {
            parts.push(self.parts[i].duplicate());
            i = i + 1;
        }
        assert(parts_model(parts@) =~= parts_model(self.parts@));
        PathElement {
            parts,
            placeholders: self.placeholders,
            variable: self.variable,
            timeparts: self.timeparts,
            re: self.re.clone(),
        }
    }
}

/// What a path expression says: whether it begins and ends with a
/// separator, and the parts of each element.
pub struct ExprModel {
    pub lead: bool,
    pub trail: bool,
    pub elements: Seq<Seq<PartModel>>,
}

pub open spec fn elements_model(els: Seq<PathElement>) -> Seq<Seq<PartModel>> {
    els.map_values(|e: PathElement| e.model())
}

/// The known text at the start of a sequence of elements joined by `/`,
/// and whether that is all of them.
pub open spec fn elements_prefix(els: Seq<Seq<PartModel>>) -> (Seq<char>, bool)
    decreases els.len(),
{
    if els.len() == 0 {
        (seq![], true)
    } else {
        let first = element_prefix(els[0]);
        if !first.1 {
            (first.0, false)
        } else if els.len() == 1 {
            (first.0, true)
        } else {
            let r = elements_prefix(els.drop_first());
            (first.0 + seq!['/'] + r.0, r.1)
        }
    }
}

/// The longest literal text that every path matching the expression
/// starts with: the leading separator, the known text of the elements up
/// to the first part not known, and the trailing separator where every
/// part is known.
pub open spec fn expr_prefix(m: ExprModel) -> Seq<char> {
    let r = elements_prefix(m.elements);
    (if m.lead {
        seq!['/']
    } else {
        seq![]
    }) + r.0 + (if m.trail && r.1 {
        seq!['/']
    } else {
        seq![]
    })
}

/// The order of the time fields from the most significant down.
pub open spec fn field_order() -> Seq<char> {
    seq!['Y', 'm', 'd', 'H', 'M', 'S']
}

/// How many of `cs`, from the first, read the same at both times.
pub open spec fn constant_run(from: CivilTime, to: CivilTime, cs: Seq<char>) -> nat
    decreases cs.len(),
{
    if cs.len() == 0 {
        0
    } else if time_field_text(from, cs[0]) == time_field_text(to, cs[0]) {
        1 + constant_run(from, to, cs.drop_first())
    } else {
        0
    }
}

/// The time fields that read the same at both times, taken from the most
/// significant down and stopping at the first that differs.
pub open spec fn constant_fields(from: CivilTime, to: CivilTime) -> Seq<char> {
    field_order().subrange(0, constant_run(from, to, field_order()) as int)
}

/// A time field whose conversion is constant over the range gets the
/// value it has at `from`.
pub open spec fn specialise_part(p: PartModel, from: CivilTime, to: CivilTime) -> PartModel {
    match p {
        PartModel::TimePart { fmt, value, last } => if constant_fields(from, to).contains(
            fmt_char(fmt),
        ) {
            PartModel::TimePart { fmt, value: Some(time_field_text(from, fmt_char(fmt))), last }
        } else {
            p
        },
        _ => p,
    }
}

/// The elements specialised to a time range: unchanged unless both
/// bounds are given.
pub open spec fn specialised(els: Seq<Seq<PartModel>>, opts: PathMatchOptions) -> Seq<Seq<PartModel>> {
    if opts.from is None || opts.to is None {
        els
    } else {
        els.map_values(
            |ps: Seq<PartModel>|
                ps.map_values(|p: PartModel| specialise_part(p, opts.from.unwrap(), opts.to.unwrap())),
        )
    }
}

/// The parts with the first unbound placeholder bound to `v`, and whether
/// there was one.
pub open spec fn bind_in_parts(ps: Seq<PartModel>, v: Seq<char>) -> (Seq<PartModel>, bool)
    decreases ps.len(),
{
    if ps.len() == 0 {
        (ps, false)
    } else {
        match ps[0] {
            PartModel::Placeholder { name, value: None } => (
                ps.update(0, PartModel::Placeholder { name, value: Some(v) }),
                true,
            ),
            _ => {
                let r = bind_in_parts(ps.drop_first(), v);
                (seq![ps[0]] + r.0, r.1)
            },
        }
    }
}

/// The elements with the first unbound placeholder of the expression
/// bound to `v`.
pub open spec fn bind_first(els: Seq<Seq<PartModel>>, v: Seq<char>) -> Seq<Seq<PartModel>>
    decreases els.len(),
{
    if els.len() == 0 {
        els
    } else {
        let r = bind_in_parts(els[0], v);
        if r.1 {
            seq![r.0] + els.drop_first()
        } else {
            seq![els[0]] + bind_first(els.drop_first(), v)
        }
    }
}

/// A pattern over `/`-separated paths, with the time range it was
/// specialised to.
#[derive(Debug, Clone)]
pub struct PathExpression {
    leading_sep: bool,
    trailing_sep: bool,
    elements: Vec<PathElement>,
    opts: Option<PathMatchOptions>,
}

impl PathExpression {
    pub closed spec fn model(&self) -> ExprModel {
        ExprModel {
            lead: self.leading_sep,
            trail: self.trailing_sep,
            elements: elements_model(self.elements@),
        }
    }

    /// The elements that `with(opts)` gives.
    pub open spec fn with_elements(&self, opts: PathMatchOptions) -> Seq<Seq<PartModel>> {
        specialised(self.model().elements, opts)
    }

    /// The time range that the expression was specialised to.
    pub closed spec fn options(&self) -> Option<PathMatchOptions> {
        self.opts
    }

    /// Every element's cached facts agree with its parts.
    pub closed spec fn wf(&self) -> bool {
        forall|i: int| 0 <= i < self.elements@.len() ==> (#[trigger] self.elements@[i]).wf()
    }

    /// The longest literal text that every matching path starts with.
    pub fn common_prefix(&self) -> (r: String)
        ensures
            r@ == expr_prefix(self.model()),
    {
        let ghost els = self.model().elements;
        let mut out: Vec<char> = Vec::new();
        if self.leading_sep {
            out.push('/');
        }
        let ghost lead = out@;
        let mut complete = true;
        let mut i: usize = 0;
        assert(els.subrange(0, els.len() as int) =~= els);
        while i < self.elements.len()
            invariant_except_break
                complete,
                lead + elements_prefix(els).0 == out@ + elements_prefix(
                    els.subrange(i as int, els.len() as int),
                ).0,
                elements_prefix(els).1 == elements_prefix(els.subrange(i as int, els.len() as int)).1,
            invariant
                i <= self.elements.len(),
                els == elements_model(self.elements@),
            ensures
                complete ==> i == self.elements.len() && lead + elements_prefix(els).0 == out@
                    + elements_prefix(els.subrange(i as int, els.len() as int)).0
                    && elements_prefix(els).1 == elements_prefix(
                    els.subrange(i as int, els.len() as int),
                ).1,
                !complete ==> lead + elements_prefix(els).0 == out@ && !elements_prefix(els).1,
            decreases self.elements.len() - i,
        {
            let ghost rest = els.subrange(i as int, els.len() as int);
            let ghost next = els.subrange(i as int + 1, els.len() as int);
            assert(rest.drop_first() =~= next);
            assert(rest[0] == self.elements@[i as int].model());
            let ghost before = out@;
            let whole = self.elements[i].common_prefix(&mut out);
            if !whole {
                complete = false;
                assert(lead + elements_prefix(els).0 == out@);
                assert(!elements_prefix(els).1);
                break;
            }
            if i + 1 < self.elements.len() {
                out.push('/');
                assert(before + elements_prefix(rest).0 =~= out@ + elements_prefix(next).0);
            } else {
                assert(next.len() == 0);
                assert(before + elements_prefix(rest).0 =~= out@ + elements_prefix(next).0);
            }
            i = i + 1;
        }
        proof {
            if complete {
                assert(els.subrange(i as int, els.len() as int).len() == 0);
                assert(lead + elements_prefix(els).0 =~= out@);
            }
        }
        if self.trailing_sep && complete {
            out.push('/');
        }
        let r = string_of(out.as_slice());
        assert(r@ =~= expr_prefix(self.model()));
        r
    }
}

/// The position of the first `c` in `s`, or its length where there is none.
pub open spec fn index_of(s: Seq<char>, c: char) -> nat
    decreases s.len(),
{
    if s.len() == 0 {
        0
    } else if s[0] == c {
        0
    } else {
        1 + index_of(s.drop_first(), c)
    }
}

pub proof fn lemma_index_of(s: Seq<char>, c: char, k: int)
    requires
        0 <= k <= s.len(),
        forall|j: int| 0 <= j < k ==> s[j] != c,
        k == s.len() || s[k] == c,
    ensures
        index_of(s, c) == k,
    decreases k,
{
    if k > 0 {
        lemma_index_of(s.drop_first(), c, k - 1);
    }
}

pub proof fn lemma_index_of_bound(s: Seq<char>, c: char)
    ensures
        index_of(s, c) <= s.len(),
        index_of(s, c) < s.len() ==> s[index_of(s, c) as int] == c,
        forall|j: int| 0 <= j < index_of(s, c) ==> s[j] != c,
    decreases s.len(),
{
    if s.len() > 0 && s[0] != c {
        lemma_index_of_bound(s.drop_first(), c);
        assert forall|j: int| 0 <= j < index_of(s, c) implies s[j] != c by {
            if j > 0 {
                assert(s[j] == s.drop_first()[j - 1]);
            }
        }
    }
}

/// A placeholder's text between the braces: `%` and a format make a time
/// field, anything else names a placeholder.
pub open spec fn placeholder_part(body: Seq<char>) -> PartModel {
    if body.len() >= 2 && body[0] == '%' {
        PartModel::TimePart { fmt: body.drop_first(), value: None, last: false }
    } else {
        PartModel::Placeholder { name: body, value: None }
    }
}

pub open spec fn prepend_parts(acc: Seq<PartModel>, r: Option<Seq<PartModel>>) -> Option<Seq<PartModel>> {
    match r {
        Some(x) => Some(acc + x),
        None => None,
    }
}

pub open spec fn prepend_lists(
    acc: Seq<Seq<PartModel>>,
    r: Option<Seq<Seq<PartModel>>>,
) -> Option<Seq<Seq<PartModel>>> {
    match r {
        Some(x) => Some(acc + x),
        None => None,
    }
}

/// The parts of one element's text (which holds no `/`): runs of literal
/// text, and `{...}` placeholders with at least one character inside.
pub open spec fn parsed_parts(s: Seq<char>) -> Option<Seq<PartModel>>
    decreases s.len(),
{
    if s.len() == 0 {
        Some(seq![])
    } else if s[0] == '{' {
        let k = index_of(s, '}');
        if k >= s.len() || k <= 1 {
            None
        } else {
            prepend_parts(
                seq![placeholder_part(s.subrange(1, k as int))],
                parsed_parts(s.subrange(k + 1 as int, s.len() as int)),
            )
        }
    } else {
        let k = index_of(s, '{');
        if k == 0 || k > s.len() {
            None
        } else {
            prepend_parts(
                seq![PartModel::Literal(s.subrange(0, k as int))],
                parsed_parts(s.subrange(k as int, s.len() as int)),
            )
        }
    }
}

/// The elements of a text: its maximal runs without `/`, each parsed into
/// parts.
pub open spec fn parsed_segments(s: Seq<char>) -> Option<Seq<Seq<PartModel>>>
    decreases s.len(),
{
    if s.len() == 0 {
        Some(seq![])
    } else if s[0] == '/' {
        parsed_segments(s.drop_first())
    } else {
        let k = index_of(s, '/');
        if k == 0 || k > s.len() {
            None
        } else {
            match parsed_parts(s.subrange(0, k as int)) {
                None => None,
                Some(p) => prepend_lists(seq![p], parsed_segments(s.subrange(k as int, s.len() as int))),
            }
        }
    }
}

/// The position of the last time field in the parts.
pub open spec fn last_time_in(ps: Seq<PartModel>) -> Option<int>
    decreases ps.len(),
{
    if ps.len() == 0 {
        None
    } else if is_time_part(ps.last()) {
        Some(ps.len() - 1)
    } else {
        last_time_in(ps.drop_last())
    }
}

/// The element and part position of the last time field of the elements.
pub open spec fn last_time_pos(els: Seq<Seq<PartModel>>) -> Option<(int, int)>
    decreases els.len(),
{
    if els.len() == 0 {
        None
    } else {
        match last_time_in(els.last()) {
            Some(j) => Some((els.len() - 1, j)),
            None => last_time_pos(els.drop_last()),
        }
    }
}

pub open spec fn mark_last(p: PartModel) -> PartModel {
    match p {
        PartModel::TimePart { fmt, value, .. } => PartModel::TimePart { fmt, value, last: true },
        _ => p,
    }
}

/// The elements with their last time field marked as the last one.
pub open spec fn mark_last_time_part(els: Seq<Seq<PartModel>>) -> Seq<Seq<PartModel>> {
    match last_time_pos(els) {
        None => els,
        Some(pos) => els.update(pos.0, els[pos.0].update(pos.1, mark_last(els[pos.0][pos.1]))),
    }
}

/// The expression that a text denotes: an optional leading `/`, an
/// optional trailing `/`, and between them elements separated by runs of
/// `/`; `None` where the text is malformed.
pub open spec fn parsed_expression(s: Seq<char>) -> Option<ExprModel> {
    let lead = s.len() > 0 && s[0] == '/';
    let b1 = if lead {
        s.drop_first()
    } else {
        s
    };
    let trail = b1.len() > 0 && b1.last() == '/';
    let body = if trail {
        b1.drop_last()
    } else {
        b1
    };
    match parsed_segments(body) {
        None => None,
        Some(els) => Some(ExprModel { lead, trail, elements: mark_last_time_part(els) }),
    }
}

/// The position of the first `c` in `cs` from `lo` up to `hi`, or `hi`.
fn find_char(cs: &Vec<char>, lo: usize, hi: usize, c: char) -> (k: usize)
    requires
        lo <= hi <= cs@.len(),
    ensures
        lo <= k <= hi,
        index_of(cs@.subrange(lo as int, hi as int), c) == k - lo,
{
    let mut k = lo;
    while k < hi && cs[k] != c
        invariant
            lo <= k <= hi <= cs@.len(),
            forall|j: int| lo <= j < k ==> cs@[j] != c,
        decreases hi - k,
    {
        k = k + 1;
    }
    proof {
        let sub = cs@.subrange(lo as int, hi as int);
        assert forall|j: int| 0 <= j < k - lo implies sub[j] != c by {
            assert(sub[j] == cs@[lo + j]);
        }
        lemma_index_of(sub, c, k - lo);
    }
    k
}

fn parse_parts(cs: &Vec<char>, lo: usize, hi: usize) -> (r: Option<Vec<PathElementPart>>)
    requires
        lo <= hi <= cs@.len(),
    ensures
        match r {
            Some(v) => parsed_parts(cs@.subrange(lo as int, hi as int)) == Some(parts_model(v@)),
            None => parsed_parts(cs@.subrange(lo as int, hi as int)) is None,
        },
{
    let mut acc: Vec<PathElementPart> = Vec::new();
    let mut i = lo;
    while i < hi
        invariant
            lo <= i <= hi <= cs@.len(),
            parsed_parts(cs@.subrange(lo as int, hi as int)) == prepend_parts(
                parts_model(acc@),
                parsed_parts(cs@.subrange(i as int, hi as int)),
            ),
        decreases hi - i,
    {
        let ghost sub = cs@.subrange(i as int, hi as int);
        let ghost before = parts_model(acc@);
        if cs[i] == '{' {
            let k = find_char(cs, i + 1, hi, '}');
            proof {
                assert(sub.drop_first() =~= cs@.subrange(i as int + 1, hi as int));
                assert(index_of(sub, '}') == k - i);
            }
            if k == hi || k == i + 1 {
                return None;
            }
            let part = if k - i >= 3 && cs[i + 1] == '%' {
                PathElementPart::TimePart {
                    fmt: string_of_range(cs, i + 2, k),
                    value: None,
                    last_in_expression: false,
                }
            } else {
                PathElementPart::Placeholder { name: string_of_range(cs, i + 1, k), value: None }
            };
            proof {
                let body = sub.subrange(1, k - i);
                assert(body =~= cs@.subrange(i as int + 1, k as int));
                assert(body.drop_first() =~= cs@.subrange(i as int + 2, k as int));
                assert(part.model() == placeholder_part(body));
                assert(sub.subrange(k - i + 1, sub.len() as int) =~= cs@.subrange(k as int + 1, hi as int));
            }
            acc.push(part);
            assert(parts_model(acc@) =~= before + seq![part.model()]);
            i = k + 1;
        } else {
            let k = find_char(cs, i, hi, '{');
            proof {
                if k == i {
                    lemma_index_of_bound(sub, '{');
                }
            }
            let part = PathElementPart::Literal(string_of_range(cs, i, k));
            proof {
                assert(sub.subrange(0, k - i) =~= cs@.subrange(i as int, k as int));
                assert(sub.subrange(k - i, sub.len() as int) =~= cs@.subrange(k as int, hi as int));
            }
            acc.push(part);
            assert(parts_model(acc@) =~= before + seq![part.model()]);
            i = k;
        }
    }
    assert(parts_model(acc@) + seq![] =~= parts_model(acc@));
    Some(acc)
}

pub open spec fn lists_model(v: Seq<Vec<PathElementPart>>) -> Seq<Seq<PartModel>> {
    v.map_values(|p: Vec<PathElementPart>| parts_model(p@))
}

fn parse_segments(cs: &Vec<char>, lo: usize, hi: usize) -> (r: Option<Vec<Vec<PathElementPart>>>)
    requires
        lo <= hi <= cs@.len(),
    ensures
        match r {
            Some(v) => parsed_segments(cs@.subrange(lo as int, hi as int)) == Some(lists_model(v@)),
            None => parsed_segments(cs@.subrange(lo as int, hi as int)) is None,
        },
{
    let mut acc: Vec<Vec<PathElementPart>> = Vec::new();
    let mut i = lo;
    while i < hi
        invariant
            lo <= i <= hi <= cs@.len(),
            parsed_segments(cs@.subrange(lo as int, hi as int)) == prepend_lists(
                lists_model(acc@),
                parsed_segments(cs@.subrange(i as int, hi as int)),
            ),
        decreases hi - i,
    {
        let ghost sub = cs@.subrange(i as int, hi as int);
        let ghost before = lists_model(acc@);
        if cs[i] == '/' {
            assert(sub.drop_first() =~= cs@.subrange(i as int + 1, hi as int));
            i = i + 1;
        } else {
            let k = find_char(cs, i, hi, '/');
            proof {
                if k == i {
                    lemma_index_of_bound(sub, '/');
                }
                assert(sub.subrange(0, k - i) =~= cs@.subrange(i as int, k as int));
                assert(sub.subrange(k - i, sub.len() as int) =~= cs@.subrange(k as int, hi as int));
            }
            let parts = match parse_parts(cs, i, k) {
                Some(p) => p,
                None => return None,
            };
            let ghost pm = parts_model(parts@);
            acc.push(parts);
            assert(lists_model(acc@) =~= before + seq![pm]);
            i = k;
        }
    }
    assert(lists_model(acc@) + seq![] =~= lists_model(acc@));
    Some(acc)
}

fn find_last_time_part(lists: &Vec<Vec<PathElementPart>>) -> (r: Option<(usize, usize)>)
    ensures
        match r {
            Some(p) => {
                &&& last_time_pos(lists_model(lists@)) == Some((p.0 as int, p.1 as int))
                &&& p.0 < lists@.len()
                &&& p.1 < lists@[p.0 as int]@.len()
            },
            None => last_time_pos(lists_model(lists@)) is None,
        },
{
    let ghost els = lists_model(lists@);
    let mut i = lists.len();
    assert(els.subrange(0, els.len() as int) =~= els);
    while i > 0
        invariant
            i <= lists@.len(),
            els == lists_model(lists@),
            last_time_pos(els) == last_time_pos(els.subrange(0, i as int)),
        decreases i,
    {
        let ghost pre = els.subrange(0, i as int);
        assert(pre.drop_last() =~= els.subrange(0, i - 1));
        let ps = &lists[i - 1];
        let ghost pm = parts_model(ps@);
        assert(pre.last() == pm);
        let mut j = ps.len();
        assert(pm.subrange(0, pm.len() as int) =~= pm);
        while j > 0
            invariant
                j <= ps@.len(),
                0 < i <= lists@.len(),
                els == lists_model(lists@),
                ps@ == lists@[i - 1]@,
                pm == parts_model(ps@),
                pre == els.subrange(0, i as int),
                pre.last() == pm,
                pre.len() == i,
                last_time_pos(els) == last_time_pos(pre),
                last_time_in(pm) == last_time_in(pm.subrange(0, j as int)),
            decreases j,
        {
            let ghost pj = pm.subrange(0, j as int);
            assert(pj.drop_last() =~= pm.subrange(0, j - 1));
            if ps[j - 1].is_timepart() {
                proof {
                    assert(pj.last() == pm[j - 1]);
                    assert(last_time_in(pj) == Some(j - 1));
                    assert(last_time_in(pre.last()) == Some(j - 1));
                    assert(last_time_pos(pre) == Some((i - 1, j - 1)));
                    assert(lists@[i - 1]@.len() == ps@.len());
                }
                return Some((i - 1, j - 1));
            }
            j = j - 1;
        }
        i = i - 1;
    }
    None
}

fn marked_copy(ps: &Vec<PathElementPart>, mark: Option<usize>) -> (r: Vec<PathElementPart>)
    ensures
        parts_model(r@) == match mark {
            Some(j) => if j < ps@.len() {
                parts_model(ps@).update(j as int, mark_last(parts_model(ps@)[j as int]))
            } else {
                parts_model(ps@)
            },
            None => parts_model(ps@),
        },
{
    let ghost pm = parts_model(ps@);
    let ghost target = match mark {
        Some(j) => if j < ps@.len() {
            pm.update(j as int, mark_last(pm[j as int]))
        } else {
            pm
        },
        None => pm,
    };
    let mut r: Vec<PathElementPart> = Vec::new();
    let mut k: usize = 0;
    while k < ps.len()
        invariant
            k <= ps@.len(),
            pm == parts_model(ps@),
            target.len() == pm.len(),
            target == (match mark {
                Some(j) => if j < ps@.len() {
                    pm.update(j as int, mark_last(pm[j as int]))
                } else {
                    pm
                },
                None => pm,
            }),
            r@.len() == k,
            forall|m: int| 0 <= m < k ==> (#[trigger] r@[m]).model() == target[m],
        decreases ps.len() - k,
    {
        let is_mark = match mark {
            Some(j) => j == k,
            None => false,
        };
        let p = &ps[k];
        let q = if is_mark {
            match p {
                PathElementPart::TimePart { fmt, value, .. } => PathElementPart::TimePart {
                    fmt: fmt.clone(),
                    value: copy_opt_string(value),
                    last_in_expression: true,
                },
                _ => p.duplicate(),
            }
        } else {
            p.duplicate()
        };
        r.push(q);
        k = k + 1;
    }
    assert(parts_model(r@) =~= target);
    r
}

impl PathExpression {
    /// Parses a path expression: an optional leading `/`, an optional
    /// trailing `/`, and between them elements separated by runs of `/`.
    /// An element is a sequence of literal text and `{...}` placeholders;
    /// `{%c}` is a time field with conversion `c`, `{name}` a named
    /// placeholder. The last time field of the expression is marked as such.
    pub fn parse(exp: &str) -> (r: Result<PathExpression, &'static str>)
        ensures
            match r {
                Ok(e) => {
                    &&& e.wf()
                    &&& e.options() is None
                    &&& parsed_expression(exp@) == Some(e.model())
                },
                Err(_) => parsed_expression(exp@) is None,
            },
    {
        let cs = chars_of(exp);
        let n = cs.len();
        let lead = n > 0 && cs[0] == '/';
        let lo: usize = if lead {
            1
        } else {
            0
        };
        let trail = n > lo && cs[n - 1] == '/';
        let hi: usize = if trail {
            n - 1
        } else {
            n
        };
        proof {
            let s = exp@;
            let b1 = if lead {
                s.drop_first()
            } else {
                s
            };
            assert(b1 =~= cs@.subrange(lo as int, n as int));
            if trail {
                assert(b1.drop_last() =~= cs@.subrange(lo as int, hi as int));
            } else {
                assert(b1 =~= cs@.subrange(lo as int, hi as int));
            }
        }
        let lists = match parse_segments(&cs, lo, hi) {
            None => return Err("error parsing path expression"),
            Some(l) => l,
        };
        let ghost els = lists_model(lists@);
        let pos = find_last_time_part(&lists);
        let mut elements: Vec<PathElement> = Vec::new();
        let mut i: usize = 0;
        while i < lists.len()
            invariant
                i <= lists@.len(),
                els == lists_model(lists@),
                match pos {
                    Some(p) => {
                        &&& last_time_pos(els) == Some((p.0 as int, p.1 as int))
                        &&& p.0 < lists@.len()
                        &&& p.1 < lists@[p.0 as int]@.len()
                    },
                    None => last_time_pos(els) is None,
                },
                elements@.len() == i,
                forall|m: int| 0 <= m < i ==> (#[trigger] elements@[m]).wf(),
                forall|m: int|
                    0 <= m < i ==> (#[trigger] elements@[m]).model() == mark_last_time_part(els)[m],
            decreases lists.len() - i,
        {
            let mark = match pos {
                Some(p) => if p.0 == i {
                    Some(p.1)
                } else {
                    None
                },
                None => None,
            };
            let e = PathElement::new(marked_copy(&lists[i], mark));
            elements.push(e);
            i = i + 1;
        }
        let r = PathExpression { leading_sep: lead, trailing_sep: trail, elements, opts: None };
        assert(r.model().elements =~= mark_last_time_part(els));
        Ok(r)
    }
}

pub open spec fn is_unbound_placeholder(p: PartModel) -> bool {
    p matches PartModel::Placeholder { value: None, .. }
}

pub open spec fn bind_part(p: PartModel, v: Seq<char>) -> PartModel {
    match p {
        PartModel::Placeholder { name, .. } => PartModel::Placeholder { name, value: Some(v) },
        _ => p,
    }
}

proof fn lemma_bind_in_parts(ps: Seq<PartModel>, v: Seq<char>, k: int)
    requires
        0 <= k <= ps.len(),
        forall|j: int| 0 <= j < k ==> !is_unbound_placeholder(#[trigger] ps[j]),
        k == ps.len() || is_unbound_placeholder(ps[k]),
    ensures
        bind_in_parts(ps, v) == if k < ps.len() {
            (ps.update(k, bind_part(ps[k], v)), true)
        } else {
            (ps, false)
        },
    decreases k,
{
    if k > 0 {
        let t = ps.drop_first();
        assert forall|j: int| 0 <= j < k - 1 implies !is_unbound_placeholder(#[trigger] t[j]) by {
            assert(t[j] == ps[j + 1]);
        }
        lemma_bind_in_parts(t, v, k - 1);
        if k < ps.len() {
            assert(seq![ps[0]] + t.update(k - 1, bind_part(t[k - 1], v)) =~= ps.update(
                k,
                bind_part(ps[k], v),
            ));
        } else {
            assert(seq![ps[0]] + t =~= ps);
        }
    } else if ps.len() > 0 {
        assert(is_unbound_placeholder(ps[0]));
    }
}

proof fn lemma_bind_first(els: Seq<Seq<PartModel>>, v: Seq<char>, i: int)
    requires
        0 <= i <= els.len(),
        forall|j: int| 0 <= j < i ==> !(#[trigger] bind_in_parts(els[j], v)).1,
        i == els.len() || bind_in_parts(els[i], v).1,
    ensures
        bind_first(els, v) == if i < els.len() {
            els.update(i, bind_in_parts(els[i], v).0)
        } else {
            els
        },
    decreases i,
{
    if i > 0 {
        let t = els.drop_first();
        assert forall|j: int| 0 <= j < i - 1 implies !(#[trigger] bind_in_parts(t[j], v)).1 by {
            assert(t[j] == els[j + 1]);
            assert(!bind_in_parts(els[j + 1], v).1);
        }
        lemma_bind_first(t, v, i - 1);
        assert(!bind_in_parts(els[0], v).1);
        if i < els.len() {
            assert(seq![els[0]] + t.update(i - 1, bind_in_parts(t[i - 1], v).0) =~= els.update(
                i,
                bind_in_parts(els[i], v).0,
            ));
        } else {
            assert(seq![els[0]] + t =~= els);
        }
    }
}

/// The parts with the first unbound placeholder bound to `v`, and whether
/// there was one.
fn bind_parts(ps: &Vec<PathElementPart>, v: &str) -> (r: (Vec<PathElementPart>, bool))
    ensures
        (parts_model(r.0@), r.1) == bind_in_parts(parts_model(ps@), v@),
{
    let ghost pm = parts_model(ps@);
    let mut k: usize = 0;
    while k < ps.len() && !matches!(ps[k], PathElementPart::Placeholder { value: None, .. })
        invariant
            k <= ps@.len(),
            pm == parts_model(ps@),
            forall|j: int| 0 <= j < k ==> !is_unbound_placeholder(#[trigger] pm[j]),
        decreases ps.len() - k,
    {
        k = k + 1;
    }
    proof {
        lemma_bind_in_parts(pm, v@, k as int);
    }
    let mut r: Vec<PathElementPart> = Vec::new();
    let mut m: usize = 0;
    while m < ps.len()
        invariant
            m <= ps@.len(),
            k <= ps@.len(),
            pm == parts_model(ps@),
            r@.len() == m,
            forall|j: int|
                0 <= j < m ==> (#[trigger] r@[j]).model() == (if j == k {
                    bind_part(pm[j], v@)
                } else {
                    pm[j]
                }),
        decreases ps.len() - m,
    {
        let q = if m == k {
            match &ps[m] {
                PathElementPart::Placeholder { name, .. } => PathElementPart::Placeholder {
                    name: name.clone(),
                    value: Some(v.to_owned()),
                },
                p => p.duplicate(),
            }
        } else {
            ps[m].duplicate()
        };
        r.push(q);
        m = m + 1;
    }
    if k < ps.len() {
        assert(parts_model(r@) =~= pm.update(k as int, bind_part(pm[k as int], v@)));
    } else {
        assert(parts_model(r@) =~= pm);
    }
    (r, k < ps.len())
}

/// The expression with its first unbound placeholder bound to
/// `literal_val`.
pub fn create_specialised(pathexp: &PathExpression, literal_val: &str) -> (r: PathExpression)
    requires
        pathexp.wf(),
    ensures
        r.wf(),
        r.options() == pathexp.options(),
        r.model() == (ExprModel {
            lead: pathexp.model().lead,
            trail: pathexp.model().trail,
            elements: bind_first(pathexp.model().elements, literal_val@),
        }),
{
    let ghost els = pathexp.model().elements;
    let mut elements: Vec<PathElement> = Vec::new();
    let mut done = false;
    let mut i: usize = 0;
    let ghost mut found: int = els.len() as int;
    while i < pathexp.elements.len()
        invariant
            i <= pathexp.elements@.len(),
            pathexp.wf(),
            els == pathexp.model().elements,
            els == elements_model(pathexp.elements@),
            elements@.len() == i,
            done ==> 0 <= found < i && bind_in_parts(els[found], literal_val@).1,
            !done ==> found == els.len(),
            forall|j: int| 0 <= j < i && j != found ==> !(#[trigger] bind_in_parts(els[j], literal_val@)).1
                || done,
            forall|j: int| 0 <= j < i && (!done || j < found) ==> !(#[trigger] bind_in_parts(
                els[j],
                literal_val@,
            )).1,
            forall|j: int| 0 <= j < i ==> (#[trigger] elements@[j]).wf(),
            forall|j: int|
                0 <= j < i ==> (#[trigger] elements@[j]).model() == (if j == found {
                    bind_in_parts(els[j], literal_val@).0
                } else {
                    els[j]
                }),
        decreases pathexp.elements.len() - i,
    {
        assert(pathexp.elements@[i as int].wf());
        if done {
            elements.push(pathexp.elements[i].duplicate());
        } else {
            let (ps, bound) = bind_parts(&pathexp.elements[i].parts, literal_val);
            if bound {
                elements.push(PathElement::new(ps));
                done = true;
                proof {
                    found = i as int;
                }
            } else {
                elements.push(pathexp.elements[i].duplicate());
            }
        }
        i = i + 1;
    }
    proof {
        lemma_bind_first(els, literal_val@, found);
    }
    let r = PathExpression {
        leading_sep: pathexp.leading_sep,
        trailing_sep: pathexp.trailing_sep,
        elements,
        opts: pathexp.opts,
    };
    assert(r.model().elements =~= bind_first(els, literal_val@));
    r
}

fn same_chars(a: &Vec<char>, b: &Vec<char>) -> (r: bool)
    ensures
        r == (a@ == b@),
{
    if a.len() != b.len() {
        return false;
    }
    let mut i: usize = 0;
    while i < a.len()
        invariant
            i <= a@.len(),
            a@.len() == b@.len(),
            forall|j: int| 0 <= j < i ==> a@[j] == b@[j],
        decreases a.len() - i,
    {
        if a[i] != b[i] {
            return false;
        }
        i = i + 1;
    }
    assert(a@ =~= b@);
    true
}

fn has_char(v: &Vec<char>, c: char) -> (r: bool)
    ensures
        r == v@.contains(c),
{
    let mut i: usize = 0;
    while i < v.len()
        invariant
            i <= v@.len(),
            forall|j: int| 0 <= j < i ==> v@[j] != c,
        decreases v.len() - i,
    {
        if v[i] == c {
            return true;
        }
        i = i + 1;
    }
    false
}

/// The time fields that read the same at both times, from the most
/// significant down to the first that differs.
fn constant_field_chars(from: &CivilTime, to: &CivilTime) -> (r: Vec<char>)
    ensures
        r@ == constant_fields(*from, *to),
{
    let order: Vec<char> = vec!['Y', 'm', 'd', 'H', 'M', 'S'];
    assert(order@ =~= field_order());
    assert(field_order().subrange(0, 6) =~= field_order());
    let mut n: usize = 0;
    while n < 6 && same_chars(&from.field_text(order[n]), &to.field_text(order[n]))
        invariant
            n <= 6,
            order@ == field_order(),
            constant_run(*from, *to, field_order()) == n + constant_run(
                *from,
                *to,
                field_order().subrange(n as int, 6),
            ),
        decreases 6 - n,
    {
        let ghost sub = field_order().subrange(n as int, 6);
        assert(sub.drop_first() =~= field_order().subrange(n as int + 1, 6));
        n = n + 1;
    }
    let mut r: Vec<char> = Vec::new();
    let mut i: usize = 0;
    while i < n
        invariant
            i <= n <= 6,
            order@ == field_order(),
            r@ =~= field_order().subrange(0, i as int),
        decreases n - i,
    {
        r.push(order[i]);
        i = i + 1;
        assert(r@ =~= field_order().subrange(0, i as int));
    }
    r
}

fn specialise_parts(ps: &Vec<PathElementPart>, from: &CivilTime, to: &CivilTime, consts: &Vec<char>) -> (r:
    Vec<PathElementPart>)
    requires
        consts@ == constant_fields(*from, *to),
    ensures
        parts_model(r@) == parts_model(ps@).map_values(|p: PartModel| specialise_part(p, *from, *to)),
{
    let ghost pm = parts_model(ps@);
    let mut r: Vec<PathElementPart> = Vec::new();
    let mut i: usize = 0;
    while i < ps.len()
        invariant
            i <= ps@.len(),
            pm == parts_model(ps@),
            consts@ == constant_fields(*from, *to),
            r@.len() == i,
            forall|j: int| 0 <= j < i ==> (#[trigger] r@[j]).model() == specialise_part(pm[j], *from, *to),
        decreases ps.len() - i,
    {
        let q = match &ps[i] {
            PathElementPart::TimePart { fmt, value, last_in_expression } => {
                let fc = chars_of(fmt.as_str());
                let c: char = if fc.len() > 0 {
                    fc[0]
                } else {
                    ' '
                };
                assert(c == fmt_char(fmt@));
                if has_char(consts, c) {
                    let text = from.field_text(c);
                    PathElementPart::TimePart {
                        fmt: fmt.clone(),
                        value: Some(string_of(text.as_slice())),
                        last_in_expression: *last_in_expression,
                    }
                } else {
                    PathElementPart::TimePart {
                        fmt: fmt.clone(),
                        value: copy_opt_string(value),
                        last_in_expression: *last_in_expression,
                    }
                }
            },
            p => p.duplicate(),
        };
        r.push(q);
        i = i + 1;
    }
    assert(parts_model(r@) =~= pm.map_values(|p: PartModel| specialise_part(p, *from, *to)));
    r
}

impl PathExpression {
    /// The expression specialised to a time range: where both bounds are
    /// given, each time field whose conversion reads the same at both
    /// bounds (taking the fields from the year down and stopping at the
    /// first that differs) is bound to its text at `from`.
    pub fn with(&self, opts: PathMatchOptions) -> (r: PathExpression)
        requires
            self.wf(),
        ensures
            r.wf(),
            r.options() == Some(opts),
            r.model() == (ExprModel {
                lead: self.model().lead,
                trail: self.model().trail,
                elements: specialised(self.model().elements, opts),
            }),
    {
        let ghost els = self.model().elements;
        let mut elements: Vec<PathElement> = Vec::new();
        let mut i: usize = 0;
        match (opts.from, opts.to) {
            (Some(from), Some(to)) => {
                let consts = constant_field_chars(&from, &to);
                while i < self.elements.len()
                    invariant
                        i <= self.elements@.len(),
                        opts.from == Some(from),
                        opts.to == Some(to),
                        consts@ == constant_fields(from, to),
                        els == elements_model(self.elements@),
                        elements@.len() == i,
                        forall|j: int| 0 <= j < i ==> (#[trigger] elements@[j]).wf(),
                        forall|j: int|
                            0 <= j < i ==> (#[trigger] elements@[j]).model() == specialised(els, opts)[j],
                    decreases self.elements.len() - i,
                {
                    let ps = specialise_parts(&self.elements[i].parts, &from, &to, &consts);
                    elements.push(PathElement::new(ps));
                    i = i + 1;
                }
            },
            _ => {
                while i < self.elements.len()
                    invariant
                        i <= self.elements@.len(),
                        opts.from is None || opts.to is None,
                        self.wf(),
                        els == elements_model(self.elements@),
                        elements@.len() == i,
                        forall|j: int| 0 <= j < i ==> (#[trigger] elements@[j]).wf(),
                        forall|j: int| 0 <= j < i ==> (#[trigger] elements@[j]).model() == els[j],
                    decreases self.elements.len() - i,
                {
                    assert(self.elements@[i as int].wf());
                    elements.push(self.elements[i].duplicate());
                    i = i + 1;
                }
            },
        }
        let r = PathExpression {
            leading_sep: self.leading_sep,
            trailing_sep: self.trailing_sep,
            elements,
            opts: Some(opts),
        };
        assert(r.model().elements =~= specialised(els, opts));
        r
    }
}

/// How many `/` a text starts with.
pub open spec fn leading_slashes(s: Seq<char>) -> nat
    decreases s.len(),
{
    if s.len() > 0 && s[0] == '/' {
        1 + leading_slashes(s.drop_first())
    } else {
        0
    }
}

/// The text without the `/` it starts with.
pub open spec fn strip_slashes(s: Seq<char>) -> Seq<char> {
    s.subrange(leading_slashes(s) as int, s.len() as int)
}

/// Whether the path `name` matches the elements from `idx` on: its first
/// `/`-separated piece matches element `idx`; after the last element
/// nothing may follow, but for one `/` where the expression ends with a
/// separator (`trail`); otherwise a non-empty rest, without the `/` it
/// starts with, matches the next elements. The time that each element's
/// match leaves is handed to the next.
pub open spec fn match_from(
    els: Seq<Seq<PartModel>>,
    idx: int,
    name: Seq<char>,
    t: CivilTime,
    trail: bool,
    from: Option<CivilTime>,
    to: Option<CivilTime>,
) -> bool
    decreases els.len() - idx,
{
    if idx < 0 || idx >= els.len() {
        false
    } else {
        let k = index_of(name, '/') as int;
        let has_rest = k < name.len();
        let tail = if has_rest {
            name.subrange(k + 1, name.len() as int)
        } else {
            seq![]
        };
        let m = element_match(els[idx], name.subrange(0, k), t, from, to);
        if !m.0 {
            false
        } else if idx == els.len() - 1 {
            !has_rest || (trail && tail.len() == 0)
        } else if !has_rest || tail.len() == 0 {
            false
        } else {
            match_from(els, idx + 1, strip_slashes(tail), m.1, trail, from, to)
        }
    }
}

/// Whether the path `name` matches the expression within the bounds. An
/// expression that starts with `/` needs a path that does, and the `/` it
/// starts with are skipped; an expression without elements matches only
/// the empty path (after those `/`). Matching starts from `initial_time`.
pub open spec fn expr_matches(m: ExprModel, name: Seq<char>, from: Option<CivilTime>, to: Option<CivilTime>) -> bool {
    if m.lead && !(name.len() > 0 && name[0] == '/') {
        false
    } else {
        let n2 = if m.lead {
            strip_slashes(name)
        } else {
            name
        };
        if m.elements.len() == 0 {
            n2.len() == 0
        } else {
            match_from(m.elements, 0, n2, initial_time(from), m.trail, from, to)
        }
    }
}

/// The bounds that an expression matches within.
pub open spec fn bounds_of(o: Option<PathMatchOptions>) -> (Option<CivilTime>, Option<CivilTime>) {
    match o {
        Some(opts) => (opts.from, opts.to),
        None => (None, None),
    }
}

/// The position after the `/` that `cs` holds from `p` on.
fn skip_slashes(cs: &Vec<char>, p: usize) -> (q: usize)
    requires
        p <= cs@.len(),
    ensures
        p <= q <= cs@.len(),
        strip_slashes(cs@.subrange(p as int, cs@.len() as int)) == cs@.subrange(q as int, cs@.len() as int),
{
    let n = cs.len();
    let mut q = p;
    let ghost s = cs@.subrange(p as int, n as int);
    while q < n && cs[q] == '/'
        invariant
            p <= q <= n,
            n == cs@.len(),
            s == cs@.subrange(p as int, n as int),
            leading_slashes(s) == (q - p) + leading_slashes(cs@.subrange(q as int, n as int)),
        decreases n - q,
    {
        let ghost t = cs@.subrange(q as int, n as int);
        assert(t.drop_first() =~= cs@.subrange(q as int + 1, n as int));
        q = q + 1;
    }
    assert(leading_slashes(cs@.subrange(q as int, n as int)) == 0);
    assert(strip_slashes(s) =~= cs@.subrange(q as int, n as int));
    q
}

impl PathExpression {
    /// Whether the path `name` matches the expression, within the time
    /// range that the expression was specialised to.
    pub fn is_match(&self, name: &str) -> (r: bool)
        requires
            self.wf(),
        ensures
            r == expr_matches(
                self.model(),
                name@,
                bounds_of(self.options()).0,
                bounds_of(self.options()).1,
            ),
    {
        let opts = match self.opts {
            Some(o) => o,
            None => PathMatchOptions::new(),
        };
        let mut ctx = MatchContext::new(&opts);
        let ghost from = ctx.from;
        let ghost to = ctx.to;
        let ghost m = self.model();
        let cs = chars_of(name);
        let n = cs.len();
        let mut pos: usize = 0;
        if self.leading_sep {
            if !(n > 0 && cs[0] == '/') {
                return false;
            }
            pos = skip_slashes(&cs, 0);
            assert(cs@.subrange(0, n as int) =~= name@);
        } else {
            assert(cs@.subrange(0, n as int) =~= name@);
        }
        if self.elements.len() == 0 {
            return pos == n;
        }
        let mut idx: usize = 0;
        loop
            invariant
                pos <= n,
                n == cs@.len(),
                idx < self.elements@.len(),
                self.wf(),
                m == self.model(),
                ctx.from == from,
                ctx.to == to,
                from == bounds_of(self.options()).0,
                to == bounds_of(self.options()).1,
                expr_matches(m, name@, from, to) == match_from(
                    m.elements,
                    idx as int,
                    cs@.subrange(pos as int, n as int),
                    ctx.match_time,
                    m.trail,
                    from,
                    to,
                ),
            decreases self.elements@.len() - idx,
        {
            let ghost rest = cs@.subrange(pos as int, n as int);
            let k = find_char(&cs, pos, n, '/');
            let head = string_of_range(&cs, pos, k);
            proof {
                assert(rest.subrange(0, k - pos) =~= head@);
                assert(self.elements@[idx as int].wf());
                assert(m.elements[idx as int] == self.elements@[idx as int].model());
            }
            let ok = self.elements[idx].matches(&mut ctx, head.as_str());
            if !ok {
                return false;
            }
            let has_rest = k < n;
            let tail_empty = !has_rest || k == n - 1;
            proof {
                if has_rest {
                    assert(rest.subrange(k - pos + 1, rest.len() as int) =~= cs@.subrange(
                        k as int + 1,
                        n as int,
                    ));
                }
            }
            if idx == self.elements.len() - 1 {
                return !has_rest || (self.trailing_sep && tail_empty);
            }
            if !has_rest || tail_empty {
                return false;
            }
            pos = skip_slashes(&cs, k + 1);
            idx = idx + 1;
        }
    }
}

/// The text of an element whose parts are all known.
pub open spec fn element_text(ps: Seq<PartModel>) -> Seq<char>
    decreases ps.len(),
{
    if ps.len() == 0 {
        seq![]
    } else {
        part_text(ps[0]).unwrap() + element_text(ps.drop_first())
    }
}

/// The texts of the elements joined by `/`.
pub open spec fn joined(els: Seq<Seq<PartModel>>) -> Seq<char>
    decreases els.len(),
{
    if els.len() == 0 {
        seq![]
    } else if els.len() == 1 {
        element_text(els[0])
    } else {
        element_text(els[0]) + seq!['/'] + joined(els.drop_first())
    }
}

/// Every part of every element is known.
pub open spec fn all_bound(m: ExprModel) -> bool {
    forall|i: int, j: int|
        0 <= i < m.elements.len() && 0 <= j < m.elements[i].len() ==> (#[trigger] m.elements[i][j]
            is Literal) || part_text(m.elements[i][j]) is Some
}

/// The path that an expression whose parts are all known spells out.
pub open spec fn rendered(m: ExprModel) -> Seq<char> {
    (if m.lead {
        seq!['/']
    } else {
        seq![]
    }) + joined(m.elements) + (if m.trail {
        seq!['/']
    } else {
        seq![]
    })
}

proof fn lemma_element_prefix_bound(ps: Seq<PartModel>)
    requires
        forall|j: int| 0 <= j < ps.len() ==> part_text(#[trigger] ps[j]) is Some,
    ensures
        element_prefix(ps) == (element_text(ps), true),
    decreases ps.len(),
{
    if ps.len() > 0 {
        let t = ps.drop_first();
        assert forall|j: int| 0 <= j < t.len() implies part_text(#[trigger] t[j]) is Some by {
            assert(t[j] == ps[j + 1]);
        }
        lemma_element_prefix_bound(t);
    }
}

proof fn lemma_elements_prefix_bound(els: Seq<Seq<PartModel>>)
    requires
        forall|i: int, j: int|
            0 <= i < els.len() && 0 <= j < els[i].len() ==> part_text(#[trigger] els[i][j]) is Some,
    ensures
        elements_prefix(els) == (joined(els), true),
    decreases els.len(),
{
    if els.len() > 0 {
        let ps = els[0];
        assert forall|j: int| 0 <= j < ps.len() implies part_text(#[trigger] ps[j]) is Some by {
            assert(part_text(els[0][j]) is Some);
        }
        lemma_element_prefix_bound(ps);
        let t = els.drop_first();
        assert forall|i: int, j: int| 0 <= i < t.len() && 0 <= j < t[i].len() implies part_text(
            #[trigger] t[i][j],
        ) is Some by {
            assert(t[i] == els[i + 1]);
            assert(part_text(els[i + 1][j]) is Some);
        }
        lemma_elements_prefix_bound(t);
    }
}

/// Where every part of an expression is known, its common prefix is the
/// whole path it spells out.
pub proof fn law_prefix_of_bound_expression(e: PathExpression)
    requires
        all_bound(e.model()),
    ensures
        expr_prefix(e.model()) == rendered(e.model()),
{
    let els = e.model().elements;
    assert forall|i: int, j: int| 0 <= i < els.len() && 0 <= j < els[i].len() implies part_text(
        #[trigger] els[i][j],
    ) is Some by {
        assert(els[i][j] is Literal || part_text(els[i][j]) is Some);
    }
    lemma_elements_prefix_bound(els);
}

/// The text holds no `/` directly after another.
pub open spec fn no_double_slash(s: Seq<char>) -> bool {
    forall|i: int| 0 <= i < s.len() - 1 ==> !(#[trigger] s[i] == '/' && s[i + 1] == '/')
}

proof fn lemma_literal_parts(s: Seq<char>)
    requires
        s.len() > 0,
        !s.contains('{'),
    ensures
        parsed_parts(s) == Some(seq![PartModel::Literal(s)]),
{
    assert forall|j: int| 0 <= j < s.len() implies s[j] != '{' by {
        if s[j] == '{' {
            assert(s.contains('{'));
        }
    }
    lemma_index_of(s, '{', s.len() as int);
    assert(s.subrange(0, s.len() as int) =~= s);
    let e = s.subrange(s.len() as int, s.len() as int);
    assert(e.len() == 0);
    assert(parsed_parts(e) == Some(Seq::<PartModel>::empty()));
    assert(seq![PartModel::Literal(s)] + Seq::<PartModel>::empty() =~= seq![PartModel::Literal(s)]);
}

/// Every element of `els` is a single literal.
pub open spec fn all_single_literals(els: Seq<Seq<PartModel>>) -> bool {
    forall|i: int| 0 <= i < els.len() ==> (#[trigger] els[i]).len() == 1 && els[i][0] is Literal
}

proof fn lemma_literal_segments(body: Seq<char>)
    requires
        body.len() > 0,
        !body.contains('{'),
        no_double_slash(body),
        body[0] != '/',
        body.last() != '/',
    ensures
        parsed_segments(body) is Some,
        all_single_literals(parsed_segments(body).unwrap()),
        joined(parsed_segments(body).unwrap()) == body,
        parsed_segments(body).unwrap().len() > 0,
    decreases body.len(),
{
    lemma_index_of_bound(body, '/');
    let k = index_of(body, '/') as int;
    let head = body.subrange(0, k);
    assert(k > 0);
    assert(!head.contains('{')) by {
        if head.contains('{') {
            let j = choose|j: int| 0 <= j < head.len() && head[j] == '{';
            assert(body[j] == '{');
        }
    }
    lemma_literal_parts(head);
    let lit = seq![PartModel::Literal(head)];
    assert(element_text(lit) =~= head) by {
        assert(lit.drop_first().len() == 0);
        assert(element_text(lit.drop_first()) == Seq::<char>::empty());
        assert(head + Seq::<char>::empty() =~= head);
    }
    if k == body.len() {
        assert(head =~= body);
        let e = body.subrange(k, body.len() as int);
        assert(e.len() == 0);
        assert(parsed_segments(e) == Some(Seq::<Seq<PartModel>>::empty()));
        assert(seq![lit] + Seq::<Seq<PartModel>>::empty() =~= seq![lit]);
        assert(parsed_segments(body) == Some(seq![lit]));
    } else {
        let rest = body.subrange(k, body.len() as int);
        let next = body.subrange(k + 1, body.len() as int);
        assert(rest.drop_first() =~= next);
        assert(rest[0] == '/');
        assert(next.len() > 0) by {
            if next.len() == 0 {
                assert(body.last() == body[k]);
            }
        }
        assert(next[0] != '/') by {
            assert(next[0] == body[k + 1]);
            assert(!(body[k] == '/' && body[k + 1] == '/'));
        }
        assert(next.last() == body.last());
        assert(!next.contains('{')) by {
            if next.contains('{') {
                let j = choose|j: int| 0 <= j < next.len() && next[j] == '{';
                assert(body[k + 1 + j] == '{');
            }
        }
        assert(no_double_slash(next)) by {
            assert forall|i: int| 0 <= i < next.len() - 1 implies !(#[trigger] next[i] == '/' && next[i
                + 1] == '/') by {
                assert(next[i] == body[k + 1 + i]);
                assert(next[i + 1] == body[k + 1 + i + 1]);
            }
        }
        lemma_literal_segments(next);
        let segs = parsed_segments(next).unwrap();
        assert(parsed_segments(rest) == parsed_segments(next));
        let all = seq![lit] + segs;
        assert(parsed_segments(body) == Some(all));
        assert(all.drop_first() =~= segs);
        assert(joined(all) == element_text(lit) + seq!['/'] + joined(segs));
        assert(head + seq!['/'] + next =~= body);
        assert(all_single_literals(all)) by {
            assert forall|i: int| 0 <= i < all.len() implies (#[trigger] all[i]).len() == 1
                && all[i][0] is Literal by {
                if i > 0 {
                    assert(all[i] == segs[i - 1]);
                }
            }
        }
    }
}

proof fn lemma_no_time_parts(els: Seq<Seq<PartModel>>)
    requires
        all_single_literals(els),
    ensures
        last_time_pos(els) is None,
    decreases els.len(),
{
    if els.len() > 0 {
        let ps = els.last();
        assert(ps.len() == 1 && ps[0] is Literal);
        assert(ps.drop_last().len() == 0);
        assert(!is_time_part(ps.last()));
        assert(last_time_in(ps.drop_last()) is None);
        assert(last_time_in(ps) is None);
        assert(all_single_literals(els.drop_last())) by {
            assert forall|i: int| 0 <= i < els.drop_last().len() implies (#[trigger] els.drop_last()[i]).len()
                == 1 && els.drop_last()[i][0] is Literal by {
                assert(els.drop_last()[i] == els[i]);
            }
        }
        lemma_no_time_parts(els.drop_last());
    }
}

/// A text without placeholders and without `/` directly after another
/// parses, and its common prefix is the text itself.
pub proof fn law_prefix_of_literal_text(s: Seq<char>)
    requires
        !s.contains('{'),
        no_double_slash(s),
    ensures
        parsed_expression(s) is Some,
        expr_prefix(parsed_expression(s).unwrap()) == s,
{
    let lead = s.len() > 0 && s[0] == '/';
    let b1 = if lead {
        s.drop_first()
    } else {
        s
    };
    let trail = b1.len() > 0 && b1.last() == '/';
    let body = if trail {
        b1.drop_last()
    } else {
        b1
    };
    let lead_s: Seq<char> = if lead {
        seq!['/']
    } else {
        seq![]
    };
    let trail_s: Seq<char> = if trail {
        seq!['/']
    } else {
        seq![]
    };
    assert(s =~= lead_s + body + trail_s);
    assert(!body.contains('{')) by {
        if body.contains('{') {
            let j = choose|j: int| 0 <= j < body.len() && body[j] == '{';
            if lead {
                assert(s[j + 1] == '{');
            } else {
                assert(s[j] == '{');
            }
        }
    }
    let off: int = if lead {
        1
    } else {
        0
    };
    assert forall|j: int| 0 <= j < body.len() implies body[j] == s[j + off] by {}
    if body.len() == 0 {
        assert(parsed_segments(body) == Some(Seq::<Seq<PartModel>>::empty()));
        let els = Seq::<Seq<PartModel>>::empty();
        assert(last_time_pos(els) is None);
        assert(mark_last_time_part(els) == els);
        assert(elements_prefix(els) == (Seq::<char>::empty(), true));
        assert(expr_prefix(parsed_expression(s).unwrap()) =~= s);
    } else {
        assert(body[0] != '/') by {
            if lead {
                assert(body[0] == s[1]);
                assert(!(s[0] == '/' && s[1] == '/'));
            } else {
                assert(body[0] == s[0]);
            }
        }
        assert(body.last() != '/') by {
            if trail {
                let n = s.len() as int;
                assert(s[n - 1] == '/');
                assert(body.last() == s[n - 2]);
                assert(!(s[n - 2] == '/' && s[n - 2 + 1] == '/'));
            }
        }
        assert(no_double_slash(body)) by {
            assert forall|i: int| 0 <= i < body.len() - 1 implies !(#[trigger] body[i] == '/' && body[i
                + 1] == '/') by {
                assert(body[i] == s[i + off]);
                assert(body[i + 1] == s[i + off + 1]);
            }
        }
        lemma_literal_segments(body);
        let els = parsed_segments(body).unwrap();
        lemma_no_time_parts(els);
        assert(mark_last_time_part(els) == els);
        assert forall|i: int, j: int| 0 <= i < els.len() && 0 <= j < els[i].len() implies part_text(
            #[trigger] els[i][j],
        ) is Some by {
            assert(els[i].len() == 1 && els[i][0] is Literal);
        }
        lemma_elements_prefix_bound(els);
        assert(expr_prefix(parsed_expression(s).unwrap()) =~= s);
    }
}

/// Why a period does not give match options.
#[derive(Debug, PartialEq, Eq, Structural)]
pub enum PeriodError {
    /// An end does not parse as a time.
    BadTime,
    /// Both ends are given and the first is not earlier.
    NotIncreasing,
}

/// The position of the first `..` in `s`, or its length.
pub open spec fn dotdot_at(s: Seq<char>) -> int
    decreases s.len(),
{
    if s.len() < 2 {
        s.len() as int
    } else if s[0] == '.' && s[1] == '.' {
        0
    } else {
        1 + dotdot_at(s.drop_first())
    }
}

proof fn lemma_dotdot_at(s: Seq<char>, k: int)
    requires
        0 <= k <= s.len(),
        forall|j: int| 0 <= j < k && j + 1 < s.len() ==> !(#[trigger] s[j] == '.' && s[j + 1] == '.'),
        k + 1 >= s.len() || (s[k] == '.' && s[k + 1] == '.'),
        k + 1 >= s.len() ==> k == s.len(),
    ensures
        dotdot_at(s) == k,
    decreases k,
{
    if k > 0 && s.len() >= 2 {
        let t = s.drop_first();
        assert forall|j: int| 0 <= j < k - 1 && j + 1 < t.len() implies !(#[trigger] t[j] == '.' && t[j + 1] == '.') by {
            assert(t[j] == s[j + 1]);
            assert(t[j + 1] == s[j + 2]);
        }
        assert(!(s[0] == '.' && s[1] == '.'));
        lemma_dotdot_at(t, k - 1);
    }
}

/// The two ends of a period `from..to`: the text before the first `..`,
/// and the text after it up to a further `..`, if there is a `..`.
pub open spec fn period_parts(s: Seq<char>) -> (Seq<char>, Option<Seq<char>>) {
    let p = dotdot_at(s);
    if p >= s.len() || p < 0 {
        (s, None)
    } else {
        let rest = s.subrange(p + 2, s.len() as int);
        (s.subrange(0, p), Some(rest.subrange(0, dotdot_at(rest))))
    }
}

/// The time an end of a period gives: none where it is absent or empty,
/// else the time it parses to; `None` where it does not parse.
pub open spec fn period_end(t: Option<Seq<char>>) -> Option<Option<CivilTime>> {
    match t {
        None => Some(None),
        Some(x) => if x.len() == 0 {
            Some(None)
        } else {
            match strptime_result(x, PERIOD_TIME_FORMAT@) {
                Some(tm) => Some(Some(civil_of_tm(tm))),
                None => None,
            }
        },
    }
}

fn find_dotdot(cs: &Vec<char>, lo: usize) -> (p: usize)
    requires
        lo <= cs@.len(),
    ensures
        lo <= p <= cs@.len(),
        p < cs@.len() ==> p + 1 < cs@.len(),
        p - lo == dotdot_at(cs@.subrange(lo as int, cs@.len() as int)),
{
    let n = cs.len();
    let mut p = lo;
    while n > 0 && p < n - 1 && !(cs[p] == '.' && cs[p + 1] == '.')
        invariant
            lo <= p <= n,
            n == cs@.len(),
            forall|j: int| lo <= j < p && j + 1 < n ==> !(#[trigger] cs@[j] == '.' && cs@[j + 1] == '.'),
        decreases n - p,
    {
        p = p + 1;
    }
    let r = if n > 0 && p < n - 1 {
        p
    } else {
        n
    };
    proof {
        let s = cs@.subrange(lo as int, n as int);
        assert forall|j: int| 0 <= j < r - lo && j + 1 < s.len() implies !(#[trigger] s[j] == '.' && s[j + 1] == '.') by {
            assert(s[j] == cs@[lo + j]);
            assert(s[j + 1] == cs@[lo + j + 1]);
        }
        lemma_dotdot_at(s, r - lo);
    }
    r
}

fn parse_period_end(cs: &Vec<char>, lo: usize, hi: usize) -> (r: Result<Option<CivilTime>, PeriodError>)
    requires
        lo <= hi <= cs@.len(),
    ensures
        match period_end(Some(cs@.subrange(lo as int, hi as int))) {
            Some(t) => r == Ok::<Option<CivilTime>, PeriodError>(t),
            None => r == Err::<Option<CivilTime>, PeriodError>(PeriodError::BadTime),
        },
{
    if lo == hi {
        return Ok(None);
    }
    let text = string_of_range(cs, lo, hi);
    match strptime(text.as_str(), PERIOD_TIME_FORMAT) {
        Some(tm) => Ok(Some(civil_from_tm(&tm))),
        None => Err(PeriodError::BadTime),
    }
}

/// The match options that a period `from..to` gives; either end may be
/// absent or empty.
pub fn range_to_opts(range: Option<&str>) -> (r: Result<PathMatchOptions, PeriodError>)
    ensures
        match range {
            None => r matches Ok(o) && o.from is None && o.to is None,
            Some(s) => {
                let parts = period_parts(s@);
                match (period_end(Some(parts.0)), period_end(parts.1)) {
                    (Some(f), Some(t)) => if f is Some && t is Some && !civil_before(f.unwrap(), t.unwrap()) {
                        r == Err::<PathMatchOptions, PeriodError>(PeriodError::NotIncreasing)
                    } else {
                        r matches Ok(o) && o.from == f && o.to == t && o.wf()
                    },
                    _ => r == Err::<PathMatchOptions, PeriodError>(PeriodError::BadTime),
                }
            },
        },
{
    let mut options = PathMatchOptions::new();
    let s = match range {
        None => return Ok(options),
        Some(s) => s,
    };
    let cs = chars_of(s);
    let n = cs.len();
    let p = find_dotdot(&cs, 0);
    assert(cs@.subrange(0, n as int) =~= s@);
    let from = match parse_period_end(&cs, 0, p) {
        Ok(f) => f,
        Err(e) => return Err(e),
    };
    let to = if p < n {
        let q = find_dotdot(&cs, p + 2);
        proof {
            let rest = s@.subrange(p + 2, s@.len() as int);
            assert(rest =~= cs@.subrange(p as int + 2, n as int));
            assert(rest.subrange(0, q - p - 2) =~= cs@.subrange(p as int + 2, q as int));
        }
        match parse_period_end(&cs, p + 2, q) {
            Ok(t) => t,
            Err(e) => return Err(e),
        }
    } else {
        assert(s@.subrange(0, p as int) =~= s@);
        None
    };
    if let (Some(f), Some(t)) = (from, to) {
        if !f.is_before(&t) {
            return Err(PeriodError::NotIncreasing);
        }
    }
    options.from = from;
    options.to = to;
    Ok(options)
}

impl PathExpression {
    /// How many elements the expression has.
    pub fn element_count(&self) -> (r: usize)
        ensures
            r == self.model().elements.len(),
    {
        self.elements.len()
    }

    /// Whether element `i` holds a part that is not fixed text.
    pub fn element_has_placeholders(&self, i: usize) -> (r: bool)
        requires
            self.wf(),
            i < self.model().elements.len(),
        ensures
            r == has_placeholder(self.model().elements[i as int]),
    {
        assert(self.elements@[i as int].wf());
        self.elements[i].has_placeholders()
    }

    /// Whether element `i` holds a part that stands for text not known yet.
    pub fn element_has_variable(&self, i: usize) -> (r: bool)
        requires
            self.wf(),
            i < self.model().elements.len(),
        ensures
            r == has_variable(self.model().elements[i as int]),
    {
        assert(self.elements@[i as int].wf());
        self.elements[i].has_variable()
    }

    /// The known text at the start of element `i`.
    pub fn element_prefix_text(&self, i: usize) -> (r: Vec<char>)
        requires
            i < self.model().elements.len(),
        ensures
            r@ == element_prefix(self.model().elements[i as int]).0,
    {
        let mut v: Vec<char> = Vec::new();
        let _ = self.elements[i].common_prefix(&mut v);
        assert(v@ =~= element_prefix(self.model().elements[i as int]).0);
        v
    }

    /// Whether element `i` matches `name`, as `PathElement::matches`.
    pub fn element_matches(&self, i: usize, ctx: &mut MatchContext, name: &str) -> (r: bool)
        requires
            self.wf(),
            i < self.model().elements.len(),
        ensures
            (r, final(ctx).match_time) == element_match(
                self.model().elements[i as int],
                name@,
                old(ctx).match_time,
                old(ctx).from,
                old(ctx).to,
            ),
            final(ctx).from == old(ctx).from,
            final(ctx).to == old(ctx).to,
    {
        assert(self.elements@[i as int].wf());
        self.elements[i].matches(ctx, name)
    }
}

} // verus!
