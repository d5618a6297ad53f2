//! The path-template grammar.
//!
//! A template is split on `/` into segments; empty segments are dropped, so
//! leading, trailing and doubled slashes carry no meaning.
//!
//! A segment of the form `<name>` or `<type:name>` is a placeholder, where
//! `type` is one of `int`, `str`, `float`, `path` (omitted: `str`) and `name`
//! starts with an ASCII letter or underscore and goes on with ASCII letters,
//! digits and underscores.
//!
//! A template is malformed, and refused, in two cases only. The angle
//! brackets of a segment do not balance, as in `<int:id` or `a>b<`. Or a
//! segment has the form of a placeholder but its name, a run of letters,
//! digits and underscores, starts with a digit, as in `<9a>` or `<int:9a>`.
//!
//! Every other segment is literal text and matches itself alone. That holds
//! for a segment without angle brackets, and for one whose brackets balance
//! without making a placeholder: `a<b>`, `<a>b`, `<>`, `<a b>`. It holds too
//! for a segment with a type word that is none of the four, such as
//! `<uint:x>`: an unknown type makes no placeholder.
//!
//! Two placeholders of one template may not share a name: such a template is
//! refused. A `path` placeholder may stand anywhere in a template, not only at
//! its end.

use vstd::prelude::*;
use crate::matcher::{escape, escaped};
use crate::text::{
    append_chars, chars_of, find_char, index_of, lemma_index_of_bounds, same_text, slice_of,
    string_of,
};

verus! {

/// The type of a path parameter. It fixes the text a placeholder accepts.
#[derive(Clone, Copy, Debug, PartialEq, Eq, Hash, Structural)]
pub enum ParamType {
    Integer,
    String,
    Float,
    Path,
}

/// One segment of a template, as a mathematical value.
pub enum Part {
    Literal(Seq<char>),
    Param { name: Seq<char>, kind: ParamType },
}

/// One segment of a parsed template.
#[derive(Debug)]
pub enum Segment {
    Literal(Vec<char>),
    Param { name: Vec<char>, kind: ParamType },
}

impl View for Segment {
    type V = Part;

    open spec fn view(&self) -> Part {
        match self {
            Segment::Literal(t) => Part::Literal(t@),
            Segment::Param { name, kind } => Part::Param { name: name@, kind: *kind },
        }
    }
}

/// Why a route was refused.
#[derive(Clone, Copy, Debug, PartialEq, Eq, Structural)]
pub enum RouteError {
    /// The angle brackets of a segment of the template do not balance, or a
    /// placeholder has a name that starts with a digit.
    Malformed,
    /// Two placeholders of the template share a name.
    DuplicateParam,
    /// The expression engine refused the pattern assembled from the template.
    Rejected,
    /// A route with the same template and method is registered already.
    AlreadyDefined,
}

/// The non-empty runs of `s` between slashes, in order.
pub open spec fn split_segments(s: Seq<char>) -> Seq<Seq<char>>
    decreases s.len(),
{
    if s.len() == 0 {
        Seq::empty()
    } else {
        let k = index_of(s, '/');
        if k < 0 || k > s.len() {
            Seq::empty()
        } else if k == s.len() {
            seq![s]
        } else if k == 0 {
            split_segments(s.skip(1))
        } else {
            seq![s.take(k)] + split_segments(s.skip(k + 1))
        }
    }
}

/// A character that may start a parameter name.
pub open spec fn is_ident_start(c: char) -> bool {
    ('a' <= c && c <= 'z') || ('A' <= c && c <= 'Z') || c == '_'
}

/// A character that may stand in a parameter name.
pub open spec fn is_ident_char(c: char) -> bool {
    is_ident_start(c) || ('0' <= c && c <= '9')
}

/// A parameter name: a letter or underscore, then letters, digits, underscores.
pub open spec fn is_identifier(s: Seq<char>) -> bool {
    &&& s.len() > 0
    &&& is_ident_start(s[0])
    &&& forall|i: int| 0 <= i < s.len() ==> is_ident_char(#[trigger] s[i])
}

/// A non-empty run of letters, digits and underscores.
pub open spec fn is_name_run(s: Seq<char>) -> bool {
    s.len() > 0 && forall|i: int| 0 <= i < s.len() ==> is_ident_char(#[trigger] s[i])
}

/// How far a text is inside angle brackets at its end: the number of its
/// `<` less the number of its `>`.
pub open spec fn depth(s: Seq<char>) -> int
    decreases s.len(),
{
    if s.len() == 0 {
        0
    } else if s.last() == '<' {
        depth(s.drop_last()) + 1
    } else if s.last() == '>' {
        depth(s.drop_last()) - 1
    } else {
        depth(s.drop_last())
    }
}

/// Whether the angle brackets of a text balance: every `>` closes a `<`
/// that stands before it, and no `<` stays open.
pub open spec fn balanced(s: Seq<char>) -> bool {
    depth(s) == 0 && forall|k: int| 0 <= k <= s.len() ==> depth(#[trigger] s.take(k)) >= 0
}

/// The parameter type a type keyword stands for.
pub open spec fn keyword_kind(w: Seq<char>) -> Option<ParamType> {
    if w == seq!['i', 'n', 't'] {
        Some(ParamType::Integer)
    } else if w == seq!['s', 't', 'r'] {
        Some(ParamType::String)
    } else if w == seq!['f', 'l', 'o', 'a', 't'] {
        Some(ParamType::Float)
    } else if w == seq!['p', 'a', 't', 'h'] {
        Some(ParamType::Path)
    } else {
        None
    }
}

/// What a segment of placeholder form means, given the name and the type
/// that it writes: a parameter where the name is one; nothing where the
/// name is a run of name characters that starts with a digit; literal text
/// otherwise.
pub open spec fn placeholder(seg: Seq<char>, name: Seq<char>, kind: ParamType) -> Option<Part> {
    if is_identifier(name) {
        Some(Part::Param { name, kind })
    } else if is_name_run(name) {
        None
    } else {
        Some(Part::Literal(seg))
    }
}

/// What one segment means; `None` for a malformed segment.
pub open spec fn classify(seg: Seq<char>) -> Option<Part> {
    if !balanced(seg) {
        None
    } else if seg.len() >= 2 && seg.first() == '<' && seg.last() == '>' {
        let inner = seg.subrange(1, seg.len() - 1);
        let k = index_of(inner, ':');
        if k == inner.len() {
            placeholder(seg, inner, ParamType::String)
        } else {
            match keyword_kind(inner.take(k)) {
                Some(kind) => placeholder(seg, inner.skip(k + 1), kind),
                None => Some(Part::Literal(seg)),
            }
        }
    } else {
        Some(Part::Literal(seg))
    }
}

/// The parameter names of a template with their types, in template order.
pub open spec fn schema_of(parts: Seq<Part>) -> Seq<(Seq<char>, ParamType)>
    decreases parts.len(),
{
    if parts.len() == 0 {
        Seq::empty()
    } else {
        match parts.last() {
            Part::Literal(_) => schema_of(parts.drop_last()),
            Part::Param { name, kind } => schema_of(parts.drop_last()).push((name, kind)),
        }
    }
}

/// No two entries of a schema share a name.
pub open spec fn names_distinct(schema: Seq<(Seq<char>, ParamType)>) -> bool {
    forall|i: int, j: int|
        0 <= i < j < schema.len() ==> (#[trigger] schema[i]).0 != (#[trigger] schema[j]).0
}

/// Whether none of the segments is malformed.
pub open spec fn all_classified(segs: Seq<Seq<char>>) -> bool {
    forall|i: int| 0 <= i < segs.len() ==> classify(#[trigger] segs[i]) is Some
}

/// What a template means: its parts, or why it is refused. A malformed
/// segment is reported before a repeated parameter name.
pub open spec fn parse_template(path: Seq<char>) -> Result<Seq<Part>, RouteError> {
    let segs = split_segments(path);
    if !all_classified(segs) {
        Err(RouteError::Malformed)
    } else {
        let parts = Seq::new(segs.len(), |i: int| classify(segs[i]).unwrap());
        if names_distinct(schema_of(parts)) {
            Ok(parts)
        } else {
            Err(RouteError::DuplicateParam)
        }
    }
}

/// The mathematical value of a vector of parsed segments.
pub open spec fn parts_of(v: Seq<Segment>) -> Seq<Part> {
    Seq::new(v.len(), |i: int| v[i]@)
}

/// The mathematical value of a parameter schema.
pub open spec fn schema_view(v: Seq<(Vec<char>, ParamType)>) -> Seq<(Seq<char>, ParamType)> {
    Seq::new(v.len(), |i: int| (v[i].0@, v[i].1))
}

/// A segment: non-empty and free of slashes.
pub open spec fn is_segment(seg: Seq<char>) -> bool {
    seg.len() > 0 && forall|j: int| 0 <= j < seg.len() ==> seg[j] != '/'
}

/// The texts held by a vector of character vectors.
pub open spec fn texts(v: Seq<Vec<char>>) -> Seq<Seq<char>> {
    Seq::new(v.len(), |i: int| v[i]@)
}

/// Every piece that `split_segments` gives is a segment.
pub proof fn lemma_split_segments(s: Seq<char>)
    ensures
        forall|i: int| 0 <= i < split_segments(s).len() ==> is_segment(#[trigger] split_segments(s)[i]),
    decreases s.len(),
{
    if s.len() > 0 {
        lemma_index_of_bounds(s, '/');
        let k = index_of(s, '/');
        if k == s.len() {
            assert(split_segments(s) =~= seq![s]);
            assert(is_segment(s));
        } else if k == 0 {
            lemma_split_segments(s.skip(1));
        } else {
            lemma_split_segments(s.skip(k + 1));
            let rest = split_segments(s.skip(k + 1));
            assert(is_segment(s.take(k)));
            assert forall|i: int| 0 <= i < split_segments(s).len() implies is_segment(
                #[trigger] split_segments(s)[i],
            ) by {
                if i > 0 {
                    assert(split_segments(s)[i] == rest[i - 1]);
                }
            }
        }
    }
}

/// Splits a path or a template into its segments.
pub fn segments(path: &Vec<char>) -> (segs: Vec<Vec<char>>)
    ensures
        texts(segs@) == split_segments(path@),
{
    let mut segs: Vec<Vec<char>> = Vec::new();
    let n: usize = path.len();
    let mut start: usize = 0;
    proof {
        assert(path@.skip(0) =~= path@);
        assert(texts(segs@) + split_segments(path@) =~= split_segments(path@));
    }
    while start < n
        invariant
            start <= n,
            n == path.len(),
            split_segments(path@) == texts(segs@) + split_segments(path@.skip(start as int)),
        decreases n - start,
    {
        let ghost rest = path@.skip(start as int);
        let ghost before = texts(segs@);
        let k: usize = find_char(path, start, '/');
        proof {
            lemma_index_of_bounds(rest, '/');
        }
        if k > start {
            let seg = slice_of(path, start, k);
            proof {
                assert(seg@ =~= rest.take(k - start));
            }
            segs.push(seg);
            proof {
                assert(texts(segs@) =~= before + seq![rest.take(k - start)]);
            }
        }
        if k == n {
            proof {
                assert(rest.take(k - start) =~= rest);
                assert(split_segments(path@.skip(n as int)) =~= Seq::<Seq<char>>::empty());
                assert(texts(segs@) + Seq::<Seq<char>>::empty() =~= texts(segs@));
            }
            start = n;
        } else {
            proof {
                assert(rest.skip(k - start + 1) =~= path@.skip(k + 1));
                assert(before + (seq![rest.take(k - start)] + split_segments(path@.skip(k + 1)))
                    =~= (before + seq![rest.take(k - start)]) + split_segments(path@.skip(k + 1)));
            }
            start = k + 1;
        }
    }
    proof {
        assert(split_segments(path@.skip(n as int)) =~= Seq::<Seq<char>>::empty());
        assert(texts(segs@) + Seq::<Seq<char>>::empty() =~= texts(segs@));
    }
    segs
}


fn ident_start(c: char) -> (r: bool)
    ensures
        r == is_ident_start(c),
{
    ('a' <= c && c <= 'z') || ('A' <= c && c <= 'Z') || c == '_'
}

fn ident_char(c: char) -> (r: bool)
    ensures
        r == is_ident_char(c),
{
    ident_start(c) || ('0' <= c && c <= '9')
}

fn check_identifier(v: &Vec<char>) -> (r: bool)
    ensures
        r == is_identifier(v@),
{
    if v.len() == 0 || !ident_start(v[0]) {
        return false;
    }
    let mut i: usize = 0;
    while i < v.len()
        invariant
            i <= v.len(),
            forall|j: int| 0 <= j < i ==> is_ident_char(#[trigger] v@[j]),
        decreases v.len() - i,
    {
        if !ident_char(v[i]) {
            return false;
        }
        i = i + 1;
    }
    true
}

fn name_run(v: &Vec<char>) -> (r: bool)
    ensures
        r == is_name_run(v@),
{
    let mut i: usize = 0;
    while i < v.len()
        invariant
            i <= v.len(),
            forall|j: int| 0 <= j < i ==> is_ident_char(#[trigger] v@[j]),
        decreases v.len() - i,
    {
        if !ident_char(v[i]) {
            return false;
        }
        i = i + 1;
    }
    v.len() > 0
}

fn is_balanced(v: &Vec<char>) -> (r: bool)
    ensures
        r == balanced(v@),
{
    let mut open: usize = 0;
    let mut i: usize = 0;
    proof {
        assert(v@.take(0) =~= Seq::<char>::empty());
    }
    while i < v.len()
        invariant
            i <= v.len(),
            open <= i,
            open == depth(v@.take(i as int)),
            forall|k: int| 0 <= k <= i ==> depth(#[trigger] v@.take(k)) >= 0,
        decreases v.len() - i,
    {
        proof {
            let t = v@.take(i + 1);
            assert(t.drop_last() =~= v@.take(i as int));
            assert(t.last() == v@[i as int]);
        }
        if v[i] == '<' {
            open = open + 1;
        } else if v[i] == '>' {
            if open == 0 {
                assert(depth(v@.take(i + 1)) < 0);
                return false;
            }
            open = open - 1;
        }
        i = i + 1;
    }
    proof {
        assert(v@.take(v.len() as int) =~= v@);
    }
    open == 0
}

fn placeholder_of(seg: &Vec<char>, name: Vec<char>, kind: ParamType) -> (r: Option<Segment>)
    ensures
        match r {
            Some(x) => placeholder(seg@, name@, kind) == Some(x@),
            None => placeholder(seg@, name@, kind) is None,
        },
{
    if check_identifier(&name) {
        Some(Segment::Param { name, kind })
    } else if name_run(&name) {
        None
    } else {
        Some(literal_of(seg))
    }
}

fn literal_of(seg: &Vec<char>) -> (r: Segment)
    ensures
        r@ == Part::Literal(seg@),
{
    let text = slice_of(seg, 0, seg.len());
    assert(text@ =~= seg@);
    Segment::Literal(text)
}

fn kind_of_keyword(w: &Vec<char>) -> (r: Option<ParamType>)
    ensures
        r == keyword_kind(w@),
{
    if w.len() == 3 && w[0] == 'i' && w[1] == 'n' && w[2] == 't' {
        assert(w@ =~= seq!['i', 'n', 't']);
        Some(ParamType::Integer)
    } else if w.len() == 3 && w[0] == 's' && w[1] == 't' && w[2] == 'r' {
        assert(w@ =~= seq!['s', 't', 'r']);
        Some(ParamType::String)
    } else if w.len() == 5 && w[0] == 'f' && w[1] == 'l' && w[2] == 'o' && w[3] == 'a' && w[4]
        == 't' {
        assert(w@ =~= seq!['f', 'l', 'o', 'a', 't']);
        Some(ParamType::Float)
    } else if w.len() == 4 && w[0] == 'p' && w[1] == 'a' && w[2] == 't' && w[3] == 'h' {
        assert(w@ =~= seq!['p', 'a', 't', 'h']);
        Some(ParamType::Path)
    } else {
        proof {
            let a = seq!['i', 'n', 't'];
            let b = seq!['s', 't', 'r'];
            let c = seq!['f', 'l', 'o', 'a', 't'];
            let d = seq!['p', 'a', 't', 'h'];
            if w@ == a {
                assert(w@[0] == a[0] && w@[1] == a[1] && w@[2] == a[2]);
            }
            if w@ == b {
                assert(w@[0] == b[0] && w@[1] == b[1] && w@[2] == b[2]);
            }
            if w@ == c {
                assert(w@[0] == c[0] && w@[1] == c[1] && w@[2] == c[2] && w@[3] == c[3] && w@[4]
                    == c[4]);
            }
            if w@ == d {
                assert(w@[0] == d[0] && w@[1] == d[1] && w@[2] == d[2] && w@[3] == d[3]);
            }
        }
        None
    }
}

/// Says what one segment of a template means; `None` for a malformed one.
pub fn classify_segment(seg: &Vec<char>) -> (r: Option<Segment>)
    ensures
        match r {
            Some(x) => classify(seg@) == Some(x@),
            None => classify(seg@) is None,
        },
{
    if !is_balanced(seg) {
        return None;
    }
    let n: usize = seg.len();
    if n < 2 || seg[0] != '<' || seg[n - 1] != '>' {
        return Some(literal_of(seg));
    }
    let inner = slice_of(seg, 1, n - 1);
    let k: usize = find_char(&inner, 0, ':');
    proof {
        assert(inner@.skip(0) =~= inner@);
    }
    if k == inner.len() {
        placeholder_of(seg, inner, ParamType::String)
    } else {
        let word = slice_of(&inner, 0, k);
        let name = slice_of(&inner, k + 1, inner.len());
        proof {
            assert(word@ =~= inner@.take(k as int));
            assert(name@ =~= inner@.skip(k + 1));
        }
        match kind_of_keyword(&word) {
            Some(kind) => placeholder_of(seg, name, kind),
            None => Some(literal_of(seg)),
        }
    }
}

/// The parameters that a parsed template declares, in template order.
pub fn schema(parts: &Vec<Segment>) -> (r: Vec<(Vec<char>, ParamType)>)
    ensures
        schema_view(r@) == schema_of(parts_of(parts@)),
{
    let mut r: Vec<(Vec<char>, ParamType)> = Vec::new();
    let mut i: usize = 0;
    proof {
        assert(parts_of(parts@).take(0) =~= Seq::<Part>::empty());
    }
    while i < parts.len()
        invariant
            i <= parts.len(),
            schema_view(r@) == schema_of(parts_of(parts@).take(i as int)),
        decreases parts.len() - i,
    {
        let ghost before = schema_view(r@);
        proof {
            let t = parts_of(parts@).take(i + 1);
            assert(t.drop_last() =~= parts_of(parts@).take(i as int));
            assert(t.last() == parts@[i as int]@);
        }
        match &parts[i] {
            Segment::Literal(_) => {},
            Segment::Param { name, kind } => {
                r.push((name.clone(), *kind));
                proof {
                    assert(schema_view(r@) =~= before.push((name@, *kind)));
                }
            },
        }
        i = i + 1;
    }
    proof {
        assert(parts_of(parts@).take(parts.len() as int) =~= parts_of(parts@));
    }
    r
}

/// Whether no two parameters of a schema share a name.
pub fn distinct_names(params: &Vec<(Vec<char>, ParamType)>) -> (r: bool)
    ensures
        r == names_distinct(schema_view(params@)),
{
    let mut j: usize = 0;
    while j < params.len()
        invariant
            j <= params.len(),
            forall|a: int, b: int|
                0 <= a < b < j ==> (#[trigger] schema_view(params@)[a]).0 != (
                #[trigger] schema_view(params@)[b]).0,
        decreases params.len() - j,
    {
        let mut i: usize = 0;
        while i < j
            invariant
                i <= j < params.len(),
                forall|a: int|
                    0 <= a < i ==> (#[trigger] schema_view(params@)[a]).0 != schema_view(
                        params@,
                    )[j as int].0,
            decreases j - i,
        {
            if same_text(&params[i].0, &params[j].0) {
                proof {
                    assert(schema_view(params@)[i as int].0 == schema_view(params@)[j as int].0);
                }
                return false;
            }
            i = i + 1;
        }
        j = j + 1;
    }
    true
}

/// Parses a template into its segments, or says why it is refused.
pub fn parse(path: &str) -> (r: Result<Vec<Segment>, RouteError>)
    ensures
        match r {
            Ok(parts) => parse_template(path@) == Ok::<Seq<Part>, RouteError>(parts_of(parts@)),
            Err(e) => parse_template(path@) == Err::<Seq<Part>, RouteError>(e),
        },
{
    let chars = chars_of(path);
    let segs = segments(&chars);
    let ghost all = texts(segs@);
    let mut parts: Vec<Segment> = Vec::new();
    let mut i: usize = 0;
    while i < segs.len()
        invariant
            i <= segs.len(),
            all == texts(segs@),
            all == split_segments(path@),
            parts.len() == i,
            forall|j: int| 0 <= j < i ==> classify(#[trigger] all[j]) == Some(parts@[j]@),
        decreases segs.len() - i,
    {
        match classify_segment(&segs[i]) {
            Some(part) => {
                parts.push(part);
            },
            None => {
                assert(classify(all[i as int]) is None);
                return Err(RouteError::Malformed);
            },
        }
        i = i + 1;
    }
    proof {
        assert(parts_of(parts@) =~= Seq::new(all.len(), |i: int| classify(all[i]).unwrap()));
    }
    let params = schema(&parts);
    if distinct_names(&params) {
        Ok(parts)
    } else {
        Err(RouteError::DuplicateParam)
    }
}

/// The sub-pattern that accepts the values of a parameter type.
pub open spec fn kind_pattern(kind: ParamType) -> Seq<char> {
    match kind {
        ParamType::String => seq!['[', '^', '/', ']', '+'],
        ParamType::Integer => seq!['-', '?', '[', '0', '-', '9', ']', '+'],
        ParamType::Float => seq![
            '-',
            '?',
            '[',
            '0',
            '-',
            '9',
            ']',
            '*',
            '[',
            '.',
            ']',
            '?',
            '[',
            '0',
            '-',
            '9',
            ']',
            '+',
        ],
        ParamType::Path => seq!['.', '+'],
    }
}

/// The pattern of one segment: a slash, then the escaped literal or a named
/// group around the sub-pattern of the parameter's type.
pub open spec fn part_pattern(part: Part) -> Seq<char> {
    match part {
        Part::Literal(t) => seq!['/'] + escaped(t),
        Part::Param { name, kind } => seq!['/', '(', '?', 'P', '<'] + name + seq!['>']
            + kind_pattern(kind) + seq![')'],
    }
}

/// The patterns of the segments, one after the other.
pub open spec fn parts_pattern(parts: Seq<Part>) -> Seq<char>
    decreases parts.len(),
{
    if parts.len() == 0 {
        Seq::empty()
    } else {
        parts_pattern(parts.drop_last()) + part_pattern(parts.last())
    }
}

/// The whole pattern of a template: anchored at both ends, one piece for each
/// segment, and an optional closing slash.
pub open spec fn route_pattern(parts: Seq<Part>) -> Seq<char> {
    seq!['^'] + parts_pattern(parts) + seq!['/', '?', '$']
}

fn kind_chars(kind: ParamType) -> (r: Vec<char>)
    ensures
        r@ == kind_pattern(kind),
{
    let r = match kind {
        ParamType::String => vec!['[', '^', '/', ']', '+'],
        ParamType::Integer => vec!['-', '?', '[', '0', '-', '9', ']', '+'],
        ParamType::Float => vec![
            '-',
            '?',
            '[',
            '0',
            '-',
            '9',
            ']',
            '*',
            '[',
            '.',
            ']',
            '?',
            '[',
            '0',
            '-',
            '9',
            ']',
            '+',
        ],
        ParamType::Path => vec!['.', '+'],
    };
    assert(r@ =~= kind_pattern(kind));
    r
}

/// Assembles the pattern that matches the paths of a parsed template.
pub fn assemble(parts: &Vec<Segment>) -> (r: Vec<char>)
    ensures
        r@ == route_pattern(parts_of(parts@)),
{
    let mut r: Vec<char> = Vec::new();
    r.push('^');
    let mut i: usize = 0;
    proof {
        assert(parts_of(parts@).take(0) =~= Seq::<Part>::empty());
        assert(r@ =~= seq!['^'] + parts_pattern(parts_of(parts@).take(0)));
    }
    while i < parts.len()
        invariant
            i <= parts.len(),
            r@ == seq!['^'] + parts_pattern(parts_of(parts@).take(i as int)),
        decreases parts.len() - i,
    {
        let ghost before = r@;
        proof {
            let t = parts_of(parts@).take(i + 1);
            assert(t.drop_last() =~= parts_of(parts@).take(i as int));
            assert(t.last() == parts@[i as int]@);
        }
        r.push('/');
        match &parts[i] {
            Segment::Literal(t) => {
                let plain = string_of(t);
                let quoted = escape(plain.as_str());
                let q = chars_of(quoted.as_str());
                append_chars(&mut r, &q);
                proof {
                    assert(r@ =~= before + part_pattern(parts@[i as int]@));
                }
            },
            Segment::Param { name, kind } => {
                r.push('(');
                r.push('?');
                r.push('P');
                r.push('<');
                append_chars(&mut r, name);
                r.push('>');
                let k = kind_chars(*kind);
                append_chars(&mut r, &k);
                r.push(')');
                proof {
                    assert(r@ =~= before + part_pattern(parts@[i as int]@));
                }
            },
        }
        proof {
            assert(r@ =~= seq!['^'] + (parts_pattern(parts_of(parts@).take(i as int))
                + part_pattern(parts@[i as int]@)));
        }
        i = i + 1;
    }
    proof {
        assert(parts_of(parts@).take(parts.len() as int) =~= parts_of(parts@));
    }
    let ghost body = r@;
    r.push('/');
    r.push('?');
    r.push('$');
    proof {
        assert(r@ =~= body + seq!['/', '?', '$']);
    }
    r
}

} // verus!
