//! A route: one compiled path template, the methods it answers to, and the
//! handler bound to it.

use vstd::prelude::*;
use crate::matcher::{
    capture, compile, is_match, regex_accepts, regex_capture, regex_is_match, regex_source,
};
use crate::method::Method;
use crate::request::Request;
use crate::response::Response;
use crate::template::{
    assemble, names_distinct, parse, parse_template, parts_of, route_pattern, schema, schema_of,
    schema_view, segments, split_segments, texts, ParamType, Part, RouteError, Segment,
};
use crate::text::{chars_of, string_of};

verus! {

/// A decimal digit.
pub open spec fn is_digit(c: char) -> bool {
    '0' <= c && c <= '9'
}

/// `v` without one leading minus sign, if it has one.
pub open spec fn unsigned_part(v: Seq<char>) -> Seq<char> {
    if v.len() > 0 && v[0] == '-' {
        v.skip(1)
    } else {
        v
    }
}

/// Whether a text has the syntax of a parameter type:
/// a string is one or more characters other than `/`;
/// an integer is an optional `-` and one or more digits;
/// a float is an optional `-`, then digits with at most one decimal point
/// among them, ending in a digit;
/// a path is one or more characters of any kind.
pub open spec fn conforms(kind: ParamType, v: Seq<char>) -> bool {
    match kind {
        ParamType::String => v.len() > 0 && forall|i: int| 0 <= i < v.len() ==> v[i] != '/',
        ParamType::Integer => {
            let d = unsigned_part(v);
            d.len() > 0 && forall|i: int| 0 <= i < d.len() ==> is_digit(#[trigger] d[i])
        },
        ParamType::Float => {
            let d = unsigned_part(v);
            &&& d.len() > 0
            &&& is_digit(d.last())
            &&& forall|i: int| 0 <= i < d.len() ==> is_digit(#[trigger] d[i]) || d[i] == '.'
            &&& forall|i: int, j: int|
                0 <= i < j < d.len() ==> !(#[trigger] d[i] == '.' && #[trigger] d[j] == '.')
        },
        ParamType::Path => v.len() > 0,
    }
}

/// A capture that is there and has the syntax of its parameter's type.
pub open spec fn bound(kind: ParamType, captured: Option<Seq<char>>) -> bool {
    captured matches Some(v) && conforms(kind, v)
}

/// The parameters of a match: each name of the schema with the text captured
/// for it, in schema order. There are none unless every parameter has a
/// capture with the syntax of its type.
pub open spec fn bind_params(
    schema: Seq<(Seq<char>, ParamType)>,
    captured: Seq<Option<Seq<char>>>,
) -> Option<Seq<(Seq<char>, Seq<char>)>> {
    if captured.len() == schema.len() && forall|i: int|
        0 <= i < schema.len() ==> bound(schema[i].1, #[trigger] captured[i]) {
        Some(Seq::new(schema.len(), |i: int| (schema[i].0, captured[i].unwrap())))
    } else {
        None
    }
}

/// What a pattern with a parameter schema extracts from a path.
pub open spec fn extract_spec(
    pattern: Seq<char>,
    schema: Seq<(Seq<char>, ParamType)>,
    path: Seq<char>,
) -> Option<Seq<(Seq<char>, Seq<char>)>> {
    if regex_is_match(pattern, path) {
        bind_params(
            schema,
            Seq::new(schema.len(), |i: int| regex_capture(pattern, path, schema[i].0)),
        )
    } else {
        None
    }
}

/// Whatever a match extracts has the syntax that its template declares:
/// there is one value for each declared parameter, under the parameter's
/// name and in template order, and each value has the syntax of the
/// parameter's type.
pub proof fn lemma_extracted_values_conform(
    pattern: Seq<char>,
    schema: Seq<(Seq<char>, ParamType)>,
    path: Seq<char>,
)
    ensures
        extract_spec(pattern, schema, path) matches Some(values) ==> {
            &&& regex_is_match(pattern, path)
            &&& values.len() == schema.len()
            &&& forall|i: int|
                0 <= i < schema.len() ==> (#[trigger] values[i]).0 == schema[i].0 && conforms(
                    schema[i].1,
                    values[i].1,
                )
        },
{
    if let Some(values) = extract_spec(pattern, schema, path) {
        let captured = Seq::new(schema.len(), |i: int| regex_capture(pattern, path, schema[i].0));
        assert forall|i: int| 0 <= i < schema.len() implies (#[trigger] values[i]).0 == schema[i].0
            && conforms(schema[i].1, values[i].1) by {
            assert(bound(schema[i].1, captured[i]));
        }
    }
}

/// The number that a run of decimal digits writes.
pub open spec fn digits_value(d: Seq<char>) -> nat
    decreases d.len(),
{
    if d.len() == 0 {
        0
    } else {
        digits_value(d.drop_last()) * 10 + (d.last() as nat - 48) as nat
    }
}

/// The number that a text with the syntax of an integer writes.
pub open spec fn integer_value(v: Seq<char>) -> int {
    if v.len() > 0 && v[0] == '-' {
        -(digits_value(v.skip(1)) as int)
    } else {
        digits_value(v) as int
    }
}

proof fn lemma_digits_value_grows(d: Seq<char>, i: int)
    requires
        0 <= i <= d.len(),
        forall|j: int| 0 <= j < d.len() ==> is_digit(#[trigger] d[j]),
    ensures
        digits_value(d.take(i)) <= digits_value(d),
    decreases d.len() - i,
{
    if i == d.len() {
        assert(d.take(i) =~= d);
    } else {
        let t = d.take(i + 1);
        assert(t.drop_last() =~= d.take(i));
        assert(is_digit(d[i]));
        assert(t.last() == d[i]);
        lemma_digits_value_grows(d, i + 1);
    }
}

/// Reads a text as an integer: `None` unless it has the syntax of an integer
/// and its value fits the machine's 64-bit signed numbers.
pub fn to_integer(v: &Vec<char>) -> (r: Option<i64>)
    ensures
        match r {
            Some(n) => conforms(ParamType::Integer, v@) && n == integer_value(v@),
            None => !conforms(ParamType::Integer, v@) || integer_value(v@) < i64::MIN
                || integer_value(v@) > i64::MAX,
        },
{
    if !check_conforms(ParamType::Integer, v) {
        return None;
    }
    let negative: bool = v[0] == '-';
    let from: usize = if negative {
        1
    } else {
        0
    };
    let ghost d = unsigned_part(v@);
    proof {
        assert(d =~= v@.skip(from as int));
        assert(d.take(0) =~= Seq::<char>::empty());
    }
    let limit: u64 = 9223372036854775808;
    let mut n: u64 = 0;
    let mut i: usize = from;
    while i < v.len()
        invariant
            from <= i <= v.len(),
            d == v@.skip(from as int),
            forall|j: int| 0 <= j < d.len() ==> is_digit(#[trigger] d[j]),
            limit == 9223372036854775808,
            conforms(ParamType::Integer, v@),
            integer_value(v@) == if negative {
                -(digits_value(d) as int)
            } else {
                digits_value(d) as int
            },
            n <= limit,
            n == digits_value(d.take(i - from)),
        decreases v.len() - i,
    {
        proof {
            let t = d.take(i - from + 1);
            assert(t.drop_last() =~= d.take(i - from));
            assert(t.last() == v@[i as int]);
            assert(is_digit(d[i - from]));
            lemma_digits_value_grows(d, i - from + 1);
        }
        let digit: u64 = (v[i] as u32 - 48) as u64;
        if n > (limit - digit) / 10 {
            return None;
        }
        n = n * 10 + digit;
        i = i + 1;
    }
    proof {
        assert(d.take(d.len() as int) =~= d);
    }
    if negative {
        if n == limit {
            Some(i64::MIN)
        } else {
            Some(-(n as i64))
        }
    } else if n == limit {
        None
    } else {
        Some(n as i64)
    }
}

/// The mathematical value of a parameter schema held with `String` names.
pub open spec fn named(v: Seq<(String, ParamType)>) -> Seq<(Seq<char>, ParamType)> {
    Seq::new(v.len(), |i: int| (v[i].0@, v[i].1))
}

/// The mathematical value of a list of name and value pairs.
pub open spec fn pairs(v: Seq<(String, String)>) -> Seq<(Seq<char>, Seq<char>)> {
    Seq::new(v.len(), |i: int| (v[i].0@, v[i].1@))
}

/// The mathematical value of what an extraction returned.
pub open spec fn option_pairs(r: Option<Vec<(String, String)>>) -> Option<
    Seq<(Seq<char>, Seq<char>)>,
> {
    match r {
        Some(v) => Some(pairs(v@)),
        None => None,
    }
}

/// The mathematical value of a list of captures.
pub open spec fn captures_view(v: Seq<Option<String>>) -> Seq<Option<Seq<char>>> {
    Seq::new(
        v.len(),
        |i: int|
            match v[i] {
                Some(s) => Some(s@),
                None => None,
            },
    )
}

fn digit(c: char) -> (r: bool)
    ensures
        r == is_digit(c),
{
    '0' <= c && c <= '9'
}

/// Whether a text has the syntax of a parameter type.
pub fn check_conforms(kind: ParamType, v: &Vec<char>) -> (r: bool)
    ensures
        r == conforms(kind, v@),
{
    let n: usize = v.len();
    match kind {
        ParamType::Path => n > 0,
        ParamType::String => {
            let mut i: usize = 0;
            while i < n
                invariant
                    i <= n,
                    n == v.len(),
                    kind == ParamType::String,
                    forall|j: int| 0 <= j < i ==> v@[j] != '/',
                decreases n - i,
            {
                if v[i] == '/' {
                    assert(v@[i as int] == '/');
                    return false;
                }
                i = i + 1;
            }
            n > 0
        },
        ParamType::Integer => {
            let from: usize = if n > 0 && v[0] == '-' {
                1
            } else {
                0
            };
            let ghost d = unsigned_part(v@);
            proof {
                assert(d =~= v@.skip(from as int));
            }
            let mut i: usize = from;
            while i < n
                invariant
                    from <= i <= n,
                    n == v.len(),
                    d == v@.skip(from as int),
                    d == unsigned_part(v@),
                    kind == ParamType::Integer,
                    forall|j: int| 0 <= j < i - from ==> is_digit(#[trigger] d[j]),
                decreases n - i,
            {
                if !digit(v[i]) {
                    assert(d[i - from] == v@[i as int]);
                    assert(!is_digit(d[i - from]));
                    return false;
                }
                i = i + 1;
            }
            n > from
        },
        ParamType::Float => {
            let from: usize = if n > 0 && v[0] == '-' {
                1
            } else {
                0
            };
            let ghost d = unsigned_part(v@);
            proof {
                assert(d =~= v@.skip(from as int));
            }
            if n == from {
                return false;
            }
            if !digit(v[n - 1]) {
                assert(d.last() == v@[n - 1]);
                return false;
            }
            assert(d.last() == v@[n - 1]);
            let mut dots: usize = 0;
            let ghost mut dot_at: int = 0;
            let mut i: usize = from;
            while i < n
                invariant
                    from <= i <= n,
                    n == v.len(),
                    d == v@.skip(from as int),
                    d == unsigned_part(v@),
                    kind == ParamType::Float,
                    is_digit(d.last()),
                    dots <= 1,
                    dots == 1 ==> 0 <= dot_at < i - from && d[dot_at] == '.',
                    forall|j: int| 0 <= j < i - from ==> is_digit(#[trigger] d[j]) || d[j] == '.',
                    dots == 0 ==> forall|j: int| 0 <= j < i - from ==> #[trigger] d[j] != '.',
                    forall|a: int, b: int|
                        0 <= a < b < i - from ==> !(#[trigger] d[a] == '.' && #[trigger] d[b]
                            == '.'),
                decreases n - i,
            {
                assert(d[i - from] == v@[i as int]);
                if v[i] == '.' {
                    if dots == 1 {
                        assert(d[dot_at] == '.' && d[i - from] == '.');
                        return false;
                    }
                    dots = 1;
                    proof {
                        dot_at = i - from;
                    }
                } else if !digit(v[i]) {
                    assert(!(is_digit(d[i - from]) || d[i - from] == '.'));
                    return false;
                }
                i = i + 1;
            }
            true
        },
    }
}

/// Pairs each parameter of a schema with the text captured for it. This is
/// what a match yields once the captures are known: `None` unless there is
/// one capture for each parameter, each present and with the syntax of the
/// parameter's type.
pub fn bind_captures(schema: &Vec<(String, ParamType)>, captured: &Vec<Option<String>>) -> (r:
    Option<Vec<(String, String)>>)
    ensures
        option_pairs(r) == bind_params(named(schema@), captures_view(captured@)),
{
    if captured.len() != schema.len() {
        return None;
    }
    let ghost sch = named(schema@);
    let ghost cap = captures_view(captured@);
    let mut out: Vec<(String, String)> = Vec::new();
    let mut i: usize = 0;
    while i < schema.len()
        invariant
            i <= schema.len(),
            captured.len() == schema.len(),
            sch == named(schema@),
            cap == captures_view(captured@),
            out.len() == i,
            forall|j: int| 0 <= j < i ==> bound(sch[j].1, #[trigger] cap[j]),
            forall|j: int| 0 <= j < i ==> (#[trigger] pairs(out@)[j]) == (sch[j].0, cap[j].unwrap()),
        decreases schema.len() - i,
    {
        match &captured[i] {
            None => {
                assert(!bound(sch[i as int].1, cap[i as int]));
                return None;
            },
            Some(value) => {
                let chars = chars_of(value.as_str());
                if !check_conforms(schema[i].1, &chars) {
                    assert(!bound(sch[i as int].1, cap[i as int]));
                    return None;
                }
                assert(bound(sch[i as int].1, cap[i as int]));
                let ghost before = pairs(out@);
                out.push((schema[i].0.clone(), value.clone()));
                proof {
                    assert(pairs(out@) =~= before.push((sch[i as int].0, cap[i as int].unwrap())));
                }
            },
        }
        i = i + 1;
    }
    proof {
        assert(pairs(out@) =~= Seq::new(sch.len(), |i: int| (sch[i].0, cap[i].unwrap())));
    }
    Some(out)
}

/// One compiled path template with the methods it answers to and the handler
/// bound to it. A route does not change once it is made.
pub struct Route<H> {
    matcher: regex::Regex,
    pattern: String,
    parts: Vec<Segment>,
    params: Vec<(String, ParamType)>,
    methods: Vec<Method>,
    handler: H,
}

impl<H> Route<H> {
    /// The parsed template.
    pub closed spec fn template(&self) -> Seq<Part> {
        parts_of(self.parts@)
    }

    /// The methods the route answers to.
    pub closed spec fn methods(&self) -> Set<Method> {
        self.methods@.to_set()
    }

    /// The handler bound to the route.
    pub closed spec fn bound_handler(&self) -> H {
        self.handler
    }

    /// The declared parameters with their types, in template order.
    pub open spec fn schema(&self) -> Seq<(Seq<char>, ParamType)> {
        schema_of(self.template())
    }

    /// The pattern that the matcher was compiled from.
    pub open spec fn pattern(&self) -> Seq<char> {
        route_pattern(self.template())
    }

    /// A route is well formed when its matcher is the compiled pattern of its
    /// template and its parameter names differ from one another.
    pub closed spec fn wf(&self) -> bool {
        &&& names_distinct(self.schema())
        &&& self.pattern@ == self.pattern()
        &&& regex_source(self.matcher) == self.pattern@
        &&& named(self.params@) == self.schema()
    }

    #[verifier::type_invariant]
    spec fn inv(self) -> bool {
        self.wf()
    }

    /// Whether the route takes a request for `path` with `method`.
    pub open spec fn matches(&self, path: Seq<char>, method: Method) -> bool {
        regex_is_match(self.pattern(), path) && self.methods().contains(method)
    }

    /// The parameters that the route extracts from `path`; `None` where the
    /// path does not match.
    pub open spec fn extract(&self, path: Seq<char>) -> Option<Seq<(Seq<char>, Seq<char>)>> {
        extract_spec(self.pattern(), self.schema(), path)
    }

    /// Compiles a template into a route for the given methods. The template is
    /// refused when a segment is malformed, when two parameters share a name,
    /// or when the expression engine does not take the assembled pattern.
    pub fn new(path: &str, mlist: Vec<Method>, handler: H) -> (r: Result<Route<H>, RouteError>)
        ensures
            match r {
                Ok(route) => {
                    &&& route.wf()
                    &&& parse_template(path@) == Ok::<Seq<Part>, RouteError>(route.template())
                    &&& regex_accepts(route.pattern())
                    &&& route.methods() == mlist@.to_set()
                    &&& route.bound_handler() == handler
                },
                Err(RouteError::Rejected) => parse_template(path@) matches Ok(parts)
                    && !regex_accepts(route_pattern(parts)),
                Err(e) => parse_template(path@) == Err::<Seq<Part>, RouteError>(e),
            },
    {
        let parts = match parse(path) {
            Ok(parts) => parts,
            Err(e) => {
                return Err(e);
            },
        };
        let pattern = string_of(&assemble(&parts));
        let matcher = match compile(pattern.as_str()) {
            Ok(m) => m,
            Err(_) => {
                return Err(RouteError::Rejected);
            },
        };
        let declared = schema(&parts);
        let mut params: Vec<(String, ParamType)> = Vec::new();
        let mut i: usize = 0;
        while i < declared.len()
            invariant
                i <= declared.len(),
                named(params@) == schema_view(declared@).take(i as int),
            decreases declared.len() - i,
        {
            let ghost before = named(params@);
            params.push((string_of(&declared[i].0), declared[i].1));
            proof {
                assert(named(params@) =~= before.push(schema_view(declared@)[i as int]));
                assert(schema_view(declared@).take(i + 1) =~= before.push(
                    schema_view(declared@)[i as int],
                ));
            }
            i = i + 1;
        }
        proof {
            assert(schema_view(declared@).take(declared.len() as int) =~= schema_view(declared@));
        }
        Ok(Route { matcher, pattern, parts, params, methods: mlist, handler })
    }

    /// The handler bound to the route.
    pub fn handler(&self) -> (h: &H)
        ensures
            *h == self.bound_handler(),
    {
        &self.handler
    }

    /// Whether the route answers to a method.
    pub fn accepts_method(&self, method: Method) -> (r: bool)
        ensures
            r == self.methods().contains(method),
    {
        let mut i: usize = 0;
        while i < self.methods.len()
            invariant
                i <= self.methods.len(),
                forall|j: int| 0 <= j < i ==> self.methods@[j] != method,
            decreases self.methods.len() - i,
        {
            if self.methods[i] == method {
                assert(self.methods@.contains(method));
                return true;
            }
            i = i + 1;
        }
        assert(!self.methods@.contains(method));
        false
    }

    /// Whether the route takes a path with a method.
    pub fn takes(&self, path: &str, method: Method) -> (r: bool)
        ensures
            r == self.matches(path@, method),
    {
        proof {
            use_type_invariant(self);
        }
        is_match(&self.matcher, path) && self.accepts_method(method)
    }

    /// Whether the route takes a request: its path matches the template and
    /// its method is one of the route's.
    pub fn is_match(&self, req: &Request) -> (r: bool)
        ensures
            r == self.matches(req.path@, req.method),
    {
        self.takes(req.path.as_str(), req.method)
    }

    /// Extracts the parameters of a path: each declared name with the text
    /// captured for it, in template order. `None` where the path does not
    /// match. Every value returned has the syntax of its parameter's type.
    pub fn parse(&self, path: &str) -> (r: Option<Vec<(String, String)>>)
        ensures
            option_pairs(r) == self.extract(path@),
            r matches Some(v) ==> {
                &&& v@.len() == self.schema().len()
                &&& forall|i: int|
                    0 <= i < v@.len() ==> (#[trigger] v@[i]).0@ == self.schema()[i].0 && conforms(
                        self.schema()[i].1,
                        v@[i].1@,
                    )
            },
    {
        proof {
            use_type_invariant(self);
        }
        if !is_match(&self.matcher, path) {
            return None;
        }
        let mut captured: Vec<Option<String>> = Vec::new();
        let mut i: usize = 0;
        while i < self.params.len()
            invariant
                i <= self.params.len(),
                named(self.params@) == self.schema(),
                regex_source(self.matcher) == self.pattern(),
                captured.len() == i,
                forall|j: int|
                    0 <= j < i ==> (#[trigger] captures_view(captured@)[j]) == regex_capture(
                        self.pattern(),
                        path@,
                        self.schema()[j].0,
                    ),
            decreases self.params.len() - i,
        {
            let ghost before = captures_view(captured@);
            let c = capture(&self.matcher, path, self.params[i].0.as_str());
            proof {
                assert(named(self.params@)[i as int].0 == self.params@[i as int].0@);
            }
            captured.push(c);
            proof {
                assert(captures_view(captured@) =~= before.push(
                    regex_capture(self.pattern(), path@, self.schema()[i as int].0),
                ));
            }
            i = i + 1;
        }
        proof {
            assert(captures_view(captured@) =~= Seq::new(
                self.schema().len(),
                |i: int| regex_capture(self.pattern(), path@, self.schema()[i].0),
            ));
        }
        let r = bind_captures(&self.params, &captured);
        proof {
            if let Some(v) = &r {
                assert(bind_params(self.schema(), captures_view(captured@)) == Some(pairs(v@)));
                assert(pairs(v@).len() == v@.len());
                assert forall|i: int| 0 <= i < v@.len() implies (#[trigger] v@[i]).0@
                    == self.schema()[i].0 && conforms(self.schema()[i].1, v@[i].1@) by {
                    assert(pairs(v@)[i] == (v@[i].0@, v@[i].1@));
                    assert(bound(self.schema()[i].1, captures_view(captured@)[i]));
                }
            }
        }
        r
    }
}

/// What reading a file gave.
#[derive(Debug)]
pub enum FileRead {
    /// The bytes of the file.
    Contents(Vec<u8>),
    /// There is no such file.
    Missing,
    /// The file is there but reading it failed; the text describes the failure.
    Failed(String),
}

/// The segments `.` and `..`, which name no file of their own.
pub open spec fn is_dot(seg: Seq<char>) -> bool {
    seg == seq!['.'] || seg == seq!['.', '.']
}

/// The segments that are neither `.` nor `..`, in order.
pub open spec fn without_dots(segs: Seq<Seq<char>>) -> Seq<Seq<char>>
    decreases segs.len(),
{
    if segs.len() == 0 {
        Seq::empty()
    } else if is_dot(segs.last()) {
        without_dots(segs.drop_last())
    } else {
        without_dots(segs.drop_last()).push(segs.last())
    }
}

/// The file-system segments that a request path names: its segments without
/// the empty ones, `.` and `..`.
pub open spec fn static_segments(path: Seq<char>) -> Seq<Seq<char>> {
    without_dots(split_segments(path))
}

/// The texts held by a vector of strings.
pub open spec fn strings_view(v: Seq<String>) -> Seq<Seq<char>> {
    Seq::new(v.len(), |i: int| v[i]@)
}

/// A segment that can be joined to a directory without leaving it: not
/// empty, free of slashes, and neither `.` nor `..`.
pub open spec fn is_safe_segment(seg: Seq<char>) -> bool {
    seg.len() > 0 && !is_dot(seg) && forall|j: int| 0 <= j < seg.len() ==> seg[j] != '/'
}

/// Dropping the dot segments keeps only what was there, and no dot segment.
pub proof fn lemma_without_dots(segs: Seq<Seq<char>>, i: int)
    requires
        0 <= i < without_dots(segs).len(),
    ensures
        !is_dot(without_dots(segs)[i]),
        segs.contains(without_dots(segs)[i]),
    decreases segs.len(),
{
    if segs.len() > 0 {
        let head = segs.drop_last();
        if is_dot(segs.last()) || i < without_dots(head).len() {
            lemma_without_dots(head, i);
            let k = choose|k: int| 0 <= k < head.len() && head[k] == without_dots(head)[i];
            assert(segs[k] == without_dots(segs)[i]);
        } else {
            assert(segs[segs.len() - 1] == without_dots(segs)[i]);
        }
    }
}

/// No path, whatever it holds, names a segment that leaves the directory it
/// is joined to.
pub proof fn lemma_static_segments_safe(path: Seq<char>)
    ensures
        forall|i: int|
            0 <= i < static_segments(path).len() ==> is_safe_segment(
                #[trigger] static_segments(path)[i],
            ),
{
    let segs = split_segments(path);
    crate::template::lemma_split_segments(path);
    assert forall|i: int| 0 <= i < static_segments(path).len() implies is_safe_segment(
        #[trigger] static_segments(path)[i],
    ) by {
        lemma_without_dots(segs, i);
        let seg = static_segments(path)[i];
        let k = choose|k: int| 0 <= k < segs.len() && segs[k] == seg;
        assert(crate::template::is_segment(segs[k]));
    }
}

fn dot_segment(seg: &Vec<char>) -> (r: bool)
    ensures
        r == is_dot(seg@),
{
    if seg.len() == 1 && seg[0] == '.' {
        assert(seg@ =~= seq!['.']);
        true
    } else if seg.len() == 2 && seg[0] == '.' && seg[1] == '.' {
        assert(seg@ =~= seq!['.', '.']);
        true
    } else {
        proof {
            let a = seq!['.'];
            let b = seq!['.', '.'];
            if seg@ == a {
                assert(seg@[0] == a[0]);
            }
            if seg@ == b {
                assert(seg@[0] == b[0] && seg@[1] == b[1]);
            }
        }
        false
    }
}

/// The file-system segments that a request path names. Empty segments, `.`
/// and `..` are dropped, so joining the result to a directory stays inside it.
pub fn static_path(path: &str) -> (r: Vec<String>)
    ensures
        strings_view(r@) == static_segments(path@),
        forall|i: int| 0 <= i < r@.len() ==> is_safe_segment(#[trigger] r@[i]@),
{
    let chars = chars_of(path);
    let segs = segments(&chars);
    let mut r: Vec<String> = Vec::new();
    let mut i: usize = 0;
    proof {
        assert(texts(segs@).take(0) =~= Seq::<Seq<char>>::empty());
    }
    while i < segs.len()
        invariant
            i <= segs.len(),
            strings_view(r@) == without_dots(texts(segs@).take(i as int)),
        decreases segs.len() - i,
    {
        let ghost before = strings_view(r@);
        proof {
            let t = texts(segs@).take(i + 1);
            assert(t.drop_last() =~= texts(segs@).take(i as int));
            assert(t.last() == segs@[i as int]@);
        }
        if !dot_segment(&segs[i]) {
            r.push(string_of(&segs[i]));
            proof {
                assert(strings_view(r@) =~= before.push(segs@[i as int]@));
            }
        }
        i = i + 1;
    }
    proof {
        assert(texts(segs@).take(segs.len() as int) =~= texts(segs@));
        lemma_static_segments_safe(path@);
        assert(strings_view(r@) == static_segments(path@));
        assert forall|i: int| 0 <= i < r@.len() implies is_safe_segment(#[trigger] r@[i]@) by {
            assert(strings_view(r@)[i] == r@[i]@);
            assert(is_safe_segment(static_segments(path@)[i]));
        }
    }
    r
}

impl<H> Route<H> {
    /// The built-in handler for a request that is not allowed: status 403,
    /// echoing the path.
    pub fn err_403(req: &Request) -> (r: Response)
        ensures
            r.is_error_page(403, "forbidden: "@, req.path@),
    {
        Response::err_403(req.path.as_str())
    }

    /// The built-in handler for a request that no route takes: status 404,
    /// echoing the path.
    pub fn err_404(req: &Request) -> (r: Response)
        ensures
            r.is_error_page(404, "not found: "@, req.path@),
    {
        Response::err_404(req.path.as_str())
    }

    /// The built-in handler that serves a file, given what reading the file
    /// named by `static_path` of the request path gave: the contents as plain
    /// text with status 200, 404 for a missing file, 500 for a failed read.
    pub fn static_file(req: &Request, read: FileRead) -> (r: Response)
        ensures
            match read {
                FileRead::Contents(bytes) => {
                    &&& r.code == 200
                    &&& r.content_type matches Some(t) && t@ == "text/plain"@
                    &&& r.headers@.len() == 0
                    &&& r.payload@ == bytes@
                },
                FileRead::Missing => r.is_error_page(404, "not found: "@, req.path@),
                FileRead::Failed(what) => r.is_error_page(500, "internal server error: "@, what@),
            },
    {
        match read {
            FileRead::Contents(bytes) => {
                let mut res = Response::new();
                res.set_code(200);
                res.set_content_type("text/plain");
                res.append(bytes.as_slice());
                assert(res.payload@ =~= bytes@);
                res
            },
            FileRead::Missing => Response::err_404(req.path.as_str()),
            FileRead::Failed(what) => Response::err_500(what.as_str()),
        }
    }
}

} // verus!
