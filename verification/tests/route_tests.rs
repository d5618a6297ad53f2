use canteen::route::{bind_captures, check_conforms, static_path, to_integer};
use canteen::template::{assemble, classify_segment, parse, segments, Segment};
use canteen::{FileRead, Method, ParamType, Request, Response, Route, RouteError};

fn pair(name: &str, value: &str) -> (String, String) {
    (name.to_string(), value.to_string())
}

fn chars(text: &str) -> Vec<char> {
    text.chars().collect()
}

fn text(chars: &[char]) -> String {
    chars.iter().collect()
}

#[test]
fn integer_parameter_is_extracted() {
    let route = Route::new("/item/<int:id>", vec![Method::Get], 7u32).unwrap();
    assert_eq!(route.parse("/item/42"), Some(vec![pair("id", "42")]));
    assert_eq!(route.parse("/item/-42"), Some(vec![pair("id", "-42")]));
    assert_eq!(route.parse("/item/42/"), Some(vec![pair("id", "42")]));
}

#[test]
fn integer_parameter_refuses_other_text() {
    let route = Route::new("/item/<int:id>", vec![Method::Get], 7u32).unwrap();
    assert_eq!(route.parse("/item/abc"), None);
    assert_eq!(route.parse("/item/4.2"), None);
    assert_eq!(route.parse("/item/"), None);
    assert_eq!(route.parse("/item/--4"), None);
    assert_eq!(route.parse("/item/42/more"), None);
    assert_eq!(route.parse("/prefix/item/42"), None);
}

#[test]
fn string_parameter_takes_one_segment() {
    let route = Route::new("/user/<name>", vec![Method::Get], 0u32).unwrap();
    assert_eq!(route.parse("/user/ann"), Some(vec![pair("name", "ann")]));
    assert_eq!(route.parse("/user/ann-b.c"), Some(vec![pair("name", "ann-b.c")]));
    assert_eq!(route.parse("/user/ann/x"), None);
    let typed = Route::new("/user/<str:name>", vec![Method::Get], 0u32).unwrap();
    assert_eq!(typed.parse("/user/ann"), Some(vec![pair("name", "ann")]));
}

#[test]
fn float_parameter_takes_decimal_numbers() {
    let route = Route::new("/at/<float:x>", vec![Method::Get], 0u32).unwrap();
    assert_eq!(route.parse("/at/1.5"), Some(vec![pair("x", "1.5")]));
    assert_eq!(route.parse("/at/-0.25"), Some(vec![pair("x", "-0.25")]));
    assert_eq!(route.parse("/at/.5"), Some(vec![pair("x", ".5")]));
    assert_eq!(route.parse("/at/12"), Some(vec![pair("x", "12")]));
    assert_eq!(route.parse("/at/1."), None);
    assert_eq!(route.parse("/at/1.2.3"), None);
    assert_eq!(route.parse("/at/x"), None);
}

#[test]
fn path_parameter_takes_the_rest() {
    let route = Route::new("/static/<path:file>", vec![Method::Get], 0u32).unwrap();
    assert_eq!(route.parse("/static/css/site.css"), Some(vec![pair("file", "css/site.css")]));
    assert_eq!(route.parse("/static/a"), Some(vec![pair("file", "a")]));
    assert_eq!(route.parse("/static/"), None);
}

#[test]
fn several_parameters_come_in_template_order() {
    let route = Route::new("/a/<int:x>/b/<y>/<float:z>", vec![Method::Get], 0u32).unwrap();
    assert_eq!(
        route.parse("/a/1/b/two/3.0"),
        Some(vec![pair("x", "1"), pair("y", "two"), pair("z", "3.0")])
    );
}

#[test]
fn slashes_around_a_template_do_not_matter() {
    let plain = Route::new("item/<int:id>", vec![Method::Get], 0u32).unwrap();
    let slashed = Route::new("//item///<int:id>/", vec![Method::Get], 0u32).unwrap();
    assert_eq!(plain.parse("/item/5"), Some(vec![pair("id", "5")]));
    assert_eq!(slashed.parse("/item/5"), Some(vec![pair("id", "5")]));
    assert_eq!(slashed.parse("/item/5/"), Some(vec![pair("id", "5")]));
}

#[test]
fn empty_template_matches_the_root() {
    let route = Route::new("/", vec![Method::Get], 0u32).unwrap();
    assert_eq!(route.parse("/"), Some(vec![]));
    assert_eq!(route.parse(""), Some(vec![]));
    assert_eq!(route.parse("/x"), None);
}

#[test]
fn literal_segments_match_themselves_only() {
    let route = Route::new("/a.b/c+d", vec![Method::Get], 0u32).unwrap();
    assert!(route.takes("/a.b/c+d", Method::Get));
    assert!(!route.takes("/axb/c+d", Method::Get));
    assert!(!route.takes("/a.b/ccd", Method::Get));
    let odd = Route::new("/(x/[y", vec![Method::Get], 0u32).unwrap();
    assert!(odd.takes("/(x/[y", Method::Get));
}

#[test]
fn route_matches_method_and_path() {
    let route = Route::new("/item/<int:id>", vec![Method::Get, Method::Put], 7u32).unwrap();
    assert!(route.is_match(&Request::new(Method::Get, "/item/42")));
    assert!(route.is_match(&Request::new(Method::Put, "/item/42")));
    assert!(!route.is_match(&Request::new(Method::Post, "/item/42")));
    assert!(!route.is_match(&Request::new(Method::Get, "/item/abc")));
    assert!(route.accepts_method(Method::Put));
    assert!(!route.accepts_method(Method::Delete));
    assert_eq!(*route.handler(), 7u32);
}

#[test]
fn route_without_methods_takes_nothing() {
    let route = Route::new("/x", vec![], 0u32).unwrap();
    assert!(!route.takes("/x", Method::Get));
    assert_eq!(route.parse("/x"), Some(vec![]));
}

#[test]
fn malformed_templates_are_refused() {
    let bad = ["/item/<int:id", "/item/int:id>", "/<", "/>", "/a>b<", "/<a>>", "/<<a>", "/<9a>",
               "/<int:9a>", "/<str:0>", "/x/<a>/<7>"];
    for template in bad {
        assert_eq!(
            Route::new(template, vec![Method::Get], 0u32).err(),
            Some(RouteError::Malformed),
            "{}",
            template
        );
    }
}

#[test]
fn balanced_brackets_that_make_no_placeholder_are_literal() {
    let literal = ["/a<b>", "/<a>b", "/<>", "/<a b>", "/<int:>", "/<int:a:b>", "/<uint:x>",
                   "/<a><b>", "/<<a>>", "/<a-b>", "/<:a>"];
    for template in literal {
        let route = Route::new(template, vec![Method::Get], 0u32).unwrap();
        assert_eq!(route.parse(template), Some(vec![]), "{}", template);
        assert!(!route.takes("/x", Method::Get), "{}", template);
        assert!(!route.takes("/5", Method::Get), "{}", template);
    }
    let mixed = Route::new("/a<b>/<int:n>", vec![Method::Get], 0u32).unwrap();
    assert_eq!(mixed.parse("/a<b>/7"), Some(vec![pair("n", "7")]));
    assert_eq!(mixed.parse("/ab/7"), None);
}

#[test]
fn repeated_parameter_names_are_refused() {
    assert_eq!(
        Route::new("/a/<x>/<int:x>", vec![Method::Get], 0u32).err(),
        Some(RouteError::DuplicateParam)
    );
    assert_eq!(
        Route::new("/a/<x>/<x>/<bad", vec![Method::Get], 0u32).err(),
        Some(RouteError::Malformed)
    );
}

#[test]
fn template_segments_are_classified() {
    assert_eq!(text(&match classify_segment(&chars("plain")).unwrap() {
        Segment::Literal(t) => t,
        _ => panic!("literal expected"),
    }), "plain");
    match classify_segment(&chars("<float:_x9>")).unwrap() {
        Segment::Param { name, kind } => {
            assert_eq!(text(&name), "_x9");
            assert_eq!(kind, ParamType::Float);
        }
        _ => panic!("parameter expected"),
    }
    match classify_segment(&chars("<path:p>")).unwrap() {
        Segment::Param { kind, .. } => assert_eq!(kind, ParamType::Path),
        _ => panic!("parameter expected"),
    }
    assert!(classify_segment(&chars("<int:1x>")).is_none());
    assert!(classify_segment(&chars("<int:x")).is_none());
    assert_eq!(text(&match classify_segment(&chars("<uint:x>")).unwrap() {
        Segment::Literal(t) => t,
        _ => panic!("literal expected"),
    }), "<uint:x>");
    assert_eq!(text(&match classify_segment(&chars("a<b>")).unwrap() {
        Segment::Literal(t) => t,
        _ => panic!("literal expected"),
    }), "a<b>");
}

#[test]
fn paths_split_into_segments() {
    let segs: Vec<String> = segments(&chars("//a/bc//d/")).iter().map(|s| text(s)).collect();
    assert_eq!(segs, vec!["a", "bc", "d"]);
    assert!(segments(&chars("")).is_empty());
    assert!(segments(&chars("///")).is_empty());
    let one: Vec<String> = segments(&chars("abc")).iter().map(|s| text(s)).collect();
    assert_eq!(one, vec!["abc"]);
}

#[test]
fn pattern_is_assembled_from_the_template() {
    let parts = parse("/item/<int:id>/<name>/<float:f>/<path:rest>").unwrap();
    assert_eq!(
        text(&assemble(&parts)),
        "^/item/(?P<id>-?[0-9]+)/(?P<name>[^/]+)/(?P<f>-?[0-9]*[.]?[0-9]+)/(?P<rest>.+)/?$"
    );
    let literal = parse("/a.b/c-d").unwrap();
    assert_eq!(text(&assemble(&literal)), "^/a\\.b/c\\-d/?$");
    assert_eq!(text(&assemble(&parse("/").unwrap())), "^/?$");
    assert_eq!(text(&assemble(&parse("/a<b>/<uint:x>").unwrap())), "^/a<b>/<uint:x>/?$");
    assert_eq!(text(&assemble(&parse("/<a b>/(?P<n>.)").unwrap())), "^/<a b>/\\(\\?P<n>\\.\\)/?$");
}

#[test]
fn conformance_follows_the_declared_type() {
    assert!(check_conforms(ParamType::Integer, &chars("-12")));
    assert!(!check_conforms(ParamType::Integer, &chars("-")));
    assert!(!check_conforms(ParamType::Integer, &chars("")));
    assert!(!check_conforms(ParamType::Integer, &chars("1-2")));
    assert!(check_conforms(ParamType::Float, &chars("-1.25")));
    assert!(check_conforms(ParamType::Float, &chars(".5")));
    assert!(!check_conforms(ParamType::Float, &chars("1.")));
    assert!(!check_conforms(ParamType::Float, &chars("1..2")));
    assert!(!check_conforms(ParamType::Float, &chars(".")));
    assert!(check_conforms(ParamType::String, &chars("a b")));
    assert!(!check_conforms(ParamType::String, &chars("a/b")));
    assert!(!check_conforms(ParamType::String, &chars("")));
    assert!(check_conforms(ParamType::Path, &chars("a/b")));
    assert!(!check_conforms(ParamType::Path, &chars("")));
}

#[test]
fn captures_bind_to_the_schema() {
    let schema = vec![("id".to_string(), ParamType::Integer), ("name".to_string(), ParamType::String)];
    assert_eq!(
        bind_captures(&schema, &vec![Some("7".to_string()), Some("x".to_string())]),
        Some(vec![pair("id", "7"), pair("name", "x")])
    );
    assert_eq!(bind_captures(&schema, &vec![Some("seven".to_string()), Some("x".to_string())]), None);
    assert_eq!(bind_captures(&schema, &vec![Some("7".to_string()), None]), None);
    assert_eq!(bind_captures(&schema, &vec![Some("7".to_string())]), None);
    assert_eq!(bind_captures(&vec![], &vec![]), Some(vec![]));
}

#[test]
fn integers_are_read_within_sixty_four_bits() {
    assert_eq!(to_integer(&chars("21")), Some(21));
    assert_eq!(to_integer(&chars("-21")), Some(-21));
    assert_eq!(to_integer(&chars("0007")), Some(7));
    assert_eq!(to_integer(&chars("9223372036854775807")), Some(i64::MAX));
    assert_eq!(to_integer(&chars("9223372036854775808")), None);
    assert_eq!(to_integer(&chars("-9223372036854775808")), Some(i64::MIN));
    assert_eq!(to_integer(&chars("-9223372036854775809")), None);
    assert_eq!(to_integer(&chars("99999999999999999999999")), None);
    assert_eq!(to_integer(&chars("1x")), None);
    assert_eq!(to_integer(&chars("")), None);
}

#[test]
fn static_paths_drop_traversal_segments() {
    assert_eq!(static_path("/static/../secret"), vec!["static", "secret"]);
    assert_eq!(static_path("/static/./a//b/../../c.txt"), vec!["static", "a", "b", "c.txt"]);
    assert_eq!(static_path("/../.."), Vec::<String>::new());
    assert_eq!(static_path("/...").len(), 1);
    assert_eq!(static_path(""), Vec::<String>::new());
}

#[test]
fn built_in_handlers_echo_the_path() {
    let req = Request::new(Method::Get, "/nowhere");
    let forbidden: Response = Route::<u32>::err_403(&req);
    assert_eq!(forbidden.code, 403);
    assert_eq!(forbidden.payload, b"forbidden: /nowhere".to_vec());
    let missing = Route::<u32>::err_404(&req);
    assert_eq!(missing.code, 404);
    assert_eq!(missing.content_type.as_deref(), Some("text/plain"));
    assert_eq!(missing.payload, b"not found: /nowhere".to_vec());
}

#[test]
fn static_file_answers_by_what_the_read_gave() {
    let req = Request::new(Method::Get, "/static/a.txt");
    let found = Route::<u32>::static_file(&req, FileRead::Contents(b"hello".to_vec()));
    assert_eq!(found.code, 200);
    assert_eq!(found.content_type.as_deref(), Some("text/plain"));
    assert_eq!(found.payload, b"hello".to_vec());
    let missing = Route::<u32>::static_file(&req, FileRead::Missing);
    assert_eq!(missing.code, 404);
    assert_eq!(missing.payload, b"not found: /static/a.txt".to_vec());
    let failed = Route::<u32>::static_file(&req, FileRead::Failed("disk on fire".to_string()));
    assert_eq!(failed.code, 500);
    assert_eq!(failed.payload, b"internal server error: disk on fire".to_vec());
}

#[test]
fn oversized_pattern_is_rejected() {
    let mut template = String::new();
    for k in 0..20000 {
        template.push_str(&format!("/<p{}>", k));
    }
    assert_eq!(Route::new(&template, vec![Method::Get], 0u32).err(), Some(RouteError::Rejected));
}
