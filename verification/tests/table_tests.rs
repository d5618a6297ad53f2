use canteen::{Method, Request, Route, RouteDef, RouteError, RouteTable};

fn name_value(name: &str, value: &str) -> (String, String) {
    (name.to_string(), value.to_string())
}

fn sample_table() -> RouteTable<u32> {
    let mut table = RouteTable::new();
    table.add_route("/item/<int:id>", &[Method::Get], 1).unwrap();
    table.add_route("/item/<name>", &[Method::Get], 2).unwrap();
    table.add_route("/item/<int:id>", &[Method::Post, Method::Put], 3).unwrap();
    table
}

#[test]
fn first_registered_match_wins() {
    let mut table = sample_table();
    assert_eq!(table.len(), 4);
    assert_eq!(table.find("/item/42", Method::Get), Some(0));
    assert_eq!(table.find("/item/abc", Method::Get), Some(1));
    assert_eq!(table.find("/item/42", Method::Post), Some(2));
    assert_eq!(table.find("/item/42", Method::Put), Some(3));
    assert_eq!(table.find("/item/abc", Method::Post), None);
    assert_eq!(table.find("/other", Method::Get), None);
}

#[test]
fn resolution_is_the_same_every_time() {
    let mut table = sample_table();
    let req = Request::new(Method::Get, "/item/42");
    let first = table.resolve(&req);
    let second = table.resolve(&req);
    let third = table.resolve(&req);
    assert_eq!(first, Some((1, Some(vec![name_value("id", "42")]))));
    assert_eq!(first, second);
    assert_eq!(second, third);
    let mut other = sample_table();
    assert_eq!(other.resolve(&req), first);
}

#[test]
fn cache_agrees_with_scan() {
    let mut table = sample_table();
    let paths = ["/item/42", "/item/abc", "/item/-7", "/none", "/item/42/"];
    let methods = [Method::Get, Method::Post, Method::Put, Method::Delete];
    for _round in 0..3 {
        for path in paths {
            for method in methods {
                let scanned = table.scan(path, method);
                assert_eq!(table.find(path, method), scanned);
                assert_eq!(table.find(path, method), scanned);
            }
        }
    }
}

#[test]
fn cache_survives_later_registrations() {
    let mut table = sample_table();
    assert_eq!(table.find("/item/abc", Method::Get), Some(1));
    assert_eq!(table.find("/late/x", Method::Get), None);
    table.add_route("/<a>/<b>", &[Method::Get], 9).unwrap();
    assert_eq!(table.find("/item/abc", Method::Get), Some(1));
    assert_eq!(table.find("/late/x", Method::Get), Some(4));
    assert_eq!(table.scan("/late/x", Method::Get), Some(4));
}

#[test]
fn duplicate_registration_is_refused() {
    let mut table: RouteTable<u32> = RouteTable::new();
    assert_eq!(table.add_route("/a/<int:x>", &[Method::Get], 1), Ok(()));
    assert_eq!(table.add_route("/a/<int:x>", &[Method::Get], 2), Err(RouteError::AlreadyDefined));
    assert_eq!(table.len(), 1);
    assert_eq!(
        table.add_route("/a/<int:x>", &[Method::Post, Method::Get], 2),
        Err(RouteError::AlreadyDefined)
    );
    assert_eq!(table.len(), 1);
    assert!(!table.is_defined("/a/<int:x>", Method::Post));
    assert_eq!(table.resolve(&Request::new(Method::Get, "/a/1")).map(|r| r.0), Some(1));
}

#[test]
fn same_template_with_two_methods_matches_independently() {
    let mut table: RouteTable<u32> = RouteTable::new();
    assert_eq!(table.add_route("/a/<int:x>", &[Method::Get], 1), Ok(()));
    assert_eq!(table.add_route("/a/<int:x>", &[Method::Post], 2), Ok(()));
    assert!(table.is_defined("/a/<int:x>", Method::Get));
    assert!(table.is_defined("/a/<int:x>", Method::Post));
    assert_eq!(
        table.resolve(&Request::new(Method::Get, "/a/5")),
        Some((1, Some(vec![name_value("x", "5")])))
    );
    assert_eq!(
        table.resolve(&Request::new(Method::Post, "/a/5")),
        Some((2, Some(vec![name_value("x", "5")])))
    );
    assert_eq!(table.resolve(&Request::new(Method::Put, "/a/5")), None);
}

#[test]
fn repeated_methods_register_once() {
    let mut table: RouteTable<u32> = RouteTable::new();
    assert_eq!(table.add_route("/a", &[Method::Get, Method::Post, Method::Get], 1), Ok(()));
    assert_eq!(table.len(), 2);
    assert_eq!(table.find("/a", Method::Get), Some(0));
    assert_eq!(table.find("/a", Method::Post), Some(1));
}

#[test]
fn refused_template_leaves_the_table_alone() {
    let mut table = sample_table();
    assert_eq!(table.add_route("/x/<int:", &[Method::Get], 5), Err(RouteError::Malformed));
    assert_eq!(table.add_route("/x/<9>", &[Method::Get], 5), Err(RouteError::Malformed));
    assert_eq!(table.add_route("/x/<a>/<a>", &[Method::Get], 5), Err(RouteError::DuplicateParam));
    assert_eq!(table.len(), 4);
    assert_eq!(table.add_route("/x/<int:", &[], 5), Ok(()));
    assert_eq!(table.len(), 4);
}

#[test]
fn register_takes_a_route_under_an_identity_once() {
    let mut table: RouteTable<u32> = RouteTable::new();
    let def = |m| RouteDef { pathdef: "/r".to_string(), method: m };
    let route = |h| Route::new("/r", vec![Method::Get], h).unwrap();
    assert_eq!(table.register(def(Method::Get), route(1)), Ok(()));
    assert_eq!(table.register(def(Method::Get), route(2)), Err(RouteError::AlreadyDefined));
    assert_eq!(table.len(), 1);
    assert_eq!(table.find("/r", Method::Get), Some(0));
    let other = RouteDef { pathdef: "/r/".to_string(), method: Method::Get };
    assert_eq!(table.register(other, route(3)), Ok(()));
    assert_eq!(table.find("/r", Method::Get), Some(0));
}
