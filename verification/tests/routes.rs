use yamlpath::{Component, Route};

#[test]
fn test_query_parent() {
    let route = Route::from(vec![
        Component::from("foo"),
        Component::from("bar"),
        Component::from("baz"),
    ]);
    assert_eq!(
        route.parent().unwrap().route,
        [Component::Key("foo".into()), Component::Key("bar".into())]
    );

    let route = Route::from(vec![Component::from("foo")]);
    assert!(route.parent().is_some());

    let route = Route::from(vec![]);
    assert!(route.parent().is_none());
}

#[test]
fn test_query_builder() {
    let route = Route::from(vec![
        Component::from("foo"),
        Component::from("bar"),
        Component::from(1),
        Component::from(123),
        Component::from("lol"),
    ]);

    assert_eq!(
        route.route,
        [
            Component::Key("foo".into()),
            Component::Key("bar".into()),
            Component::Index(1),
            Component::Index(123),
            Component::Key("lol".into()),
        ]
    )
}

#[test]
fn a_route_is_empty_until_a_component_is_added() {
    let route = Route::default();
    assert!(route.is_empty());
    assert!(route.parent().is_none());
    assert!(!route.with_key("foo").is_empty());
}

#[test]
fn with_key_adds_one_component_to_the_end() {
    let route = Route::from(vec![Component::from("foo")]);
    let longer = route.with_key(3).with_key(String::from("bar")).with_key("baz");
    assert_eq!(
        longer.route,
        [
            Component::Key("foo".into()),
            Component::Index(3),
            Component::Key("bar".into()),
            Component::Key("baz".into()),
        ]
    );
    assert_eq!(route.route, [Component::Key("foo".into())]);
}

#[test]
fn parent_undoes_with_key() {
    let route = Route::from(vec![Component::from("foo"), Component::from(0)]);
    assert_eq!(route.with_key("bar").parent().unwrap().route, route.route);
    assert_eq!(route.parent().unwrap().with_key(0).route, route.route);
    let last = route.route[1].clone();
    assert_eq!(route.parent().unwrap().with_key(last).route, route.route);
}

#[test]
fn with_keys_adds_components_in_order() {
    let route = Route::default().with_key("foo");
    let longer = route.with_keys(vec![Component::from("bar"), Component::from(1)]);
    assert_eq!(
        longer.route,
        [
            Component::Key("foo".into()),
            Component::Key("bar".into()),
            Component::Index(1),
        ]
    );
    assert_eq!(route.with_keys(vec![]).route, route.route);
    assert_eq!(
        route.with_keys(vec![Component::from("bar")]).route,
        route.with_key("bar").route
    );
    assert_eq!(
        route
            .with_keys(vec![Component::from("bar")])
            .with_keys(vec![Component::from(1)])
            .route,
        longer.route
    );
}

#[test]
fn cloned_routes_are_equal() {
    let route = Route::default().with_key("foo").with_key(7).with_key(String::from("é"));
    assert_eq!(route.clone().route, route.route);
    assert_eq!(Component::from("foo").clone(), Component::from(String::from("foo")));
}
