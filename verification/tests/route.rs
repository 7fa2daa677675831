use tree_graph::route::RouteBuilder;

#[test]
fn test_route_builder() {
    let mut builder = RouteBuilder::with_arrow();
    builder.push("Apple".to_owned());
    builder.push("Banana".to_owned());
    builder.push("Orange".to_owned());
    builder.push("Peach".to_owned());

    assert_eq!(
        "Apple -> Banana -> Orange -> Peach",
        builder.build().as_str()
    );
}

#[test]
fn route_without_stops_is_empty() {
    let builder = RouteBuilder::with_arrow();
    assert_eq!(builder.len(), 0);
    assert_eq!(builder.build(), "");
}

#[test]
fn route_of_one_stop_has_no_arrow() {
    let mut builder = RouteBuilder::with_arrow();
    builder.push("Apple".to_owned());
    assert_eq!(builder.len(), 1);
    assert_eq!(builder.build(), "Apple");
}

#[test]
fn contains_looks_for_a_whole_stop() {
    let mut builder = RouteBuilder::with_arrow();
    builder.push("Apple".to_owned());
    builder.push("".to_owned());
    assert!(builder.contains(&"Apple".to_owned()));
    assert!(builder.contains(&"".to_owned()));
    assert!(!builder.contains(&"App".to_owned()));
    assert_eq!(builder.build(), "Apple -> ");
}
