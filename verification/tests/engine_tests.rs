use jsonpath_core::engine::Found;
use jsonpath_core::engine::Iter;
use jsonpath_core::path::Criterion;
use jsonpath_core::path::Step;
use jsonpath_core::value::Value;
use jsonpath_core::value::str_lt;

fn txt(s: &str) -> Value {
    Value::Text(s.to_owned())
}

fn obj(entries: Vec<(&str, Value)>) -> Value {
    Value::Object(entries.into_iter().map(|(k, v)| (k.to_owned(), v)).collect())
}

fn collect<'a>(root: &'a Value, criteria: &[Criterion]) -> Vec<Found<'a>> {
    let mut it = Iter::new(root, criteria);
    let mut found = Vec::new();
    while let Some(f) = it.next() {
        found.push(f);
    }
    found
}

fn values<'a>(root: &'a Value, criteria: &[Criterion]) -> Vec<&'a Value> {
    collect(root, criteria).into_iter().map(|f| f.value).collect()
}

fn expect_text(v: &Value, want: &str) {
    match v {
        Value::Text(s) => assert_eq!(s.as_str(), want),
        _ => panic!("expected a text node"),
    }
}

fn expect_number(v: &Value, want: i64) {
    match v {
        Value::Number(n) => assert_eq!(*n, want),
        _ => panic!("expected a number node"),
    }
}

#[test]
fn test_simple_json() {
    let root = obj(vec![("dog", obj(vec![("name", txt("Rex"))]))]);
    assert!(root.check_wf());
    let criteria = vec![
        Criterion::Root,
        Criterion::NamedChild("dog".to_owned()),
        Criterion::NamedChild("name".to_owned()),
    ];
    let found = values(&root, &criteria);
    assert_eq!(found.len(), 1);
    expect_text(found[0], "Rex");
}

fn complex_doc() -> Value {
    obj(vec![
        (
            "pets",
            Value::Array(vec![
                obj(vec![("name", txt("Tom")), ("type", txt("cat"))]),
                obj(vec![("name", txt("Rex")), ("type", txt("dog"))]),
            ]),
        ),
        ("user", obj(vec![("age", Value::Number(27)), ("name", txt("Sergey"))])),
    ])
}

#[test]
fn test_complex_json() {
    let root = complex_doc();
    assert!(root.check_wf());

    // $.user.age
    let criteria = vec![
        Criterion::Root,
        Criterion::NamedChild("user".to_owned()),
        Criterion::NamedChild("age".to_owned()),
    ];
    let found = values(&root, &criteria);
    assert_eq!(found.len(), 1);
    expect_number(found[0], 27);

    // $.pets.*.type
    let criteria = vec![
        Criterion::Root,
        Criterion::NamedChild("pets".to_owned()),
        Criterion::AnyChild,
        Criterion::NamedChild("type".to_owned()),
    ];
    let found = values(&root, &criteria);
    assert_eq!(found.len(), 2);
    expect_text(found[0], "cat");
    expect_text(found[1], "dog");

    // $.pets.*.name
    let criteria = vec![
        Criterion::Root,
        Criterion::NamedChild("pets".to_owned()),
        Criterion::AnyChild,
        Criterion::NamedChild("name".to_owned()),
    ];
    let found = values(&root, &criteria);
    assert_eq!(found.len(), 2);
    expect_text(found[0], "Tom");
    expect_text(found[1], "Rex");

    // $.user.*
    let criteria = vec![
        Criterion::Root,
        Criterion::NamedChild("user".to_owned()),
        Criterion::AnyChild,
    ];
    let found = values(&root, &criteria);
    assert_eq!(found.len(), 2);
    expect_number(found[0], 27);
    expect_text(found[1], "Sergey");
}

#[test]
fn test_any_child() {
    let root = obj(vec![
        ("car", obj(vec![("name", txt("Zorro")), ("type", txt("passenger"))])),
        ("pet", obj(vec![("name", txt("Rex")), ("type", txt("dog"))])),
    ]);
    assert!(root.check_wf());
    let criteria = vec![
        Criterion::Root,
        Criterion::NamedChild("pet".to_owned()),
        Criterion::AnyChild,
    ];
    let found = values(&root, &criteria);
    assert_eq!(found.len(), 2);
    expect_text(found[0], "Rex");
    expect_text(found[1], "dog");
}

#[test]
fn test_indexed_child() {
    let root = Value::Array(vec![txt("Foo"), txt("Bar"), txt("Baz")]);
    assert!(root.check_wf());
    let criteria = vec![Criterion::Root, Criterion::IndexedChild(1)];
    let found = values(&root, &criteria);
    assert_eq!(found.len(), 1);
    expect_text(found[0], "Bar");
}

#[test]
fn test_root_only_pattern_yields_document() {
    let root = complex_doc();
    let criteria = vec![Criterion::Root];
    let found = collect(&root, &criteria);
    assert_eq!(found.len(), 1);
    assert!(matches!(found[0].value, Value::Object(_)));
    assert_eq!(found[0].path.len(), 1);
    assert!(matches!(found[0].path[0], Step::Root));
}

#[test]
fn test_wildcard_visits_every_child_once() {
    // An object with three children and a wildcard pattern: exactly three
    // results, one per child, in ascending key order.
    let root = obj(vec![("a", txt("1")), ("b", txt("2")), ("c", txt("3"))]);
    let criteria = vec![Criterion::Root, Criterion::AnyChild];
    let found = collect(&root, &criteria);
    assert_eq!(found.len(), 3);
    expect_text(found[0].value, "1");
    expect_text(found[1].value, "2");
    expect_text(found[2].value, "3");
    let keys: Vec<&str> = found
        .iter()
        .map(|f| match f.path[1] {
            Step::Key(k) => k.as_str(),
            _ => panic!("expected a key step"),
        })
        .collect();
    assert_eq!(keys, vec!["a", "b", "c"]);
}

#[test]
fn test_repeated_traversal_is_identical() {
    let root = complex_doc();
    let criteria = vec![
        Criterion::Root,
        Criterion::NamedChild("pets".to_owned()),
        Criterion::AnyChild,
        Criterion::NamedChild("name".to_owned()),
    ];
    let first = collect(&root, &criteria);
    let second = collect(&root, &criteria);
    assert_eq!(first.len(), second.len());
    for (a, b) in first.iter().zip(second.iter()) {
        assert!(std::ptr::eq(a.value, b.value));
        assert_eq!(a.path.len(), b.path.len());
    }
}

#[test]
fn test_path_reapplies_to_value() {
    // Every found path, minus the leading root step, must lead back to the
    // found value by direct member/index lookups.
    let root = complex_doc();
    let criteria = vec![
        Criterion::Root,
        Criterion::NamedChild("pets".to_owned()),
        Criterion::AnyChild,
        Criterion::NamedChild("type".to_owned()),
    ];
    for f in collect(&root, &criteria) {
        assert!(matches!(f.path[0], Step::Root));
        let mut node = &root;
        for step in &f.path[1..] {
            node = match step {
                Step::Key(k) => match node {
                    Value::Object(entries) => {
                        &entries.iter().find(|e| e.0 == **k).expect("key must exist").1
                    }
                    _ => panic!("key step on a non-object"),
                },
                Step::Index(i) => match node {
                    Value::Array(items) => &items[*i],
                    _ => panic!("index step on a non-array"),
                },
                Step::Root => panic!("root step inside a path"),
            };
        }
        assert!(std::ptr::eq(node, f.value));
    }
}

#[test]
fn test_no_route_yields_empty() {
    let root = complex_doc();
    let criteria = vec![Criterion::Root, Criterion::NamedChild("missing".to_owned())];
    assert_eq!(values(&root, &criteria).len(), 0);
}

#[test]
fn test_index_out_of_range_yields_empty() {
    let root = Value::Array(vec![txt("Foo")]);
    let criteria = vec![Criterion::Root, Criterion::IndexedChild(5)];
    assert_eq!(values(&root, &criteria).len(), 0);
}

#[test]
fn test_scalar_root_wildcard_yields_empty() {
    let root = Value::Number(7);
    let criteria = vec![Criterion::Root, Criterion::AnyChild];
    assert_eq!(values(&root, &criteria).len(), 0);
}

#[test]
fn test_empty_object_wildcard_yields_empty() {
    let root = obj(vec![]);
    let criteria = vec![Criterion::Root, Criterion::AnyChild];
    assert_eq!(values(&root, &criteria).len(), 0);
}

#[test]
fn test_exhaustion_is_permanent() {
    let root = obj(vec![("dog", txt("Rex"))]);
    let criteria = vec![Criterion::Root, Criterion::NamedChild("dog".to_owned())];
    let mut it = Iter::new(&root, &criteria);
    assert!(it.next().is_some());
    assert!(it.next().is_none());
    assert!(it.next().is_none());
    assert!(it.next().is_none());
}

#[test]
fn test_root_criterion_only_matches_the_root() {
    // A pattern asking for Root below the root can match nothing.
    let root = obj(vec![("dog", obj(vec![("name", txt("Rex"))]))]);
    let criteria = vec![Criterion::Root, Criterion::Root];
    assert_eq!(values(&root, &criteria).len(), 0);
}

#[test]
fn test_str_lt_is_lexicographic() {
    assert!(str_lt("age", "name"));
    assert!(!str_lt("name", "age"));
    assert!(!str_lt("name", "name"));
    assert!(str_lt("", "a"));
    assert!(!str_lt("a", ""));
    assert!(str_lt("ab", "b"));
    assert!(str_lt("a", "ab"));
}

#[test]
fn test_check_wf_accepts_sorted_documents() {
    assert!(complex_doc().check_wf());
    assert!(Value::Null.check_wf());
    assert!(Value::Bool(true).check_wf());
    assert!(txt("x").check_wf());
}

#[test]
fn test_check_wf_rejects_unsorted_keys() {
    let bad = obj(vec![("b", txt("2")), ("a", txt("1"))]);
    assert!(!bad.check_wf());
    let nested = obj(vec![("outer", obj(vec![("z", txt("1")), ("y", txt("2"))]))]);
    assert!(!nested.check_wf());
    let dup = obj(vec![("a", txt("1")), ("a", txt("2"))]);
    assert!(!dup.check_wf());
}

#[test]
fn test_double_wildcard_fans_out_and_backtracks() {
    let root = obj(vec![
        ("p", obj(vec![("a", txt("1")), ("b", txt("2"))])),
        ("q", obj(vec![("c", txt("3"))])),
    ]);
    let criteria = vec![Criterion::Root, Criterion::AnyChild, Criterion::AnyChild];
    let found = collect(&root, &criteria);
    assert_eq!(found.len(), 3);
    expect_text(found[0].value, "1");
    expect_text(found[1].value, "2");
    expect_text(found[2].value, "3");
    let routes: Vec<Vec<&str>> = found
        .iter()
        .map(|f| {
            f.path[1..]
                .iter()
                .map(|s| match s {
                    Step::Key(k) => k.as_str(),
                    _ => panic!("expected key steps"),
                })
                .collect()
        })
        .collect();
    assert_eq!(routes, vec![vec!["p", "a"], vec!["p", "b"], vec!["q", "c"]]);
}

#[test]
fn test_mixed_nesting_with_dead_branches() {
    // Only some branches carry the wanted member; the others must be
    // skipped without disturbing the rest of the search.
    let root = obj(vec![
        ("bare", txt("no children")),
        ("items", Value::Array(vec![
            obj(vec![("id", Value::Number(1))]),
            txt("scalar among records"),
            obj(vec![("id", Value::Number(2)), ("tag", txt("x"))]),
            obj(vec![("other", Value::Bool(true))]),
        ])),
    ]);
    assert!(root.check_wf());
    let criteria = vec![
        Criterion::Root,
        Criterion::NamedChild("items".to_owned()),
        Criterion::AnyChild,
        Criterion::NamedChild("id".to_owned()),
    ];
    let found = collect(&root, &criteria);
    assert_eq!(found.len(), 2);
    expect_number(found[0].value, 1);
    expect_number(found[1].value, 2);
    assert!(matches!(found[0].path[2], Step::Index(0)));
    assert!(matches!(found[1].path[2], Step::Index(2)));
}

#[test]
fn test_non_root_first_criterion_yields_empty() {
    let root = complex_doc();
    let criteria = vec![Criterion::AnyChild];
    assert_eq!(values(&root, &criteria).len(), 0);
    let criteria = vec![Criterion::NamedChild("pets".to_owned()), Criterion::AnyChild];
    assert_eq!(values(&root, &criteria).len(), 0);
}
