use pathquery::data::Value;
use pathquery::path::PathIter;
use pathquery::query::ValueIter;
use pathquery::query::first_value;

fn num(s: &str) -> Value {
    Value::Number(String::from(s))
}

fn mapping(entries: Vec<(&str, Value)>) -> Value {
    Value::Mapping(entries.into_iter().map(|(k, v)| (String::from(k), v)).collect())
}

fn value_eq(a: &Value, b: &Value) -> bool {
    match (a, b) {
        (Value::Null, Value::Null) => true,
        (Value::String(x), Value::String(y)) => x == y,
        (Value::Boolean(x), Value::Boolean(y)) => x == y,
        (Value::Number(x), Value::Number(y)) => x == y,
        (Value::Sequence(x), Value::Sequence(y)) => {
            x.len() == y.len() && x.iter().zip(y.iter()).all(|(u, w)| value_eq(u, w))
        },
        (Value::Mapping(x), Value::Mapping(y)) => {
            x.len() == y.len()
                && x.iter().zip(y.iter()).all(|(u, w)| u.0 == w.0 && value_eq(&u.1, &w.1))
        },
        _ => false,
    }
}

fn collect_matches(mut it: ValueIter) -> Vec<Value> {
    let mut out = Vec::new();
    while let Some(v) = it.next() {
        out.push(v);
    }
    out
}

#[test]
fn exact_match() {
    let root = mapping(vec![("a", mapping(vec![("b", num("1"))]))]);
    let hit = collect_matches(root.value_iter(&PathIter::new("a.b")));
    assert_eq!(hit.len(), 1);
    assert!(value_eq(&hit[0], &num("1")));

    let miss = collect_matches(root.value_iter(&PathIter::new("a.c")));
    assert_eq!(miss.len(), 0);
}

#[test]
fn any_expansion_keeps_sequence_order() {
    let root = Value::Sequence(vec![num("10"), num("20"), num("30")]);
    let got = collect_matches(root.value_iter(&PathIter::new("*")));
    assert_eq!(got.len(), 3);
    assert!(value_eq(&got[0], &num("10")));
    assert!(value_eq(&got[1], &num("20")));
    assert!(value_eq(&got[2], &num("30")));
}

#[test]
fn recursive_wildcard_reaches_deep_key() {
    let root = mapping(vec![("a", mapping(vec![("b", mapping(vec![("c", num("5"))]))]))]);
    let got = collect_matches(root.value_iter(&PathIter::new("**.c")));
    assert_eq!(got.len(), 1);
    assert!(value_eq(&got[0], &num("5")));
}

#[test]
fn recursive_wildcard_alone_yields_every_node_once() {
    let root = mapping(vec![("a", mapping(vec![("b", mapping(vec![("c", num("5"))]))]))]);
    let got = collect_matches(root.value_iter(&PathIter::new("**")));
    // the root, the two inner mappings, and the scalar leaf
    assert_eq!(got.len(), 4);
    assert!(value_eq(&got[0], &root));
    assert!(value_eq(&got[3], &num("5")));
}

#[test]
fn sequence_index_lookup() {
    let root = Value::Sequence(vec![num("10"), num("20")]);
    let got = collect_matches(root.value_iter(&PathIter::new("1")));
    assert_eq!(got.len(), 1);
    assert!(value_eq(&got[0], &num("20")));

    let plus = collect_matches(root.value_iter(&PathIter::new("+1")));
    assert_eq!(plus.len(), 1);
    assert!(value_eq(&plus[0], &num("20")));

    assert_eq!(collect_matches(root.value_iter(&PathIter::new("2"))).len(), 0);
    assert_eq!(collect_matches(root.value_iter(&PathIter::new("x"))).len(), 0);
}

#[test]
fn mapping_lookup_is_case_insensitive() {
    let root = mapping(vec![("title", Value::String(String::from("Home")))]);
    let got = root.value(&PathIter::new("TITLE"));
    assert!(got.is_some());
    assert!(value_eq(&got.unwrap(), &Value::String(String::from("Home"))));
}

#[test]
fn wildcard_on_scalar_matches_only_as_last_component() {
    let root = mapping(vec![("a", num("7"))]);
    let last = collect_matches(root.value_iter(&PathIter::new("a.*")));
    assert_eq!(last.len(), 1);
    assert!(value_eq(&last[0], &num("7")));

    let deeper = collect_matches(root.value_iter(&PathIter::new("a.*.b")));
    assert_eq!(deeper.len(), 0);
}

#[test]
fn first_value_scans_in_order() {
    let list = vec![
        mapping(vec![("x", num("1"))]),
        mapping(vec![("k", num("2"))]),
        mapping(vec![("k", num("3"))]),
    ];
    let got = first_value(&PathIter::new("k"), &list);
    assert!(got.is_some());
    assert!(value_eq(&got.unwrap(), &num("2")));

    assert!(first_value(&PathIter::new("missing"), &list).is_none());
}

#[test]
fn getters_see_through_each_variant() {
    assert!(Value::Null.as_none().is_some());
    assert!(num("1").as_none().is_none());
    let s = Value::String(String::from("hi"));
    assert_eq!(s.as_str(), Some("hi"));
    assert_eq!(s.to_string(), Some(String::from("hi")));
    assert_eq!(Value::Boolean(true).as_boolean(), Some(true));
    assert_eq!(num("2.5").as_number(), Some(&String::from("2.5")));
    let seq = Value::Sequence(vec![num("1")]);
    assert_eq!(seq.as_sequence().unwrap().len(), 1);
    let m = mapping(vec![("a", num("1"))]);
    assert_eq!(m.as_mapping().unwrap().len(), 1);
    assert_eq!(m.to_mapping().unwrap().len(), 1);
}

#[test]
fn really_complicated_code_adds() {
    assert_eq!(pathquery::really_complicated_code(2, 3), Ok(5));
}
