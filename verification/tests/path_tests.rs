use pathquery::path::PathComponent;
use pathquery::path::PathIter;

fn collect_components(mut it: PathIter) -> Vec<PathComponent> {
    let mut out = Vec::new();
    while let Some(c) = it.next() {
        out.push(c);
    }
    out
}

fn comp_eq(a: &PathComponent, b: &PathComponent) -> bool {
    match (a, b) {
        (PathComponent::Name(x), PathComponent::Name(y)) => x == y,
        (PathComponent::Any, PathComponent::Any) => true,
        (PathComponent::AnyRecursive, PathComponent::AnyRecursive) => true,
        _ => false,
    }
}

fn name(s: &str) -> PathComponent {
    PathComponent::Name(String::from(s))
}

#[test]
fn test_from_str() {
    let test_cases: Vec<(&str, Vec<PathComponent>)> = vec![
        ("", vec![]),
        (".", vec![]),
        ("...", vec![]),
        ("foo.", vec![name("foo")]),
        (".foo.", vec![name("foo")]),
        ("foo.bar.baz", vec![name("foo"), name("bar"), name("baz")]),
        (
            "foo.*.bar.**.baz",
            vec![
                name("foo"),
                PathComponent::Any,
                name("bar"),
                PathComponent::AnyRecursive,
                name("baz"),
            ],
        ),
        (
            "foo.*.bar.**.baz.*.*.**.*",
            vec![
                name("foo"),
                PathComponent::Any,
                name("bar"),
                PathComponent::AnyRecursive,
                name("baz"),
                PathComponent::AnyRecursive,
            ],
        ),
        ("  foo.   bar .baz ", vec![name("foo"), name("bar"), name("baz")]),
        (" 1*2.***", vec![name("1*2"), name("***")]),
    ];
    for (input_str, expected_output_vec) in test_cases {
        let path_iter: PathIter = PathIter::new(input_str);
        let output_vec: Vec<PathComponent> = collect_components(path_iter);
        let matching = output_vec
            .iter()
            .zip(expected_output_vec.iter())
            .filter(|&(a, b)| comp_eq(a, b))
            .count();
        assert_eq!(matching, expected_output_vec.len());
        assert_eq!(matching, output_vec.len());
    }
}

#[test]
fn parsing_twice_gives_identical_components() {
    let inputs = ["a.*.b.**", "", "x..y", " a . b ", "**.**.*"];
    for s in inputs {
        let first = collect_components(PathIter::new(s));
        let second = collect_components(PathIter::new(s));
        assert_eq!(first.len(), second.len());
        for (a, b) in first.iter().zip(second.iter()) {
            assert!(comp_eq(a, b));
        }
    }
}

#[test]
fn wrapping_a_normalized_sequence_changes_nothing() {
    let parsed = collect_components(PathIter::new("a.*.b.**.c"));
    let copy: Vec<PathComponent> = parsed
        .iter()
        .map(|c| match c {
            PathComponent::Name(s) => PathComponent::Name(s.clone()),
            PathComponent::Any => PathComponent::Any,
            PathComponent::AnyRecursive => PathComponent::AnyRecursive,
        })
        .collect();
    let rewrapped = collect_components(PathIter::wrap(copy));
    assert_eq!(parsed.len(), rewrapped.len());
    for (a, b) in parsed.iter().zip(rewrapped.iter()) {
        assert!(comp_eq(a, b));
    }
}

#[test]
fn wildcard_collapse() {
    let a = collect_components(PathIter::new("a.*.*.b"));
    let expected_a = vec![name("a"), PathComponent::Any, name("b")];
    assert_eq!(a.len(), expected_a.len());
    for (x, y) in a.iter().zip(expected_a.iter()) {
        assert!(comp_eq(x, y));
    }

    for s in ["a.**.*.b", "a.*.**.b"] {
        let got = collect_components(PathIter::new(s));
        let expected = vec![name("a"), PathComponent::AnyRecursive, name("b")];
        assert_eq!(got.len(), expected.len());
        for (x, y) in got.iter().zip(expected.iter()) {
            assert!(comp_eq(x, y));
        }
    }
}

#[test]
fn segments_are_trimmed_of_unicode_whitespace() {
    let got = collect_components(PathIter::new("\u{00A0}foo\u{3000}.\u{2003}bar\u{85}"));
    let expected = vec![name("foo"), name("bar")];
    assert_eq!(got.len(), expected.len());
    for (x, y) in got.iter().zip(expected.iter()) {
        assert!(comp_eq(x, y));
    }
}

#[test]
fn literal_stars_are_names() {
    let got = collect_components(PathIter::new("***.x"));
    let expected = vec![name("***"), name("x")];
    assert_eq!(got.len(), expected.len());
    for (x, y) in got.iter().zip(expected.iter()) {
        assert!(comp_eq(x, y));
    }
}
