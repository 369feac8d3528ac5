use pathquery::data::Value;
use pathquery::file::FileFormat;
use pathquery::meta::Meta;
use pathquery::meta::MetaError;
use pathquery::path::PathIter;

#[test]
fn markdown_front_matter_is_split_off() {
    let mut content = b"---\ntitle: Home\n---\nbody text\n".to_vec();
    let meta = Meta::extract(FileFormat::Markdown, &mut content).unwrap().unwrap();
    assert_eq!(content, b"body text\n".to_vec());
    let title = meta.value(&PathIter::new("title")).unwrap();
    assert_eq!(title.as_str(), Some("Home"));
}

#[test]
fn markdown_without_front_matter_keeps_content() {
    let original = b"just text\nwith lines\n".to_vec();
    let mut content = original.clone();
    let got = Meta::extract(FileFormat::Markdown, &mut content).unwrap();
    assert!(got.is_none());
    assert_eq!(content, original);
}

#[test]
fn html_comment_front_matter_is_split_off() {
    let mut content = b"<!--\ntitle: About\n-->\n<p>hi</p>\n".to_vec();
    let meta = Meta::extract(FileFormat::Html, &mut content).unwrap().unwrap();
    assert_eq!(content, b"<p>hi</p>\n".to_vec());
    let title = meta.value(&PathIter::new("title")).unwrap();
    assert_eq!(title.as_str(), Some("About"));
}

#[test]
fn yaml_file_is_metadata_in_its_entirety() {
    let mut content = b"name: demo\ncount: 3\n".to_vec();
    let meta = Meta::extract(FileFormat::Yaml, &mut content).unwrap().unwrap();
    assert!(content.is_empty());
    assert_eq!(meta.value(&PathIter::new("count")).unwrap().as_number(), Some(&String::from("3")));
}

#[test]
fn json_file_is_metadata_in_its_entirety() {
    let mut content = b"{\"name\": \"demo\", \"count\": 3}".to_vec();
    let meta = Meta::extract(FileFormat::Json, &mut content).unwrap().unwrap();
    assert!(content.is_empty());
    assert_eq!(
        meta.value(&PathIter::new("name")).unwrap().as_str(),
        Some("demo"),
    );
}

#[test]
fn script_formats_carry_no_metadata() {
    let original = b"echo hi\n".to_vec();
    let mut content = original.clone();
    assert!(Meta::extract(FileFormat::Bash, &mut content).unwrap().is_none());
    assert_eq!(content, original);
    assert!(Meta::extract(FileFormat::Rhai, &mut content).unwrap().is_none());
}

#[test]
fn malformed_yaml_is_a_parse_error() {
    let original = b"{not yaml: [unclosed\n".to_vec();
    let mut content = original.clone();
    let got = Meta::extract(FileFormat::Yaml, &mut content);
    assert!(matches!(got, Err(MetaError::Parse)));
    assert_eq!(content, original);
}

#[test]
fn non_mapping_document_is_rejected() {
    let mut content = b"- 1\n- 2\n".to_vec();
    let got = Meta::extract(FileFormat::Yaml, &mut content);
    assert!(matches!(got, Err(MetaError::NotAMapping)));
}

#[test]
fn front_matter_that_is_not_a_mapping_is_rejected() {
    let original = b"---\n- 1\n- 2\n---\nbody\n".to_vec();
    let mut content = original.clone();
    let got = Meta::extract(FileFormat::Markdown, &mut content);
    assert!(matches!(got, Err(MetaError::NotAMapping)));
    assert_eq!(content, original);
}

#[test]
fn malformed_front_matter_is_a_parse_error() {
    let original = b"---\n{bad: [\n---\nbody\n".to_vec();
    let mut content = original.clone();
    let got = Meta::extract(FileFormat::Markdown, &mut content);
    assert!(matches!(got, Err(MetaError::Parse)));
    assert_eq!(content, original);
}

#[test]
fn yaml_keys_are_lower_cased_and_stringified() {
    let mut content = b"Title: Home\n3: three\ntrue: yes\n".to_vec();
    let meta = Meta::extract(FileFormat::Yaml, &mut content).unwrap().unwrap();
    assert_eq!(meta.value(&PathIter::new("title")).unwrap().as_str(), Some("Home"));
    assert_eq!(meta.value(&PathIter::new("3")).unwrap().as_str(), Some("three"));
    assert_eq!(meta.value(&PathIter::new("true")).unwrap().as_str(), Some("yes"));
}

#[test]
fn non_finite_numbers_become_the_sentinel() {
    let mut content = b"a: .nan\nb: .inf\n".to_vec();
    let meta = Meta::extract(FileFormat::Yaml, &mut content).unwrap().unwrap();
    let a = meta.value(&PathIter::new("a")).unwrap();
    assert_eq!(a.as_number(), Some(&String::from(".nan")));
    let b = meta.value(&PathIter::new("b")).unwrap();
    assert_eq!(b.as_number(), Some(&String::from(".nan")));
}

#[test]
fn nested_metadata_is_queryable_with_wildcards() {
    let mut content = b"---\nauthors:\n  - name: A\n  - name: B\n---\n".to_vec();
    let meta = Meta::extract(FileFormat::Markdown, &mut content).unwrap().unwrap();
    let mut it = meta.value_iter(&PathIter::new("authors.*.name"));
    let mut names = Vec::new();
    while let Some(v) = it.next() {
        names.push(v.to_string().unwrap());
    }
    assert_eq!(names, vec![String::from("A"), String::from("B")]);
}

#[test]
fn meta_to_value_is_a_mapping() {
    let mut content = b"k: v\n".to_vec();
    let meta = Meta::extract(FileFormat::Yaml, &mut content).unwrap().unwrap();
    match meta.to_value() {
        Value::Mapping(entries) => assert_eq!(entries.len(), 1),
        _ => panic!("metadata must be a mapping"),
    }
}
