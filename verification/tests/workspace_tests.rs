use pathquery::file::FileFormat;
use pathquery::file::FileInfo;
use pathquery::file::FileInfoError;
use pathquery::file::FileKind;
use pathquery::meta::File;
use pathquery::path::PathIter;
use pathquery::workspace::FileEntry;
use pathquery::workspace::FileOrValue;
use pathquery::workspace::FileOrValueIter;
use pathquery::workspace::TreeStep;
use pathquery::workspace::Workspace;
use pathquery::workspace::load_at;

fn index_file() -> File {
    let info = FileInfo::from_path("pages/index.md").unwrap();
    File::from_info(info)
}

fn one_file_tree() -> FileEntry {
    FileEntry::Dir(vec![(String::from("index"), FileEntry::File(index_file()))])
}

/// Drives one query to its first outcome, loading files on demand and
/// counting each load.
fn first_outcome(tree: &mut FileEntry, path: &str, bytes: &[u8], loads: &mut usize) -> Option<
    FileOrValue,
> {
    let mut it = FileOrValueIter::new(&PathIter::new(path));
    loop {
        match it.next(tree) {
            TreeStep::Finished => return None,
            TreeStep::Match(x) => return Some(x),
            TreeStep::NeedLoad(addr) => {
                *loads += 1;
                load_at(tree, &addr, bytes.to_vec()).unwrap();
            },
        }
    }
}

#[test]
fn leaf_crossing_reaches_metadata() {
    let mut tree = one_file_tree();
    let mut loads = 0;
    let bytes = b"---\ntitle: Home\n---\nbody\n";
    let got = first_outcome(&mut tree, "index.title", bytes, &mut loads);
    match got {
        Some(FileOrValue::Value(v)) => assert_eq!(v.as_str(), Some("Home")),
        _ => panic!("expected a metadata value"),
    }
}

#[test]
fn bare_file_name_matches_the_file_itself() {
    let mut tree = one_file_tree();
    let mut loads = 0;
    let got = first_outcome(&mut tree, "index", b"---\ntitle: Home\n---\n", &mut loads);
    match got {
        Some(FileOrValue::File(info)) => {
            assert_eq!(info.name(), "index");
            assert_eq!(info.path(), "pages/index.md");
        },
        _ => panic!("expected the file itself"),
    }
    // matching the file alone never needs its bytes
    assert_eq!(loads, 0);
}

#[test]
fn repeated_queries_load_each_file_once() {
    let mut tree = one_file_tree();
    let mut loads = 0;
    let bytes = b"---\ntitle: Home\n---\n";
    let first = first_outcome(&mut tree, "index.title", bytes, &mut loads);
    assert!(first.is_some());
    assert_eq!(loads, 1);
    let second = first_outcome(&mut tree, "index.title", bytes, &mut loads);
    assert!(second.is_some());
    assert_eq!(loads, 1);
    let third = first_outcome(&mut tree, "index.other", bytes, &mut loads);
    assert!(third.is_none());
    assert_eq!(loads, 1);
}

#[test]
fn recursive_wildcard_crosses_into_files() {
    let mut tree = FileEntry::Dir(vec![(
        String::from("sub"),
        FileEntry::Dir(vec![(String::from("index"), FileEntry::File(index_file()))]),
    )]);
    let mut loads = 0;
    let got = first_outcome(&mut tree, "**.title", b"---\ntitle: Deep\n---\n", &mut loads);
    match got {
        Some(FileOrValue::Value(v)) => assert_eq!(v.as_str(), Some("Deep")),
        _ => panic!("expected a metadata value through the recursive wildcard"),
    }
}

#[test]
fn missing_directory_listing_yields_an_empty_tree() {
    let ws = Workspace::read(
        String::from("site"),
        vec![String::from("logo.png")],
        &vec![String::from("pages/index.md")],
        &vec![],
        &vec![],
    )
    .unwrap();
    match ws.layouts_tree() {
        FileEntry::Dir(entries) => assert!(entries.is_empty()),
        _ => panic!("layouts must be an empty directory tree"),
    }
    assert_eq!(ws.root(), "site");
    assert_eq!(ws.assets().len(), 1);
}

#[test]
fn workspace_filters_by_kind() {
    let ws = Workspace::read(
        String::from("site"),
        vec![],
        &vec![String::from("pages/a.md"), String::from("pages/b.sh")],
        &vec![],
        &vec![],
    )
    .unwrap();
    // the shell file is not a page format, so only one entry remains
    match ws.pages_tree() {
        FileEntry::Dir(entries) => assert_eq!(entries.len(), 1),
        _ => panic!("pages must be a directory tree"),
    }
}

#[test]
fn workspace_load_fails_fast_on_bad_classification() {
    let got = Workspace::read(
        String::from("site"),
        vec![],
        &vec![String::from("pages/strange.unknownext")],
        &vec![],
        &vec![],
    );
    match got {
        Err(FileInfoError::UnexpectedFileFormat(ext)) => assert_eq!(ext, "unknownext"),
        _ => panic!("an unrecognized extension must abort the load"),
    }
}

#[test]
fn classification_decomposes_a_path() {
    let info = FileInfo::from_path("site/pages/sub/dir/story.en.md").unwrap();
    assert!(matches!(info.kind(), FileKind::Page));
    assert_eq!(info.path(), "site/pages/sub/dir/story.en.md");
    assert_eq!(info.directory(), Some("/sub/dir"));
    assert_eq!(info.name(), "story");
    assert_eq!(info.locale().unwrap().as_str(), ".en");
    assert!(matches!(info.format(), FileFormat::Markdown));
}

#[test]
fn classification_rejects_paths_without_a_kind() {
    let got = FileInfo::from_path("stuff/readme.md");
    assert!(matches!(got, Err(FileInfoError::UnexpectedFilePath(_))));
}

#[test]
fn format_classification_is_case_insensitive() {
    assert!(matches!(FileFormat::from_str("HTML"), Ok(FileFormat::Html)));
    assert!(matches!(FileFormat::from_str("Yml"), Ok(FileFormat::Yaml)));
    assert!(matches!(FileFormat::from_str("json"), Ok(FileFormat::Json)));
    assert!(matches!(FileFormat::from_str("rhai"), Ok(FileFormat::Rhai)));
    assert!(matches!(FileFormat::from_str("MKDN"), Ok(FileFormat::Markdown)));
    assert!(matches!(FileFormat::from_str("sh"), Ok(FileFormat::Bash)));
    match FileFormat::from_str("docx") {
        Err(FileInfoError::UnexpectedFileFormat(ext)) => assert_eq!(ext, "docx"),
        _ => panic!("docx is not a recognized format"),
    }
}

#[test]
fn kind_classification_is_case_insensitive() {
    assert!(matches!(FileKind::from_str("Pages"), Ok(FileKind::Page)));
    assert!(matches!(FileKind::from_str("LAYOUTS"), Ok(FileKind::Layout)));
    assert!(matches!(FileKind::from_str("includes"), Ok(FileKind::Include)));
    assert!(FileKind::from_str("other").is_err());
}

#[test]
fn file_load_is_idempotent() {
    let mut f = File::new("pages/index.md").unwrap();
    assert!(f.content().is_none());
    f.load(b"---\ntitle: One\n---\nbody\n".to_vec()).unwrap();
    assert_eq!(f.content().unwrap(), &b"body\n".to_vec());
    // a second load with different bytes changes nothing
    f.load(b"---\ntitle: Two\n---\nother\n".to_vec()).unwrap();
    let title = f.meta().unwrap().value(&PathIter::new("title")).unwrap();
    assert_eq!(title.as_str(), Some("One"));
}

#[test]
fn dir_names_match_case_insensitively() {
    let info = FileInfo::from_path("pages/Sub/index.md").unwrap();
    let ws = Workspace::read(
        String::from("site"),
        vec![],
        &vec![String::from("pages/Sub/index.md")],
        &vec![],
        &vec![],
    )
    .unwrap();
    let _ = info;
    let mut tree = match ws.pages_tree() {
        FileEntry::Dir(entries) => FileEntry::Dir(
            entries
                .iter()
                .map(|(k, _)| (k.clone(), FileEntry::File(index_file())))
                .collect(),
        ),
        _ => panic!("pages must be a directory"),
    };
    // the stored name is lower-cased, and lookup lower-cases the query
    let mut loads = 0;
    let got = first_outcome(&mut tree, "SUB", b"", &mut loads);
    assert!(got.is_some());
}
