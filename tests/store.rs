use docstore::identity::{entry_identity, next_identity, node_file, DirEntry};
use docstore::listing::{name_le, sort_names};
use docstore::path::{path_append_normal, ApiError, LibPath, Rejection};
use docstore::store::{document, document_append, listing_sources, push_node, AppState, DocumentSource};
use docstore::text::split_list;

fn file(name: &str) -> DirEntry {
    DirEntry { name: Some(name.to_string()), is_file: true }
}

fn parts(p: &LibPath) -> Vec<String> {
    p.parts.clone()
}

fn rejection(r: Result<(), ApiError>) -> Rejection {
    match r {
        Err(ApiError::Invalid(_, why)) => why,
        other => panic!("expected a rejection, got {:?}", other),
    }
}

#[test]
fn sanitizer_accepts_normal_name() {
    let mut p = LibPath::new("/lib".to_string());
    assert!(path_append_normal(&mut p, "notes").is_ok());
    assert_eq!(p.root, "/lib");
    assert_eq!(parts(&p), vec!["notes".to_string()]);
}

#[test]
fn sanitizer_accepts_trailing_separator_and_dot() {
    let mut p = LibPath::new("/lib".to_string());
    assert!(path_append_normal(&mut p, "notes/").is_ok());
    assert!(path_append_normal(&mut p, "a/./").is_ok());
    assert_eq!(parts(&p), vec!["notes".to_string(), "a".to_string()]);
}

#[test]
fn sanitizer_rejects_dot_components() {
    for s in [".", "./", "./x", "./../etc"] {
        let mut p = LibPath::new("/lib".to_string());
        assert_eq!(rejection(path_append_normal(&mut p, s)), Rejection::CurDir);
        assert!(p.parts.is_empty());
    }
    for s in ["..", "../", "../etc/passwd"] {
        let mut p = LibPath::new("/lib".to_string());
        assert_eq!(rejection(path_append_normal(&mut p, s)), Rejection::ParentDir);
        assert!(p.parts.is_empty());
    }
}

#[test]
fn sanitizer_rejects_root_empty_and_extra_components() {
    let mut p = LibPath::new("/lib".to_string());
    assert_eq!(rejection(path_append_normal(&mut p, "/etc")), Rejection::RootDir);
    assert_eq!(rejection(path_append_normal(&mut p, "")), Rejection::Empty);
    assert_eq!(rejection(path_append_normal(&mut p, "a/b")), Rejection::Trailing);
    assert_eq!(rejection(path_append_normal(&mut p, "a/..")), Rejection::Trailing);
    assert!(p.parts.is_empty());
    match path_append_normal(&mut p, "a/b") {
        Err(ApiError::Invalid(seg, _)) => assert_eq!(seg, "a/b"),
        _ => panic!("expected a rejection"),
    }
}

#[test]
fn sanitizer_keeps_dotted_names() {
    let mut p = LibPath::new("/lib".to_string());
    assert!(path_append_normal(&mut p, "...").is_ok());
    assert!(path_append_normal(&mut p, ".hidden").is_ok());
    assert!(path_append_normal(&mut p, "naïve").is_ok());
    assert_eq!(parts(&p), vec!["...".to_string(), ".hidden".to_string(), "naïve".to_string()]);
}

#[test]
fn next_identity_after_gap() {
    let entries = vec![file("0.html"), file("1.html"), file("5.html")];
    assert_eq!(next_identity(&entries), 6);
}

#[test]
fn next_identity_without_numeric_entries() {
    assert_eq!(next_identity(&vec![]), 0);
    let entries = vec![file("intro.html"), file("notes"), DirEntry { name: None, is_file: true }];
    assert_eq!(next_identity(&entries), 0);
}

#[test]
fn next_identity_ignores_directories_and_reads_plain_numbers() {
    let entries = vec![
        DirEntry { name: Some("9.html".to_string()), is_file: false },
        file("3"),
        file("+4.html"),
        file("-7.html"),
        file("007.html"),
    ];
    assert_eq!(next_identity(&entries), 8);
}

#[test]
fn next_identity_past_u32() {
    let entries = vec![file("4294967295.html"), file("4294967296.html")];
    assert_eq!(next_identity(&entries), 4294967296);
}

#[test]
fn entry_identity_reads_stem() {
    assert_eq!(entry_identity(&file("12.html")), Some(12));
    assert_eq!(entry_identity(&file("12.htm")), None);
    assert_eq!(entry_identity(&file(".html")), None);
    assert_eq!(entry_identity(&file("+")), None);
}

#[test]
fn node_file_appends_suffix() {
    assert_eq!(node_file("7"), "7.html");
    assert_eq!(node_file(""), ".html");
}

#[test]
fn split_list_keeps_empty_pieces() {
    assert_eq!(split_list("2,0,1"), vec!["2", "0", "1"]);
    assert_eq!(split_list(""), vec![""]);
    assert_eq!(split_list("a,,b,"), vec!["a", "", "b", ""]);
}

#[test]
fn document_explicit_nodes_in_given_order() {
    let state = AppState::new("/lib".to_string());
    match document(&state, "book", Some("2,0,1")) {
        Ok(DocumentSource::Nodes(paths)) => {
            let names: Vec<Vec<String>> = paths.iter().map(parts).collect();
            assert_eq!(
                names,
                vec![
                    vec!["book".to_string(), "2.html".to_string()],
                    vec!["book".to_string(), "0.html".to_string()],
                    vec!["book".to_string(), "1.html".to_string()],
                ]
            );
            assert!(paths.iter().all(|p| p.root == "/lib"));
        },
        _ => panic!("expected the listed nodes"),
    }
}

#[test]
fn document_without_list_reads_directory() {
    let state = AppState::new("/lib".to_string());
    match document(&state, "book", None) {
        Ok(DocumentSource::Listing(dir)) => assert_eq!(parts(&dir), vec!["book".to_string()]),
        _ => panic!("expected a listing"),
    }
}

#[test]
fn document_rejects_bad_names() {
    let state = AppState::new("/lib".to_string());
    assert!(matches!(document(&state, "..", None), Err(ApiError::Invalid(_, Rejection::ParentDir))));
    match document(&state, "book", Some("1,a/b,2")) {
        Err(ApiError::Invalid(seg, why)) => {
            assert_eq!(seg, "a/b.html");
            assert_eq!(why, Rejection::Trailing);
        },
        _ => panic!("expected a rejection"),
    }
}

#[test]
fn listing_is_lexicographic() {
    let state = AppState::new("/lib".to_string());
    let dir = state.document_path("book").ok().unwrap();
    let names = vec!["2.html".to_string(), "10.html".to_string()];
    let paths = listing_sources(&dir, &names);
    let last: Vec<String> = paths.iter().map(|p| p.parts[1].clone()).collect();
    assert_eq!(last, vec!["10.html".to_string(), "2.html".to_string()]);
}

#[test]
fn sort_names_orders_by_bytes() {
    let names: Vec<String> = ["b", "a", "B", "ab", "a", ""].iter().map(|s| s.to_string()).collect();
    assert_eq!(sort_names(&names), vec!["", "B", "a", "a", "ab", "b"]);
    assert!(name_le("10", "2"));
    assert!(!name_le("2", "10"));
    assert!(name_le("a", "a"));
}

#[test]
fn node_path_joins_document_and_file() {
    let state = AppState::new("/lib".to_string());
    let p = state.node_path("book", "3").ok().unwrap();
    assert_eq!(p.root, "/lib");
    assert_eq!(parts(&p), vec!["book".to_string(), "3.html".to_string()]);
    assert!(matches!(state.node_path("book", "../x"), Err(ApiError::Invalid(_, Rejection::ParentDir))));
    assert!(matches!(state.node_path("/", "x"), Err(ApiError::Invalid(_, Rejection::RootDir))));
}

#[test]
fn replace_and_read_name_the_same_file() {
    let state = AppState::new("/lib".to_string());
    let written = state.node_path("book", "intro").ok().unwrap();
    let read = state.node_path("book", "intro").ok().unwrap();
    assert_eq!(parts(&written), parts(&read));
    let mut rendered = String::new();
    assert!(push_node(&mut rendered, "<p>body</p>".as_bytes().to_vec()).is_ok());
    assert_eq!(rendered, "<p>body</p>");
}

#[test]
fn delete_names_only_that_file() {
    let state = AppState::new("/lib".to_string());
    let gone = state.node_path("book", "1").ok().unwrap();
    let kept = state.node_path("book", "10").ok().unwrap();
    assert_ne!(parts(&gone), parts(&kept));
}

#[test]
fn concurrent_appends_claim_the_same_file() {
    let state = AppState::new("/lib".to_string());
    let dir = state.document_path("book").ok().unwrap();
    let first = document_append(&dir, &vec![]);
    let second = document_append(&dir, &vec![]);
    assert_eq!(parts(&first), vec!["book".to_string(), "0.html".to_string()]);
    assert_eq!(parts(&first), parts(&second));
}

#[test]
fn append_names_next_identity() {
    let state = AppState::new("/lib".to_string());
    let dir = state.document_path("book").ok().unwrap();
    let entries = vec![file("0.html"), file("1.html"), file("5.html")];
    let p = document_append(&dir, &entries);
    assert_eq!(parts(&p), vec!["book".to_string(), "6.html".to_string()]);
}

#[test]
fn push_node_concatenates_without_separator() {
    let mut rendered = String::new();
    assert!(push_node(&mut rendered, b"<h1>a</h1>".to_vec()).is_ok());
    assert!(push_node(&mut rendered, "é".as_bytes().to_vec()).is_ok());
    assert_eq!(rendered, "<h1>a</h1>é");
}

#[test]
fn push_node_rejects_invalid_utf8() {
    let mut rendered = "x".to_string();
    assert!(matches!(push_node(&mut rendered, vec![0xff, 0xfe]), Err(ApiError::Utf8)));
    assert_eq!(rendered, "x");
}
