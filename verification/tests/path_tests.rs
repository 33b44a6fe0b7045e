use treesize::path::{FsPath, PathPart};

fn normal(name: &str) -> PathPart {
    PathPart::Normal(name.to_string())
}

fn abs(names: &[&str]) -> FsPath {
    let mut parts = vec![PathPart::Root];
    for name in names {
        parts.push(normal(name));
    }
    FsPath { parts }
}

#[test]
fn parts_compare_by_kind_and_text() {
    assert!(normal("a").same(&normal("a")));
    assert!(!normal("a").same(&normal("b")));
    assert!(!normal("..").same(&PathPart::Parent));
    assert!(PathPart::Root.same(&PathPart::Root));
    assert!(PathPart::Current.same(&PathPart::Current));
    assert!(PathPart::Parent.same(&PathPart::Parent));
    assert!(PathPart::Prefix("C:".to_string()).same(&PathPart::Prefix("C:".to_string())));
    assert!(!PathPart::Prefix("C:".to_string()).same(&PathPart::Prefix("D:".to_string())));
    assert!(!PathPart::Prefix("a".to_string()).same(&normal("a")));
}

#[test]
fn duplicates_are_equal_to_what_they_copy() {
    let p = FsPath {
        parts: vec![
            PathPart::Prefix("C:".to_string()),
            PathPart::Root,
            PathPart::Current,
            PathPart::Parent,
            normal("x"),
        ],
    };
    assert_eq!(p.duplicate(), p);
    assert_eq!(normal("x").duplicate(), normal("x"));
}

#[test]
fn join_appends_a_name() {
    assert_eq!(abs(&["a"]).join("b".to_string()), abs(&["a", "b"]));
    assert_eq!(FsPath { parts: vec![] }.join("b".to_string()), FsPath { parts: vec![normal("b")] });
}

#[test]
fn file_name_is_the_last_ordinary_name() {
    assert_eq!(abs(&["a", "b.txt"]).file_name(), Some("b.txt".to_string()));
    assert_eq!(abs(&[]).file_name(), None);
    assert_eq!(FsPath { parts: vec![] }.file_name(), None);
    assert_eq!(FsPath { parts: vec![normal("a"), PathPart::Parent] }.file_name(), None);
    assert_eq!(FsPath { parts: vec![PathPart::Current] }.file_name(), None);
}

#[test]
fn starts_with_compares_whole_components() {
    assert!(abs(&["a", "b"]).starts_with(&abs(&["a"])));
    assert!(abs(&["a", "b"]).starts_with(&abs(&["a", "b"])));
    assert!(abs(&["a", "b"]).starts_with(&abs(&[])));
    assert!(abs(&["a"]).starts_with(&FsPath { parts: vec![] }));
    assert!(!abs(&["a"]).starts_with(&abs(&["a", "b"])));
    assert!(!abs(&["ab", "c"]).starts_with(&abs(&["a"])));
    assert!(!abs(&["a", "b"]).starts_with(&abs(&["b"])));
    assert!(!abs(&["a"]).starts_with(&FsPath { parts: vec![normal("a")] }));
}

#[test]
fn byte_lengths_of_parts() {
    assert_eq!(PathPart::Root.byte_len(), 1);
    assert_eq!(PathPart::Current.byte_len(), 1);
    assert_eq!(PathPart::Parent.byte_len(), 2);
    assert_eq!(normal("abc").byte_len(), 3);
    assert_eq!(normal("é").byte_len(), 2);
    assert_eq!(PathPart::Prefix("C:".to_string()).byte_len(), 2);
}

#[test]
fn written_length_counts_names_and_separators() {
    // "/ab/cde" takes 7 bytes
    let p = abs(&["ab", "cde"]);
    assert!(p.is_longer_than(6));
    assert!(!p.is_longer_than(7));
    assert!(!p.is_longer_than(usize::MAX));
    // "ab/cde" takes 6 bytes
    let rel = FsPath { parts: vec![normal("ab"), normal("cde")] };
    assert!(rel.is_longer_than(5));
    assert!(!rel.is_longer_than(6));
    // "C:\ab" takes 5 bytes: no separator after a prefix or a root
    let win = FsPath { parts: vec![PathPart::Prefix("C:".to_string()), PathPart::Root, normal("ab")] };
    assert!(win.is_longer_than(4));
    assert!(!win.is_longer_than(5));
    // "../x" takes 4 bytes
    let up = FsPath { parts: vec![PathPart::Parent, normal("x")] };
    assert!(up.is_longer_than(3));
    assert!(!up.is_longer_than(4));
    assert!(!FsPath { parts: vec![] }.is_longer_than(0));
    assert!(abs(&[]).is_longer_than(0));
    assert!(!abs(&[]).is_longer_than(1));
}
