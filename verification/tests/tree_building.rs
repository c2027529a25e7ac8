use spacemaxxer::scanner::{directory_node, display_name, file_node, total_size, unreadable_node};
use spacemaxxer::types::{Metadata, Node, NodeKind};
use std::path::PathBuf;
use std::time::SystemTime;

fn leaf(name: &str, size: u64) -> Box<Node> {
    Box::new(file_node(name.to_string(), PathBuf::from(name), size, None))
}

#[test]
fn display_name_uses_the_last_component() {
    assert_eq!(display_name(Some("notes.txt".to_string())), "notes.txt");
}

#[test]
fn display_name_of_the_root_is_a_slash() {
    assert_eq!(display_name(None), "/");
}

#[test]
fn unreadable_entry_is_an_empty_file() {
    let node = unreadable_node("gone".to_string(), PathBuf::from("/tmp/gone"));
    assert_eq!(node.metadata.name, "gone");
    assert_eq!(node.metadata.path, PathBuf::from("/tmp/gone"));
    assert_eq!(node.metadata.size, 0);
    assert!(node.metadata.modified.is_none());
    assert!(matches!(node.kind, NodeKind::File));
}

#[test]
fn file_keeps_its_length_and_time() {
    let now = SystemTime::now();
    let node = file_node("a.bin".to_string(), PathBuf::from("d/a.bin"), 4096, Some(now));
    assert_eq!(node.metadata.size, 4096);
    assert_eq!(node.metadata.modified, Some(now));
    assert_eq!(node.metadata.path, PathBuf::from("d/a.bin"));
    assert!(matches!(node.kind, NodeKind::File));
}

#[test]
fn directory_size_is_the_sum_of_its_children() {
    let children = vec![leaf("a", 10), leaf("b", 32), leaf("c", 0)];
    let dir = directory_node("d".to_string(), PathBuf::from("d"), None, children).unwrap();
    assert_eq!(dir.metadata.size, 42);
    match &dir.kind {
        NodeKind::Directory(c) => {
            let names: Vec<&str> = c.iter().map(|n| n.metadata.name.as_str()).collect();
            assert_eq!(names, vec!["a", "b", "c"]);
        }
        NodeKind::File => panic!("expected a directory"),
    }
}

#[test]
fn nested_directories_add_up() {
    let inner = directory_node("inner".to_string(), PathBuf::from("o/inner"), None, vec![leaf("x", 7), leaf("y", 8)]).unwrap();
    let outer = directory_node("o".to_string(), PathBuf::from("o"), None, vec![Box::new(inner), leaf("z", 5)]).unwrap();
    assert_eq!(outer.metadata.size, 20);
}

#[test]
fn empty_directory_has_size_zero() {
    let dir = directory_node("empty".to_string(), PathBuf::from("empty"), None, Vec::new()).unwrap();
    assert_eq!(dir.metadata.size, 0);
}

#[test]
fn directory_whose_total_overflows_is_refused() {
    let children = vec![leaf("a", u64::MAX), leaf("b", 1)];
    assert!(total_size(&children).is_none());
    assert!(directory_node("d".to_string(), PathBuf::from("d"), None, children).is_none());
}

#[test]
fn total_size_at_the_limit_is_accepted() {
    let children = vec![leaf("a", u64::MAX - 1), leaf("b", 1)];
    assert_eq!(total_size(&children), Some(u64::MAX));
}

#[test]
fn nodes_can_be_written_by_hand() {
    let node = Node {
        metadata: Metadata {
            name: "file_1.txt".to_string(),
            path: PathBuf::from("file_1.txt"),
            size: 50,
            modified: Some(SystemTime::now()),
        },
        kind: NodeKind::File,
    };
    assert_eq!(node.metadata.size, 50);
}

#[test]
fn clone_copies_the_whole_tree() {
    let inner = directory_node("inner".to_string(), PathBuf::from("o/inner"), None, vec![leaf("x", 7)]).unwrap();
    let outer = directory_node("o".to_string(), PathBuf::from("o"), None, vec![Box::new(inner), leaf("z", 5)]).unwrap();
    let copy = outer.clone();
    assert_eq!(copy.metadata.name, "o");
    assert_eq!(copy.metadata.size, 12);
    match (&outer.kind, &copy.kind) {
        (NodeKind::Directory(a), NodeKind::Directory(b)) => {
            assert_eq!(a.len(), b.len());
            assert_eq!(b[0].metadata.name, "inner");
            assert_eq!(b[0].metadata.path, PathBuf::from("o/inner"));
            assert_eq!(b[1].metadata.size, 5);
            match &b[0].kind {
                NodeKind::Directory(c) => assert_eq!(c[0].metadata.name, "x"),
                NodeKind::File => panic!("expected a directory"),
            }
        }
        _ => panic!("expected directories"),
    }
    let kind_copy = copy.kind.clone();
    assert!(matches!(kind_copy, NodeKind::Directory(ref c) if c.len() == 2));
}
