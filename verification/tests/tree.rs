use archive_extractor::path::OutputPath;
use archive_extractor::tree::{DirectoryNode, FileNode};

#[test]
fn new_path_is_the_output_directory_alone() {
    assert_eq!(OutputPath::new("extracted").segments, vec!["extracted".to_string()]);
}

#[test]
fn join_appends_one_segment() {
    let base = OutputPath::new("out");
    let joined = base.join("data").join("file.bin");
    assert_eq!(joined.segments, vec!["out".to_string(), "data".to_string(), "file.bin".to_string()]);
    assert_eq!(base.segments, vec!["out".to_string()]);
}

#[test]
fn clone_of_a_path_is_equal() {
    let path = OutputPath::new("out").join("x");
    let copy = path.clone();
    assert_eq!(copy, path);
    assert_eq!(copy.segments, vec!["out".to_string(), "x".to_string()]);
}

#[test]
fn new_folder_is_empty() {
    let folder = DirectoryNode::new("data");
    assert_eq!(folder.name, "data");
    assert!(folder.files.is_empty());
    assert!(folder.folders.is_empty());
}

#[test]
fn add_file_and_add_folder_append() {
    let mut folder = DirectoryNode::new("data");
    folder.add_file(FileNode::new("one", 1));
    folder.add_folder(DirectoryNode::new("first"));
    folder.add_file(FileNode::new("two", 2));
    folder.add_folder(DirectoryNode::new("second"));
    assert_eq!(folder.files, vec![FileNode::new("one", 1), FileNode::new("two", 2)]);
    assert_eq!(folder.folders, vec![DirectoryNode::new("first"), DirectoryNode::new("second")]);
    assert_eq!(folder.name, "data");
}

#[test]
fn file_node_keeps_name_and_handle() {
    let file = FileNode::new("a.txt", 42);
    assert_eq!(file.name, "a.txt");
    assert_eq!(file.handle, 42);
}
