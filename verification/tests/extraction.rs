use archive_extractor::engine::{extract, extract_archive, Action, Event, ExtractError, Extraction};
use archive_extractor::path::OutputPath;
use archive_extractor::tree::{DirectoryNode, FileNode};
use std::collections::BTreeMap;

#[derive(Debug, Clone, PartialEq, Eq)]
enum Entry {
    Directory,
    File(Vec<u8>),
}

/// A disk in memory, keyed by the segments of a path.
#[derive(Debug, Clone, PartialEq, Eq)]
struct Disk {
    entries: BTreeMap<Vec<String>, Entry>,
}

impl Disk {
    fn empty() -> Disk {
        Disk { entries: BTreeMap::new() }
    }

    fn create_dir_all(&mut self, path: &[String]) -> bool {
        for end in 1..=path.len() {
            if let Some(Entry::File(_)) = self.entries.get(&path[..end]) {
                return false;
            }
        }
        for end in 1..=path.len() {
            self.entries.insert(path[..end].to_vec(), Entry::Directory);
        }
        true
    }

    fn write(&mut self, path: &[String], data: &[u8]) -> bool {
        if path.is_empty() {
            return false;
        }
        if path.len() >= 2 && self.entries.get(&path[..path.len() - 1]) != Some(&Entry::Directory) {
            return false;
        }
        if self.entries.get(path) == Some(&Entry::Directory) {
            return false;
        }
        self.entries.insert(path.to_vec(), Entry::File(data.to_vec()));
        true
    }

    fn at(&self, path: &str) -> Option<Entry> {
        self.entries.get(&segments(path)).cloned()
    }

    fn files(&self) -> Vec<String> {
        self.entries
            .iter()
            .filter(|(_, entry)| matches!(entry, Entry::File(_)))
            .map(|(path, _)| path.join("/"))
            .collect()
    }

    fn directories(&self) -> Vec<String> {
        self.entries
            .iter()
            .filter(|(_, entry)| matches!(entry, Entry::Directory))
            .map(|(path, _)| path.join("/"))
            .collect()
    }
}

fn segments(path: &str) -> Vec<String> {
    path.split('/').map(|s| s.to_string()).collect()
}

/// What was asked for, in words.
fn describe(action: &Action) -> String {
    match action {
        Action::CreateDir { path } => format!("mkdir {}", path.segments.join("/")),
        Action::ReadFile { handle } => format!("read {}", handle),
        Action::WriteFile { path, data } => {
            format!("write {} {}", path.segments.join("/"), String::from_utf8_lossy(data))
        }
        Action::Finished => "finished".to_string(),
        Action::Failed(error) => format!("failed {:?}", error),
    }
}

/// Runs an extraction against a disk and an archive in memory, and returns
/// how it ended together with everything that was asked for on the way.
fn drive(
    run: &mut Extraction,
    disk: &mut Disk,
    archive: &BTreeMap<u64, Vec<u8>>,
) -> (Result<(), ExtractError>, Vec<String>) {
    let mut log = Vec::new();
    loop {
        let event = match run.action() {
            Action::Finished => return (Ok(()), log),
            Action::Failed(error) => return (Err(error), log),
            Action::CreateDir { path } => {
                log.push(format!("mkdir {}", path.segments.join("/")));
                if disk.create_dir_all(&path.segments) {
                    Event::Completed
                } else {
                    Event::Failed
                }
            }
            Action::ReadFile { handle } => {
                log.push(format!("read {}", handle));
                match archive.get(&handle) {
                    Some(data) => Event::Data(data.clone()),
                    None => Event::Failed,
                }
            }
            Action::WriteFile { path, data } => {
                log.push(format!("write {}", path.segments.join("/")));
                if disk.write(&path.segments, data) {
                    Event::Completed
                } else {
                    Event::Failed
                }
            }
        };
        run.react(event);
    }
}

fn folder(name: &str, files: Vec<FileNode>, folders: Vec<DirectoryNode>) -> DirectoryNode {
    let mut node = DirectoryNode::new(name);
    for file in files {
        node.add_file(file);
    }
    for sub in folders {
        node.add_folder(sub);
    }
    node
}

/// root/ { a.txt = "hello", sub/ { b.txt = "world" } }
fn sample() -> (DirectoryNode, BTreeMap<u64, Vec<u8>>) {
    let root = folder(
        "root",
        vec![FileNode::new("a.txt", 1)],
        vec![folder("sub", vec![FileNode::new("b.txt", 2)], vec![])],
    );
    let mut archive = BTreeMap::new();
    archive.insert(1, b"hello".to_vec());
    archive.insert(2, b"world".to_vec());
    (root, archive)
}

/// data/ { x = "1", deep/ { y = "2", deeper/ { z = "3" } }, other/ { } , w = "4" }
fn larger() -> (DirectoryNode, BTreeMap<u64, Vec<u8>>) {
    let root = folder(
        "data",
        vec![FileNode::new("x", 10), FileNode::new("w", 13)],
        vec![
            folder(
                "deep",
                vec![FileNode::new("y", 11)],
                vec![folder("deeper", vec![FileNode::new("z", 12)], vec![])],
            ),
            folder("other", vec![], vec![]),
        ],
    );
    let mut archive = BTreeMap::new();
    archive.insert(10, b"1".to_vec());
    archive.insert(11, b"2".to_vec());
    archive.insert(12, b"3".to_vec());
    archive.insert(13, b"4".to_vec());
    (root, archive)
}

#[test]
fn scenario_root_with_file_and_subdirectory() {
    let (root, archive) = sample();
    let mut disk = Disk::empty();
    let mut run = extract_archive(&OutputPath::new("out"), &root);
    let (result, _) = drive(&mut run, &mut disk, &archive);
    assert_eq!(result, Ok(()));
    assert_eq!(disk.at("out/root/a.txt"), Some(Entry::File(b"hello".to_vec())));
    assert_eq!(disk.at("out/root/sub/b.txt"), Some(Entry::File(b"world".to_vec())));
    assert_eq!(disk.files(), vec!["out/root/a.txt".to_string(), "out/root/sub/b.txt".to_string()]);
    assert_eq!(
        disk.directories(),
        vec!["out".to_string(), "out/root".to_string(), "out/root/sub".to_string()]
    );
}

#[test]
fn actions_come_in_depth_first_order_files_before_folders() {
    let (root, archive) = larger();
    let mut disk = Disk::empty();
    let mut run = extract_archive(&OutputPath::new("out"), &root);
    let (result, log) = drive(&mut run, &mut disk, &archive);
    assert_eq!(result, Ok(()));
    assert_eq!(
        log,
        vec![
            "mkdir out/data",
            "read 10",
            "write out/data/x",
            "read 13",
            "write out/data/w",
            "mkdir out/data/deep",
            "read 11",
            "write out/data/deep/y",
            "mkdir out/data/deep/deeper",
            "read 12",
            "write out/data/deep/deeper/z",
            "mkdir out/data/other",
        ]
    );
}

#[test]
fn fresh_extraction_mirrors_the_tree() {
    let (root, archive) = larger();
    let mut disk = Disk::empty();
    let mut run = extract_archive(&OutputPath::new("out"), &root);
    let (result, _) = drive(&mut run, &mut disk, &archive);
    assert_eq!(result, Ok(()));
    let mut expected = BTreeMap::new();
    expected.insert(segments("out"), Entry::Directory);
    expected.insert(segments("out/data"), Entry::Directory);
    expected.insert(segments("out/data/x"), Entry::File(b"1".to_vec()));
    expected.insert(segments("out/data/w"), Entry::File(b"4".to_vec()));
    expected.insert(segments("out/data/deep"), Entry::Directory);
    expected.insert(segments("out/data/deep/y"), Entry::File(b"2".to_vec()));
    expected.insert(segments("out/data/deep/deeper"), Entry::Directory);
    expected.insert(segments("out/data/deep/deeper/z"), Entry::File(b"3".to_vec()));
    expected.insert(segments("out/data/other"), Entry::Directory);
    assert_eq!(disk.entries, expected);
}

#[test]
fn extracting_twice_leaves_the_same_disk() {
    let (root, archive) = larger();
    let mut disk = Disk::empty();
    let output = OutputPath::new("out");
    let mut first = extract_archive(&output, &root);
    assert_eq!(drive(&mut first, &mut disk, &archive).0, Ok(()));
    let after_first = disk.clone();
    let mut second = extract_archive(&output, &root);
    assert_eq!(drive(&mut second, &mut disk, &archive).0, Ok(()));
    assert_eq!(disk, after_first);
}

#[test]
fn existing_file_is_overwritten() {
    let (root, archive) = sample();
    let mut disk = Disk::empty();
    assert!(disk.create_dir_all(&segments("out/root")));
    assert!(disk.write(&segments("out/root/a.txt"), b"stale and longer"));
    let mut run = extract_archive(&OutputPath::new("out"), &root);
    assert_eq!(drive(&mut run, &mut disk, &archive).0, Ok(()));
    assert_eq!(disk.at("out/root/a.txt"), Some(Entry::File(b"hello".to_vec())));
}

#[test]
fn existing_directories_are_no_failure() {
    let (root, archive) = sample();
    let mut disk = Disk::empty();
    assert!(disk.create_dir_all(&segments("out/root/sub")));
    let mut run = extract_archive(&OutputPath::new("out"), &root);
    assert_eq!(drive(&mut run, &mut disk, &archive).0, Ok(()));
    assert_eq!(disk.at("out/root/sub/b.txt"), Some(Entry::File(b"world".to_vec())));
}

#[test]
fn root_folder_is_nested_under_output() {
    let root = folder(
        "data",
        vec![FileNode::new("top.bin", 1)],
        vec![folder("inner", vec![FileNode::new("low.bin", 2)], vec![])],
    );
    let mut archive = BTreeMap::new();
    archive.insert(1, vec![1u8]);
    archive.insert(2, vec![2u8]);
    let mut disk = Disk::empty();
    let mut run = extract_archive(&OutputPath::new("out"), &root);
    assert_eq!(drive(&mut run, &mut disk, &archive).0, Ok(()));
    assert_eq!(disk.files(), vec!["out/data/inner/low.bin".to_string(), "out/data/top.bin".to_string()]);
    for path in disk.entries.keys() {
        assert_eq!(path[0], "out");
        if path.len() > 1 {
            assert_eq!(path[1], "data");
        }
    }
    assert_eq!(disk.at("out/top.bin"), None);
    assert_eq!(disk.at("out/inner"), None);
}

#[test]
fn directory_exists_before_its_children_are_written() {
    let (root, archive) = larger();
    let mut disk = Disk::empty();
    let mut run = extract_archive(&OutputPath::new("out"), &root);
    loop {
        let event = match run.action() {
            Action::Finished => break,
            Action::Failed(error) => panic!("failed with {:?}", error),
            Action::CreateDir { path } => {
                assert!(disk.create_dir_all(&path.segments));
                Event::Completed
            }
            Action::ReadFile { handle } => Event::Data(archive[&handle].clone()),
            Action::WriteFile { path, data } => {
                let parent = &path.segments[..path.segments.len() - 1];
                assert_eq!(disk.entries.get(parent), Some(&Entry::Directory));
                assert!(disk.write(&path.segments, data));
                Event::Completed
            }
        };
        run.react(event);
    }
    assert_eq!(disk.files().len(), 4);
}

#[test]
fn failed_read_deep_in_the_tree_keeps_what_was_written() {
    let (root, mut archive) = larger();
    archive.remove(&12);
    let mut disk = Disk::empty();
    let mut run = extract_archive(&OutputPath::new("out"), &root);
    let (result, log) = drive(&mut run, &mut disk, &archive);
    assert_eq!(result, Err(ExtractError::ArchiveRead));
    assert_eq!(log.last().map(|s| s.as_str()), Some("read 12"));
    assert_eq!(disk.at("out/data/x"), Some(Entry::File(b"1".to_vec())));
    assert_eq!(disk.at("out/data/w"), Some(Entry::File(b"4".to_vec())));
    assert_eq!(disk.at("out/data/deep/y"), Some(Entry::File(b"2".to_vec())));
    assert_eq!(disk.at("out/data/deep/deeper"), Some(Entry::Directory));
    assert_eq!(disk.at("out/data/deep/deeper/z"), None);
    assert_eq!(disk.at("out/data/other"), None);
    assert!(run.is_over());
    assert!(matches!(run.action(), Action::Failed(ExtractError::ArchiveRead)));
}

#[test]
fn directory_blocked_by_a_file_is_a_filesystem_error() {
    let (root, archive) = sample();
    let mut disk = Disk::empty();
    assert!(disk.create_dir_all(&segments("out/root")));
    assert!(disk.write(&segments("out/root/sub"), b"in the way"));
    let mut run = extract_archive(&OutputPath::new("out"), &root);
    let (result, log) = drive(&mut run, &mut disk, &archive);
    assert_eq!(result, Err(ExtractError::Filesystem));
    assert_eq!(log.last().map(|s| s.as_str()), Some("mkdir out/root/sub"));
    assert_eq!(disk.at("out/root/a.txt"), Some(Entry::File(b"hello".to_vec())));
    assert_eq!(disk.at("out/root/sub"), Some(Entry::File(b"in the way".to_vec())));
}

#[test]
fn file_blocked_by_a_directory_is_a_filesystem_error() {
    let (root, archive) = sample();
    let mut disk = Disk::empty();
    assert!(disk.create_dir_all(&segments("out/root/a.txt")));
    let mut run = extract_archive(&OutputPath::new("out"), &root);
    let (result, log) = drive(&mut run, &mut disk, &archive);
    assert_eq!(result, Err(ExtractError::Filesystem));
    assert_eq!(log.last().map(|s| s.as_str()), Some("write out/root/a.txt"));
    assert_eq!(disk.at("out/root/sub"), None);
}

#[test]
fn the_two_errors_differ() {
    assert_ne!(ExtractError::ArchiveRead, ExtractError::Filesystem);
}

#[test]
fn empty_root_creates_only_its_directory() {
    let root = DirectoryNode::new("data");
    let archive = BTreeMap::new();
    let mut disk = Disk::empty();
    let mut run = extract_archive(&OutputPath::new("extracted"), &root);
    let (result, log) = drive(&mut run, &mut disk, &archive);
    assert_eq!(result, Ok(()));
    assert_eq!(log, vec!["mkdir extracted/data"]);
    assert_eq!(disk.directories(), vec!["extracted".to_string(), "extracted/data".to_string()]);
    assert!(disk.files().is_empty());
}

#[test]
fn extract_takes_the_target_as_it_is() {
    let (root, archive) = sample();
    let target = OutputPath::new("a").join("b").join("c");
    let mut disk = Disk::empty();
    let mut run = extract(&target, &root);
    let (result, log) = drive(&mut run, &mut disk, &archive);
    assert_eq!(result, Ok(()));
    assert_eq!(
        log,
        vec!["mkdir a/b/c", "read 1", "write a/b/c/a.txt", "mkdir a/b/c/sub", "read 2", "write a/b/c/sub/b.txt"]
    );
    assert_eq!(disk.at("a"), Some(Entry::Directory));
    assert_eq!(disk.at("a/b"), Some(Entry::Directory));
    assert_eq!(disk.at("a/b/c/root"), None);
}

#[test]
fn siblings_keep_the_order_of_the_archive() {
    let root = folder(
        "r",
        vec![FileNode::new("zeta", 1), FileNode::new("alpha", 2)],
        vec![folder("y", vec![], vec![]), folder("b", vec![], vec![])],
    );
    let mut archive = BTreeMap::new();
    archive.insert(1, vec![]);
    archive.insert(2, vec![]);
    let mut disk = Disk::empty();
    let mut run = extract_archive(&OutputPath::new("o"), &root);
    let (_, log) = drive(&mut run, &mut disk, &archive);
    assert_eq!(
        log,
        vec!["mkdir o/r", "read 1", "write o/r/zeta", "read 2", "write o/r/alpha", "mkdir o/r/y", "mkdir o/r/b"]
    );
}

#[test]
fn bytes_that_were_read_are_the_bytes_to_write() {
    let (root, _) = sample();
    let mut run = extract_archive(&OutputPath::new("out"), &root);
    assert_eq!(describe(&run.action()), "mkdir out/root");
    run.react(Event::Completed);
    assert_eq!(describe(&run.action()), "read 1");
    run.react(Event::Data(b"payload".to_vec()));
    assert_eq!(describe(&run.action()), "write out/root/a.txt payload");
    run.react(Event::Completed);
    assert_eq!(describe(&run.action()), "mkdir out/root/sub");
}

#[test]
fn empty_file_is_written_empty() {
    let root = folder("r", vec![FileNode::new("nothing", 7)], vec![]);
    let mut archive = BTreeMap::new();
    archive.insert(7, Vec::new());
    let mut disk = Disk::empty();
    let mut run = extract_archive(&OutputPath::new("o"), &root);
    assert_eq!(drive(&mut run, &mut disk, &archive).0, Ok(()));
    assert_eq!(disk.at("o/r/nothing"), Some(Entry::File(Vec::new())));
}

#[test]
fn failed_directory_is_a_filesystem_error() {
    let (root, _) = sample();
    let mut run = extract_archive(&OutputPath::new("out"), &root);
    assert!(!run.is_over());
    run.react(Event::Failed);
    assert!(run.is_over());
    assert_eq!(describe(&run.action()), "failed Filesystem");
}

#[test]
fn failed_read_is_an_archive_error() {
    let (root, _) = sample();
    let mut run = extract_archive(&OutputPath::new("out"), &root);
    run.react(Event::Completed);
    run.react(Event::Failed);
    assert_eq!(describe(&run.action()), "failed ArchiveRead");
}

#[test]
fn failed_write_is_a_filesystem_error() {
    let (root, _) = sample();
    let mut run = extract_archive(&OutputPath::new("out"), &root);
    run.react(Event::Completed);
    run.react(Event::Data(vec![1, 2, 3]));
    run.react(Event::Failed);
    assert_eq!(describe(&run.action()), "failed Filesystem");
}

#[test]
fn report_that_does_not_fit_the_action_fails_it() {
    let (root, _) = sample();
    let mut waiting_for_directory = extract_archive(&OutputPath::new("out"), &root);
    waiting_for_directory.react(Event::Data(vec![9]));
    assert_eq!(describe(&waiting_for_directory.action()), "failed Filesystem");

    let mut waiting_for_bytes = extract_archive(&OutputPath::new("out"), &root);
    waiting_for_bytes.react(Event::Completed);
    waiting_for_bytes.react(Event::Completed);
    assert_eq!(describe(&waiting_for_bytes.action()), "failed ArchiveRead");

    let mut waiting_for_write = extract_archive(&OutputPath::new("out"), &root);
    waiting_for_write.react(Event::Completed);
    waiting_for_write.react(Event::Data(vec![9]));
    waiting_for_write.react(Event::Data(vec![9]));
    assert_eq!(describe(&waiting_for_write.action()), "failed Filesystem");
}

#[test]
fn nothing_changes_an_extraction_that_is_over() {
    let (root, archive) = sample();
    let mut disk = Disk::empty();
    let mut done = extract_archive(&OutputPath::new("out"), &root);
    assert_eq!(drive(&mut done, &mut disk, &archive).0, Ok(()));
    done.react(Event::Failed);
    done.react(Event::Data(vec![1]));
    done.react(Event::Completed);
    assert!(done.is_over());
    assert_eq!(describe(&done.action()), "finished");

    let mut failed = extract_archive(&OutputPath::new("out"), &root);
    failed.react(Event::Failed);
    failed.react(Event::Completed);
    failed.react(Event::Data(vec![1]));
    assert_eq!(describe(&failed.action()), "failed Filesystem");
}

#[test]
fn is_over_only_at_the_end() {
    let root = folder("r", vec![FileNode::new("f", 1)], vec![]);
    let mut run = extract_archive(&OutputPath::new("o"), &root);
    assert!(!run.is_over());
    run.react(Event::Completed);
    assert!(!run.is_over());
    run.react(Event::Data(vec![0]));
    assert!(!run.is_over());
    run.react(Event::Completed);
    assert!(run.is_over());
    assert!(matches!(run.action(), Action::Finished));
}

#[test]
fn failing_extraction_repeated_fails_alike() {
    let (root, mut archive) = larger();
    archive.remove(&11);
    let output = OutputPath::new("out");
    let mut disk = Disk::empty();
    let mut first = extract_archive(&output, &root);
    let (first_result, first_log) = drive(&mut first, &mut disk, &archive);
    let after_first = disk.clone();
    let mut second = extract_archive(&output, &root);
    let (second_result, second_log) = drive(&mut second, &mut disk, &archive);
    assert_eq!(first_result, Err(ExtractError::ArchiveRead));
    assert_eq!(second_result, first_result);
    assert_eq!(second_log, first_log);
    assert_eq!(disk, after_first);
}

#[test]
fn what_lies_elsewhere_is_left_alone() {
    let (root, archive) = sample();
    let mut disk = Disk::empty();
    assert!(disk.create_dir_all(&segments("out/other")));
    assert!(disk.write(&segments("out/other/keep"), b"kept"));
    assert!(disk.write(&segments("out/a.txt"), b"beside"));
    assert!(disk.create_dir_all(&segments("elsewhere/root/sub")));
    let before = disk.clone();
    let mut run = extract_archive(&OutputPath::new("out"), &root);
    assert_eq!(drive(&mut run, &mut disk, &archive).0, Ok(()));
    for (path, entry) in &before.entries {
        assert_eq!(disk.entries.get(path), Some(entry));
    }
    for path in disk.entries.keys() {
        assert!(before.entries.contains_key(path) || path.starts_with(&segments("out/root")));
    }
}
