use dir_walk::{
    walk_dir, walk_dir_max_depth, DirEntry, DirIdentity, DirWalker, Event, FileKind, Step,
    WalkConfig, WalkError,
};
use std::collections::HashMap;

// An in-memory filesystem that answers the walker's requests.

enum Node {
    File,
    Dir(Vec<String>),
    // A directory with this many subdirectories, named on demand.
    HugeDir(usize),
    Link(String),
    // An item that is listed but whose metadata cannot be read.
    Unreadable,
}

struct FakeFs {
    nodes: HashMap<String, (Node, u64)>,
    next_inode: u64,
}

#[derive(Default)]
struct Stats {
    items_per_dir: HashMap<String, usize>,
    opened: Vec<String>,
}

fn parent_and_name(path: &str) -> (&str, &str) {
    match path.rfind('/') {
        Some(i) => (&path[..i], &path[i + 1..]),
        None => ("", path),
    }
}

impl FakeFs {
    fn new() -> FakeFs {
        FakeFs { nodes: HashMap::new(), next_inode: 1 }
    }

    fn add(&mut self, path: &str, node: Node) {
        let (parent, name) = parent_and_name(path);
        if let Some((Node::Dir(children), _)) = self.nodes.get_mut(parent) {
            children.push(name.to_string());
        }
        let inode = self.next_inode;
        self.next_inode += 1;
        self.nodes.insert(path.to_string(), (node, inode));
    }

    fn dir(&mut self, path: &str) {
        self.add(path, Node::Dir(Vec::new()));
    }

    fn file(&mut self, path: &str) {
        self.add(path, Node::File);
    }

    fn link(&mut self, path: &str, target: &str) {
        self.add(path, Node::Link(target.to_string()));
    }

    // The real path that `path` names, following links on the way (and the
    // last component too when `follow_last`).
    fn resolve(&self, path: &str, follow_last: bool, hops: usize) -> Option<String> {
        if hops > 40 {
            return None;
        }
        let (parent, name) = parent_and_name(path);
        let real_parent = if parent.is_empty() {
            String::new()
        } else {
            self.resolve(parent, true, hops + 1)?
        };
        let joined = if real_parent.is_empty() {
            name.to_string()
        } else {
            format!("{}/{}", real_parent, name)
        };
        if !follow_last {
            return self.nodes.get(&joined).map(|_| joined);
        }
        match self.nodes.get(&joined) {
            Some((Node::Link(target), _)) => self.resolve(target, true, hops + 1),
            Some(_) => Some(joined),
            None => None,
        }
    }

    fn list(&self, path: &str) -> Option<Vec<String>> {
        let real = self.resolve(path, true, 0)?;
        match self.nodes.get(&real) {
            Some((Node::Dir(children), _)) => {
                Some(children.iter().map(|c| format!("{}/{}", path, c)).collect())
            }
            Some((Node::HugeDir(n), _)) => {
                // Only a few names are made: the walker must stop long before.
                Some((0..(*n).min(1000)).map(|i| format!("{}/sub_{}", path, i)).collect())
            }
            _ => None,
        }
    }

    fn kind_of(node: &Node) -> FileKind {
        match node {
            Node::File => FileKind { is_dir: false, is_file: true, is_symlink: false },
            Node::Dir(_) | Node::HugeDir(_) => {
                FileKind { is_dir: true, is_file: false, is_symlink: false }
            }
            Node::Link(_) => FileKind { is_dir: false, is_file: false, is_symlink: true },
            Node::Unreadable => FileKind { is_dir: false, is_file: false, is_symlink: false },
        }
    }

    fn own_metadata(&self, path: &str) -> Event {
        let (parent, _) = parent_and_name(path);
        if let Some((Node::HugeDir(_), _)) = self.resolve(parent, true, 0).and_then(|p| self.nodes.get(&p)) {
            return Event::Metadata(FileKind { is_dir: true, is_file: false, is_symlink: false });
        }
        match self.resolve(path, false, 0).and_then(|p| self.nodes.get(&p)) {
            Some((Node::Unreadable, _)) | None => Event::MetadataFailed,
            Some((node, _)) => Event::Metadata(FakeFs::kind_of(node)),
        }
    }

    fn target_metadata(&self, path: &str) -> Event {
        match self.resolve(path, true, 0).and_then(|p| self.nodes.get(&p)) {
            Some((Node::Unreadable, _)) | None => Event::MetadataFailed,
            Some((node, inode)) => {
                let kind = FakeFs::kind_of(node);
                let id = if kind.is_dir { Some(DirIdentity { device: 7, inode: *inode }) } else { None };
                Event::Target(kind, id)
            }
        }
    }
}

// One pull: answers the walker's requests until it hands out a result or ends.
fn pull(walker: &mut DirWalker, fs: &FakeFs, stats: &mut Stats) -> Option<Result<DirEntry, WalkError>> {
    let mut event = Event::Pull;
    let mut open: Option<(String, Vec<String>, usize)> = None;
    loop {
        assert!(walker.accepts(&event), "the walker refused an answer to its own request");
        match walker.step(event) {
            Step::OpenDir(path) => {
                stats.opened.push(path.clone());
                event = match fs.list(&path) {
                    Some(items) => {
                        open = Some((path, items, 0));
                        Event::Opened
                    }
                    None => Event::OpenFailed,
                };
            }
            Step::NextItem => {
                let (dir, items, next) = open.as_mut().expect("an item asked for with no open directory");
                *stats.items_per_dir.entry(dir.clone()).or_insert(0) += 1;
                event = if *next < items.len() {
                    *next += 1;
                    Event::Item(items[*next - 1].clone())
                } else {
                    Event::NoMoreItems
                };
            }
            Step::ReadLinkMetadata(path) => event = fs.own_metadata(&path),
            Step::ReadTargetMetadata(path) => event = fs.target_metadata(&path),
            Step::Yielded(result) => return Some(result),
            Step::Finished => return None,
        }
    }
}

fn walk_all(mut walker: DirWalker, fs: &FakeFs) -> (Vec<Result<DirEntry, WalkError>>, Stats) {
    let mut stats = Stats::default();
    let mut results = Vec::new();
    while let Some(r) = pull(&mut walker, fs, &mut stats) {
        results.push(r);
        assert!(results.len() < 100_000, "the walk does not end");
    }
    // Pulls after the end stay at the end, and ask for nothing.
    for _ in 0..3 {
        assert!(matches!(walker.step(Event::Pull), Step::Finished));
    }
    (results, stats)
}

fn entries(walker: DirWalker, fs: &FakeFs) -> Vec<DirEntry> {
    walk_all(walker, fs).0.into_iter().filter_map(|r| r.ok()).collect()
}

// root/file1.txt, root/dir1/file2.txt, root/dir1/subdir1/file3.txt, root/dir2/file4.txt
fn test_tree() -> FakeFs {
    let mut fs = FakeFs::new();
    fs.dir("root");
    fs.dir("root/dir1");
    fs.dir("root/dir1/subdir1");
    fs.dir("root/dir2");
    fs.file("root/file1.txt");
    fs.file("root/dir1/file2.txt");
    fs.file("root/dir1/subdir1/file3.txt");
    fs.file("root/dir2/file4.txt");
    fs
}

#[test]
fn dir_walk_module_test_walk_finds_all_files() {
    let fs = test_tree();
    let files = entries(walk_dir("root"), &fs).into_iter().filter(|e| e.is_file()).count();
    assert_eq!(files, 4, "test_walk_finds_all_files: expected 4 files, got {}", files);
}

#[test]
fn dir_walk_module_test_walk_finds_directories() {
    let fs = test_tree();
    let dirs = entries(walk_dir("root"), &fs).into_iter().filter(|e| e.is_dir()).count();
    assert_eq!(dirs, 3, "test_walk_finds_directories: expected 3 directories, got {}", dirs);
}

#[test]
fn dir_walk_module_test_walk_max_depth_0_immediate_children_only() {
    let fs = test_tree();
    let found = entries(walk_dir_max_depth("root", 0), &fs);
    for e in &found {
        assert_eq!(e.depth(), 0, "test_walk_max_depth_0: entry at depth {}, expected 0", e.depth());
    }
    assert_eq!(found.len(), 3, "test_walk_max_depth_0: expected 3 entries, got {}", found.len());
}

#[test]
fn dir_walk_module_test_walk_max_depth_1_excludes_nested() {
    let fs = test_tree();
    let found = entries(walk_dir_max_depth("root", 1), &fs);
    for e in &found {
        assert!(e.depth() <= 1, "test_walk_max_depth_1: depth {} exceeds limit 1", e.depth());
    }
    let has_file3 = found.iter().any(|e| e.file_name() == Some("file3.txt"));
    assert!(!has_file3, "test_walk_max_depth_1: file3.txt at depth 2 should be excluded");
    // Everything else is still there: file1, file2, file4, dir1, dir2, subdir1.
    assert_eq!(found.len(), 6);
}

#[test]
fn max_depth_1_never_opens_deeper_directories() {
    let fs = test_tree();
    let (_, stats) = walk_all(walk_dir_max_depth("root", 1), &fs);
    assert!(!stats.opened.iter().any(|p| p == "root/dir1/subdir1"));
    assert_eq!(stats.opened.len(), 3);
}

#[test]
fn dir_walk_module_test_walk_files_only_skips_directories() {
    let fs = test_tree();
    let found = entries(DirWalker::new("root", WalkConfig::new().yield_directories(false)), &fs);
    for e in &found {
        assert!(e.is_file(), "test_walk_files_only: yielded non-file entry");
    }
    assert_eq!(found.len(), 4, "test_walk_files_only: expected 4 files, got {}", found.len());
}

#[test]
fn dir_walk_module_test_walk_nonexistent_directory_continues() {
    let fs = FakeFs::new();
    let (results, _) = walk_all(walk_dir("nonexistent_continues"), &fs);
    assert_eq!(results.len(), 0, "test_walk_nonexistent_continues: expected 0 entries, got {}", results.len());
}

#[test]
fn dir_walk_module_test_walk_nonexistent_directory_errors() {
    let fs = FakeFs::new();
    let walker = DirWalker::new("nonexistent_errors", WalkConfig::new().continue_on_error(false));
    let (results, _) = walk_all(walker, &fs);
    assert_eq!(results.len(), 1, "test_walk_nonexistent_errors: expected 1 result, got {}", results.len());
    assert!(results[0].is_err(), "test_walk_nonexistent_errors: expected Err, got Ok");
    assert!(matches!(results[0], Err(WalkError::ReadDirectory)));
}

#[test]
fn dir_walk_module_test_fatal_error_halts_iteration() {
    let fs = FakeFs::new();
    let mut stats = Stats::default();
    let mut walker = DirWalker::new("fatal_halts", WalkConfig::new().continue_on_error(false));
    let first = pull(&mut walker, &fs, &mut stats);
    assert!(first.is_some(), "test_fatal_error_halts: first next() should return Some");
    assert!(
        first.as_ref().map(|r| r.is_err()).unwrap_or(false),
        "test_fatal_error_halts: first result should be Err"
    );
    let opened = stats.opened.len();
    let second = pull(&mut walker, &fs, &mut stats);
    assert!(second.is_none(), "test_fatal_error_halts: second next() should return None after fatal error");
    let third = pull(&mut walker, &fs, &mut stats);
    assert!(third.is_none(), "test_fatal_error_halts: third next() should still return None");
    assert_eq!(stats.opened.len(), opened, "no I/O after a fatal error");
}

#[test]
fn dir_walk_module_test_walk_empty_directory() {
    let mut fs = FakeFs::new();
    fs.dir("walk_empty");
    let (results, _) = walk_all(walk_dir("walk_empty"), &fs);
    assert_eq!(results.len(), 0, "test_walk_empty: expected 0 entries in empty dir, got {}", results.len());
}

#[test]
fn dir_walk_module_test_max_entries_per_dir_limit() {
    let mut fs = FakeFs::new();
    fs.dir("entry_limit");
    for i in 0..10 {
        fs.file(&format!("entry_limit/file_{}.txt", i));
    }
    let config = WalkConfig::new().max_entries_per_dir(3).continue_on_error(true);
    let found = entries(DirWalker::new("entry_limit", config), &fs);
    assert!(found.len() <= 3, "test_max_entries_per_dir: expected at most 3 entries, got {}", found.len());
    assert_eq!(found.len(), 3);
}

#[test]
fn dir_walk_module_test_max_queue_size_limit() {
    let mut fs = FakeFs::new();
    fs.dir("queue_limit");
    for i in 0..5 {
        fs.dir(&format!("queue_limit/sub_{}", i));
        fs.file(&format!("queue_limit/sub_{}/file.txt", i));
    }
    let config = WalkConfig::new().max_queue_size(1).continue_on_error(true);
    let limited_count = entries(DirWalker::new("queue_limit", config), &fs).len();
    let unlimited_count = entries(walk_dir("queue_limit"), &fs).len();
    assert!(
        limited_count <= unlimited_count,
        "test_max_queue_size: limited ({}) should not exceed unlimited ({})",
        limited_count,
        unlimited_count
    );
    // Five directories are reported either way; only one of them is read.
    assert_eq!(limited_count, 6);
    assert_eq!(unlimited_count, 10);
}

#[test]
fn dir_walk_module_test_dir_entry_file_name() {
    let mut fs = FakeFs::new();
    fs.dir("entry_file_name");
    fs.file("entry_file_name/test_file.txt");
    let found: Vec<_> = entries(walk_dir("entry_file_name"), &fs).into_iter().filter(|e| e.is_file()).collect();
    assert_eq!(found.len(), 1, "test_dir_entry_file_name: expected 1 file entry");
    assert_eq!(found[0].file_name(), Some("test_file.txt"), "test_dir_entry_file_name: file name mismatch");
    assert_eq!(found[0].path(), "entry_file_name/test_file.txt");
}

#[test]
fn dir_walk_module_test_entry_depth_values() {
    let fs = test_tree();
    for e in entries(walk_dir("root"), &fs).into_iter().filter(|e| e.is_file()) {
        match e.file_name() {
            Some("file1.txt") => assert_eq!(e.depth(), 0, "test_entry_depth_values: file1.txt should be depth 0"),
            Some("file2.txt") => assert_eq!(e.depth(), 1, "test_entry_depth_values: file2.txt should be depth 1"),
            Some("file3.txt") => assert_eq!(e.depth(), 2, "test_entry_depth_values: file3.txt should be depth 2"),
            Some("file4.txt") => assert_eq!(e.depth(), 1, "test_entry_depth_values: file4.txt should be depth 1"),
            other => panic!("test_entry_depth_values: unexpected file: {:?}", other),
        }
    }
}

#[test]
fn dir_walk_module_test_config_documentation_matches_behavior() {
    let mut fs = FakeFs::new();
    fs.dir("doc_match");
    for i in 0..100 {
        fs.dir(&format!("doc_match/dir_{}", i));
    }
    let config = WalkConfig::new().max_entries_per_dir(10).yield_directories(true);
    let dirs = entries(DirWalker::new("doc_match", config), &fs).into_iter().filter(|e| e.is_dir()).count();
    assert!(dirs <= 10, "Documentation claims limit bounds I/O, but {} dirs were yielded", dirs);
}

#[test]
fn dir_walk_module_test_queue_size_exceeded_strict_mode() {
    let mut fs = FakeFs::new();
    fs.dir("queue_overflow_strict");
    for i in 0..10 {
        fs.dir(&format!("queue_overflow_strict/sub_{:02}", i));
        fs.file(&format!("queue_overflow_strict/sub_{:02}/file.txt", i));
    }
    let config = WalkConfig::new().max_queue_size(2).continue_on_error(false).yield_directories(false);
    let (results, stats) = walk_all(DirWalker::new("queue_overflow_strict", config), &fs);
    let file_count = results.iter().filter(|r| matches!(r, Ok(e) if e.is_file())).count();
    assert!(file_count < 10, "Queue limit should prevent finding all files (found {}, expected < 10)", file_count);
    assert_eq!(results.len(), 1);
    assert!(matches!(results[0], Err(WalkError::QueueSizeExceeded)));
    assert_eq!(stats.opened, vec!["queue_overflow_strict".to_string()]);
}

#[test]
fn test_symlinks_not_followed_by_default() {
    let mut fs = FakeFs::new();
    fs.dir("base");
    fs.dir("base/walk_root");
    fs.dir("base/external_target");
    fs.file("base/external_target/file_in_target.txt");
    fs.link("base/walk_root/link_to_target", "base/external_target");
    let found = entries(walk_dir("base/walk_root"), &fs);
    let file_count = found.iter().filter(|e| e.is_file()).count();
    let symlink_count = found.iter().filter(|e| e.is_symlink()).count();
    assert_eq!(file_count, 0, "test_symlinks_not_followed: found {} files, expected 0", file_count);
    assert_eq!(symlink_count, 1, "test_symlinks_not_followed: found {} symlinks, expected 1", symlink_count);
    assert!(!found.iter().any(|e| e.file_name() == Some("file_in_target.txt")));
    assert!(!found[0].is_dir());
}

#[test]
fn test_symlink_cycle_detection() {
    let mut fs = FakeFs::new();
    fs.dir("symlink_cycle");
    fs.dir("symlink_cycle/a");
    fs.dir("symlink_cycle/b");
    fs.file("symlink_cycle/a/in_a.txt");
    fs.file("symlink_cycle/b/in_b.txt");
    fs.link("symlink_cycle/a/link_b", "symlink_cycle/b");
    fs.link("symlink_cycle/b/link_a", "symlink_cycle/a");
    let config = WalkConfig::new().follow_symlinks(true).continue_on_error(true);
    let found = entries(DirWalker::new("symlink_cycle", config), &fs);
    assert!(found.len() < 100, "test_symlink_cycle: should not loop infinitely (found {} entries)", found.len());
    // a, b, their files and links, then each real directory once more through
    // the link that leads to it; the links met there close the cycle.
    let files: Vec<_> = found.iter().filter(|e| e.is_file()).map(|e| e.path().to_string()).collect();
    assert_eq!(
        files,
        vec![
            "symlink_cycle/a/in_a.txt",
            "symlink_cycle/b/in_b.txt",
            "symlink_cycle/a/link_b/in_b.txt",
            "symlink_cycle/b/link_a/in_a.txt",
        ]
    );
}

#[test]
fn symlink_cycle_is_fatal_in_strict_mode() {
    let mut fs = FakeFs::new();
    fs.dir("c");
    fs.dir("c/a");
    fs.dir("c/b");
    fs.link("c/a/link_b", "c/b");
    fs.link("c/b/link_a", "c/a");
    let config = WalkConfig::new().follow_symlinks(true).continue_on_error(false);
    let (results, _) = walk_all(DirWalker::new("c", config), &fs);
    assert!(matches!(results.last(), Some(Err(WalkError::SymlinkCycle))));
    assert_eq!(results.iter().filter(|r| r.is_err()).count(), 1);
}

#[test]
fn test_broken_symlink_skip() {
    let mut fs = FakeFs::new();
    fs.dir("broken_symlink");
    fs.file("broken_symlink/valid_file.txt");
    fs.link("broken_symlink/broken_link", "absolutely/nonexistent/path");

    let config = WalkConfig::new().follow_symlinks(false).continue_on_error(true);
    let found = entries(DirWalker::new("broken_symlink", config), &fs);
    let symlink_count = found.iter().filter(|e| e.is_symlink()).count();
    let file_count = found.iter().filter(|e| e.is_file() && !e.is_symlink()).count();
    assert_eq!(file_count, 1, "test_broken_symlink: should find 1 valid file");
    assert_eq!(symlink_count, 1, "test_broken_symlink: should detect 1 symlink entry (even though broken)");

    let config_follow = WalkConfig::new().follow_symlinks(true).continue_on_error(true);
    let found_follow = entries(DirWalker::new("broken_symlink", config_follow), &fs);
    let file_count_follow = found_follow.iter().filter(|e| e.is_file()).count();
    assert_eq!(file_count_follow, 1, "test_broken_symlink: should find 1 valid file when following links");
    assert!(!found_follow.iter().any(|e| e.file_name() == Some("broken_link")));
}

#[test]
fn broken_symlink_is_fatal_in_strict_mode() {
    let mut fs = FakeFs::new();
    fs.dir("b");
    fs.link("b/broken_link", "nowhere");
    let config = WalkConfig::new().follow_symlinks(true).continue_on_error(false);
    let (results, _) = walk_all(DirWalker::new("b", config), &fs);
    assert_eq!(results.len(), 1);
    assert!(matches!(results[0], Err(WalkError::EntryMetadata)));
}

#[test]
fn test_symlink_to_file() {
    let mut fs = FakeFs::new();
    fs.dir("symlink_to_file");
    fs.file("symlink_to_file/target.txt");
    fs.link("symlink_to_file/link_to_file", "symlink_to_file/target.txt");
    let config = WalkConfig::new().follow_symlinks(true).continue_on_error(true);
    let found = entries(DirWalker::new("symlink_to_file", config), &fs);
    let link = found.iter().find(|e| e.is_symlink() && e.file_name() == Some("link_to_file"));
    assert!(link.is_some(), "test_symlink_to_file: symlink entry should be found");
    assert!(link.unwrap().is_file(), "test_symlink_to_file: symlink to file should report is_file() = true");
    assert!(!link.unwrap().is_dir());
}

#[test]
fn followed_symlink_to_directory_is_descended() {
    let mut fs = FakeFs::new();
    fs.dir("r");
    fs.dir("r/real");
    fs.file("r/real/inner.txt");
    fs.dir("outside");
    fs.file("outside/far.txt");
    fs.link("r/to_outside", "outside");
    let config = WalkConfig::new().follow_symlinks(true);
    let found = entries(DirWalker::new("r", config), &fs);
    let link = found.iter().find(|e| e.file_name() == Some("to_outside")).unwrap();
    assert!(link.is_dir() && link.is_symlink() && !link.is_file());
    let far = found.iter().find(|e| e.file_name() == Some("far.txt")).unwrap();
    assert_eq!(far.path(), "r/to_outside/far.txt");
    assert_eq!(far.depth(), 1);
}

#[test]
fn unreadable_entry_is_skipped_or_fatal() {
    let mut fs = FakeFs::new();
    fs.dir("u");
    fs.add("u/bad", Node::Unreadable);
    fs.file("u/good.txt");
    let found = entries(walk_dir("u"), &fs);
    assert_eq!(found.len(), 1);
    assert_eq!(found[0].file_name(), Some("good.txt"));

    let (results, _) = walk_all(DirWalker::new("u", WalkConfig::new().continue_on_error(false)), &fs);
    assert_eq!(results.len(), 1);
    assert!(matches!(results[0], Err(WalkError::EntryMetadata)));
}

#[test]
fn entry_limit_is_fatal_in_strict_mode_only_beyond_the_limit() {
    let mut fs = FakeFs::new();
    fs.dir("lim");
    for i in 0..3 {
        fs.file(&format!("lim/f{}", i));
    }
    let exact = WalkConfig::new().max_entries_per_dir(3).continue_on_error(false);
    let (results, _) = walk_all(DirWalker::new("lim", exact), &fs);
    assert_eq!(results.len(), 3);
    assert!(results.iter().all(|r| r.is_ok()));

    let short = WalkConfig::new().max_entries_per_dir(2).continue_on_error(false);
    let (results, _) = walk_all(DirWalker::new("lim", short), &fs);
    assert_eq!(results.len(), 1);
    assert!(matches!(results[0], Err(WalkError::EntryLimitExceeded)));
}

#[test]
fn huge_directory_is_read_only_up_to_the_limit() {
    let mut fs = FakeFs::new();
    fs.dir("huge");
    fs.add("huge/many", Node::HugeDir(10_000_000));
    let config = WalkConfig::new().max_entries_per_dir(10).yield_directories(false);
    let (results, stats) = walk_all(DirWalker::new("huge/many", config), &fs);
    assert!(results.is_empty());
    assert_eq!(stats.items_per_dir.get("huge/many"), Some(&10));
    // The ten subdirectories found are read in turn; nothing else is opened.
    assert_eq!(stats.opened.len(), 11);
}

#[test]
fn breadth_first_order() {
    let fs = test_tree();
    let paths: Vec<String> = entries(walk_dir("root"), &fs).iter().map(|e| e.path().to_string()).collect();
    assert_eq!(
        paths,
        vec![
            "root/dir1",
            "root/dir2",
            "root/file1.txt",
            "root/dir1/subdir1",
            "root/dir1/file2.txt",
            "root/dir2/file4.txt",
            "root/dir1/subdir1/file3.txt",
        ]
    );
}

#[test]
fn same_tree_in_another_order_gives_the_same_entries() {
    let fs = test_tree();
    let mut reversed = FakeFs::new();
    reversed.dir("root");
    reversed.file("root/file1.txt");
    reversed.dir("root/dir2");
    reversed.file("root/dir2/file4.txt");
    reversed.dir("root/dir1");
    reversed.file("root/dir1/file2.txt");
    reversed.dir("root/dir1/subdir1");
    reversed.file("root/dir1/subdir1/file3.txt");
    let key = |e: &DirEntry| (e.path().to_string(), e.depth(), e.is_dir(), e.is_file(), e.is_symlink());
    let mut first: Vec<_> = entries(walk_dir("root"), &fs).iter().map(key).collect();
    let mut second: Vec<_> = entries(walk_dir("root"), &reversed).iter().map(key).collect();
    let mut again: Vec<_> = entries(walk_dir("root"), &fs).iter().map(key).collect();
    assert_eq!(first, again);
    first.sort();
    second.sort();
    again.sort();
    assert_eq!(first, second);
    assert_eq!(first, again);
}

#[test]
fn max_queue_size_zero_reads_only_the_root() {
    let fs = test_tree();
    let (results, stats) = walk_all(DirWalker::new("root", WalkConfig::new().max_queue_size(0)), &fs);
    assert_eq!(stats.opened, vec!["root".to_string()]);
    assert_eq!(results.len(), 3);
}

#[test]
fn walker_accepts_only_the_answer_it_waits_for() {
    let mut walker = walk_dir("root");
    assert!(walker.accepts(&Event::Pull));
    assert!(!walker.accepts(&Event::Opened));
    match walker.step(Event::Pull) {
        Step::OpenDir(path) => assert_eq!(path, "root"),
        _ => panic!("the first pull opens the root"),
    }
    assert!(walker.accepts(&Event::Opened));
    assert!(walker.accepts(&Event::OpenFailed));
    assert!(!walker.accepts(&Event::Pull));
    assert!(matches!(walker.step(Event::Opened), Step::NextItem));
    assert!(matches!(walker.step(Event::NoMoreItems), Step::Finished));
    assert!(matches!(walker.step(Event::Pull), Step::Finished));
}

#[test]
fn dir_walk_module_test_limit_semantics_io_vs_yield() {
    let mut fs = FakeFs::new();
    fs.dir("limit_semantics");
    for i in 0..10 {
        fs.dir(&format!("limit_semantics/subdir_{:02}", i));
    }
    for i in 0..10 {
        fs.file(&format!("limit_semantics/file_{:02}.txt", i));
    }
    let config = WalkConfig::new().max_entries_per_dir(5).yield_directories(false).continue_on_error(true);
    let (results, stats) = walk_all(DirWalker::new("limit_semantics", config), &fs);
    // The limit bounds what is read, not what is handed out: the five items
    // read are the subdirectories listed first, so no file is reached.
    assert_eq!(stats.items_per_dir.get("limit_semantics"), Some(&5));
    assert_eq!(results.len(), 0);
}

#[test]
fn dir_walk_module_test_limit_prevents_unbounded_io() {
    let mut fs = FakeFs::new();
    fs.dir("unbounded_io_test");
    for i in 0..1000 {
        fs.dir(&format!("unbounded_io_test/subdir_{:04}", i));
    }
    let config = WalkConfig::new().max_entries_per_dir(10).yield_directories(false).continue_on_error(true);
    let (results, stats) = walk_all(DirWalker::new("unbounded_io_test", config), &fs);
    assert!(results.is_empty());
    assert_eq!(stats.items_per_dir.get("unbounded_io_test"), Some(&10));
    assert_eq!(stats.opened.len(), 11);
}

#[test]
fn dir_walk_module_test_queue_growth_with_limited_entries() {
    let mut fs = FakeFs::new();
    fs.dir("queue_growth");
    for i in 0..10 {
        fs.dir(&format!("queue_growth/L1_{}", i));
        for j in 0..10 {
            fs.dir(&format!("queue_growth/L1_{}/L2_{}", i, j));
            fs.file(&format!("queue_growth/L1_{}/L2_{}/file.txt", i, j));
        }
    }
    let config = WalkConfig::new()
        .max_entries_per_dir(5)
        .yield_directories(false)
        .max_queue_size(20)
        .continue_on_error(true);
    let files = entries(DirWalker::new("queue_growth", config), &fs);
    assert!(files.len() <= 30);
    // Five first-level directories are read; the queue then fills up at 20.
    assert_eq!(files.len(), 20);
    assert!(files.iter().all(|e| e.is_file() && e.depth() == 2));
}

#[test]
fn file_name_is_none_for_a_parent_component() {
    let mut fs = FakeFs::new();
    fs.dir("p");
    fs.file("p/..");
    fs.file("p/plain");
    let found = entries(walk_dir("p"), &fs);
    assert_eq!(found.len(), 2);
    assert_eq!(found[0].path(), "p/..");
    assert_eq!(found[0].file_name(), None);
    assert_eq!(found[1].file_name(), Some("plain"));
}
