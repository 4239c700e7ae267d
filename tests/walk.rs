use filestats::dirutils::{read_dir, read_path, visit, FileSize, Kind, Listed, PathBit, Record, Status, Step};
use std::collections::BTreeMap;
use std::io::{Error as IoError, ErrorKind};

/// A directory tree held in memory, keyed by path.
enum Node {
    File(u64),
    Dir(Vec<String>),
    Link,
    /// An entry whose status lookup fails.
    Unreadable,
    /// A directory that cannot be listed.
    Locked,
}

#[derive(Default)]
struct Tree {
    nodes: BTreeMap<String, Node>,
}

impl Tree {
    fn add(&mut self, path: &str, node: Node) {
        if let Some((parent, _)) = path.rsplit_once('/') {
            if let Some(Node::Dir(children)) = self.nodes.get_mut(parent) {
                children.push(path.to_string());
            }
        }
        self.nodes.insert(path.to_string(), node);
    }

    fn dir(&mut self, path: &str) {
        self.add(path, Node::Dir(Vec::new()));
    }

    fn file(&mut self, path: &str, size: u64) {
        self.add(path, Node::File(size));
    }

    fn status(&self, path: &str) -> Status {
        match self.nodes.get(path) {
            Some(Node::File(size)) => Ok(Kind::File(*size)),
            Some(Node::Dir(_)) | Some(Node::Locked) => Ok(Kind::Dir),
            Some(Node::Link) => Ok(Kind::Other),
            Some(Node::Unreadable) => Err(IoError::from(ErrorKind::PermissionDenied)),
            None => Err(IoError::from(ErrorKind::NotFound)),
        }
    }

    fn listing(&self, path: &str) -> Result<Vec<Listed>, IoError> {
        match self.nodes.get(path) {
            Some(Node::Dir(children)) => Ok(children
                .iter()
                .map(|child| Ok((child.clone(), self.status(child))))
                .collect()),
            Some(Node::Locked) => Err(IoError::from(ErrorKind::PermissionDenied)),
            _ => Err(IoError::from(ErrorKind::NotFound)),
        }
    }

    fn walk(&self, root: &str, max_depth: Option<u32>, max_parallel: Option<u32>) -> Vec<Record> {
        let mut traversal = visit(root.to_string(), self.status(root), max_depth, max_parallel);
        let mut records = Vec::new();
        loop {
            match traversal.next() {
                Step::Yield(record) => records.push(record),
                Step::Done => return records,
                Step::Expand(batch) => {
                    let mut bits = Vec::new();
                    for (dir, depth) in batch {
                        bits.extend(read_dir(&dir, depth, self.listing(&dir)));
                    }
                    traversal.merge(bits);
                }
            }
        }
    }

    /// Creates `files` in a new directory `name` under `parent`, and returns
    /// the new directory's path.
    fn new_dir_with_files(&mut self, files: &mut [FileSize], parent: &str, name: &str) -> String {
        let dir = format!("{}/{}", parent, name);
        self.dir(&dir);
        for f in files.iter_mut() {
            f.path = format!("{}/{}", dir, f.path);
            self.file(&f.path, f.size);
        }
        dir
    }
}

fn sizes(records: Vec<Record>) -> Vec<FileSize> {
    let mut sizes: Vec<FileSize> = records.into_iter().map(|r| r.ok().unwrap()).collect();
    sizes.sort();
    sizes
}

fn tmp_tree() -> Tree {
    let mut tree = Tree::default();
    tree.dir("tmp");
    tree
}

fn list_files(max_parallel: Option<u32>) {
    let mut test_files = [
        FileSize::from(("foo", 100)),
        FileSize::from(("boo", 200)),
        FileSize::from(("goo", 300)),
    ];
    let mut tree = tmp_tree();
    let test_dir = tree.new_dir_with_files(&mut test_files, "tmp", "3141");

    let dir_list = sizes(tree.walk(&test_dir, None, max_parallel));
    test_files.sort();

    assert_eq!(dir_list, test_files);
}

fn list_files_recursively(max_parallel: Option<u32>) {
    let mut test_files = [
        FileSize::from(("foo", 100)),
        FileSize::from(("boo", 200)),
        FileSize::from(("goo", 300)),
    ];
    let mut tree = tmp_tree();
    let test_dir = tree.new_dir_with_files(&mut test_files, "tmp", "2718");

    let mut test_files_sub_dir = [
        FileSize::from(("abc", 340)),
        FileSize::from(("def", 50)),
        FileSize::from(("ghi", 2)),
    ];
    tree.new_dir_with_files(&mut test_files_sub_dir, &test_dir, "1618");

    let dir_list = sizes(tree.walk(&test_dir, None, max_parallel));

    let mut expected = [test_files, test_files_sub_dir].concat();
    expected.sort();

    assert_eq!(dir_list, expected);
}

/// Five nested levels, three files each; returns the top directory.
fn nested_levels(tree: &mut Tree) -> String {
    let test_files = [
        FileSize::from(("foo", 100)),
        FileSize::from(("boo", 200)),
        FileSize::from(("goo", 300)),
    ];
    let mut dir = String::from("tmp");
    let mut topdir = String::new();
    for level in 0..=4 {
        dir = tree.new_dir_with_files(&mut test_files.clone(), &dir, &format!("{}", 100 + level));
        if level == 0 {
            topdir = dir.clone();
        }
    }
    topdir
}

fn limit_depth(max_parallel: Option<u32>) {
    let mut tree = tmp_tree();
    let topdir = nested_levels(&mut tree);

    assert_eq!(
        tree.walk(&topdir, Some(3), max_parallel)
            .into_iter()
            .map(|r| r.unwrap())
            .count(),
        12 // 4 levels (0..=3) with 3 files each
    );
}

fn file_as_input_path(max_parallel: Option<u32>) {
    let mut test_file = [FileSize::from(("foo", 200))];
    let mut tree = tmp_tree();
    tree.new_dir_with_files(&mut test_file, "tmp", "4242");

    let size_entries: Vec<FileSize> = tree
        .walk(&test_file[0].path, None, max_parallel)
        .into_iter()
        .map(|r| r.unwrap())
        .collect();

    assert_eq!(size_entries, test_file);
}

fn nonexistent_path(max_parallel: Option<u32>) {
    let tree = tmp_tree();
    let path = format!("{}", 2_868_123_913u32);

    let result = tree.walk(&path, None, max_parallel).into_iter().next().unwrap();

    assert!(result.is_err());

    assert_eq!(result.err().unwrap().path, path);
}

#[test]
fn dirutils_can_list_files() {
    list_files(Some(1));
}

#[test]
fn tests_can_list_files() {
    list_files(None);
}

#[test]
fn dirutils_can_list_files_recursively() {
    list_files_recursively(Some(1));
}

#[test]
fn tests_can_list_files_recursively() {
    list_files_recursively(None);
}

#[test]
fn dirutils_can_limit_depth() {
    limit_depth(Some(1));
}

#[test]
fn tests_can_limit_depth() {
    limit_depth(None);
}

#[test]
fn dirutils_accepts_file_as_input_path() {
    file_as_input_path(Some(1));
}

#[test]
fn tests_accepts_file_as_input_path() {
    file_as_input_path(None);
}

#[test]
fn dirutils_accepts_nonexistent_paths() {
    nonexistent_path(Some(1));
}

#[test]
fn tests_accepts_nonexistent_paths() {
    nonexistent_path(None);
}

#[test]
fn depth_four_files_never_appear() {
    let mut tree = tmp_tree();
    let topdir = nested_levels(&mut tree);
    let found = sizes(tree.walk(&topdir, Some(3), Some(2)));
    assert_eq!(found.len(), 12);
    assert!(found.iter().all(|f| !f.path.contains("/104/")));
    assert_eq!(sizes(tree.walk(&topdir, None, Some(2))).len(), 15);
}

#[test]
fn depth_zero_reads_only_the_root() {
    let mut tree = tmp_tree();
    let topdir = nested_levels(&mut tree);
    let found = sizes(tree.walk(&topdir, Some(0), None));
    assert_eq!(found.len(), 3);
    assert!(found.iter().all(|f| f.path.matches('/').count() == 2));
}

#[test]
fn unreadable_entry_leaves_siblings() {
    let mut tree = tmp_tree();
    tree.dir("tmp/d");
    tree.file("tmp/d/foo", 100);
    tree.add("tmp/d/secret", Node::Unreadable);
    tree.file("tmp/d/boo", 200);
    tree.file("tmp/d/goo", 300);

    let records = tree.walk("tmp/d", None, None);
    let failures: Vec<String> = records
        .iter()
        .filter_map(|r| r.as_ref().err().map(|e| e.path.clone()))
        .collect();
    assert_eq!(failures, vec![String::from("tmp/d/secret")]);
    let found: Vec<u64> = {
        let mut found: Vec<u64> = records.iter().filter_map(|r| r.as_ref().ok().map(|f| f.size)).collect();
        found.sort();
        found
    };
    assert_eq!(found, vec![100, 200, 300]);
}

#[test]
fn unlistable_directory_is_one_failure() {
    let mut tree = tmp_tree();
    tree.dir("tmp/d");
    tree.file("tmp/d/foo", 100);
    tree.add("tmp/d/locked", Node::Locked);
    let records = tree.walk("tmp/d", None, None);
    assert_eq!(records.len(), 2);
    assert_eq!(records[0].as_ref().unwrap().size, 100);
    let failure = records[1].as_ref().err().unwrap();
    assert_eq!(failure.path, "tmp/d/locked");
    assert_eq!(failure.io_error.kind(), ErrorKind::PermissionDenied);
}

#[test]
fn links_are_passed_over_without_stopping_siblings() {
    let mut tree = tmp_tree();
    tree.dir("tmp/d");
    tree.add("tmp/d/broken_link", Node::Link);
    tree.file("tmp/d/foo", 100);
    let records = tree.walk("tmp/d", None, None);
    assert_eq!(sizes(records), vec![FileSize::from(("tmp/d/foo", 100))]);
    assert!(tree.walk("tmp/d/broken_link", None, None).is_empty());
}

#[test]
fn two_walks_give_the_same_sizes() {
    let mut tree = tmp_tree();
    let topdir = nested_levels(&mut tree);
    assert_eq!(sizes(tree.walk(&topdir, None, Some(1))), sizes(tree.walk(&topdir, None, None)));
    assert_eq!(sizes(tree.walk(&topdir, Some(2), Some(3))), sizes(tree.walk(&topdir, Some(2), Some(3))));
}

#[test]
fn rounds_are_handed_out_level_by_level() {
    let mut tree = tmp_tree();
    let topdir = nested_levels(&mut tree);
    let depths: Vec<usize> = tree
        .walk(&topdir, None, None)
        .into_iter()
        .map(|r| r.unwrap().path.matches('/').count())
        .collect();
    let mut sorted = depths.clone();
    sorted.sort();
    assert_eq!(depths, sorted);
}

#[test]
fn round_takes_at_most_the_parallel_bound() {
    let mut tree = tmp_tree();
    tree.dir("tmp/d");
    for name in ["a", "b", "c"] {
        tree.dir(&format!("tmp/d/{}", name));
    }
    let mut traversal = visit(String::from("tmp/d"), tree.status("tmp/d"), None, Some(2));
    match traversal.next() {
        Step::Expand(batch) => {
            assert_eq!(batch, vec![(String::from("tmp/d"), 0)]);
            traversal.merge(read_dir(&batch[0].0, 0, tree.listing("tmp/d")));
        }
        _ => panic!("expected a round"),
    }
    match traversal.next() {
        Step::Expand(batch) => assert_eq!(
            batch,
            vec![(String::from("tmp/d/a"), 1), (String::from("tmp/d/b"), 1)]
        ),
        _ => panic!("expected a round"),
    }
    match traversal.next() {
        Step::Expand(batch) => assert_eq!(batch, vec![(String::from("tmp/d/c"), 1)]),
        _ => panic!("expected a round"),
    }
    assert!(matches!(traversal.next(), Step::Done));
}

#[test]
fn read_path_classifies_status() {
    assert!(matches!(
        read_path(String::from("f"), 4, Ok(Kind::File(9))),
        Some(PathBit::Result(Ok(FileSize { size: 9, .. })))
    ));
    assert!(matches!(
        read_path(String::from("d"), 4, Ok(Kind::Dir)),
        Some(PathBit::Dir((_, 5)))
    ));
    assert!(read_path(String::from("l"), 4, Ok(Kind::Other)).is_none());
    match read_path(String::from("x"), 0, Err(IoError::from(ErrorKind::NotFound))) {
        Some(PathBit::Result(Err(e))) => assert_eq!(e.path, "x"),
        _ => panic!("expected a failure"),
    }
}

#[test]
fn entry_read_error_is_failure_on_directory() {
    let listing: Vec<Listed> = vec![
        Err(IoError::from(ErrorKind::Other)),
        Ok((String::from("d/a"), Ok(Kind::File(1)))),
    ];
    let bits = read_dir(&String::from("d"), 0, Ok(listing));
    assert_eq!(bits.len(), 2);
    match &bits[0] {
        PathBit::Result(Err(e)) => assert_eq!(e.path, "d"),
        _ => panic!("expected a failure"),
    }
}
