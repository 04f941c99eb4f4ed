use dexy::aggregate::ScanResult;
use dexy::classify::{
    admit_file, classify_entries, scanned_file, Admission, DirEntry, EntryMeta, ScanOptions,
};
use dexy::digest::{digest_bytes, Digester};
use dexy::model::{FileType, ScannedFile};
use dexy::pool::{Action, Pool};
use std::collections::{BTreeMap, BTreeSet, HashMap};

/// What a listing finds under one name.
#[derive(Clone)]
enum Node {
    Dir,
    File(Vec<u8>),
    BrokenLink,
    Unreadable(u64),
}

/// A directory tree held in memory: for each listable directory its entries.
#[derive(Clone, Default)]
struct Tree {
    listings: HashMap<String, Vec<(String, Node)>>,
}

impl Tree {
    fn dir(mut self, path: &str, entries: Vec<(&str, Node)>) -> Tree {
        self.listings
            .insert(path.to_string(), entries.into_iter().map(|(n, e)| (n.to_string(), e)).collect());
        self
    }
}

fn text(content: &str) -> Node {
    Node::File(content.as_bytes().to_vec())
}

fn meta_of(node: &Node) -> Option<EntryMeta> {
    let size = match node {
        Node::File(content) => content.len() as u64,
        Node::Unreadable(size) => *size,
        Node::BrokenLink => return None,
        Node::Dir => 0,
    };
    Some(EntryMeta {
        size,
        created: Some(1),
        accessed: None,
        modified: Some(3),
        is_symlink: false,
        is_dir: false,
    })
}

/// Hashes a content in chunks of seven bytes, as a reader with a small
/// buffer would.
fn stream_digest(content: &[u8]) -> String {
    let mut digester = Digester::new();
    for chunk in content.chunks(7) {
        assert!(digester.update(chunk));
    }
    digester.finish()
}

/// What one worker does with the directory it was handed: the
/// subdirectories to publish and the files to record.
fn traverse(tree: &Tree, dir: &str, options: &ScanOptions) -> Option<(Vec<String>, Vec<ScannedFile>)> {
    let listing = tree.listings.get(dir)?;
    let nodes: HashMap<String, Node> =
        listing.iter().map(|(name, node)| (format!("{}/{}", dir, name), node.clone())).collect();
    let entries: Vec<DirEntry> = listing
        .iter()
        .map(|(name, node)| DirEntry {
            name: name.clone(),
            path: format!("{}/{}", dir, name),
            is_dir: matches!(node, Node::Dir),
        })
        .collect();
    let sorted = classify_entries(entries, options);
    let mut files = Vec::new();
    for path in sorted.candidates {
        let node = &nodes[&path];
        let meta = meta_of(node);
        if admit_file(meta.as_ref(), options) != Admission::Admit {
            continue;
        }
        if let Node::File(content) = node {
            files.push(scanned_file(stream_digest(content), path, &meta.unwrap(), options));
        }
    }
    Some((sorted.subdirectories, files))
}

/// Runs a scan with `workers` workers whose steps interleave as `pick`
/// decides, and returns the index with the number of steps taken.
fn scan_with(
    tree: &Tree,
    roots: &[&str],
    workers: usize,
    options: &ScanOptions,
    mut pick: impl FnMut(usize) -> usize,
) -> (ScanResult, Pool) {
    let mut pool = Pool::new(workers, roots.iter().map(|r| r.to_string()).collect());
    let mut result = ScanResult::new();
    let mut held: Vec<Option<String>> = vec![None; workers];
    let mut exited = vec![false; workers];
    let mut steps = 0usize;
    while exited.iter().any(|e| !e) {
        steps += 1;
        assert!(steps < 1_000_000, "the scan does not end");
        let worker = pick(steps) % workers;
        if exited[worker] {
            continue;
        }
        match held[worker].take() {
            Some(dir) => match traverse(tree, &dir, options) {
                Some((subdirs, files)) => {
                    result.record_all(files);
                    assert!(pool.complete(worker, subdirs));
                }
                None => {}
            },
            None => match pool.acquire(worker) {
                Action::Process(dir) => held[worker] = Some(dir),
                Action::Wait => {}
                Action::Exit => exited[worker] = true,
            },
        }
    }
    assert!(pool.is_quiescent());
    assert_eq!(pool.pending(), 0);
    (result, pool)
}

fn scan(tree: &Tree, roots: &[&str], workers: usize, options: &ScanOptions) -> ScanResult {
    scan_with(tree, roots, workers, options, |step| step).0
}

/// A schedule that jumps between workers without pattern.
fn erratic(seed: u64) -> impl FnMut(usize) -> usize {
    let mut state = seed.wrapping_mul(2862933555777941757).wrapping_add(3037000493);
    move |_| {
        state = state.wrapping_mul(6364136223846793005).wrapping_add(1442695040888963407);
        (state >> 33) as usize
    }
}

/// The index as a map from digest to the sorted paths under it.
fn summary(result: &ScanResult) -> BTreeMap<String, Vec<String>> {
    let mut out = BTreeMap::new();
    for position in 0..result.digest_count() {
        let mut paths: Vec<String> =
            result.files_at(position).iter().map(|f| f.path.clone()).collect();
        paths.sort();
        out.insert(result.digest_at(position).clone(), paths);
    }
    out
}

fn all_paths(result: &ScanResult) -> Vec<String> {
    let mut paths: Vec<String> = summary(result).into_values().flatten().collect();
    paths.sort();
    paths
}

fn hello_world_tree() -> Tree {
    Tree::default()
        .dir("/R", vec![("a.txt", text("hello")), ("d", Node::Dir)])
        .dir("/R/d", vec![("b.txt", text("hello")), ("c.txt", text("world"))])
}

/// A tree four levels deep in which every directory has five subdirectories
/// and two files; files with the same name have the same content.
fn bushy_tree() -> (Tree, Vec<String>) {
    let mut tree = Tree::default();
    let mut files = Vec::new();
    let mut level = vec!["/top".to_string()];
    for depth in 0..4 {
        let mut below = Vec::new();
        for dir in &level {
            let mut entries: Vec<(String, Node)> = Vec::new();
            for f in 0..2 {
                let name = format!("f{}", f);
                files.push(format!("{}/{}", dir, name));
                entries.push((name, Node::File(format!("content {} {}", depth, f).into_bytes())));
            }
            if depth < 3 {
                for c in 0..5 {
                    let name = format!("c{}", c);
                    below.push(format!("{}/{}", dir, name));
                    entries.push((name, Node::Dir));
                }
            }
            tree.listings.insert(dir.clone(), entries);
        }
        level = below;
    }
    files.sort();
    (tree, files)
}

#[test]
fn duplicate_content_across_directories_is_grouped_under_one_digest() {
    let result = scan(&hello_world_tree(), &["/R"], 1, &ScanOptions::default());
    let hello = digest_bytes(b"hello").unwrap();
    let world = digest_bytes(b"world").unwrap();
    assert_eq!(hello, "2cf24dba5fb0a30e26e83b2ac5b9e29e1b161e5c1fa7425e73043362938b9824");
    assert_eq!(world, "486ea46224d1bb4fb680f34f7c9ad96a8f24ec88be73ea8e5a6c65260e9cb8a7");
    assert_eq!(result.digest_count(), 2);
    let under_hello: Vec<&str> =
        result.get(&hello).unwrap().iter().map(|f| f.path.as_str()).collect();
    assert_eq!(under_hello, vec!["/R/a.txt", "/R/d/b.txt"]);
    let under_world: Vec<&str> =
        result.get(&world).unwrap().iter().map(|f| f.path.as_str()).collect();
    assert_eq!(under_world, vec!["/R/d/c.txt"]);
    for position in 0..result.digest_count() {
        for file in result.files_at(position) {
            assert_eq!(file.attributes, None);
        }
    }
}

#[test]
fn an_empty_tree_yields_an_empty_index() {
    let tree = Tree::default().dir("/R", Vec::new());
    for workers in 1..=4 {
        let result = scan(&tree, &["/R"], workers, &ScanOptions::default());
        assert!(result.is_empty());
        assert_eq!(result.digest_count(), 0);
    }
}

#[test]
fn a_tree_of_directories_without_files_yields_an_empty_index() {
    let tree = Tree::default()
        .dir("/R", vec![("a", Node::Dir), ("b", Node::Dir)])
        .dir("/R/a", vec![("c", Node::Dir)])
        .dir("/R/a/c", Vec::new())
        .dir("/R/b", Vec::new());
    let (result, pool) = scan_with(&tree, &["/R"], 3, &ScanOptions::default(), |s| s);
    assert!(result.is_empty());
    assert_eq!(pool.processed(), 4);
}

#[test]
fn every_file_is_indexed_exactly_once_for_any_worker_count() {
    let (tree, files) = bushy_tree();
    for workers in [1, 2, 3, 4, 7, 16, 200] {
        let (result, pool) = scan_with(&tree, &["/top"], workers, &ScanOptions::default(), |s| s);
        assert_eq!(all_paths(&result), files);
        assert_eq!(result.digest_count(), 8);
        assert_eq!(pool.processed(), 156);
    }
}

#[test]
fn every_file_is_indexed_exactly_once_for_any_interleaving() {
    let (tree, files) = bushy_tree();
    for seed in 0..20 {
        let workers = 1 + (seed as usize % 6);
        let (result, _) =
            scan_with(&tree, &["/top"], workers, &ScanOptions::default(), erratic(seed));
        assert_eq!(all_paths(&result), files);
    }
}

#[test]
fn a_deep_chain_is_traversed_to_the_bottom() {
    let mut tree = Tree::default();
    let mut path = "/deep".to_string();
    let mut expected = Vec::new();
    for level in 0..60 {
        expected.push(format!("{}/leaf", path));
        tree = tree.dir(&path, vec![("leaf", text(&format!("level {}", level))), ("next", Node::Dir)]);
        path = format!("{}/next", path);
    }
    tree = tree.dir(&path, Vec::new());
    expected.sort();
    for workers in [1, 5] {
        let result = scan(&tree, &["/deep"], workers, &ScanOptions::default());
        assert_eq!(all_paths(&result), expected);
        assert_eq!(result.digest_count(), 60);
    }
}

#[test]
fn scanning_twice_gives_the_same_index() {
    let (tree, _) = bushy_tree();
    let first = scan_with(&tree, &["/top"], 4, &ScanOptions::default(), erratic(1)).0;
    let second = scan_with(&tree, &["/top"], 4, &ScanOptions::default(), erratic(2)).0;
    let third = scan(&tree, &["/top"], 1, &ScanOptions::default());
    assert_eq!(summary(&first), summary(&second));
    assert_eq!(summary(&first), summary(&third));
    let keys: BTreeSet<String> = summary(&first).into_keys().collect();
    assert_eq!(keys.len(), first.digest_count());
}

#[test]
fn several_start_directories_are_all_scanned() {
    let tree = Tree::default()
        .dir("/one", vec![("a", text("1"))])
        .dir("/two", vec![("b", text("2")), ("sub", Node::Dir)])
        .dir("/two/sub", vec![("c", text("1"))]);
    let result = scan(&tree, &["/one", "/two"], 2, &ScanOptions::default());
    assert_eq!(all_paths(&result), vec!["/one/a", "/two/b", "/two/sub/c"]);
    let ones = digest_bytes(b"1").unwrap();
    assert_eq!(summary(&result)[&ones], vec!["/one/a", "/two/sub/c"]);
}

fn tree_with_hidden_entries() -> Tree {
    Tree::default()
        .dir(
            "/R",
            vec![
                ("seen.txt", text("seen")),
                (".hidden.txt", text("hidden file")),
                (".git", Node::Dir),
                ("src", Node::Dir),
            ],
        )
        .dir("/R/.git", vec![("config", text("inside hidden dir"))])
        .dir("/R/src", vec![("main.rs", text("fn main")), (".env", text("secret"))])
}

#[test]
fn hidden_files_and_directories_are_excluded_by_default() {
    let result = scan(&tree_with_hidden_entries(), &["/R"], 2, &ScanOptions::default());
    assert_eq!(all_paths(&result), vec!["/R/seen.txt", "/R/src/main.rs"]);
}

#[test]
fn hidden_files_and_directories_are_included_on_request() {
    let options =
        ScanOptions { ignore_empty: false, include_hidden: true, load_file_attributes: false };
    let result = scan(&tree_with_hidden_entries(), &["/R"], 2, &options);
    assert_eq!(
        all_paths(&result),
        vec!["/R/.git/config", "/R/.hidden.txt", "/R/seen.txt", "/R/src/.env", "/R/src/main.rs"]
    );
}

#[test]
fn empty_files_are_indexed_under_the_digest_of_nothing_by_default() {
    let tree = Tree::default().dir("/R", vec![("empty", text("")), ("also", text("")), ("full", text("x"))]);
    let result = scan(&tree, &["/R"], 1, &ScanOptions::default());
    let nothing = "e3b0c44298fc1c149afbf4c8996fb92427ae41e4649b934ca495991b7852b855";
    assert_eq!(result.digest_count(), 2);
    assert_eq!(summary(&result)[nothing], vec!["/R/also", "/R/empty"]);
}

#[test]
fn empty_files_are_left_out_when_ignored() {
    let tree = Tree::default().dir("/R", vec![("empty", text("")), ("full", text("x"))]);
    let options =
        ScanOptions { ignore_empty: true, include_hidden: false, load_file_attributes: false };
    let result = scan(&tree, &["/R"], 1, &options);
    assert_eq!(all_paths(&result), vec!["/R/full"]);
    assert_eq!(result.digest_count(), 1);
}

#[test]
fn a_broken_link_is_skipped_and_its_siblings_are_indexed() {
    let tree = Tree::default()
        .dir(
            "/R",
            vec![("before", text("1")), ("dangling", Node::BrokenLink), ("after", text("2")), ("d", Node::Dir)],
        )
        .dir("/R/d", vec![("below", text("3"))]);
    let result = scan(&tree, &["/R"], 2, &ScanOptions::default());
    assert_eq!(all_paths(&result), vec!["/R/after", "/R/before", "/R/d/below"]);
}

#[test]
fn an_unreadable_file_is_skipped_and_its_siblings_are_indexed() {
    let tree = Tree::default().dir(
        "/R",
        vec![("locked", Node::Unreadable(12)), ("open", text("readable"))],
    );
    let result = scan(&tree, &["/R"], 1, &ScanOptions::default());
    assert_eq!(all_paths(&result), vec!["/R/open"]);
}

#[test]
fn an_unlistable_directory_is_skipped_and_the_scan_goes_on() {
    // "/R/locked" is a directory that has no listing.
    let tree = Tree::default()
        .dir("/R", vec![("locked", Node::Dir), ("open", Node::Dir), ("top", text("t"))])
        .dir("/R/open", vec![("inner", text("i"))]);
    for workers in 1..=3 {
        let (result, pool) = scan_with(&tree, &["/R"], workers, &ScanOptions::default(), |s| s);
        assert_eq!(all_paths(&result), vec!["/R/open/inner", "/R/top"]);
        assert_eq!(pool.processed(), 2);
    }
}

#[test]
fn attributes_are_attached_when_collected() {
    let options =
        ScanOptions { ignore_empty: false, include_hidden: false, load_file_attributes: true };
    let result = scan(&hello_world_tree(), &["/R"], 1, &options);
    let world = digest_bytes(b"world").unwrap();
    let file = &result.get(&world).unwrap()[0];
    let attributes = file.attributes.unwrap();
    assert_eq!(attributes.size, 5);
    assert_eq!(attributes.created_date, 1);
    assert_eq!(attributes.accessed_date, -1);
    assert_eq!(attributes.edit_date, 3);
    assert_eq!(attributes.file_type, FileType::File);
}
