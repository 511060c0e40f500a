//! Listing and fixture tests over an in-memory history: each fixture block is one commit,
//! whose tree holds every file added so far and not removed, with the blob content
//! `"{date}:{path}"` (here the content itself serves as the object id).

use std::collections::BTreeMap;

use cycledit::day::Day;
use cycledit::fixture::{diff_ops, parse_fixture, render_block, OpKind};
use cycledit::git::{
    DateScan, EntryKind, IncludeExcludeCollector, Metrics, RemainingFilteredCollector, TreeEntry,
    TreeVisitor, TreeWalk,
};
use cycledit::pathmap::PathMap;
use cycledit::report::list_line;

type Tree = BTreeMap<String, Vec<u8>>;

struct Commit {
    date: Day,
    tree: Tree,
}

/// The commits that the fixture describes, oldest first.
fn history(fixture: &str) -> Vec<Commit> {
    let blocks = parse_fixture(fixture).expect("valid fixture");
    let mut tree = Tree::new();
    let mut commits = Vec::new();
    for block in &blocks {
        for op in &block.ops {
            match op.kind {
                OpKind::Add => {
                    let content = format!("{}:{}", block.date, op.path);
                    tree.insert(op.path.clone(), content.into_bytes());
                }
                OpKind::Remove => {
                    tree.remove(&op.path);
                }
            }
        }
        let date = Day::from_text(&block.date).expect("valid date");
        commits.push(Commit { date, tree: tree.clone() });
    }
    commits
}

fn to_map(tree: &Tree) -> PathMap<Vec<u8>> {
    let mut m = PathMap::new();
    for (path, blob) in tree {
        m.insert(path.clone(), blob.clone());
    }
    m
}

/// The fixture text of the history, as `dump_fixture_string` writes it.
fn dump(commits: &[Commit]) -> String {
    let mut out = String::new();
    let empty = Tree::new();
    for (i, commit) in commits.iter().enumerate() {
        let parent = if i == 0 { &empty } else { &commits[i - 1].tree };
        let ops = diff_ops(&to_map(&commit.tree), &to_map(parent));
        out.push_str(&render_block(commit.date, &ops));
    }
    out
}

/// The entries of the directory `prefix` of `tree`: its files, then its subdirectories
/// (whose object id is their path).
fn children(tree: &Tree, prefix: &str) -> Vec<TreeEntry> {
    let mut files = Vec::new();
    let mut dirs: Vec<String> = Vec::new();
    for (path, blob) in tree {
        let rest = if prefix.is_empty() {
            path.as_str()
        } else if let Some(rest) = path.strip_prefix(&format!("{prefix}/")) {
            rest
        } else {
            continue;
        };
        match rest.split_once('/') {
            None => files.push(TreeEntry {
                name: rest.to_string(),
                kind: EntryKind::Blob,
                object_id: blob.clone(),
            }),
            Some((dir, _)) => {
                if !dirs.iter().any(|d| d == dir) {
                    dirs.push(dir.to_string());
                }
            }
        }
    }
    for dir in dirs {
        let full = if prefix.is_empty() { dir.clone() } else { format!("{prefix}/{dir}") };
        files.push(TreeEntry { name: dir, kind: EntryKind::Tree, object_id: full.into_bytes() });
    }
    files
}

/// Walks `tree` from its root, as the repository walk does, reading each queued directory.
fn walk(tree: &Tree, visitor: &mut impl TreeVisitor, metrics: &mut Metrics) {
    let mut walk = TreeWalk::new(Vec::new());
    while let Some((prefix, _tree_id)) = walk.next_tree() {
        metrics.inc_find_object();
        let entries = children(tree, &prefix);
        if walk.visit_entries(&prefix, &entries, visitor, metrics) {
            break;
        }
    }
}

/// The blobs of the first parent of `commits[index]` among the paths still to date, counting
/// the parent commit's read: nothing for the root commit.
fn parent_blobs(commits: &[Commit], index: usize, scan: &DateScan, metrics: &mut Metrics) -> PathMap<Vec<u8>> {
    if index == 0 {
        return PathMap::new();
    }
    metrics.inc_find_object();
    let mut c = RemainingFilteredCollector::new(scan.remaining());
    walk(&commits[index - 1].tree, &mut c, metrics);
    c.into_map()
}

/// The listing of the history and the line of walk metrics, as `list_files` computes them:
/// newest commit first, reading each commit, walking its tree and its parent's tree, until
/// every file chosen at `HEAD` has its date.
fn list_with_metrics(commits: &[Commit], pathspecs: &[String], excludes: &[String]) -> (String, String) {
    let mut metrics = Metrics::new();
    let mut index = commits.len() - 1;
    metrics.inc_find_object();
    let mut collector = IncludeExcludeCollector::new(pathspecs, excludes);
    walk(&commits[index].tree, &mut collector, &mut metrics);
    let head_filtered = collector.into_map();
    let mut scan = DateScan::new(&head_filtered);
    let parent = parent_blobs(commits, index, &scan, &mut metrics);
    scan.record_commit(&head_filtered, &parent, commits[index].date);
    while index > 0 && !scan.is_done() {
        index -= 1;
        metrics.inc_find_object();
        let mut c = RemainingFilteredCollector::new(scan.remaining());
        walk(&commits[index].tree, &mut c, &mut metrics);
        let current = c.into_map();
        let parent = parent_blobs(commits, index, &scan, &mut metrics);
        scan.record_commit(&current, &parent, commits[index].date);
    }
    let mut out = String::new();
    for entry in scan.into_entries() {
        out.push_str(&list_line(&entry));
        out.push('\n');
    }
    (out, metrics.to_text())
}

/// The listing of the history, as `list_files` computes it.
fn list(commits: &[Commit], pathspecs: &[String], excludes: &[String]) -> String {
    list_with_metrics(commits, pathspecs, excludes).0
}

#[test]
fn init_git_commits_once_per_date_block() {
    // Three files in one date block must produce exactly one commit.
    let blocks = parse_fixture(
        "
        2001-05-22:
        +file1.txt
        +file2.txt
        +file3.txt
        ",
    )
    .expect("valid fixture");
    assert_eq!(blocks.len(), 1);
    assert_eq!(blocks[0].date, "2001-05-22");
    assert_eq!(blocks[0].ops.len(), 3);
}

#[test]
fn list_single_file() {
    let commits = history(
        "
            2001-05-22:
            +root-file.txt
            ",
    );
    assert_eq!(list(&commits, &[], &[]), "2001-05-22 root-file.txt\n");
}

#[test]
fn list_multiple_sorted_lexicographically() {
    let commits = history(
        "
            2001-05-22:
            +folder1/file.txt
            +aaa.txt
            +zzz.txt
            ",
    );
    assert_eq!(
        list(&commits, &[], &[]),
        "2001-05-22 aaa.txt\n2001-05-22 folder1/file.txt\n2001-05-22 zzz.txt\n"
    );
}

#[test]
fn list_pathspec_filter() {
    let commits = history(
        "
            2001-05-22:
            +file1.txt
            +file2.txt
            +other.md
            ",
    );
    assert_eq!(
        list(&commits, &["*.txt".to_string()], &[]),
        "2001-05-22 file1.txt\n2001-05-22 file2.txt\n"
    );
}

#[test]
fn list_exclude_filter() {
    let commits = history(
        "
            2001-05-22:
            +file1.txt
            +file2.txt
            +other.md
            ",
    );
    assert_eq!(
        list(&commits, &[], &["*.md".to_string()]),
        "2001-05-22 file1.txt\n2001-05-22 file2.txt\n"
    );
}

#[test]
fn round_trip_subdirectory() {
    let fixture = "
2024-06-01:
+README.md
+src/main.rs
+src/util/helper.rs
";
    let commits = history(fixture);
    let dumped = dump(&commits);
    assert_eq!(dumped, fixture);
    assert_eq!(
        list(&history(&dumped), &[], &[]),
        "2024-06-01 README.md\n2024-06-01 src/main.rs\n2024-06-01 src/util/helper.rs\n"
    );
}

#[test]
fn round_trip_single_add() {
    let fixture = "
2024-01-15:
+foo.txt
";
    let commits = history(fixture);
    let dumped = dump(&commits);
    assert_eq!(dumped, fixture);
    assert_eq!(list(&history(&dumped), &[], &[]), "2024-01-15 foo.txt\n");
}

#[test]
fn round_trip_add_and_remove() {
    let fixture = "
2024-01-15:
+foo.txt

2024-03-20:
+bar.txt
-foo.txt
";
    let commits = history(fixture);
    let dumped = dump(&commits);
    assert_eq!(dumped, fixture);
    let again = history(&dumped);
    assert_eq!(again.len(), 2);
    assert_eq!(list(&again, &[], &[]), "2024-03-20 bar.txt\n");
}

#[test]
fn round_trip_multiple_files() {
    let fixture = "
2024-01-15:
+aaa.txt
+mmm.txt
+zzz.txt

2024-03-20:
+aaa2.txt
+bbb.txt
";
    let commits = history(fixture);
    let dumped = dump(&commits);
    assert_eq!(dumped, fixture);
    let again = history(&dumped);
    assert_eq!(again.len(), 2);
    assert_eq!(
        list(&again, &[], &[]),
        "2024-01-15 aaa.txt\n2024-03-20 aaa2.txt\n2024-03-20 bbb.txt\n2024-01-15 mmm.txt\n2024-01-15 zzz.txt\n"
    );
}

#[test]
fn list_dates_each_file_by_its_newest_change() {
    let commits = history(
        "
        2024-01-01:
        +a.txt
        +dir/b.txt
        +gone.txt

        2024-02-01:
        +a.txt

        2024-03-01:
        +c.txt
        -gone.txt
        ",
    );
    assert_eq!(
        list(&commits, &[], &[]),
        "2024-02-01 a.txt\n2024-03-01 c.txt\n2024-01-01 dir/b.txt\n"
    );
    assert_eq!(
        dump(&commits),
        "\n2024-01-01:\n+a.txt\n+dir/b.txt\n+gone.txt\n\n2024-02-01:\n+a.txt\n\n2024-03-01:\n+c.txt\n-gone.txt\n"
    );
}

// ---------------------------------------------------------------------------- walk metrics

/// A history spread over many commits: `trash/` is created and then deleted, and only
/// `keep/` is left at `HEAD`.
const METRICS_FIXTURE: &str = "
2024-01-01:
+trash/a.txt
+trash/b.txt
+trash/c.txt
+trash/d.txt
+trash/e.txt

2024-02-01:
+trash/f.txt
-trash/a.txt
-trash/b.txt

2024-03-01:
-trash/c.txt
-trash/d.txt
-trash/e.txt
-trash/f.txt

2024-04-01:
+keep/file1.txt
+keep/file2.txt
+keep/file3.txt

2024-05-01:
+keep/file4.txt
+keep/file5.txt
";

/// One block of a generated history: chains of nested directories, in each directory of a
/// chain but its top one the files `{name}0` to `{name}{count}` (added or removed), and
/// single paths.
struct Block<'a> {
    date: &'a str,
    chains: Vec<Vec<String>>,
    files_in_each_dir: Vec<(char, &'a str, u32)>,
    paths: Vec<(char, String)>,
}

fn fixture_text(blocks: &[Block]) -> String {
    let mut out = String::new();
    for block in blocks {
        out.push_str(&format!("{}:\n", block.date));
        for chain in &block.chains {
            let full = chain.join("/");
            let mut dir = full.as_str();
            while let Some((parent, _)) = dir.rsplit_once('/') {
                for &(op, name, count) in &block.files_in_each_dir {
                    for i in 0..=count {
                        out.push_str(&format!("{op}{dir}/{name}{i}\n"));
                    }
                }
                dir = parent;
            }
        }
        for (op, path) in &block.paths {
            out.push_str(&format!("{op}{path}\n"));
        }
        out.push('\n');
    }
    out
}

fn prefixed(prefix: &str, items: impl Iterator<Item = String>) -> Vec<String> {
    items.map(|item| format!("{prefix}{item}")).collect()
}

fn strings(items: &[&str]) -> Vec<String> {
    items.iter().map(|s| s.to_string()).collect()
}

#[test]
fn metrics_baseline() {
    let commits = history(METRICS_FIXTURE);
    let (_, metrics) = list_with_metrics(&commits, &[], &[]);
    assert_eq!(metrics, "metrics: find_object_calls=11, visited_dirs=3, visited_files=11");
}

#[test]
fn metrics_high_depth() {
    let numbers = prefixed("folder_", (0..50).map(|n| n.to_string()));
    let blocks = [Block {
        date: "2025-06-24",
        chains: vec![numbers, strings(&["other", "tree"])],
        files_in_each_dir: vec![('+', "f", 1)],
        paths: vec![('+', "regular1.txt".to_string()), ('+', "zzz/another_regular.txt".to_string())],
    }];
    let commits = history(&fixture_text(&blocks));

    let (stdout_1, metrics) = list_with_metrics(&commits, &strings(&["regular1.txt", "zzz/*"]), &[]);
    assert_eq!(metrics, "metrics: find_object_calls=55, visited_dirs=53, visited_files=102");
    assert_eq!(stdout_1, "2025-06-24 regular1.txt\n2025-06-24 zzz/another_regular.txt\n");

    let (stdout, metrics) = list_with_metrics(&commits, &[], &strings(&["folder_*", "other*"]));
    assert_eq!(metrics, "metrics: find_object_calls=3, visited_dirs=1, visited_files=2");
    assert_eq!(stdout_1, stdout);
}

#[test]
fn metrics_wide_breadth() {
    let letters = prefixed("folder_", ('a'..='g').map(|c| c.to_string()));
    let numbers = prefixed("folder_", (1..=5).map(|n| n.to_string()));
    let mixed: Vec<String> = (0..40).map(|n| format!("mixed_{n}")).collect();
    let forest: Vec<Vec<String>> = letters
        .iter()
        .chain(numbers.iter())
        .chain(mixed.iter())
        .map(|first| vec![first.clone(), "tree".to_string()])
        .collect();
    let blocks = [
        Block {
            date: "2025-01-01",
            chains: forest,
            files_in_each_dir: vec![('+', "f", 2)],
            paths: vec![
                ('+', "distraction.txt".to_string()),
                ('+', "another/distraction.txt".to_string()),
            ],
        },
        Block {
            date: "2025-01-02",
            chains: vec![letters, numbers],
            files_in_each_dir: vec![('+', "f", 1)],
            paths: vec![
                ('+', "mix_valid_24/plausible_tree/regular1.txt".to_string()),
                ('+', "zzz/another_regular.txt".to_string()),
            ],
        },
    ];
    let commits = history(&fixture_text(&blocks));

    let (stdout_1, metrics) = list_with_metrics(&commits, &strings(&["regular1.txt", "zzz/*"]), &[]);
    assert_eq!(metrics, "metrics: find_object_calls=122, visited_dirs=118, visited_files=181");
    assert_eq!(
        stdout_1,
        "2025-01-02 mix_valid_24/plausible_tree/regular1.txt\n2025-01-02 zzz/another_regular.txt\n"
    );

    let (stdout, metrics) =
        list_with_metrics(&commits, &[], &strings(&["folder_*", "mixed_*", "distraction.txt"]));
    assert_eq!(metrics, "metrics: find_object_calls=8, visited_dirs=4, visited_files=5");
    assert_eq!(stdout_1, stdout);
}

#[test]
fn metrics_long_commit_history() {
    let letters = prefixed("folder_", ('a'..='g').map(|c| c.to_string()));
    let toggle = |date: &'static str, op: char| Block {
        date,
        chains: vec![letters.clone()],
        files_in_each_dir: vec![(op, "toggle_file", 1)],
        paths: vec![],
    };
    let mut final_paths = vec![
        ('+', "recent_file_1.txt".to_string()),
        ('+', "recent_file_2.txt".to_string()),
        ('-', "ancient_file_will_be_deleted.txt".to_string()),
    ];
    final_paths.extend((0..20).map(|n| ('+', format!("final_{n}"))));
    let mut blocks = vec![Block {
        date: "1970-01-29",
        chains: vec![],
        files_in_each_dir: vec![],
        paths: vec![
            ('+', "ancient_file.txt".to_string()),
            ('+', "ancient_file_will_be_deleted.txt".to_string()),
        ],
    }];
    let days = [
        "1980-01-01", "1980-01-02", "1980-01-03", "1980-01-04", "1980-01-05", "1980-01-06",
        "1980-01-07", "1980-01-08", "1980-01-09", "1980-01-10", "1980-01-11", "1980-01-12",
        "1980-01-13", "1980-01-14", "1980-01-15", "1980-01-16", "1980-01-17", "1980-01-18",
        "1980-01-19", "1980-01-20",
    ];
    for (i, day) in days.iter().enumerate() {
        blocks.push(toggle(day, if i % 2 == 0 { '+' } else { '-' }));
    }
    blocks.push(Block { date: "1980-02-01", chains: vec![], files_in_each_dir: vec![], paths: final_paths });
    let commits = history(&fixture_text(&blocks));

    let (stdout, metrics) = list_with_metrics(&commits, &[], &strings(&["final_*"]));
    assert_eq!(metrics, "metrics: find_object_calls=86, visited_dirs=0, visited_files=107");
    assert_eq!(
        stdout,
        "1970-01-29 ancient_file.txt\n1980-02-01 recent_file_1.txt\n1980-02-01 recent_file_2.txt\n"
    );

    let (stdout_2, metrics) =
        list_with_metrics(&commits, &[], &strings(&["ancient_file.txt", "final_*"]));
    assert_eq!(metrics, "metrics: find_object_calls=4, visited_dirs=0, visited_files=25");
    assert_eq!(stdout_2, "1980-02-01 recent_file_1.txt\n1980-02-01 recent_file_2.txt\n");

    let (stdout, metrics) = list_with_metrics(&commits, &strings(&["recent_file_*.txt"]), &[]);
    assert_eq!(metrics, "metrics: find_object_calls=4, visited_dirs=0, visited_files=25");
    assert_eq!(stdout_2, stdout);
}
