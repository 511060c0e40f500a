//! Git repository introspection: which files a walk of the trees collects, and the date of
//! the most recent commit that changed each of them.
//!
//! Reading objects from the repository is left to the caller, which feeds each tree's
//! entries and each commit's collected blobs to the walkers here.

use vstd::prelude::*;
use vstd::string::{StrSliceExecFns, StringExecFns};

use crate::day::{in_day_range, Day};
use crate::entry::FileEntry;
use crate::pathmap::{path_lt, PathMap};
use crate::text::{decimal, decimal_string};

verus! {

// ------------------------------------------------------------------------------------------
// Paths.

/// The path of entry `name` inside the directory `prefix` (the root when `prefix` is empty).
pub open spec fn joined_path(prefix: Seq<char>, name: Seq<char>) -> Seq<char> {
    if prefix.len() == 0 {
        name
    } else {
        prefix + seq!['/'] + name
    }
}

/// Joins a directory path and an entry name with `/`; the root directory has the empty path.
pub fn format_prefix_and_name(prefix: &str, name: &str) -> (r: String)
    ensures
        r@ == joined_path(prefix@, name@),
{
    if prefix.is_empty() {
        name.to_owned()
    } else {
        let mut path = prefix.to_owned();
        proof {
            reveal_strlit("/");
        }
        path.append("/");
        path.append(name);
        path
    }
}

// ------------------------------------------------------------------------------------------
// Globs.

/// Whether `glob_match::glob_match` matches the path `path` against the glob `glob`.
pub uninterp spec fn glob_matches(glob: Seq<char>, path: Seq<char>) -> bool;

/// Calls `glob_match::glob_match`, which tests a path against a glob and returns `false` for
/// an invalid pattern. Claimed: the result is the named [`glob_matches`].
#[verifier::external_body]
fn glob_match(glob: &str, path: &str) -> (r: bool)
    ensures
        r == glob_matches(glob@, path@),
{
    glob_match::glob_match(glob, path)
}

/// Whether some glob of `globs` matches `text`.
pub open spec fn any_glob_matches(globs: Seq<String>, text: Seq<char>) -> bool {
    exists|i: int| 0 <= i < globs.len() && glob_matches(#[trigger] globs[i]@, text)
}

/// Whether some glob of `globs` matches `text`.
pub fn any_glob_match(globs: &[String], text: &str) -> (r: bool)
    ensures
        r == any_glob_matches(globs@, text@),
{
    let mut i: usize = 0;
    while i < globs.len()
        invariant
            i <= globs@.len(),
            forall|j: int| 0 <= j < i ==> !glob_matches(#[trigger] globs@[j]@, text@),
        decreases globs@.len() - i,
    {
        if glob_match(globs[i].as_str(), text) {
            return true;
        }
        i += 1;
    }
    false
}

// ------------------------------------------------------------------------------------------
// Walk metrics.

/// Number of values of a `u64` counter.
pub open spec fn counter_modulus() -> int {
    0x1_0000_0000_0000_0000
}

/// A `u64` counter after `n` increments from `start` (it wraps around).
pub open spec fn counted(start: int, n: int) -> int {
    (start + n) % counter_modulus()
}

/// Counts of the work a walk does, to compare optimisations.
#[derive(Debug)]
pub struct Metrics {
    find_object_calls: u64,
    visited_files: u64,
    visited_dirs: u64,
}

impl Metrics {
    /// Number of objects looked up in the repository.
    pub closed spec fn find_objects(self) -> int {
        self.find_object_calls as int
    }

    /// Number of blobs visited.
    pub closed spec fn files(self) -> int {
        self.visited_files as int
    }

    /// Number of directories walked into.
    pub closed spec fn dirs(self) -> int {
        self.visited_dirs as int
    }

    /// All counts zero.
    pub fn new() -> (r: Metrics)
        ensures
            r.find_objects() == 0,
            r.files() == 0,
            r.dirs() == 0,
    {
        Metrics { find_object_calls: 0, visited_files: 0, visited_dirs: 0 }
    }

    /// Counts one object lookup.
    pub fn inc_find_object(&mut self)
        ensures
            final(self).find_objects() == counted(old(self).find_objects(), 1),
            final(self).files() == old(self).files(),
            final(self).dirs() == old(self).dirs(),
    {
        self.find_object_calls = self.find_object_calls.wrapping_add(1);
    }

    /// Counts one visited blob.
    pub fn inc_visit_file(&mut self)
        ensures
            final(self).files() == counted(old(self).files(), 1),
            final(self).find_objects() == old(self).find_objects(),
            final(self).dirs() == old(self).dirs(),
    {
        self.visited_files = self.visited_files.wrapping_add(1);
    }

    /// Counts one directory walked into.
    pub fn inc_visit_dir(&mut self)
        ensures
            final(self).dirs() == counted(old(self).dirs(), 1),
            final(self).find_objects() == old(self).find_objects(),
            final(self).files() == old(self).files(),
    {
        self.visited_dirs = self.visited_dirs.wrapping_add(1);
    }

    /// The counts as one line of text.
    pub fn to_text(&self) -> (r: String)
        ensures
            r@ == "metrics: find_object_calls="@ + decimal(self.find_objects() as nat) + ", visited_dirs="@
                + decimal(self.dirs() as nat) + ", visited_files="@ + decimal(self.files() as nat),
    {
        let mut s = "metrics: find_object_calls=".to_owned();
        s.append(decimal_string(self.find_object_calls).as_str());
        s.append(", visited_dirs=");
        s.append(decimal_string(self.visited_dirs).as_str());
        s.append(", visited_files=");
        s.append(decimal_string(self.visited_files).as_str());
        s
    }

    /// The counts: `(find_object_calls, visited_dirs, visited_files)`.
    pub fn counts(&self) -> (r: (u64, u64, u64))
        ensures
            r.0 == self.find_objects(),
            r.1 == self.dirs(),
            r.2 == self.files(),
    {
        (self.find_object_calls, self.visited_dirs, self.visited_files)
    }
}

/// A counter that was incremented `n + 1` times has counted one more than after `n` times.
proof fn lemma_counted_step(start: int, n: int)
    requires
        0 <= start < counter_modulus(),
        n >= 0,
    ensures
        counted(counted(start, n), 1) == counted(start, n + 1),
        0 <= counted(start, n) < counter_modulus(),
        counted(start, 0) == start,
{
    vstd::arithmetic::div_mod::lemma_add_mod_noop(start + n, 1, counter_modulus());
    vstd::arithmetic::div_mod::lemma_mod_bound(start + n, counter_modulus());
    vstd::arithmetic::div_mod::lemma_small_mod(1, counter_modulus() as nat);
    vstd::arithmetic::div_mod::lemma_small_mod(start as nat, counter_modulus() as nat);
}


// ------------------------------------------------------------------------------------------
// Visitors of the tree walk.

/// The object ids of a map of blob ids, as byte sequences.
pub open spec fn blob_ids(m: Map<Seq<char>, Vec<u8>>) -> Map<Seq<char>, Seq<u8>> {
    m.map_values(|v: Vec<u8>| v@)
}

proof fn lemma_blob_ids_insert(m: Map<Seq<char>, Vec<u8>>, k: Seq<char>, v: Vec<u8>)
    ensures
        blob_ids(m.insert(k, v)) == blob_ids(m).insert(k, v@),
{
    assert(blob_ids(m.insert(k, v)) =~= blob_ids(m).insert(k, v@));
}

/// What a visitor tells the walk after an entry: go on (with a value), or stop the whole walk.
#[derive(Clone, Copy, Debug, PartialEq, Eq)]
pub enum WalkFlow<T> {
    /// Go on with the walk.
    Continue(T),
    /// Stop the walk here; it then ends without error.
    Break,
}

/// What a walk over the trees of a commit reports each entry to.
pub trait TreeVisitor: Sized {
    /// Whether the walk goes into the directory `name` inside `prefix`.
    spec fn includes_dir(&self, prefix: Seq<char>, name: Seq<char>) -> bool;

    /// Whether the blob `name` inside `prefix` is collected.
    spec fn collects_blob(&self, prefix: Seq<char>, name: Seq<char>) -> bool;

    /// Whether the visitor stops the walk at the directory `name` inside `prefix`.
    spec fn stops_at_dir(&self, prefix: Seq<char>, name: Seq<char>) -> bool;

    /// Whether the visitor stops the walk at the blob `name` inside `prefix`.
    spec fn stops_at_blob(&self, prefix: Seq<char>, name: Seq<char>) -> bool;

    /// The blobs collected so far: path to object id.
    spec fn collected(&self) -> Map<Seq<char>, Seq<u8>>;

    /// Called for each directory entry: whether to walk into it, or to stop the walk.
    fn is_include_dir(&self, prefix: &str, name: &str) -> (r: WalkFlow<bool>)
        ensures
            r == (if self.stops_at_dir(prefix@, name@) {
                WalkFlow::Break
            } else {
                WalkFlow::Continue(self.includes_dir(prefix@, name@))
            }),
    ;

    /// Called for each blob entry; it may stop the walk.
    fn visit_blob(&mut self, prefix: &str, name: &str, object_id: &[u8]) -> (r: WalkFlow<()>)
        ensures
            r == (if old(self).stops_at_blob(prefix@, name@) {
                WalkFlow::<()>::Break
            } else {
                WalkFlow::Continue(())
            }),
            final(self).collected() == (if old(self).collects_blob(prefix@, name@) {
                old(self).collected().insert(joined_path(prefix@, name@), object_id@)
            } else {
                old(self).collected()
            }),
            forall|p: Seq<char>, n: Seq<char>| #[trigger]
                final(self).includes_dir(p, n) == old(self).includes_dir(p, n),
            forall|p: Seq<char>, n: Seq<char>| #[trigger]
                final(self).collects_blob(p, n) == old(self).collects_blob(p, n),
            forall|p: Seq<char>, n: Seq<char>| #[trigger]
                final(self).stops_at_dir(p, n) == old(self).stops_at_dir(p, n),
            forall|p: Seq<char>, n: Seq<char>| #[trigger]
                final(self).stops_at_blob(p, n) == old(self).stops_at_blob(p, n),
    ;
}

/// [`TreeVisitor`] that collects every blob of the tree.
pub struct HashMapCollector {
    result: PathMap<Vec<u8>>,
}

impl HashMapCollector {
    /// A collector that has collected nothing yet.
    pub fn new() -> (r: HashMapCollector)
        ensures
            r.collected() == Map::<Seq<char>, Seq<u8>>::empty(),
    {
        let r = HashMapCollector { result: PathMap::new() };
        assert(blob_ids(r.result@) =~= Map::<Seq<char>, Seq<u8>>::empty());
        r
    }

    /// The collected blobs.
    pub fn into_map(self) -> (r: PathMap<Vec<u8>>)
        ensures
            blob_ids(r@) == self.collected(),
    {
        self.result
    }
}

impl TreeVisitor for HashMapCollector {
    open spec fn includes_dir(&self, prefix: Seq<char>, name: Seq<char>) -> bool {
        true
    }

    open spec fn collects_blob(&self, prefix: Seq<char>, name: Seq<char>) -> bool {
        true
    }

    open spec fn stops_at_dir(&self, prefix: Seq<char>, name: Seq<char>) -> bool {
        false
    }

    open spec fn stops_at_blob(&self, prefix: Seq<char>, name: Seq<char>) -> bool {
        false
    }

    closed spec fn collected(&self) -> Map<Seq<char>, Seq<u8>> {
        blob_ids(self.result@)
    }

    fn is_include_dir(&self, prefix: &str, name: &str) -> (r: WalkFlow<bool>) {
        WalkFlow::Continue(true)
    }

    fn visit_blob(&mut self, prefix: &str, name: &str, object_id: &[u8]) -> (r: WalkFlow<()>) {
        let path = format_prefix_and_name(prefix, name);
        let ghost before = self.result@;
        let id = vstd::slice::slice_to_vec(object_id);
        self.result.insert(path, id);
        proof {
            lemma_blob_ids_insert(before, joined_path(prefix@, name@), id);
        }
        WalkFlow::Continue(())
    }
}

/// Whether the directory `name` inside `prefix` is walked into under the exclude globs
/// `excludes` (include globs can match files at any depth, so only excludes prune).
pub open spec fn keeps_dir(excludes: Seq<String>, prefix: Seq<char>, name: Seq<char>) -> bool {
    excludes.len() == 0 || !any_glob_matches(excludes, joined_path(prefix, name))
}

/// Whether some include glob matches the blob's name or its path.
pub open spec fn include_matches(pathspecs: Seq<String>, name: Seq<char>, path: Seq<char>) -> bool {
    exists|i: int|
        0 <= i < pathspecs.len() && (glob_matches(#[trigger] pathspecs[i]@, name) || glob_matches(
            pathspecs[i]@,
            path,
        ))
}

/// Whether the blob `name` inside `prefix` is selected: no exclude glob matches its name or
/// its path, and there are no include globs or one matches its name or its path.
pub open spec fn selects_blob(
    pathspecs: Seq<String>,
    excludes: Seq<String>,
    prefix: Seq<char>,
    name: Seq<char>,
) -> bool {
    let path = joined_path(prefix, name);
    &&& !any_glob_matches(excludes, name)
    &&& (pathspecs.len() == 0 || include_matches(pathspecs, name, path))
    &&& !any_glob_matches(excludes, path)
}

/// [`TreeVisitor`] that collects the blobs selected by include and exclude globs.
pub struct IncludeExcludeCollector<'a> {
    pathspecs: &'a [String],
    excludes: &'a [String],
    result: PathMap<Vec<u8>>,
}

impl<'a> IncludeExcludeCollector<'a> {
    /// The include globs.
    pub closed spec fn include_globs(&self) -> Seq<String> {
        self.pathspecs@
    }

    /// The exclude globs.
    pub closed spec fn exclude_globs(&self) -> Seq<String> {
        self.excludes@
    }

    /// A collector with the given include globs (all files when empty) and exclude globs.
    pub fn new(pathspecs: &'a [String], excludes: &'a [String]) -> (r: IncludeExcludeCollector<'a>)
        ensures
            r.include_globs() == pathspecs@,
            r.exclude_globs() == excludes@,
            r.collected() == Map::<Seq<char>, Seq<u8>>::empty(),
    {
        let r = IncludeExcludeCollector { pathspecs, excludes, result: PathMap::new() };
        assert(blob_ids(r.result@) =~= Map::<Seq<char>, Seq<u8>>::empty());
        r
    }

    /// The collected blobs.
    pub fn into_map(self) -> (r: PathMap<Vec<u8>>)
        ensures
            blob_ids(r@) == self.collected(),
    {
        self.result
    }

    /// Whether the blob `name` inside `prefix` is selected.
    fn is_selected(&self, prefix: &str, name: &str, path: &str) -> (r: bool)
        requires
            path@ == joined_path(prefix@, name@),
        ensures
            r == selects_blob(self.pathspecs@, self.excludes@, prefix@, name@),
    {
        if any_glob_match(self.excludes, name) {
            return false;
        }
        let mut matches_include = self.pathspecs.len() == 0;
        let mut i: usize = 0;
        while !matches_include && i < self.pathspecs.len()
            invariant
                i <= self.pathspecs@.len(),
                matches_include ==> self.pathspecs@.len() == 0 || include_matches(
                    self.pathspecs@,
                    name@,
                    path@,
                ),
                !matches_include ==> self.pathspecs@.len() > 0 && forall|j: int|
                    0 <= j < i ==> !glob_matches(#[trigger] self.pathspecs@[j]@, name@)
                        && !glob_matches(self.pathspecs@[j]@, path@),
            decreases self.pathspecs@.len() - i,
        {
            let spec = self.pathspecs[i].as_str();
            let name_matches = glob_match(spec, name);
            let path_matches = glob_match(spec, path);
            if name_matches || path_matches {
                matches_include = true;
            }
            i += 1;
        }
        let matches_exclude = any_glob_match(self.excludes, path);
        matches_include && !matches_exclude
    }
}

impl<'a> TreeVisitor for IncludeExcludeCollector<'a> {
    open spec fn includes_dir(&self, prefix: Seq<char>, name: Seq<char>) -> bool {
        keeps_dir(self.exclude_globs(), prefix, name)
    }

    open spec fn collects_blob(&self, prefix: Seq<char>, name: Seq<char>) -> bool {
        selects_blob(self.include_globs(), self.exclude_globs(), prefix, name)
    }

    open spec fn stops_at_dir(&self, prefix: Seq<char>, name: Seq<char>) -> bool {
        false
    }

    open spec fn stops_at_blob(&self, prefix: Seq<char>, name: Seq<char>) -> bool {
        false
    }

    closed spec fn collected(&self) -> Map<Seq<char>, Seq<u8>> {
        blob_ids(self.result@)
    }

    fn is_include_dir(&self, prefix: &str, name: &str) -> (r: WalkFlow<bool>) {
        // Include globs can match files arbitrarily deep in the tree, so only excludes prune.
        if self.excludes.len() == 0 {
            return WalkFlow::Continue(true);
        }
        let path = format_prefix_and_name(prefix, name);
        WalkFlow::Continue(!any_glob_match(self.excludes, path.as_str()))
    }

    fn visit_blob(&mut self, prefix: &str, name: &str, object_id: &[u8]) -> (r: WalkFlow<()>) {
        let path = format_prefix_and_name(prefix, name);
        if self.is_selected(prefix, name, path.as_str()) {
            let ghost before = self.result@;
            let id = vstd::slice::slice_to_vec(object_id);
            self.result.insert(path, id);
            proof {
                lemma_blob_ids_insert(before, joined_path(prefix@, name@), id);
            }
        }
        WalkFlow::Continue(())
    }
}


/// The directories holding some path of `paths`: each prefix of a path that ends just before
/// one of its `/`.
pub open spec fn dir_prefixes_of(paths: Set<Seq<char>>) -> Set<Seq<char>> {
    Set::new(
        |d: Seq<char>|
            exists|p: Seq<char>, i: int|
                #![trigger paths.contains(p), p.subrange(0, i)]
                paths.contains(p) && 0 <= i < p.len() && p[i] == '/' && d == p.subrange(0, i),
    )
}

/// The directory prefixes of the first `k` paths of `keys`, and of the `k`-th up to index `j`.
spec fn prefixes_so_far(keys: Seq<Seq<char>>, k: int, j: int) -> Set<Seq<char>> {
    Set::new(
        |d: Seq<char>|
            exists|a: int, i: int|
                #![trigger keys[a].subrange(0, i)]
                0 <= a <= k && a < keys.len() && 0 <= i < keys[a].len() && (a < k || i < j) && keys[a][i]
                    == '/' && d == keys[a].subrange(0, i),
    )
}

/// [`TreeVisitor`] that collects only blob entries whose path is in `remaining`,
/// pruning subtrees that contain no remaining files.
pub struct RemainingFilteredCollector<'a> {
    remaining: &'a PathMap<()>,
    dir_prefixes: PathMap<()>,
    result: PathMap<Vec<u8>>,
}

impl<'a> RemainingFilteredCollector<'a> {
    /// The paths still to collect.
    pub closed spec fn remaining_paths(&self) -> Set<Seq<char>> {
        self.remaining@.dom()
    }

    /// The directories walked into.
    pub closed spec fn dirs(&self) -> Set<Seq<char>> {
        self.dir_prefixes@.dom()
    }

    /// A collector for the paths of `remaining`; it walks into exactly the directories that
    /// hold one of them.
    pub fn new(remaining: &'a PathMap<()>) -> (r: RemainingFilteredCollector<'a>)
        ensures
            r.remaining_paths() == remaining@.dom(),
            r.dirs() == dir_prefixes_of(remaining@.dom()),
            r.collected() == Map::<Seq<char>, Seq<u8>>::empty(),
    {
        let mut dir_prefixes: PathMap<()> = PathMap::new();
        let n = remaining.size();
        let ghost keys = remaining.key_seq();
        assert(dir_prefixes@.dom() =~= prefixes_so_far(keys, 0, 0));
        let mut k: usize = 0;
        while k < n
            invariant
                k <= n == keys.len(),
                keys == remaining.key_seq(),
                dir_prefixes@.dom() == prefixes_so_far(keys, k as int, 0),
            decreases n - k,
        {
            let (path, _) = remaining.entry(k);
            let path = path.as_str();
            let len = path.unicode_len();
            let mut j: usize = 0;
            while j < len
                invariant
                    k < n == keys.len(),
                    path@ == keys[k as int],
                    len == path@.len(),
                    j <= len,
                    dir_prefixes@.dom() == prefixes_so_far(keys, k as int, j as int),
                decreases len - j,
            {
                if path.get_char(j) == '/' {
                    let d = path.substring_char(0, j).to_owned();
                    dir_prefixes.insert(d, ());
                    assert(dir_prefixes@.dom() =~= prefixes_so_far(keys, k as int, j + 1)) by {
                        assert(keys[k as int].subrange(0, j as int) == d@);
                    }
                } else {
                    assert(dir_prefixes@.dom() =~= prefixes_so_far(keys, k as int, j + 1));
                }
                j += 1;
            }
            assert(prefixes_so_far(keys, k as int, len as int) =~= prefixes_so_far(keys, k + 1, 0));
            k += 1;
        }
        let ghost paths = remaining@.dom();
        assert(dir_prefixes@.dom() =~= dir_prefixes_of(paths)) by {
            assert forall|d: Seq<char>| #[trigger] dir_prefixes_of(paths).contains(d) implies prefixes_so_far(
                keys,
                n as int,
                0,
            ).contains(d) by {
                let (p, i) = choose|p: Seq<char>, i: int|
                    #![trigger paths.contains(p), p.subrange(0, i)]
                    paths.contains(p) && 0 <= i < p.len() && p[i] == '/' && d == p.subrange(0, i);
                assert(remaining@.contains_key(p));
                let a = choose|a: int| 0 <= a < n && keys[a] == p;
                assert(keys[a].subrange(0, i) == d);
            }
            assert forall|d: Seq<char>| #[trigger] prefixes_so_far(keys, n as int, 0).contains(d) implies dir_prefixes_of(
                paths,
            ).contains(d) by {
                let (a, i) = choose|a: int, i: int|
                    #![trigger keys[a].subrange(0, i)]
                    0 <= a <= n && a < keys.len() && 0 <= i < keys[a].len() && (a < n || i < 0)
                        && keys[a][i] == '/' && d == keys[a].subrange(0, i);
                assert(remaining@.contains_key(keys[a]));
                assert(paths.contains(keys[a]));
            }
        }
        let r = RemainingFilteredCollector { remaining, dir_prefixes, result: PathMap::new() };
        assert(blob_ids(r.result@) =~= Map::<Seq<char>, Seq<u8>>::empty());
        r
    }

    /// The collected blobs.
    pub fn into_map(self) -> (r: PathMap<Vec<u8>>)
        ensures
            blob_ids(r@) == self.collected(),
    {
        self.result
    }
}

impl<'a> TreeVisitor for RemainingFilteredCollector<'a> {
    open spec fn includes_dir(&self, prefix: Seq<char>, name: Seq<char>) -> bool {
        self.dirs().contains(joined_path(prefix, name))
    }

    open spec fn collects_blob(&self, prefix: Seq<char>, name: Seq<char>) -> bool {
        self.remaining_paths().contains(joined_path(prefix, name))
    }

    open spec fn stops_at_dir(&self, prefix: Seq<char>, name: Seq<char>) -> bool {
        false
    }

    open spec fn stops_at_blob(&self, prefix: Seq<char>, name: Seq<char>) -> bool {
        false
    }

    closed spec fn collected(&self) -> Map<Seq<char>, Seq<u8>> {
        blob_ids(self.result@)
    }

    fn is_include_dir(&self, prefix: &str, name: &str) -> (r: WalkFlow<bool>) {
        let full = format_prefix_and_name(prefix, name);
        WalkFlow::Continue(self.dir_prefixes.contains_key(full.as_str()))
    }

    fn visit_blob(&mut self, prefix: &str, name: &str, object_id: &[u8]) -> (r: WalkFlow<()>) {
        let path = format_prefix_and_name(prefix, name);
        if self.remaining.contains_key(path.as_str()) {
            let ghost before = self.result@;
            let id = vstd::slice::slice_to_vec(object_id);
            self.result.insert(path, id);
            proof {
                lemma_blob_ids_insert(before, joined_path(prefix@, name@), id);
            }
        }
        WalkFlow::Continue(())
    }
}

/// Pruning keeps every remaining file reachable: a directory is walked into whenever a
/// remaining path lies inside it.
pub proof fn law_pruning_keeps_remaining(paths: Set<Seq<char>>, dir: Seq<char>, rest: Seq<char>)
    requires
        paths.contains(dir + seq!['/'] + rest),
    ensures
        dir_prefixes_of(paths).contains(dir),
{
    let p = dir + seq!['/'] + rest;
    let i = dir.len() as int;
    assert(p[i] == '/');
    assert(p.subrange(0, i) =~= dir);
}


// ------------------------------------------------------------------------------------------
// The tree walk.

/// Kind of a tree entry, as far as the walk is concerned.
#[derive(Clone, Copy, Debug, PartialEq, Eq)]
pub enum EntryKind {
    /// A subtree (directory).
    Tree,
    /// A blob, executable or not (file).
    Blob,
    /// Anything else (symbolic link, submodule commit).
    Other,
}

/// An entry of a tree object.
pub struct TreeEntry {
    /// The entry's file name.
    pub name: String,
    /// What the entry is.
    pub kind: EntryKind,
    /// The id of the object the entry points to.
    pub object_id: Vec<u8>,
}

/// The subtrees that visiting `entries` of the tree at `prefix` queues, in order: each
/// directory entry that `v` walks into, with its path.
pub open spec fn queued_subtrees<V: TreeVisitor>(
    v: V,
    prefix: Seq<char>,
    entries: Seq<TreeEntry>,
) -> Seq<(Seq<char>, Seq<u8>)>
    decreases entries.len(),
{
    if entries.len() == 0 {
        Seq::empty()
    } else {
        let e = entries.last();
        let before = queued_subtrees(v, prefix, entries.drop_last());
        if e.kind is Tree && v.includes_dir(prefix, e.name@) {
            before.push((joined_path(prefix, e.name@), e.object_id@))
        } else {
            before
        }
    }
}

/// The blobs collected after visiting `entries` of the tree at `prefix`, starting from `m`:
/// each blob entry that `v` collects, by path.
pub open spec fn collected_after<V: TreeVisitor>(
    v: V,
    m: Map<Seq<char>, Seq<u8>>,
    prefix: Seq<char>,
    entries: Seq<TreeEntry>,
) -> Map<Seq<char>, Seq<u8>>
    decreases entries.len(),
{
    if entries.len() == 0 {
        m
    } else {
        let e = entries.last();
        let before = collected_after(v, m, prefix, entries.drop_last());
        if e.kind is Blob && v.collects_blob(prefix, e.name@) {
            before.insert(joined_path(prefix, e.name@), e.object_id@)
        } else {
            before
        }
    }
}

/// Whether `v` stops the walk at the entry `e` of the tree at `prefix`.
pub open spec fn stops_at<V: TreeVisitor>(v: V, prefix: Seq<char>, e: TreeEntry) -> bool {
    ||| e.kind is Tree && v.stops_at_dir(prefix, e.name@)
    ||| e.kind is Blob && v.stops_at_blob(prefix, e.name@)
}

/// Index of the first of `entries` (of the tree at `prefix`) at which `v` stops the walk, or
/// the number of entries when it stops at none.
pub open spec fn stop_index<V: TreeVisitor>(v: V, prefix: Seq<char>, entries: Seq<TreeEntry>) -> int
    decreases entries.len(),
{
    if entries.len() == 0 {
        0
    } else {
        let k = stop_index(v, prefix, entries.drop_last());
        if k < entries.len() - 1 {
            k
        } else if stops_at(v, prefix, entries.last()) {
            entries.len() - 1
        } else {
            entries.len() as int
        }
    }
}

/// Number of `entries` handed to `v`: all of them, or those up to the one it stops at.
pub open spec fn visited_count<V: TreeVisitor>(v: V, prefix: Seq<char>, entries: Seq<TreeEntry>) -> int {
    let k = stop_index(v, prefix, entries);
    if k < entries.len() {
        k + 1
    } else {
        entries.len() as int
    }
}

proof fn lemma_stop_index_bound<V: TreeVisitor>(v: V, prefix: Seq<char>, entries: Seq<TreeEntry>)
    ensures
        0 <= stop_index(v, prefix, entries) <= entries.len(),
    decreases entries.len(),
{
    if entries.len() > 0 {
        lemma_stop_index_bound(v, prefix, entries.drop_last());
    }
}

/// Once `v` stops at an entry, longer runs of entries stop there too.
proof fn lemma_stop_index_stays<V: TreeVisitor>(v: V, prefix: Seq<char>, entries: Seq<TreeEntry>, j: int, j2: int)
    requires
        0 <= j <= j2 <= entries.len(),
        stop_index(v, prefix, entries.take(j)) < j,
    ensures
        stop_index(v, prefix, entries.take(j2)) == stop_index(v, prefix, entries.take(j)),
    decreases j2 - j,
{
    if j2 > j {
        lemma_stop_index_stays(v, prefix, entries, j, j2 - 1);
        assert(entries.take(j2).drop_last() =~= entries.take(j2 - 1));
    }
}

/// Number of blob entries in `entries`.
pub open spec fn blob_count(entries: Seq<TreeEntry>) -> int
    decreases entries.len(),
{
    if entries.len() == 0 {
        0
    } else {
        blob_count(entries.drop_last()) + if entries.last().kind is Blob {
            1int
        } else {
            0
        }
    }
}

/// The trees still to walk, each with its path: a stack, the last one comes next.
pub struct TreeWalk {
    stack: Vec<(String, Vec<u8>)>,
}

impl View for TreeWalk {
    type V = Seq<(Seq<char>, Seq<u8>)>;

    closed spec fn view(&self) -> Seq<(Seq<char>, Seq<u8>)> {
        self.stack@.map_values(|e: (String, Vec<u8>)| (e.0@, e.1@))
    }
}

impl TreeWalk {
    /// A walk of the tree `tree_id`, the root directory.
    pub fn new(tree_id: Vec<u8>) -> (r: TreeWalk)
        ensures
            r@ == seq![(Seq::<char>::empty(), tree_id@)],
    {
        let mut stack: Vec<(String, Vec<u8>)> = Vec::new();
        stack.push((String::new(), tree_id));
        let r = TreeWalk { stack };
        assert(r@ =~= seq![(Seq::<char>::empty(), r.stack@[0].1@)]);
        r
    }

    /// Takes the next tree to read: its path and object id. `None` when the walk is done.
    pub fn next_tree(&mut self) -> (r: Option<(String, Vec<u8>)>)
        ensures
            match r {
                None => old(self)@.len() == 0 && final(self)@ == old(self)@,
                Some(t) => old(self)@.len() > 0 && (t.0@, t.1@) == old(self)@.last() && final(self)@
                    == old(self)@.drop_last(),
            },
    {
        let r = self.stack.pop();
        proof {
            assert(self@ =~= old(self)@.drop_last() || r is None);
        }
        r
    }

    /// Visits the entries of the tree at `prefix`: queues each directory that `visitor` walks
    /// into, and hands each blob to `visitor`, counting both in `metrics`. When `visitor`
    /// stops the walk at an entry, no later entry is visited and no tree is left to walk (so
    /// the walk ends there, without error); the result tells whether it stopped.
    pub fn visit_entries<V: TreeVisitor>(
        &mut self,
        prefix: &str,
        entries: &[TreeEntry],
        visitor: &mut V,
        metrics: &mut Metrics,
    ) -> (stopped: bool)
        ensures
            stopped == (stop_index(*old(visitor), prefix@, entries@) < entries@.len()),
            stopped ==> final(self)@.len() == 0,
            !stopped ==> final(self)@ == old(self)@ + queued_subtrees(*old(visitor), prefix@, entries@),
            final(visitor).collected() == collected_after(
                *old(visitor),
                old(visitor).collected(),
                prefix@,
                entries@.take(visited_count(*old(visitor), prefix@, entries@)),
            ),
            forall|p: Seq<char>, n: Seq<char>| #[trigger]
                final(visitor).includes_dir(p, n) == old(visitor).includes_dir(p, n),
            forall|p: Seq<char>, n: Seq<char>| #[trigger]
                final(visitor).collects_blob(p, n) == old(visitor).collects_blob(p, n),
            forall|p: Seq<char>, n: Seq<char>| #[trigger]
                final(visitor).stops_at_dir(p, n) == old(visitor).stops_at_dir(p, n),
            forall|p: Seq<char>, n: Seq<char>| #[trigger]
                final(visitor).stops_at_blob(p, n) == old(visitor).stops_at_blob(p, n),
            final(metrics).dirs() == counted(
                old(metrics).dirs(),
                queued_subtrees(
                    *old(visitor),
                    prefix@,
                    entries@.take(stop_index(*old(visitor), prefix@, entries@)),
                ).len() as int,
            ),
            final(metrics).files() == counted(
                old(metrics).files(),
                blob_count(entries@.take(visited_count(*old(visitor), prefix@, entries@))),
            ),
            final(metrics).find_objects() == old(metrics).find_objects(),
    {
        let ghost v0 = *visitor;
        let ghost s0 = self@;
        let ghost m0 = *metrics;
        proof {
            assert(entries@.take(0) =~= Seq::<TreeEntry>::empty());
            assert(s0 + Seq::<(Seq<char>, Seq<u8>)>::empty() =~= s0);
            lemma_counted_step(m0.dirs(), 0);
            lemma_counted_step(m0.files(), 0);
        }
        let mut i: usize = 0;
        while i < entries.len()
            invariant
                i <= entries@.len(),
                v0 == *old(visitor),
                s0 == old(self)@,
                m0 == *old(metrics),
                stop_index(v0, prefix@, entries@.take(i as int)) == i,
                self@ == s0 + queued_subtrees(v0, prefix@, entries@.take(i as int)),
                visitor.collected() == collected_after(v0, v0.collected(), prefix@, entries@.take(i as int)),
                forall|p: Seq<char>, n: Seq<char>| #[trigger]
                    visitor.includes_dir(p, n) == v0.includes_dir(p, n),
                forall|p: Seq<char>, n: Seq<char>| #[trigger]
                    visitor.collects_blob(p, n) == v0.collects_blob(p, n),
                forall|p: Seq<char>, n: Seq<char>| #[trigger]
                    visitor.stops_at_dir(p, n) == v0.stops_at_dir(p, n),
                forall|p: Seq<char>, n: Seq<char>| #[trigger]
                    visitor.stops_at_blob(p, n) == v0.stops_at_blob(p, n),
                metrics.dirs() == counted(
                    m0.dirs(),
                    queued_subtrees(v0, prefix@, entries@.take(i as int)).len() as int,
                ),
                metrics.files() == counted(m0.files(), blob_count(entries@.take(i as int))),
                metrics.find_objects() == m0.find_objects(),
                0 <= m0.dirs() < counter_modulus(),
                0 <= m0.files() < counter_modulus(),
            decreases entries@.len() - i,
        {
            let entry = &entries[i];
            let ghost before = entries@.take(i as int);
            let ghost after = entries@.take(i + 1);
            proof {
                assert(after.drop_last() =~= before);
                assert(after.last() == entries@[i as int]);
                lemma_queued_len(v0, prefix@, before);
                lemma_blob_count_nonneg(before);
            }
            let mut stop = false;
            match entry.kind {
                EntryKind::Tree => {
                    match visitor.is_include_dir(prefix, entry.name.as_str()) {
                        WalkFlow::Break => {
                            stop = true;
                        },
                        WalkFlow::Continue(walk_in) => {
                            if walk_in {
                                metrics.inc_visit_dir();
                                let child_prefix = format_prefix_and_name(prefix, entry.name.as_str());
                                let id = vstd::slice::slice_to_vec(entry.object_id.as_slice());
                                let ghost pushed = (child_prefix@, id@);
                                let ghost view_before = self@;
                                self.stack.push((child_prefix, id));
                                proof {
                                    assert(self@ =~= view_before.push(pushed));
                                    lemma_counted_step(m0.dirs(), queued_subtrees(v0, prefix@, before).len() as int);
                                    assert(self@ =~= s0 + queued_subtrees(v0, prefix@, after));
                                }
                            } else {
                                assert(self@ =~= s0 + queued_subtrees(v0, prefix@, after));
                            }
                        },
                    }
                },
                EntryKind::Blob => {
                    metrics.inc_visit_file();
                    match visitor.visit_blob(prefix, entry.name.as_str(), entry.object_id.as_slice()) {
                        WalkFlow::Break => {
                            stop = true;
                        },
                        WalkFlow::Continue(()) => {},
                    }
                    proof {
                        lemma_counted_step(m0.files(), blob_count(before));
                        assert(self@ =~= s0 + queued_subtrees(v0, prefix@, after));
                    }
                },
                EntryKind::Other => {
                    assert(self@ =~= s0 + queued_subtrees(v0, prefix@, after));
                },
            }
            assert(stop == stops_at(v0, prefix@, entries@[i as int]));
            if stop {
                proof {
                    lemma_stop_index_bound(v0, prefix@, before);
                    assert(stop_index(v0, prefix@, after) == i);
                    lemma_stop_index_stays(v0, prefix@, entries@, i + 1, entries@.len() as int);
                    assert(entries@.take(entries@.len() as int) =~= entries@);
                    assert(visited_count(v0, prefix@, entries@) == i + 1);
                }
                self.stack = Vec::new();
                assert(self@.len() == 0);
                return true;
            }
            assert(stop_index(v0, prefix@, after) == i + 1);
            i += 1;
        }
        proof {
            assert(entries@.take(entries@.len() as int) =~= entries@);
        }
        false
    }
}

proof fn lemma_queued_len<V: TreeVisitor>(v: V, prefix: Seq<char>, entries: Seq<TreeEntry>)
    ensures
        queued_subtrees(v, prefix, entries).len() <= entries.len(),
    decreases entries.len(),
{
    if entries.len() > 0 {
        lemma_queued_len(v, prefix, entries.drop_last());
    }
}

proof fn lemma_blob_count_nonneg(entries: Seq<TreeEntry>)
    ensures
        0 <= blob_count(entries) <= entries.len(),
    decreases entries.len(),
{
    if entries.len() > 0 {
        lemma_blob_count_nonneg(entries.drop_last());
    }
}


// ------------------------------------------------------------------------------------------
// Dating the files: the most recent commit that changed each one.

/// Earliest second since the Unix epoch that `jiff::Timestamp` supports.
pub const MIN_TIMESTAMP_SECOND: i64 = -377705023201;

/// Latest second since the Unix epoch that `jiff::Timestamp` supports.
pub const MAX_TIMESTAMP_SECOND: i64 = 253402207200;

/// Calls `jiff::Timestamp::from_second` and takes the timestamp's date in UTC
/// (`to_zoned(TimeZone::UTC).date()`), as days since 1970-01-01. Claimed: `from_second` fails
/// exactly outside `Timestamp::MIN ..= Timestamp::MAX` (its documentation promises that this
/// is the only failure; `jiff-core`'s bounds give the two seconds above), and the UTC date of
/// a timestamp is its number of whole days since the epoch, rounded down.
#[verifier::external_body]
fn jiff_utc_epoch_day(seconds: i64) -> (r: Option<i32>)
    ensures
        r is Some <==> MIN_TIMESTAMP_SECOND <= seconds <= MAX_TIMESTAMP_SECOND,
        r matches Some(d) ==> d == seconds as int / 86400,
{
    match jiff::Timestamp::from_second(seconds) {
        Ok(ts) => {
            let date = ts.to_zoned(jiff::tz::TimeZone::UTC).date();
            Some((date - jiff::civil::Date::constant(1970, 1, 1)).get_days())
        },
        Err(_) => None,
    }
}

/// The UTC date of a commit time given in seconds since the Unix epoch; `None` when the time
/// is outside the supported range.
pub fn commit_date(seconds: i64) -> (r: Option<Day>)
    ensures
        r is Some <==> MIN_TIMESTAMP_SECOND <= seconds <= MAX_TIMESTAMP_SECOND,
        r matches Some(d) ==> d@ == seconds as int / 86400,
{
    match jiff_utc_epoch_day(seconds) {
        Some(n) => {
            assert(in_day_range(n as int)) by {
                assert(-4371587 * 86400 <= seconds as int);
                assert(seconds as int <= 2932896 * 86400);
            }
            Day::from_epoch_day(n)
        },
        None => None,
    }
}

/// Whether `a` and `b` hold the same bytes.
pub fn bytes_equal(a: &[u8], b: &[u8]) -> (r: bool)
    ensures
        r == (a@ == b@),
{
    if a.len() != b.len() {
        return false;
    }
    let mut i: usize = 0;
    while i < a.len()
        invariant
            i <= a@.len() == b@.len(),
            forall|j: int| 0 <= j < i ==> a@[j] == b@[j],
        decreases a@.len() - i,
    {
        if a[i] != b[i] {
            return false;
        }
        i += 1;
    }
    assert(a@ =~= b@);
    true
}

/// The paths whose blob in `current` differs from `parent`: absent there, or another object.
pub open spec fn changed_paths(current: Map<Seq<char>, Seq<u8>>, parent: Map<Seq<char>, Seq<u8>>) -> Set<
    Seq<char>,
> {
    Set::new(
        |p: Seq<char>| current.contains_key(p) && !(parent.contains_key(p) && parent[p] == current[p]),
    )
}

/// The changed paths of `current` against `parent`, each with `date` and its blob in `current`.
pub open spec fn dated_changes(
    current: Map<Seq<char>, Seq<u8>>,
    parent: Map<Seq<char>, Seq<u8>>,
    date: int,
) -> Map<Seq<char>, (int, Seq<u8>)> {
    Map::new(|p: Seq<char>| changed_paths(current, parent).contains(p), |p: Seq<char>| (date, current[p]))
}

/// A map of dated blobs, with dates as day numbers and object ids as bytes.
pub open spec fn dated_view(m: Map<Seq<char>, (Day, Vec<u8>)>) -> Map<Seq<char>, (int, Seq<u8>)> {
    m.map_values(|v: (Day, Vec<u8>)| (v.0@, v.1@))
}

/// The paths among the first `i` of `keys`.
spec fn first_keys(keys: Seq<Seq<char>>, i: int) -> Set<Seq<char>> {
    Set::new(|p: Seq<char>| exists|a: int| 0 <= a < i && keys[a] == p)
}

/// For each path in `current` whose blob differs from `parent`, record `date` in
/// `file_dates` and remove the path from `remaining`.
pub fn apply_diff(
    current: &PathMap<Vec<u8>>,
    parent: &PathMap<Vec<u8>>,
    date: Day,
    file_dates: &mut PathMap<(Day, Vec<u8>)>,
    remaining: &mut PathMap<()>,
)
    ensures
        dated_view(final(file_dates)@) == dated_view(old(file_dates)@).union_prefer_right(
            dated_changes(blob_ids(current@), blob_ids(parent@), date@),
        ),
        final(remaining)@ == old(remaining)@.remove_keys(
            changed_paths(blob_ids(current@), blob_ids(parent@)),
        ),
{
    let ghost cur = blob_ids(current@);
    let ghost par = blob_ids(parent@);
    let ghost changes = dated_changes(cur, par, date@);
    let ghost changed = changed_paths(cur, par);
    let ghost fd0 = dated_view(file_dates@);
    let ghost rem0 = remaining@;
    let n = current.size();
    let ghost keys = current.key_seq();
    proof {
        assert(changes.restrict(first_keys(keys, 0)) =~= Map::empty());
        assert(fd0.union_prefer_right(Map::empty()) =~= fd0);
        assert(rem0.remove_keys(changed.intersect(first_keys(keys, 0))) =~= rem0);
    }
    let mut i: usize = 0;
    while i < n
        invariant
            i <= n == keys.len() == current.key_seq().len(),
            keys == current.key_seq(),
            forall|a: int|
                0 <= a < n ==> #[trigger] current@.contains_key(keys[a]) && current@[keys[a]]
                    == current.value_seq()[a],
            forall|k: Seq<char>| #[trigger] current@.contains_key(k) ==> exists|a: int| 0 <= a < n && keys[a] == k,
            cur == blob_ids(current@),
            par == blob_ids(parent@),
            changes == dated_changes(cur, par, date@),
            changed == changed_paths(cur, par),
            dated_view(file_dates@) == fd0.union_prefer_right(changes.restrict(first_keys(keys, i as int))),
            remaining@ == rem0.remove_keys(changed.intersect(first_keys(keys, i as int))),
        decreases n - i,
    {
        let (path, blob_hash) = current.entry(i);
        let ghost k = keys[i as int];
        let is_changed = match parent.get(path.as_str()) {
            Some(parent_hash) => !bytes_equal(parent_hash.as_slice(), blob_hash.as_slice()),
            None => true,
        };
        assert(is_changed == changed.contains(k));
        let ghost fd_before = file_dates@;
        if is_changed {
            let id = vstd::slice::slice_to_vec(blob_hash.as_slice());
            let ghost value = (date, id);
            file_dates.insert(path.clone(), (date, id));
            remaining.remove(path.as_str());
            proof {
                assert(dated_view(fd_before.insert(k, value)) =~= dated_view(fd_before).insert(k, (date@, id@)));
            }
        }
        proof {
            assert(dated_view(file_dates@) =~= fd0.union_prefer_right(changes.restrict(first_keys(keys, i + 1)))) by {
                assert forall|p: Seq<char>| #[trigger] first_keys(keys, i + 1).contains(p) == (first_keys(keys, i as int).contains(p) || p == k) by {
                    if first_keys(keys, i + 1).contains(p) {
                        let a = choose|a: int| 0 <= a < i + 1 && keys[a] == p;
                        if a < i {
                            assert(first_keys(keys, i as int).contains(p));
                        }
                    }
                    if p == k {
                        assert(keys[i as int] == p);
                    }
                    if first_keys(keys, i as int).contains(p) {
                        let a = choose|a: int| 0 <= a < i && keys[a] == p;
                        assert(0 <= a < i + 1 && keys[a] == p);
                    }
                }
            }
            assert(remaining@ =~= rem0.remove_keys(changed.intersect(first_keys(keys, i + 1))));
        }
        i += 1;
    }
    proof {
        assert(changes.restrict(first_keys(keys, n as int)) =~= changes) by {
            assert forall|p: Seq<char>| #[trigger] changes.contains_key(p) implies first_keys(keys, n as int).contains(p) by {
                assert(current@.contains_key(p));
                let a = choose|a: int| 0 <= a < n && keys[a] == p;
            }
        }
        assert(changed.intersect(first_keys(keys, n as int)) =~= changed) by {
            assert forall|p: Seq<char>| #[trigger] changed.contains(p) implies first_keys(keys, n as int).contains(p) by {
                assert(current@.contains_key(p));
                let a = choose|a: int| 0 <= a < n && keys[a] == p;
            }
        }
    }
}


/// The state of a walk over the history, newest commit first, that dates the files chosen
/// at `HEAD`: the paths still without a date, and the dated ones.
pub struct DateScan {
    remaining: PathMap<()>,
    file_dates: PathMap<(Day, Vec<u8>)>,
}

impl DateScan {
    /// The paths that have no date yet.
    pub closed spec fn remaining_paths(self) -> Set<Seq<char>> {
        self.remaining@.dom()
    }

    /// The dated paths, each with its date and blob object id.
    pub closed spec fn dates(self) -> Map<Seq<char>, (int, Seq<u8>)> {
        dated_view(self.file_dates@)
    }

    /// A scan for the files of `head`, the blobs chosen in the `HEAD` tree: none dated yet.
    pub fn new(head: &PathMap<Vec<u8>>) -> (r: DateScan)
        ensures
            r.remaining_paths() == head@.dom(),
            r.dates() == Map::<Seq<char>, (int, Seq<u8>)>::empty(),
    {
        let mut remaining: PathMap<()> = PathMap::new();
        let n = head.size();
        let ghost keys = head.key_seq();
        assert(remaining@.dom() =~= first_keys(keys, 0));
        let mut i: usize = 0;
        while i < n
            invariant
                i <= n == keys.len() == head.key_seq().len(),
                keys == head.key_seq(),
                remaining@.dom() == first_keys(keys, i as int),
            decreases n - i,
        {
            let (path, _) = head.entry(i);
            remaining.insert(path.clone(), ());
            proof {
                assert(remaining@.dom() =~= first_keys(keys, i + 1)) by {
                    assert forall|p: Seq<char>| #[trigger] first_keys(keys, i + 1).contains(p) == remaining@.dom().contains(p) by {
                        if first_keys(keys, i + 1).contains(p) {
                            let a = choose|a: int| 0 <= a < i + 1 && keys[a] == p;
                            if a < i {
                                assert(first_keys(keys, i as int).contains(p));
                            }
                        }
                        if first_keys(keys, i as int).contains(p) {
                            let a = choose|a: int| 0 <= a < i && keys[a] == p;
                            assert(0 <= a < i + 1 && keys[a] == p);
                        }
                    }
                }
            }
            i += 1;
        }
        proof {
            assert(first_keys(keys, n as int) =~= head@.dom()) by {
                assert forall|p: Seq<char>| #[trigger] head@.dom().contains(p) implies first_keys(keys, n as int).contains(p) by {
                    assert(head@.contains_key(p));
                    let a = choose|a: int| 0 <= a < n && keys[a] == p;
                }
            }
        }
        let r = DateScan { remaining, file_dates: PathMap::new() };
        assert(r.dates() =~= Map::<Seq<char>, (int, Seq<u8>)>::empty());
        r
    }

    /// The paths that have no date yet.
    pub fn remaining(&self) -> (r: &PathMap<()>)
        ensures
            r@.dom() == self.remaining_paths(),
    {
        &self.remaining
    }

    /// Whether every file has its date.
    pub fn is_done(&self) -> (r: bool)
        ensures
            r == (self.remaining_paths() == Set::<Seq<char>>::empty()),
    {
        let r = self.remaining.is_empty();
        proof {
            if r {
                assert(self.remaining_paths() =~= Set::<Seq<char>>::empty());
            } else if self.remaining_paths() == Set::<Seq<char>>::empty() {
                assert(self.remaining@ =~= Map::<Seq<char>, ()>::empty());
            }
        }
        r
    }

    /// Dates the files that a commit on `date` changed: the blobs of `current` (its tree,
    /// among the remaining paths) that differ from `parent` (its first parent's tree, or
    /// nothing for a root commit).
    pub fn record_commit(&mut self, current: &PathMap<Vec<u8>>, parent: &PathMap<Vec<u8>>, date: Day)
        ensures
            final(self).dates() == old(self).dates().union_prefer_right(
                dated_changes(blob_ids(current@), blob_ids(parent@), date@),
            ),
            final(self).remaining_paths() == old(self).remaining_paths().difference(
                changed_paths(blob_ids(current@), blob_ids(parent@)),
            ),
    {
        apply_diff(current, parent, date, &mut self.file_dates, &mut self.remaining);
        let ghost changed = changed_paths(blob_ids(current@), blob_ids(parent@));
        assert(self.remaining@.dom() =~= old(self).remaining_paths().difference(changed));
    }

    /// The dated files, in increasing path order.
    pub fn into_entries(self) -> (r: Vec<FileEntry>)
        ensures
            forall|i: int, j: int|
                0 <= i < j < r@.len() ==> path_lt(#[trigger] r@[i].path_of(), #[trigger] r@[j].path_of()),
            forall|i: int|
                0 <= i < r@.len() ==> #[trigger] self.dates().contains_key(r@[i].path_of())
                    && self.dates()[r@[i].path_of()] == (r@[i].date_of()@, r@[i].hash_of()),
            forall|p: Seq<char>|
                #[trigger] self.dates().contains_key(p) ==> exists|i: int| 0 <= i < r@.len() && r@[i].path_of() == p,
    {
        let n = self.file_dates.size();
        let ghost keys = self.file_dates.key_seq();
        let ghost dates = self.dates();
        let mut out: Vec<FileEntry> = Vec::new();
        let mut i: usize = 0;
        while i < n
            invariant
                i <= n == keys.len() == self.file_dates.key_seq().len(),
                keys == self.file_dates.key_seq(),
                dates == self.dates(),
                crate::pathmap::strictly_sorted(keys),
                out@.len() == i,
                forall|a: int| 0 <= a < i ==> (#[trigger] out@[a]).path_of() == keys[a],
                forall|a: int|
                    0 <= a < i ==> dates[keys[a]] == ((#[trigger] out@[a]).date_of()@, out@[a].hash_of()),
            decreases n - i,
        {
            let (path, value) = self.file_dates.entry(i);
            let hash = vstd::slice::slice_to_vec(value.1.as_slice());
            out.push(FileEntry::new(value.0, hash, path.clone()));
            i += 1;
        }
        proof {
            assert forall|p: Seq<char>| #[trigger] dates.contains_key(p) implies exists|a: int|
                0 <= a < out@.len() && out@[a].path_of() == p by {
                assert(self.file_dates@.contains_key(p));
                let n2 = self.file_dates.key_seq().len();
                assert(exists|a: int| 0 <= a < n2 && keys[a] == p);
                let a = choose|a: int| 0 <= a < n2 && keys[a] == p;
                assert(out@[a].path_of() == p);
            }
        }
        out
    }
}


/// A walk with a [`RemainingFilteredCollector`] collects only remaining paths.
pub proof fn law_collects_only_remaining(
    c: RemainingFilteredCollector,
    m: Map<Seq<char>, Seq<u8>>,
    prefix: Seq<char>,
    entries: Seq<TreeEntry>,
)
    requires
        m.dom().subset_of(c.remaining_paths()),
    ensures
        collected_after(c, m, prefix, entries).dom().subset_of(c.remaining_paths()),
    decreases entries.len(),
{
    if entries.len() > 0 {
        law_collects_only_remaining(c, m, prefix, entries.drop_last());
    }
}

/// Dating a commit whose collected blobs are all among the remaining paths: files dated
/// before keep their date (the newest commit that changed a file dates it), the newly dated
/// ones get the commit's date and blob, and every path is still either dated or remaining,
/// never both.
pub proof fn law_dates_settle(
    dates: Map<Seq<char>, (int, Seq<u8>)>,
    remaining: Set<Seq<char>>,
    current: Map<Seq<char>, Seq<u8>>,
    parent: Map<Seq<char>, Seq<u8>>,
    date: int,
)
    requires
        current.dom().subset_of(remaining),
        dates.dom().disjoint(remaining),
    ensures
        ({
            let dates2 = dates.union_prefer_right(dated_changes(current, parent, date));
            let remaining2 = remaining.difference(changed_paths(current, parent));
            &&& forall|p: Seq<char>|
                #[trigger] dates.contains_key(p) ==> dates2.contains_key(p) && dates2[p] == dates[p]
            &&& forall|p: Seq<char>|
                #[trigger] dates2.contains_key(p) && !dates.contains_key(p) ==> dates2[p] == (
                    date,
                    current[p],
                )
            &&& dates2.dom().disjoint(remaining2)
            &&& dates2.dom() + remaining2 == dates.dom() + remaining
        }),
{
    let dates2 = dates.union_prefer_right(dated_changes(current, parent, date));
    let remaining2 = remaining.difference(changed_paths(current, parent));
    assert(dates2.dom() + remaining2 =~= dates.dom() + remaining);
    assert(dates2.dom().disjoint(remaining2));
}


// ------------------------------------------------------------------------------------------
// Dating a whole history.

/// Whether commit `j` of a linear history (trees oldest first) changed path `p`: `p` is in its
/// tree, and its parent's tree (the first commit has none) lacks it or has another blob.
pub open spec fn changed_in(trees: Seq<Map<Seq<char>, Seq<u8>>>, j: int, p: Seq<char>) -> bool {
    &&& trees[j].contains_key(p)
    &&& !(j > 0 && trees[j - 1].contains_key(p) && trees[j - 1][p] == trees[j][p])
}

/// The newest commit at or after `k` that changed `p`, or `-1` when none did.
pub open spec fn newest_change_from(trees: Seq<Map<Seq<char>, Seq<u8>>>, k: int, p: Seq<char>) -> int
    decreases trees.len() - k,
{
    if k >= trees.len() {
        -1
    } else {
        let newer = newest_change_from(trees, k + 1, p);
        if newer >= 0 {
            newer
        } else if k >= 0 && changed_in(trees, k, p) {
            k
        } else {
            -1
        }
    }
}

/// The blobs that the scan reads for commit `k`: those of its tree among the remaining paths.
pub open spec fn commit_blobs(trees: Seq<Map<Seq<char>, Seq<u8>>>, k: int, remaining: Set<Seq<char>>) -> Map<
    Seq<char>,
    Seq<u8>,
> {
    trees[k].restrict(remaining)
}

/// The blobs that the scan reads for the parent of commit `k`: those of its parent's tree
/// among the remaining paths, none for the first commit.
pub open spec fn parent_blobs(trees: Seq<Map<Seq<char>, Seq<u8>>>, k: int, remaining: Set<Seq<char>>) -> Map<
    Seq<char>,
    Seq<u8>,
> {
    if k > 0 {
        trees[k - 1].restrict(remaining)
    } else {
        Map::empty()
    }
}

/// The dates and remaining paths after the scan has read the commits from the newest down to
/// `k` (as [`DateScan::record_commit`] updates them), starting from the paths `head`.
pub open spec fn scan_from(
    trees: Seq<Map<Seq<char>, Seq<u8>>>,
    days: Seq<int>,
    head: Set<Seq<char>>,
    k: int,
) -> (Map<Seq<char>, (int, Seq<u8>)>, Set<Seq<char>>)
    decreases trees.len() - k,
{
    if k >= trees.len() {
        (Map::empty(), head)
    } else {
        let (dates, remaining) = scan_from(trees, days, head, k + 1);
        let current = commit_blobs(trees, k, remaining);
        let parent = parent_blobs(trees, k, remaining);
        (
            dates.union_prefer_right(dated_changes(current, parent, days[k])),
            remaining.difference(changed_paths(current, parent)),
        )
    }
}

/// What the scan knows after reading the commits from the newest down to `k`.
spec fn scan_invariant(
    trees: Seq<Map<Seq<char>, Seq<u8>>>,
    days: Seq<int>,
    head: Set<Seq<char>>,
    k: int,
) -> bool {
    let n = trees.len() as int;
    let (dates, remaining) = scan_from(trees, days, head, k);
    &&& forall|p: Seq<char>|
        #[trigger] remaining.contains(p) <==> head.contains(p) && newest_change_from(trees, k, p) < 0
    &&& forall|p: Seq<char>|
        #[trigger] remaining.contains(p) ==> trees[k - 1].contains_key(p) && trees[k - 1][p] == trees[n - 1][p]
    &&& forall|p: Seq<char>|
        #[trigger] dates.contains_key(p) <==> head.contains(p) && newest_change_from(trees, k, p) >= 0
    &&& forall|p: Seq<char>|
        #[trigger] dates.contains_key(p) ==> k <= newest_change_from(trees, k, p) < n && dates[p] == (
            days[newest_change_from(trees, k, p)],
            trees[n - 1][p],
        )
}

proof fn lemma_newest_change_range(trees: Seq<Map<Seq<char>, Seq<u8>>>, k: int, p: Seq<char>)
    requires
        k >= 0,
    ensures
        newest_change_from(trees, k, p) == -1 || k <= newest_change_from(trees, k, p) < trees.len(),
    decreases trees.len() - k,
{
    if k < trees.len() {
        lemma_newest_change_range(trees, k + 1, p);
    }
}

proof fn lemma_scan_invariant(
    trees: Seq<Map<Seq<char>, Seq<u8>>>,
    days: Seq<int>,
    head: Set<Seq<char>>,
    k: int,
)
    requires
        trees.len() >= 1,
        days.len() == trees.len(),
        head.subset_of(trees[trees.len() - 1].dom()),
        1 <= k <= trees.len(),
    ensures
        scan_invariant(trees, days, head, k),
    decreases trees.len() - k,
{
    let n = trees.len() as int;
    if k == n {
        let (dates, remaining) = scan_from(trees, days, head, k);
        assert(dates == Map::<Seq<char>, (int, Seq<u8>)>::empty());
        assert(remaining == head);
    } else {
        lemma_scan_invariant(trees, days, head, k + 1);
        let (dates1, rem1) = scan_from(trees, days, head, k + 1);
        let current = commit_blobs(trees, k, rem1);
        let parent = parent_blobs(trees, k, rem1);
        let changed = changed_paths(current, parent);
        let (dates, remaining) = scan_from(trees, days, head, k);
        assert(dates == dates1.union_prefer_right(dated_changes(current, parent, days[k])));
        assert(remaining == rem1.difference(changed));
        assert forall|p: Seq<char>| #[trigger] changed.contains(p) <==> rem1.contains(p) && changed_in(trees, k, p) by {
            if rem1.contains(p) {
                assert(trees[k].contains_key(p) && trees[k][p] == trees[n - 1][p]);
            }
        }
        assert forall|p: Seq<char>| #[trigger] remaining.contains(p) <==> head.contains(p)
            && newest_change_from(trees, k, p) < 0 by {
            lemma_newest_change_range(trees, k + 1, p);
        }
        assert forall|p: Seq<char>| #[trigger] remaining.contains(p) implies trees[k - 1].contains_key(p)
            && trees[k - 1][p] == trees[n - 1][p] by {
            assert(rem1.contains(p) && !changed_in(trees, k, p));
            assert(trees[k].contains_key(p) && trees[k][p] == trees[n - 1][p]);
        }
        assert forall|p: Seq<char>| #[trigger] dates.contains_key(p) <==> head.contains(p)
            && newest_change_from(trees, k, p) >= 0 by {
            lemma_newest_change_range(trees, k + 1, p);
            if dates1.contains_key(p) {
                assert(!rem1.contains(p));
            }
        }
        assert forall|p: Seq<char>| #[trigger] dates.contains_key(p) implies k <= newest_change_from(trees, k, p) < n
            && dates[p] == (days[newest_change_from(trees, k, p)], trees[n - 1][p]) by {
            lemma_newest_change_range(trees, k + 1, p);
            if changed.contains(p) {
                assert(rem1.contains(p));
                assert(!dates1.contains_key(p));
                assert(current[p] == trees[n - 1][p]);
            } else {
                assert(dates1.contains_key(p));
            }
        }
    }
}

/// `list` dates each file with the newest commit that changed it. Scanning a linear history
/// (trees and dates, oldest commit first) from the newest commit down, and dating at each
/// commit the remaining paths whose blob differs from its parent's, ends with every path of
/// `head` (the files chosen at `HEAD`) dated by the newest commit that changed it, with its
/// blob at `HEAD`, and no path left.
pub proof fn law_scan_dates_newest_change(
    trees: Seq<Map<Seq<char>, Seq<u8>>>,
    days: Seq<int>,
    head: Set<Seq<char>>,
)
    requires
        trees.len() >= 1,
        days.len() == trees.len(),
        head.subset_of(trees[trees.len() - 1].dom()),
    ensures
        ({
            let (dates, remaining) = scan_from(trees, days, head, 0);
            &&& remaining == Set::<Seq<char>>::empty()
            &&& dates.dom() == head
            &&& forall|p: Seq<char>|
                #[trigger] head.contains(p) ==> 0 <= newest_change_from(trees, 0, p) < trees.len()
                    && dates[p] == (days[newest_change_from(trees, 0, p)], trees[trees.len() - 1][p])
        }),
{
    let n = trees.len() as int;
    lemma_scan_invariant(trees, days, head, 1);
    let (dates1, rem1) = scan_from(trees, days, head, 1);
    let current = commit_blobs(trees, 0, rem1);
    let parent = parent_blobs(trees, 0, rem1);
    let changed = changed_paths(current, parent);
    let (dates, remaining) = scan_from(trees, days, head, 0);
    assert(parent == Map::<Seq<char>, Seq<u8>>::empty());
    assert forall|p: Seq<char>| #[trigger] rem1.contains(p) implies changed.contains(p) by {
        assert(trees[0].contains_key(p));
    }
    assert(remaining =~= Set::<Seq<char>>::empty());
    assert forall|p: Seq<char>| #[trigger] head.contains(p) implies dates.contains_key(p) && 0 <= newest_change_from(
        trees,
        0,
        p,
    ) < n && dates[p] == (days[newest_change_from(trees, 0, p)], trees[n - 1][p]) by {
        lemma_newest_change_range(trees, 1, p);
        if rem1.contains(p) {
            assert(changed.contains(p));
            assert(changed_in(trees, 0, p));
            assert(current[p] == trees[n - 1][p]);
        } else {
            assert(dates1.contains_key(p));
        }
    }
    assert(dates.dom() =~= head);
}

/// Once every file is dated, reading further commits changes nothing: the scan may stop.
pub proof fn law_scan_may_stop_when_done(
    trees: Seq<Map<Seq<char>, Seq<u8>>>,
    days: Seq<int>,
    head: Set<Seq<char>>,
    k: int,
)
    requires
        0 <= k <= trees.len(),
        scan_from(trees, days, head, k).1 == Set::<Seq<char>>::empty(),
    ensures
        scan_from(trees, days, head, 0) == scan_from(trees, days, head, k),
    decreases k,
{
    if k > 0 {
        let (dates, remaining) = scan_from(trees, days, head, k);
        let j = k - 1;
        let current = commit_blobs(trees, j, remaining);
        let parent = parent_blobs(trees, j, remaining);
        assert(current =~= Map::<Seq<char>, Seq<u8>>::empty());
        assert(dated_changes(current, parent, days[j]) =~= Map::<Seq<char>, (int, Seq<u8>)>::empty());
        assert(dates.union_prefer_right(dated_changes(current, parent, days[j])) =~= dates);
        assert(remaining.difference(changed_paths(current, parent)) =~= remaining);
        law_scan_may_stop_when_done(trees, days, head, j);
    }
}

/// What the include and exclude globs select, told by the globs alone: a blob is collected
/// exactly when no exclude glob matches its name or its full path (`prefix/name`), and there
/// are no include globs or one of them matches its name or its full path.
pub proof fn law_globs_select_blob<'a>(c: IncludeExcludeCollector<'a>, prefix: Seq<char>, name: Seq<char>)
    ensures
        c.collects_blob(prefix, name) <==> ((forall|i: int|
            0 <= i < c.exclude_globs().len() ==> !glob_matches(#[trigger] c.exclude_globs()[i]@, name)
                && !glob_matches(c.exclude_globs()[i]@, joined_path(prefix, name))) && (c.include_globs().len()
            == 0 || exists|i: int|
            0 <= i < c.include_globs().len() && (glob_matches(#[trigger] c.include_globs()[i]@, name)
                || glob_matches(c.include_globs()[i]@, joined_path(prefix, name))))),
{
}

/// Which directories the globs prune, told by the globs alone: the walk goes into a
/// directory exactly when no exclude glob matches its full path (`prefix/name`).
pub proof fn law_globs_prune_dir<'a>(c: IncludeExcludeCollector<'a>, prefix: Seq<char>, name: Seq<char>)
    ensures
        c.includes_dir(prefix, name) <==> forall|i: int|
            0 <= i < c.exclude_globs().len() ==> !glob_matches(#[trigger] c.exclude_globs()[i]@, joined_path(prefix, name)),
{
}

/// No path that an exclude glob matches is ever collected: visiting the entries of a tree
/// adds to what was collected only paths that no exclude glob matches.
pub proof fn law_excluded_paths_not_collected<'a>(
    c: IncludeExcludeCollector<'a>,
    m: Map<Seq<char>, Seq<u8>>,
    prefix: Seq<char>,
    entries: Seq<TreeEntry>,
)
    ensures
        forall|p: Seq<char>, i: int|
            #[trigger] collected_after(c, m, prefix, entries).contains_key(p) && !m.contains_key(p) && 0 <= i
                < c.exclude_globs().len() ==> !glob_matches(#[trigger] c.exclude_globs()[i]@, p),
    decreases entries.len(),
{
    if entries.len() > 0 {
        law_excluded_paths_not_collected(c, m, prefix, entries.drop_last());
        let e = entries.last();
        assert forall|p: Seq<char>, i: int|
            #[trigger] collected_after(c, m, prefix, entries).contains_key(p) && !m.contains_key(p) && 0 <= i
                < c.exclude_globs().len() implies !glob_matches(#[trigger] c.exclude_globs()[i]@, p) by {
            let before = collected_after(c, m, prefix, entries.drop_last());
            if !before.contains_key(p) {
                assert(p == joined_path(prefix, e.name@));
                law_globs_select_blob(c, prefix, e.name@);
            }
        }
    }
}

/// No directory that an exclude glob matches is walked into: every subtree that visiting the
/// entries of a tree queues has a full path that no exclude glob matches, so nothing under an
/// excluded directory is read.
pub proof fn law_excluded_dirs_not_walked<'a>(c: IncludeExcludeCollector<'a>, prefix: Seq<char>, entries: Seq<TreeEntry>)
    ensures
        forall|k: int, i: int|
            0 <= k < queued_subtrees(c, prefix, entries).len() && 0 <= i < c.exclude_globs().len() ==> !glob_matches(
                #[trigger] c.exclude_globs()[i]@,
                #[trigger] queued_subtrees(c, prefix, entries)[k].0,
            ),
    decreases entries.len(),
{
    if entries.len() > 0 {
        let t = entries.drop_last();
        law_excluded_dirs_not_walked(c, prefix, t);
        let e = entries.last();
        let q = queued_subtrees(c, prefix, entries);
        let qt = queued_subtrees(c, prefix, t);
        assert forall|k: int, i: int|
            0 <= k < q.len() && 0 <= i < c.exclude_globs().len() implies !glob_matches(
                #[trigger] c.exclude_globs()[i]@,
                #[trigger] q[k].0,
            ) by {
            if k < qt.len() {
                assert(q[k] == qt[k]);
            } else {
                assert(q[k].0 == joined_path(prefix, e.name@));
                law_globs_prune_dir(c, prefix, e.name@);
            }
        }
    }
}

} // verus!
