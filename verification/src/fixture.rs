//! The fixture format, which describes a Git history as dated blocks of file changes:
//!
//! ```text
//! 2001-05-22:
//! +folder1/sub/file1.txt
//! +root-file.txt
//!
//! 2037-11-29:
//! -root-file.txt
//! +file2.txt
//! ```
//!
//! Each block is one commit: a date line ending in `:`, then one line per changed file,
//! `+` for a file added or modified, `-` for a file removed.

use vstd::prelude::*;

use crate::day::{epoch_day_text, Day};
use crate::git::{blob_ids, bytes_equal, changed_paths};
use crate::pathmap::{path_lt, PathMap};
use crate::text::{
    chars_of, is_blank, lemma_split_lines_append, lemma_split_lines_step, lemma_split_one_line,
    lemma_trim_unchanged, line_end, split_lines, trim, trim_range,
};

verus! {

/// Whether a fixture line adds (or modifies) a file, or removes it.
#[derive(Clone, Copy, Debug, PartialEq, Eq)]
pub enum OpKind {
    /// `+path`: the file is added or modified.
    Add,
    /// `-path`: the file is removed.
    Remove,
}

/// One changed file of a block.
#[derive(Debug)]
pub struct FixtureOp {
    /// Added or removed.
    pub kind: OpKind,
    /// The file's path from the repository root.
    pub path: String,
}

/// One commit: its date text and its changed files.
#[derive(Debug)]
pub struct FixtureBlock {
    /// The date, as written before the colon.
    pub date: String,
    /// The changed files, in order.
    pub ops: Vec<FixtureOp>,
}

/// An operation as plain values.
pub open spec fn op_view(op: FixtureOp) -> (OpKind, Seq<char>) {
    (op.kind, op.path@)
}

/// A block as plain values.
pub open spec fn block_view(b: FixtureBlock) -> (Seq<char>, Seq<(OpKind, Seq<char>)>) {
    (b.date@, b.ops@.map_values(|op: FixtureOp| op_view(op)))
}

/// Blocks as plain values.
pub open spec fn blocks_view(bs: Seq<FixtureBlock>) -> Seq<(Seq<char>, Seq<(OpKind, Seq<char>)>)> {
    bs.map_values(|b: FixtureBlock| block_view(b))
}

// ------------------------------------------------------------------------------------------
// The changes of a commit.

/// The paths that a commit removed: in its parent's tree, not in its own.
pub open spec fn removed_paths(current: Map<Seq<char>, Seq<u8>>, parent: Map<Seq<char>, Seq<u8>>) -> Set<
    Seq<char>,
> {
    Set::new(|p: Seq<char>| parent.contains_key(p) && !current.contains_key(p))
}

/// The changes of a commit, by path: added or modified files, and removed ones.
pub open spec fn commit_changes(current: Map<Seq<char>, Seq<u8>>, parent: Map<Seq<char>, Seq<u8>>) -> Map<
    Seq<char>,
    OpKind,
> {
    Map::new(
        |p: Seq<char>| changed_paths(current, parent).contains(p) || removed_paths(current, parent).contains(p),
        |p: Seq<char>|
            if changed_paths(current, parent).contains(p) {
                OpKind::Add
            } else {
                OpKind::Remove
            },
    )
}

/// The changes between a commit's tree `current` and its parent's tree `parent`, in
/// increasing path order.
pub fn diff_ops(current: &PathMap<Vec<u8>>, parent: &PathMap<Vec<u8>>) -> (r: Vec<FixtureOp>)
    ensures
        forall|i: int, j: int| 0 <= i < j < r@.len() ==> path_lt(#[trigger] r@[i].path@, #[trigger] r@[j].path@),
        forall|i: int|
            0 <= i < r@.len() ==> #[trigger] commit_changes(blob_ids(current@), blob_ids(parent@)).contains_key(r@[i].path@)
                && commit_changes(blob_ids(current@), blob_ids(parent@))[r@[i].path@] == r@[i].kind,
        forall|p: Seq<char>|
            #[trigger] commit_changes(blob_ids(current@), blob_ids(parent@)).contains_key(p) ==> exists|i: int|
                0 <= i < r@.len() && r@[i].path@ == p,
        lists_changes(r@.map_values(|op: FixtureOp| op_view(op)), blob_ids(current@), blob_ids(parent@)),
{
    let n = current.size();
    let ghost cur = blob_ids(current@);
    let ghost par = blob_ids(parent@);
    let ghost target = commit_changes(cur, par);
    let mut ops: PathMap<OpKind> = PathMap::new();
    let mut i: usize = 0;
    while i < n
        invariant
            i <= n == current.key_seq().len(),
            cur == blob_ids(current@),
            par == blob_ids(parent@),
            target == commit_changes(cur, par),
            forall|p: Seq<char>|
                #[trigger] ops@.contains_key(p) <==> (exists|a: int| 0 <= a < i && current.key_seq()[a] == p)
                    && changed_paths(cur, par).contains(p),
            forall|p: Seq<char>| #[trigger] ops@.contains_key(p) ==> ops@[p] == OpKind::Add,
        decreases n - i,
    {
        let (path, blob_hash) = current.entry(i);
        let ghost k = current.key_seq()[i as int];
        let is_changed = match parent.get(path.as_str()) {
            Some(parent_hash) => !bytes_equal(parent_hash.as_slice(), blob_hash.as_slice()),
            None => true,
        };
        assert(is_changed == changed_paths(cur, par).contains(k));
        if is_changed {
            ops.insert(path.clone(), OpKind::Add);
        }
        proof {
            assert forall|p: Seq<char>| #[trigger] ops@.contains_key(p) <==> (exists|a: int| 0 <= a < i + 1 && current.key_seq()[a] == p)
                && changed_paths(cur, par).contains(p) by {
                if exists|a: int| 0 <= a < i + 1 && current.key_seq()[a] == p {
                    let a = choose|a: int| 0 <= a < i + 1 && current.key_seq()[a] == p;
                    if a < i {
                        assert(exists|a: int| 0 <= a < i && current.key_seq()[a] == p);
                    }
                }
                if exists|a: int| 0 <= a < i && current.key_seq()[a] == p {
                    let a = choose|a: int| 0 <= a < i && current.key_seq()[a] == p;
                    assert(0 <= a < i + 1 && current.key_seq()[a] == p);
                }
            }
        }
        i += 1;
    }
    let m = parent.size();
        let mut j: usize = 0;
    while j < m
        invariant
            j <= m == parent.key_seq().len(),
            cur == blob_ids(current@),
            par == blob_ids(parent@),
            target == commit_changes(cur, par),
            forall|p: Seq<char>| #[trigger] current@.contains_key(p) ==> exists|a: int| 0 <= a < n && current.key_seq()[a] == p,
            forall|p: Seq<char>|
                #[trigger] ops@.contains_key(p) <==> changed_paths(cur, par).contains(p) || ((exists|a: int|
                    0 <= a < j && parent.key_seq()[a] == p) && removed_paths(cur, par).contains(p)),
            forall|p: Seq<char>| #[trigger] ops@.contains_key(p) ==> target.contains_key(p) && ops@[p] == target[p],
            forall|p: Seq<char>| #[trigger] changed_paths(cur, par).contains(p) ==> target.contains_key(p),
        decreases m - j,
    {
        let (path, _) = parent.entry(j);
        let ghost k = parent.key_seq()[j as int];
        let in_current = current.contains_key(path.as_str());
        if !in_current {
            ops.insert(path.clone(), OpKind::Remove);
        }
        proof {
            assert forall|p: Seq<char>| #[trigger] ops@.contains_key(p) <==> changed_paths(cur, par).contains(p) || ((exists|a: int|
                0 <= a < j + 1 && parent.key_seq()[a] == p) && removed_paths(cur, par).contains(p)) by {
                if exists|a: int| 0 <= a < j + 1 && parent.key_seq()[a] == p {
                    let a = choose|a: int| 0 <= a < j + 1 && parent.key_seq()[a] == p;
                    if a < j {
                        assert(exists|a: int| 0 <= a < j && parent.key_seq()[a] == p);
                    }
                }
                if exists|a: int| 0 <= a < j && parent.key_seq()[a] == p {
                    let a = choose|a: int| 0 <= a < j && parent.key_seq()[a] == p;
                    assert(0 <= a < j + 1 && parent.key_seq()[a] == p);
                }
            }
        }
        j += 1;
    }
    proof {
        assert forall|p: Seq<char>| #[trigger] target.contains_key(p) implies ops@.contains_key(p) by {
            if removed_paths(cur, par).contains(p) && !changed_paths(cur, par).contains(p) {
                assert(parent@.contains_key(p));
                assert(exists|a: int| 0 <= a < m && parent.key_seq()[a] == p);
            }
        }
    }
    let count = ops.size();
    let mut out: Vec<FixtureOp> = Vec::new();
    let mut k: usize = 0;
    while k < count
        invariant
            k <= count == ops.key_seq().len(),
            target == commit_changes(cur, par),
            forall|p: Seq<char>| #[trigger] ops@.contains_key(p) ==> target.contains_key(p) && ops@[p] == target[p],
            crate::pathmap::strictly_sorted(ops.key_seq()),
            out@.len() == k,
            forall|a: int|
                0 <= a < k ==> (#[trigger] out@[a]).path@ == ops.key_seq()[a] && ops@.contains_key(out@[a].path@)
                    && out@[a].kind == ops@[out@[a].path@],
        decreases count - k,
    {
        let (path, kind) = ops.entry(k);
        let op = FixtureOp { kind: *kind, path: path.clone() };
        out.push(op);
        k += 1;
    }
    proof {
        assert forall|p: Seq<char>| #[trigger] target.contains_key(p) implies exists|a: int|
            0 <= a < out@.len() && out@[a].path@ == p by {
            assert(ops@.contains_key(p));
            let a = choose|a: int| 0 <= a < count && ops.key_seq()[a] == p;
            assert(out@[a].path@ == p);
        }
        assert forall|a: int| 0 <= a < out@.len() implies #[trigger] target.contains_key(out@[a].path@)
            && target[out@[a].path@] == out@[a].kind by {
            assert(ops@.contains_key(out@[a].path@));
        }
    }
    proof {
        let v = out@.map_values(|op: FixtureOp| op_view(op));
        assert forall|p: Seq<char>| #[trigger] target.contains_key(p) implies exists|i: int|
            0 <= i < v.len() && v[i].1 == p by {
            let i = choose|i: int| 0 <= i < out@.len() && out@[i].path@ == p;
            assert(v[i].1 == out@[i].path@);
        }
        assert forall|i: int, j: int| 0 <= i < j < v.len() implies path_lt(#[trigger] v[i].1, #[trigger] v[j].1) by {
            assert(v[i].1 == out@[i].path@ && v[j].1 == out@[j].path@);
        }
        assert forall|i: int| 0 <= i < v.len() implies #[trigger] target.contains_key(v[i].1) && target[v[i].1] == v[i].0 by {
            assert(v[i] == op_view(out@[i]));
        }
    }
    out
}

// ------------------------------------------------------------------------------------------
// Writing fixtures.

/// The symbol of an operation: `+` or `-`.
pub open spec fn op_symbol(kind: OpKind) -> char {
    match kind {
        OpKind::Add => '+',
        OpKind::Remove => '-',
    }
}

/// The lines of the operations: symbol, path, line feed.
pub open spec fn ops_text(ops: Seq<(OpKind, Seq<char>)>) -> Seq<char>
    decreases ops.len(),
{
    if ops.len() == 0 {
        Seq::empty()
    } else {
        ops_text(ops.drop_last()) + seq![op_symbol(ops.last().0)] + ops.last().1 + seq!['\n']
    }
}

/// A block of the fixture text: an empty line, the date and a colon, then the operations.
pub open spec fn block_text(date: Seq<char>, ops: Seq<(OpKind, Seq<char>)>) -> Seq<char> {
    seq!['\n'] + date + seq![':', '\n'] + ops_text(ops)
}

/// The fixture text of a commit on `date` with the changes `ops`; empty when it changed
/// nothing (a merge commit), which is then left out.
pub fn render_block(date: Day, ops: &[FixtureOp]) -> (r: String)
    ensures
        r@ == (if ops@.len() == 0 {
            Seq::<char>::empty()
        } else {
            block_text(epoch_day_text(date@), ops@.map_values(|op: FixtureOp| op_view(op)))
        }),
{
    if ops.len() == 0 {
        return String::new();
    }
    proof {
        reveal_strlit("\n");
        reveal_strlit(":\n");
    }
    let mut s = "\n".to_owned();
    s.append(date.to_iso_string().as_str());
    s.append(":\n");
    let ghost head = seq!['\n'] + epoch_day_text(date@) + seq![':', '\n'];
    let ghost views = ops@.map_values(|op: FixtureOp| op_view(op));
    assert(s@ =~= head + ops_text(views.take(0)));
    let mut i: usize = 0;
    while i < ops.len()
        invariant
            i <= ops@.len(),
            views == ops@.map_values(|op: FixtureOp| op_view(op)),
            head == seq!['\n'] + epoch_day_text(date@) + seq![':', '\n'],
            s@ == head + ops_text(views.take(i as int)),
        decreases ops@.len() - i,
    {
        proof {
            reveal_strlit("+");
            reveal_strlit("-");
            reveal_strlit("\n");
        }
        match ops[i].kind {
            OpKind::Add => s.append("+"),
            OpKind::Remove => s.append("-"),
        }
        s.append(ops[i].path.as_str());
        s.append("\n");
        proof {
            let t = views.take(i + 1);
            assert(t.drop_last() =~= views.take(i as int));
            assert(t.last() == op_view(ops@[i as int]));
            assert(ops_text(t) == ops_text(views.take(i as int)) + seq![op_symbol(ops@[i as int].kind)]
                + ops@[i as int].path@ + seq!['\n']);
            assert(s@ =~= head + ops_text(t));
        }
        i += 1;
    }
    assert(views.take(ops@.len() as int) =~= views);
    s
}



// ------------------------------------------------------------------------------------------
// Reading fixtures.

/// Why a fixture text was refused.
#[derive(Clone, Copy, Debug, PartialEq, Eq)]
pub enum FixtureFailure {
    /// A date block has no file operations (every commit must change files).
    NoOps,
    /// A `+` line whose path has an empty file name.
    EmptyFilename,
    /// A line that is neither a date (ending in `:`) nor a `+` or `-` operation.
    BadLine,
    /// A file operation before the first date.
    OpBeforeDate,
}

/// A refused fixture text: why, and the date, path or line concerned.
#[derive(Debug)]
pub struct FixtureError {
    /// Why the text was refused.
    pub failure: FixtureFailure,
    /// The date, path or line concerned.
    pub text: String,
}

/// A block as plain values: its date and its operations.
pub type BlockView = (Seq<char>, Seq<(OpKind, Seq<char>)>);

/// What reading has gathered after some lines: the blocks, and a date line not yet followed by
/// an operation.
pub type ReadState = (Seq<BlockView>, Option<Seq<char>>);

/// Whether the file name of `path` (what follows its last `/`) is empty.
pub open spec fn empty_file_name(path: Seq<char>) -> bool {
    path.len() == 0 || path.last() == '/'
}

/// Reads one line.
pub open spec fn read_line(st: ReadState, raw: Seq<char>) -> Result<ReadState, (FixtureFailure, Seq<char>)> {
    let line = trim(raw);
    if line.len() == 0 {
        Ok(st)
    } else if line.last() == ':' {
        match st.1 {
            Some(prev) => Err((FixtureFailure::NoOps, prev)),
            None => Ok((st.0, Some(line.drop_last()))),
        }
    } else if line[0] != '+' && line[0] != '-' {
        Err((FixtureFailure::BadLine, line))
    } else if line[0] == '+' && empty_file_name(line.drop_first()) {
        Err((FixtureFailure::EmptyFilename, line.drop_first()))
    } else {
        let op = (if line[0] == '+' { OpKind::Add } else { OpKind::Remove }, line.drop_first());
        match st.1 {
            Some(date) => Ok((st.0.push((date, seq![op])), None)),
            None => if st.0.len() == 0 {
                Err((FixtureFailure::OpBeforeDate, line))
            } else {
                Ok((st.0.update(st.0.len() - 1, (st.0.last().0, st.0.last().1.push(op))), None))
            },
        }
    }
}

/// Reads the lines one after the other, stopping at the first refused one.
pub open spec fn read_lines(lines: Seq<Seq<char>>) -> Result<ReadState, (FixtureFailure, Seq<char>)>
    decreases lines.len(),
{
    if lines.len() == 0 {
        Ok((Seq::empty(), None))
    } else {
        match read_lines(lines.drop_last()) {
            Err(e) => Err(e),
            Ok(st) => read_line(st, lines.last()),
        }
    }
}

/// The blocks of a fixture text: its lines are read after trimming blanks, skipping empty
/// ones; a date line not followed by an operation is refused.
pub open spec fn parse_spec(text: Seq<char>) -> Result<Seq<BlockView>, (FixtureFailure, Seq<char>)> {
    match read_lines(split_lines(text)) {
        Err(e) => Err(e),
        Ok(st) => match st.1 {
            Some(date) => Err((FixtureFailure::NoOps, date)),
            None => Ok(st.0),
        },
    }
}

/// Once a line is refused, further lines do not change the outcome.
proof fn lemma_read_lines_err(lines: Seq<Seq<char>>, more: Seq<Seq<char>>)
    requires
        read_lines(lines) is Err,
    ensures
        read_lines(lines + more) == read_lines(lines),
    decreases more.len(),
{
    if more.len() > 0 {
        lemma_read_lines_err(lines, more.drop_last());
        assert((lines + more).drop_last() =~= lines + more.drop_last());
    } else {
        assert(lines + more =~= lines);
    }
}

/// An error value from its parts.
fn fixture_error(failure: FixtureFailure, text: String) -> (r: FixtureError)
    ensures
        r.failure == failure,
        r.text@ == text@,
{
    FixtureError { failure, text }
}

/// Reads a fixture text into its blocks.
///
/// # Errors
/// At the first refused line (see [`FixtureFailure`]), or when the last date has no
/// operation.
pub fn parse_fixture(text: &str) -> (r: Result<Vec<FixtureBlock>, FixtureError>)
    ensures
        match parse_spec(text@) {
            Ok(blocks) => r matches Ok(v) && blocks_view(v@) == blocks,
            Err(e) => r matches Err(err) && (err.failure, err.text@) == e,
        },
{
    let chars = chars_of(text);
    let len = chars.len();
    let mut blocks: Vec<FixtureBlock> = Vec::new();
    let mut next_date: Option<String> = None;
    let ghost mut done: Seq<Seq<char>> = Seq::empty();
    let mut start: usize = 0;
    proof {
        assert(blocks_view(blocks@) =~= Seq::<BlockView>::empty());
        assert(chars@.skip(0) =~= chars@);
        assert(done + split_lines(chars@.skip(0)) =~= split_lines(chars@));
    }
    while start < len
        invariant
            chars@ == text@,
            len == chars@.len(),
            start <= len,
            done + split_lines(chars@.skip(start as int)) == split_lines(chars@),
            read_lines(done) == Ok::<ReadState, (FixtureFailure, Seq<char>)>(
                (
                    blocks_view(blocks@),
                    match next_date {
                        Some(d) => Some(d@),
                        None => None,
                    },
                ),
            ),
        decreases len - start,
    {
        let end = line_end(&chars, start);
        let ghost line = chars@.subrange(start as int, end as int);
        proof {
            lemma_split_lines_step(chars@, start as int, end as int);
        }
        let ghost rest = if end < len { split_lines(chars@.skip(end + 1)) } else { Seq::empty() };
        let ghost st = read_lines(done)->Ok_0;
        let ghost done2 = done.push(line);
        proof {
            assert(done2.drop_last() =~= done);
            assert(done2 + rest =~= done + (seq![line] + rest));
        }
        let (a, b) = trim_range(&chars, start, end);
        let ghost tl = chars@.subrange(a as int, b as int);
        assert(tl == trim(line));
        if a < b {
            if chars[b - 1] == ':' {
                let date = text.substring_char(a, b - 1).to_owned();
                assert(date@ =~= tl.drop_last());
                match next_date {
                    Some(prev) => {
                        proof {
                            lemma_read_lines_err(done2, rest);
                            lemma_read_lines_err(done2 + rest, Seq::empty());
                        }
                        return Err(fixture_error(FixtureFailure::NoOps, prev));
                    },
                    None => {
                        next_date = Some(date);
                    },
                }
            } else {
                let first = chars[a];
                assert(first == tl[0]);
                if first != '+' && first != '-' {
                    let bad = text.substring_char(a, b).to_owned();
                    proof {
                        lemma_read_lines_err(done2, rest);
                    }
                    return Err(fixture_error(FixtureFailure::BadLine, bad));
                }
                let path = text.substring_char(a + 1, b).to_owned();
                assert(path@ =~= tl.drop_first());
                if first == '+' && (a + 1 == b || chars[b - 1] == '/') {
                    proof {
                        lemma_read_lines_err(done2, rest);
                    }
                    return Err(fixture_error(FixtureFailure::EmptyFilename, path));
                }
                let kind = if first == '+' { OpKind::Add } else { OpKind::Remove };
                let op = FixtureOp { kind, path };
                let ghost opv = op_view(op);
                match next_date.take() {
                    Some(date) => {
                        let mut ops: Vec<FixtureOp> = Vec::new();
                        ops.push(op);
                        let ghost bv = blocks_view(blocks@);
                        let block = FixtureBlock { date, ops };
                        proof {
                            assert(block.ops@.map_values(|o: FixtureOp| op_view(o)) =~= seq![opv]);
                            assert(block_view(block) == (block.date@, seq![opv]));
                        }
                        let ghost dv = block.date@;
                        blocks.push(block);
                        proof {
                            assert(blocks_view(blocks@) =~= bv.push((dv, seq![opv])));
                        }
                    },
                    None => {
                        if blocks.len() == 0 {
                            let bad = text.substring_char(a, b).to_owned();
                            proof {
                                lemma_read_lines_err(done2, rest);
                            }
                            return Err(fixture_error(FixtureFailure::OpBeforeDate, bad));
                        }
                        let ghost bv = blocks_view(blocks@);
                        let mut last = blocks.pop().unwrap();
                        let ghost last_view = block_view(last);
                        last.ops.push(op);
                        proof {
                            assert(last.ops@.map_values(|o: FixtureOp| op_view(o)) =~= last_view.1.push(opv));
                        }
                        blocks.push(last);
                        proof {
                            assert(blocks_view(blocks@) =~= bv.update(bv.len() - 1, (bv.last().0, bv.last().1.push(opv))));
                        }
                    },
                }
            }
        }
        proof {
            done = done2;
        }
        start = if end < len { end + 1 } else { end };
        proof {
            if end == len {
                assert(chars@.skip(start as int) =~= Seq::<char>::empty());
                assert(split_lines(chars@.skip(start as int)) =~= Seq::<Seq<char>>::empty());
            }
            assert(done + split_lines(chars@.skip(start as int)) =~= split_lines(chars@));
        }
    }
    proof {
        assert(chars@.skip(start as int) =~= Seq::<char>::empty());
        assert(done =~= split_lines(chars@));
    }
    match next_date {
        Some(date) => Err(fixture_error(FixtureFailure::NoOps, date)),
        None => Ok(blocks),
    }
}


// ------------------------------------------------------------------------------------------
// Writing, then reading.

/// The fixture text of blocks: their texts one after the other.
pub open spec fn fixture_text(blocks: Seq<BlockView>) -> Seq<char>
    decreases blocks.len(),
{
    if blocks.len() == 0 {
        Seq::empty()
    } else {
        fixture_text(blocks.drop_last()) + block_text(blocks.last().0, blocks.last().1)
    }
}

/// Whether `s` has no line feed.
pub open spec fn one_line(s: Seq<char>) -> bool {
    forall|j: int| 0 <= j < s.len() ==> s[j] != '\n'
}

/// A date that a block line can hold: one line, not starting with a blank.
pub open spec fn writable_date(date: Seq<char>) -> bool {
    one_line(date) && (date.len() == 0 || !is_blank(date[0]))
}

/// An operation that a line can hold: its path is one line and does not end with a blank or
/// a colon (the line would be read as a date); an added file has a file name.
pub open spec fn writable_op(op: (OpKind, Seq<char>)) -> bool {
    &&& one_line(op.1)
    &&& (op.1.len() == 0 || (!is_blank(op.1.last()) && op.1.last() != ':'))
    &&& (op.0 == OpKind::Add ==> !empty_file_name(op.1))
}

/// Blocks that the fixture format writes and reads back: each has an operation, and dates and
/// operations fit their lines.
pub open spec fn writable_blocks(blocks: Seq<BlockView>) -> bool {
    forall|i: int|
        0 <= i < blocks.len() ==> {
            &&& (#[trigger] blocks[i]).1.len() > 0
            &&& writable_date(blocks[i].0)
            &&& forall|j: int| 0 <= j < blocks[i].1.len() ==> writable_op(#[trigger] blocks[i].1[j])
        }
}

/// The line of an operation.
pub open spec fn op_line(op: (OpKind, Seq<char>)) -> Seq<char> {
    seq![op_symbol(op.0)] + op.1
}

/// The lines of the operations.
pub open spec fn op_lines(ops: Seq<(OpKind, Seq<char>)>) -> Seq<Seq<char>>
    decreases ops.len(),
{
    if ops.len() == 0 {
        Seq::empty()
    } else {
        op_lines(ops.drop_last()).push(op_line(ops.last()))
    }
}

/// Reads the lines from the state `st` on.
pub open spec fn read_from(st: ReadState, lines: Seq<Seq<char>>) -> Result<ReadState, (FixtureFailure, Seq<char>)>
    decreases lines.len(),
{
    if lines.len() == 0 {
        Ok(st)
    } else {
        match read_from(st, lines.drop_last()) {
            Err(e) => Err(e),
            Ok(s2) => read_line(s2, lines.last()),
        }
    }
}

proof fn lemma_read_lines_from(lines: Seq<Seq<char>>)
    ensures
        read_lines(lines) == read_from((Seq::empty(), None), lines),
    decreases lines.len(),
{
    if lines.len() > 0 {
        lemma_read_lines_from(lines.drop_last());
    }
}

proof fn lemma_read_from_append(st: ReadState, a: Seq<Seq<char>>, b: Seq<Seq<char>>)
    ensures
        read_from(st, a + b) == (match read_from(st, a) {
            Err(e) => Err(e),
            Ok(s2) => read_from(s2, b),
        }),
    decreases b.len(),
{
    if b.len() == 0 {
        assert(a + b =~= a);
    } else {
        lemma_read_from_append(st, a, b.drop_last());
        assert((a + b).drop_last() =~= a + b.drop_last());
        assert((a + b).last() == b.last());
    }
}

proof fn lemma_ops_text_lines(ops: Seq<(OpKind, Seq<char>)>)
    requires
        forall|j: int| 0 <= j < ops.len() ==> writable_op(#[trigger] ops[j]),
    ensures
        split_lines(ops_text(ops)) == op_lines(ops),
        ops.len() == 0 || ops_text(ops).last() == '\n',
        ops.len() == 0 ==> ops_text(ops).len() == 0,
    decreases ops.len(),
{
    if ops.len() > 0 {
        let init = ops.drop_last();
        assert forall|j: int| 0 <= j < init.len() implies writable_op(#[trigger] init[j]) by {
            assert(init[j] == ops[j]);
        }
        lemma_ops_text_lines(init);
        let op = ops.last();
        assert(writable_op(ops[ops.len() - 1]));
        let line = op_line(op);
        assert(one_line(line)) by {
            assert forall|j: int| 0 <= j < line.len() implies line[j] != '\n' by {
                if j > 0 {
                    assert(line[j] == op.1[j - 1]);
                }
            }
        }
        assert(ops_text(ops) =~= ops_text(init) + (line + seq!['\n']));
        lemma_split_lines_append(ops_text(init), line + seq!['\n']);
        lemma_split_one_line(line);
        assert(op_lines(ops) =~= op_lines(init) + seq![line]);
    }
}

proof fn lemma_block_text_lines(date: Seq<char>, ops: Seq<(OpKind, Seq<char>)>)
    requires
        writable_date(date),
        forall|j: int| 0 <= j < ops.len() ==> writable_op(#[trigger] ops[j]),
    ensures
        split_lines(block_text(date, ops)) == seq![Seq::<char>::empty(), date + seq![':']] + op_lines(ops),
        block_text(date, ops).last() == '\n',
{
    lemma_ops_text_lines(ops);
    let head = date + seq![':'];
    assert(one_line(head)) by {
        assert forall|j: int| 0 <= j < head.len() implies head[j] != '\n' by {
            if j < date.len() {
                assert(head[j] == date[j]);
            }
        }
    }
    let t = block_text(date, ops);
    assert(t =~= seq!['\n'] + ((head + seq!['\n']) + ops_text(ops)));
    lemma_split_lines_append(seq!['\n'], (head + seq!['\n']) + ops_text(ops));
    lemma_split_one_line(Seq::<char>::empty());
    assert(Seq::<char>::empty() + seq!['\n'] =~= seq!['\n']);
    lemma_split_lines_append(head + seq!['\n'], ops_text(ops));
    lemma_split_one_line(head);
    assert(seq![Seq::<char>::empty()] + (seq![head] + op_lines(ops)) =~= seq![Seq::<char>::empty(), head]
        + op_lines(ops));
}

/// Reading the operation lines of a block after its date line.
proof fn lemma_read_op_lines(bs: Seq<BlockView>, date: Seq<char>, ops: Seq<(OpKind, Seq<char>)>)
    requires
        ops.len() > 0,
        forall|j: int| 0 <= j < ops.len() ==> writable_op(#[trigger] ops[j]),
    ensures
        read_from((bs, Some(date)), op_lines(ops)) == Ok::<ReadState, (FixtureFailure, Seq<char>)>(
            (bs.push((date, ops)), None),
        ),
    decreases ops.len(),
{
    let op = ops.last();
    assert(writable_op(ops[ops.len() - 1]));
    let line = op_line(op);
    assert(line[0] == op_symbol(op.0));
    if op.1.len() > 0 {
        assert(line.last() == op.1.last());
    }
    lemma_trim_unchanged(line);
    assert(line.drop_first() =~= op.1);
    let init = ops.drop_last();
    assert(op_lines(ops).drop_last() =~= op_lines(init));
    assert(op_lines(ops).last() == line);
    if init.len() == 0 {
        assert(op_lines(init) =~= Seq::<Seq<char>>::empty());
        assert(seq![op] =~= ops);
    } else {
        assert forall|j: int| 0 <= j < init.len() implies writable_op(#[trigger] init[j]) by {
            assert(init[j] == ops[j]);
        }
        lemma_read_op_lines(bs, date, init);
        let before = bs.push((date, init));
        assert(before.update(before.len() - 1, (before.last().0, before.last().1.push(op))) =~= bs.push(
            (date, ops),
        )) by {
            assert(init.push(op) =~= ops);
        }
    }
}

/// Reading the lines of a block.
proof fn lemma_read_block(bs: Seq<BlockView>, date: Seq<char>, ops: Seq<(OpKind, Seq<char>)>)
    requires
        ops.len() > 0,
        writable_date(date),
        forall|j: int| 0 <= j < ops.len() ==> writable_op(#[trigger] ops[j]),
    ensures
        read_from((bs, None), seq![Seq::<char>::empty(), date + seq![':']] + op_lines(ops))
            == Ok::<ReadState, (FixtureFailure, Seq<char>)>((bs.push((date, ops)), None)),
{
    let head = date + seq![':'];
    let first = seq![Seq::<char>::empty(), head];
    lemma_read_from_append((bs, None), first, op_lines(ops));
    assert(first.drop_last() =~= seq![Seq::<char>::empty()]);
    assert(seq![Seq::<char>::empty()].drop_last() =~= Seq::<Seq<char>>::empty());
    assert(trim(Seq::<char>::empty()) =~= Seq::<char>::empty());
    if date.len() > 0 {
        assert(head[0] == date[0]);
    }
    lemma_trim_unchanged(head);
    assert(head.drop_last() =~= date);
    assert(head.last() == ':');
    let st: ReadState = (bs, None);
    assert(read_line(st, Seq::<char>::empty()) == Ok::<ReadState, (FixtureFailure, Seq<char>)>(st));
    assert(read_from(st, Seq::<Seq<char>>::empty()) == Ok::<ReadState, (FixtureFailure, Seq<char>)>(st));
    assert(read_from(st, seq![Seq::<char>::empty()]) == Ok::<ReadState, (FixtureFailure, Seq<char>)>(st));
    assert(read_line(st, head) == Ok::<ReadState, (FixtureFailure, Seq<char>)>((bs, Some(date))));
    assert(read_from(st, first) == Ok::<ReadState, (FixtureFailure, Seq<char>)>((bs, Some(date))));
    lemma_read_op_lines(bs, date, ops);
}

/// What the fixture format writes, it reads back: the text of writable blocks is read as
/// those blocks.
pub proof fn law_fixture_round_trip(blocks: Seq<BlockView>)
    requires
        writable_blocks(blocks),
    ensures
        parse_spec(fixture_text(blocks)) == Ok::<Seq<BlockView>, (FixtureFailure, Seq<char>)>(blocks),
{
    lemma_fixture_lines(blocks);
    lemma_read_lines_from(fixture_lines(blocks));
}

/// The lines of the text of blocks.
pub open spec fn fixture_lines(blocks: Seq<BlockView>) -> Seq<Seq<char>>
    decreases blocks.len(),
{
    if blocks.len() == 0 {
        Seq::empty()
    } else {
        fixture_lines(blocks.drop_last()) + (seq![Seq::<char>::empty(), blocks.last().0 + seq![':']]
            + op_lines(blocks.last().1))
    }
}

proof fn lemma_fixture_lines(blocks: Seq<BlockView>)
    requires
        writable_blocks(blocks),
    ensures
        split_lines(fixture_text(blocks)) == fixture_lines(blocks),
        read_from((Seq::empty(), None), fixture_lines(blocks)) == Ok::<ReadState, (FixtureFailure, Seq<char>)>(
            (blocks, None),
        ),
        blocks.len() == 0 || fixture_text(blocks).last() == '\n',
        blocks.len() == 0 ==> fixture_text(blocks).len() == 0,
    decreases blocks.len(),
{
    let st0: ReadState = (Seq::empty(), None);
    if blocks.len() == 0 {
        assert(split_lines(Seq::<char>::empty()) =~= Seq::<Seq<char>>::empty());
        assert(blocks =~= Seq::<BlockView>::empty());
        assert(read_from(st0, fixture_lines(blocks)) == Ok::<ReadState, (FixtureFailure, Seq<char>)>(st0));
    } else {
        let init = blocks.drop_last();
        assert(writable_blocks(init)) by {
            assert forall|i: int| 0 <= i < init.len() implies {
                &&& (#[trigger] init[i]).1.len() > 0
                &&& writable_date(init[i].0)
                &&& forall|j: int| 0 <= j < init[i].1.len() ==> writable_op(#[trigger] init[i].1[j])
            } by {
                assert(init[i] == blocks[i]);
            }
        }
        lemma_fixture_lines(init);
        let b = blocks.last();
        assert(b == blocks[blocks.len() - 1]);
        assert(b.1.len() > 0 && writable_date(b.0));
        assert forall|j: int| 0 <= j < b.1.len() implies writable_op(#[trigger] b.1[j]) by {
            assert(writable_op(blocks[blocks.len() - 1].1[j]));
        }
        lemma_block_text_lines(b.0, b.1);
        lemma_split_lines_append(fixture_text(init), block_text(b.0, b.1));
        lemma_read_from_append(
            (Seq::empty(), None),
            fixture_lines(init),
            seq![Seq::<char>::empty(), b.0 + seq![':']] + op_lines(b.1),
        );
        lemma_read_block(init, b.0, b.1);
        assert(init.push(b) =~= blocks);
        assert(fixture_text(blocks) == fixture_text(init) + block_text(b.0, b.1));
        let bl = seq![Seq::<char>::empty(), b.0 + seq![':']] + op_lines(b.1);
        assert(fixture_lines(blocks) == fixture_lines(init) + bl);
        assert(read_from(st0, fixture_lines(init)) == Ok::<ReadState, (FixtureFailure, Seq<char>)>((init, None)));
        assert(read_from((init, None), bl) == Ok::<ReadState, (FixtureFailure, Seq<char>)>((blocks, None)));
        assert(read_from(st0, fixture_lines(init) + bl) == Ok::<ReadState, (FixtureFailure, Seq<char>)>(
            (blocks, None),
        ));
    }
}

// ------------------------------------------------------------------------------------------
// A history built from a fixture, dumped back.

/// Whether `r`, in increasing path order, lists exactly the changes between the trees
/// `current` and `parent` (what [`diff_ops`] returns).
pub open spec fn lists_changes(
    r: Seq<(OpKind, Seq<char>)>,
    current: Map<Seq<char>, Seq<u8>>,
    parent: Map<Seq<char>, Seq<u8>>,
) -> bool {
    &&& forall|i: int, j: int| 0 <= i < j < r.len() ==> path_lt(#[trigger] r[i].1, #[trigger] r[j].1)
    &&& forall|i: int|
        0 <= i < r.len() ==> #[trigger] commit_changes(current, parent).contains_key(r[i].1)
            && commit_changes(current, parent)[r[i].1] == r[i].0
    &&& forall|p: Seq<char>|
        #[trigger] commit_changes(current, parent).contains_key(p) ==> exists|i: int|
            0 <= i < r.len() && r[i].1 == p
}

/// The operations of a block, by path (a later operation on a path wins).
pub open spec fn changes_of(ops: Seq<(OpKind, Seq<char>)>) -> Map<Seq<char>, OpKind>
    decreases ops.len(),
{
    if ops.len() == 0 {
        Map::empty()
    } else {
        changes_of(ops.drop_last()).insert(ops.last().1, ops.last().0)
    }
}

/// With no path twice, `changes_of` holds each operation's path with its kind, and no other.
proof fn lemma_changes_of(ops: Seq<(OpKind, Seq<char>)>)
    requires
        forall|x: int, y: int| 0 <= x < y < ops.len() ==> (#[trigger] ops[x]).1 != (#[trigger] ops[y]).1,
    ensures
        forall|p: Seq<char>| #[trigger] changes_of(ops).contains_key(p) <==> has_path(ops, p),
        forall|x: int| 0 <= x < ops.len() ==> #[trigger] changes_of(ops)[ops[x].1] == ops[x].0,
    decreases ops.len(),
{
    if ops.len() > 0 {
        let t = ops.drop_last();
        assert forall|x: int, y: int| 0 <= x < y < t.len() implies (#[trigger] t[x]).1 != (#[trigger] t[y]).1 by {
            assert(t[x] == ops[x] && t[y] == ops[y]);
        }
        lemma_changes_of(t);
        let n = ops.len() - 1;
        assert(changes_of(ops) == changes_of(t).insert(ops[n].1, ops[n].0));
        assert(has_path(ops, ops[n].1));
        assert forall|p: Seq<char>| #[trigger] changes_of(ops).contains_key(p) <==> has_path(ops, p) by {
            if has_path(ops, p) {
                let y = choose|y: int| 0 <= y < ops.len() && (#[trigger] ops[y]).1 == p;
                if y < n {
                    assert(t[y] == ops[y]);
                    assert(has_path(t, p));
                }
            }
            if has_path(t, p) {
                let y = choose|y: int| 0 <= y < t.len() && (#[trigger] t[y]).1 == p;
                assert(ops[y] == t[y]);
            }
        }
        assert forall|x: int| 0 <= x < ops.len() implies #[trigger] changes_of(ops)[ops[x].1] == ops[x].0 by {
            if x < n {
                assert(t[x] == ops[x]);
                assert(ops[x].1 != ops[n].1);
            }
        }
    }
}

/// The tree after a commit that applies `ops` to `tree`: an added (or modified) file gets
/// the blob id that `ids` gives it, a removed file leaves, the others stay.
pub open spec fn apply_ops(
    tree: Map<Seq<char>, Seq<u8>>,
    ops: Seq<(OpKind, Seq<char>)>,
    ids: Map<Seq<char>, Seq<u8>>,
) -> Map<Seq<char>, Seq<u8>> {
    Map::new(
        |p: Seq<char>|
            if changes_of(ops).contains_key(p) {
                changes_of(ops)[p] == OpKind::Add
            } else {
                tree.contains_key(p)
            },
        |p: Seq<char>|
            if changes_of(ops).contains_key(p) {
                ids[p]
            } else {
                tree[p]
            },
    )
}

/// A block as a history writes it on `tree`: its files in increasing path order, each added
/// or modified file with a blob id it did not have, each removed file present.
pub open spec fn canonical_block(
    tree: Map<Seq<char>, Seq<u8>>,
    ops: Seq<(OpKind, Seq<char>)>,
    ids: Map<Seq<char>, Seq<u8>>,
) -> bool {
    &&& forall|i: int, j: int| 0 <= i < j < ops.len() ==> path_lt(#[trigger] ops[i].1, #[trigger] ops[j].1)
    &&& forall|i: int|
        0 <= i < ops.len() && (#[trigger] ops[i]).0 == OpKind::Add ==> ids.contains_key(ops[i].1)
            && !(tree.contains_key(ops[i].1) && tree[ops[i].1] == ids[ops[i].1])
    &&& forall|i: int| 0 <= i < ops.len() && (#[trigger] ops[i]).0 == OpKind::Remove ==> tree.contains_key(ops[i].1)
}

/// Whether some operation of `ops` is on path `p`.
pub open spec fn has_path(ops: Seq<(OpKind, Seq<char>)>, p: Seq<char>) -> bool {
    exists|y: int| 0 <= y < ops.len() && (#[trigger] ops[y]).1 == p
}

/// Two lists in strictly increasing path order with the same paths are the same list, up to
/// index `i`.
proof fn lemma_sorted_ops_agree(a: Seq<(OpKind, Seq<char>)>, b: Seq<(OpKind, Seq<char>)>, i: int)
    requires
        forall|x: int, y: int| 0 <= x < y < a.len() ==> path_lt(#[trigger] a[x].1, #[trigger] a[y].1),
        forall|x: int, y: int| 0 <= x < y < b.len() ==> path_lt(#[trigger] b[x].1, #[trigger] b[y].1),
        forall|x: int| 0 <= x < a.len() ==> #[trigger] has_path(b, a[x].1),
        forall|y: int| 0 <= y < b.len() ==> #[trigger] has_path(a, b[y].1),
        0 <= i <= a.len(),
        i <= b.len(),
    ensures
        forall|k: int| 0 <= k < i ==> b[k].1 == a[k].1,
    decreases i,
{
    if i > 0 {
        let h = i - 1;
        lemma_sorted_ops_agree(a, b, h);
        let pa = a[h].1;
        let pb = b[h].1;
        assert(has_path(b, pa));
        assert(has_path(a, pb));
        let j = choose|y: int| 0 <= y < b.len() && (#[trigger] b[y]).1 == pa;
        let k = choose|x: int| 0 <= x < a.len() && (#[trigger] a[x]).1 == pb;
        crate::pathmap::lemma_path_lt_irreflexive(pa);
        crate::pathmap::lemma_path_lt_irreflexive(pb);
        crate::pathmap::lemma_path_lt_total(pa, pb);
        if j < h {
            assert(b[j].1 == a[j].1);
            assert(path_lt(a[j].1, a[h].1));
        } else if k < h {
            assert(b[k].1 == a[k].1);
            assert(path_lt(b[k].1, b[h].1));
        } else if j > h {
            assert(path_lt(b[h].1, b[j].1));
            if k > h {
                assert(path_lt(a[h].1, a[k].1));
            }
        }
    }
}

/// Reading a commit back: when a block changes `tree` as a history writes it, the changes
/// between the commit's tree and `tree` are the block's operations, so the list of them in
/// path order (what [`diff_ops`] returns) is the block itself.
pub proof fn law_dump_gives_back_block(
    tree: Map<Seq<char>, Seq<u8>>,
    ops: Seq<(OpKind, Seq<char>)>,
    ids: Map<Seq<char>, Seq<u8>>,
    r: Seq<(OpKind, Seq<char>)>,
)
    requires
        canonical_block(tree, ops, ids),
        lists_changes(r, apply_ops(tree, ops, ids), tree),
    ensures
        r == ops,
{
    let cur = apply_ops(tree, ops, ids);
    let ch = changes_of(ops);
    let cc = commit_changes(cur, tree);
    // the changes of the commit are the block's operations
    assert forall|x: int, y: int| 0 <= x < y < ops.len() implies (#[trigger] ops[x]).1 != (#[trigger] ops[y]).1 by {
        crate::pathmap::lemma_path_lt_irreflexive(ops[x].1);
        assert(path_lt(ops[x].1, ops[y].1));
    }
    lemma_changes_of(ops);
    assert forall|x: int| 0 <= x < ops.len() implies #[trigger] ch.contains_key(ops[x].1) && ch[ops[x].1] == ops[x].0 by {
        assert(has_path(ops, ops[x].1));
    }
    assert forall|p: Seq<char>| #[trigger] cc.contains_key(p) <==> ch.contains_key(p) by {
        if ch.contains_key(p) {
            assert(has_path(ops, p));
            let x = choose|x: int| 0 <= x < ops.len() && (#[trigger] ops[x]).1 == p;
            assert(ch[p] == ops[x].0);
            if ops[x].0 == OpKind::Add {
                assert(changed_paths(cur, tree).contains(p));
            } else {
                assert(removed_paths(cur, tree).contains(p));
            }
        } else {
            assert(!changed_paths(cur, tree).contains(p));
            assert(!removed_paths(cur, tree).contains(p));
        }
    }
    assert forall|x: int| 0 <= x < ops.len() implies #[trigger] cc.contains_key(ops[x].1) && cc[ops[x].1] == ops[x].0 by {
        let p = ops[x].1;
        assert(ch.contains_key(p) && ch[p] == ops[x].0);
        if ops[x].0 == OpKind::Add {
            assert(changed_paths(cur, tree).contains(p));
        } else {
            assert(!changed_paths(cur, tree).contains(p));
        }
    }
    // both lists are in increasing path order over the same paths
    assert forall|x: int| 0 <= x < ops.len() implies #[trigger] has_path(r, ops[x].1) by {
        assert(cc.contains_key(ops[x].1));
    }
    assert forall|y: int| 0 <= y < r.len() implies #[trigger] has_path(ops, r[y].1) by {
        assert(cc.contains_key(r[y].1));
        assert(ch.contains_key(r[y].1));
    }
    let n = if ops.len() < r.len() { ops.len() as int } else { r.len() as int };
    lemma_sorted_ops_agree(ops, r, n);
    if r.len() > ops.len() {
        let y = ops.len() as int;
        assert(has_path(ops, r[y].1));
        let x = choose|x: int| 0 <= x < ops.len() && (#[trigger] ops[x]).1 == r[y].1;
        assert(r[x].1 == ops[x].1);
        assert(path_lt(r[x].1, r[y].1));
        crate::pathmap::lemma_path_lt_irreflexive(r[y].1);
        assert(false);
    }
    if ops.len() > r.len() {
        let x = r.len() as int;
        assert(has_path(r, ops[x].1));
        let y = choose|y: int| 0 <= y < r.len() && (#[trigger] r[y]).1 == ops[x].1;
        assert(r[y].1 == ops[y].1);
        assert(path_lt(ops[y].1, ops[x].1));
        crate::pathmap::lemma_path_lt_irreflexive(ops[x].1);
        assert(false);
    }
    assert forall|k: int| 0 <= k < r.len() implies r[k] == ops[k] by {
        assert(r[k].1 == ops[k].1);
        assert(cc.contains_key(r[k].1));
        assert(cc[r[k].1] == r[k].0);
        assert(cc[ops[k].1] == ops[k].0);
    }
    assert(r =~= ops);
}

/// The tree of a history after its first `i` blocks, each block `k` applying `ops[k]` with
/// the blob ids `ids[k]`.
pub open spec fn history_tree(
    ops: Seq<Seq<(OpKind, Seq<char>)>>,
    ids: Seq<Map<Seq<char>, Seq<u8>>>,
    i: nat,
) -> Map<Seq<char>, Seq<u8>>
    decreases i,
{
    if i == 0 {
        Map::empty()
    } else {
        apply_ops(history_tree(ops, ids, (i - 1) as nat), ops[i - 1], ids[i - 1])
    }
}

/// The text that dumping a history writes: for each commit on day `days[k]` with the change
/// list `rs[k]`, its block ([`render_block`]; nothing for a commit that changed nothing).
pub open spec fn dump_text(days: Seq<int>, rs: Seq<Seq<(OpKind, Seq<char>)>>) -> Seq<char>
    decreases rs.len(),
{
    if rs.len() == 0 {
        Seq::empty()
    } else {
        let k = rs.len() - 1;
        dump_text(days, rs.drop_last()) + if rs[k].len() == 0 {
            Seq::<char>::empty()
        } else {
            block_text(epoch_day_text(days[k]), rs[k])
        }
    }
}

/// Dumping the repository built from a fixture gives the fixture back: when each block, on
/// the date that its date text names, changes the tree as a history writes it, the change
/// lists of the commits are the blocks' operations and the dumped text is the fixture's.
pub proof fn law_dump_round_trip(
    blocks: Seq<BlockView>,
    days: Seq<int>,
    ids: Seq<Map<Seq<char>, Seq<u8>>>,
    rs: Seq<Seq<(OpKind, Seq<char>)>>,
)
    requires
        days.len() == blocks.len(),
        ids.len() == blocks.len(),
        rs.len() == blocks.len(),
        forall|k: int| 0 <= k < blocks.len() ==> (#[trigger] blocks[k]).0 == epoch_day_text(days[k]),
        forall|k: int|
            0 <= k < blocks.len() ==> (#[trigger] blocks[k]).1.len() > 0 && canonical_block(
                history_tree(blocks.map_values(|b: BlockView| b.1), ids, k as nat),
                blocks[k].1,
                ids[k],
            ),
        forall|k: int|
            0 <= k < blocks.len() ==> lists_changes(
                #[trigger] rs[k],
                history_tree(blocks.map_values(|b: BlockView| b.1), ids, (k + 1) as nat),
                history_tree(blocks.map_values(|b: BlockView| b.1), ids, k as nat),
            ),
    ensures
        forall|k: int| 0 <= k < blocks.len() ==> #[trigger] rs[k] == blocks[k].1,
        dump_text(days, rs) == fixture_text(blocks),
    decreases blocks.len(),
{
    let ops = blocks.map_values(|b: BlockView| b.1);
    assert forall|k: int| 0 <= k < blocks.len() implies #[trigger] rs[k] == blocks[k].1 by {
        assert(ops[k] == blocks[k].1);
        assert(history_tree(ops, ids, (k + 1) as nat) == apply_ops(history_tree(ops, ids, k as nat), ops[k], ids[k]));
        law_dump_gives_back_block(history_tree(ops, ids, k as nat), blocks[k].1, ids[k], rs[k]);
    }
    if blocks.len() > 0 {
        let n = blocks.len() - 1;
        let b2 = blocks.drop_last();
        let ops2 = b2.map_values(|b: BlockView| b.1);
        assert forall|k: nat| k <= b2.len() implies #[trigger] history_tree(ops2, ids.drop_last(), k) == history_tree(ops, ids, k) by {
            lemma_history_tree_prefix(ops, ids, ops2, ids.drop_last(), k);
        }
        assert forall|k: int| 0 <= k < b2.len() implies (#[trigger] b2[k]).1.len() > 0 && canonical_block(
            history_tree(ops2, ids.drop_last(), k as nat),
            b2[k].1,
            ids.drop_last()[k],
        ) by {
            assert(b2[k] == blocks[k]);
            assert(history_tree(ops2, ids.drop_last(), k as nat) == history_tree(ops, ids, k as nat));
        }
        assert forall|k: int| 0 <= k < b2.len() implies lists_changes(
            #[trigger] rs.drop_last()[k],
            history_tree(ops2, ids.drop_last(), (k + 1) as nat),
            history_tree(ops2, ids.drop_last(), k as nat),
        ) by {
            assert(rs.drop_last()[k] == rs[k]);
            assert(history_tree(ops2, ids.drop_last(), (k + 1) as nat) == history_tree(ops, ids, (k + 1) as nat));
            assert(history_tree(ops2, ids.drop_last(), k as nat) == history_tree(ops, ids, k as nat));
        }
        assert forall|k: int| 0 <= k < b2.len() implies (#[trigger] b2[k]).0 == epoch_day_text(days.drop_last()[k]) by {
            assert(b2[k] == blocks[k]);
        }
        law_dump_round_trip(b2, days.drop_last(), ids.drop_last(), rs.drop_last());
        assert(dump_text(days.drop_last(), rs.drop_last()) == dump_text(days, rs.drop_last())) by {
            lemma_dump_text_days(days.drop_last(), days, rs.drop_last());
        }
        assert(rs[n] == blocks[n].1);
        assert(blocks.last() == blocks[n]);
    }
}

/// The history of a prefix of the blocks is the same up to its length.
proof fn lemma_history_tree_prefix(
    ops: Seq<Seq<(OpKind, Seq<char>)>>,
    ids: Seq<Map<Seq<char>, Seq<u8>>>,
    ops2: Seq<Seq<(OpKind, Seq<char>)>>,
    ids2: Seq<Map<Seq<char>, Seq<u8>>>,
    k: nat,
)
    requires
        k <= ops2.len() <= ops.len(),
        ids2.len() <= ids.len(),
        k <= ids2.len(),
        forall|j: int| 0 <= j < ops2.len() ==> #[trigger] ops2[j] == ops[j],
        forall|j: int| 0 <= j < ids2.len() ==> #[trigger] ids2[j] == ids[j],
    ensures
        history_tree(ops2, ids2, k) == history_tree(ops, ids, k),
    decreases k,
{
    if k > 0 {
        lemma_history_tree_prefix(ops, ids, ops2, ids2, (k - 1) as nat);
        assert(ops2[k - 1] == ops[k - 1]);
        assert(ids2[k - 1] == ids[k - 1]);
    }
}

/// The dumped text reads only the days of its commits.
proof fn lemma_dump_text_days(days: Seq<int>, days2: Seq<int>, rs: Seq<Seq<(OpKind, Seq<char>)>>)
    requires
        rs.len() <= days.len() <= days2.len(),
        forall|j: int| 0 <= j < days.len() ==> #[trigger] days[j] == days2[j],
    ensures
        dump_text(days, rs) == dump_text(days2, rs),
    decreases rs.len(),
{
    if rs.len() > 0 {
        lemma_dump_text_days(days, days2, rs.drop_last());
        assert(days[rs.len() - 1] == days2[rs.len() - 1]);
    }
}

} // verus!
