//! Text helpers: decimal numbers, lines and blanks.

use vstd::prelude::*;

verus! {

broadcast use vstd::string::group_string_axioms;

// ------------------------------------------------------------------------------------------
// Decimal numbers.

/// The decimal digit for `d` (`0 <= d < 10`).
pub open spec fn digit_char(d: int) -> char {
    if d == 0 {
        '0'
    } else if d == 1 {
        '1'
    } else if d == 2 {
        '2'
    } else if d == 3 {
        '3'
    } else if d == 4 {
        '4'
    } else if d == 5 {
        '5'
    } else if d == 6 {
        '6'
    } else if d == 7 {
        '7'
    } else if d == 8 {
        '8'
    } else {
        '9'
    }
}

/// `n` written in decimal, without leading zeros.
pub open spec fn decimal(n: nat) -> Seq<char>
    decreases n,
{
    if n < 10 {
        seq![digit_char(n as int)]
    } else {
        decimal(n / 10) + seq![digit_char((n % 10) as int)]
    }
}

/// The text of the decimal digit `d`.
fn digit_str(d: u64) -> (r: &'static str)
    requires
        d < 10,
    ensures
        r@ == seq![digit_char(d as int)],
{
    if d == 0 {
        proof { reveal_strlit("0"); }
        "0"
    } else if d == 1 {
        proof { reveal_strlit("1"); }
        "1"
    } else if d == 2 {
        proof { reveal_strlit("2"); }
        "2"
    } else if d == 3 {
        proof { reveal_strlit("3"); }
        "3"
    } else if d == 4 {
        proof { reveal_strlit("4"); }
        "4"
    } else if d == 5 {
        proof { reveal_strlit("5"); }
        "5"
    } else if d == 6 {
        proof { reveal_strlit("6"); }
        "6"
    } else if d == 7 {
        proof { reveal_strlit("7"); }
        "7"
    } else if d == 8 {
        proof { reveal_strlit("8"); }
        "8"
    } else {
        proof { reveal_strlit("9"); }
        "9"
    }
}

/// `n` written in decimal.
pub fn decimal_string(n: u64) -> (r: String)
    ensures
        r@ == decimal(n as nat),
    decreases n,
{
    if n < 10 {
        digit_str(n).to_owned()
    } else {
        let mut s = decimal_string(n / 10);
        s.append(digit_str(n % 10));
        s
    }
}

// ------------------------------------------------------------------------------------------
// Lines and blanks.

/// The characters of `text`.
pub fn chars_of(text: &str) -> (r: Vec<char>)
    ensures
        r@ == text@,
{
    let mut out: Vec<char> = Vec::new();
    for c in iter: text.chars()
        invariant
            out@ == iter.seq().take(iter.index() as int),
            iter.seq() == text@,
    {
        out.push(c);
    }
    out
}

/// Spaces, tabs and carriage returns, which are trimmed from lines.
pub open spec fn is_blank(c: char) -> bool {
    c == ' ' || c == '\t' || c == '\r'
}

/// `s` without its leading blanks.
pub open spec fn trim_start(s: Seq<char>) -> Seq<char>
    decreases s.len(),
{
    if s.len() > 0 && is_blank(s[0]) {
        trim_start(s.drop_first())
    } else {
        s
    }
}

/// `s` without its trailing blanks.
pub open spec fn trim_end(s: Seq<char>) -> Seq<char>
    decreases s.len(),
{
    if s.len() > 0 && is_blank(s.last()) {
        trim_end(s.drop_last())
    } else {
        s
    }
}

/// `s` without its leading and trailing blanks.
pub open spec fn trim(s: Seq<char>) -> Seq<char> {
    trim_end(trim_start(s))
}

/// Index of the first line feed of `s`, or its length when there is none.
pub open spec fn newline_at(s: Seq<char>) -> int
    decreases s.len(),
{
    if s.len() == 0 || s[0] == '\n' {
        0
    } else {
        1 + newline_at(s.drop_first())
    }
}

/// The lines of `s`: the pieces between line feeds. A line feed ends a line, so nothing
/// follows a final one.
pub open spec fn split_lines(s: Seq<char>) -> Seq<Seq<char>>
    decreases s.len(),
{
    if s.len() == 0 {
        Seq::empty()
    } else {
        let i = newline_at(s);
        if 0 <= i < s.len() {
            seq![s.take(i)] + split_lines(s.skip(i + 1))
        } else {
            seq![s]
        }
    }
}

/// The line starting at `start` ends at the returned index: the next line feed or the end.
pub fn line_end(chars: &Vec<char>, start: usize) -> (r: usize)
    requires
        start <= chars@.len(),
    ensures
        start <= r <= chars@.len(),
        r - start == newline_at(chars@.skip(start as int)),
{
    let mut j = start;
    while j < chars.len() && chars[j] != '\n'
        invariant
            start <= j <= chars@.len(),
            newline_at(chars@.skip(start as int)) == (j - start) + newline_at(chars@.skip(j as int)),
        decreases chars@.len() - j,
    {
        assert(chars@.skip(j as int).drop_first() =~= chars@.skip(j + 1));
        j += 1;
    }
    j
}

/// The range of `chars[lo..hi]` without its leading and trailing blanks.
pub fn trim_range(chars: &Vec<char>, lo: usize, hi: usize) -> (r: (usize, usize))
    requires
        lo <= hi <= chars@.len(),
    ensures
        lo <= r.0 <= r.1 <= hi,
        chars@.subrange(r.0 as int, r.1 as int) == trim(chars@.subrange(lo as int, hi as int)),
{
    let mut a = lo;
    while a < hi && (chars[a] == ' ' || chars[a] == '\t' || chars[a] == '\r')
        invariant
            lo <= a <= hi <= chars@.len(),
            trim_start(chars@.subrange(lo as int, hi as int)) == trim_start(chars@.subrange(a as int, hi as int)),
        decreases hi - a,
    {
        assert(chars@.subrange(a as int, hi as int).drop_first() =~= chars@.subrange(a + 1, hi as int));
        a += 1;
    }
    assert(trim_start(chars@.subrange(a as int, hi as int)) == chars@.subrange(a as int, hi as int));
    let mut b = hi;
    while b > a && (chars[b - 1] == ' ' || chars[b - 1] == '\t' || chars[b - 1] == '\r')
        invariant
            lo <= a <= b <= hi <= chars@.len(),
            trim_end(chars@.subrange(a as int, hi as int)) == trim_end(chars@.subrange(a as int, b as int)),
        decreases b - a,
    {
        assert(chars@.subrange(a as int, b as int).drop_last() =~= chars@.subrange(a as int, b - 1));
        b -= 1;
    }
    (a, b)
}

/// Splitting at the line feed that ends the first line.
pub proof fn lemma_split_lines_step(s: Seq<char>, start: int, end: int)
    requires
        0 <= start <= end <= s.len(),
        end - start == newline_at(s.skip(start)),
        start < s.len(),
    ensures
        split_lines(s.skip(start)) == seq![s.subrange(start, end)] + (if end < s.len() {
            split_lines(s.skip(end + 1))
        } else {
            Seq::empty()
        }),
{
    let t = s.skip(start);
    let i = newline_at(t);
    assert(t.take(i) =~= s.subrange(start, end));
    if end < s.len() {
        assert(t.skip(i + 1) =~= s.skip(end + 1));
    } else {
        assert(t.take(i) =~= t);
    }
}


/// The first line feed of `s` is at `newline_at(s)`, if anywhere.
pub proof fn lemma_newline_at(s: Seq<char>)
    ensures
        0 <= newline_at(s) <= s.len(),
        newline_at(s) < s.len() ==> s[newline_at(s)] == '\n',
        forall|j: int| 0 <= j < newline_at(s) ==> s[j] != '\n',
    decreases s.len(),
{
    if s.len() > 0 && s[0] != '\n' {
        lemma_newline_at(s.drop_first());
        assert forall|j: int| 0 <= j < newline_at(s) implies s[j] != '\n' by {
            if j > 0 {
                assert(s[j] == s.drop_first()[j - 1]);
            }
        }
    }
}

/// The first line feed of `x + y`: the first of `x`, or else the first of `y`, shifted.
pub proof fn lemma_newline_at_append(x: Seq<char>, y: Seq<char>)
    ensures
        newline_at(x) < x.len() ==> newline_at(x + y) == newline_at(x),
        newline_at(x) >= x.len() ==> newline_at(x + y) == x.len() + newline_at(y),
    decreases x.len(),
{
    if x.len() == 0 {
        assert(x + y =~= y);
    } else {
        assert((x + y)[0] == x[0]);
        if x[0] != '\n' {
            assert((x + y).drop_first() =~= x.drop_first() + y);
            lemma_newline_at_append(x.drop_first(), y);
        }
    }
}

/// A line feed ends a line: splitting a text that ends with one (or is empty) and what
/// follows splits each part.
pub proof fn lemma_split_lines_append(x: Seq<char>, y: Seq<char>)
    requires
        x.len() == 0 || x.last() == '\n',
    ensures
        split_lines(x + y) == split_lines(x) + split_lines(y),
    decreases x.len(),
{
    if x.len() == 0 {
        assert(x + y =~= y);
        assert(split_lines(x) + split_lines(y) =~= split_lines(y));
    } else {
        lemma_newline_at(x);
        let i = newline_at(x);
        if i == x.len() {
            assert(forall|j: int| 0 <= j < i ==> x[j] != '\n');
            assert(x[x.len() - 1] != '\n');
        }
        lemma_newline_at_append(x, y);
        lemma_newline_at(x + y);
        let rest = x.skip(i + 1);
        if rest.len() > 0 {
            assert(rest.last() == x.last());
        }
        lemma_split_lines_append(rest, y);
        assert((x + y).take(i) =~= x.take(i));
        assert((x + y).skip(i + 1) =~= rest + y);
        assert(split_lines(x + y) == seq![x.take(i)] + split_lines(rest + y));
        assert(split_lines(x) == seq![x.take(i)] + split_lines(rest));
        assert(seq![x.take(i)] + (split_lines(rest) + split_lines(y)) =~= (seq![x.take(i)] + split_lines(rest))
            + split_lines(y));
    }
}

/// A line without line feeds, ended by one, is one line.
pub proof fn lemma_split_one_line(line: Seq<char>)
    requires
        forall|j: int| 0 <= j < line.len() ==> line[j] != '\n',
    ensures
        split_lines(line + seq!['\n']) == seq![line],
{
    let s = line + seq!['\n'];
    lemma_newline_at(s);
    let i = newline_at(s);
    if i < line.len() {
        assert(s[i] == line[i]);
    }
    if i > line.len() {
        assert(s[line.len() as int] == '\n');
    }
    assert(i == line.len());
    assert(s.take(i) =~= line);
    assert(s.skip(i + 1) =~= Seq::<char>::empty());
    assert(split_lines(s.skip(i + 1)) =~= Seq::<Seq<char>>::empty());
    assert(seq![line] + Seq::<Seq<char>>::empty() =~= seq![line]);
}

/// Trimming leaves a text alone that neither starts nor ends with a blank.
pub proof fn lemma_trim_unchanged(s: Seq<char>)
    requires
        s.len() > 0,
        !is_blank(s[0]),
        !is_blank(s.last()),
    ensures
        trim(s) == s,
{
}

/// Trimming drops a leading blank.
pub proof fn lemma_trim_blank_first(c: char, s: Seq<char>)
    requires
        is_blank(c),
    ensures
        trim(seq![c] + s) == trim(s),
{
    assert((seq![c] + s).drop_first() =~= s);
}

} // verus!
