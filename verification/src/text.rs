//! Splitting input text into lines, and scanning a line for the first
//! unrecognized symbol. The specification mirrors `str::lines` on `\n`:
//! every `\n` ends a line, and a final newline does not open an empty line.

use vstd::prelude::*;

verus! {

/// Index of the first `'\n'` in `s`, or `s.len()` when there is none.
pub open spec fn first_nl(s: Seq<char>) -> int
    decreases s.len(),
{
    if s.len() == 0 {
        0
    } else if s[0] == '\n' {
        0
    } else {
        1 + first_nl(s.subrange(1, s.len() as int))
    }
}

pub proof fn lemma_first_nl(s: Seq<char>)
    ensures
        0 <= first_nl(s) <= s.len(),
        forall|i: int| 0 <= i < first_nl(s) ==> s[i] != '\n',
        first_nl(s) < s.len() ==> s[first_nl(s)] == '\n',
    decreases s.len(),
{
    if s.len() > 0 && s[0] != '\n' {
        let t = s.subrange(1, s.len() as int);
        lemma_first_nl(t);
        assert(forall|i: int| 1 <= i < s.len() ==> s[i] == t[i - 1]);
    }
}

/// The first `'\n'` is wherever the first `'\n'` is: a position `m` whose
/// prefix holds no newline, and which holds one itself unless it is the end.
pub proof fn lemma_first_nl_is(s: Seq<char>, m: int)
    requires
        0 <= m <= s.len(),
        forall|i: int| 0 <= i < m ==> s[i] != '\n',
        m < s.len() ==> s[m] == '\n',
    ensures
        first_nl(s) == m,
    decreases s.len(),
{
    if s.len() > 0 && s[0] != '\n' {
        let t = s.subrange(1, s.len() as int);
        assert(forall|i: int| 0 <= i < m - 1 ==> t[i] == s[i + 1]);
        lemma_first_nl_is(t, m - 1);
    }
}

/// The lines of `s`: maximal `'\n'`-free runs, where each `'\n'` closes a
/// line and text after the last `'\n'` forms a final line only if non-empty.
pub open spec fn line_split(s: Seq<char>) -> Seq<Seq<char>>
    decreases s.len(),
{
    if s.len() == 0 {
        Seq::empty()
    } else {
        let m = first_nl(s);
        if m == s.len() {
            seq![s]
        } else if 0 <= m < s.len() {
            seq![s.subrange(0, m)] + line_split(s.subrange(m + 1, s.len() as int))
        } else {
            Seq::empty()
        }
    }
}

/// A line's characters are all recognized symbols.
pub open spec fn line_ok(line: Seq<char>) -> bool {
    forall|i: int| 0 <= i < line.len() ==> line[i] == '.' || line[i] == '#'
}

/// Index of the first unrecognized character of `line`, or `line.len()`.
pub open spec fn first_bad(line: Seq<char>) -> int
    decreases line.len(),
{
    if line.len() == 0 {
        0
    } else if line[0] != '.' && line[0] != '#' {
        0
    } else {
        1 + first_bad(line.subrange(1, line.len() as int))
    }
}

pub proof fn lemma_first_bad(line: Seq<char>)
    ensures
        0 <= first_bad(line) <= line.len(),
        forall|i: int|
            0 <= i < first_bad(line) ==> line[i] == '.' || line[i] == '#',
        first_bad(line) < line.len() ==> !(line[first_bad(line)] == '.' || line[first_bad(line)]
            == '#'),
        line_ok(line) <==> first_bad(line) == line.len(),
    decreases line.len(),
{
    if line.len() > 0 && (line[0] == '.' || line[0] == '#') {
        let t = line.subrange(1, line.len() as int);
        lemma_first_bad(t);
        assert(forall|i: int| 1 <= i < line.len() ==> line[i] == t[i - 1]);
        assert(line_ok(line) <==> line_ok(t));
    }
}

pub proof fn lemma_first_bad_is(line: Seq<char>, m: int)
    requires
        0 <= m <= line.len(),
        forall|i: int| 0 <= i < m ==> line[i] == '.' || line[i] == '#',
        m < line.len() ==> !(line[m] == '.' || line[m] == '#'),
    ensures
        first_bad(line) == m,
    decreases line.len(),
{
    if line.len() > 0 && (line[0] == '.' || line[0] == '#') {
        let t = line.subrange(1, line.len() as int);
        assert(forall|i: int| 0 <= i < m - 1 ==> t[i] == line[i + 1]);
        lemma_first_bad_is(t, m - 1);
    }
}

} // verus!
