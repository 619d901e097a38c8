//! Cuts a SQL dump into the statements that mention a word.
use crate::text::{contains, contains_str, ends_statement, ends_with_semicolon, split_on, strs_view};
use rayon::iter::ParallelIterator;
use rayon::str::ParallelString;
use vstd::prelude::*;

verus! {

/// A line without the carriage return that may end it.
pub open spec fn strip_cr(line: Seq<char>) -> Seq<char> {
    if line.len() > 0 && line.last() == '\r' {
        line.drop_last()
    } else {
        line
    }
}

/// The pieces of `s` that end with `sep` or with the end of `s`, without
/// an empty piece after a final `sep` (`str::split_terminator`).
pub open spec fn split_terminator(s: Seq<char>, sep: char) -> Seq<Seq<char>> {
    if s.len() == 0 {
        Seq::empty()
    } else if s.last() == sep {
        split_on(s.drop_last(), sep)
    } else {
        split_on(s, sep)
    }
}

/// The lines of `text`, ending with `\n` or `\r\n` or the end of the text,
/// without their line endings.
pub open spec fn lines_of(text: Seq<char>) -> Seq<Seq<char>> {
    split_terminator(text, '\n').map_values(|line: Seq<char>| strip_cr(line))
}

/// rayon's `ParallelString::par_lines`, collected into a `Vec`.
/// Trusted: it claims that the lines come out in the order of the text and
/// are the pieces that `par_split_terminator('\n')` gives, each without one
/// trailing `\r`, as rayon's source writes `par_lines` (its `collect` into
/// a `Vec` keeps the order).
#[verifier::external_body]
fn par_lines<'a>(text: &'a str) -> (lines: Vec<&'a str>)
    ensures
        strs_view(lines@) == lines_of(text@),
{
    text.par_lines().collect()
}

/// The index after the first line from `k` on that ends a statement, or the
/// length.
pub open spec fn statement_end(lines: Seq<Seq<char>>, k: int) -> int
    decreases lines.len() - k,
{
    if k >= lines.len() || k < 0 {
        lines.len() as int
    } else if ends_statement(lines[k]) {
        k + 1
    } else {
        statement_end(lines, k + 1)
    }
}

/// The group that line `i` opens: the line itself, then the lines that
/// follow it up to the one that ends the statement.
pub open spec fn group_of(lines: Seq<Seq<char>>, i: int) -> Seq<Seq<char>> {
    seq![lines[i]] + lines.subrange(i + 1, statement_end(lines, i + 1))
}

/// The groups of the first `n` lines that contain `pattern`, in order.
pub open spec fn groups_upto(lines: Seq<Seq<char>>, pattern: Seq<char>, n: int) -> Seq<Seq<Seq<char>>>
    decreases n,
{
    if n <= 0 {
        Seq::empty()
    } else if contains(lines[n - 1], pattern) {
        groups_upto(lines, pattern, n - 1).push(group_of(lines, n - 1))
    } else {
        groups_upto(lines, pattern, n - 1)
    }
}

/// What `scanner` gives: for each line of `text` that contains `pattern`,
/// in order, the group that it opens.
pub open spec fn scan(text: Seq<char>, pattern: Seq<char>) -> Seq<Seq<Seq<char>>> {
    let lines = lines_of(text);
    groups_upto(lines, pattern, lines.len() as int)
}

/// The views of groups of string slices.
pub open spec fn groups_view(groups: Seq<Vec<&str>>) -> Seq<Seq<Seq<char>>> {
    groups.map_values(|g: Vec<&str>| strs_view(g@))
}

/// The group that starts at line `i`.
fn group_at<'a>(lines: &Vec<&'a str>, i: usize) -> (group: Vec<&'a str>)
    requires
        i < lines@.len(),
    ensures
        strs_view(group@) == group_of(strs_view(lines@), i as int),
{
    let ghost all = strs_view(lines@);
    let line = lines[i];
    let n = lines.len();
    assert(all[i as int] == line@);
    let mut group: Vec<&'a str> = Vec::new();
    group.push(line);
    let mut k: usize = i + 1;
    let ghost start = k as int;
    assert(strs_view(group@) =~= seq![line@] + all.subrange(start, start));
    while k < n
        invariant_except_break
            all == strs_view(lines@),
            all.len() == lines@.len(),
            n == lines@.len(),
            0 <= start <= k <= lines@.len(),
            strs_view(group@) == seq![line@] + all.subrange(start, k as int),
            statement_end(all, start) == statement_end(all, k as int),
        ensures
            strs_view(group@) == seq![line@] + all.subrange(start, statement_end(all, start)),
        decreases lines@.len() - k,
    {
        let ghost before = strs_view(group@);
        group.push(lines[k]);
        assert(all[k as int] == lines@[k as int]@);
        assert(strs_view(group@) =~= before.push(all[k as int]));
        assert(all.subrange(start, k + 1) =~= all.subrange(start, k as int).push(all[k as int]));
        if ends_with_semicolon(lines[k]) {
            break;
        }
        k = k + 1;
    }
    group
}

/// Cuts `whole_file` into lines and returns, for each line that contains
/// `pattern`, the lines of the statement that it opens.
pub fn scanner<'a>(whole_file: &'a str, pattern: &'a str) -> (results: Vec<Vec<&'a str>>)
    ensures
        groups_view(results@) == scan(whole_file@, pattern@),
{
    let lines = par_lines(whole_file);
    let ghost all = strs_view(lines@);
    let mut results: Vec<Vec<&'a str>> = Vec::new();
    let mut i: usize = 0;
    while i < lines.len()
        invariant
            all == strs_view(lines@),
            all == lines_of(whole_file@),
            i <= lines@.len(),
            groups_view(results@) == groups_upto(all, pattern@, i as int),
        decreases lines@.len() - i,
    {
        assert(all[i as int] == lines@[i as int]@);
        if contains_str(lines[i], pattern) {
            let group = group_at(&lines, i);
            let ghost before = groups_view(results@);
            results.push(group);
            assert(groups_view(results@) =~= before.push(strs_view(group@)));
        }
        i = i + 1;
    }
    results
}

proof fn lemma_statement_end(lines: Seq<Seq<char>>, k: int)
    requires
        0 <= k <= lines.len(),
    ensures
        k <= statement_end(lines, k) <= lines.len(),
        forall|j: int| k <= j < statement_end(lines, k) - 1 ==> !ends_statement(#[trigger] lines[j]),
        statement_end(lines, k) < lines.len() ==> statement_end(lines, k) > k && ends_statement(
            lines[statement_end(lines, k) - 1],
        ),
    decreases lines.len() - k,
{
    if k < lines.len() && !ends_statement(lines[k]) {
        lemma_statement_end(lines, k + 1);
    }
}

/// Whether `line` contains `pattern`, as a predicate.
pub open spec fn containing(pattern: Seq<char>) -> spec_fn(Seq<char>) -> bool {
    |l: Seq<char>| contains(l, pattern)
}

proof fn lemma_groups_upto(lines: Seq<Seq<char>>, pattern: Seq<char>, n: int, i: int)
    requires
        0 <= n <= lines.len(),
    ensures
        groups_upto(lines, pattern, n).len() == lines.take(n).filter(containing(pattern)).len(),
        0 <= i < groups_upto(lines, pattern, n).len() ==> exists|m: int|
            0 <= m < n && contains(#[trigger] lines[m], pattern) && lines.take(m).filter(containing(pattern)).len()
                == i && groups_upto(lines, pattern, n)[i] == group_of(lines, m),
    decreases n,
{
    let f = containing(pattern);
    if n > 0 {
        lemma_groups_upto(lines, pattern, n - 1, i);
        assert(lines.take(n) =~= lines.take(n - 1).push(lines[n - 1]));
        lines.take(n - 1).lemma_filter_push(lines[n - 1], f);
        let prev = groups_upto(lines, pattern, n - 1);
        if 0 <= i < groups_upto(lines, pattern, n).len() {
            if i < prev.len() {
                let m = choose|m: int|
                    0 <= m < n - 1 && contains(#[trigger] lines[m], pattern) && lines.take(m).filter(f).len() == i
                        && prev[i] == group_of(lines, m);
                assert(groups_upto(lines, pattern, n)[i] == group_of(lines, m));
            } else {
                assert(groups_upto(lines, pattern, n)[i] == group_of(lines, n - 1));
                assert(contains(lines[n - 1], pattern));
            }
        }
    } else {
        assert(lines.take(0) =~= Seq::<Seq<char>>::empty());
        reveal(Seq::filter);
    }
}

/// `scanner` gives one group for each line of the text that contains the
/// pattern.
pub proof fn law_scan_count(text: Seq<char>, pattern: Seq<char>)
    ensures
        scan(text, pattern).len() == lines_of(text).filter(containing(pattern)).len(),
{
    let lines = lines_of(text);
    lemma_groups_upto(lines, pattern, lines.len() as int, 0);
    assert(lines.take(lines.len() as int) =~= lines);
}

/// The `i`-th group that `scanner` gives starts at the `i`-th line of the
/// text that contains the pattern and runs on over the lines that follow it
/// in the text: up to and including the first of them that ends a statement
/// (its last line then ends one), or to the end of the text. No line
/// inside a group but its last ends a statement.
pub proof fn law_scan_groups(text: Seq<char>, pattern: Seq<char>, i: int)
    requires
        0 <= i < scan(text, pattern).len(),
    ensures
        scan(text, pattern)[i].len() >= 1,
        contains(scan(text, pattern)[i][0], pattern),
        forall|k: int|
            1 <= k < scan(text, pattern)[i].len() - 1 ==> !ends_statement(#[trigger] scan(text, pattern)[i][k]),
        exists|m: int|
            0 <= m < lines_of(text).len() && contains(#[trigger] lines_of(text)[m], pattern)
                && lines_of(text).take(m).filter(containing(pattern)).len() == i
                && m + scan(text, pattern)[i].len() <= lines_of(text).len()
                && scan(text, pattern)[i] == lines_of(text).subrange(m, m + scan(text, pattern)[i].len())
                && ((scan(text, pattern)[i].len() >= 2 && ends_statement(scan(text, pattern)[i].last()))
                || m + scan(text, pattern)[i].len() == lines_of(text).len()),
{
    let lines = lines_of(text);
    lemma_groups_upto(lines, pattern, lines.len() as int, i);
    let m = choose|m: int|
        0 <= m < lines.len() && contains(#[trigger] lines[m], pattern) && lines.take(m).filter(
            containing(pattern),
        ).len() == i && scan(text, pattern)[i] == group_of(lines, m);
    lemma_statement_end(lines, m + 1);
    let g = group_of(lines, m);
    assert(g[0] == lines[m]);
    assert forall|k: int| 1 <= k < g.len() - 1 implies !ends_statement(#[trigger] g[k]) by {
        assert(g[k] == lines[m + k]);
    }
    assert(g =~= lines.subrange(m, m + g.len()));
    if g.len() >= 2 {
        assert(g.last() == lines[m + g.len() - 1]);
    }
}

} // verus!
