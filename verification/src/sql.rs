//! Reads tables, columns and keys out of the statements of a SQL dump.
use crate::scanner::groups_view;
use crate::pattern::{Pattern, regex_captures, regex_compiles, regex_is_match};
use rayon::iter::{IntoParallelRefIterator, ParallelIterator};
use crate::text::{contains, contains_str, push_str, same_str, split_char, split_on, strs_view, to_chars};
use vstd::prelude::*;

verus! {

/// `i` is the index of the first backtick of `line`.
pub open spec fn first_backtick(line: Seq<char>, i: int) -> bool {
    0 <= i < line.len() && line[i] == '`' && forall|j: int| 0 <= j < i ==> line[j] != '`'
}

/// `i` is the index of the last backtick of `line`.
pub open spec fn last_backtick(line: Seq<char>, i: int) -> bool {
    0 <= i < line.len() && line[i] == '`' && forall|j: int| i < j < line.len() ==> line[j] != '`'
}

pub open spec fn has_backtick(line: Seq<char>) -> bool {
    exists|i: int| 0 <= i < line.len() && line[i] == '`'
}

/// Whether slicing `line` from after its first backtick to its last one
/// (from its second byte to its end where it has none) stays within the
/// line and on character boundaries.
pub open spec fn inner_ok(line: Seq<char>) -> bool {
    if has_backtick(line) {
        (choose|i: int| first_backtick(line, i)) < (choose|i: int| last_backtick(line, i))
    } else {
        line.len() > 0 && line[0] < '\u{80}'
    }
}

/// What stands between the first and the last backtick of `line`; without
/// backticks, the line after its first character.
pub open spec fn backtick_inner(line: Seq<char>) -> Seq<char> {
    if has_backtick(line) {
        line.subrange(
            (choose|i: int| first_backtick(line, i)) + 1,
            choose|i: int| last_backtick(line, i),
        )
    } else {
        line.subrange(1, line.len() as int)
    }
}

proof fn lemma_first_backtick_unique(line: Seq<char>, i: int)
    requires
        first_backtick(line, i),
    ensures
        has_backtick(line),
        (choose|k: int| first_backtick(line, k)) == i,
{
    let k = choose|k: int| first_backtick(line, k);
    assert(first_backtick(line, k));
    if k < i {
        assert(line[k] != '`');
    } else if i < k {
        assert(line[i] != '`');
    }
}

proof fn lemma_last_backtick_unique(line: Seq<char>, i: int)
    requires
        last_backtick(line, i),
    ensures
        (choose|k: int| last_backtick(line, k)) == i,
{
    let k = choose|k: int| last_backtick(line, k);
    assert(last_backtick(line, k));
    if k < i {
        assert(line[i] != '`');
    } else if i < k {
        assert(line[k] != '`');
    }
}

/// Where the first and the last backtick of `line` stand, if it has any.
fn backtick_positions(line: &str) -> (r: Option<(usize, usize)>)
    ensures
        r is None <==> !has_backtick(line@),
        r matches Some((f, l)) ==> first_backtick(line@, f as int) && last_backtick(line@, l as int)
            && (choose|i: int| first_backtick(line@, i)) == f && (choose|i: int| last_backtick(line@, i)) == l,
{
    let chars = to_chars(line);
    let n = chars.len();
    let mut first: usize = 0;
    while first < n && chars[first] != '`'
        invariant
            chars@ == line@,
            n == chars@.len(),
            first <= n,
            forall|j: int| 0 <= j < first ==> chars@[j] != '`',
        decreases n - first,
    {
        first = first + 1;
    }
    if first == n {
        return None;
    }
    let mut last: usize = n - 1;
    while chars[last] != '`'
        invariant
            chars@ == line@,
            n == chars@.len(),
            first <= last < n,
            chars@[first as int] == '`',
            forall|j: int| last < j < n ==> chars@[j] != '`',
        decreases last,
    {
        last = last - 1;
    }
    proof {
        lemma_first_backtick_unique(line@, first as int);
        lemma_last_backtick_unique(line@, last as int);
    }
    Some((first, last))
}

/// Whether `line` can be cut down to what stands between its backticks.
pub fn inner_checked(line: &str) -> (r: bool)
    ensures
        r == inner_ok(line@),
{
    match backtick_positions(line) {
        Some((f, l)) => f < l,
        None => {
            if line.unicode_len() == 0 {
                false
            } else {
                line.get_char(0) < '\u{80}'
            }
        },
    }
}

/// The part of `line` between its first and its last backtick (the
/// slicing of `mrpropre`).
pub fn backtick_slice<'a>(line: &'a str) -> (r: &'a str)
    requires
        inner_ok(line@),
    ensures
        r@ == backtick_inner(line@),
{
    match backtick_positions(line) {
        Some((f, l)) => line.substring_char(f + 1, l),
        None => line.substring_char(1, line.unicode_len()),
    }
}

/// The lines that `mrpropre` keeps: the first, then each that the pattern
/// matches (so the first may come twice).
pub open spec fn kept_lines(lines: Seq<Seq<char>>, source: Seq<char>) -> Seq<Seq<char>> {
    seq![lines[0]] + lines.filter(|l: Seq<char>| regex_is_match(source, l))
}

/// What `mrpropre` gives: the inner part of each kept line.
pub open spec fn propre(lines: Seq<Seq<char>>, source: Seq<char>) -> Seq<Seq<char>> {
    kept_lines(lines, source).map_values(|l: Seq<char>| backtick_inner(l))
}

/// `mrpropre` does not panic on `lines`: there is a first line, and every
/// kept line can be sliced.
pub open spec fn propre_ok(lines: Seq<Seq<char>>, source: Seq<char>) -> bool {
    &&& lines.len() > 0
    &&& inner_ok(lines[0])
    &&& forall|i: int| 0 <= i < lines.len() && regex_is_match(source, #[trigger] lines[i]) ==> inner_ok(lines[i])
}

/// rayon's `par_iter().map(..).collect()` over `lines`, each cut down by
/// `backtick_slice`. Trusted: it claims that the results come out in the
/// order of `lines`, one for each, as rayon's indexed `collect` into a
/// `Vec` keeps the order; what each result is, `backtick_slice` proves.
#[verifier::external_body]
fn par_backtick_slices<'a>(lines: &Vec<&'a str>) -> (res: Vec<&'a str>)
    requires
        forall|i: int| 0 <= i < lines@.len() ==> inner_ok(#[trigger] lines@[i]@),
    ensures
        strs_view(res@) == strs_view(lines@).map_values(|l: Seq<char>| backtick_inner(l)),
{
    lines.par_iter().map(|line| backtick_slice(line)).collect()
}

/// Get name of the table: the first line and the lines that `regex`
/// matches, each cut down to what stands between its backticks.
pub fn mrpropre<'a>(input: &Vec<&'a str>, regex: &Pattern) -> (res: Vec<&'a str>)
    requires
        propre_ok(strs_view(input@), regex.source()),
    ensures
        strs_view(res@) == propre(strs_view(input@), regex.source()),
{
    let ghost lines = strs_view(input@);
    let ghost src = regex.source();
    let ghost pred = |l: Seq<char>| regex_is_match(src, l);
    let mut result: Vec<&'a str> = Vec::new();
    assert(lines[0] == input@[0]@);
    result.push(input[0]);
    let mut i: usize = 0;
    assert(lines.take(0) =~= Seq::<Seq<char>>::empty());
    proof {
        reveal(Seq::filter);
    }
    assert(strs_view(result@) =~= seq![lines[0]] + lines.take(0).filter(pred));
    while i < input.len()
        invariant
            lines == strs_view(input@),
            src == regex.source(),
            pred == (|l: Seq<char>| regex_is_match(src, l)),
            propre_ok(lines, src),
            i <= input@.len(),
            strs_view(result@) == seq![lines[0]] + lines.take(i as int).filter(pred),
            forall|k: int| 0 <= k < result@.len() ==> inner_ok(#[trigger] result@[k]@),
        decreases input@.len() - i,
    {
        let line = input[i];
        assert(lines[i as int] == line@);
        assert(lines.take(i + 1) =~= lines.take(i as int).push(line@));
        proof {
            lines.take(i as int).lemma_filter_push(line@, pred);
        }
        if regex.is_match(line) {
            let ghost before = strs_view(result@);
            result.push(line);
            assert(strs_view(result@) =~= before.push(line@));
        }
        i = i + 1;
    }
    assert(lines.take(i as int) =~= lines);
    par_backtick_slices(&result)
}

/// Some line of `group` contains `pattern`.
pub open spec fn mentions(group: Seq<Seq<char>>, pattern: Seq<char>) -> bool {
    exists|i: int| 0 <= i < group.len() && contains(#[trigger] group[i], pattern)
}

/// The regular expression that `mrclean` builds from `pattern`: the
/// pattern after leading white space.
pub open spec fn clean_source(pattern: Seq<char>) -> Seq<char> {
    "^\\s*"@ + pattern
}

/// What `mrclean` gives: each group that mentions `pattern`, cleaned by
/// `mrpropre`.
pub open spec fn clean(groups: Seq<Seq<Seq<char>>>, pattern: Seq<char>) -> Seq<Seq<Seq<char>>> {
    groups.filter(|g: Seq<Seq<char>>| mentions(g, pattern)).map_values(
        |g: Seq<Seq<char>>| propre(g, clean_source(pattern)),
    )
}

/// `mrclean` does not panic: its regular expression compiles and every
/// group that mentions `pattern` can be cleaned.
pub open spec fn clean_ok(groups: Seq<Seq<Seq<char>>>, pattern: Seq<char>) -> bool {
    &&& regex_compiles(clean_source(pattern))
    &&& forall|i: int|
        0 <= i < groups.len() && mentions(#[trigger] groups[i], pattern) ==> propre_ok(
            groups[i],
            clean_source(pattern),
        )
}

/// Whether some line of `group` contains `pattern`.
fn mentions_checked(group: &Vec<&str>, pattern: &str) -> (r: bool)
    ensures
        r == mentions(strs_view(group@), pattern@),
{
    let mut i: usize = 0;
    while i < group.len()
        invariant
            i <= group@.len(),
            forall|k: int| 0 <= k < i ==> !contains(#[trigger] strs_view(group@)[k], pattern@),
        decreases group@.len() - i,
    {
        if contains_str(group[i], pattern) {
            assert(strs_view(group@)[i as int] == group@[i as int]@);
            return true;
        }
        i = i + 1;
    }
    false
}

/// Whether `mrpropre` can clean `input` with `regex`.
pub fn propre_checked(input: &Vec<&str>, regex: &Pattern) -> (r: bool)
    ensures
        r == propre_ok(strs_view(input@), regex.source()),
{
    let ghost lines = strs_view(input@);
    if input.len() == 0 || !inner_checked(input[0]) {
        return false;
    }
    let mut i: usize = 0;
    while i < input.len()
        invariant
            lines == strs_view(input@),
            i <= input@.len(),
            forall|k: int| 0 <= k < i && regex_is_match(regex.source(), #[trigger] lines[k]) ==> inner_ok(lines[k]),
        decreases input@.len() - i,
    {
        assert(lines[i as int] == input@[i as int]@);
        if regex.is_match(input[i]) && !inner_checked(input[i]) {
            return false;
        }
        i = i + 1;
    }
    true
}

/// Clean a vector of str by extracting a element inside a pattern: each
/// group with a line that contains `patern` is cut down by `mrpropre`
/// with the regular expression `^\s*patern`. `None` where that expression
/// does not compile or a group cannot be cut down.
pub fn mrclean<'a>(input: &Vec<Vec<&'a str>>, patern: &'a str) -> (res: Option<Vec<Vec<&'a str>>>)
    ensures
        res is Some <==> clean_ok(groups_view(input@), patern@),
        res matches Some(v) ==> groups_view(v@) == clean(groups_view(input@), patern@),
{
    let ghost groups = groups_view(input@);
    let mut reg = String::new();
    push_str(&mut reg, "^\\s*");
    push_str(&mut reg, patern);
    let regex = match Pattern::compile(reg.as_str()) {
        Some(r) => r,
        None => {
            return None;
        },
    };
    let mut i: usize = 0;
    while i < input.len()
        invariant
            groups == groups_view(input@),
            regex.source() == clean_source(patern@),
            regex_compiles(clean_source(patern@)),
            i <= input@.len(),
            forall|k: int| 0 <= k < i && mentions(#[trigger] groups[k], patern@) ==> propre_ok(
                groups[k],
                clean_source(patern@),
            ),
        decreases input@.len() - i,
    {
        let group = &input[i];
        assert(groups[i as int] == strs_view(group@));
        if mentions_checked(group, patern) && !propre_checked(group, &regex) {
            return None;
        }
        i = i + 1;
    }
    Some(par_clean(input, patern, &regex))
}

/// rayon's `par_iter().filter(..).map(..).collect()` over `input`: the
/// groups that `mentions_checked` accepts, each cleaned by `mrpropre`.
/// Trusted: it claims that the kept groups come out in the order of
/// `input`, as rayon's `collect` into a `Vec` keeps the order; what each
/// closure gives, `mentions_checked` and `mrpropre` prove.
#[verifier::external_body]
fn par_clean<'a>(input: &Vec<Vec<&'a str>>, patern: &str, regex: &Pattern) -> (res: Vec<Vec<&'a str>>)
    requires
        regex.source() == clean_source(patern@),
        forall|k: int|
            0 <= k < input@.len() && mentions(#[trigger] groups_view(input@)[k], patern@) ==> propre_ok(
                groups_view(input@)[k],
                clean_source(patern@),
            ),
    ensures
        groups_view(res@) == clean(groups_view(input@), patern@),
{
    input.par_iter().filter(|group| mentions_checked(group, patern)).map(|group| mrpropre(group, regex)).collect()
}

/// Tables with their columns (name, type), one entry per table name.
pub type ColumnMap<'a> = Vec<(&'a str, Vec<(&'a str, &'a str)>)>;

/// The characters of (name, type) pairs.
pub open spec fn columns_view(cols: Seq<(&str, &str)>) -> Seq<(Seq<char>, Seq<char>)> {
    cols.map_values(|c: (&str, &str)| (c.0@, c.1@))
}

/// The characters of a table map.
pub open spec fn column_map_view(m: Seq<(&str, Vec<(&str, &str)>)>) -> Seq<(Seq<char>, Seq<(Seq<char>, Seq<char>)>)> {
    m.map_values(|e: (&str, Vec<(&str, &str)>)| (e.0@, columns_view(e.1@)))
}

/// No key stands twice in an association list.
pub open spec fn keys_unique<V>(m: Seq<(Seq<char>, V)>) -> bool {
    forall|i: int, j: int| 0 <= i < j < m.len() ==> #[trigger] m[i].0 != #[trigger] m[j].0
}

/// The association list after `key` is given `value` (`HashMap::insert`):
/// an entry of `key` gets the new value in place, else the entry comes last.
pub open spec fn assoc_insert<V>(m: Seq<(Seq<char>, V)>, key: Seq<char>, value: V) -> Seq<(Seq<char>, V)> {
    if exists|i: int| 0 <= i < m.len() && m[i].0 == key {
        m.update(choose|i: int| 0 <= i < m.len() && m[i].0 == key, (key, value))
    } else {
        m.push((key, value))
    }
}

/// The value of `key` in an association list (`HashMap::get`).
pub open spec fn assoc_get<V>(m: Seq<(Seq<char>, V)>, key: Seq<char>) -> Option<V> {
    if exists|i: int| 0 <= i < m.len() && m[i].0 == key {
        Some(m[choose|i: int| 0 <= i < m.len() && m[i].0 == key].1)
    } else {
        None
    }
}

/// Gives `key` the value `value` in `map`: in place where `key` has an
/// entry, else in a new last entry.
fn put_entry<'a, V>(map: &mut Vec<(&'a str, V)>, key: &'a str, value: V) -> (pos: usize)
    requires
        forall|i: int, j: int| 0 <= i < j < old(map)@.len() ==> #[trigger] old(map)@[i].0@ != #[trigger] old(map)@[j].0@,
    ensures
        pos <= old(map)@.len(),
        pos < old(map)@.len() ==> old(map)@[pos as int].0@ == key@ && final(map)@ == old(map)@.update(pos as int, (key, value)),
        pos == old(map)@.len() ==> final(map)@ == old(map)@.push((key, value)) && forall|i: int| 0 <= i < old(map)@.len() ==> #[trigger] old(map)@[i].0@ != key@,
{
    let mut i: usize = 0;
    while i < map.len()
        invariant
            i <= map@.len(),
            map@ == old(map)@,
            forall|k: int| 0 <= k < i ==> #[trigger] map@[k].0@ != key@,
        decreases map@.len() - i,
    {
        if same_str(map[i].0, key) {
            map.set(i, (key, value));
            return i;
        }
        i = i + 1;
    }
    map.push((key, value));
    i
}

/// The regular expression of the lines that describe a column.
pub open spec fn column_line_source() -> Seq<char> {
    "^\\s*`"@
}

/// The regular expression of a name in backticks followed by a type.
pub open spec fn table_column_source() -> Seq<char> {
    "`([^`]+)`\\s+([^,\\s]+)"@
}

/// The text of group `k` of the groups `gs` (empty where there is none).
pub open spec fn group_text(gs: Seq<Option<Seq<char>>>, k: int) -> Seq<char> {
    if k < gs.len() {
        gs[k]->0
    } else {
        Seq::empty()
    }
}

/// Groups 1 and 2 took part in the match wherever they exist.
pub open spec fn groups_ok(gs: Seq<Option<Seq<char>>>) -> bool {
    &&& gs.len() > 1 ==> gs[1] is Some
    &&& gs.len() > 2 ==> gs[2] is Some
}

/// The table that a first line names: group 1 of `source` on it (empty
/// where that group is missing); `None` where `source` does not match.
pub open spec fn table_of(source: Seq<char>, first: Seq<char>) -> Option<Seq<char>> {
    match regex_captures(source, first) {
        Some(gs) => Some(table_name(gs)),
        None => None,
    }
}

/// The table name that the groups of a first line give: group 1, or empty
/// where it is missing.
pub open spec fn table_name(gs: Seq<Option<Seq<char>>>) -> Seq<char> {
    if gs.len() > 1 && gs[1] is Some {
        gs[1]->0
    } else {
        Seq::empty()
    }
}

/// The characters of the groups of a match.
pub open spec fn captured_view(gs: Seq<Option<&str>>) -> Seq<Option<Seq<char>>> {
    gs.map_values(|g: Option<&str>| crate::pattern::opt_str_view(g))
}

/// The columns (group 1, group 2 of `col_source`) of the first `n` lines
/// that `line_source` matches and `col_source` matches too.
pub open spec fn columns_upto(lines: Seq<Seq<char>>, line_source: Seq<char>, col_source: Seq<char>, n: int) -> Seq<(Seq<char>, Seq<char>)>
    decreases n,
{
    if n <= 0 {
        Seq::empty()
    } else {
        let prev = columns_upto(lines, line_source, col_source, n - 1);
        if regex_is_match(line_source, lines[n - 1]) {
            match regex_captures(col_source, lines[n - 1]) {
                Some(gs) => prev.push((group_text(gs, 1), group_text(gs, 2))),
                None => prev,
            }
        } else {
            prev
        }
    }
}

/// `masterball` does not panic: there is a first line, and where it names a
/// table, the groups of each column line took part in the match.
pub open spec fn masterball_ok(lines: Seq<Seq<char>>, line_source: Seq<char>, col_source: Seq<char>) -> bool {
    &&& lines.len() > 0
    &&& table_of(col_source, lines[0]) is Some ==> forall|i: int|
        0 <= i < lines.len() && regex_is_match(line_source, #[trigger] lines[i]) ==> (
        regex_captures(col_source, lines[i]) matches Some(gs) ==> groups_ok(gs))
}

/// The text of the group `k` of `groups` (empty where it is missing).
fn group_or_empty<'a>(groups: &Vec<Option<&'a str>>, k: usize) -> (r: &'a str)
    ensures
        r@ == (if k < groups@.len() && groups@[k as int] is Some {
            groups@[k as int]->0@
        } else {
            Seq::<char>::empty()
        }),
{
    proof {
        reveal_strlit("");
    }
    if k < groups.len() {
        match groups[k] {
            Some(g) => g,
            None => "",
        }
    } else {
        ""
    }
}

/// The table name that the groups of a first line give.
pub fn table_from_groups<'a>(groups: &Vec<Option<&'a str>>) -> (t: &'a str)
    ensures
        t@ == table_name(captured_view(groups@)),
{
    let ghost gv = captured_view(groups@);
    assert(groups@.len() > 1 ==> gv[1] == crate::pattern::opt_str_view(groups@[1]));
    group_or_empty(groups, 1)
}

/// The column (name, type) that the groups of a column line give.
pub fn column_from_groups<'a>(groups: &Vec<Option<&'a str>>) -> (c: (&'a str, &'a str))
    requires
        groups_ok(captured_view(groups@)),
    ensures
        c.0@ == group_text(captured_view(groups@), 1),
        c.1@ == group_text(captured_view(groups@), 2),
{
    let ghost gv = captured_view(groups@);
    assert(groups@.len() > 1 ==> gv[1] == crate::pattern::opt_str_view(groups@[1]));
    assert(groups@.len() > 2 ==> gv[2] == crate::pattern::opt_str_view(groups@[2]));
    (group_or_empty(groups, 1), group_or_empty(groups, 2))
}

/// Whether `masterball` can read `input` with these expressions.
pub fn masterball_checked(input: &Vec<&str>, regex: &Pattern, reg_table_column: &Pattern) -> (r: bool)
    ensures
        r == masterball_ok(strs_view(input@), regex.source(), reg_table_column.source()),
{
    let ghost lines = strs_view(input@);
    if input.len() == 0 {
        return false;
    }
    assert(lines[0] == input@[0]@);
    if reg_table_column.captures(input[0]).is_none() {
        return true;
    }
    let mut i: usize = 0;
    while i < input.len()
        invariant
            lines == strs_view(input@),
            i <= input@.len(),
            lines.len() > 0,
            table_of(reg_table_column.source(), lines[0]) is Some,
            forall|k: int|
                0 <= k < i && regex_is_match(regex.source(), #[trigger] lines[k]) ==> (regex_captures(
                    reg_table_column.source(),
                    lines[k],
                ) matches Some(gs) ==> groups_ok(gs)),
        decreases input@.len() - i,
    {
        assert(lines[i as int] == input@[i as int]@);
        if regex.is_match(input[i]) {
            match reg_table_column.captures(input[i]) {
                Some(gs) => {
                    let ghost gv = gs@.map_values(|g: Option<&str>| crate::pattern::opt_str_view(g));
                    assert(gv.len() == gs@.len());
                    if gs.len() > 1 && gs[1].is_none() {
                        assert(gv[1] is None);
                        return false;
                    }
                    if gs.len() > 2 && gs[2].is_none() {
                        assert(gv[2] is None);
                        return false;
                    }
                    assert(gs@.len() > 1 ==> gv[1] is Some);
                    assert(gs@.len() > 2 ==> gv[2] is Some);
                },
                None => {},
            }
        }
        i = i + 1;
    }
    true
}

/// ## Masterball is lauched by Red
///
/// Reads the table that the first line names (group 1 of
/// `reg_table_column`) and, from the lines that `regex` matches, the
/// columns (groups 1 and 2) and gives the table these columns in `hashmap`.
pub fn masterball<'a>(
    input: &Vec<&'a str>,
    regex: &Pattern,
    reg_table_column: &Pattern,
    hashmap: &mut ColumnMap<'a>,
)
    requires
        masterball_ok(strs_view(input@), regex.source(), reg_table_column.source()),
        keys_unique(column_map_view(old(hashmap)@)),
    ensures
        keys_unique(column_map_view(final(hashmap)@)),
        column_map_view(final(hashmap)@) == match table_of(reg_table_column.source(), strs_view(input@)[0]) {
            None => column_map_view(old(hashmap)@),
            Some(t) => assoc_insert(
                column_map_view(old(hashmap)@),
                t,
                columns_upto(
                    strs_view(input@),
                    regex.source(),
                    reg_table_column.source(),
                    input@.len() as int,
                ),
            ),
        },
{
    let ghost lines = strs_view(input@);
    let ghost src1 = regex.source();
    let ghost src2 = reg_table_column.source();
    assert(lines[0] == input@[0]@);
    let table = match reg_table_column.captures(input[0]) {
        Some(gs) => table_from_groups(&gs),
        None => {
            return;
        },
    };
    let mut vec: Vec<(&'a str, &'a str)> = Vec::new();
    let mut i: usize = 0;
    while i < input.len()
        invariant
            lines == strs_view(input@),
            src1 == regex.source(),
            src2 == reg_table_column.source(),
            masterball_ok(lines, src1, src2),
            table_of(src2, lines[0]) is Some,
            i <= input@.len(),
            columns_view(vec@) == columns_upto(lines, src1, src2, i as int),
        decreases input@.len() - i,
    {
        let line = input[i];
        assert(lines[i as int] == line@);
        let ghost before = columns_view(vec@);
        if regex.is_match(line) {
            match reg_table_column.captures(line) {
                Some(gs) => {
                    let ghost gv = captured_view(gs@);
                    assert(groups_ok(gv));
                    let column = column_from_groups(&gs);
                    vec.push(column);
                    assert(columns_view(vec@) =~= before.push((group_text(gv, 1), group_text(gv, 2))));
                },
                None => {},
            }
        }
        i = i + 1;
    }
    let ghost old_map = hashmap@;
    let ghost cols = columns_view(vec@);
    proof {
        assert forall|a: int, b: int| 0 <= a < b < old_map.len() implies #[trigger] old_map[a].0@ != #[trigger] old_map[b].0@ by {
            assert(column_map_view(old_map)[a].0 == old_map[a].0@);
            assert(column_map_view(old_map)[b].0 == old_map[b].0@);
        }
    }
    let pos = put_entry(hashmap, table, vec);
    proof {
        let ov = column_map_view(old_map);
        let nv = column_map_view(hashmap@);
        assert forall|k: int| 0 <= k < ov.len() && k != pos implies nv[k] == ov[k] by {
            assert(hashmap@[k] == old_map[k]);
        }
        if pos == old_map.len() {
            assert forall|k: int| 0 <= k < ov.len() implies #[trigger] ov[k].0 != table@ by {
                assert(ov[k].0 == old_map[k].0@);
            }
        }
        lemma_assoc_put(ov, nv, table@, cols, pos as int);
    }
}

/// The tables of the first `n` groups, as `red` collects them: each group
/// read by `masterball`, a later table of the same name replacing an
/// earlier one.
pub open spec fn tables_upto(groups: Seq<Seq<Seq<char>>>, n: int) -> Seq<(Seq<char>, Seq<(Seq<char>, Seq<char>)>)>
    decreases n,
{
    if n <= 0 {
        Seq::empty()
    } else {
        let m = tables_upto(groups, n - 1);
        let g = groups[n - 1];
        match table_of(table_column_source(), g[0]) {
            None => m,
            Some(t) => assoc_insert(
                m,
                t,
                columns_upto(g, column_line_source(), table_column_source(), g.len() as int),
            ),
        }
    }
}

/// `red` does not panic: both expressions compile and `masterball` can
/// read every group.
pub open spec fn red_ok(groups: Seq<Seq<Seq<char>>>) -> bool {
    &&& regex_compiles(column_line_source())
    &&& regex_compiles(table_column_source())
    &&& forall|i: int| 0 <= i < groups.len() ==> masterball_ok(#[trigger] groups[i], column_line_source(), table_column_source())
}

/// Iter on a vector to get table name and column info: the table of each
/// group with its columns; `None` where an expression does not compile or
/// `masterball` cannot read a group.
pub fn red<'a>(input: &Vec<Vec<&'a str>>) -> (res: Option<ColumnMap<'a>>)
    ensures
        res is Some <==> red_ok(groups_view(input@)),
        res matches Some(m) ==> column_map_view(m@) == tables_upto(groups_view(input@), input@.len() as int)
            && keys_unique(column_map_view(m@)),
{
    let ghost groups = groups_view(input@);
    let regex = match Pattern::compile("^\\s*`") {
        Some(r) => r,
        None => {
            return None;
        },
    };
    let reg_table_column = match Pattern::compile("`([^`]+)`\\s+([^,\\s]+)") {
        Some(r) => r,
        None => {
            return None;
        },
    };
    let mut i: usize = 0;
    while i < input.len()
        invariant
            groups == groups_view(input@),
            i <= input@.len(),
            regex.source() == column_line_source(),
            reg_table_column.source() == table_column_source(),
            forall|k: int| 0 <= k < i ==> masterball_ok(#[trigger] groups[k], column_line_source(), table_column_source()),
        decreases input@.len() - i,
    {
        assert(groups[i as int] == strs_view(input@[i as int]@));
        if !masterball_checked(&input[i], &regex, &reg_table_column) {
            return None;
        }
        i = i + 1;
    }
    let mut hashmap: ColumnMap<'a> = Vec::new();
    let mut i: usize = 0;
    assert(column_map_view(hashmap@) =~= Seq::<(Seq<char>, Seq<(Seq<char>, Seq<char>)>)>::empty());
    while i < input.len()
        invariant
            groups == groups_view(input@),
            i <= input@.len(),
            regex.source() == column_line_source(),
            reg_table_column.source() == table_column_source(),
            red_ok(groups),
            keys_unique(column_map_view(hashmap@)),
            column_map_view(hashmap@) == tables_upto(groups, i as int),
        decreases input@.len() - i,
    {
        assert(groups[i as int] == strs_view(input@[i as int]@));
        masterball(&input[i], &regex, &reg_table_column, &mut hashmap);
        i = i + 1;
    }
    Some(hashmap)
}

/// A table and its columns.
#[derive(Debug)]
pub struct SqlTable<'a> {
    pub name: &'a str,
    pub column: Vec<TableColumn<'a>>,
}

/// A column, with what the keys say of it.
#[derive(Debug)]
pub struct TableColumn<'a> {
    pub name: &'a str,
    pub data_type: &'a str,
    pub is_primary_key: bool,
    pub is_foreign_key: bool,
    pub references_table: Option<&'a str>,
    pub references_column: Option<&'a str>,
}

/// The model of a column.
pub struct ColumnModel {
    pub name: Seq<char>,
    pub data_type: Seq<char>,
    pub is_primary_key: bool,
    pub is_foreign_key: bool,
    pub references_table: Option<Seq<char>>,
    pub references_column: Option<Seq<char>>,
}

/// The model of a table.
pub struct TableModel {
    pub name: Seq<char>,
    pub columns: Seq<ColumnModel>,
}

impl<'a> View for TableColumn<'a> {
    type V = ColumnModel;

    open spec fn view(&self) -> ColumnModel {
        ColumnModel {
            name: self.name@,
            data_type: self.data_type@,
            is_primary_key: self.is_primary_key,
            is_foreign_key: self.is_foreign_key,
            references_table: crate::pattern::opt_str_view(self.references_table),
            references_column: crate::pattern::opt_str_view(self.references_column),
        }
    }
}

impl<'a> View for SqlTable<'a> {
    type V = TableModel;

    open spec fn view(&self) -> TableModel {
        TableModel { name: self.name@, columns: self.column@.map_values(|c: TableColumn<'a>| c@) }
    }
}

/// The models of tables.
pub open spec fn tables_view<'a>(tables: Seq<SqlTable<'a>>) -> Seq<TableModel> {
    tables.map_values(|t: SqlTable<'a>| t@)
}

/// Foreign keys of tables: for each table, (column, referenced table,
/// referenced column) triples.
pub type ForeignKeyMap<'a> = Vec<(&'a str, Vec<(&'a str, &'a str, &'a str)>)>;

/// The characters of foreign-key triples.
pub open spec fn refs_view(refs: Seq<(&str, &str, &str)>) -> Seq<(Seq<char>, Seq<char>, Seq<char>)> {
    refs.map_values(|r: (&str, &str, &str)| (r.0@, r.1@, r.2@))
}

/// The characters of a foreign-key map.
pub open spec fn foreign_map_view(m: Seq<(&str, Vec<(&str, &str, &str)>)>) -> Seq<(Seq<char>, Seq<(Seq<char>, Seq<char>, Seq<char>)>)> {
    m.map_values(|e: (&str, Vec<(&str, &str, &str)>)| (e.0@, refs_view(e.1@)))
}

/// The table and column that the first triple of `refs` for `name` points to.
pub open spec fn reference_of(refs: Seq<(Seq<char>, Seq<char>, Seq<char>)>, name: Seq<char>) -> Option<(Seq<char>, Seq<char>)>
    decreases refs.len(),
{
    if refs.len() == 0 {
        None
    } else if refs[0].0 == name {
        Some((refs[0].1, refs[0].2))
    } else {
        reference_of(refs.drop_first(), name)
    }
}

/// Some entry of `primary` names `table` then `name`.
pub open spec fn is_primary(primary: Seq<Seq<Seq<char>>>, table: Seq<char>, name: Seq<char>) -> bool {
    exists|i: int| 0 <= i < primary.len() && primary[i].len() >= 2 && (#[trigger] primary[i])[0] == table && primary[i][1] == name
}

/// The search of `primary` for the key (`table`, `name`) reads no item that
/// is missing: up to the entry found, every entry has a first item, and a
/// second one where the first is `table`.
pub open spec fn primary_scan_ok(primary: Seq<Seq<Seq<char>>>, table: Seq<char>, name: Seq<char>) -> bool
    decreases primary.len(),
{
    if primary.len() == 0 {
        true
    } else {
        let d = primary[0];
        &&& d.len() >= 1
        &&& d[0] == table ==> d.len() >= 2
        &&& (d[0] == table && d[1] == name) || primary_scan_ok(primary.drop_first(), table, name)
    }
}

/// The model of the column `name` of type `data_type` of `table`.
pub open spec fn column_model(
    table: Seq<char>,
    name: Seq<char>,
    data_type: Seq<char>,
    refs: Option<Seq<(Seq<char>, Seq<char>, Seq<char>)>>,
    primary: Seq<Seq<Seq<char>>>,
) -> ColumnModel {
    let r = match refs {
        Some(refs) => reference_of(refs, name),
        None => None,
    };
    ColumnModel {
        name,
        data_type,
        is_primary_key: is_primary(primary, table, name),
        is_foreign_key: r is Some,
        references_table: match r {
            Some(p) => Some(p.0),
            None => None,
        },
        references_column: match r {
            Some(p) => Some(p.1),
            None => None,
        },
    }
}

/// The model of one table of the column map.
pub open spec fn table_model(
    entry: (Seq<char>, Seq<(Seq<char>, Seq<char>)>),
    primary: Seq<Seq<Seq<char>>>,
    foreign: Seq<(Seq<char>, Seq<(Seq<char>, Seq<char>, Seq<char>)>)>,
) -> TableModel {
    TableModel {
        name: entry.0,
        columns: entry.1.map_values(
            |c: (Seq<char>, Seq<char>)| column_model(entry.0, c.0, c.1, assoc_get(foreign, entry.0), primary),
        ),
    }
}

/// What `e2pz` gives: each table of `column`, in order, with its columns
/// marked by the keys.
pub open spec fn tables_model(
    column: Seq<(Seq<char>, Seq<(Seq<char>, Seq<char>)>)>,
    primary: Seq<Seq<Seq<char>>>,
    foreign: Seq<(Seq<char>, Seq<(Seq<char>, Seq<char>, Seq<char>)>)>,
) -> Seq<TableModel> {
    column.map_values(|e: (Seq<char>, Seq<(Seq<char>, Seq<char>)>)| table_model(e, primary, foreign))
}

/// `e2pz` does not panic: the search of the primary keys succeeds for every
/// column.
pub open spec fn e2pz_ok(column: Seq<(Seq<char>, Seq<(Seq<char>, Seq<char>)>)>, primary: Seq<Seq<Seq<char>>>) -> bool {
    forall|i: int, j: int|
        0 <= i < column.len() && 0 <= j < column[i].1.len() ==> primary_scan_ok(
            primary,
            column[i].0,
            #[trigger] column[i].1[j].0,
        )
}

/// The index of the entry of `key` in `map`, if it has one.
fn find_entry<V>(map: &Vec<(&str, V)>, key: &str) -> (r: Option<usize>)
    ensures
        r is None ==> forall|i: int| 0 <= i < map@.len() ==> #[trigger] map@[i].0@ != key@,
        r matches Some(i) ==> i < map@.len() && map@[i as int].0@ == key@,
{
    let mut i: usize = 0;
    while i < map.len()
        invariant
            i <= map@.len(),
            forall|k: int| 0 <= k < i ==> #[trigger] map@[k].0@ != key@,
        decreases map@.len() - i,
    {
        if same_str(map[i].0, key) {
            return Some(i);
        }
        i = i + 1;
    }
    None
}

proof fn lemma_primary_scan_skip(primary: Seq<Seq<Seq<char>>>, table: Seq<char>, name: Seq<char>, k: int)
    requires
        0 <= k <= primary.len(),
        primary_scan_ok(primary, table, name),
        forall|j: int| 0 <= j < k ==> !((#[trigger] primary[j]).len() >= 2 && primary[j][0] == table && primary[j][1] == name),
    ensures
        primary_scan_ok(primary.skip(k), table, name),
        forall|j: int| 0 <= j < k ==> (#[trigger] primary[j]).len() >= 1,
        forall|j: int| 0 <= j < k && (#[trigger] primary[j])[0] == table ==> primary[j].len() >= 2,
    decreases k,
{
    if k > 0 {
        lemma_primary_scan_skip(primary, table, name, k - 1);
        assert(primary.skip(k - 1).drop_first() =~= primary.skip(k));
        assert(primary.skip(k - 1)[0] == primary[k - 1]);
    } else {
        assert(primary.skip(0) =~= primary);
    }
}

/// The model of one column, computed.
fn make_column<'a>(
    table: &'a str,
    name: &'a str,
    data_type: &'a str,
    refs: Option<&Vec<(&'a str, &'a str, &'a str)>>,
    primary_key: &Vec<Vec<&'a str>>,
) -> (col: TableColumn<'a>)
    requires
        primary_scan_ok(groups_view(primary_key@), table@, name@),
    ensures
        col@ == column_model(
            table@,
            name@,
            data_type@,
            match refs {
                Some(r) => Some(refs_view(r@)),
                None => None,
            },
            groups_view(primary_key@),
        ),
{
    let mut col = TableColumn {
        name,
        data_type,
        is_primary_key: false,
        is_foreign_key: false,
        references_table: None,
        references_column: None,
    };
    match refs {
        Some(data_foreign_key) => {
            let ghost rv = refs_view(data_foreign_key@);
            let mut k: usize = 0;
            assert(rv.skip(0) =~= rv);
            while k < data_foreign_key.len()
                invariant_except_break
                    rv == refs_view(data_foreign_key@),
                    k <= data_foreign_key@.len(),
                    reference_of(rv, name@) == reference_of(rv.skip(k as int), name@),
                    col@ == (ColumnModel {
                        name: name@,
                        data_type: data_type@,
                        is_primary_key: false,
                        is_foreign_key: false,
                        references_table: None,
                        references_column: None,
                    }),
                ensures
                    rv == refs_view(data_foreign_key@),
                    match reference_of(rv, name@) {
                        Some(p) => col.is_foreign_key && opt_view_is(col.references_table, p.0)
                            && opt_view_is(col.references_column, p.1),
                        None => !col.is_foreign_key && col.references_table is None
                            && col.references_column is None,
                    },
                    col.name@ == name@,
                    col.data_type@ == data_type@,
                    !col.is_primary_key,
                decreases data_foreign_key@.len() - k,
            {
                let data = data_foreign_key[k];
                assert(rv[k as int] == (data.0@, data.1@, data.2@));
                assert(rv.skip(k as int)[0] == rv[k as int]);
                assert(rv.skip(k as int).drop_first() =~= rv.skip(k + 1));
                if same_str(data.0, name) {
                    col.is_foreign_key = true;
                    col.references_table = Some(data.1);
                    col.references_column = Some(data.2);
                    break;
                }
                k = k + 1;
            }
        },
        None => {},
    }
    let ghost pv = groups_view(primary_key@);
    let ghost before = col;
    let mut k: usize = 0;
    while k < primary_key.len()
        invariant_except_break
            col.name == before.name,
            col.data_type == before.data_type,
            col.is_foreign_key == before.is_foreign_key,
            col.references_table == before.references_table,
            col.references_column == before.references_column,
            pv == groups_view(primary_key@),
            primary_scan_ok(pv, table@, name@),
            k <= primary_key@.len(),
            forall|j: int| 0 <= j < k ==> !((#[trigger] pv[j]).len() >= 2 && pv[j][0] == table@ && pv[j][1] == name@),
            !col.is_primary_key,
        ensures
            col.name == before.name,
            col.data_type == before.data_type,
            col.is_foreign_key == before.is_foreign_key,
            col.references_table == before.references_table,
            col.references_column == before.references_column,
            col.is_primary_key == is_primary(pv, table@, name@),
        decreases primary_key@.len() - k,
    {
        let data = &primary_key[k];
        assert(pv[k as int] == strs_view(data@));
        proof {
            lemma_primary_scan_skip(pv, table@, name@, k as int);
            assert(pv.skip(k as int)[0] == pv[k as int]);
        }
        assert(strs_view(data@)[0] == data@[0]@);
        if same_str(data[0], table) {
            assert(strs_view(data@)[1] == data@[1]@);
            if same_str(data[1], name) {
                col.is_primary_key = true;
                break;
            }
        }
        k = k + 1;
    }
    col
}

/// `o` holds a slice with the characters `s`.
pub open spec fn opt_view_is(o: Option<&str>, s: Seq<char>) -> bool {
    o matches Some(x) && x@ == s
}

proof fn lemma_assoc_put<W>(
    ov: Seq<(Seq<char>, W)>,
    nv: Seq<(Seq<char>, W)>,
    key: Seq<char>,
    val: W,
    pos: int,
)
    requires
        keys_unique(ov),
        0 <= pos <= ov.len(),
        nv.len() == if pos < ov.len() { ov.len() } else { ov.len() + 1 },
        pos < ov.len() ==> ov[pos].0 == key,
        pos == ov.len() ==> forall|i: int| 0 <= i < ov.len() ==> #[trigger] ov[i].0 != key,
        forall|i: int| 0 <= i < ov.len() && i != pos ==> nv[i] == ov[i],
        nv[pos] == (key, val),
    ensures
        nv == assoc_insert(ov, key, val),
        keys_unique(nv),
{
    if pos < ov.len() {
        let c = choose|i: int| 0 <= i < ov.len() && ov[i].0 == key;
        assert(c == pos) by {
            if c != pos {
                if c < pos {
                    assert(ov[c].0 != ov[pos].0);
                } else {
                    assert(ov[pos].0 != ov[c].0);
                }
            }
        }
        assert(nv =~= ov.update(pos, (key, val)));
    } else {
        assert(nv =~= ov.push((key, val)));
    }
    assert forall|i: int, j: int| 0 <= i < j < nv.len() implies #[trigger] nv[i].0 != #[trigger] nv[j].0 by {
        if i != pos && j != pos {
            assert(nv[i] == ov[i] && nv[j] == ov[j]);
        } else if i == pos {
            assert(nv[j] == ov[j]);
            if pos < ov.len() {
                assert(ov[pos].0 != ov[j].0);
            }
        } else {
            assert(nv[i] == ov[i]);
            if pos < ov.len() {
                assert(ov[i].0 != ov[pos].0);
            }
        }
    }
}

proof fn lemma_assoc_get_found<W>(m: Seq<(Seq<char>, W)>, key: Seq<char>, idx: int)
    requires
        keys_unique(m),
        0 <= idx < m.len(),
        m[idx].0 == key,
    ensures
        assoc_get(m, key) == Some(m[idx].1),
{
    let c = choose|i: int| 0 <= i < m.len() && m[i].0 == key;
    assert(c == idx) by {
        if c != idx {
            if c < idx {
                assert(m[c].0 != m[idx].0);
            } else {
                assert(m[idx].0 != m[c].0);
            }
        }
    }
}

/// Take all maps to generate the final tables: each table of `column`, in
/// order, its columns marked as primary keys by `primary_key` and as
/// foreign keys by `foreign_key`.
pub fn e2pz<'a>(
    column: ColumnMap<'a>,
    primary_key: Vec<Vec<&'a str>>,
    foreign_key: ForeignKeyMap<'a>,
) -> (tables: Vec<SqlTable<'a>>)
    requires
        e2pz_ok(column_map_view(column@), groups_view(primary_key@)),
        keys_unique(foreign_map_view(foreign_key@)),
    ensures
        tables_view(tables@) == tables_model(
            column_map_view(column@),
            groups_view(primary_key@),
            foreign_map_view(foreign_key@),
        ),
{
    let ghost cv = column_map_view(column@);
    let ghost pv = groups_view(primary_key@);
    let ghost fv = foreign_map_view(foreign_key@);
    let mut tables: Vec<SqlTable<'a>> = Vec::new();
    let mut i: usize = 0;
    while i < column.len()
        invariant
            cv == column_map_view(column@),
            pv == groups_view(primary_key@),
            fv == foreign_map_view(foreign_key@),
            e2pz_ok(cv, pv),
            keys_unique(fv),
            i <= column@.len(),
            tables_view(tables@) == tables_model(cv, pv, fv).take(i as int),
        decreases column@.len() - i,
    {
        let key = column[i].0;
        let value = &column[i].1;
        assert(cv[i as int] == (key@, columns_view(value@)));
        let refs = match find_entry(&foreign_key, key) {
            Some(idx) => {
                assert(fv[idx as int] == (key@, refs_view(foreign_key@[idx as int].1@)));
                proof {
                    lemma_assoc_get_found(fv, key@, idx as int);
                }
                Some(&foreign_key[idx].1)
            },
            None => {
                assert(!exists|k: int| 0 <= k < fv.len() && fv[k].0 == key@) by {
                    assert forall|k: int| 0 <= k < fv.len() implies fv[k].0 != key@ by {
                        assert(fv[k].0 == foreign_key@[k].0@);
                    }
                }
                None
            },
        };
        let ghost want = tables_model(cv, pv, fv)[i as int];
        let mut colum_data: Vec<TableColumn<'a>> = Vec::new();
        let mut j: usize = 0;
        while j < value.len()
            invariant
                cv == column_map_view(column@),
                pv == groups_view(primary_key@),
                e2pz_ok(cv, pv),
                i < column@.len(),
                cv[i as int] == (key@, columns_view(value@)),
                want == table_model(cv[i as int], pv, fv),
                assoc_get(fv, key@) == match refs {
                    Some(r) => Some(refs_view(r@)),
                    None => None,
                },
                j <= value@.len(),
                colum_data@.map_values(|c: TableColumn<'a>| c@) == want.columns.take(j as int),
            decreases value@.len() - j,
        {
            let (name, type_k) = value[j];
            assert(columns_view(value@)[j as int] == (name@, type_k@));
            assert(primary_scan_ok(pv, cv[i as int].0, cv[i as int].1[j as int].0));
            let col = make_column(key, name, type_k, refs, &primary_key);
            let ghost before = colum_data@.map_values(|c: TableColumn<'a>| c@);
            colum_data.push(col);
            assert(colum_data@.map_values(|c: TableColumn<'a>| c@) =~= before.push(col@));
            assert(want.columns.take(j + 1) =~= want.columns.take(j as int).push(want.columns[j as int]));
            j = j + 1;
        }
        assert(want.columns.take(j as int) =~= want.columns);
        let table = SqlTable { name: key, column: colum_data };
        let ghost before = tables_view(tables@);
        tables.push(table);
        assert(tables_view(tables@) =~= before.push(table@));
        assert(table@ == want);
        assert(tables_model(cv, pv, fv).take(i + 1) =~= tables_model(cv, pv, fv).take(i as int).push(want));
        i = i + 1;
    }
    assert(tables_model(cv, pv, fv).take(i as int) =~= tables_model(cv, pv, fv));
    tables
}

/// The foreign key that a cleaned `CONSTRAINT` line describes: the third,
/// fifth and seventh pieces between backticks (column, referenced table,
/// referenced column).
pub open spec fn foreign_triple(data: Seq<char>) -> (Seq<char>, Seq<char>, Seq<char>) {
    let items = split_on(data, '`');
    (items[2], items[4], items[6])
}

/// The foreign keys of the first `n` groups, as `omega` gathers them: the
/// first line names the table, each other line gives a triple; a later
/// group of the same table replaces an earlier one.
pub open spec fn foreign_upto(foreign: Seq<Seq<Seq<char>>>, n: int) -> Seq<(Seq<char>, Seq<(Seq<char>, Seq<char>, Seq<char>)>)>
    decreases n,
{
    if n <= 0 {
        Seq::empty()
    } else {
        let m = foreign_upto(foreign, n - 1);
        let v = foreign[n - 1];
        if v.len() == 0 {
            m
        } else {
            assoc_insert(m, v[0], v.drop_first().map_values(|d: Seq<char>| foreign_triple(d)))
        }
    }
}

/// `omega` does not panic: each line after the first of a group has at
/// least seven pieces between backticks.
pub open spec fn omega_ok(foreign: Seq<Seq<Seq<char>>>) -> bool {
    forall|i: int, j: int|
        0 <= i < foreign.len() && 1 <= j < foreign[i].len() ==> split_on(#[trigger] foreign[i][j], '`').len() >= 7
}

/// The foreign keys of each table that `foreign` describes.
fn foreign_keys<'a>(foreign: &Vec<Vec<&'a str>>) -> (fk: ForeignKeyMap<'a>)
    requires
        omega_ok(groups_view(foreign@)),
    ensures
        foreign_map_view(fk@) == foreign_upto(groups_view(foreign@), foreign@.len() as int),
        keys_unique(foreign_map_view(fk@)),
{
    let ghost gv = groups_view(foreign@);
    let mut fk: ForeignKeyMap<'a> = Vec::new();
    assert(foreign_map_view(fk@) =~= Seq::<(Seq<char>, Seq<(Seq<char>, Seq<char>, Seq<char>)>)>::empty());
    let mut i: usize = 0;
    while i < foreign.len()
        invariant
            gv == groups_view(foreign@),
            omega_ok(gv),
            i <= foreign@.len(),
            foreign_map_view(fk@) == foreign_upto(gv, i as int),
            keys_unique(foreign_map_view(fk@)),
        decreases foreign@.len() - i,
    {
        let vec = &foreign[i];
        let ghost lines = strs_view(vec@);
        assert(gv[i as int] == lines);
        if vec.len() > 0 {
            let first = vec[0];
            assert(lines[0] == first@);
            let mut x: Vec<(&'a str, &'a str, &'a str)> = Vec::new();
            let mut j: usize = 1;
            assert(lines.drop_first().take(0) =~= Seq::<Seq<char>>::empty());
            while j < vec.len()
                invariant
                    gv == groups_view(foreign@),
                    omega_ok(gv),
                    i < foreign@.len(),
                    lines == strs_view(vec@),
                    gv[i as int] == lines,
                    1 <= j <= vec@.len(),
                    refs_view(x@) == lines.drop_first().take(j - 1).map_values(|d: Seq<char>| foreign_triple(d)),
                decreases vec@.len() - j,
            {
                assert(lines[j as int] == vec@[j as int]@);
                assert(split_on(gv[i as int][j as int], '`').len() >= 7);
                let item = split_char(vec[j], '`');
                assert(strs_view(item@)[2] == item@[2]@);
                assert(strs_view(item@)[4] == item@[4]@);
                assert(strs_view(item@)[6] == item@[6]@);
                let tuple = (item[2], item[4], item[6]);
                let ghost before = refs_view(x@);
                x.push(tuple);
                assert(refs_view(x@) =~= before.push(foreign_triple(lines[j as int])));
                assert(lines.drop_first().take(j as int) =~= lines.drop_first().take(j - 1).push(lines[j as int]));
                j = j + 1;
            }
            assert(lines.drop_first().take(j - 1) =~= lines.drop_first());
            let ghost old_map = fk@;
            let ghost refs = refs_view(x@);
            proof {
                assert forall|a: int, b: int| 0 <= a < b < old_map.len() implies #[trigger] old_map[a].0@ != #[trigger] old_map[b].0@ by {
                    assert(foreign_map_view(old_map)[a].0 == old_map[a].0@);
                    assert(foreign_map_view(old_map)[b].0 == old_map[b].0@);
                }
            }
            let pos = put_entry(&mut fk, first, x);
            proof {
                let ov = foreign_map_view(old_map);
                let nv = foreign_map_view(fk@);
                assert forall|k: int| 0 <= k < ov.len() && k != pos implies nv[k] == ov[k] by {
                    assert(fk@[k] == old_map[k]);
                }
                if pos == old_map.len() {
                    assert forall|k: int| 0 <= k < ov.len() implies #[trigger] ov[k].0 != first@ by {
                        assert(ov[k].0 == old_map[k].0@);
                    }
                }
                lemma_assoc_put(ov, nv, first@, refs, pos as int);
            }
        }
        i = i + 1;
    }
    fk
}

/// Gather foreign key and link table: reads the foreign keys that
/// `foreign` describes and marks the columns of `column` with them and with
/// `primary`.
pub fn omega<'a>(
    column: ColumnMap<'a>,
    foreign: Vec<Vec<&'a str>>,
    primary: Vec<Vec<&'a str>>,
) -> (tables: Vec<SqlTable<'a>>)
    requires
        omega_ok(groups_view(foreign@)),
        e2pz_ok(column_map_view(column@), groups_view(primary@)),
    ensures
        tables_view(tables@) == tables_model(
            column_map_view(column@),
            groups_view(primary@),
            foreign_upto(groups_view(foreign@), foreign@.len() as int),
        ),
{
    let foreign_key = foreign_keys(&foreign);
    e2pz(column, primary, foreign_key)
}

/// Whether the search of `primary` for (`table`, `name`) reads only items
/// that are there.
fn primary_scan_checked(primary: &Vec<Vec<&str>>, table: &str, name: &str) -> (r: bool)
    ensures
        r == primary_scan_ok(groups_view(primary@), table@, name@),
{
    let ghost pv = groups_view(primary@);
    let mut k: usize = 0;
    assert(pv.skip(0) =~= pv);
    while k < primary.len()
        invariant
            pv == groups_view(primary@),
            k <= primary@.len(),
            primary_scan_ok(pv, table@, name@) == primary_scan_ok(pv.skip(k as int), table@, name@),
        decreases primary@.len() - k,
    {
        let data = &primary[k];
        assert(pv[k as int] == strs_view(data@));
        assert(pv.skip(k as int)[0] == pv[k as int]);
        assert(pv.skip(k as int).drop_first() =~= pv.skip(k + 1));
        if data.len() == 0 {
            return false;
        }
        assert(strs_view(data@)[0] == data@[0]@);
        if same_str(data[0], table) {
            if data.len() < 2 {
                return false;
            }
            assert(strs_view(data@)[1] == data@[1]@);
            if same_str(data[1], name) {
                return true;
            }
        }
        k = k + 1;
    }
    true
}

/// Whether `omega` can run on these inputs.
pub fn omega_checked(column: &ColumnMap, foreign: &Vec<Vec<&str>>, primary: &Vec<Vec<&str>>) -> (r: bool)
    ensures
        r == (omega_ok(groups_view(foreign@)) && e2pz_ok(column_map_view(column@), groups_view(primary@))),
{
    let ghost gv = groups_view(foreign@);
    let ghost cv = column_map_view(column@);
    let ghost pv = groups_view(primary@);
    let mut i: usize = 0;
    while i < foreign.len()
        invariant
            gv == groups_view(foreign@),
            i <= foreign@.len(),
            forall|a: int, b: int|
                0 <= a < i && 1 <= b < gv[a].len() ==> split_on(#[trigger] gv[a][b], '`').len() >= 7,
        decreases foreign@.len() - i,
    {
        let vec = &foreign[i];
        assert(gv[i as int] == strs_view(vec@));
        let mut j: usize = 1;
        while j < vec.len()
            invariant
                gv == groups_view(foreign@),
                i < foreign@.len(),
                gv[i as int] == strs_view(vec@),
                1 <= j,
                j <= vec@.len() || vec@.len() == 0,
                forall|a: int, b: int|
                    0 <= a < i && 1 <= b < gv[a].len() ==> split_on(#[trigger] gv[a][b], '`').len() >= 7,
                forall|b: int| 1 <= b < j && b < gv[i as int].len() ==> split_on(#[trigger] gv[i as int][b], '`').len() >= 7,
            decreases vec@.len() - j,
        {
            assert(gv[i as int][j as int] == vec@[j as int]@);
            let item = split_char(vec[j], '`');
            if item.len() < 7 {
                assert(strs_view(item@).len() == item@.len());
                return false;
            }
            j = j + 1;
        }
        i = i + 1;
    }
    let mut i: usize = 0;
    while i < column.len()
        invariant
            cv == column_map_view(column@),
            pv == groups_view(primary@),
            omega_ok(gv),
            gv == groups_view(foreign@),
            i <= column@.len(),
            forall|a: int, b: int|
                0 <= a < i && 0 <= b < cv[a].1.len() ==> primary_scan_ok(pv, cv[a].0, #[trigger] cv[a].1[b].0),
        decreases column@.len() - i,
    {
        let key = column[i].0;
        let value = &column[i].1;
        assert(cv[i as int] == (key@, columns_view(value@)));
        let mut j: usize = 0;
        while j < value.len()
            invariant
                cv == column_map_view(column@),
                pv == groups_view(primary@),
                i < column@.len(),
                cv[i as int] == (key@, columns_view(value@)),
                j <= value@.len(),
                forall|a: int, b: int|
                    0 <= a < i && 0 <= b < cv[a].1.len() ==> primary_scan_ok(pv, cv[a].0, #[trigger] cv[a].1[b].0),
                forall|b: int| 0 <= b < j ==> primary_scan_ok(pv, cv[i as int].0, #[trigger] cv[i as int].1[b].0),
            decreases value@.len() - j,
        {
            assert(columns_view(value@)[j as int] == (value@[j as int].0@, value@[j as int].1@));
            if !primary_scan_checked(primary, key, value[j].0) {
                assert(!primary_scan_ok(pv, cv[i as int].0, cv[i as int].1[j as int].0));
                return false;
            }
            j = j + 1;
        }
        i = i + 1;
    }
    true
}

/// Setting a key in an association list: reading it back gives the value
/// set, every other key keeps its value, and keys stay unique.
pub proof fn law_assoc_read_after_write<V>(m: Seq<(Seq<char>, V)>, key: Seq<char>, value: V, other: Seq<char>)
    requires
        keys_unique(m),
    ensures
        keys_unique(assoc_insert(m, key, value)),
        assoc_get(assoc_insert(m, key, value), key) == Some(value),
        other != key ==> assoc_get(assoc_insert(m, key, value), other) == assoc_get(m, other),
{
    let r = assoc_insert(m, key, value);
    if exists|i: int| 0 <= i < m.len() && m[i].0 == key {
        let idx = choose|i: int| 0 <= i < m.len() && m[i].0 == key;
        lemma_assoc_put(m, r, key, value, idx);
    } else {
        assert forall|i: int| 0 <= i < m.len() implies #[trigger] m[i].0 != key by {}
        lemma_assoc_put(m, r, key, value, m.len() as int);
    }
    lemma_assoc_get_found(r, key, if exists|i: int| 0 <= i < m.len() && m[i].0 == key {
        choose|i: int| 0 <= i < m.len() && m[i].0 == key
    } else {
        m.len() as int
    });
    if other != key {
        if exists|i: int| 0 <= i < m.len() && m[i].0 == other {
            let i = choose|i: int| 0 <= i < m.len() && m[i].0 == other;
            lemma_assoc_get_found(m, other, i);
            assert(r[i] == m[i]);
            lemma_assoc_get_found(r, other, i);
        } else {
            assert forall|i: int| 0 <= i < r.len() implies r[i].0 != other by {
                if i < m.len() {
                    if r[i] != m[i] {
                        assert(r[i].0 == key);
                    }
                }
            }
        }
    }
}

#[verifier::rlimit(40)]
proof fn lemma_reference_of(refs: Seq<(Seq<char>, Seq<char>, Seq<char>)>, name: Seq<char>)
    ensures
        reference_of(refs, name) is Some <==> exists|k: int| 0 <= k < refs.len() && (#[trigger] refs[k]).0 == name,
        forall|k: int|
            0 <= k < refs.len() && (#[trigger] refs[k]).0 == name && (forall|j: int| 0 <= j < k ==> refs[j].0 != name)
                ==> reference_of(refs, name) == Some((refs[k].1, refs[k].2)),
    decreases refs.len(),
{
    if refs.len() > 0 {
        let rest = refs.drop_first();
        lemma_reference_of(rest, name);
        if refs[0].0 != name {
            assert forall|k: int| 0 < k < refs.len() implies refs[k] == rest[k - 1] by {}
            if exists|k: int| 0 <= k < refs.len() && (#[trigger] refs[k]).0 == name {
                let k = choose|k: int| 0 <= k < refs.len() && (#[trigger] refs[k]).0 == name;
                assert(rest[k - 1].0 == name);
            }
            assert forall|k: int|
                0 <= k < refs.len() && (#[trigger] refs[k]).0 == name && (forall|j: int| 0 <= j < k ==> refs[j].0 != name)
                implies reference_of(refs, name) == Some((refs[k].1, refs[k].2)) by {
                assert(k > 0);
                assert(rest[k - 1] == refs[k]);
                assert forall|j: int| 0 <= j < k - 1 implies rest[j].0 != name by {
                    assert(rest[j] == refs[j + 1]);
                }
            }
        } else {
            assert forall|k: int|
                0 <= k < refs.len() && (#[trigger] refs[k]).0 == name && (forall|j: int| 0 <= j < k ==> refs[j].0 != name)
                implies reference_of(refs, name) == Some((refs[k].1, refs[k].2)) by {
                if k > 0 {
                    assert(refs[0].0 != name);
                }
            }
        }
    }
}

/// The tables come out in the order of the column map, each with its
/// columns in order, named and typed as there. A column is a primary key
/// exactly when some entry of the primary-key list names its own table and
/// then the column. A column is a foreign key exactly when the foreign keys
/// of its own table hold a triple for it, and then it references the table
/// and column of the first such triple; otherwise it references nothing.
pub proof fn law_tables_keep_columns(
    column: Seq<(Seq<char>, Seq<(Seq<char>, Seq<char>)>)>,
    primary: Seq<Seq<Seq<char>>>,
    foreign: Seq<(Seq<char>, Seq<(Seq<char>, Seq<char>, Seq<char>)>)>,
    i: int,
    j: int,
)
    requires
        0 <= i < column.len(),
        0 <= j < column[i].1.len(),
    ensures
        tables_model(column, primary, foreign).len() == column.len(),
        tables_model(column, primary, foreign)[i].name == column[i].0,
        tables_model(column, primary, foreign)[i].columns.len() == column[i].1.len(),
        tables_model(column, primary, foreign)[i].columns[j].name == column[i].1[j].0,
        tables_model(column, primary, foreign)[i].columns[j].data_type == column[i].1[j].1,
        tables_model(column, primary, foreign)[i].columns[j].is_primary_key <==> exists|e: int|
            0 <= e < primary.len() && (#[trigger] primary[e]).len() >= 2 && primary[e][0] == column[i].0
                && primary[e][1] == column[i].1[j].0,
        tables_model(column, primary, foreign)[i].columns[j].is_foreign_key <==> (assoc_get(
            foreign,
            column[i].0,
        ) matches Some(refs) && exists|k: int| 0 <= k < refs.len() && (#[trigger] refs[k]).0 == column[i].1[j].0),
        assoc_get(foreign, column[i].0) is Some ==> ({
            let refs = assoc_get(foreign, column[i].0)->0;
            forall|k: int|
                0 <= k < refs.len() && (#[trigger] refs[k]).0 == column[i].1[j].0 && (forall|m: int|
                    0 <= m < k ==> refs[m].0 != column[i].1[j].0) ==> {
                    &&& tables_model(column, primary, foreign)[i].columns[j].references_table == Some(refs[k].1)
                    &&& tables_model(column, primary, foreign)[i].columns[j].references_column == Some(refs[k].2)
                }
        }),
        !tables_model(column, primary, foreign)[i].columns[j].is_foreign_key ==> {
            &&& tables_model(column, primary, foreign)[i].columns[j].references_table is None
            &&& tables_model(column, primary, foreign)[i].columns[j].references_column is None
        },
{
    let t = column[i].0;
    let c = column[i].1[j].0;
    let col = tables_model(column, primary, foreign)[i].columns[j];
    assert(col == column_model(t, c, column[i].1[j].1, assoc_get(foreign, t), primary));
    match assoc_get(foreign, t) {
        Some(refs) => {
            lemma_reference_of(refs, c);
        },
        None => {},
    }
}

/// The foreign keys of the first `n` groups have each table once, and give
/// a table the triples of the last group among them that names it.
proof fn lemma_foreign_upto(foreign: Seq<Seq<Seq<char>>>, n: int, i: int)
    requires
        0 <= n <= foreign.len(),
    ensures
        keys_unique(foreign_upto(foreign, n)),
        0 <= i < n && foreign[i].len() > 0 && (forall|j: int|
            i < j < n && (#[trigger] foreign[j]).len() > 0 ==> foreign[j][0] != foreign[i][0]) ==> assoc_get(
            foreign_upto(foreign, n),
            foreign[i][0],
        ) == Some(foreign[i].drop_first().map_values(|d: Seq<char>| foreign_triple(d))),
    decreases n,
{
    if n > 0 {
        lemma_foreign_upto(foreign, n - 1, i);
        let m = foreign_upto(foreign, n - 1);
        let v = foreign[n - 1];
        if v.len() > 0 {
            let vals = v.drop_first().map_values(|d: Seq<char>| foreign_triple(d));
            law_assoc_read_after_write(m, v[0], vals, v[0]);
            if 0 <= i < n && foreign[i].len() > 0 && i < n - 1 {
                law_assoc_read_after_write(m, v[0], vals, foreign[i][0]);
            }
        }
    }
}

/// Each table gets, as its foreign keys, one triple for every line after the
/// first of its (last) group, in order: the k-th triple is the third, fifth
/// and seventh pieces between backticks of the (k+1)-th line. Each table
/// has one entry.
pub proof fn law_foreign_keys_of_group(foreign: Seq<Seq<Seq<char>>>, i: int)
    requires
        0 <= i < foreign.len(),
        foreign[i].len() > 0,
        forall|j: int| i < j < foreign.len() && (#[trigger] foreign[j]).len() > 0 ==> foreign[j][0] != foreign[i][0],
    ensures
        keys_unique(foreign_upto(foreign, foreign.len() as int)),
        assoc_get(foreign_upto(foreign, foreign.len() as int), foreign[i][0]) matches Some(refs) && refs.len()
            == foreign[i].len() - 1 && forall|k: int|
            0 <= k < refs.len() ==> #[trigger] refs[k] == (
                split_on(foreign[i][k + 1], '`')[2],
                split_on(foreign[i][k + 1], '`')[4],
                split_on(foreign[i][k + 1], '`')[6],
            ),
{
    lemma_foreign_upto(foreign, foreign.len() as int, i);
}

/// `mrclean` keeps, of each group that mentions the pattern (in input
/// order), the first line and then every line that the regular expression
/// `^\s*` followed by the pattern matches (a line that starts with the
/// pattern after any leading white space, none included), each cut down
/// to what stands between its backticks.
pub proof fn law_clean_keeps_key_lines(groups: Seq<Seq<Seq<char>>>, pattern: Seq<char>)
    ensures
        clean(groups, pattern) == groups.filter(|g: Seq<Seq<char>>| mentions(g, pattern)).map_values(
            |g: Seq<Seq<char>>|
                (seq![g[0]] + g.filter(|l: Seq<char>| regex_is_match("^\\s*"@ + pattern, l))).map_values(
                    |l: Seq<char>| backtick_inner(l),
                ),
        ),
{
    let sel = groups.filter(|g: Seq<Seq<char>>| mentions(g, pattern));
    let lhs = clean(groups, pattern);
    let rhs = sel.map_values(
        |g: Seq<Seq<char>>|
            (seq![g[0]] + g.filter(|l: Seq<char>| regex_is_match("^\\s*"@ + pattern, l))).map_values(
                |l: Seq<char>| backtick_inner(l),
            ),
    );
    assert forall|k: int| 0 <= k < lhs.len() implies lhs[k] == rhs[k] by {
        let g = sel[k];
        assert(clean_source(pattern) == "^\\s*"@ + pattern);
        assert(lhs[k] == propre(g, clean_source(pattern)));
        assert(kept_lines(g, clean_source(pattern)) == seq![g[0]] + g.filter(
            |l: Seq<char>| regex_is_match("^\\s*"@ + pattern, l),
        ));
    }
    assert(lhs =~= rhs);
}

} // verus!
