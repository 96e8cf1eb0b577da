//! Org-style notes: line classification, folding of headers, task
//! toggling and table formatting.
use vstd::prelude::*;
use crate::text::{
    contains_seq, ends_with_newline, join_exec, replace_first, replace_first_exec, slice_chars_all,
    find_seq_exec,
    chars_of, count_leading, count_leading_exec, find_char, has_prefix, is_ws, join, lemma_count_leading_bound,
    lemma_trim_start_is, lines, push_all, push_repeat, repeat_char, slice_chars, split_exec, split_lines,
    split_on, starts_with, string_of, trim, trim_end, trim_exec, trim_start, trim_start_exec, views,
};
use std::collections::HashSet;

verus! {

broadcast use vstd::std_specs::hash::group_hash_axioms;

/// Spaces of indentation per outline level.
pub const DEFAULT_INDENTATION_SPACES_PER_LEVEL: usize = 2;

/// The level a single `*` heading has.
pub const MINIMUM_HEADER_LEVEL: usize = 1;

pub open spec fn unchecked_box() -> Seq<char> {
    seq!['-', ' ', '[', ' ', ']']
}

pub open spec fn checked_lower_box() -> Seq<char> {
    seq!['-', ' ', '[', 'x', ']']
}

pub open spec fn checked_upper_box() -> Seq<char> {
    seq!['-', ' ', '[', 'X', ']']
}

/// What a line of a note is, over character sequences.
pub ghost enum LineModel {
    Header { level: nat, text: Seq<char> },
    Task { is_checked: bool, label: Seq<char> },
    TableBorder,
    TableRow { cells: Seq<Seq<char>> },
    StandardText { text: Seq<char> },
}

/// The kind of a note line, with the text it shows.
#[derive(Debug)]
pub enum OrgLineType {
    Header { level: usize, text: String },
    Task { is_checked: bool, label: String },
    TableBorder,
    TableRow { cells: Vec<String> },
    StandardText { text: String },
}

/// The character sequences held by a vector of strings.
pub open spec fn string_views(v: Seq<String>) -> Seq<Seq<char>> {
    v.map_values(|x: String| x@)
}

impl View for OrgLineType {
    type V = LineModel;

    open spec fn view(&self) -> LineModel {
        match self {
            OrgLineType::Header { level, text } => LineModel::Header { level: *level as nat, text: text@ },
            OrgLineType::Task { is_checked, label } => LineModel::Task { is_checked: *is_checked, label: label@ },
            OrgLineType::TableBorder => LineModel::TableBorder,
            OrgLineType::TableRow { cells } => LineModel::TableRow { cells: string_views(cells@) },
            OrgLineType::StandardText { text } => LineModel::StandardText { text: text@ },
        }
    }
}

/// One classified line of a note.
#[derive(Debug)]
pub struct OrgParsedLine {
    pub line_index: usize,
    pub indentation_level: usize,
    pub content_type: OrgLineType,
}

/// Which header lines of a note are folded.
#[derive(Debug)]
pub struct NoteBoxState {
    pub collapsed_line_indices: HashSet<usize>,
}

impl Default for NoteBoxState {
    fn default() -> (res: Self)
        ensures
            res.collapsed_line_indices@ == Set::<usize>::empty(),
    {
        NoteBoxState { collapsed_line_indices: HashSet::new() }
    }
}

/// The outline level of a line: one less than its leading `*` count for a
/// heading, otherwise half its leading spaces.
pub open spec fn indentation_spec(line: Seq<char>) -> nat {
    let t = trim_start(line);
    if t.len() > 0 && t[0] == '*' {
        (count_leading(t, '*') - 1) as nat
    } else {
        count_leading(line, ' ') / 2
    }
}

/// The pieces of `ps` that are not empty.
pub open spec fn non_empty(ps: Seq<Seq<char>>) -> Seq<Seq<char>> {
    ps.filter(|p: Seq<char>| p.len() > 0)
}

/// The classification of a line with its leading white space removed.
pub open spec fn content_type_spec(t: Seq<char>) -> LineModel {
    if t.len() > 0 && t[0] == '*' {
        let level = count_leading(t, '*');
        LineModel::Header { level, text: trim(t.subrange(level as int, t.len() as int)) }
    } else if has_prefix(t, unchecked_box()) {
        LineModel::Task { is_checked: false, label: trim(t.subrange(5, t.len() as int)) }
    } else if has_prefix(t, checked_lower_box()) || has_prefix(t, checked_upper_box()) {
        LineModel::Task { is_checked: true, label: trim(t.subrange(5, t.len() as int)) }
    } else if t.len() > 0 && t[0] == '|' && t.contains('+') {
        LineModel::TableBorder
    } else if t.len() > 0 && t[0] == '|' {
        LineModel::TableRow {
            cells: non_empty(split_on(t, '|').drop_first()).map_values(|c: Seq<char>| trim(c)),
        }
    } else {
        LineModel::StandardText { text: t }
    }
}

pub open spec fn parsed_matches(p: OrgParsedLine, index: int, line: Seq<char>) -> bool {
    &&& p.line_index == index
    &&& p.indentation_level == indentation_spec(line)
    &&& p.content_type@ == content_type_spec(trim_start(line))
}

/// The outline level of `line`.
pub fn calculate_indentation_level(line: &[char]) -> (res: usize)
    ensures
        res == indentation_spec(line@),
{
    let leading_spaces = count_leading_exec(line, ' ');
    let trimmed = trim_start_exec(line);
    if trimmed.len() > 0 && trimmed[0] == '*' {
        let asterisk_count = count_leading_exec(&trimmed, '*');
        proof {
            assert(count_leading(trimmed@, '*') > 0) by {
                reveal_with_fuel(count_leading, 2);
            }
        }
        return asterisk_count - MINIMUM_HEADER_LEVEL;
    }
    leading_spaces / DEFAULT_INDENTATION_SPACES_PER_LEVEL
}

/// Each string of `ps`, trimmed, skipping the empty ones.
fn trimmed_non_empty(ps: &Vec<Vec<char>>, from: usize) -> (res: Vec<String>)
    requires
        from <= ps@.len(),
    ensures
        string_views(res@) == non_empty(views(ps@).subrange(from as int, ps@.len() as int)).map_values(
            |c: Seq<char>| trim(c),
        ),
{
    let mut res: Vec<String> = Vec::new();
    let mut i = from;
    proof {
        assert(views(ps@).subrange(from as int, from as int) =~= Seq::<Seq<char>>::empty());
        assert(non_empty(Seq::<Seq<char>>::empty()) =~= Seq::<Seq<char>>::empty());
    }
    while i < ps.len()
        invariant
            from <= i <= ps@.len(),
            string_views(res@) == non_empty(views(ps@).subrange(from as int, i as int)).map_values(
                |c: Seq<char>| trim(c),
            ),
        decreases ps@.len() - i,
    {
        let ghost pre = views(ps@).subrange(from as int, i as int);
        assert(views(ps@).subrange(from as int, i + 1) =~= pre.push(ps@[i as int]@));
        proof {
            pre.lemma_filter_push(ps@[i as int]@, |p: Seq<char>| p.len() > 0);
        }
        if ps[i].len() > 0 {
            let t = trim_exec(&ps[i]);
            let ghost old_res = res@;
            res.push(string_of(&t));
            assert(string_views(res@) =~= string_views(old_res).push(t@));
            assert(non_empty(pre.push(ps@[i as int]@)) == non_empty(pre).push(ps@[i as int]@));
            assert(non_empty(pre.push(ps@[i as int]@)).map_values(|c: Seq<char>| trim(c)) =~= non_empty(
                pre,
            ).map_values(|c: Seq<char>| trim(c)).push(trim(ps@[i as int]@)));
        } else {
            assert(non_empty(pre.push(ps@[i as int]@)) == non_empty(pre));
        }
        i = i + 1;
    }
    res
}

/// The classification of a line whose leading white space is removed.
pub fn parse_line_content_type(t: &[char]) -> (res: OrgLineType)
    ensures
        res@ == content_type_spec(t@),
{
    if t.len() > 0 && t[0] == '*' {
        let level = count_leading_exec(t, '*');
        let rest = slice_chars(t, level, t.len());
        let text = trim_exec(&rest);
        return OrgLineType::Header { level, text: string_of(&text) };
    }
    let unchecked: Vec<char> = vec!['-', ' ', '[', ' ', ']'];
    let lower: Vec<char> = vec!['-', ' ', '[', 'x', ']'];
    let upper: Vec<char> = vec!['-', ' ', '[', 'X', ']'];
    assert(unchecked@ == unchecked_box());
    assert(lower@ == checked_lower_box());
    assert(upper@ == checked_upper_box());
    if starts_with(t, &unchecked) {
        let rest = slice_chars(t, 5, t.len());
        let label = trim_exec(&rest);
        return OrgLineType::Task { is_checked: false, label: string_of(&label) };
    }
    if starts_with(t, &lower) || starts_with(t, &upper) {
        let rest = slice_chars(t, 5, t.len());
        let label = trim_exec(&rest);
        return OrgLineType::Task { is_checked: true, label: string_of(&label) };
    }
    if t.len() > 0 && t[0] == '|' {
        if crate::text::contains_char(t, '+') {
            return OrgLineType::TableBorder;
        }
        let pieces = split_exec(t, '|');
        proof {
            crate::text::lemma_split_on_len(t@, '|');
            assert(views(pieces@).subrange(1, pieces@.len() as int) =~= views(pieces@).drop_first());
        }
        let cells = trimmed_non_empty(&pieces, 1);
        return OrgLineType::TableRow { cells };
    }
    OrgLineType::StandardText { text: string_of(t) }
}

/// A task line with its check box flipped: the first unchecked box becomes
/// checked; otherwise the first checked box (`x`, then `X`) becomes
/// unchecked; a line without a box stays as it is.
#[verifier::opaque]
pub open spec fn toggle_line_spec(line: Seq<char>) -> Seq<char> {
    if contains_seq(line, unchecked_box()) {
        replace_first(line, unchecked_box(), checked_lower_box())
    } else if contains_seq(line, checked_lower_box()) {
        replace_first(line, checked_lower_box(), unchecked_box())
    } else if contains_seq(line, checked_upper_box()) {
        replace_first(line, checked_upper_box(), unchecked_box())
    } else {
        line
    }
}

/// Lines joined by line feeds, with a final line feed where the text they
/// came from ended with one.
pub open spec fn rejoin(ls: Seq<Seq<char>>, source: Seq<char>) -> Seq<char> {
    join(ls, seq!['\n']) + if ends_with_newline(source) { seq!['\n'] } else { Seq::empty() }
}

/// The note with the task box on line `target` flipped.
pub open spec fn toggle_document_spec(text: Seq<char>, target: int) -> Seq<char> {
    let ls = lines(text);
    if target < 0 || target >= ls.len() {
        text
    } else {
        rejoin(ls.update(target, toggle_line_spec(ls[target])), text)
    }
}

/// `line` with its check box flipped.
pub fn toggle_task_prefix_in_string(line: &[char]) -> (res: Vec<char>)
    ensures
        res@ == toggle_line_spec(line@),
{
    reveal(toggle_line_spec);
    let unchecked: Vec<char> = vec!['-', ' ', '[', ' ', ']'];
    let lower: Vec<char> = vec!['-', ' ', '[', 'x', ']'];
    let upper: Vec<char> = vec!['-', ' ', '[', 'X', ']'];
    assert(unchecked@ == unchecked_box());
    assert(lower@ == checked_lower_box());
    assert(upper@ == checked_upper_box());
    if find_seq_exec(line, &unchecked).is_some() {
        replace_first_exec(line, &unchecked, &lower)
    } else if find_seq_exec(line, &lower).is_some() {
        replace_first_exec(line, &lower, &unchecked)
    } else if find_seq_exec(line, &upper).is_some() {
        replace_first_exec(line, &upper, &unchecked)
    } else {
        slice_chars_all(line)
    }
}

/// Whether a line belongs to a table: it starts with `|` after its
/// leading white space.
pub open spec fn is_table_line_spec(line: Seq<char>) -> bool {
    let t = trim_start(line);
    t.len() > 0 && t[0] == '|'
}

/// The end of the run of table lines that starts at `i`.
pub open spec fn table_end(ls: Seq<Seq<char>>, i: int) -> int
    decreases ls.len() - i,
{
    if 0 <= i < ls.len() && is_table_line_spec(ls[i]) {
        table_end(ls, i + 1)
    } else {
        i
    }
}

pub proof fn lemma_table_end_bounds(ls: Seq<Seq<char>>, i: int)
    requires
        0 <= i <= ls.len(),
    ensures
        i <= table_end(ls, i) <= ls.len(),
        forall|j: int| i <= j < table_end(ls, i) ==> is_table_line_spec(#[trigger] ls[j]),
        table_end(ls, i) < ls.len() ==> !is_table_line_spec(ls[table_end(ls, i)]),
    decreases ls.len() - i,
{
    if i < ls.len() && is_table_line_spec(ls[i]) {
        lemma_table_end_bounds(ls, i + 1);
    }
}

/// The cells of the rows of a table; border lines (any line holding `+`
/// or `-`) are left out.
pub open spec fn table_rows_spec(tl: Seq<Seq<char>>) -> Seq<Seq<Seq<char>>>
    decreases tl.len(),
{
    if tl.len() == 0 {
        Seq::empty()
    } else {
        let rows = table_rows_spec(tl.drop_last());
        let t = trim_start(tl.last());
        if t.contains('+') || t.contains('-') {
            rows
        } else {
            let cells = split_on(t, '|').drop_first().map_values(|c: Seq<char>| trim(c));
            if cells.len() == 0 {
                rows
            } else {
                rows.push(cells)
            }
        }
    }
}

pub open spec fn max_nat(a: nat, b: nat) -> nat {
    if a >= b { a } else { b }
}

/// Column widths `ws` widened to hold the cells of one more row.
pub open spec fn widen(ws: Seq<nat>, cells: Seq<Seq<char>>) -> Seq<nat> {
    Seq::new(
        max_nat(ws.len(), cells.len()),
        |i: int|
            if i < ws.len() && i < cells.len() {
                max_nat(ws[i], cells[i].len())
            } else if i < ws.len() {
                ws[i]
            } else {
                cells[i].len()
            },
    )
}

/// The width of each column: its longest cell, in characters.
pub open spec fn column_widths(rows: Seq<Seq<Seq<char>>>) -> Seq<nat>
    decreases rows.len(),
{
    if rows.len() == 0 {
        Seq::empty()
    } else {
        widen(column_widths(rows.drop_last()), rows.last())
    }
}

/// `+---+-----+` with two more dashes than each column is wide.
pub open spec fn border_spec(ws: Seq<nat>) -> Seq<char> {
    seq!['+'] + crate::text::concat(ws.map_values(|w: nat| repeat_char('-', w + 2).push('+')))
}

pub open spec fn cell_text(cells: Seq<Seq<char>>, i: int) -> Seq<char> {
    if 0 <= i < cells.len() {
        cells[i]
    } else {
        Seq::empty()
    }
}

pub open spec fn pad(w: nat, len: nat) -> nat {
    if w >= len { (w - len) as nat } else { 0 }
}

/// One padded table cell: ` text<padding> |`.
pub open spec fn cell_spec(cells: Seq<Seq<char>>, ws: Seq<nat>, i: int) -> Seq<char> {
    seq![' '] + cell_text(cells, i) + repeat_char(' ', pad(ws[i], cell_text(cells, i).len())) + seq![' ', '|']
}

/// `| a | bb |` with every column padded to its width.
pub open spec fn row_spec(cells: Seq<Seq<char>>, ws: Seq<nat>) -> Seq<char> {
    seq!['|'] + crate::text::concat(Seq::new(ws.len(), |i: int| cell_spec(cells, ws, i)))
}

/// A table laid out again: a border, then each row followed by a border.
pub open spec fn table_block_spec(tl: Seq<Seq<char>>) -> Seq<Seq<char>> {
    let rows = table_rows_spec(tl);
    let ws = column_widths(rows);
    let b = border_spec(ws);
    seq![b] + rows.map_values(|r: Seq<Seq<char>>| row_pair(r, ws)).flatten()
}

/// A table row followed by a border.
pub open spec fn row_pair(r: Seq<Seq<char>>, ws: Seq<nat>) -> Seq<Seq<char>> {
    seq![row_spec(r, ws), border_spec(ws)]
}

/// Some row has a cell in column `i` as long as that column is wide.
pub open spec fn width_attained(rows: Seq<Seq<Seq<char>>>, i: int) -> bool {
    exists|j: int| 0 <= j < rows.len() && i < rows[j].len() && rows[j][i].len() == column_widths(rows)[i]
}

/// Each column of a table is exactly as wide as its longest cell: no cell
/// of any row is wider than its column, a row has no more cells than there
/// are columns, and every column width is the length of some cell in it.
pub proof fn lemma_column_widths_fit(rows: Seq<Seq<Seq<char>>>)
    ensures
        forall|j: int| 0 <= j < rows.len() ==> (#[trigger] rows[j]).len() <= column_widths(rows).len(),
        forall|j: int, i: int| 0 <= j < rows.len() && 0 <= i < rows[j].len() ==>
            (#[trigger] rows[j][i]).len() <= column_widths(rows)[i],
        forall|i: int| 0 <= i < column_widths(rows).len() ==> #[trigger] width_attained(rows, i),
    decreases rows.len(),
{
    if rows.len() > 0 {
        let prev = rows.drop_last();
        lemma_column_widths_fit(prev);
        let pw = column_widths(prev);
        let ws = column_widths(rows);
        let last = rows.last();
        assert(ws == widen(pw, last));
        assert forall|j: int, i: int| 0 <= j < rows.len() && 0 <= i < rows[j].len() implies
            (#[trigger] rows[j][i]).len() <= ws[i] by {
            if j < prev.len() {
                assert(rows[j] == prev[j]);
                assert(prev[j][i].len() <= pw[i]);
            }
        }
        assert forall|i: int| 0 <= i < ws.len() implies #[trigger] width_attained(rows, i) by {
            if i < pw.len() && (i >= last.len() || pw[i] >= last[i].len()) {
                assert(ws[i] == pw[i]);
                assert(pw[i] == column_widths(prev)[i]);
                assert(width_attained(prev, i));
                let j = choose|j: int| 0 <= j < prev.len() && i < prev[j].len() && prev[j][i].len() == column_widths(prev)[i];
                assert(rows[j] == prev[j]);
                assert(rows[j][i].len() == ws[i]);
            } else {
                assert(i < last.len());
                assert(ws[i] == last[i].len());
                let j = rows.len() - 1;
                assert(rows[j] == last);
                assert(0 <= j < rows.len() && i < rows[j].len() && rows[j][i].len() == ws[i]);
            }
        }
        assert forall|j: int| 0 <= j < rows.len() implies (#[trigger] rows[j]).len() <= ws.len() by {
            if j < prev.len() {
                assert(rows[j] == prev[j]);
            }
        }
    } else {
        assert(column_widths(rows) =~= Seq::<nat>::empty());
    }
}

proof fn lemma_concat_same_lengths(a: Seq<Seq<char>>, b: Seq<Seq<char>>)
    requires
        a.len() == b.len(),
        forall|i: int| 0 <= i < a.len() ==> (#[trigger] a[i]).len() == b[i].len(),
    ensures
        crate::text::concat(a).len() == crate::text::concat(b).len(),
    decreases a.len(),
{
    if a.len() > 0 {
        assert forall|i: int| 0 <= i < a.drop_last().len() implies (#[trigger] a.drop_last()[i]).len() == b.drop_last()[i].len() by {
            assert(a.drop_last()[i] == a[i]);
            assert(b.drop_last()[i] == b[i]);
        }
        lemma_concat_same_lengths(a.drop_last(), b.drop_last());
    }
}

/// A row whose cells fit the column widths is as long as a border line.
proof fn lemma_row_as_long_as_border(cells: Seq<Seq<char>>, ws: Seq<nat>)
    requires
        forall|i: int| 0 <= i < cells.len() && i < ws.len() ==> (#[trigger] cells[i]).len() <= ws[i],
    ensures
        row_spec(cells, ws).len() == border_spec(ws).len(),
{
    let a = Seq::new(ws.len(), |i: int| cell_spec(cells, ws, i));
    let b = ws.map_values(|w: nat| repeat_char('-', w + 2).push('+'));
    assert forall|i: int| 0 <= i < a.len() implies (#[trigger] a[i]).len() == b[i].len() by {
        let t = cell_text(cells, i);
        assert(t.len() <= ws[i]);
        assert(a[i].len() == 1 + t.len() + pad(ws[i], t.len()) + 2);
        assert(b[i].len() == ws[i] + 3);
    }
    lemma_concat_same_lengths(a, b);
}

/// The lines after the first border of a formatted table.
pub open spec fn row_pair_lines(rows: Seq<Seq<Seq<char>>>, ws: Seq<nat>) -> Seq<Seq<char>> {
    rows.map_values(|r: Seq<Seq<char>>| row_pair(r, ws)).flatten()
}

proof fn lemma_row_pairs_lines(rows: Seq<Seq<Seq<char>>>, ws: Seq<nat>, n: int)
    requires
        0 <= n <= rows.len(),
    ensures
        forall|k: int| 0 <= k < row_pair_lines(rows.take(n), ws).len() ==>
            (#[trigger] row_pair_lines(rows.take(n), ws)[k] == border_spec(ws)
            || exists|j: int| 0 <= j < n && row_pair_lines(rows.take(n), ws)[k] == row_spec(#[trigger] rows[j], ws)),
    decreases n,
{
    let f = |r: Seq<Seq<char>>| row_pair(r, ws);
    if n == 0 {
        assert(rows.take(0).map_values(f) =~= Seq::<Seq<Seq<char>>>::empty());
        assert(row_pair_lines(rows.take(0), ws) =~= Seq::<Seq<char>>::empty());
    } else {
        lemma_row_pairs_lines(rows, ws, n - 1);
        let pre = rows.take(n - 1).map_values(f);
        let cur = rows.take(n).map_values(f);
        assert(cur =~= pre.push(row_pair(rows[n - 1], ws)));
        pre.lemma_flatten_push(row_pair(rows[n - 1], ws));
        let fp = row_pair_lines(rows.take(n - 1), ws);
        let fc = row_pair_lines(rows.take(n), ws);
        assert(fc =~= fp + row_pair(rows[n - 1], ws));
        assert forall|k: int| 0 <= k < fc.len() implies
            (#[trigger] fc[k] == border_spec(ws) || exists|j: int| 0 <= j < n && fc[k] == row_spec(#[trigger] rows[j], ws)) by {
            if k < fp.len() {
                assert(fc[k] == fp[k]);
                if fp[k] != border_spec(ws) {
                    let j = choose|j: int| 0 <= j < n - 1 && fp[k] == row_spec(#[trigger] rows[j], ws);
                    assert(0 <= j < n && fc[k] == row_spec(rows[j], ws));
                }
            } else if k == fp.len() {
                assert(fc[k] == row_spec(rows[n - 1], ws));
            } else {
                assert(fc[k] == border_spec(ws));
            }
        }
    }
}

/// Every line of a formatted table, border or row, has the same length:
/// that of its border line.
pub proof fn lemma_table_lines_equal_length(tl: Seq<Seq<char>>)
    ensures
        forall|k: int| 0 <= k < table_block_spec(tl).len() ==>
            (#[trigger] table_block_spec(tl)[k]).len() == table_block_spec(tl)[0].len(),
{
    let rows = table_rows_spec(tl);
    let ws = column_widths(rows);
    let b = border_spec(ws);
    let out = table_block_spec(tl);
    lemma_column_widths_fit(rows);
    lemma_row_pairs_lines(rows, ws, rows.len() as int);
    assert(rows.take(rows.len() as int) =~= rows);
    let fl = row_pair_lines(rows, ws);
    assert(out =~= seq![b] + fl);
    assert forall|k: int| 0 <= k < out.len() implies (#[trigger] out[k]).len() == out[0].len() by {
        if k > 0 {
            assert(out[k] == fl[k - 1]);
            if fl[k - 1] != b {
                let j = choose|j: int| 0 <= j < rows.len() && fl[k - 1] == row_spec(#[trigger] rows[j], ws);
                assert forall|i: int| 0 <= i < rows[j].len() && i < ws.len() implies (#[trigger] rows[j][i]).len() <= ws[i] by {
                }
                lemma_row_as_long_as_border(rows[j], ws);
            }
        }
    }
}

/// A line outside tables laid out again: a heading is indented two spaces
/// per level below the first and gets one space after its stars; any
/// other line keeps its leading spaces and loses other leading white space.
pub open spec fn format_standard_line_spec(line: Seq<char>) -> Seq<char> {
    let t = trim_start(line);
    if t.len() > 0 && t[0] == '*' {
        let a = count_leading(t, '*');
        repeat_char(' ', ((a - 1) * 2) as nat) + repeat_char('*', a) + seq![' '] + trim(t.subrange(a as int, t.len() as int))
    } else {
        repeat_char(' ', count_leading(line, ' ')) + t
    }
}

/// The formatted lines for `ls` from position `i` on.
pub open spec fn format_lines_from(ls: Seq<Seq<char>>, i: int) -> Seq<Seq<char>>
    decreases ls.len() - i,
{
    if i < 0 || i >= ls.len() {
        Seq::empty()
    } else if is_table_line_spec(ls[i]) {
        proof {
            lemma_table_end_bounds(ls, i);
            lemma_table_end_bounds(ls, i + 1);
        }
        let e = table_end(ls, i);
        table_block_spec(ls.subrange(i, e)) + format_lines_from(ls, e)
    } else {
        seq![format_standard_line_spec(ls[i])] + format_lines_from(ls, i + 1)
    }
}

/// The whole note laid out again.
pub open spec fn format_document_spec(text: Seq<char>) -> Seq<char> {
    rejoin(format_lines_from(lines(text), 0), text)
}

/// The largest text this module lays out; every `Vec<char>` is far
/// shorter, as each character takes four bytes.
pub const MAX_TEXT_LEN: usize = usize::MAX / 4;

/// Column widths as natural numbers.
pub open spec fn nat_views(ws: Seq<usize>) -> Seq<nat> {
    ws.map_values(|w: usize| w as nat)
}

/// Whether `line` belongs to a table.
pub fn is_table_line(line: &[char]) -> (res: bool)
    ensures
        res == is_table_line_spec(line@),
{
    let t = trim_start_exec(line);
    t.len() > 0 && t[0] == '|'
}

/// The end of the run of table lines that starts at `start_index`.
pub fn find_table_end_index(ls: &Vec<Vec<char>>, start_index: usize) -> (res: usize)
    requires
        start_index <= ls@.len(),
    ensures
        res == table_end(views(ls@), start_index as int),
{
    let mut current = start_index;
    while current < ls.len() && is_table_line(&ls[current])
        invariant
            start_index <= current <= ls@.len(),
            table_end(views(ls@), start_index as int) == table_end(views(ls@), current as int),
        decreases ls@.len() - current,
    {
        current = current + 1;
    }
    current
}

/// The border line for columns of widths `ws`.
pub fn build_table_border_line(ws: &Vec<usize>) -> (res: Vec<char>)
    requires
        forall|k: int| 0 <= k < ws@.len() ==> ws@[k] <= MAX_TEXT_LEN,
    ensures
        res@ == border_spec(nat_views(ws@)),
{
    let mut border: Vec<char> = vec!['+'];
    let mut i: usize = 0;
    while i < ws.len()
        invariant
            i <= ws@.len(),
            forall|k: int| 0 <= k < ws@.len() ==> ws@[k] <= MAX_TEXT_LEN,
            border@ == seq!['+'] + crate::text::concat(nat_views(ws@).subrange(0, i as int).map_values(|w: nat| repeat_char('-', w + 2).push('+'))),
        decreases ws@.len() - i,
    {
        let ghost pre = nat_views(ws@).subrange(0, i as int);
        let ghost f = |w: nat| repeat_char('-', w + 2).push('+');
        push_repeat(&mut border, '-', ws[i] + 2);
        border.push('+');
        proof {
            let next = nat_views(ws@).subrange(0, i + 1);
            assert(next =~= pre.push(ws@[i as int] as nat));
            assert(next.map_values(f) =~= pre.map_values(f).push(f(ws@[i as int] as nat)));
            assert(next.map_values(f).drop_last() =~= pre.map_values(f));
        }
        i = i + 1;
    }
    assert(nat_views(ws@).subrange(0, ws@.len() as int) =~= nat_views(ws@));
    border
}

/// One table row with each column padded to its width.
fn build_table_row(cells: &Vec<Vec<char>>, ws: &Vec<usize>) -> (res: Vec<char>)
    requires
        forall|k: int| 0 <= k < ws@.len() ==> ws@[k] <= MAX_TEXT_LEN,
    ensures
        res@ == row_spec(views(cells@), nat_views(ws@)),
{
    let ghost cs = views(cells@);
    let ghost wv = nat_views(ws@);
    let mut row: Vec<char> = vec!['|'];
    let mut i: usize = 0;
    while i < ws.len()
        invariant
            i <= ws@.len(),
            cs == views(cells@),
            wv == nat_views(ws@),
            row@ == seq!['|'] + crate::text::concat(Seq::new(i as nat, |k: int| cell_spec(cs, wv, k))),
        decreases ws@.len() - i,
    {
        row.push(' ');
        let empty: Vec<char> = Vec::new();
        let cell: &Vec<char> = if i < cells.len() { &cells[i] } else { &empty };
        assert(cell@ == cell_text(cs, i as int));
        push_all(&mut row, cell);
        let padding: usize = if ws[i] >= cell.len() { ws[i] - cell.len() } else { 0 };
        push_repeat(&mut row, ' ', padding);
        row.push(' ');
        row.push('|');
        proof {
            let f = |k: int| cell_spec(cs, wv, k);
            assert(Seq::new((i + 1) as nat, f).drop_last() =~= Seq::new(i as nat, f));
            assert(row@ =~= seq!['|'] + crate::text::concat(Seq::new(i as nat, f)) + f(i as int));
        }
        i = i + 1;
    }
    assert(Seq::new(ws@.len(), |k: int| cell_spec(cs, wv, k)) =~= Seq::new(wv.len(), |k: int| cell_spec(cs, wv, k)));
    row
}

/// The cells of one table line after the first `|`, trimmed.
fn table_line_cells(t: &Vec<char>) -> (res: Vec<Vec<char>>)
    ensures
        views(res@) == split_on(t@, '|').drop_first().map_values(|c: Seq<char>| trim(c)),
        forall|k: int| 0 <= k < res@.len() ==> (#[trigger] res@[k])@.len() <= t@.len(),
{
    let pieces = split_exec(t, '|');
    let mut cells: Vec<Vec<char>> = Vec::new();
    let mut i: usize = 1;
    proof {
        crate::text::lemma_split_on_len(t@, '|');
    }
    while i < pieces.len()
        invariant
            1 <= i <= pieces@.len(),
            views(pieces@) == split_on(t@, '|'),
            forall|k: int| 0 <= k < pieces@.len() ==> (#[trigger] pieces@[k])@.len() <= t@.len(),
            views(cells@) == views(pieces@).subrange(1, i as int).map_values(|c: Seq<char>| trim(c)),
            forall|k: int| 0 <= k < cells@.len() ==> (#[trigger] cells@[k])@.len() <= t@.len(),
        decreases pieces@.len() - i,
    {
        let c = trim_exec(&pieces[i]);
        let ghost old_cells = cells@;
        cells.push(c);
        proof {
            assert(views(cells@) =~= views(old_cells).push(c@));
            assert(views(pieces@).subrange(1, i + 1) =~= views(pieces@).subrange(1, i as int).push(pieces@[i as int]@));
            assert(views(pieces@).subrange(1, i + 1).map_values(|c: Seq<char>| trim(c)) =~= views(pieces@).subrange(1, i as int).map_values(|c: Seq<char>| trim(c)).push(trim(pieces@[i as int]@)));
            assert forall|k: int| 0 <= k < cells@.len() implies (#[trigger] cells@[k])@.len() <= t@.len() by {
                if k < old_cells.len() {
                    assert(cells@[k] == old_cells[k]);
                }
            }
        }
        i = i + 1;
    }
    assert(views(pieces@).subrange(1, pieces@.len() as int) =~= views(pieces@).drop_first());
    cells
}

/// The cell sequences of a vector of rows.
pub open spec fn rows_views(v: Seq<Vec<Vec<char>>>) -> Seq<Seq<Seq<char>>> {
    v.map_values(|r: Vec<Vec<char>>| views(r@))
}

/// The lines `ls[from..to]`, a run of table lines, laid out as a table.
pub fn format_table_block(ls: &Vec<Vec<char>>, from: usize, to: usize) -> (res: Vec<Vec<char>>)
    requires
        from <= to <= ls@.len(),
        forall|k: int| 0 <= k < ls@.len() ==> (#[trigger] ls@[k])@.len() <= MAX_TEXT_LEN,
    ensures
        views(res@) == table_block_spec(views(ls@).subrange(from as int, to as int)),
{
    let ghost tl = views(ls@).subrange(from as int, to as int);
    let mut rows: Vec<Vec<Vec<char>>> = Vec::new();
    let mut widths: Vec<usize> = Vec::new();
    let mut j = from;
    assert(views(ls@).subrange(from as int, from as int) =~= Seq::<Seq<char>>::empty());
    while j < to
        invariant
            from <= j <= to <= ls@.len(),
            forall|k: int| 0 <= k < ls@.len() ==> (#[trigger] ls@[k])@.len() <= MAX_TEXT_LEN,
            rows_views(rows@) == table_rows_spec(views(ls@).subrange(from as int, j as int)),
            nat_views(widths@) == column_widths(rows_views(rows@)),
            forall|k: int| 0 <= k < widths@.len() ==> widths@[k] <= MAX_TEXT_LEN,
        decreases to - j,
    {
        let ghost pre = views(ls@).subrange(from as int, j as int);
        let ghost next = views(ls@).subrange(from as int, j + 1);
        assert(next.drop_last() =~= pre);
        assert(next.last() == ls@[j as int]@);
        let t = trim_start_exec(&ls[j]);
        if !crate::text::contains_char(&t, '+') && !crate::text::contains_char(&t, '-') {
            let cells = table_line_cells(&t);
            if cells.len() > 0 {
                let ghost ws0 = nat_views(widths@);
                let ghost cv = views(cells@);
                let mut i: usize = 0;
                assert(ws0 =~= widen(ws0, cv.subrange(0, 0)));
                while i < cells.len()
                    invariant
                        i <= cells@.len(),
                        cv == views(cells@),
                        forall|k: int| 0 <= k < cells@.len() ==> (#[trigger] cells@[k])@.len() <= MAX_TEXT_LEN,
                        nat_views(widths@) == widen(ws0, cv.subrange(0, i as int)),
                        widths@.len() == max_nat(ws0.len(), i as nat),
                        forall|k: int| 0 <= k < widths@.len() ==> widths@[k] <= MAX_TEXT_LEN,
                    decreases cells@.len() - i,
                {
                    let count = cells[i].len();
                    let ghost before = widths@;
                    if i >= widths.len() {
                        widths.push(count);
                    } else if count > widths[i] {
                        widths.set(i, count);
                    }
                    proof {
                        let w0 = widen(ws0, cv.subrange(0, i as int));
                        let w1 = widen(ws0, cv.subrange(0, i + 1));
                        assert(nat_views(before) == w0);
                        assert(w1.len() == max_nat(ws0.len(), (i + 1) as nat));
                        assert(widths@.len() == w1.len());
                        assert forall|k: int| 0 <= k < w1.len() implies nat_views(widths@)[k] == w1[k] by {
                            assert(cv.subrange(0, i + 1)[i as int] == cv[i as int]);
                            if k < i {
                                assert(cv.subrange(0, i + 1)[k] == cv.subrange(0, i as int)[k]);
                                assert(widths@[k] == before[k]);
                                assert(nat_views(before)[k] == w0[k]);
                            } else if k > i {
                                assert(widths@[k] == before[k]);
                                assert(nat_views(before)[k] == w0[k]);
                            } else {
                                if i < ws0.len() {
                                    assert(nat_views(before)[k] == w0[k]);
                                }
                            }
                        }
                        assert(nat_views(widths@) =~= w1);
                    }
                    i = i + 1;
                }
                assert(cv.subrange(0, cv.len() as int) =~= cv);
                let ghost old_rows = rows@;
                rows.push(cells);
                assert(rows_views(rows@) =~= rows_views(old_rows).push(cv));
                assert(rows_views(rows@).drop_last() =~= rows_views(old_rows));
                assert(rows_views(rows@).last() == cv);
                assert(column_widths(rows_views(rows@)) == widen(column_widths(rows_views(old_rows)), cv));
            }
        }
        j = j + 1;
    }
    let border = build_table_border_line(&widths);
    let mut out: Vec<Vec<char>> = Vec::new();
    out.push(slice_chars_all(&border));
    let ghost ws = nat_views(widths@);
    let ghost rs = rows_views(rows@);
    let mut m: usize = 0;
    assert(rs.subrange(0, 0).map_values(|r: Seq<Seq<char>>| row_pair(r, ws)).flatten() =~= Seq::<Seq<char>>::empty());
    assert(views(out@) =~= seq![border_spec(ws)] + rs.subrange(0, 0).map_values(|r: Seq<Seq<char>>| row_pair(r, ws)).flatten());
    while m < rows.len()
        invariant
            m <= rows@.len(),
            rs == rows_views(rows@),
            ws == nat_views(widths@),
            border@ == border_spec(ws),
            forall|k: int| 0 <= k < widths@.len() ==> widths@[k] <= MAX_TEXT_LEN,
            views(out@) == seq![border_spec(ws)] + rs.subrange(0, m as int).map_values(|r: Seq<Seq<char>>| row_pair(r, ws)).flatten(),
        decreases rows@.len() - m,
    {
        let row = build_table_row(&rows[m], &widths);
        let ghost old_out = views(out@);
        let b2 = slice_chars_all(&border);
        out.push(row);
        out.push(b2);
        proof {
            assert(rs[m as int] == views(rows@[m as int]@));
            assert(row@ == row_spec(rs[m as int], ws));
            let pre = rs.subrange(0, m as int).map_values(|r: Seq<Seq<char>>| row_pair(r, ws));
            assert(rs.subrange(0, m + 1).map_values(|r: Seq<Seq<char>>| row_pair(r, ws)) =~= pre.push(row_pair(rs[m as int], ws)));
            pre.lemma_flatten_push(row_pair(rs[m as int], ws));
            assert(b2@ == border_spec(ws));
            assert(row_pair(rs[m as int], ws) =~= seq![row@, b2@]);
            assert(views(out@) =~= old_out.push(row@).push(b2@));
            assert(views(out@) =~= seq![border_spec(ws)] + (pre.flatten() + row_pair(rs[m as int], ws)));
        }
        m = m + 1;
    }
    assert(rs.subrange(0, rs.len() as int) =~= rs);
    out
}

/// A line outside tables laid out again.
pub fn format_standard_line(line: &[char]) -> (res: Vec<char>)
    requires
        line@.len() <= MAX_TEXT_LEN,
    ensures
        res@ == format_standard_line_spec(line@),
{
    let indentation = count_leading_exec(line, ' ');
    let trimmed = trim_start_exec(line);
    let mut out: Vec<char> = Vec::new();
    if trimmed.len() > 0 && trimmed[0] == '*' {
        let asterisks = count_leading_exec(&trimmed, '*');
        proof {
            assert(count_leading(trimmed@, '*') > 0) by {
                reveal_with_fuel(count_leading, 2);
            }
        }
        let rest = slice_chars(&trimmed, asterisks, trimmed.len());
        let content = trim_exec(&rest);
        push_repeat(&mut out, ' ', (asterisks - MINIMUM_HEADER_LEVEL) * DEFAULT_INDENTATION_SPACES_PER_LEVEL);
        push_repeat(&mut out, '*', asterisks);
        out.push(' ');
        push_all(&mut out, &content);
        return out;
    }
    push_repeat(&mut out, ' ', indentation);
    push_all(&mut out, &trimmed);
    out
}

/// Parses notes into classified lines.
pub struct OrgParser;

impl OrgParser {
    /// One classified line per line of `raw_text`, numbered from zero.
    pub fn parse_document(raw_text: &str) -> (res: Vec<OrgParsedLine>)
        ensures
            res@.len() == lines(raw_text@).len(),
            forall|i: int| 0 <= i < res@.len() ==> parsed_matches(#[trigger] res@[i], i, lines(raw_text@)[i]),
    {
        let chars = chars_of(raw_text);
        let ls = split_lines(&chars);
        let mut parsed: Vec<OrgParsedLine> = Vec::new();
        let mut index: usize = 0;
        while index < ls.len()
            invariant
                index <= ls@.len(),
                views(ls@) == lines(raw_text@),
                parsed@.len() == index,
                forall|i: int| 0 <= i < index ==> parsed_matches(#[trigger] parsed@[i], i, lines(raw_text@)[i]),
            decreases ls@.len() - index,
        {
            let line = &ls[index];
            assert(line@ == lines(raw_text@)[index as int]);
            let indentation_level = calculate_indentation_level(line);
            let trimmed = trim_start_exec(line);
            let content_type = parse_line_content_type(&trimmed);
            parsed.push(OrgParsedLine { line_index: index, indentation_level, content_type });
            index = index + 1;
        }
        parsed
    }
}

/// Whether `p` starts a folded region: a collapsed header.
pub open spec fn folds(p: OrgParsedLine, collapsed: Set<usize>) -> bool {
    collapsed.contains(p.line_index) && p.content_type is Header
}

/// The positions shown among the first `n` lines of `ps`, and the level
/// below which lines are being hidden after them.
pub open spec fn visibility_scan(ps: Seq<OrgParsedLine>, collapsed: Set<usize>, n: nat) -> (Seq<int>, Option<nat>)
    decreases n,
{
    if n == 0 || n > ps.len() {
        (Seq::empty(), None)
    } else {
        let (shown, hiding) = visibility_scan(ps, collapsed, (n - 1) as nat);
        let line = ps[n - 1];
        let hidden = match hiding {
            Some(h) => line.indentation_level > h,
            None => false,
        };
        if hidden {
            (shown, hiding)
        } else {
            (shown.push(n - 1), if folds(line, collapsed) { Some(line.indentation_level as nat) } else { None })
        }
    }
}

/// The positions of the lines of `ps` that are shown.
pub open spec fn visible_positions(ps: Seq<OrgParsedLine>, collapsed: Set<usize>) -> Seq<int> {
    visibility_scan(ps, collapsed, ps.len()).0
}

/// Line `j` lies inside a folded region: some earlier collapsed header
/// has every line after it, up to and including `j`, indented deeper.
pub open spec fn folded_away(ps: Seq<OrgParsedLine>, collapsed: Set<usize>, j: int) -> bool {
    exists|i: int|
        0 <= i < j && #[trigger] folds(ps[i], collapsed) && forall|k: int|
            i < k <= j ==> ps[k].indentation_level > ps[i].indentation_level
}

/// What the scan over the first `n` lines keeps: the shown positions are
/// increasing, below `n`, and exactly those not folded away; a collapsed
/// header whose region reaches past line `n - 1` leaves the scan hiding
/// at or above its level.
proof fn lemma_visibility_scan_facts(ps: Seq<OrgParsedLine>, collapsed: Set<usize>, n: nat)
    requires
        n <= ps.len(),
    ensures
        ({
            let (shown, hiding) = visibility_scan(ps, collapsed, n);
            &&& forall|a: int, b: int| 0 <= a < b < shown.len() ==> shown[a] < shown[b]
            &&& forall|a: int| 0 <= a < shown.len() ==> 0 <= #[trigger] shown[a] < n
            &&& forall|j: int| 0 <= j < n ==> (shown.contains(j) <==> !folded_away(ps, collapsed, j))
            &&& hiding matches Some(h) ==> exists|i: int| 0 <= i < n && #[trigger] folds(ps[i], collapsed)
                && ps[i].indentation_level == h && forall|k: int| i < k < n ==> ps[k].indentation_level > h
            &&& forall|i: int| 0 <= i < n && #[trigger] folds(ps[i], collapsed) && (forall|k: int|
                i < k < n ==> ps[k].indentation_level > ps[i].indentation_level) ==> (hiding matches Some(h)
                && h <= ps[i].indentation_level)
        }),
    decreases n,
{
    if n > 0 {
        let m = (n - 1) as nat;
        lemma_visibility_scan_facts(ps, collapsed, m);
        let (shown, hiding) = visibility_scan(ps, collapsed, m);
        let line = ps[m as int];
        let hidden = match hiding {
            Some(h) => line.indentation_level > h,
            None => false,
        };
        let (s2, h2) = visibility_scan(ps, collapsed, n);
        if hidden {
            let h = hiding->0;
            assert(s2 == shown && h2 == hiding);
            // the hiding header still covers the new line
            let i0 = choose|i: int| 0 <= i < m && #[trigger] folds(ps[i], collapsed)
                && ps[i].indentation_level == h && forall|k: int| i < k < m ==> ps[k].indentation_level > h;
            assert(folded_away(ps, collapsed, m as int)) by {
                assert forall|k: int| i0 < k <= m implies ps[k].indentation_level > ps[i0].indentation_level by {}
            }
            assert forall|i: int| 0 <= i < n && #[trigger] folds(ps[i], collapsed) && (forall|k: int|
                i < k < n ==> ps[k].indentation_level > ps[i].indentation_level) implies (h2 matches Some(hh)
                && hh <= ps[i].indentation_level) by {
                if i < m {
                    assert forall|k: int| i < k < m implies ps[k].indentation_level > ps[i].indentation_level by {}
                }
            }
            assert forall|j: int| 0 <= j < n implies (s2.contains(j) <==> !folded_away(ps, collapsed, j)) by {
                if j == m {
                    assert(!shown.contains(j)) by {
                        if shown.contains(j) {
                            let a = choose|a: int| 0 <= a < shown.len() && shown[a] == j;
                        }
                    }
                }
            }
        } else {
            assert(s2 == shown.push(m as int));
            assert(!folded_away(ps, collapsed, m as int)) by {
                if folded_away(ps, collapsed, m as int) {
                    let i = choose|i: int| 0 <= i < m && #[trigger] folds(ps[i], collapsed) && forall|k: int|
                        i < k <= m ==> ps[k].indentation_level > ps[i].indentation_level;
                    assert forall|k: int| i < k < m implies ps[k].indentation_level > ps[i].indentation_level by {}
                }
            }
            assert forall|j: int| 0 <= j < n implies (s2.contains(j) <==> !folded_away(ps, collapsed, j)) by {
                if j < m {
                    if s2.contains(j) {
                        let a = choose|a: int| 0 <= a < s2.len() && s2[a] == j;
                        assert(a < shown.len());
                        assert(shown[a] == j);
                    }
                    if shown.contains(j) {
                        let a = choose|a: int| 0 <= a < shown.len() && shown[a] == j;
                        assert(s2[a] == j);
                    }
                } else {
                    assert(s2[shown.len() as int] == j);
                }
            }
            assert forall|i: int| 0 <= i < n && #[trigger] folds(ps[i], collapsed) && (forall|k: int|
                i < k < n ==> ps[k].indentation_level > ps[i].indentation_level) implies (h2 matches Some(hh)
                && hh <= ps[i].indentation_level) by {
                if i < m {
                    assert forall|k: int| i < k < m implies ps[k].indentation_level > ps[i].indentation_level by {}
                    assert(ps[m as int].indentation_level > ps[i].indentation_level);
                }
            }
            if folds(line, collapsed) {
                assert(folds(ps[m as int], collapsed));
            }
        }
    }
}

/// Folding, stated directly: the lines shown are, in order, exactly those
/// not inside a folded region (`folded_away`).
pub proof fn lemma_visible_positions(ps: Seq<OrgParsedLine>, collapsed: Set<usize>)
    ensures
        forall|a: int, b: int| 0 <= a < b < visible_positions(ps, collapsed).len()
            ==> visible_positions(ps, collapsed)[a] < visible_positions(ps, collapsed)[b],
        forall|a: int| 0 <= a < visible_positions(ps, collapsed).len()
            ==> 0 <= #[trigger] visible_positions(ps, collapsed)[a] < ps.len(),
        forall|j: int| 0 <= j < ps.len() ==> (visible_positions(ps, collapsed).contains(j) <==> !folded_away(ps, collapsed, j)),
{
    lemma_visibility_scan_facts(ps, collapsed, ps.len());
}

/// Decides which lines folding hides.
pub struct OrgVisibilityEngine;

impl OrgVisibilityEngine {
    /// The lines that stay shown: after a collapsed header, every following
    /// line indented deeper than it is hidden, up to the first that is not.
    pub fn filter_visible_lines<'a>(parsed_lines: &'a Vec<OrgParsedLine>, collapsed_indices: &HashSet<usize>) -> (res: Vec<&'a OrgParsedLine>)
        ensures
            res@.len() == visible_positions(parsed_lines@, collapsed_indices@).len(),
            forall|k: int| 0 <= k < res@.len() ==> *res@[k] == parsed_lines@[visible_positions(parsed_lines@, collapsed_indices@)[k]],
    {
        let mut visible: Vec<&'a OrgParsedLine> = Vec::new();
        let mut active_hiding_level: Option<usize> = None;
        let mut i: usize = 0;
        while i < parsed_lines.len()
            invariant
                i <= parsed_lines@.len(),
                visible@.len() == visibility_scan(parsed_lines@, collapsed_indices@, i as nat).0.len(),
                forall|k: int| 0 <= k < visible@.len() ==> *visible@[k] == parsed_lines@[visibility_scan(parsed_lines@, collapsed_indices@, i as nat).0[k]],
                active_hiding_level == (match visibility_scan(parsed_lines@, collapsed_indices@, i as nat).1 {
                    Some(h) => Some(h as usize),
                    None => None::<usize>,
                }),
                forall|h: nat| visibility_scan(parsed_lines@, collapsed_indices@, i as nat).1 == Some(h) ==> h <= usize::MAX,
            decreases parsed_lines@.len() - i,
        {
            let line = &parsed_lines[i];
            let ghost prev = visibility_scan(parsed_lines@, collapsed_indices@, i as nat);
            let mut hidden = false;
            if let Some(hidden_level) = active_hiding_level {
                if line.indentation_level > hidden_level {
                    hidden = true;
                } else {
                    active_hiding_level = None;
                }
            }
            if !hidden {
                let ghost old_visible = visible@;
                visible.push(line);
                let is_header = match line.content_type {
                    OrgLineType::Header { .. } => true,
                    _ => false,
                };
                if collapsed_indices.contains(&line.line_index) && is_header {
                    active_hiding_level = Some(line.indentation_level);
                } else {
                    active_hiding_level = None;
                }
                proof {
                    let now = visibility_scan(parsed_lines@, collapsed_indices@, (i + 1) as nat);
                    assert(now.0 == prev.0.push(i as int));
                    assert forall|k: int| 0 <= k < visible@.len() implies *visible@[k] == parsed_lines@[now.0[k]] by {
                        if k < old_visible.len() {
                            assert(visible@[k] == old_visible[k]);
                        }
                    }
                }
            }
            i = i + 1;
        }
        visible
    }
}

/// Rewrites notes.
pub struct OrgFormatter;

impl OrgFormatter {
    /// The note with the check box on line `target_line_index` flipped; a
    /// note with fewer lines comes back unchanged. Lines are rejoined with
    /// line feeds, keeping a final line feed.
    pub fn toggle_task_state_at_line(raw_text: &str, target_line_index: usize) -> (res: String)
        ensures
            res@ == toggle_document_spec(raw_text@, target_line_index as int),
    {
        let chars = chars_of(raw_text);
        let ls = split_lines(&chars);
        if target_line_index >= ls.len() {
            return string_of(&chars);
        }
        let mut updated: Vec<Vec<char>> = Vec::new();
        let mut index: usize = 0;
        while index < ls.len()
            invariant
                index <= ls@.len(),
                target_line_index < ls@.len(),
                updated@.len() == index,
                forall|i: int| 0 <= i < index ==> (#[trigger] updated@[i])@ == (if i == target_line_index {
                    toggle_line_spec(ls@[i]@)
                } else {
                    ls@[i]@
                }),
            decreases ls@.len() - index,
        {
            if index == target_line_index {
                updated.push(toggle_task_prefix_in_string(&ls[index]));
            } else {
                updated.push(slice_chars_all(&ls[index]));
            }
            index = index + 1;
        }
        let mut result = join_exec(&updated, '\n');
        if chars.len() > 0 && chars[chars.len() - 1] == '\n' {
            result.push('\n');
        }
        proof {
            let ls_spec = lines(raw_text@);
            assert(views(updated@) =~= ls_spec.update(target_line_index as int, toggle_line_spec(ls_spec[target_line_index as int])));
        }
        string_of(&result)
    }
}

impl OrgFormatter {
    /// The note laid out again: each run of table lines becomes an aligned
    /// table, headings are indented by level, other lines keep their
    /// leading spaces. Lines are rejoined with line feeds, keeping a final
    /// line feed.
    pub fn format_entire_document(raw_text: &str) -> (res: String)
        requires
            raw_text@.len() <= MAX_TEXT_LEN,
        ensures
            res@ == format_document_spec(raw_text@),
    {
        let chars = chars_of(raw_text);
        let ls = split_lines(&chars);
        let ghost lv = views(ls@);
        let mut formatted: Vec<Vec<char>> = Vec::new();
        let mut index: usize = 0;
        while index < ls.len()
            invariant
                index <= ls@.len(),
                lv == views(ls@),
                lv == lines(raw_text@),
                forall|k: int| 0 <= k < ls@.len() ==> (#[trigger] ls@[k])@.len() <= MAX_TEXT_LEN,
                views(formatted@) + format_lines_from(lv, index as int) == format_lines_from(lv, 0),
            decreases ls@.len() - index,
        {
            let ghost before = views(formatted@);
            if is_table_line(&ls[index]) {
                let table_end_index = find_table_end_index(&ls, index);
                proof {
                    lemma_table_end_bounds(lv, index as int);
                    lemma_table_end_bounds(lv, index + 1);
                }
                let mut block = format_table_block(&ls, index, table_end_index);
                formatted.append(&mut block);
                assert(views(formatted@) =~= before + table_block_spec(lv.subrange(index as int, table_end_index as int)));
                index = table_end_index;
            } else {
                let line = format_standard_line(&ls[index]);
                formatted.push(line);
                assert(views(formatted@) =~= before.push(format_standard_line_spec(lv[index as int])));
                index = index + 1;
            }
        }
        assert(views(formatted@) =~= format_lines_from(lv, 0));
        let mut result = join_exec(&formatted, '\n');
        if chars.len() > 0 && chars[chars.len() - 1] == '\n' {
            result.push('\n');
        }
        string_of(&result)
    }
}

/// How note lines are shown.
pub struct NoteBoxView;

/// The glyph of a folded header.
pub open spec fn collapsed_icon() -> Seq<char> {
    seq!['\u{e5cc}']
}

/// The glyph of an unfolded header.
pub open spec fn expanded_icon() -> Seq<char> {
    seq!['\u{e5cf}']
}

impl NoteBoxView {
    /// Left padding of a line, in pixels: eight per space of its level.
    pub fn indentation_padding(level: usize) -> (res: usize)
        requires
            level * 16 <= usize::MAX,
        ensures
            res == level * 16,
    {
        level * DEFAULT_INDENTATION_SPACES_PER_LEVEL * 8
    }

    /// The font size of a header: 16 for level 1, 14 for level 2, 13 below.
    pub fn header_font_size(level: usize) -> (res: u16)
        ensures
            res == (if level == 1 { 16u16 } else if level == 2 { 14u16 } else { 13u16 }),
    {
        if level == 1 {
            16
        } else if level == 2 {
            14
        } else {
            13
        }
    }

    /// The text of a header: its stars, a space, and its title.
    pub fn header_label(level: usize, text: &str) -> (res: String)
        ensures
            res@ == repeat_char('*', level as nat) + seq![' '] + text@,
    {
        let mut out: Vec<char> = Vec::new();
        push_repeat(&mut out, '*', level);
        out.push(' ');
        push_all(&mut out, &chars_of(text));
        assert(out@ =~= repeat_char('*', level as nat) + seq![' '] + text@);
        string_of(&out)
    }

    /// The fold glyph of a header.
    pub fn fold_icon(is_collapsed: bool) -> (res: &'static str)
        ensures
            res@ == (if is_collapsed { collapsed_icon() } else { expanded_icon() }),
    {
        if is_collapsed {
            proof {
                reveal_strlit("\u{e5cc}");
            }
            "\u{e5cc}"
        } else {
            proof {
                reveal_strlit("\u{e5cf}");
            }
            "\u{e5cf}"
        }
    }
}

impl NoteBoxState {
    /// Folds an unfolded header line, or unfolds a folded one.
    pub fn toggle_fold(&mut self, line_index: usize)
        ensures
            final(self).collapsed_line_indices@ == (if old(self).collapsed_line_indices@.contains(line_index) {
                old(self).collapsed_line_indices@.remove(line_index)
            } else {
                old(self).collapsed_line_indices@.insert(line_index)
            }),
    {
        if self.collapsed_line_indices.contains(&line_index) {
            self.collapsed_line_indices.remove(&line_index);
        } else {
            self.collapsed_line_indices.insert(line_index);
        }
    }
}

/// The only occurrence of a pattern is its first one.
proof fn lemma_first_is_only(s: Seq<char>, p: Seq<char>, i0: int)
    requires
        crate::text::occurs_at(s, p, i0),
        forall|j: int| crate::text::occurs_at(s, p, j) ==> j == i0,
    ensures
        contains_seq(s, p),
        crate::text::first_occurrence(s, p) == i0,
{
    assert(crate::text::occurs_at(s, p, i0) && forall|j: int| 0 <= j < i0 ==> !crate::text::occurs_at(s, p, j));
    let f = crate::text::first_occurrence(s, p);
    assert(crate::text::occurs_at(s, p, f));
}

/// The three boxes differ only in their mark.
proof fn lemma_box_marks()
    ensures
        unchecked_box().len() == 5,
        checked_lower_box().len() == 5,
        unchecked_box()[2] == '[',
        checked_lower_box()[2] == '[',
        unchecked_box()[3] == ' ',
        checked_lower_box()[3] == 'x',
        checked_lower_box() == unchecked_box().update(3, 'x'),
        unchecked_box() == checked_lower_box().update(3, ' '),
{
    assert(checked_lower_box() =~= unchecked_box().update(3, 'x'));
    assert(unchecked_box() =~= checked_lower_box().update(3, ' '));
}

/// A task box of any of the three kinds starts at `i`.
pub open spec fn box_at(line: Seq<char>, i: int) -> bool {
    crate::text::occurs_at(line, unchecked_box(), i) || crate::text::occurs_at(line, checked_lower_box(), i)
        || crate::text::occurs_at(line, checked_upper_box(), i)
}

/// A line whose box click can be undone: it holds no box at all, or
/// exactly one box and that box is not `- [X]`.
pub open spec fn toggle_restorable(line: Seq<char>) -> bool {
    (forall|j: int| !#[trigger] box_at(line, j)) || exists|i: int|
        (crate::text::occurs_at(line, unchecked_box(), i) || crate::text::occurs_at(line, checked_lower_box(), i))
            && forall|j: int| #[trigger] box_at(line, j) ==> j == i
}

/// Changing the mark at `i + 3` of a line whose only box starts at `i`
/// to `x` or a space: a box of pattern `b` can then start only at `i`,
/// and only when the new mark is `b`'s.
proof fn lemma_boxes_after_mark(line: Seq<char>, i: int, c: char, b: Seq<char>, j: int)
    requires
        forall|k: int| #[trigger] box_at(line, k) ==> k == i,
        0 <= i && i + 5 <= line.len(),
        line[i + 2] == '[',
        c == 'x' || c == ' ',
        b == unchecked_box() || b == checked_lower_box() || b == checked_upper_box(),
        crate::text::occurs_at(line.update(i + 3, c), b, j),
    ensures
        j == i && b[3] == c,
{
    let t = line.update(i + 3, c);
    assert(b.len() == 5 && b[0] == '-' && b[1] == ' ' && b[2] == '[' && b[4] == ']');
    let w = t.subrange(j, j + 5);
    assert(w == b);
    if j <= i + 3 && i + 3 < j + 5 {
        let o = i + 3 - j;
        assert(w[o] == t[i + 3]);
        if j == i + 2 {
            assert(w[0] == t[i + 2]);
        }
    } else {
        assert(w =~= line.subrange(j, j + 5));
        assert(box_at(line, j));
    }
}

/// A box at `i` of a line: its five characters.
proof fn lemma_box_chars(line: Seq<char>, b: Seq<char>, i: int)
    requires
        crate::text::occurs_at(line, b, i),
        b.len() == 5,
    ensures
        forall|k: int| 0 <= k < 5 ==> line[i + k] == b[k],
{
    assert forall|k: int| 0 <= k < 5 implies line[i + k] == b[k] by {
        assert(line.subrange(i, i + 5)[k] == b[k]);
    }
}

/// Clicking an empty box that is the line's only box, then clicking again.
proof fn lemma_toggle_twice_unchecked(line: Seq<char>, i: int)
    requires
        crate::text::occurs_at(line, unchecked_box(), i),
        forall|j: int| #[trigger] box_at(line, j) ==> j == i,
    ensures
        toggle_line_spec(toggle_line_spec(line)) == line,
{
    let u = unchecked_box();
    let x = checked_lower_box();
    lemma_box_marks();
    lemma_box_chars(line, u, i);
    assert forall|j: int| crate::text::occurs_at(line, u, j) implies j == i by {
        assert(box_at(line, j));
    }
    lemma_first_is_only(line, u, i);
    lemma_toggle_of_unchecked(line);
    let t = line.update(i + 3, 'x');
    assert(line.subrange(0, i) + x + line.subrange(i + 5, line.len() as int) =~= t);
    assert(toggle_line_spec(line) == t);
    assert(!contains_seq(t, u)) by {
        if contains_seq(t, u) {
            let j = choose|j: int| crate::text::occurs_at(t, u, j);
            lemma_boxes_after_mark(line, i, 'x', u, j);
        }
    }
    assert(t.subrange(i, i + 5) =~= x);
    assert forall|j: int| crate::text::occurs_at(t, x, j) implies j == i by {
        lemma_boxes_after_mark(line, i, 'x', x, j);
    }
    lemma_first_is_only(t, x, i);
    lemma_toggle_of_checked(t);
    assert(t.subrange(0, i) + u + t.subrange(i + 5, t.len() as int) =~= line);
}

/// Clicking a filled box that is the line's only box, then clicking again.
proof fn lemma_toggle_twice_checked(line: Seq<char>, i: int)
    requires
        crate::text::occurs_at(line, checked_lower_box(), i),
        forall|j: int| #[trigger] box_at(line, j) ==> j == i,
    ensures
        toggle_line_spec(toggle_line_spec(line)) == line,
{
    let u = unchecked_box();
    let x = checked_lower_box();
    lemma_box_marks();
    lemma_box_chars(line, x, i);
    assert(!contains_seq(line, u)) by {
        if contains_seq(line, u) {
            let j = choose|j: int| crate::text::occurs_at(line, u, j);
            assert(box_at(line, j));
            lemma_box_chars(line, u, j);
        }
    }
    assert forall|j: int| crate::text::occurs_at(line, x, j) implies j == i by {
        assert(box_at(line, j));
    }
    lemma_first_is_only(line, x, i);
    lemma_toggle_of_checked(line);
    let t = line.update(i + 3, ' ');
    assert(line.subrange(0, i) + u + line.subrange(i + 5, line.len() as int) =~= t);
    assert(toggle_line_spec(line) == t);
    assert(t.subrange(i, i + 5) =~= u);
    assert forall|j: int| crate::text::occurs_at(t, u, j) implies j == i by {
        lemma_boxes_after_mark(line, i, ' ', u, j);
    }
    lemma_first_is_only(t, u, i);
    lemma_toggle_of_unchecked(t);
    assert(t.subrange(0, i) + x + t.subrange(i + 5, t.len() as int) =~= line);
}

/// Clicking a task's check box twice gives the line back, for a line with
/// no box or with exactly one box that is not `- [X]`.
pub proof fn lemma_toggle_twice_restores_line(line: Seq<char>)
    requires
        toggle_restorable(line),
    ensures
        toggle_line_spec(toggle_line_spec(line)) == line,
{
    let u = unchecked_box();
    let x = checked_lower_box();
    let xx = checked_upper_box();
    if forall|j: int| !#[trigger] box_at(line, j) {
        assert(!contains_seq(line, u)) by {
            if contains_seq(line, u) {
                let j = choose|j: int| crate::text::occurs_at(line, u, j);
                assert(box_at(line, j));
            }
        }
        assert(!contains_seq(line, x)) by {
            if contains_seq(line, x) {
                let j = choose|j: int| crate::text::occurs_at(line, x, j);
                assert(box_at(line, j));
            }
        }
        assert(!contains_seq(line, xx)) by {
            if contains_seq(line, xx) {
                let j = choose|j: int| crate::text::occurs_at(line, xx, j);
                assert(box_at(line, j));
            }
        }
        lemma_toggle_of_plain(line);
        lemma_toggle_of_plain(line);
    } else {
        let i = choose|i: int| (crate::text::occurs_at(line, u, i) || crate::text::occurs_at(line, x, i))
            && forall|j: int| #[trigger] box_at(line, j) ==> j == i;
        if crate::text::occurs_at(line, u, i) {
            lemma_toggle_twice_unchecked(line, i);
        } else {
            lemma_toggle_twice_checked(line, i);
        }
    }
}

/// The box flip on a line with an empty box fills its first one.
proof fn lemma_toggle_of_unchecked(s: Seq<char>)
    requires
        contains_seq(s, unchecked_box()),
    ensures
        toggle_line_spec(s) == replace_first(s, unchecked_box(), checked_lower_box()),
{
    reveal(toggle_line_spec);
}

/// The box flip on a line with a filled box and no empty one empties its
/// first filled one.
proof fn lemma_toggle_of_checked(s: Seq<char>)
    requires
        !contains_seq(s, unchecked_box()),
        contains_seq(s, checked_lower_box()),
    ensures
        toggle_line_spec(s) == replace_first(s, checked_lower_box(), unchecked_box()),
{
    reveal(toggle_line_spec);
}

/// The box flip leaves a line without boxes as it is.
proof fn lemma_toggle_of_plain(s: Seq<char>)
    requires
        !contains_seq(s, unchecked_box()),
        !contains_seq(s, checked_lower_box()),
        !contains_seq(s, checked_upper_box()),
    ensures
        toggle_line_spec(s) == s,
{
    reveal(toggle_line_spec);
}

/// Some occurrence of a pattern is the first one.
proof fn lemma_first_occurrence_exists(s: Seq<char>, p: Seq<char>, k: int)
    requires
        crate::text::occurs_at(s, p, k),
    ensures
        crate::text::occurs_at(s, p, crate::text::first_occurrence(s, p)),
        forall|j: int| 0 <= j < crate::text::first_occurrence(s, p) ==> !crate::text::occurs_at(s, p, j),
    decreases k,
{
    if exists|j: int| 0 <= j < k && crate::text::occurs_at(s, p, j) {
        let j = choose|j: int| 0 <= j < k && crate::text::occurs_at(s, p, j);
        lemma_first_occurrence_exists(s, p, j);
    } else {
        assert(crate::text::occurs_at(s, p, k) && forall|j: int| 0 <= j < k ==> !crate::text::occurs_at(s, p, j));
    }
}

/// Replacing a pattern by one of its length keeps the length, and keeps a
/// line on one line when the replacement has no line breaks.
proof fn lemma_replace_keeps_line(s: Seq<char>, p: Seq<char>, r: Seq<char>)
    requires
        p.len() == r.len(),
        crate::md_laws::no_breaks(s),
        crate::md_laws::no_breaks(r),
    ensures
        replace_first(s, p, r).len() == s.len(),
        crate::md_laws::no_breaks(replace_first(s, p, r)),
{
    if contains_seq(s, p) {
        let k = choose|k: int| crate::text::occurs_at(s, p, k);
        lemma_first_occurrence_exists(s, p, k);
        let f = crate::text::first_occurrence(s, p);
        let t = replace_first(s, p, r);
        assert(t == s.subrange(0, f) + r + s.subrange(f + p.len(), s.len() as int));
        assert forall|i: int| 0 <= i < t.len() implies t[i] != '\n' && t[i] != '\r' by {
            if i < f {
                assert(t[i] == s[i]);
            } else if i < f + r.len() {
                assert(t[i] == r[i - f]);
            } else {
                assert(t[i] == s[i]);
            }
        }
    }
}

/// Flipping a line's box keeps its length and keeps it on one line.
proof fn lemma_toggle_keeps_line(line: Seq<char>)
    requires
        crate::md_laws::no_breaks(line),
    ensures
        toggle_line_spec(line).len() == line.len(),
        crate::md_laws::no_breaks(toggle_line_spec(line)),
{
    reveal(toggle_line_spec);
    assert(crate::md_laws::no_breaks(unchecked_box()));
    assert(crate::md_laws::no_breaks(checked_lower_box()));
    lemma_replace_keeps_line(line, unchecked_box(), checked_lower_box());
    lemma_replace_keeps_line(line, checked_lower_box(), unchecked_box());
    lemma_replace_keeps_line(line, checked_upper_box(), unchecked_box());
}

/// The lines of text without carriage returns are each on one line.
proof fn lemma_lines_no_breaks(s: Seq<char>)
    requires
        forall|i: int| 0 <= i < s.len() ==> s[i] != '\r',
    ensures
        forall|k: int| 0 <= k < lines(s).len() ==> crate::md_laws::no_breaks(#[trigger] lines(s)[k]),
    decreases s.len(),
{
    if s.len() > 0 {
        crate::text::lemma_find_char_bounds(s, '\n');
        match find_char(s, '\n') {
            None => {
                assert(lines(s) == seq![s]);
                assert(crate::md_laws::no_breaks(s));
            },
            Some(i) => {
                let a = s.subrange(0, i);
                let b = s.subrange(i + 1, s.len() as int);
                assert(crate::text::strip_cr(a) == a) by {
                    if a.len() > 0 {
                        assert(a.last() == s[i - 1]);
                    }
                }
                assert(lines(s) == seq![a] + lines(b));
                lemma_lines_no_breaks(b);
                assert forall|k: int| 0 <= k < lines(s).len() implies crate::md_laws::no_breaks(#[trigger] lines(s)[k]) by {
                    if k == 0 {
                        assert forall|j: int| 0 <= j < a.len() implies a[j] != '\n' && a[j] != '\r' by {
                            assert(a[j] == s[j]);
                        }
                    } else {
                        assert(lines(s)[k] == lines(b)[k - 1]);
                    }
                }
            },
        }
    }
}

/// Text without carriage returns that ends with a line feed is its lines,
/// each ended by a line feed.
proof fn lemma_terminated_lines(s: Seq<char>)
    requires
        forall|i: int| 0 <= i < s.len() ==> s[i] != '\r',
        ends_with_newline(s),
    ensures
        crate::records::terminated(lines(s)) == s,
    decreases s.len(),
{
    crate::text::lemma_find_char_bounds(s, '\n');
    let i = find_char(s, '\n').unwrap();
    let a = s.subrange(0, i);
    let b = s.subrange(i + 1, s.len() as int);
    assert(crate::text::strip_cr(a) == a) by {
        if a.len() > 0 {
            assert(a.last() == s[i - 1]);
        }
    }
    assert(lines(s) == seq![a] + lines(b));
    crate::md_laws::lemma_terminated_cons(lines(s));
    assert((seq![a] + lines(b)).drop_first() =~= lines(b));
    if b.len() == 0 {
        assert(lines(b) =~= Seq::<Seq<char>>::empty());
        assert(crate::records::terminated(Seq::<Seq<char>>::empty()) =~= Seq::<char>::empty());
        assert(s =~= a + seq!['\n']);
    } else {
        assert(b.last() == s.last());
        lemma_terminated_lines(b);
        assert(s =~= a + seq!['\n'] + b);
    }
}

/// Text without carriage returns is its lines joined again.
proof fn lemma_rejoin_lines(s: Seq<char>)
    requires
        forall|i: int| 0 <= i < s.len() ==> s[i] != '\r',
    ensures
        rejoin(lines(s), s) == s,
{
    if ends_with_newline(s) {
        lemma_terminated_lines(s);
        if lines(s).len() == 0 {
            assert(crate::records::terminated(lines(s)) =~= Seq::<char>::empty());
        } else {
            crate::org_laws::lemma_terminated_join(lines(s));
        }
    } else {
        crate::org_laws::lemma_join_lines(s);
        assert(join(lines(s), seq!['\n']) + Seq::<char>::empty() =~= s);
    }
}

/// Lines joined again read back as the same lines, and the text ends with
/// a line feed exactly when the source did.
proof fn lemma_lines_of_rejoin(ls: Seq<Seq<char>>, source: Seq<char>)
    requires
        ls.len() > 0,
        forall|k: int| 0 <= k < ls.len() ==> crate::md_laws::no_breaks(#[trigger] ls[k]),
        !ends_with_newline(source) ==> ls.last().len() > 0,
    ensures
        lines(rejoin(ls, source)) == ls,
        ends_with_newline(rejoin(ls, source)) == ends_with_newline(source),
{
    if ends_with_newline(source) {
        crate::org_laws::lemma_terminated_join(ls);
        crate::md_laws::lemma_lines_terminated(ls);
    } else {
        crate::org_laws::lemma_lines_join(ls);
        crate::org_laws::lemma_join_last(ls);
        assert(rejoin(ls, source) =~= join(ls, seq!['\n']));
        assert(crate::md_laws::no_breaks(ls[ls.len() - 1]));
        assert(ls.last()[ls.last().len() - 1] != '\n');
    }
}

/// Clicking a task's box in a note: the note keeps its number of lines
/// and its final line feed, the clicked line has its box flipped and every
/// other line stays; and for a clicked line with no box or with exactly
/// one box that is not `- [X]`, clicking it again gives the note back.
pub proof fn lemma_toggle_document(text: Seq<char>, target: int)
    requires
        forall|i: int| 0 <= i < text.len() ==> text[i] != '\r',
        0 <= target < lines(text).len(),
    ensures
        lines(toggle_document_spec(text, target)) == lines(text).update(target, toggle_line_spec(lines(text)[target])),
        ends_with_newline(toggle_document_spec(text, target)) == ends_with_newline(text),
        toggle_restorable(lines(text)[target]) ==> toggle_document_spec(toggle_document_spec(text, target), target) == text,
{
    let ls = lines(text);
    let nl = ls.update(target, toggle_line_spec(ls[target]));
    lemma_lines_no_breaks(text);
    lemma_toggle_keeps_line(ls[target]);
    if !ends_with_newline(text) {
        crate::org_laws::lemma_join_lines(text);
        assert(ls.last() == ls[ls.len() - 1]);
    }
    assert forall|k: int| 0 <= k < nl.len() implies crate::md_laws::no_breaks(#[trigger] nl[k]) by {
        if k != target {
            assert(nl[k] == ls[k]);
        }
    }
    assert(nl.last() == nl[nl.len() - 1]);
    lemma_lines_of_rejoin(nl, text);
    let out = toggle_document_spec(text, target);
    assert(out == rejoin(nl, text));
    if toggle_restorable(ls[target]) {
        lemma_toggle_twice_restores_line(ls[target]);
        assert(nl.update(target, toggle_line_spec(nl[target])) =~= ls);
        assert(toggle_document_spec(out, target) == rejoin(ls, out));
        assert(rejoin(ls, out) == rejoin(ls, text));
        lemma_rejoin_lines(text);
    }
}

/// A line whose indentation, if any, is made of spaces only.
pub open spec fn space_indented(l: Seq<char>) -> bool {
    trim_start(l) == l.subrange(count_leading(l, ' ') as int, l.len() as int)
}

/// Trimming the end keeps a prefix that ends, if anywhere, in a character
/// that is not white space.
proof fn lemma_trim_end_prefix(s: Seq<char>)
    ensures
        trim_end(s).len() <= s.len(),
        trim_end(s) == s.subrange(0, trim_end(s).len() as int),
        trim_end(s).len() > 0 ==> !is_ws(trim_end(s).last()),
    decreases s.len(),
{
    if s.len() > 0 && is_ws(s.last()) {
        lemma_trim_end_prefix(s.drop_last());
        assert(s.drop_last().subrange(0, trim_end(s).len() as int) =~= s.subrange(0, trim_end(s).len() as int));
    } else {
        assert(s.subrange(0, s.len() as int) =~= s);
    }
}

/// Runs of a character in front of text count as leading.
proof fn lemma_count_leading_run(c: char, n: nat, x: Seq<char>)
    ensures
        count_leading(repeat_char(c, n) + x, c) == n + count_leading(x, c),
    decreases n,
{
    if n > 0 {
        let y = repeat_char(c, n) + x;
        assert(y[0] == c);
        assert(y.drop_first() =~= repeat_char(c, (n - 1) as nat) + x);
        lemma_count_leading_run(c, (n - 1) as nat, x);
    } else {
        assert(repeat_char(c, 0) + x =~= x);
    }
}

/// A formatted heading line: its parts, and the facts formatting it again
/// relies on.
#[verifier::spinoff_prover]
#[verifier::rlimit(40)]
proof fn lemma_heading_format(l: Seq<char>)
    requires
        crate::md_laws::no_breaks(l),
        trim_start(l).len() > 0,
        trim_start(l)[0] == '*',
    ensures
        ({
            let o = format_standard_line_spec(l);
            &&& crate::md_laws::no_breaks(o)
            &&& format_standard_line_spec(o) == o
            &&& !is_table_line_spec(o)
            &&& space_indented(o)
            &&& o.len() > 0
        }),
{
    let t = trim_start(l);
    crate::text::lemma_trim_start_is(l);
    let k0 = choose|k: int| 0 <= k <= l.len() && trim_start(l) == l.subrange(k, l.len() as int)
        && (forall|j: int| 0 <= j < k ==> is_ws(#[trigger] l[j])) && (k < l.len() ==> !is_ws(l[k]));
    lemma_count_leading_bound(t, '*');
    let a = count_leading(t, '*');
    let x = t.subrange(a as int, t.len() as int);
    let xs = trim_start(x);
    crate::text::lemma_trim_start_is(x);
    let k1 = choose|k: int| 0 <= k <= x.len() && trim_start(x) == x.subrange(k, x.len() as int)
        && (forall|j: int| 0 <= j < k ==> is_ws(#[trigger] x[j])) && (k < x.len() ==> !is_ws(x[k]));
    lemma_trim_end_prefix(xs);
    let r = trim(x);
    assert(r == trim_end(xs));
    // r is a piece of l
    assert forall|j: int| 0 <= j < r.len() implies r[j] == l[k0 + a + k1 + j] by {
        assert(r[j] == xs[j]);
        assert(xs[j] == x[k1 + j]);
        assert(x[k1 + j] == t[a + k1 + j]);
        assert(t[a + k1 + j] == l[k0 + a + k1 + j]);
    }
    if r.len() > 0 {
        assert(!is_ws(r[0])) by {
            assert(r[0] == xs[0]);
            assert(xs[0] == x[k1]);
        }
    }
    let sp = repeat_char(' ', ((a - 1) * 2) as nat);
    let st = repeat_char('*', a);
    let rest = st + seq![' '] + r;
    let o = format_standard_line_spec(l);
    assert(o == sp + rest);
    assert(o =~= sp + rest);
    // no breaks
    assert forall|j: int| 0 <= j < o.len() implies o[j] != '\n' && o[j] != '\r' by {
        if j < sp.len() {
            assert(o[j] == ' ');
        } else if j < sp.len() + a {
            assert(o[j] == '*');
        } else if j == sp.len() + a {
            assert(o[j] == ' ');
        } else {
            let q = j - sp.len() - a - 1;
            assert(o[j] == r[q]);
            assert(r[q] == l[k0 + a + k1 + q]);
        }
    }
    // formatting again
    assert forall|j: int| 0 <= j < sp.len() implies is_ws(#[trigger] sp[j]) by {}
    crate::org_laws::lemma_trim_start_skip(sp, rest);
    assert(rest[0] == '*');
    assert(trim_start(rest) == rest);
    assert(trim_start(o) == rest);
    lemma_count_leading_run('*', a, seq![' '] + r);
    assert(seq![' '] + r =~= seq![' '] + r);
    assert((seq![' '] + r)[0] == ' ');
    assert(count_leading(seq![' '] + r, '*') == 0);
    assert(rest =~= st + (seq![' '] + r));
    assert(count_leading(rest, '*') == a);
    let x2 = rest.subrange(a as int, rest.len() as int);
    assert(x2 =~= seq![' '] + r);
    assert(x2.drop_first() =~= r);
    assert(trim_start(x2) == trim_start(r));
    assert(trim_start(r) == r) by {
        if r.len() > 0 {
            assert(!is_ws(r[0]));
        }
    }
    assert(trim_end(r) == r) by {
        if r.len() > 0 {
            assert(r.last() == trim_end(xs).last());
        }
    }
    assert(trim(x2) == r);
    assert(format_standard_line_spec(o) == sp + rest);
    // indentation
    lemma_count_leading_run(' ', ((a - 1) * 2) as nat, rest);
    assert(count_leading(rest, ' ') == 0);
    assert(o.subrange(sp.len() as int, o.len() as int) =~= rest);
}

/// Formatting a line that is not part of a table.
proof fn lemma_format_line(l: Seq<char>)
    requires
        crate::md_laws::no_breaks(l),
        !is_table_line_spec(l),
    ensures
        crate::md_laws::no_breaks(format_standard_line_spec(l)),
        format_standard_line_spec(format_standard_line_spec(l)) == format_standard_line_spec(l),
        !is_table_line_spec(format_standard_line_spec(l)),
        space_indented(format_standard_line_spec(l)),
        space_indented(l) ==> (format_standard_line_spec(l).len() == 0 <==> l.len() == 0),
        space_indented(l) && (trim_start(l).len() == 0 || trim_start(l)[0] != '*') ==> format_standard_line_spec(l) == l,
{
    let t = trim_start(l);
    if t.len() > 0 && t[0] == '*' {
        lemma_heading_format(l);
    } else {
        let c = count_leading(l, ' ');
        let sp = repeat_char(' ', c);
        let o = sp + t;
        lemma_count_leading_bound(l, ' ');
        assert(format_standard_line_spec(l) == o);
        if space_indented(l) {
            assert(l =~= sp + l.subrange(c as int, l.len() as int));
        }
        crate::org_round_trip::lemma_trim_start_first(l);
        crate::text::lemma_trim_start_is(l);
        let k0 = choose|k: int| 0 <= k <= l.len() && trim_start(l) == l.subrange(k, l.len() as int)
            && (forall|j: int| 0 <= j < k ==> is_ws(#[trigger] l[j])) && (k < l.len() ==> !is_ws(l[k]));
        assert forall|j: int| 0 <= j < sp.len() implies is_ws(#[trigger] sp[j]) by {}
        crate::org_laws::lemma_trim_start_skip(sp, t);
        assert(trim_start(t) == t) by {
            if t.len() > 0 {
                assert(!is_ws(t[0]));
            }
        }
        assert(trim_start(o) == t);
        lemma_count_leading_run(' ', c, t);
        assert(count_leading(t, ' ') == 0) by {
            if t.len() > 0 {
                assert(!is_ws(t[0]));
            }
        }
        assert(count_leading(o, ' ') == c);
        assert(o.subrange(c as int, o.len() as int) =~= t);
        assert forall|j: int| 0 <= j < o.len() implies o[j] != '\n' && o[j] != '\r' by {
            if j >= c {
                assert(o[j] == t[j - c]);
                assert(t[j - c] == l[k0 + j - c]);
            }
        }
    }
}

/// The formatted lines of text without tables: each line formatted alone.
proof fn lemma_format_lines_plain(ls: Seq<Seq<char>>, i: int)
    requires
        0 <= i <= ls.len(),
        forall|k: int| 0 <= k < ls.len() ==> !is_table_line_spec(#[trigger] ls[k]),
    ensures
        format_lines_from(ls, i) == ls.subrange(i, ls.len() as int).map_values(|l: Seq<char>| format_standard_line_spec(l)),
    decreases ls.len() - i,
{
    if i < ls.len() {
        lemma_format_lines_plain(ls, i + 1);
        assert(!is_table_line_spec(ls[i]));
        assert(ls.subrange(i, ls.len() as int).map_values(|l: Seq<char>| format_standard_line_spec(l)) =~= seq![
            format_standard_line_spec(ls[i]),
        ] + ls.subrange(i + 1, ls.len() as int).map_values(|l: Seq<char>| format_standard_line_spec(l)));
    } else {
        assert(ls.subrange(i, ls.len() as int).map_values(|l: Seq<char>| format_standard_line_spec(l)) =~= Seq::<Seq<char>>::empty());
    }
}

/// Formatting a note without tables whose lines are indented by spaces
/// only: every line is formatted alone (a heading of `k` stars gets
/// `2 * (k - 1)` spaces, its stars, one space and its trimmed text; any
/// other line stays as it is), the note keeps its number of lines and its
/// final line feed, and formatting the result again changes nothing.
pub proof fn lemma_format_document(text: Seq<char>)
    requires
        forall|i: int| 0 <= i < text.len() ==> text[i] != '\r',
        forall|k: int| 0 <= k < lines(text).len() ==> !is_table_line_spec(#[trigger] lines(text)[k]),
        forall|k: int| 0 <= k < lines(text).len() ==> space_indented(#[trigger] lines(text)[k]),
    ensures
        lines(format_document_spec(text)) == lines(text).map_values(|l: Seq<char>| format_standard_line_spec(l)),
        ends_with_newline(format_document_spec(text)) == ends_with_newline(text),
        forall|k: int| 0 <= k < lines(text).len() && (trim_start(lines(text)[k]).len() == 0 || trim_start(lines(text)[k])[0] != '*')
            ==> #[trigger] format_standard_line_spec(lines(text)[k]) == lines(text)[k],
        format_document_spec(format_document_spec(text)) == format_document_spec(text),
{
    let ls = lines(text);
    let f = |l: Seq<char>| format_standard_line_spec(l);
    let fl = ls.map_values(f);
    lemma_lines_no_breaks(text);
    lemma_format_lines_plain(ls, 0);
    assert(ls.subrange(0, ls.len() as int) =~= ls);
    assert(format_lines_from(ls, 0) == fl);
    assert forall|k: int| 0 <= k < ls.len() implies crate::md_laws::no_breaks(#[trigger] fl[k]) && f(fl[k]) == fl[k]
        && !is_table_line_spec(fl[k]) && space_indented(fl[k]) && (fl[k].len() == 0 <==> ls[k].len() == 0)
        && ((trim_start(ls[k]).len() == 0 || trim_start(ls[k])[0] != '*') ==> fl[k] == ls[k]) by {
        lemma_format_line(ls[k]);
    }
    assert forall|k: int| 0 <= k < ls.len() && (trim_start(ls[k]).len() == 0 || trim_start(ls[k])[0] != '*')
        implies #[trigger] format_standard_line_spec(ls[k]) == ls[k] by {
        lemma_format_line(ls[k]);
    }
    let out = format_document_spec(text);
    assert(out == rejoin(fl, text));
    if ls.len() == 0 {
        assert(text.len() == 0) by {
            if text.len() > 0 {
                crate::text::lemma_find_char_bounds(text, '\n');
            }
        }
        assert(fl =~= Seq::<Seq<char>>::empty());
        assert(out =~= Seq::<char>::empty());
        assert(lines(out) =~= Seq::<Seq<char>>::empty());
        assert(lines(out).map_values(f) =~= Seq::<Seq<char>>::empty());
        assert(format_lines_from(lines(out), 0) =~= Seq::<Seq<char>>::empty());
    } else {
        if !ends_with_newline(text) {
            crate::org_laws::lemma_join_lines(text);
            assert(ls.last() == ls[ls.len() - 1]);
            assert(fl.last() == fl[fl.len() - 1]);
        }
        lemma_lines_of_rejoin(fl, text);
        assert(lines(out) == fl);
        assert forall|k: int| 0 <= k < fl.len() implies !is_table_line_spec(#[trigger] fl[k]) by {}
        lemma_format_lines_plain(fl, 0);
        assert(fl.subrange(0, fl.len() as int) =~= fl);
        assert(fl.map_values(f) =~= fl);
        assert(format_document_spec(out) == rejoin(fl, out));
        assert(rejoin(fl, out) == rejoin(fl, text));
    }
}

/// Formatted lines, each already in its formatted form, written out and
/// formatted again come back the same.
proof fn lemma_format_rejoined(fl: Seq<Seq<char>>, text: Seq<char>)
    requires
        forall|k: int| 0 <= k < fl.len() ==> crate::md_laws::no_breaks(#[trigger] fl[k])
            && format_standard_line_spec(fl[k]) == fl[k] && !is_table_line_spec(fl[k]),
    ensures
        format_document_spec(rejoin(fl, text)) == rejoin(fl, text),
{
    let f = |l: Seq<char>| format_standard_line_spec(l);
    let out = rejoin(fl, text);
    if fl.len() == 0 {
        assert(join(fl, seq!['\n']) =~= Seq::<char>::empty());
        if ends_with_newline(text) {
            assert(out =~= seq!['\n']);
            crate::md_laws::lemma_terminated_cons(seq![Seq::<char>::empty()]);
            assert(seq![Seq::<char>::empty()].drop_first() =~= Seq::<Seq<char>>::empty());
            assert(crate::records::terminated(Seq::<Seq<char>>::empty()) =~= Seq::<char>::empty());
            assert(crate::records::terminated(seq![Seq::<char>::empty()]) =~= seq!['\n']);
            crate::md_laws::lemma_lines_terminated(seq![Seq::<char>::empty()]);
            assert(lines(out) =~= seq![Seq::<char>::empty()]);
            lemma_format_lines_plain(lines(out), 0);
            assert(lines(out).subrange(0, 1) =~= lines(out));
            assert(format_standard_line_spec(Seq::<char>::empty()) =~= Seq::<char>::empty());
            assert(lines(out).map_values(f) =~= seq![Seq::<char>::empty()]);
            assert(join(seq![Seq::<char>::empty()], seq!['\n']) =~= Seq::<char>::empty());
        } else {
            assert(out =~= Seq::<char>::empty());
            assert(lines(out) =~= Seq::<Seq<char>>::empty());
            assert(format_lines_from(lines(out), 0) =~= Seq::<Seq<char>>::empty());
        }
    } else if ends_with_newline(text) || fl.last().len() > 0 {
        lemma_lines_of_rejoin(fl, text);
        lemma_format_lines_plain(fl, 0);
        assert(fl.subrange(0, fl.len() as int) =~= fl);
        assert(fl.map_values(f) =~= fl);
        assert(format_document_spec(out) == rejoin(fl, out));
    } else {
        // the last line is empty and no line feed follows it
        let pre = fl.drop_last();
        assert(fl.last() =~= Seq::<char>::empty());
        assert(fl =~= pre.push(fl.last()));
        assert(out =~= join(fl, seq!['\n']));
        if pre.len() == 0 {
            assert(out =~= Seq::<char>::empty());
            assert(lines(out) =~= Seq::<Seq<char>>::empty());
            assert(format_lines_from(lines(out), 0) =~= Seq::<Seq<char>>::empty());
            assert(join(Seq::<Seq<char>>::empty(), seq!['\n']) =~= Seq::<char>::empty());
        } else {
            assert(join(fl, seq!['\n']) == join(pre, seq!['\n']) + seq!['\n'] + Seq::<char>::empty());
            crate::org_laws::lemma_terminated_join(pre);
            assert(out =~= crate::records::terminated(pre));
            assert forall|k: int| 0 <= k < pre.len() implies crate::md_laws::no_breaks(#[trigger] pre[k])
                && !is_table_line_spec(pre[k]) && format_standard_line_spec(pre[k]) == pre[k] by {
                assert(pre[k] == fl[k]);
            }
            crate::md_laws::lemma_lines_terminated(pre);
            assert(lines(out) == pre);
            lemma_format_lines_plain(pre, 0);
            assert(pre.subrange(0, pre.len() as int) =~= pre);
            assert(pre.map_values(f) =~= pre);
            assert(ends_with_newline(out)) by {
                assert(out.last() == '\n');
            }
            assert(format_document_spec(out) == rejoin(pre, out));
        }
    }
}

/// Formatting a note without tables and without carriage returns twice
/// gives what formatting it once gives.
pub proof fn lemma_format_twice(text: Seq<char>)
    requires
        forall|i: int| 0 <= i < text.len() ==> text[i] != '\r',
        forall|k: int| 0 <= k < lines(text).len() ==> !is_table_line_spec(#[trigger] lines(text)[k]),
    ensures
        format_document_spec(format_document_spec(text)) == format_document_spec(text),
{
    let ls = lines(text);
    let f = |l: Seq<char>| format_standard_line_spec(l);
    let fl = ls.map_values(f);
    lemma_lines_no_breaks(text);
    lemma_format_lines_plain(ls, 0);
    assert(ls.subrange(0, ls.len() as int) =~= ls);
    assert forall|k: int| 0 <= k < fl.len() implies crate::md_laws::no_breaks(#[trigger] fl[k])
        && format_standard_line_spec(fl[k]) == fl[k] && !is_table_line_spec(fl[k]) by {
        lemma_format_line(ls[k]);
    }
    assert(format_document_spec(text) == rejoin(fl, text));
    lemma_format_rejoined(fl, text);
}

} // verus!
