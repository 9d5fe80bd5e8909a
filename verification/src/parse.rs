//! Numeric input as text: which lines hold data, which fields they hold, and
//! what becomes of the numbers that the fields stand for.
//!
//! The kind of number is the caller's choice. Whether a field is such a
//! number is decided by that type alone; everything around that decision is
//! decided here.

use vstd::prelude::*;
use std::str::FromStr;
use crate::text::{chars_of, split, split_on, string_of, trim, trimmed, views};

verus! {

/// What is wrong with a line of input.
#[derive(Debug, PartialEq, Eq)]
pub enum ParseError {
    /// The field in column `column` of line `index` is no number. Nothing is
    /// read from an input that holds such a field.
    MalformedScalar { line: String, index: usize, column: usize },
    /// Line `index` of an input of pairs has not exactly two columns. The line
    /// is left out and the rest is read.
    MalformedRow { line: String, index: usize },
}

/// A `ParseError` with its line as characters.
pub enum Issue {
    MalformedScalar { line: Seq<char>, index: int, column: int },
    MalformedRow { line: Seq<char>, index: int },
}

impl View for ParseError {
    type V = Issue;

    open spec fn view(&self) -> Issue {
        match self {
            ParseError::MalformedScalar { line, index, column } => Issue::MalformedScalar {
                line: line@,
                index: *index as int,
                column: *column as int,
            },
            ParseError::MalformedRow { line, index } => Issue::MalformedRow {
                line: line@,
                index: *index as int,
            },
        }
    }
}

/// A line of input that holds data: its place among all lines, its text, and
/// its fields without the whitespace around them.
#[derive(Debug, PartialEq, Eq)]
pub struct Row {
    pub index: usize,
    pub line: String,
    pub cells: Vec<String>,
}

/// A `Row` with its texts as characters.
pub struct RowText {
    pub index: int,
    pub line: Seq<char>,
    pub cells: Seq<Seq<char>>,
}

impl View for Row {
    type V = RowText;

    open spec fn view(&self) -> RowText {
        RowText { index: self.index as int, line: self.line@, cells: strings(self.cells@) }
    }
}

/// The character sequences that the strings hold.
pub open spec fn strings(items: Seq<String>) -> Seq<Seq<char>> {
    Seq::new(items.len(), |i: int| items[i]@)
}

/// The rows as texts.
pub open spec fn row_texts(rows: Seq<Row>) -> Seq<RowText> {
    Seq::new(rows.len(), |i: int| rows[i]@)
}

/// The errors with their lines as characters.
pub open spec fn issues(errors: Seq<ParseError>) -> Seq<Issue> {
    Seq::new(errors.len(), |i: int| errors[i]@)
}

/// The pieces of `text` between the occurrences of `pattern`, each without
/// the whitespace around it.
pub open spec fn fields(text: Seq<char>, pattern: Seq<char>) -> Seq<Seq<char>> {
    Seq::new(split(text, pattern).len(), |i: int| trim(split(text, pattern)[i]))
}

/// The fields of a line: what stands between its commas, or the whole line.
pub open spec fn cells_of(line: Seq<char>, delimited: bool) -> Seq<Seq<char>> {
    if delimited {
        fields(line, seq![','])
    } else {
        seq![trim(line)]
    }
}

/// Line `i` holds data: it is not the header and it is not empty.
pub open spec fn is_read(lines: Seq<Seq<char>>, i: int, with_header: bool) -> bool {
    !(with_header && i == 0) && lines[i].len() > 0
}

/// The rows among the first `n` lines.
pub open spec fn rows_among(
    lines: Seq<Seq<char>>,
    with_header: bool,
    delimited: bool,
    n: int,
) -> Seq<RowText>
    decreases n,
{
    if n <= 0 {
        Seq::empty()
    } else {
        let before = rows_among(lines, with_header, delimited, n - 1);
        if is_read(lines, n - 1, with_header) {
            before.push(
                RowText { index: n - 1, line: lines[n - 1], cells: cells_of(lines[n - 1], delimited) },
            )
        } else {
            before
        }
    }
}

/// The rows of an input: its lines are what stands between line feeds, and
/// every line but the header and the empty ones is a row.
pub open spec fn rows_of(raw: Seq<char>, with_header: bool, delimited: bool) -> Seq<RowText> {
    let lines = split(raw, seq!['\n']);
    rows_among(lines, with_header, delimited, lines.len() as int)
}

/// The first of `parsed` that holds no value, or their number.
pub open spec fn first_failure<F>(parsed: Seq<Option<F>>, n: int) -> int
    decreases n,
{
    if n <= 0 {
        0
    } else {
        let before = first_failure(parsed, n - 1);
        if before < n - 1 || parsed[n - 1] is None {
            before
        } else {
            n
        }
    }
}

/// How many of the first `n` rows have exactly two fields.
pub open spec fn pair_count(rows: Seq<RowText>, n: int) -> int
    decreases n,
{
    if n <= 0 {
        0
    } else {
        pair_count(rows, n - 1) + if rows[n - 1].cells.len() == 2 {
            1int
        } else {
            0int
        }
    }
}

/// The first `n` rows that have not exactly two fields, as what is reported
/// of them.
pub open spec fn dropped_among(rows: Seq<RowText>, n: int) -> Seq<Issue>
    decreases n,
{
    if n <= 0 {
        Seq::empty()
    } else {
        let before = dropped_among(rows, n - 1);
        if rows[n - 1].cells.len() == 2 {
            before
        } else {
            before.push(Issue::MalformedRow { line: rows[n - 1].line, index: rows[n - 1].index })
        }
    }
}

/// How many of the first `n` rows have a field in column `ycol`.
pub open spec fn label_count(rows: Seq<RowText>, ycol: int, n: int) -> int
    decreases n,
{
    if n <= 0 {
        0
    } else {
        label_count(rows, ycol, n - 1) + if ycol < rows[n - 1].cells.len() {
            1int
        } else {
            0int
        }
    }
}

/// The number of fields of a row that are features: all but the label.
pub open spec fn feature_count(row: RowText, ycol: int) -> int {
    if ycol < row.cells.len() {
        row.cells.len() - 1
    } else {
        row.cells.len() as int
    }
}

/// The fields of each row as they were read.
pub open spec fn outcomes<F>(parsed: Seq<Vec<Option<F>>>) -> Seq<Seq<Option<F>>> {
    Seq::new(parsed.len(), |k: int| parsed[k]@)
}

/// One of the fields holds no value.
pub open spec fn has_failure<F>(fields: Seq<Option<F>>) -> bool {
    first_failure(fields, fields.len() as int) < fields.len()
}

/// The values that the fields hold.
pub open spec fn values_of<F>(fields: Seq<Option<F>>) -> Seq<F> {
    Seq::new(fields.len(), |c: int| fields[c]->0)
}

/// The first of the first `n` rows with a field that holds no value, or `n`.
pub open spec fn first_failed_row<F>(parsed: Seq<Seq<Option<F>>>, n: int) -> int
    decreases n,
{
    if n <= 0 {
        0
    } else {
        let before = first_failed_row(parsed, n - 1);
        if before < n - 1 || has_failure(parsed[n - 1]) {
            before
        } else {
            n
        }
    }
}

/// The first of the first `n` rows that has exactly two fields, one of which
/// holds no value, or `n`.
pub open spec fn first_failed_pair<F>(
    rows: Seq<RowText>,
    parsed: Seq<Seq<Option<F>>>,
    n: int,
) -> int
    decreases n,
{
    if n <= 0 {
        0
    } else {
        let before = first_failed_pair(rows, parsed, n - 1);
        if before < n - 1 || (rows[n - 1].cells.len() == 2 && has_failure(parsed[n - 1])) {
            before
        } else {
            n
        }
    }
}

/// The pairs of the first `n` rows: of each row of exactly two fields the
/// value of the first field and then that of the second, in the order of the
/// rows.
pub open spec fn pairs_among<F>(rows: Seq<RowText>, parsed: Seq<Seq<Option<F>>>, n: int) -> Seq<
    (F, F),
>
    decreases n,
{
    if n <= 0 {
        Seq::empty()
    } else {
        let before = pairs_among(rows, parsed, n - 1);
        if rows[n - 1].cells.len() == 2 {
            before.push((parsed[n - 1][0]->0, parsed[n - 1][1]->0))
        } else {
            before
        }
    }
}

/// The features of a row: its values without the one in column `ycol`.
pub open spec fn features_of<F>(values: Seq<F>, ycol: int) -> Seq<F> {
    if ycol < values.len() {
        values.remove(ycol)
    } else {
        values
    }
}

/// The labels of the first `n` rows: the value in column `ycol` of each row
/// that has such a column, in the order of the rows.
pub open spec fn labels_among<F>(parsed: Seq<Seq<Option<F>>>, ycol: int, n: int) -> Seq<F>
    decreases n,
{
    if n <= 0 {
        Seq::empty()
    } else {
        let before = labels_among(parsed, ycol, n - 1);
        if ycol < parsed[n - 1].len() {
            before.push(parsed[n - 1][ycol]->0)
        } else {
            before
        }
    }
}

/// `e` reports some field of `row` as no number.
pub open spec fn blames(e: Issue, row: RowText) -> bool {
    exists|c: int|
        0 <= c < row.cells.len() && e == (Issue::MalformedScalar {
            line: row.line,
            index: row.index,
            column: c,
        })
}

/// Calls `str::parse`, which hands the text to `F::from_str`. What comes back
/// is up to `F`, so nothing is said of it.
#[verifier::external_body]
fn parse_scalar<F: FromStr>(text: &str) -> (value: Option<F>) {
    text.parse::<F>().ok()
}

fn fields_of(text: &Vec<char>, pattern: &Vec<char>) -> (cells: Vec<String>)
    ensures
        strings(cells@) == fields(text@, pattern@),
{
    let pieces = split_on(text, pattern);
    let mut cells: Vec<String> = Vec::new();
    let mut i: usize = 0;
    while i < pieces.len()
        invariant
            i <= pieces.len(),
            views(pieces@) == split(text@, pattern@),
            cells@.len() == i,
            forall|k: int| 0 <= k < i ==> (#[trigger] cells@[k])@ == trim(views(pieces@)[k]),
        decreases pieces.len() - i,
    {
        let cell = trimmed(&pieces[i]);
        cells.push(string_of(&cell));
        i += 1;
    }
    assert(strings(cells@) =~= fields(text@, pattern@));
    cells
}

/// The rows of `raw`: every line but the header, if there is one, and the
/// empty lines, with its fields. The fields of a line are what stands between
/// its commas where `delimited` is set, and the whole line where it is not.
pub fn read_rows(raw: &str, with_header: bool, delimited: bool) -> (rows: Vec<Row>)
    ensures
        row_texts(rows@) == rows_of(raw@, with_header, delimited),
{
    let text = chars_of(raw);
    let mut feed: Vec<char> = Vec::new();
    feed.push('\n');
    let mut comma: Vec<char> = Vec::new();
    comma.push(',');
    assert(feed@ =~= seq!['\n']);
    assert(comma@ =~= seq![',']);
    let lines = split_on(&text, &feed);
    let ghost all = views(lines@);
    let mut rows: Vec<Row> = Vec::new();
    let mut i: usize = 0;
    while i < lines.len()
        invariant
            i <= lines.len(),
            all == views(lines@),
            comma@ == seq![','],
            row_texts(rows@) == rows_among(all, with_header, delimited, i as int),
        decreases lines.len() - i,
    {
        let line = &lines[i];
        if !(with_header && i == 0) && line.len() > 0 {
            let cells = if delimited {
                fields_of(line, &comma)
            } else {
                let whole = trimmed(line);
                let mut one: Vec<String> = Vec::new();
                one.push(string_of(&whole));
                assert(strings(one@) =~= seq![trim(line@)]);
                one
            };
            let row = Row { index: i, line: string_of(line), cells };
            assert(row_texts(rows@.push(row)) =~= row_texts(rows@).push(row@));
            rows.push(row);
        }
        i += 1;
    }
    rows
}

proof fn lemma_first_failure<F>(parsed: Seq<Option<F>>, n: int)
    requires
        0 <= n <= parsed.len(),
    ensures
        0 <= first_failure(parsed, n) <= n,
        forall|j: int| 0 <= j < first_failure(parsed, n) ==> (#[trigger] parsed[j]) is Some,
        first_failure(parsed, n) < n ==> parsed[first_failure(parsed, n)] is None,
    decreases n,
{
    if n > 0 {
        lemma_first_failure(parsed, n - 1);
    }
}

/// The values of a row whose fields were all read as numbers, in their
/// order; or, for the first field that was not, the report of it.
pub fn collect_row<F>(row: &Row, parsed: Vec<Option<F>>) -> (result: Result<Vec<F>, ParseError>)
    ensures
        match result {
            Ok(values) => {
                &&& first_failure(parsed@, parsed@.len() as int) == parsed@.len()
                &&& values@.len() == parsed@.len()
                &&& forall|j: int| 0 <= j < values@.len() ==> parsed@[j] == Some(#[trigger] values@[j])
            },
            Err(e) => {
                &&& first_failure(parsed@, parsed@.len() as int) < parsed@.len()
                &&& e@ == (Issue::MalformedScalar {
                    line: row@.line,
                    index: row@.index,
                    column: first_failure(parsed@, parsed@.len() as int),
                })
            },
        },
{
    let ghost all = parsed@;
    let mut values: Vec<F> = Vec::new();
    for item in it: parsed
        invariant
            it.seq() == all,
            values@.len() == it.index(),
            forall|j: int| 0 <= j < values@.len() ==> all[j] == Some(#[trigger] values@[j]),
    {
        match item {
            Some(value) => {
                values.push(value);
            },
            None => {
                let column = values.len();
                proof {
                    lemma_first_failure(all, all.len() as int);
                    let first = first_failure(all, all.len() as int);
                    assert(all[column as int] is None);
                    if first < column {
                        assert(all[first] == Some(values@[first]));
                    }
                    if first > column {
                        assert(all[column as int] is Some);
                    }
                }
                return Err(
                    ParseError::MalformedScalar { line: row.line.clone(), index: row.index, column },
                );
            },
        }
    }
    proof {
        lemma_first_failure(all, all.len() as int);
        let first = first_failure(all, all.len() as int);
        if first < all.len() {
            assert(all[first] == Some(values@[first]));
        }
    }
    Ok(values)
}

fn parse_fields<F: FromStr>(row: &Row) -> (parsed: Vec<Option<F>>)
    ensures
        parsed@.len() == row@.cells.len(),
{
    let mut parsed: Vec<Option<F>> = Vec::new();
    let mut i: usize = 0;
    while i < row.cells.len()
        invariant
            i <= row.cells.len(),
            parsed@.len() == i,
        decreases row.cells.len() - i,
    {
        parsed.push(parse_scalar::<F>(row.cells[i].as_str()));
        i += 1;
    }
    assert(row@.cells.len() == row.cells@.len());
    parsed
}

/// The numbers that the fields of `row` stand for.
///
/// Whether a field is a number is for `F` to say: a row without fields is
/// read, and an error blames a field of this row.
pub fn parse_row<F: FromStr>(row: &Row) -> (result: Result<Vec<F>, ParseError>)
    ensures
        match result {
            Ok(values) => values@.len() == row@.cells.len(),
            Err(e) => blames(e@, row@),
        },
{
    let parsed = parse_fields::<F>(row);
    proof {
        lemma_first_failure(parsed@, parsed@.len() as int);
    }
    collect_row(row, parsed)
}

/// The label of a row, which is the value in column `ycol` if the row has
/// one, and the other values in their order.
pub fn split_label<F>(values: Vec<F>, ycol: usize) -> (parts: (Vec<F>, Option<F>))
    ensures
        ycol < values@.len() ==> parts.1 == Some(values@[ycol as int]) && parts.0@
            == values@.remove(ycol as int),
        ycol >= values@.len() ==> parts.1 is None && parts.0@ == values@,
{
    let mut rest = values;
    if ycol < rest.len() {
        let label = rest.remove(ycol);
        (rest, Some(label))
    } else {
        (rest, None)
    }
}

/// The numbers between the occurrences of `sep` in `s`, each read without
/// the whitespace around it.
///
/// An error names `s` as the line, line 0, and the place of the field.
pub fn str_to_vector<F: FromStr>(s: &str, sep: &str) -> (result: Result<Vec<F>, ParseError>)
    ensures
        match result {
            Ok(values) => values@.len() == fields(s@, sep@).len(),
            Err(e) => blames(e@, RowText { index: 0, line: s@, cells: fields(s@, sep@) }),
        },
{
    let text = chars_of(s);
    let pattern = chars_of(sep);
    let cells = fields_of(&text, &pattern);
    let row = Row { index: 0, line: string_of(&text), cells };
    parse_row(&row)
}

proof fn lemma_first_failed_row<F>(parsed: Seq<Seq<Option<F>>>, n: int)
    requires
        0 <= n <= parsed.len(),
    ensures
        0 <= first_failed_row(parsed, n) <= n,
        forall|j: int| 0 <= j < first_failed_row(parsed, n) ==> !has_failure(#[trigger] parsed[j]),
        first_failed_row(parsed, n) < n ==> has_failure(parsed[first_failed_row(parsed, n)]),
    decreases n,
{
    if n > 0 {
        lemma_first_failed_row(parsed, n - 1);
    }
}

proof fn lemma_first_failed_pair<F>(rows: Seq<RowText>, parsed: Seq<Seq<Option<F>>>, n: int)
    requires
        0 <= n <= parsed.len(),
    ensures
        0 <= first_failed_pair(rows, parsed, n) <= n,
        forall|j: int|
            0 <= j < first_failed_pair(rows, parsed, n) && rows[j].cells.len() == 2 ==> !has_failure(
                #[trigger] parsed[j],
            ),
        first_failed_pair(rows, parsed, n) < n ==> {
            let k = first_failed_pair(rows, parsed, n);
            rows[k].cells.len() == 2 && has_failure(parsed[k])
        },
    decreases n,
{
    if n > 0 {
        lemma_first_failed_pair(rows, parsed, n - 1);
    }
}

/// There are as many pairs as rows of two fields.
proof fn lemma_pairs_among_len<F>(rows: Seq<RowText>, parsed: Seq<Seq<Option<F>>>, n: int)
    ensures
        pairs_among(rows, parsed, n).len() == pair_count(rows, n),
    decreases n,
{
    if n > 0 {
        lemma_pairs_among_len(rows, parsed, n - 1);
    }
}

/// There are as many labels as rows with a label column.
proof fn lemma_labels_among_len<F>(
    rows: Seq<RowText>,
    parsed: Seq<Seq<Option<F>>>,
    ycol: int,
    n: int,
)
    requires
        0 <= n <= rows.len(),
        forall|k: int| 0 <= k < n ==> (#[trigger] parsed[k]).len() == rows[k].cells.len(),
    ensures
        labels_among(parsed, ycol, n).len() == label_count(rows, ycol, n),
    decreases n,
{
    if n > 0 {
        lemma_labels_among_len(rows, parsed, ycol, n - 1);
        assert(parsed[n - 1].len() == rows[n - 1].cells.len());
    }
}

/// What an input of one number on each line gives, from what was read of
/// the one field of each row: the values in the order of the rows, or, for
/// the first row whose field is no number, the report of it.
pub fn collect_vector<F>(rows: &Vec<Row>, parsed: Vec<Option<F>>) -> (result: Result<
    Vec<F>,
    ParseError,
>)
    requires
        parsed@.len() == rows@.len(),
    ensures
        match result {
            Ok(values) => {
                &&& first_failure(parsed@, parsed@.len() as int) == parsed@.len()
                &&& values@.len() == parsed@.len()
                &&& forall|k: int|
                    0 <= k < values@.len() ==> parsed@[k] == Some(#[trigger] values@[k])
            },
            Err(e) => {
                let k = first_failure(parsed@, parsed@.len() as int);
                &&& k < parsed@.len()
                &&& e@ == (Issue::MalformedScalar {
                    line: rows@[k]@.line,
                    index: rows@[k]@.index,
                    column: 0,
                })
            },
        },
{
    let ghost all = parsed@;
    let mut values: Vec<F> = Vec::new();
    for item in it: parsed
        invariant
            it.seq() == all,
            all.len() == rows@.len(),
            values@.len() == it.index(),
            forall|j: int| 0 <= j < values@.len() ==> all[j] == Some(#[trigger] values@[j]),
    {
        match item {
            Some(value) => {
                values.push(value);
            },
            None => {
                let k = values.len();
                proof {
                    lemma_first_failure(all, all.len() as int);
                    let first = first_failure(all, all.len() as int);
                    assert(all[k as int] is None);
                    if first < k {
                        assert(all[first] == Some(values@[first]));
                    }
                    if first > k {
                        assert(all[k as int] is Some);
                    }
                }
                return Err(
                    ParseError::MalformedScalar {
                        line: rows[k].line.clone(),
                        index: rows[k].index,
                        column: 0,
                    },
                );
            },
        }
    }
    proof {
        lemma_first_failure(all, all.len() as int);
        let first = first_failure(all, all.len() as int);
        if first < all.len() {
            assert(all[first] == Some(values@[first]));
        }
    }
    Ok(values)
}

/// What an input of pairs gives, from what was read of the fields of each
/// row.
///
/// A row that has not exactly two fields is left out and reported beside the
/// pairs, whatever was read of it. Each other row gives the pair of its first
/// and its second value, in the order of the rows; or, for the first such row
/// with a field that is no number, the report of the first such field.
pub fn collect_pairs<F>(rows: &Vec<Row>, parsed: Vec<Vec<Option<F>>>) -> (result: Result<
    (Vec<(F, F)>, Vec<ParseError>),
    ParseError,
>)
    requires
        parsed@.len() == rows@.len(),
        forall|k: int|
            0 <= k < rows@.len() && rows@[k]@.cells.len() == 2 ==> (#[trigger] parsed@[k])@.len()
                == 2,
    ensures
        match result {
            Ok((pairs, dropped)) => {
                let n = rows@.len() as int;
                &&& first_failed_pair(row_texts(rows@), outcomes(parsed@), n) == n
                &&& pairs@ == pairs_among(row_texts(rows@), outcomes(parsed@), n)
                &&& issues(dropped@) == dropped_among(row_texts(rows@), n)
            },
            Err(e) => {
                let n = rows@.len() as int;
                let k = first_failed_pair(row_texts(rows@), outcomes(parsed@), n);
                &&& k < n
                &&& e@ == (Issue::MalformedScalar {
                    line: rows@[k]@.line,
                    index: rows@[k]@.index,
                    column: first_failure(parsed@[k]@, 2),
                })
            },
        },
{
    let ghost texts = row_texts(rows@);
    let ghost raw = parsed@;
    let ghost all = outcomes(parsed@);
    let ghost n = rows@.len() as int;
    let mut pairs: Vec<(F, F)> = Vec::new();
    let mut dropped: Vec<ParseError> = Vec::new();
    let mut k: usize = 0;
    for fields in it: parsed
        invariant
            it.seq() == raw,
            all == outcomes(raw),
            texts == row_texts(rows@),
            n == rows@.len() == raw.len(),
            forall|j: int| 0 <= j < n && texts[j].cells.len() == 2 ==> (#[trigger] raw[j])@.len() == 2,
            k == it.index(),
            forall|j: int| 0 <= j < k && texts[j].cells.len() == 2 ==> !has_failure(#[trigger] all[j]),
            pairs@ == pairs_among(texts, all, k as int),
            issues(dropped@) == dropped_among(texts, k as int),
    {
        assert(k < rows.len());
        let row = &rows[k];
        assert(texts[k as int] == row@);
        assert(row@.cells.len() == row.cells@.len());
        assert(all[k as int] == fields@);
        if row.cells.len() != 2 {
            let warning = ParseError::MalformedRow { line: row.line.clone(), index: row.index };
            assert(issues(dropped@.push(warning)) =~= issues(dropped@).push(warning@));
            dropped.push(warning);
        } else {
            assert(raw[k as int]@.len() == 2);
            match collect_row(row, fields) {
                Ok(values) => {
                    let mut values = values;
                    let second = values.pop();
                    let first = values.pop();
                    match (first, second) {
                        (Some(a), Some(b)) => {
                            pairs.push((a, b));
                        },
                        _ => {},
                    }
                },
                Err(e) => {
                    proof {
                        lemma_first_failed_pair(texts, all, n);
                        let first = first_failed_pair(texts, all, n);
                        assert(has_failure(all[k as int]));
                        if first < k {
                            assert(!has_failure(all[first]));
                        }
                    }
                    return Err(e);
                },
            }
        }
        k += 1;
    }
    proof {
        lemma_first_failed_pair(texts, all, n);
        let first = first_failed_pair(texts, all, n);
        if first < n {
            assert(!has_failure(all[first]));
        }
    }
    Ok((pairs, dropped))
}

/// What an input of feature rows gives, from what was read of the fields of
/// each row.
///
/// Each row gives a feature row: its values in their order, without the one
/// in column `ycol`. The labels are the values in column `ycol` of the rows
/// that have such a column, in the order of the rows. For the first row with
/// a field that is no number, the first such field is reported instead.
pub fn collect_matrix<F>(rows: &Vec<Row>, parsed: Vec<Vec<Option<F>>>, ycol: usize) -> (result:
    Result<(Vec<Vec<F>>, Vec<F>), ParseError>)
    requires
        parsed@.len() == rows@.len(),
    ensures
        match result {
            Ok((features, labels)) => {
                let n = rows@.len() as int;
                &&& first_failed_row(outcomes(parsed@), n) == n
                &&& features@.len() == n
                &&& forall|k: int|
                    0 <= k < n ==> (#[trigger] features@[k])@ == features_of(
                        values_of(outcomes(parsed@)[k]),
                        ycol as int,
                    )
                &&& labels@ == labels_among(outcomes(parsed@), ycol as int, n)
            },
            Err(e) => {
                let n = rows@.len() as int;
                let k = first_failed_row(outcomes(parsed@), n);
                &&& k < n
                &&& e@ == (Issue::MalformedScalar {
                    line: rows@[k]@.line,
                    index: rows@[k]@.index,
                    column: first_failure(parsed@[k]@, parsed@[k]@.len() as int),
                })
            },
        },
{
    let ghost raw = parsed@;
    let ghost all = outcomes(parsed@);
    let ghost n = rows@.len() as int;
    let mut features: Vec<Vec<F>> = Vec::new();
    let mut labels: Vec<F> = Vec::new();
    let mut k: usize = 0;
    for fields in it: parsed
        invariant
            it.seq() == raw,
            all == outcomes(raw),
            n == rows@.len() == raw.len(),
            k == it.index(),
            forall|j: int| 0 <= j < k ==> !has_failure(#[trigger] all[j]),
            features@.len() == k,
            forall|j: int|
                0 <= j < k ==> (#[trigger] features@[j])@ == features_of(
                    values_of(all[j]),
                    ycol as int,
                ),
            labels@ == labels_among(all, ycol as int, k as int),
    {
        assert(k < rows.len());
        assert(all[k as int] == fields@);
        match collect_row(&rows[k], fields) {
            Ok(values) => {
                assert(values@ =~= values_of(all[k as int]));
                let (rest, label) = split_label(values, ycol);
                match label {
                    Some(value) => {
                        labels.push(value);
                    },
                    None => {},
                }
                features.push(rest);
            },
            Err(e) => {
                proof {
                    lemma_first_failed_row(all, n);
                    let first = first_failed_row(all, n);
                    assert(has_failure(all[k as int]));
                    if first < k {
                        assert(!has_failure(all[first]));
                    }
                }
                return Err(e);
            },
        }
        k += 1;
    }
    proof {
        lemma_first_failed_row(all, n);
        let first = first_failed_row(all, n);
        if first < n {
            assert(!has_failure(all[first]));
        }
    }
    Ok((features, labels))
}

/// The numbers of an input that holds one on each line.
///
/// The first line is passed over where `with_header` is set, and so is every
/// empty line. A line that is no number ends the reading with a report of
/// it. Which lines are numbers is for `F` to say; what is returned for what
/// `F` says is the result of `collect_vector`.
pub fn to_vector<F: FromStr>(raw_inputs: &str, with_header: bool) -> (result: Result<
    Vec<F>,
    ParseError,
>)
    ensures
        match result {
            Ok(values) => values@.len() == rows_of(raw_inputs@, with_header, false).len(),
            Err(e) => exists|k: int|
                0 <= k < rows_of(raw_inputs@, with_header, false).len() && blames(
                    e@,
                    #[trigger] rows_of(raw_inputs@, with_header, false)[k],
                ),
        },
{
    let rows = read_rows(raw_inputs, with_header, false);
    let ghost texts = rows_of(raw_inputs@, with_header, false);
    let mut parsed: Vec<Option<F>> = Vec::new();
    let mut i: usize = 0;
    while i < rows.len()
        invariant
            i <= rows.len(),
            texts == row_texts(rows@),
            texts == rows_of(raw_inputs@, with_header, false),
            parsed@.len() == i,
        decreases rows.len() - i,
    {
        proof {
            lemma_rows_have_cells(raw_inputs@, with_header, false, i as int);
            assert(texts[i as int] == rows@[i as int]@);
            assert(rows@[i as int]@.cells.len() == rows@[i as int].cells@.len());
        }
        parsed.push(parse_scalar::<F>(rows[i].cells[0].as_str()));
        i += 1;
    }
    let ghost read = parsed@;
    let result = collect_vector(&rows, parsed);
    proof {
        assert(texts.len() == rows@.len());
        if result is Err {
            let k = first_failure(read, read.len() as int);
            lemma_first_failure(read, read.len() as int);
            lemma_rows_have_cells(raw_inputs@, with_header, false, k);
            assert(texts[k] == rows@[k]@);
            assert(blames(result->Err_0@, texts[k]));
        }
    }
    result
}

/// The pairs of an input that holds two numbers on each line, with a comma
/// between them, and what was left out.
///
/// Empty lines are passed over. A line that has not exactly two columns is
/// left out and reported beside the pairs, in the order of the lines. A field
/// that is no number ends the reading with a report of it. Which fields are
/// numbers is for `F` to say; what is returned for what `F` says is the
/// result of `collect_pairs`.
pub fn to_tuple<F: FromStr>(input: &str) -> (result: Result<
    (Vec<(F, F)>, Vec<ParseError>),
    ParseError,
>)
    ensures
        match result {
            Ok((pairs, dropped)) => {
                let rows = rows_of(input@, false, true);
                &&& pairs@.len() == pair_count(rows, rows.len() as int)
                &&& issues(dropped@) == dropped_among(rows, rows.len() as int)
            },
            Err(e) => exists|k: int|
                0 <= k < rows_of(input@, false, true).len() && (#[trigger] rows_of(
                    input@,
                    false,
                    true,
                )[k]).cells.len() == 2 && blames(e@, rows_of(input@, false, true)[k]),
        },
{
    let rows = read_rows(input, false, true);
    let ghost texts = rows_of(input@, false, true);
    let mut parsed: Vec<Vec<Option<F>>> = Vec::new();
    let mut i: usize = 0;
    while i < rows.len()
        invariant
            i <= rows.len(),
            texts == row_texts(rows@),
            parsed@.len() == i,
            forall|k: int|
                0 <= k < i && rows@[k]@.cells.len() == 2 ==> (#[trigger] parsed@[k])@.len() == 2,
        decreases rows.len() - i,
    {
        let fields = if rows[i].cells.len() == 2 {
            parse_fields::<F>(&rows[i])
        } else {
            Vec::new()
        };
        parsed.push(fields);
        i += 1;
    }
    let ghost read = parsed@;
    let result = collect_pairs(&rows, parsed);
    proof {
        let all = outcomes(read);
        let n = rows@.len() as int;
        lemma_pairs_among_len(texts, all, n);
        if result is Err {
            lemma_first_failed_pair(texts, all, n);
            let k = first_failed_pair(texts, all, n);
            assert(texts[k] == rows@[k]@);
            assert(all[k] == read[k]@);
            lemma_first_failure(all[k], 2);
        }
    }
    result
}

/// The feature rows and the labels of an input that holds numbers with
/// commas between them.
///
/// The first line is passed over where `with_header` is set, and so is every
/// empty line. Of each other line the number in column `ycol` goes to the
/// labels and the others, in their order, make up a feature row; a line that
/// has no such column gives a feature row and no label. A field that is no
/// number ends the reading with a report of it. Which fields are numbers is
/// for `F` to say; what is returned for what `F` says is the result of
/// `collect_matrix`.
pub fn to_matrix<F: FromStr>(raw_inputs: &str, ycol: usize, with_header: bool) -> (result: Result<
    (Vec<Vec<F>>, Vec<F>),
    ParseError,
>)
    ensures
        match result {
            Ok((features, labels)) => {
                let rows = rows_of(raw_inputs@, with_header, true);
                &&& features@.len() == rows.len()
                &&& forall|k: int|
                    0 <= k < rows.len() ==> (#[trigger] features@[k])@.len() == feature_count(
                        rows[k],
                        ycol as int,
                    )
                &&& labels@.len() == label_count(rows, ycol as int, rows.len() as int)
            },
            Err(e) => exists|k: int|
                0 <= k < rows_of(raw_inputs@, with_header, true).len() && blames(
                    e@,
                    #[trigger] rows_of(raw_inputs@, with_header, true)[k],
                ),
        },
{
    let rows = read_rows(raw_inputs, with_header, true);
    let ghost texts = rows_of(raw_inputs@, with_header, true);
    let mut parsed: Vec<Vec<Option<F>>> = Vec::new();
    let mut i: usize = 0;
    while i < rows.len()
        invariant
            i <= rows.len(),
            texts == row_texts(rows@),
            parsed@.len() == i,
            forall|k: int| 0 <= k < i ==> (#[trigger] parsed@[k])@.len() == rows@[k]@.cells.len(),
        decreases rows.len() - i,
    {
        parsed.push(parse_fields::<F>(&rows[i]));
        i += 1;
    }
    let ghost read = parsed@;
    let result = collect_matrix(&rows, parsed, ycol);
    proof {
        let all = outcomes(read);
        let n = rows@.len() as int;
        assert forall|k: int| 0 <= k < n implies (#[trigger] all[k]).len() == texts[k].cells.len() by {
            assert(all[k] == read[k]@);
            assert(texts[k] == rows@[k]@);
        }
        lemma_labels_among_len(texts, all, ycol as int, n);
        if result is Ok {
            let features = result->Ok_0.0;
            assert forall|k: int| 0 <= k < n implies (#[trigger] features@[k])@.len()
                == feature_count(texts[k], ycol as int) by {
                assert(all[k].len() == texts[k].cells.len());
            }
        } else {
            lemma_first_failed_row(all, n);
            let k = first_failed_row(all, n);
            assert(texts[k] == rows@[k]@);
            assert(all[k] == read[k]@);
            assert(all[k].len() == texts[k].cells.len());
            lemma_first_failure(all[k], all[k].len() as int);
        }
    }
    result
}

/// Where every row has a field in the label column, there is a label for
/// every feature row, and the two stand in the same order.
pub proof fn lemma_labels_align(rows: Seq<RowText>, ycol: int, n: int)
    requires
        0 <= n <= rows.len(),
        forall|k: int| 0 <= k < rows.len() ==> ycol < (#[trigger] rows[k]).cells.len(),
    ensures
        label_count(rows, ycol, n) == n,
    decreases n,
{
    if n > 0 {
        lemma_labels_align(rows, ycol, n - 1);
        assert(ycol < rows[n - 1].cells.len());
    }
}

/// Every row of an input of pairs is either read as a pair or left out.
pub proof fn lemma_pairs_or_dropped(rows: Seq<RowText>, n: int)
    requires
        0 <= n <= rows.len(),
    ensures
        pair_count(rows, n) + dropped_among(rows, n).len() == n,
    decreases n,
{
    if n > 0 {
        lemma_pairs_or_dropped(rows, n - 1);
    }
}

/// The rows stand in the order of their lines, and none of them is empty or
/// the header.
pub proof fn lemma_rows_in_line_order(
    lines: Seq<Seq<char>>,
    with_header: bool,
    delimited: bool,
    n: int,
)
    requires
        0 <= n <= lines.len(),
    ensures
        forall|k: int|
            0 <= k < rows_among(lines, with_header, delimited, n).len() ==> {
                let row = #[trigger] rows_among(lines, with_header, delimited, n)[k];
                &&& 0 <= row.index < n
                &&& is_read(lines, row.index, with_header)
                &&& row.line == lines[row.index]
                &&& row.cells == cells_of(row.line, delimited)
            },
        forall|j: int, k: int|
            0 <= j < k < rows_among(lines, with_header, delimited, n).len() ==> (
            #[trigger] rows_among(lines, with_header, delimited, n)[j]).index < (
            #[trigger] rows_among(lines, with_header, delimited, n)[k]).index,
    decreases n,
{
    if n > 0 {
        lemma_rows_in_line_order(lines, with_header, delimited, n - 1);
        let before = rows_among(lines, with_header, delimited, n - 1);
        let rows = rows_among(lines, with_header, delimited, n);
        assert forall|k: int| 0 <= k < rows.len() implies {
            let row = #[trigger] rows[k];
            &&& 0 <= row.index < n
            &&& is_read(lines, row.index, with_header)
            &&& row.line == lines[row.index]
            &&& row.cells == cells_of(row.line, delimited)
        } by {
            if k < before.len() {
                assert(rows[k] == before[k]);
            }
        }
        assert forall|j: int, k: int| 0 <= j < k < rows.len() implies (#[trigger] rows[j]).index < (
        #[trigger] rows[k]).index by {
            assert(rows[j] == before[j]);
            if k < before.len() {
                assert(rows[k] == before[k]);
            }
        }
    }
}

/// A row of an input that is not delimited has one field.
proof fn lemma_rows_have_cells(raw: Seq<char>, with_header: bool, delimited: bool, k: int)
    requires
        !delimited,
        0 <= k < rows_of(raw, with_header, delimited).len(),
    ensures
        rows_of(raw, with_header, delimited)[k].cells.len() == 1,
{
    let lines = split(raw, seq!['\n']);
    lemma_rows_among_cells(lines, with_header, lines.len() as int, k);
}

proof fn lemma_rows_among_cells(lines: Seq<Seq<char>>, with_header: bool, n: int, k: int)
    requires
        0 <= k < rows_among(lines, with_header, false, n).len(),
    ensures
        rows_among(lines, with_header, false, n)[k].cells.len() == 1,
    decreases n,
{
    if n > 0 {
        let before = rows_among(lines, with_header, false, n - 1);
        if k < before.len() {
            lemma_rows_among_cells(lines, with_header, n - 1, k);
        }
    }
}

} // verus!
