//! Results as a table.

use crate::text::{chars_of, texts};
use vstd::prelude::*;

verus! {

/// `prettytable::Table`, a table of printable cells. Nothing of its inside
/// is known here; what the library says of a table it says through
/// `table_rows` and `table_is_plain`.
#[verifier::external_type_specification]
#[verifier::external_body]
pub struct ExTable(prettytable::Table);

/// The cells of a table: for each row, the text of each cell, which is
/// the lines that the cell holds, joined by line feeds.
pub uninterp spec fn table_rows(table: prettytable::Table) -> Seq<Seq<Seq<char>>>;

/// Whether a table is plain: it has the default format and no title row,
/// and each of its cells was made from text alone, left-aligned, without
/// style and one column wide.
pub uninterp spec fn table_is_plain(table: prettytable::Table) -> bool;

/// A character that a cell must not hold: a line feed or a carriage
/// return, at which a cell's text would be cut into lines, or the escape
/// character, which begins a terminal escape.
pub open spec fn breaks_cell(c: char) -> bool {
    c == '\n' || c == '\r' || c == '\u{1b}'
}

/// A text that can stand in a cell as it is: one line, without escape.
pub open spec fn is_cell_text(text: Seq<char>) -> bool {
    forall|i: int| 0 <= i < text.len() ==> !breaks_cell(#[trigger] text[i])
}

/// Each text of a row can stand in a cell.
pub open spec fn is_row_text(cells: Seq<Seq<char>>) -> bool {
    forall|i: int| 0 <= i < cells.len() ==> is_cell_text(#[trigger] cells[i])
}

/// Each text of each row can stand in a cell.
pub open spec fn is_grid_text(grid: Seq<Seq<Seq<char>>>) -> bool {
    forall|i: int| 0 <= i < grid.len() ==> is_row_text(#[trigger] grid[i])
}

/// The text that a plain table with the given cells is printed as.
pub uninterp spec fn table_text(rows: Seq<Seq<Seq<char>>>) -> Seq<char>;

/// `prettytable::Table::new`: a table in the default format, without a
/// title row and without rows.
#[verifier::external_body]
fn table_new() -> (table: prettytable::Table)
    ensures
        table_is_plain(table),
        table_rows(table) == Seq::<Seq<Seq<char>>>::empty(),
{
    prettytable::Table::new()
}

/// `prettytable::Table::add_row` with a row of `prettytable::Cell::new`
/// cells: the row is appended after the rows that the table has, one
/// left-aligned cell without style for each text, and nothing else of the
/// table changes. `Cell::new` keeps the lines of a text and measures each
/// with a count of terminal escapes that can fail on an escape character;
/// for a text of one line without escape the cell holds the text as it is
/// and the measuring cannot fail, so only such texts are admitted.
#[verifier::external_body]
fn table_add_row(table: &mut prettytable::Table, cells: &Vec<String>)
    requires
        is_row_text(texts(cells@)),
    ensures
        table_is_plain(*final(table)) == table_is_plain(*old(table)),
        table_rows(*final(table)) == table_rows(*old(table)).push(texts(cells@)),
{
    let row = cells.iter().map(|text| prettytable::Cell::new(text)).collect();
    table.add_row(prettytable::Row::new(row));
}

/// `prettytable::Table::to_string`: the printed table. For a plain table
/// the text depends on nothing but the cells; it is given the name
/// `table_text`. Every cell of a table that was filled through
/// `table_add_row` is one line without escape, so the printing measures
/// and writes each cell without failing.
#[verifier::external_body]
fn table_to_string(table: &prettytable::Table) -> (text: String)
    requires
        table_is_plain(*table),
    ensures
        text@ == table_text(table_rows(*table)),
{
    table.to_string()
}

/// The value that a row gives for a header: the value of the first entry
/// under that key, or the empty text where the row has none.
pub open spec fn value_for(row: Seq<(Seq<char>, Seq<char>)>, header: Seq<char>) -> Seq<char>
    decreases row.len(),
{
    if row.len() == 0 {
        Seq::empty()
    } else if row[0].0 == header {
        row[0].1
    } else {
        value_for(row.drop_first(), header)
    }
}

/// The cells of a row of results: the component's name, or an empty cell,
/// and then the row's value for each header.
pub open spec fn result_cells(
    headers: Seq<Seq<char>>,
    name: Option<Seq<char>>,
    row: Seq<(Seq<char>, Seq<char>)>,
) -> Seq<Seq<char>> {
    seq![
        match name {
            Some(name) => name,
            None => Seq::empty(),
        },
    ] + Seq::new(headers.len(), |i: int| value_for(row, headers[i]))
}

/// One row of results as plain text: the name, and the values by key.
pub type ResultRow = (Option<Seq<char>>, Seq<(Seq<char>, Seq<char>)>);

/// The cells of a table of results: a first row of `#` and the headers,
/// then one row for each component that has any value.
pub open spec fn result_grid(headers: Seq<Seq<char>>, rows: Seq<ResultRow>) -> Seq<Seq<Seq<char>>>
    decreases rows.len(),
{
    if rows.len() == 0 {
        seq![seq!["#"@] + headers]
    } else {
        let before = result_grid(headers, rows.drop_last());
        if rows.last().1.len() == 0 {
            before
        } else {
            before.push(result_cells(headers, rows.last().0, rows.last().1))
        }
    }
}

/// The keys and values of a row as plain text.
pub open spec fn entries(row: Seq<(String, String)>) -> Seq<(Seq<char>, Seq<char>)> {
    Seq::new(row.len(), |i: int| (row[i].0@, row[i].1@))
}

/// The rows as plain text.
pub open spec fn result_rows(rows: Seq<(Option<String>, Vec<(String, String)>)>) -> Seq<ResultRow> {
    Seq::new(
        rows.len(),
        |i: int|
            (
                match rows[i].0 {
                    Some(name) => Some(name@),
                    None => None,
                },
                entries(rows[i].1@),
            ),
    )
}

/// The value that a row gives for a header.
fn lookup(row: &Vec<(String, String)>, header: &String) -> (value: String)
    ensures
        value@ == value_for(entries(row@), header@),
{
    let mut i: usize = 0;
    proof {
        assert(entries(row@).skip(0) =~= entries(row@));
    }
    while i < row.len()
        invariant
            i <= row.len(),
            value_for(entries(row@), header@) == value_for(entries(row@).skip(i as int), header@),
        decreases row.len() - i,
    {
        let ghost rest = entries(row@).skip(i as int);
        proof {
            assert(rest[0] == entries(row@)[i as int]);
            assert(rest.drop_first() =~= entries(row@).skip(i + 1));
        }
        if row[i].0 == *header {
            return row[i].1.clone();
        }
        i += 1;
    }
    proof {
        assert(entries(row@).skip(i as int).len() == 0);
    }
    String::new()
}

/// The text of each cell of each row.
pub open spec fn grid_texts(grid: Seq<Vec<String>>) -> Seq<Seq<Seq<char>>> {
    Seq::new(grid.len(), |i: int| texts(grid[i]@))
}

/// The cells of the table of results: a header row of `#` and the headers,
/// then for each component that has any value a row of its name and its
/// value under each header. A component without a name gets an empty name
/// cell, and a value that a component does not have an empty cell.
pub fn table_cells(headers: &Vec<String>, rows: &Vec<(Option<String>, Vec<(String, String)>)>) -> (grid:
    Vec<Vec<String>>)
    ensures
        grid_texts(grid@) == result_grid(texts(headers@), result_rows(rows@)),
{
    let mut grid: Vec<Vec<String>> = Vec::new();
    let mut title: Vec<String> = Vec::new();
    title.push("#".to_owned());
    let mut h: usize = 0;
    while h < headers.len()
        invariant
            h <= headers.len(),
            texts(title@) == seq!["#"@] + texts(headers@).take(h as int),
        decreases headers.len() - h,
    {
        let ghost before = texts(title@);
        title.push(headers[h].clone());
        proof {
            assert(texts(title@) =~= before.push(headers[h as int]@));
            assert(texts(headers@).take(h + 1) =~= texts(headers@).take(h as int).push(
                headers[h as int]@,
            ));
            assert(texts(title@) =~= seq!["#"@] + texts(headers@).take(h + 1));
        }
        h += 1;
    }
    proof {
        assert(texts(headers@).take(h as int) =~= texts(headers@));
        assert(result_rows(rows@).take(0) =~= Seq::<ResultRow>::empty());
    }
    grid.push(title);
    proof {
        assert(grid_texts(grid@) =~= seq![seq!["#"@] + texts(headers@)]);
    }
    let mut r: usize = 0;
    while r < rows.len()
        invariant
            r <= rows.len(),
            grid_texts(grid@) == result_grid(texts(headers@), result_rows(rows@).take(r as int)),
        decreases rows.len() - r,
    {
        proof {
            let next = result_rows(rows@).take(r + 1);
            assert(next.drop_last() =~= result_rows(rows@).take(r as int));
            assert(next.last() == result_rows(rows@)[r as int]);
        }
        if rows[r].1.len() > 0 {
            let mut cells: Vec<String> = Vec::new();
            match &rows[r].0 {
                Some(name) => cells.push(name.clone()),
                None => cells.push(String::new()),
            }
            let ghost first = texts(cells@);
            let mut c: usize = 0;
            while c < headers.len()
                invariant
                    c <= headers.len(),
                    r < rows.len(),
                    first.len() == 1,
                    texts(cells@) == first + Seq::new(
                        c as nat,
                        |i: int| value_for(entries(rows[r as int].1@), texts(headers@)[i]),
                    ),
                decreases headers.len() - c,
            {
                let ghost before = texts(cells@);
                let value = lookup(&rows[r].1, &headers[c]);
                cells.push(value);
                proof {
                    assert(texts(cells@) =~= before.push(value@));
                    assert(texts(cells@) =~= first + Seq::new(
                        (c + 1) as nat,
                        |i: int| value_for(entries(rows[r as int].1@), texts(headers@)[i]),
                    ));
                }
                c += 1;
            }
            let ghost before = grid_texts(grid@);
            proof {
                let wanted = result_cells(
                    texts(headers@),
                    result_rows(rows@)[r as int].0,
                    result_rows(rows@)[r as int].1,
                );
                assert(texts(cells@) =~= wanted);
            }
            grid.push(cells);
            proof {
                assert(grid_texts(grid@) =~= before.push(texts(grid[grid.len() - 1]@)));
            }
        }
        r += 1;
    }
    proof {
        assert(result_rows(rows@).take(r as int) =~= result_rows(rows@));
    }
    grid
}

/// Whether a text can stand in a cell as it is: it holds no line feed, no
/// carriage return and no escape character.
pub fn cell_is_plain(text: &str) -> (r: bool)
    ensures
        r == is_cell_text(text@),
{
    let chars = chars_of(text);
    let mut i: usize = 0;
    while i < chars.len()
        invariant
            i <= chars.len(),
            chars@ == text@,
            forall|t: int| 0 <= t < i ==> !breaks_cell(#[trigger] chars[t]),
        decreases chars.len() - i,
    {
        let c = chars[i];
        if c == '\n' || c == '\r' || c == '\u{1b}' {
            return false;
        }
        i += 1;
    }
    true
}

/// Whether each text of a row can stand in a cell.
pub fn row_is_plain(cells: &Vec<String>) -> (r: bool)
    ensures
        r == is_row_text(texts(cells@)),
{
    let mut i: usize = 0;
    while i < cells.len()
        invariant
            i <= cells.len(),
            forall|t: int| 0 <= t < i ==> is_cell_text(#[trigger] texts(cells@)[t]),
        decreases cells.len() - i,
    {
        assert(texts(cells@)[i as int] == cells[i as int]@);
        if !cell_is_plain(cells[i].as_str()) {
            return false;
        }
        i += 1;
    }
    true
}

/// Whether each text of each row can stand in a cell.
pub fn grid_is_plain(grid: &Vec<Vec<String>>) -> (r: bool)
    ensures
        r == is_grid_text(grid_texts(grid@)),
{
    let mut i: usize = 0;
    while i < grid.len()
        invariant
            i <= grid.len(),
            forall|t: int| 0 <= t < i ==> is_row_text(#[trigger] grid_texts(grid@)[t]),
        decreases grid.len() - i,
    {
        assert(grid_texts(grid@)[i as int] == texts(grid[i as int]@));
        if !row_is_plain(&grid[i]) {
            return false;
        }
        i += 1;
    }
    true
}

/// Prints the rows of cells as a table. Each cell has to be one line
/// without escape; `grid_is_plain` tests that.
pub fn render(grid: &Vec<Vec<String>>) -> (out: String)
    requires
        is_grid_text(grid_texts(grid@)),
    ensures
        out@ == table_text(grid_texts(grid@)),
{
    let mut table = table_new();
    let mut r: usize = 0;
    proof {
        assert(grid_texts(grid@).take(0) =~= Seq::<Seq<Seq<char>>>::empty());
    }
    while r < grid.len()
        invariant
            r <= grid.len(),
            is_grid_text(grid_texts(grid@)),
            table_is_plain(table),
            table_rows(table) == grid_texts(grid@).take(r as int),
        decreases grid.len() - r,
    {
        proof {
            assert(grid_texts(grid@)[r as int] == texts(grid[r as int]@));
        }
        table_add_row(&mut table, &grid[r]);
        proof {
            assert(grid_texts(grid@).take(r + 1) =~= grid_texts(grid@).take(r as int).push(
                texts(grid[r as int]@),
            ));
        }
        r += 1;
    }
    proof {
        assert(grid_texts(grid@).take(r as int) =~= grid_texts(grid@));
    }
    table_to_string(&table)
}

/// Prints results as a table: the cells of `table_cells`, laid out in
/// columns with borders. Gives `None`, and prints nothing, where a header,
/// a name or a value holds a line feed, a carriage return or an escape
/// character.
pub fn print_table(headers: Vec<String>, rows: Vec<(Option<String>, Vec<(String, String)>)>) -> (out:
    Option<String>)
    ensures
        out is Some <==> is_grid_text(result_grid(texts(headers@), result_rows(rows@))),
        out is Some ==> out->0@ == table_text(result_grid(texts(headers@), result_rows(rows@))),
{
    let grid = table_cells(&headers, &rows);
    if grid_is_plain(&grid) {
        Some(render(&grid))
    } else {
        None
    }
}

/// Whether a binary64 word is a finite number: its exponent field is not
/// all ones, so it is neither an infinity nor a NaN.
pub open spec fn word_is_finite(word: u64) -> bool {
    (word >> 52) & 0x7ff != 0x7ff
}

/// Whether both words of a point are finite numbers.
pub open spec fn point_is_finite(point: (u64, u64)) -> bool {
    word_is_finite(point.0) && word_is_finite(point.1)
}

/// The runs of finite points: going through the points, finite points are
/// collected into `current`, and every point that is not finite ends the
/// run collected so far, if there is one.
pub open spec fn segments(points: Seq<(u64, u64)>, current: Seq<(u64, u64)>) -> Seq<
    Seq<(u64, u64)>,
>
    decreases points.len(),
{
    if points.len() == 0 {
        if current.len() > 0 {
            seq![current]
        } else {
            Seq::empty()
        }
    } else if point_is_finite(points[0]) {
        segments(points.drop_first(), current.push(points[0]))
    } else if current.len() > 0 {
        seq![current] + segments(points.drop_first(), Seq::empty())
    } else {
        segments(points.drop_first(), Seq::empty())
    }
}

/// The points of each segment.
pub open spec fn segment_views(segments: Seq<Vec<(u64, u64)>>) -> Seq<Seq<(u64, u64)>> {
    Seq::new(segments.len(), |i: int| segments[i]@)
}

/// Whether a binary64 word is a finite number.
pub fn is_finite(word: u64) -> (r: bool)
    ensures
        r == word_is_finite(word),
{
    (word >> 52) & 0x7ff != 0x7ff
}

/// Cuts a curve into the pieces that can be drawn: the maximal runs of
/// points whose two coordinates are both finite, in order. Points are
/// pairs of binary64 words.
pub fn continuous_segments(points: &[(u64, u64)]) -> (r: Vec<Vec<(u64, u64)>>)
    ensures
        segment_views(r@) == segments(points@, Seq::empty()),
{
    let mut done: Vec<Vec<(u64, u64)>> = Vec::new();
    let mut current: Vec<(u64, u64)> = Vec::new();
    let mut i: usize = 0;
    proof {
        assert(points@.skip(0) =~= points@);
        assert(segment_views(done@) + segments(points@, current@) =~= segments(
            points@,
            Seq::empty(),
        ));
    }
    while i < points.len()
        invariant
            i <= points.len(),
            segments(points@, Seq::empty()) == segment_views(done@) + segments(
                points@.skip(i as int),
                current@,
            ),
        decreases points.len() - i,
    {
        let ghost rest = points@.skip(i as int);
        let ghost before = segment_views(done@);
        let ghost run = current@;
        proof {
            assert(rest[0] == points[i as int]);
            assert(rest.drop_first() =~= points@.skip(i + 1));
        }
        let p = points[i];
        if is_finite(p.0) && is_finite(p.1) {
            current.push(p);
            proof {
                assert(point_is_finite(rest[0]));
                assert(current@ == run.push(rest[0]));
                assert(segments(rest, run) == segments(rest.drop_first(), run.push(rest[0])));
            }
        } else if current.len() == 0 {
            proof {
                assert(!point_is_finite(rest[0]));
                assert(run =~= Seq::<(u64, u64)>::empty());
                assert(segments(rest, run) == segments(rest.drop_first(), Seq::empty()));
            }
        } else {
            done.push(current);
            current = Vec::new();
            proof {
                assert(!point_is_finite(rest[0]));
                assert(current@ =~= Seq::<(u64, u64)>::empty());
                assert(segments(rest, run) == seq![run] + segments(
                    rest.drop_first(),
                    Seq::empty(),
                ));
                assert(segment_views(done@) =~= before.push(run));
                assert(before + (seq![run] + segments(points@.skip(i + 1), Seq::empty()))
                    =~= before.push(run) + segments(points@.skip(i + 1), Seq::empty()));
            }
        }
        i += 1;
    }
    let ghost before = segment_views(done@);
    let ghost run = current@;
    if current.len() > 0 {
        done.push(current);
        proof {
            assert(segment_views(done@) =~= before + seq![run]);
        }
    } else {
        proof {
            assert(before + Seq::<Seq<(u64, u64)>>::empty() =~= before);
        }
    }
    done
}

} // verus!
