//! HTML tables, built by the `build_html` crate.
//!
//! Verus does not look inside a `build_html::Table`. What this module says
//! of one is taken on trust from the crate's source: which rows it holds,
//! and the markup it renders them to.

use build_html::{Html, Table};
use vstd::prelude::*;

verus! {

/// `build_html::Table`, a table under construction. Nothing is said of
/// what is inside one but by the three names below.
#[verifier::external_type_specification]
#[verifier::external_body]
pub struct ExTable(build_html::Table);

/// The rows of the table's header, each as the texts of its cells.
pub uninterp spec fn table_header_rows(table: Table) -> Seq<Seq<Seq<char>>>;

/// The rows of the table's body, each as the texts of its cells.
pub uninterp spec fn table_body_rows(table: Table) -> Seq<Seq<Seq<char>>>;

/// The table holds nothing but those rows: no attributes, no footer, no
/// caption, and no row but of plain cells.
pub uninterp spec fn table_is_plain(table: Table) -> bool;

/// The texts of a row of cells.
pub open spec fn cell_texts(row: Seq<String>) -> Seq<Seq<char>> {
    Seq::new(row.len(), |i: int| row[i]@)
}

/// An element without attributes: `<tag/>` where it has no children, and
/// else its children between `<tag>` and `</tag>`.
pub open spec fn element_markup(tag: Seq<char>, children: Seq<Seq<char>>) -> Seq<char> {
    if children.len() == 0 {
        seq!['<'] + tag + seq!['/', '>']
    } else {
        seq!['<'] + tag + seq!['>'] + children.flatten() + seq!['<', '/'] + tag + seq!['>']
    }
}

/// A row of cells: a `tr` element of one `cell_tag` element for each text.
pub open spec fn row_markup(cell_tag: Seq<char>, cells: Seq<Seq<char>>) -> Seq<char> {
    element_markup(
        seq!['t', 'r'],
        Seq::new(cells.len(), |i: int| element_markup(cell_tag, seq![cells[i]])),
    )
}

/// A part of a table: a `tag` element of one row for each of `rows`.
pub open spec fn section_markup(tag: Seq<char>, cell_tag: Seq<char>, rows: Seq<Seq<Seq<char>>>) -> Seq<
    char,
> {
    element_markup(tag, Seq::new(rows.len(), |i: int| row_markup(cell_tag, rows[i])))
}

/// A plain table: its header of `th` cells, then its body of `td` cells.
pub open spec fn table_markup(header: Seq<Seq<Seq<char>>>, body: Seq<Seq<Seq<char>>>) -> Seq<char> {
    element_markup(
        seq!['t', 'a', 'b', 'l', 'e'],
        seq![
            section_markup(seq!['t', 'h', 'e', 'a', 'd'], seq!['t', 'h'], header),
            section_markup(seq!['t', 'b', 'o', 'd', 'y'], seq!['t', 'd'], body),
        ],
    )
}

/// `Table::new` makes a table with an empty header and an empty body, and
/// nothing else.
#[verifier::external_body]
pub(crate) fn new_table() -> (table: Table)
    ensures
        table_is_plain(table),
        table_header_rows(table) == Seq::<Seq<Seq<char>>>::empty(),
        table_body_rows(table) == Seq::<Seq<Seq<char>>>::empty(),
{
    Table::new()
}

/// `Table::with_header_row` hands the table back with one more row at the
/// end of its header, of one cell for each text, and the rest as it was.
#[verifier::external_body]
pub(crate) fn with_header_row(table: Table, row: &Vec<String>) -> (extended: Table)
    ensures
        table_is_plain(extended) == table_is_plain(table),
        table_header_rows(extended) == table_header_rows(table).push(cell_texts(row@)),
        table_body_rows(extended) == table_body_rows(table),
{
    table.with_header_row(row)
}

/// `Table::add_body_row` puts one more row at the end of the table's body,
/// of one cell for each text, and leaves the rest as it was.
#[verifier::external_body]
pub(crate) fn add_body_row(table: &mut Table, row: &Vec<String>)
    ensures
        table_is_plain(*final(table)) == table_is_plain(*old(table)),
        table_header_rows(*final(table)) == table_header_rows(*old(table)),
        table_body_rows(*final(table)) == table_body_rows(*old(table)).push(cell_texts(row@)),
{
    table.add_body_row(row)
}

/// `Html::to_html_string` renders a table as a `table` element that holds
/// a `thead` and a `tbody`. A row is a `tr`, a header cell a `th` and a body
/// cell a `td` around its text as it is; an element without children is
/// written `<tag/>`.
#[verifier::external_body]
pub(crate) fn table_to_html(table: &Table) -> (html: String)
    ensures
        table_is_plain(*table) ==> html@ == table_markup(
            table_header_rows(*table),
            table_body_rows(*table),
        ),
{
    table.to_html_string()
}

} // verus!
