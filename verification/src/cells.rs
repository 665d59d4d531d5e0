//! Rows of the `telemetry_bindings` table as database cells, in column order.

use vstd::prelude::*;

use crate::millis::Millis;
use crate::registry::{BindingView, TelemetryBinding};

verus! {

/// One cell of a row, by its storage class.
#[derive(Debug, PartialEq)]
pub enum Cell {
    Null,
    Integer(i64),
    Real(Millis),
    Text(String),
    Blob,
}

/// The mathematical value of a cell.
pub enum CellView {
    Null,
    Integer(i64),
    Real(Millis),
    Text(Seq<char>),
    Blob,
}

impl View for Cell {
    type V = CellView;

    open spec fn view(&self) -> CellView {
        match *self {
            Cell::Null => CellView::Null,
            Cell::Integer(n) => CellView::Integer(n),
            Cell::Real(x) => CellView::Real(x),
            Cell::Text(t) => CellView::Text(t@),
            Cell::Blob => CellView::Blob,
        }
    }
}

/// The values of a list of cells.
pub open spec fn cell_views(cells: Seq<Cell>) -> Seq<CellView> {
    cells.map_values(|cell: Cell| cell@)
}

/// A cell is missing or has the wrong storage class.
#[derive(Debug, Clone, Copy, PartialEq, Eq, Structural)]
pub struct RowError {
    pub column: usize,
}

/// How many columns a row has.
pub const COLUMNS: usize = 13;

/// Whether a cell has the storage class of its column: the two latencies are
/// reals or integers, the sizes, counts and flags integers, all else text.
pub open spec fn fits(cell: CellView, column: int) -> bool {
    if column == 5 || column == 6 {
        cell is Real || cell is Integer
    } else if column == 7 || column == 8 || column == 9 {
        cell is Integer
    } else {
        cell is Text
    }
}

/// Whether the cell of `column` is there and has the right storage class.
pub open spec fn column_ok(cells: Seq<CellView>, column: int) -> bool {
    column < cells.len() && fits(cells[column], column)
}

/// The latency that a cell holds.
pub open spec fn latency(cell: CellView) -> Millis {
    match cell {
        CellView::Integer(n) => Millis::of_integer(n as int),
        _ => cell->Real_0,
    }
}

/// The row that the cells hold.
pub open spec fn row_of_cells(cells: Seq<CellView>) -> BindingView {
    BindingView {
        workspace_key: cells[0]->Text_0,
        id: cells[1]->Text_0,
        canonical_node_id: cells[2]->Text_0,
        file_path: cells[3]->Text_0,
        function_name: cells[4]->Text_0,
        p50_ms: latency(cells[5]),
        p99_ms: latency(cells[6]),
        alloc_bytes: cells[7]->Integer_0,
        call_count: cells[8]->Integer_0,
        is_hotspot: cells[9]->Integer_0 != 0,
        environment: cells[10]->Text_0,
        created_at: cells[11]->Text_0,
        updated_at: cells[12]->Text_0,
    }
}

/// The cells that hold a row.
pub open spec fn cells_of_row(row: BindingView) -> Seq<CellView> {
    seq![
        CellView::Text(row.workspace_key),
        CellView::Text(row.id),
        CellView::Text(row.canonical_node_id),
        CellView::Text(row.file_path),
        CellView::Text(row.function_name),
        CellView::Real(row.p50_ms),
        CellView::Real(row.p99_ms),
        CellView::Integer(row.alloc_bytes),
        CellView::Integer(row.call_count),
        CellView::Integer(
            if row.is_hotspot {
                1
            } else {
                0
            },
        ),
        CellView::Text(row.environment),
        CellView::Text(row.created_at),
        CellView::Text(row.updated_at),
    ]
}

/// Reads a row from its cells.
///
/// Fails at the first column whose cell is missing or has the wrong storage
/// class. An integer in a latency column becomes the nearest number; every integer
/// but 0 sets the hotspot flag.
pub fn row_from_sql(cells: &Vec<Cell>) -> (r: Result<TelemetryBinding, RowError>)
    ensures
        match r {
            Ok(row) => {
                &&& forall|c: int| 0 <= c < COLUMNS ==> #[trigger] column_ok(cell_views(cells@), c)
                &&& row@ == row_of_cells(cell_views(cells@))
            },
            Err(e) => {
                &&& e.column < COLUMNS
                &&& !column_ok(cell_views(cells@), e.column as int)
                &&& forall|c: int|
                    0 <= c < e.column ==> #[trigger] column_ok(cell_views(cells@), c)
            },
        },
{
    let mut c: usize = 0;
    while c < COLUMNS
        invariant
            c <= COLUMNS,
            forall|k: int| 0 <= k < c ==> #[trigger] column_ok(cell_views(cells@), k),
        decreases COLUMNS - c,
    {
        if c >= cells.len() || !cell_fits(&cells[c], c) {
            return Err(RowError { column: c });
        }
        c += 1;
    }
    proof {
        let v = cell_views(cells@);
        assert(column_ok(v, 12));
        assert forall|k: int| 0 <= k < COLUMNS implies v[k] == cells@[k]@ && fits(
            (#[trigger] cells@[k])@,
            k,
        ) by {
            assert(column_ok(v, k));
        }
    }
    Ok(
        TelemetryBinding {
            workspace_key: text_of(&cells[0]),
            id: text_of(&cells[1]),
            canonical_node_id: text_of(&cells[2]),
            file_path: text_of(&cells[3]),
            function_name: text_of(&cells[4]),
            p50_ms: latency_of(&cells[5]),
            p99_ms: latency_of(&cells[6]),
            alloc_bytes: integer_of(&cells[7]),
            call_count: integer_of(&cells[8]),
            is_hotspot: integer_of(&cells[9]) != 0,
            environment: text_of(&cells[10]),
            created_at: text_of(&cells[11]),
            updated_at: text_of(&cells[12]),
        },
    )
}

/// Writes a row as its cells.
pub fn row_to_sql(row: &TelemetryBinding) -> (cells: Vec<Cell>)
    ensures
        cell_views(cells@) == cells_of_row(row@),
{
    let mut cells: Vec<Cell> = Vec::new();
    cells.push(Cell::Text(row.workspace_key.clone()));
    cells.push(Cell::Text(row.id.clone()));
    cells.push(Cell::Text(row.canonical_node_id.clone()));
    cells.push(Cell::Text(row.file_path.clone()));
    cells.push(Cell::Text(row.function_name.clone()));
    cells.push(Cell::Real(row.p50_ms));
    cells.push(Cell::Real(row.p99_ms));
    cells.push(Cell::Integer(row.alloc_bytes));
    cells.push(Cell::Integer(row.call_count));
    cells.push(
        Cell::Integer(
            if row.is_hotspot {
                1
            } else {
                0
            },
        ),
    );
    cells.push(Cell::Text(row.environment.clone()));
    cells.push(Cell::Text(row.created_at.clone()));
    cells.push(Cell::Text(row.updated_at.clone()));
    assert(cell_views(cells@) =~= cells_of_row(row@));
    cells
}

/// Whether a cell has the storage class of its column.
fn cell_fits(cell: &Cell, column: usize) -> (r: bool)
    ensures
        r == fits(cell@, column as int),
{
    match cell {
        Cell::Real(_) => column == 5 || column == 6,
        Cell::Integer(_) => 5 <= column && column <= 9,
        Cell::Text(_) => !(5 <= column && column <= 9),
        _ => false,
    }
}

/// The text of a cell.
fn text_of(cell: &Cell) -> (t: String)
    requires
        cell@ is Text,
    ensures
        t@ == cell@->Text_0,
{
    match cell {
        Cell::Text(t) => t.clone(),
        _ => String::new(),
    }
}

/// The latency of a cell.
fn latency_of(cell: &Cell) -> (x: Millis)
    requires
        cell@ is Real || cell@ is Integer,
    ensures
        x == latency(cell@),
{
    match cell {
        Cell::Real(x) => *x,
        Cell::Integer(n) => Millis::from_integer(*n),
        _ => Millis::from_bits(0),
    }
}

/// The integer of a cell.
fn integer_of(cell: &Cell) -> (n: i64)
    requires
        cell@ is Integer,
    ensures
        n == cell@->Integer_0,
{
    match cell {
        Cell::Integer(n) => *n,
        _ => 0,
    }
}

/// A row that is written as cells reads back as it was.
pub proof fn written_row_reads_back(row: BindingView)
    ensures
        forall|c: int| 0 <= c < COLUMNS ==> #[trigger] column_ok(cells_of_row(row), c),
        row_of_cells(cells_of_row(row)) == row,
{
}

/// The value of a cell is what the cell holds.
pub proof fn cell_value_is_what_it_holds(cell: Cell)
    ensures
        match cell {
            Cell::Null => cell@ is Null,
            Cell::Integer(n) => cell@ == CellView::Integer(n),
            Cell::Real(x) => cell@ == CellView::Real(x),
            Cell::Text(t) => cell@ == CellView::Text(t@),
            Cell::Blob => cell@ is Blob,
        },
{
}

/// The values of a list of cells are those of the cells, one by one.
pub proof fn cell_values_come_one_by_one(cells: Seq<Cell>)
    ensures
        cell_views(cells).len() == cells.len(),
        forall|i: int| 0 <= i < cells.len() ==> #[trigger] cell_views(cells)[i] == cells[i]@,
{
}

/// Every column of a row is written to the cell at its place in the table.
pub proof fn columns_are_written_in_order(row: BindingView)
    ensures
        cells_of_row(row).len() == 13,
        cells_of_row(row)[0] == CellView::Text(row.workspace_key),
        cells_of_row(row)[1] == CellView::Text(row.id),
        cells_of_row(row)[2] == CellView::Text(row.canonical_node_id),
        cells_of_row(row)[3] == CellView::Text(row.file_path),
        cells_of_row(row)[4] == CellView::Text(row.function_name),
        cells_of_row(row)[5] == CellView::Real(row.p50_ms),
        cells_of_row(row)[6] == CellView::Real(row.p99_ms),
        cells_of_row(row)[7] == CellView::Integer(row.alloc_bytes),
        cells_of_row(row)[8] == CellView::Integer(row.call_count),
        row.is_hotspot ==> cells_of_row(row)[9] == CellView::Integer(1),
        !row.is_hotspot ==> cells_of_row(row)[9] == CellView::Integer(0),
        cells_of_row(row)[10] == CellView::Text(row.environment),
        cells_of_row(row)[11] == CellView::Text(row.created_at),
        cells_of_row(row)[12] == CellView::Text(row.updated_at),
{
}

/// Every column of a row is read from the cell at its place in the table, whatever
/// the others hold.
pub proof fn columns_are_read_in_order(cells: Seq<CellView>, text: Seq<char>, n: i64, x: Millis)
    ensures
        cells[0] == CellView::Text(text) ==> row_of_cells(cells).workspace_key == text,
        cells[1] == CellView::Text(text) ==> row_of_cells(cells).id == text,
        cells[2] == CellView::Text(text) ==> row_of_cells(cells).canonical_node_id == text,
        cells[3] == CellView::Text(text) ==> row_of_cells(cells).file_path == text,
        cells[4] == CellView::Text(text) ==> row_of_cells(cells).function_name == text,
        cells[5] == CellView::Real(x) ==> row_of_cells(cells).p50_ms == x,
        cells[6] == CellView::Real(x) ==> row_of_cells(cells).p99_ms == x,
        cells[5] == CellView::Integer(n) ==> row_of_cells(cells).p50_ms == Millis::of_integer(
            n as int,
        ),
        cells[6] == CellView::Integer(n) ==> row_of_cells(cells).p99_ms == Millis::of_integer(
            n as int,
        ),
        cells[7] == CellView::Integer(n) ==> row_of_cells(cells).alloc_bytes == n,
        cells[8] == CellView::Integer(n) ==> row_of_cells(cells).call_count == n,
        cells[9] == CellView::Integer(n) ==> (row_of_cells(cells).is_hotspot <==> n != 0),
        cells[10] == CellView::Text(text) ==> row_of_cells(cells).environment == text,
        cells[11] == CellView::Text(text) ==> row_of_cells(cells).created_at == text,
        cells[12] == CellView::Text(text) ==> row_of_cells(cells).updated_at == text,
{
}

/// A cell fits its column exactly where it is text in columns 0 to 4 and 10 to 12, a
/// real or an integer in 5 and 6, and an integer in 7 to 9.
pub proof fn cells_fit_by_their_kind(cells: Seq<CellView>, column: int)
    requires
        0 <= column < 13,
    ensures
        column_ok(cells, column) <==> column < cells.len() && match cells[column] {
            CellView::Text(_) => column <= 4 || 10 <= column,
            CellView::Real(_) => column == 5 || column == 6,
            CellView::Integer(_) => 5 <= column <= 9,
            CellView::Null => false,
            CellView::Blob => false,
        },
{
}

} // verus!
