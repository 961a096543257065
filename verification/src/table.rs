//! Tables laid out as grids: the tracks, gaps and items that stand for a table's columns,
//! spacing and cells.

use vstd::prelude::*;

use crate::construct::CellPlace;
use crate::style::{layout_style, box_style_for, BorderLine, BorderSide, ComputedStyle, TableStyle};
use crate::tree::{BoxId, BoxStyle};
use crate::units::{fit, fitted, max, max_i32, Dimension, EdgeDimensions};

verus! {

/// The size of a column.
#[derive(Clone, Copy, PartialEq, Eq, Debug, Structural)]
pub enum Track {
    Auto,
    Length(i32),
    Percent(i32),
}

/// A cell as it was found.
#[derive(Clone, Copy, PartialEq, Eq, Debug, Structural)]
pub struct FoundCell {
    pub id: BoxId,
    pub style: ComputedStyle,
    pub place: CellPlace,
}

/// A cell as an item of the grid. Its column is left to automatic placement.
#[derive(Clone, Copy, PartialEq, Eq, Debug, Structural)]
pub struct TableCell {
    pub id: BoxId,
    pub style: BoxStyle,
    /// The grid line that the cell starts at.
    pub row: i16,
    pub rowspan: u16,
    pub colspan: u16,
}

/// The grid that stands for a table.
pub struct TableContext {
    pub style: BoxStyle,
    pub columns: Vec<Track>,
    pub rows: u32,
    pub gap_x: i32,
    pub gap_y: i32,
    pub cells: Vec<TableCell>,
}

/// The used width of a border.
pub open spec fn used_border(side: BorderSide) -> int {
    match side.line {
        BorderLine::Hidden => 0,
        BorderLine::Shown => side.width as int,
    }
}

fn used_border_of(side: BorderSide) -> (r: i32)
    ensures
        r == used_border(side),
{
    match side.line {
        BorderLine::Hidden => 0,
        BorderLine::Shown => side.width,
    }
}

/// The wider of a cell's borders in each axis.
pub open spec fn widest_borders(s: ComputedStyle) -> (int, int) {
    (
        max(used_border(s.borders.left), used_border(s.borders.right)),
        max(used_border(s.borders.top), used_border(s.borders.bottom)),
    )
}

/// The gaps between cells: the spacing of the table, or the borders of its first cell where
/// borders collapse.
pub open spec fn gaps(table: TableStyle, cells: Seq<FoundCell>) -> (int, int) {
    if !table.collapse {
        (table.spacing_x as int, table.spacing_y as int)
    } else if cells.len() > 0 {
        widest_borders(cells[0].style)
    } else {
        (0, 0)
    }
}

/// The column that a cell of the first row asks for: its width with its padding, where that
/// is a length; where it is a percentage, only a fixed table has it.
pub open spec fn column_of(s: ComputedStyle, fixed: bool) -> Track {
    let b = layout_style(s);
    match b.size.width {
        Dimension::Length(v) => Track::Length(
            fitted(v + b.padding.left.or_zero(None) + b.padding.right.or_zero(None)) as i32,
        ),
        Dimension::Percent(p) => if fixed {
            Track::Percent(p)
        } else {
            Track::Auto
        },
        _ => Track::Auto,
    }
}

fn find_column(s: &ComputedStyle, fixed: bool) -> (r: Track)
    ensures
        r == column_of(*s, fixed),
{
    let b: BoxStyle = box_style_for(s);
    match b.size.width {
        Dimension::Length(v) => {
            let left: i32 = b.padding.left.resolve_or_zero(None);
            let right: i32 = b.padding.right.resolve_or_zero(None);
            Track::Length(fit(v as i128 + left as i128 + right as i128))
        },
        Dimension::Percent(p) => if fixed {
            Track::Percent(p)
        } else {
            Track::Auto
        },
        _ => Track::Auto,
    }
}

/// The columns that the first `n` cells ask for.
pub open spec fn asked_columns(cells: Seq<FoundCell>, fixed: bool, n: int) -> Seq<Track>
    decreases n,
{
    if n <= 0 {
        Seq::empty()
    } else if cells[n - 1].place.row == 1 {
        asked_columns(cells, fixed, n - 1).push(column_of(cells[n - 1].style, fixed))
    } else {
        asked_columns(cells, fixed, n - 1)
    }
}

/// How many columns the cells of the row `row` span, among the first `n`.
pub open spec fn row_span(cells: Seq<FoundCell>, row: u32, n: int) -> int
    decreases n,
{
    if n <= 0 {
        0
    } else if cells[n - 1].place.row == row {
        row_span(cells, row, n - 1) + cells[n - 1].place.colspan
    } else {
        row_span(cells, row, n - 1)
    }
}

/// A list of columns cut, or filled up with automatic ones, to a number of them.
pub open spec fn resized(columns: Seq<Track>, count: int) -> Seq<Track> {
    Seq::new(
        count as nat,
        |k: int|
            if k < columns.len() {
                columns[k]
            } else {
                Track::Auto
            },
    )
}

/// No borders.
pub open spec fn zero_edges() -> EdgeDimensions {
    EdgeDimensions {
        left: Dimension::Length(0),
        right: Dimension::Length(0),
        top: Dimension::Length(0),
        bottom: Dimension::Length(0),
    }
}

/// A cell as an item of the grid: it has no width of its own, and no borders where they
/// collapse.
pub open spec fn grid_item(c: FoundCell, collapse: bool) -> TableCell {
    let b = layout_style(c.style);
    TableCell {
        id: c.id,
        style: BoxStyle {
            size: crate::units::Dimensions { width: Dimension::Auto, height: b.size.height },
            border: if collapse {
                zero_edges()
            } else {
                b.border
            },
            ..b
        },
        row: if c.place.row > i16::MAX {
            i16::MAX
        } else {
            c.place.row as i16
        },
        rowspan: c.place.rowspan,
        colspan: c.place.colspan,
    }
}

fn make_item(c: &FoundCell, collapse: bool) -> (r: TableCell)
    ensures
        r == grid_item(*c, collapse),
{
    let mut style: BoxStyle = box_style_for(&c.style);
    if collapse {
        style.border = EdgeDimensions {
            left: Dimension::Length(0),
            right: Dimension::Length(0),
            top: Dimension::Length(0),
            bottom: Dimension::Length(0),
        };
    }
    style.size.width = Dimension::Auto;
    TableCell {
        id: c.id,
        style,
        row: if c.place.row > i16::MAX as u32 {
            i16::MAX
        } else {
            c.place.row as i16
        },
        rowspan: c.place.rowspan,
        colspan: c.place.colspan,
    }
}

fn widest_borders_of(s: &ComputedStyle) -> (r: (i32, i32))
    ensures
        (r.0 as int, r.1 as int) == widest_borders(*s),
{
    (
        max_i32(used_border_of(s.borders.left), used_border_of(s.borders.right)),
        max_i32(used_border_of(s.borders.top), used_border_of(s.borders.bottom)),
    )
}

/// The grid is the one that stands for the table.
pub open spec fn stands_for(
    ctx: TableContext,
    table: ComputedStyle,
    cells: Seq<FoundCell>,
    rows: u32,
) -> bool {
    let (x, y) = gaps(table.table, cells);
    let b = layout_style(table);
    &&& ctx.rows == rows
    &&& ctx.gap_x == x
    &&& ctx.gap_y == y
    &&& ctx.columns@ == resized(
        asked_columns(cells, table.table.fixed, cells.len() as int),
        row_span(cells, rows, cells.len() as int),
    )
    &&& ctx.cells@ == cells.map_values(|c: FoundCell| grid_item(c, table.table.collapse))
    &&& ctx.style == BoxStyle {
        border: if table.table.collapse {
            EdgeDimensions {
                left: Dimension::Length(x as i32),
                right: Dimension::Length(x as i32),
                top: Dimension::Length(y as i32),
                bottom: Dimension::Length(y as i32),
            }
        } else {
            b.border
        },
        ..b
    }
}

/// The state of the walk over the cells of a table.
pub struct TableBuildState {
    pub table: TableStyle,
    pub columns: Vec<Track>,
    pub cells: Vec<TableCell>,
    pub first_borders: Option<(i32, i32)>,
}

impl TableBuildState {
    /// The state holds what the cells `seen` have given.
    pub open spec fn holds(&self, seen: Seq<FoundCell>) -> bool {
        &&& self.columns@ == asked_columns(seen, self.table.fixed, seen.len() as int)
        &&& self.cells@ == seen.map_values(|c: FoundCell| grid_item(c, self.table.collapse))
        &&& match self.first_borders {
            Some(b) => seen.len() > 0 && widest_borders(seen[0].style) == (b.0 as int, b.1 as int),
            None => seen.len() == 0,
        }
    }

    /// The walk has not begun.
    pub fn new(table: TableStyle) -> (r: TableBuildState)
        ensures
            r.table == table,
            r.holds(Seq::empty()),
    {
        let r = TableBuildState {
            table,
            columns: Vec::new(),
            cells: Vec::new(),
            first_borders: None,
        };
        assert(r.cells@ =~= Seq::<FoundCell>::empty().map_values(
            |c: FoundCell| grid_item(c, table.collapse),
        ));
        r
    }

    /// Takes in a cell. `seen` are those before it.
    fn push_cell(&mut self, c: &FoundCell, Ghost(seen): Ghost<Seq<FoundCell>>)
        requires
            old(self).holds(seen),
        ensures
            final(self).table == old(self).table,
            final(self).holds(seen.push(*c)),
    {
        let ghost next = seen.push(*c);
        if self.first_borders.is_none() {
            self.first_borders = Some(widest_borders_of(&c.style));
        }
        if c.place.row == 1 {
            let track: Track = find_column(&c.style, self.table.fixed);
            self.columns.push(track);
        }
        let item: TableCell = make_item(c, self.table.collapse);
        self.cells.push(item);
        proof {
            lemma_asked_prefix(seen, next, self.table.fixed, seen.len() as int);
            assert(next[seen.len() as int] == *c);
            let f = |f: FoundCell| grid_item(f, self.table.collapse);
            assert(next.map_values(f) =~= seen.map_values(f).push(f(*c)));
        }
    }
}

proof fn lemma_asked_prefix(a: Seq<FoundCell>, b: Seq<FoundCell>, fixed: bool, n: int)
    requires
        0 <= n <= a.len() <= b.len(),
        forall|k: int| 0 <= k < a.len() ==> #[trigger] b[k] == a[k],
    ensures
        asked_columns(b, fixed, n) == asked_columns(a, fixed, n),
    decreases n,
{
    if n > 0 {
        lemma_asked_prefix(a, b, fixed, n - 1);
        assert(b[n - 1] == a[n - 1]);
    }
}

fn count_columns(cells: &Vec<FoundCell>, row: u32) -> (r: u64)
    requires
        cells@.len() <= u32::MAX,
    ensures
        r == row_span(cells@, row, cells@.len() as int),
{
    let mut count: u64 = 0;
    let mut k: usize = 0;
    while k < cells.len()
        invariant
            k <= cells@.len() <= u32::MAX,
            count == row_span(cells@, row, k as int),
            count <= k * 0xffff,
        decreases cells.len() - k,
    {
        if cells[k].place.row == row {
            count = count + cells[k].place.colspan as u64;
        }
        k = k + 1;
    }
    count
}

/// The grid that stands for a table: the cells of its first row say what its columns are,
/// and those of its last row how many.
pub fn build_table_context(table: &ComputedStyle, cells: &Vec<FoundCell>, rows: u32) -> (r:
    TableContext)
    requires
        cells@.len() <= u32::MAX,
    ensures
        stands_for(r, *table, cells@, rows),
{
    let mut state = TableBuildState::new(table.table);
    let mut k: usize = 0;
    assert(cells@.take(0) =~= Seq::<FoundCell>::empty());
    while k < cells.len()
        invariant
            k <= cells@.len(),
            state.table == table.table,
            state.holds(cells@.take(k as int)),
        decreases cells.len() - k,
    {
        state.push_cell(&cells[k], Ghost(cells@.take(k as int)));
        assert(cells@.take(k + 1) =~= cells@.take(k as int).push(cells@[k as int]));
        k = k + 1;
    }
    assert(cells@.take(k as int) =~= cells@);
    let count: u64 = count_columns(cells, rows);
    let ghost asked = state.columns@;
    let mut columns: Vec<Track> = Vec::new();
    let mut c: u64 = 0;
    while c < count
        invariant
            c <= count,
            columns@.len() == c,
            state.columns@ == asked,
            forall|j: int|
                0 <= j < c ==> #[trigger] columns@[j] == if j < asked.len() {
                    asked[j]
                } else {
                    Track::Auto
                },
        decreases count - c,
    {
        let track: Track = if c < state.columns.len() as u64 {
            state.columns[c as usize]
        } else {
            Track::Auto
        };
        columns.push(track);
        c = c + 1;
    }
    assert(columns@ =~= resized(asked, count as int));
    let mut style: BoxStyle = box_style_for(table);
    let (x, y): (i32, i32) = if !table.table.collapse {
        (table.table.spacing_x, table.table.spacing_y)
    } else {
        match state.first_borders {
            Some(b) => b,
            None => (0, 0),
        }
    };
    if table.table.collapse {
        style.border = EdgeDimensions {
            left: Dimension::Length(x),
            right: Dimension::Length(x),
            top: Dimension::Length(y),
            bottom: Dimension::Length(y),
        };
    }
    TableContext { style, columns, rows, gap_x: x, gap_y: y, cells: state.cells }
}

/// The size of a table's scrolling content: no more than the table.
pub open spec fn capped(content: int, size: int) -> int {
    crate::units::min(content, size)
}

/// The size of a table's scrolling content. A table does not scroll, so it is no more than
/// the table itself.
pub fn cap_content_size(content: crate::units::Size, size: crate::units::Size) -> (r: crate::units::Size)
    ensures
        r.width == capped(content.width as int, size.width as int),
        r.height == capped(content.height as int, size.height as int),
{
    crate::units::Size {
        width: crate::units::min_i32(content.width, size.width),
        height: crate::units::min_i32(content.height, size.height),
    }
}

/// How a table becomes a grid. Every cell is an item at the grid line of its row, over the
/// rows and columns that it spans, without a width of its own. The gaps are the spacing of
/// the table; where borders collapse they are the wider borders of the first cell instead,
/// which the table has around it, and the cells have none.
pub proof fn cells_become_items_of_the_grid(
    ctx: TableContext,
    table: ComputedStyle,
    cells: Seq<FoundCell>,
    rows: u32,
    k: int,
)
    requires
        stands_for(ctx, table, cells, rows),
        0 <= k < cells.len(),
    ensures
        ctx.cells@.len() == cells.len(),
        ({
            let item = ctx.cells@[k];
            let found = cells[k];
            &&& item.id == found.id
            &&& found.place.row <= i16::MAX ==> item.row == found.place.row
            &&& item.rowspan == found.place.rowspan
            &&& item.colspan == found.place.colspan
            &&& item.style.size.width == Dimension::Auto
            &&& item.style.size.height == layout_style(found.style).size.height
            &&& table.table.collapse ==> item.style.border.left == Dimension::Length(0)
                && item.style.border.right == Dimension::Length(0) && item.style.border.top
                == Dimension::Length(0) && item.style.border.bottom == Dimension::Length(0)
            &&& !table.table.collapse ==> item.style.border == layout_style(found.style).border
            &&& item.style.padding == layout_style(found.style).padding
        }),
        !table.table.collapse ==> ctx.gap_x == table.table.spacing_x && ctx.gap_y
            == table.table.spacing_y,
        table.table.collapse ==> {
            let b = cells[0].style.borders;
            &&& b.left.line == BorderLine::Shown && b.right.line == BorderLine::Shown ==> ctx.gap_x
                == (if b.left.width >= b.right.width {
                b.left.width
            } else {
                b.right.width
            })
            &&& b.top.line == BorderLine::Shown && b.bottom.line == BorderLine::Shown ==> ctx.gap_y
                == (if b.top.width >= b.bottom.width {
                b.top.width
            } else {
                b.bottom.width
            })
            &&& ctx.style.border.left == Dimension::Length(ctx.gap_x)
            &&& ctx.style.border.top == Dimension::Length(ctx.gap_y)
        },
{
}

/// How many of the first `n` cells are in the first row.
pub open spec fn first_row_cells(cells: Seq<FoundCell>, n: int) -> int
    decreases n,
{
    if n <= 0 {
        0
    } else {
        first_row_cells(cells, n - 1) + (if cells[n - 1].place.row == 1 {
            1int
        } else {
            0
        })
    }
}

proof fn lemma_asked_columns(cells: Seq<FoundCell>, fixed: bool, n: int, k: int)
    requires
        0 <= k < n <= cells.len(),
    ensures
        asked_columns(cells, fixed, n).len() == first_row_cells(cells, n),
        0 <= first_row_cells(cells, k) <= first_row_cells(cells, n),
        cells[k].place.row == 1 ==> first_row_cells(cells, k) < first_row_cells(cells, n)
            && asked_columns(cells, fixed, n)[first_row_cells(cells, k)] == column_of(
            cells[k].style,
            fixed,
        ),
    decreases n,
{
    if k < n - 1 {
        lemma_asked_columns(cells, fixed, n - 1, k);
    } else if n > 1 {
        lemma_asked_columns(cells, fixed, n - 1, n - 2);
    } else {
        assert(asked_columns(cells, fixed, 0).len() == 0);
        assert(first_row_cells(cells, 0) == 0);
    }
}

/// The cells of the first row give the columns their sizes, one after the other: a width
/// that is a length is the size of the column with the paddings of the cell, a percentage
/// is one in a fixed table only, and anything else leaves the column to its content. Columns
/// past these are left to their content too.
pub proof fn the_first_row_sizes_the_columns(
    ctx: TableContext,
    table: ComputedStyle,
    cells: Seq<FoundCell>,
    rows: u32,
    k: int,
)
    requires
        stands_for(ctx, table, cells, rows),
        0 <= k < cells.len(),
        cells[k].place.row == 1,
        first_row_cells(cells, k) < ctx.columns@.len(),
    ensures
        ({
            let track = ctx.columns@[first_row_cells(cells, k)];
            let s = layout_style(cells[k].style);
            match (s.size.width, s.padding.left, s.padding.right) {
                (Dimension::Length(w), Dimension::Length(l), Dimension::Length(r)) => i32::MIN <= w
                    + l + r <= i32::MAX ==> track == Track::Length((w + l + r) as i32),
                (Dimension::Percent(p), _, _) => track == (if table.table.fixed {
                    Track::Percent(p)
                } else {
                    Track::Auto
                }),
                (Dimension::Auto, _, _) => track == Track::Auto,
                _ => true,
            }
        }),
{
    lemma_asked_columns(cells, table.table.fixed, cells.len() as int, k);
}

/// A table has as many columns as the cells of its last row span, and a cell more in that
/// row makes it wider by what the cell spans.
pub proof fn the_last_row_counts_the_columns(cells: Seq<FoundCell>, row: u32, n: int, k: int)
    requires
        0 <= k < n <= cells.len(),
    ensures
        row_span(cells, row, n) >= row_span(cells, row, n - 1),
        cells[n - 1].place.row == row ==> row_span(cells, row, n) == row_span(cells, row, n - 1)
            + cells[n - 1].place.colspan,
        cells[n - 1].place.row != row ==> row_span(cells, row, n) == row_span(cells, row, n - 1),
        cells[k].place.row == row ==> row_span(cells, row, n) >= cells[k].place.colspan,
    decreases n,
{
    if k < n - 1 {
        the_last_row_counts_the_columns(cells, row, n - 1, k);
    } else {
        lemma_span_is_positive(cells, row, n - 1);
    }
}

proof fn lemma_span_is_positive(cells: Seq<FoundCell>, row: u32, n: int)
    ensures
        row_span(cells, row, n) >= 0,
    decreases n,
{
    if n > 0 {
        lemma_span_is_positive(cells, row, n - 1);
    }
}

} // verus!
