//! What the steps of construction say of tables: every cell that is reached through row
//! groups and rows gets one box, in document order, in the row that holds it.

use vstd::prelude::*;

use crate::construct::{
    content_flow, next_row, outside_marker_steps, plain, BoxDesc, CellPlace, Step, StyleOf,
    MAX_CONSTRUCT_DEPTH,
};
use crate::document::Styled;
use crate::dom::NodeKind;
use crate::style::{ComputedStyle, DisplayInside, DisplayOutside};
use crate::tree::BoxKind;

verus! {

/// The node is an element that is displayed, with the given inner display.
pub open spec fn shows_as(doc: Styled, n: int, inside: DisplayInside) -> bool {
    &&& doc.dom.nodes@[n].kind == NodeKind::Element
    &&& match doc.styles@[n].primary {
        Some(s) => s.display.outside != DisplayOutside::Absent && s.display.inside == inside,
        None => false,
    }
}

/// The node is a table row.
pub open spec fn is_row(doc: Styled, n: int) -> bool {
    shows_as(doc, n, DisplayInside::TableRow)
}

/// The node is a table cell that generates a box.
pub open spec fn is_cell(doc: Styled, n: int) -> bool {
    shows_as(doc, n, DisplayInside::TableCell) && !doc.is_hidden_control(n)
}

/// Cells are looked for among the children of the node: it is a row, a row group of any of
/// the three kinds, or stands for its children.
pub open spec fn holds_cells(doc: Styled, n: int) -> bool {
    shows_as(doc, n, DisplayInside::TableRow) || shows_as(doc, n, DisplayInside::TableRowGroup)
        || shows_as(doc, n, DisplayInside::TableHeaderGroup) || shows_as(
        doc,
        n,
        DisplayInside::TableFooterGroup,
    ) || shows_as(doc, n, DisplayInside::Contents)
}

/// The `k`th child of the node.
pub open spec fn child(doc: Styled, n: int, k: int) -> int {
    doc.dom.nodes@[n].flat_children@[k] as int
}

/// The numbers of children `path` lead down from the node, through nodes that cells are
/// looked for in.
pub open spec fn leads(doc: Styled, n: int, path: Seq<int>) -> bool
    decreases path.len(), 1int,
{
    path.len() == 0 || (holds_cells(doc, n) && leads_below(doc, n, path))
}

/// The numbers of children `path` lead to a node below the given one, through nodes in
/// between that cells are looked for in.
pub open spec fn leads_below(doc: Styled, n: int, path: Seq<int>) -> bool
    decreases path.len(), 0int,
{
    &&& path.len() > 0
    &&& 0 <= path[0] < doc.dom.nodes@[n].flat_children@.len()
    &&& leads(doc, child(doc, n, path[0]), path.skip(1))
}

/// The node that a path leads to.
pub open spec fn end(doc: Styled, n: int, path: Seq<int>) -> int
    decreases path.len(),
{
    if path.len() == 0 {
        n
    } else {
        end(doc, child(doc, n, path[0]), path.skip(1))
    }
}

/// The path leads to a row or a cell.
pub open spec fn is_mark(doc: Styled, n: int, path: Seq<int>) -> bool {
    is_row(doc, end(doc, n, path)) || is_cell(doc, end(doc, n, path))
}

/// What the first path leads to comes before what the second leads to: it holds it, or
/// stands before it.
pub open spec fn precedes(p: Seq<int>, q: Seq<int>) -> bool
    decreases p.len(),
{
    if q.len() == 0 {
        false
    } else if p.len() == 0 {
        true
    } else if p[0] != q[0] {
        p[0] < q[0]
    } else {
        precedes(p.skip(1), q.skip(1))
    }
}

/// The paths are in the order of the document, none of them twice.
pub open spec fn in_order(marks: Seq<Seq<int>>) -> bool {
    forall|i: int, j: int| 0 <= i < j < marks.len() ==> precedes(#[trigger] marks[i], #[trigger] marks[j])
}

/// How many of the first `m` marks are rows.
pub open spec fn rows_among(doc: Styled, n: int, marks: Seq<Seq<int>>, m: int) -> int
    decreases m,
{
    if m <= 0 {
        0
    } else {
        rows_among(doc, n, marks, m - 1) + (if is_row(doc, end(doc, n, marks[m - 1])) {
            1int
        } else {
            0
        })
    }
}

/// For each cell among the first `m` marks, where it goes and its box. Its row is the
/// number of rows that come before it, those of `row` others included.
pub open spec fn entries(
    doc: Styled,
    n: int,
    marks: Seq<Seq<int>>,
    row: int,
    d: int,
    m: int,
) -> Seq<Step>
    decreases m,
{
    if m <= 0 {
        Seq::empty()
    } else {
        let c = end(doc, n, marks[m - 1]);
        entries(doc, n, marks, row, d, m - 1) + (if is_cell(doc, c) {
            seq![
                Step::Cell(
                    CellPlace {
                        row: (row + rows_among(doc, n, marks, m - 1)) as u32,
                        colspan: doc.colspan(c),
                        rowspan: doc.rowspan(c),
                    },
                ),
            ] + doc.box_steps(c, d)
        } else {
            Seq::empty()
        })
    }
}

/// The path one step longer at its start.
spec fn led(k: int, path: Seq<int>) -> Seq<int> {
    seq![k] + path
}

spec fn all_led(k: int, marks: Seq<Seq<int>>) -> Seq<Seq<int>> {
    marks.map_values(|p: Seq<int>| led(k, p))
}

proof fn lemma_led(doc: Styled, n: int, k: int, path: Seq<int>)
    ensures
        led(k, path).skip(1) == path,
        led(k, path)[0] == k,
        end(doc, n, led(k, path)) == end(doc, child(doc, n, k), path),
        leads_below(doc, n, led(k, path)) <==> 0 <= k < doc.dom.nodes@[n].flat_children@.len()
            && leads(doc, child(doc, n, k), path),
{
    assert(led(k, path).skip(1) =~= path);
}

proof fn lemma_led_order(k: int, p: Seq<int>, q: Seq<int>)
    ensures
        precedes(led(k, p), led(k, q)) == precedes(p, q),
{
    assert(led(k, p).skip(1) =~= p);
    assert(led(k, q).skip(1) =~= q);
}

proof fn lemma_entries_led(
    doc: Styled,
    n: int,
    k: int,
    marks: Seq<Seq<int>>,
    row: int,
    d: int,
    m: int,
)
    requires
        0 <= m <= marks.len(),
    ensures
        rows_among(doc, n, all_led(k, marks), m) == rows_among(doc, child(doc, n, k), marks, m),
        entries(doc, n, all_led(k, marks), row, d, m) == entries(
            doc,
            child(doc, n, k),
            marks,
            row,
            d,
            m,
        ),
    decreases m,
{
    if m > 0 {
        lemma_entries_led(doc, n, k, marks, row, d, m - 1);
        lemma_led(doc, n, k, marks[m - 1]);
        assert(all_led(k, marks)[m - 1] == led(k, marks[m - 1]));
    }
}

proof fn lemma_entries_prefix(
    doc: Styled,
    n: int,
    a: Seq<Seq<int>>,
    b: Seq<Seq<int>>,
    row: int,
    d: int,
    m: int,
)
    requires
        0 <= m <= a.len(),
    ensures
        rows_among(doc, n, a + b, m) == rows_among(doc, n, a, m),
        entries(doc, n, a + b, row, d, m) == entries(doc, n, a, row, d, m),
    decreases m,
{
    if m > 0 {
        lemma_entries_prefix(doc, n, a, b, row, d, m - 1);
        assert((a + b)[m - 1] == a[m - 1]);
    }
}

proof fn lemma_entries_joined(
    doc: Styled,
    n: int,
    a: Seq<Seq<int>>,
    b: Seq<Seq<int>>,
    row: int,
    d: int,
    m: int,
)
    requires
        0 <= m <= b.len(),
    ensures
        rows_among(doc, n, a + b, a.len() + m) == rows_among(doc, n, a, a.len() as int)
            + rows_among(doc, n, b, m),
        entries(doc, n, a + b, row, d, a.len() + m) == entries(
            doc,
            n,
            a,
            row,
            d,
            a.len() as int,
        ) + entries(doc, n, b, row + rows_among(doc, n, a, a.len() as int), d, m),
    decreases m,
{
    if m > 0 {
        lemma_entries_joined(doc, n, a, b, row, d, m - 1);
        assert((a + b)[a.len() + m - 1] == b[m - 1]);
        let first = entries(doc, n, a, row, d, a.len() as int);
        let base = row + rows_among(doc, n, a, a.len() as int);
        let second = entries(doc, n, b, base, d, m - 1);
        let whole = entries(doc, n, b, base, d, m);
        assert(entries(doc, n, a + b, row, d, a.len() + m) =~= first + whole);
    } else {
        lemma_entries_prefix(doc, n, a, b, row, d, a.len() as int);
        assert(entries(doc, n, a, row, d, a.len() as int) + Seq::<Step>::empty() =~= entries(
            doc,
            n,
            a,
            row,
            d,
            a.len() as int,
        ));
    }
}

proof fn lemma_rows_grow(doc: Styled, n: int, marks: Seq<Seq<int>>, m: int)
    requires
        0 <= m,
    ensures
        0 <= rows_among(doc, n, marks, m) <= m,
    decreases m,
{
    if m > 0 {
        lemma_rows_grow(doc, n, marks, m - 1);
    }
}

proof fn lemma_ends(a: Step, x: Seq<Step>, y: Seq<Step>, z: Seq<Step>)
    requires
        z.len() > 0,
    ensures
        (seq![a] + x + y + z).len() > 0,
        (seq![a] + x + y + z)[0] == a,
        (seq![a] + x + y + z).last() == z.last(),
{
}

/// The steps of an element that is no leaf begin with its box and end with it.
proof fn lemma_open_ends(doc: Styled, i: int, d: int, s: ComputedStyle)
    requires
        0 <= i <= usize::MAX,
    ensures
        ({
            let steps = doc.open_steps(i, d, s);
            &&& steps.len() > 0
            &&& steps.last() == Step::Close
            &&& match steps[0] {
                Step::Open(desc) => desc.node == Some(i as usize) && desc.pseudo is None
                    && !desc.outside && desc.style == StyleOf::Element(i as usize),
                _ => false,
            }
        }),
{
    let own = plain(BoxKind::Block, Some(i as usize), StyleOf::Element(i as usize));
    let marker = doc.marker(i);
    let is_outside = doc.styles@[i].marker is Outside;
    let inside = if is_outside {
        None
    } else {
        marker
    };
    let lead = outside_marker_steps(i, is_outside, marker);
    match s.display.inside {
        DisplayInside::Flex | DisplayInside::Grid => {
            lemma_ends(
                Step::Open(BoxDesc { ordered: true, ..own }),
                lead,
                doc.flex_steps(i, inside, d + 1),
                seq![Step::Close],
            );
        },
        DisplayInside::Table => {
            lemma_ends(
                Step::Open(BoxDesc { kind: BoxKind::TableRoot, ..own }),
                lead,
                doc.table_steps(i, 0, Seq::empty(), 0, d + 1),
                seq![Step::Close],
            );
        },
        _ => if (s.display.inside is Flow || s.display.inside is FlowRoot) && (s.multicol.count
            is Some || s.multicol.width is Some) {
            let flow = seq![Step::Open(doc.flow_desc(i, inside, content_flow(i)))];
            let first = seq![Step::Open(BoxDesc { kind: BoxKind::MulticolRoot, ..own })];
            let content = doc.flow_steps(i, inside, d + 1);
            let z = seq![Step::Close, Step::Close];
            assert(first + lead + flow + content + z =~= first + lead + (flow + content) + z);
            lemma_ends(
                Step::Open(BoxDesc { kind: BoxKind::MulticolRoot, ..own }),
                lead,
                flow + content,
                z,
            );
        } else {
            lemma_ends(
                Step::Open(doc.flow_desc(i, inside, own)),
                lead,
                doc.flow_steps(i, inside, d + 1),
                seq![Step::Close],
            );
        },
    }
}

/// The box of an element: opened as its own, and closed last. An element generates one
/// unless it has no style, is not displayed, or is a hidden control.
pub proof fn an_element_opens_its_own_box(doc: Styled, i: int, d: int)
    requires
        doc.wf(),
        0 <= i < doc.len(),
    ensures
        (doc.box_steps(i, d).len() > 0) <==> (match doc.styles@[i].primary {
            Some(s) => s.display.inside != DisplayInside::Absent,
            None => false,
        }) && !doc.is_hidden_control(i),
        doc.box_steps(i, d).len() > 0 ==> {
            &&& doc.box_steps(i, d).last() == Step::Close
            &&& match doc.box_steps(i, d)[0] {
                Step::Open(desc) => desc.node == Some(i as usize) && desc.pseudo is None
                    && !desc.outside && desc.style == StyleOf::Element(i as usize),
                _ => false,
            }
        },
{
    assert(doc.len() == doc.dom.nodes.len());
    match doc.style(i) {
        Some(s) => {
            lemma_open_ends(doc, i, d, s);
        },
        None => {},
    }
}

/// What construction makes of a part of a table: one box for each cell that is reached
/// from it through rows, row groups of any of the three kinds, and nodes that stand for
/// their children, in the order of the document, each in the row whose number is that of
/// the rows that hold it or come before it; and no other box. `marks` are the rows and the
/// cells that are reached, and `row` is how many rows come before the part.
pub proof fn cells_of_a_part_are_built_in_order(doc: Styled, c: int, row: int, d: int) -> (marks: Seq<Seq<int>>)
    requires
        doc.wf(),
        0 <= c < doc.len(),
        row >= 0,
    ensures
        in_order(marks),
        forall|path: Seq<int>| #[trigger]
            marks.contains(path) <==> leads(doc, c, path) && is_mark(doc, c, path),
        row + rows_among(doc, c, marks, marks.len() as int) <= u32::MAX ==> {
            &&& doc.cell_steps(c, row, d) == entries(doc, c, marks, row, d, marks.len() as int)
            &&& doc.rows_after(c, row) == row + rows_among(doc, c, marks, marks.len() as int)
        },
        doc.rows_after(c, row) >= row,
    decreases doc.len() - c, doc.node(c).flat_children@.len() + 1,
{
    let own: Seq<int> = Seq::empty();
    if is_row(doc, c) {
        let inside = lemma_children(doc, c, 0, next_row(row), d);
        let marks = seq![own] + inside;
        assert forall|path: Seq<int>| #[trigger] marks.contains(path) <==> leads(doc, c, path)
            && is_mark(doc, c, path) by {
            if path.len() == 0 {
                assert(path =~= own);
                assert(marks[0] == path);
            } else {
                assert(path.len() > 0 && leads_below(doc, c, path) ==> path[0] >= 0);
                if marks.contains(path) {
                    let i = choose|i: int| 0 <= i < marks.len() && marks[i] == path;
                    assert(inside[i - 1] == path);
                    assert(inside.contains(path));
                }
                if inside.contains(path) {
                    let i = choose|i: int| 0 <= i < inside.len() && inside[i] == path;
                    assert(marks[i + 1] == path);
                }
            }
        }
        assert(in_order(marks)) by {
            assert forall|i: int, j: int| 0 <= i < j < marks.len() implies precedes(
                #[trigger] marks[i],
                #[trigger] marks[j],
            ) by {
                assert(marks[j] == inside[j - 1]);
                assert(inside.contains(inside[j - 1]));
                if i > 0 {
                    assert(marks[i] == inside[i - 1]);
                }
            }
        }
        lemma_rows_grow(doc, c, inside, inside.len() as int);
        lemma_entries_joined(doc, c, seq![own], inside, row, d, inside.len() as int);
        assert(seq![own][0] == own);
        assert(rows_among(doc, c, seq![own], 0) == 0);
        assert(rows_among(doc, c, seq![own], 1) == 1);
        assert(!is_cell(doc, c));
        assert(entries(doc, c, seq![own], row, d, 0) =~= Seq::<Step>::empty());
        assert(entries(doc, c, seq![own], row, d, 1) =~= Seq::<Step>::empty());
        assert(Seq::<Step>::empty() + entries(doc, c, inside, row + 1, d, inside.len() as int)
            =~= entries(doc, c, inside, row + 1, d, inside.len() as int));
        marks
    } else if holds_cells(doc, c) {
        let marks = lemma_children(doc, c, 0, row, d);
        assert forall|path: Seq<int>| #[trigger] marks.contains(path) <==> leads(doc, c, path)
            && is_mark(doc, c, path) by {
            assert(path.len() == 0 ==> !is_mark(doc, c, path));
        }
        marks
    } else {
        let marks = if is_cell(doc, c) {
            seq![own]
        } else {
            Seq::empty()
        };
        assert forall|path: Seq<int>| #[trigger] marks.contains(path) <==> leads(doc, c, path)
            && is_mark(doc, c, path) by {
            if path.len() == 0 {
                assert(path =~= own);
                if is_cell(doc, c) {
                    assert(marks[0] == path);
                }
            }
        }
        an_element_opens_its_own_box(doc, c, d);
        if is_cell(doc, c) {
            assert(marks[0] == own);
            assert(entries(doc, c, marks, row, d, 0) =~= Seq::<Step>::empty());
            assert(rows_among(doc, c, marks, 0) == 0);
            assert(entries(doc, c, marks, row, d, 1) =~= doc.cell_steps(c, row, d));
            assert(rows_among(doc, c, marks, 1) == 0);
        } else {
            assert(entries(doc, c, marks, row, d, 0) =~= doc.cell_steps(c, row, d));
        }
        marks
    }
}

/// The rows and cells below a part of a table, from its `k`th child on.
proof fn lemma_children(doc: Styled, c: int, k: int, row: int, d: int) -> (marks: Seq<Seq<int>>)
    requires
        doc.wf(),
        0 <= c < doc.len(),
        0 <= k <= doc.node(c).flat_children@.len(),
        row >= 0,
    ensures
        in_order(marks),
        forall|path: Seq<int>| #[trigger]
            marks.contains(path) <==> leads_below(doc, c, path) && path[0] >= k && is_mark(
                doc,
                c,
                path,
            ),
        row + rows_among(doc, c, marks, marks.len() as int) <= u32::MAX ==> {
            &&& doc.cells_inside(c, k, row, d) == entries(
                doc,
                c,
                marks,
                row,
                d,
                marks.len() as int,
            )
            &&& doc.rows_after_children(c, k, row) == row + rows_among(
                doc,
                c,
                marks,
                marks.len() as int,
            )
        },
        doc.rows_after_children(c, k, row) >= row,
    decreases doc.len() - c, doc.node(c).flat_children@.len() - k,
{
    assert(doc.dom.node_ok(c));
    let kids = doc.node(c).flat_children@;
    if k < kids.len() {
        let e = kids[k] as int;
        assert(c < kids[k] < doc.len());
        let one = cells_of_a_part_are_built_in_order(doc, e, row, d);
        let after = doc.rows_after(e, row);
        let rest = lemma_children(doc, c, k + 1, after, d);
        let first = all_led(k, one);
        let marks = first + rest;
        lemma_joined_marks(doc, c, k, one, rest);
        let n1 = one.len() as int;
        let n2 = rest.len() as int;
        lemma_rows_grow(doc, e, one, n1);
        lemma_rows_grow(doc, c, rest, n2);
        lemma_entries_led(doc, c, k, one, row, d, n1);
        lemma_entries_joined(doc, c, first, rest, row, d, n2);
        marks
    } else {
        let marks = Seq::<Seq<int>>::empty();
        assert(entries(doc, c, marks, row, d, 0) =~= doc.cells_inside(c, k, row, d));
        marks
    }
}

/// The marks of one child and those of the children that follow.
proof fn lemma_joined_marks(
    doc: Styled,
    c: int,
    k: int,
    one: Seq<Seq<int>>,
    rest: Seq<Seq<int>>,
)
    requires
        0 <= k < doc.node(c).flat_children@.len(),
        in_order(one),
        in_order(rest),
        forall|path: Seq<int>| #[trigger]
            one.contains(path) <==> leads(doc, child(doc, c, k), path) && is_mark(
                doc,
                child(doc, c, k),
                path,
            ),
        forall|path: Seq<int>| #[trigger]
            rest.contains(path) <==> leads_below(doc, c, path) && path[0] >= k + 1 && is_mark(
                doc,
                c,
                path,
            ),
    ensures
        in_order(all_led(k, one) + rest),
        forall|path: Seq<int>| #[trigger]
            (all_led(k, one) + rest).contains(path) <==> leads_below(doc, c, path) && path[0] >= k
                && is_mark(doc, c, path),
{
    let first = all_led(k, one);
    let marks = first + rest;
    let n1 = one.len() as int;
    assert forall|i: int, j: int| 0 <= i < j < marks.len() implies precedes(
        #[trigger] marks[i],
        #[trigger] marks[j],
    ) by {
        if j < n1 {
            assert(marks[i] == led(k, one[i]) && marks[j] == led(k, one[j]));
            assert(precedes(one[i], one[j]));
            lemma_led_order(k, one[i], one[j]);
        } else if i < n1 {
            assert(marks[i] == led(k, one[i]) && marks[j] == rest[j - n1]);
            assert(rest.contains(rest[j - n1]));
            assert(led(k, one[i])[0] == k);
        } else {
            assert(marks[i] == rest[i - n1] && marks[j] == rest[j - n1]);
        }
    }
    assert forall|path: Seq<int>| #[trigger]
        marks.contains(path) <==> leads_below(doc, c, path) && path[0] >= k && is_mark(
            doc,
            c,
            path,
        ) by {
        if marks.contains(path) {
            let i = choose|i: int| 0 <= i < marks.len() && marks[i] == path;
            if i < n1 {
                assert(path == led(k, one[i]));
                lemma_led(doc, c, k, one[i]);
                assert(one.contains(one[i]));
            } else {
                assert(path == rest[i - n1]);
                assert(rest.contains(path));
            }
        }
        if leads_below(doc, c, path) && path[0] >= k && is_mark(doc, c, path) {
            if path[0] == k {
                let below = path.skip(1);
                assert(led(k, below) =~= path);
                lemma_led(doc, c, k, below);
                assert(one.contains(below));
                let i = choose|i: int| 0 <= i < one.len() && one[i] == below;
                assert(marks[i] == path);
            } else {
                assert(rest.contains(path));
                let i = choose|i: int| 0 <= i < rest.len() && rest[i] == path;
                assert(marks[n1 + i] == path);
            }
        }
    }
}

/// The node is a part of a table by its inner display.
pub open spec fn is_table_part(doc: Styled, n: int) -> bool {
    match doc.styles@[n].primary {
        Some(s) => s.display.inside == DisplayInside::TableRowGroup || s.display.inside
            == DisplayInside::TableHeaderGroup || s.display.inside
            == DisplayInside::TableFooterGroup || s.display.inside == DisplayInside::TableRow
            || s.display.inside == DisplayInside::TableCell || s.display.inside
            == DisplayInside::Contents,
        None => false,
    }
}

/// Every child of the table is a part of it, or text of white space.
pub open spec fn has_no_loose_content(doc: Styled, i: int) -> bool {
    forall|k: int|
        0 <= k < doc.dom.nodes@[i].flat_children@.len() ==> is_table_part(
            doc,
            #[trigger] child(doc, i, k),
        ) || doc.dom.nodes@[child(doc, i, k)].is_blank()
}

proof fn lemma_table(doc: Styled, i: int, k: int, stray: Seq<usize>, row: int, d: int) -> (marks:
    Seq<Seq<int>>)
    requires
        doc.wf(),
        0 <= i < doc.len(),
        has_no_loose_content(doc, i),
        0 <= k <= doc.node(i).flat_children@.len(),
        forall|j: int| 0 <= j < stray.len() ==> doc.node(#[trigger] stray[j] as int).is_blank(),
        row >= 0,
    ensures
        in_order(marks),
        forall|path: Seq<int>| #[trigger]
            marks.contains(path) <==> leads_below(doc, i, path) && path[0] >= k && is_mark(
                doc,
                i,
                path,
            ),
        row + rows_among(doc, i, marks, marks.len() as int) <= u32::MAX ==> doc.table_steps(
            i,
            k,
            stray,
            row,
            d,
        ) == entries(doc, i, marks, row, d, marks.len() as int) + seq![
            Step::Rows((row + rows_among(doc, i, marks, marks.len() as int)) as u32),
        ],
    decreases doc.node(i).flat_children@.len() - k,
{
    assert(doc.dom.node_ok(i));
    let kids = doc.node(i).flat_children@;
    assert(doc.stray_steps(i, stray, row, d) == Seq::<Step>::empty());
    assert(doc.rows_after_stray(stray, row) == row);
    if k < kids.len() {
        let c = kids[k] as int;
        assert(i < kids[k] < doc.len());
        assert(c == child(doc, i, k));
        let one = cells_of_a_part_are_built_in_order(doc, c, row, d);
        if is_table_part(doc, c) {
            let after = doc.rows_after(c, row);
            let rest = lemma_table(doc, i, k + 1, Seq::empty(), after, d);
            let first = all_led(k, one);
            let marks = first + rest;
            lemma_joined_marks(doc, i, k, one, rest);
            let (n1, n2) = (one.len() as int, rest.len() as int);
            lemma_rows_grow(doc, c, one, n1);
            lemma_rows_grow(doc, i, rest, n2);
            lemma_entries_led(doc, i, k, one, row, d, n1);
            lemma_entries_joined(doc, i, first, rest, row, d, n2);
            assert(doc.is_internal(c));
            if row + rows_among(doc, i, marks, marks.len() as int) <= u32::MAX {
                let a = doc.cell_steps(c, row, d);
                let b = entries(doc, i, rest, after, d, n2);
                let z = seq![Step::Rows((after + rows_among(doc, i, rest, n2)) as u32)];
                assert(doc.table_steps(i, k, stray, row, d) =~= Seq::<Step>::empty() + a + (b
                    + z));
                assert(Seq::<Step>::empty() + a + (b + z) =~= a + b + z);
            }
            marks
        } else {
            let rest = lemma_table(doc, i, k + 1, stray.push(kids[k]), row, d);
            lemma_no_marks(doc, c, one);
            lemma_joined_marks(doc, i, k, one, rest);
            assert(all_led(k, one) + rest =~= rest);
            assert(!doc.is_internal(c));
            rest
        }
    } else {
        let marks = Seq::<Seq<int>>::empty();
        assert(doc.table_steps(i, k, stray, row, d) =~= entries(doc, i, marks, row, d, 0) + seq![
            Step::Rows(row as u32),
        ]);
        marks
    }
}

proof fn lemma_no_marks(doc: Styled, c: int, marks: Seq<Seq<int>>)
    requires
        !is_table_part(doc, c),
        forall|path: Seq<int>| #[trigger]
            marks.contains(path) <==> leads(doc, c, path) && is_mark(doc, c, path),
    ensures
        marks.len() == 0,
{
    if marks.len() > 0 {
        assert(marks.contains(marks[0]));
        assert(!holds_cells(doc, c));
        assert(marks[0].len() == 0);
    }
}

/// What construction makes of a table all of whose content is in its parts: its own box,
/// and in it one box for each cell that is reached from the table through rows, row groups
/// of any of the three kinds, and nodes that stand for their children, in the order of the
/// document. Each cell is in the row whose number is that of the rows that hold it or come
/// before it, and the table has as many rows as are reached. `marks` are the rows and the
/// cells that are reached.
pub proof fn every_cell_of_a_table_gets_one_box(doc: Styled, i: int, d: int) -> (marks: Seq<
    Seq<int>,
>)
    requires
        doc.wf(),
        0 <= i < doc.len(),
        match doc.styles@[i].primary {
            Some(s) => s.display.inside == DisplayInside::Table,
            None => false,
        },
        !doc.is_hidden_control(i),
        doc.replaced(i) is None,
        d < MAX_CONSTRUCT_DEPTH,
        has_no_loose_content(doc, i),
    ensures
        in_order(marks),
        forall|path: Seq<int>| #[trigger]
            marks.contains(path) <==> leads_below(doc, i, path) && is_mark(doc, i, path),
        rows_among(doc, i, marks, marks.len() as int) <= u32::MAX ==> doc.box_steps(i, d) == seq![
            Step::Open(
                BoxDesc {
                    kind: BoxKind::TableRoot,
                    ..plain(BoxKind::Block, Some(i as usize), StyleOf::Element(i as usize))
                },
            ),
        ] + outside_marker_steps(i, doc.styles@[i].marker is Outside, doc.marker(i)) + (entries(
            doc,
            i,
            marks,
            0,
            d + 1,
            marks.len() as int,
        ) + seq![Step::Rows(rows_among(doc, i, marks, marks.len() as int) as u32)]) + seq![
            Step::Close,
        ],
{
    let marks = lemma_table(doc, i, 0, Seq::empty(), 0, d + 1);
    assert forall|path: Seq<int>| #[trigger] marks.contains(path) <==> leads_below(doc, i, path)
        && is_mark(doc, i, path) by {}
    marks
}

/// Where the entry of the cell at the `m`th mark stands, and that of its box: the box
/// follows where it goes.
pub proof fn an_entry_is_a_cell_and_its_box(
    doc: Styled,
    n: int,
    marks: Seq<Seq<int>>,
    row: int,
    d: int,
    m: int,
) -> (at: int)
    requires
        doc.wf(),
        0 <= m < marks.len(),
        0 <= end(doc, n, marks[m]) < doc.len(),
        is_cell(doc, end(doc, n, marks[m])),
        0 <= row,
        row + rows_among(doc, n, marks, m) <= u32::MAX,
    ensures
        ({
            let c = end(doc, n, marks[m]);
            let steps = entries(doc, n, marks, row, d, marks.len() as int);
            &&& 0 <= at < steps.len() - 1
            &&& match steps[at] {
                Step::Cell(place) => place.row == row + rows_among(doc, n, marks, m),
                _ => false,
            }
            &&& match steps[at + 1] {
                Step::Open(desc) => desc.node == Some(c as usize) && desc.pseudo is None,
                _ => false,
            }
        }),
{
    let c = end(doc, n, marks[m]);
    an_element_opens_its_own_box(doc, c, d);
    lemma_rows_grow(doc, n, marks, m);
    let at = entries(doc, n, marks, row, d, m).len() as int;
    let upto = entries(doc, n, marks, row, d, m + 1);
    assert(upto[at] is Cell);
    assert(upto[at + 1] == doc.box_steps(c, d)[0]);
    lemma_entries_kept(doc, n, marks, row, d, m + 1, marks.len() as int);
    at
}

proof fn lemma_entries_kept(
    doc: Styled,
    n: int,
    marks: Seq<Seq<int>>,
    row: int,
    d: int,
    a: int,
    b: int,
)
    requires
        0 <= a <= b,
    ensures
        ({
            let (x, y) = (entries(doc, n, marks, row, d, a), entries(doc, n, marks, row, d, b));
            x.len() <= y.len() && forall|i: int| 0 <= i < x.len() ==> #[trigger] y[i] == x[i]
        }),
    decreases b - a,
{
    if a < b {
        lemma_entries_kept(doc, n, marks, row, d, a, b - 1);
        let x = entries(doc, n, marks, row, d, a);
        let y = entries(doc, n, marks, row, d, b - 1);
        assert forall|i: int| 0 <= i < x.len() implies #[trigger] entries(
            doc,
            n,
            marks,
            row,
            d,
            b,
        )[i] == x[i] by {
            assert(entries(doc, n, marks, row, d, b)[i] == y[i]);
        }
    }
}

/// Content of a table that is in none of its parts goes into an anonymous cell in a row of
/// its own, before what follows, unless it is only white space.
pub proof fn loose_content_gets_a_row_of_its_own(
    doc: Styled,
    i: int,
    k: int,
    stray: Seq<usize>,
    row: int,
    d: int,
    loose: int,
)
    requires
        doc.wf(),
        0 <= i < doc.len(),
        0 <= k <= doc.node(i).flat_children@.len(),
        k < doc.node(i).flat_children@.len() ==> is_table_part(doc, child(doc, i, k)),
        0 <= loose < stray.len(),
        !doc.node(stray[loose] as int).is_blank(),
        0 <= row < u32::MAX,
    ensures
        ({
            let steps = doc.table_steps(i, k, stray, row, d);
            let rest = doc.table_steps(i, k, Seq::empty(), row + 1, d);
            let own = steps.len() - rest.len();
            &&& own >= 3
            &&& steps.skip(own) == rest
            &&& steps[0] == Step::Cell(CellPlace { row: (row + 1) as u32, colspan: 1, rowspan: 1 })
            &&& match steps[1] {
                Step::Open(desc) => desc.node is None && desc.as_block,
                _ => false,
            }
            &&& steps[own - 1] == Step::Close
        }),
{
    assert(doc.dom.node_ok(i));
    let none = Seq::<usize>::empty();
    let first = doc.stray_steps(i, stray, row, d);
    let steps = doc.table_steps(i, k, stray, row, d);
    let rest = doc.table_steps(i, k, none, row + 1, d);
    assert(doc.stray_steps(i, none, row + 1, d) =~= Seq::<Step>::empty());
    assert(doc.rows_after_stray(none, row + 1) == row + 1);
    assert(doc.rows_after_stray(stray, row) == row + 1);
    if k < doc.node(i).flat_children@.len() {
        let c = child(doc, i, k);
        assert(i < doc.node(i).flat_children@[k] < doc.len());
        assert(doc.is_internal(c));
    }
    assert(steps =~= first + rest);
    let content = doc.wrapped_steps(
        i,
        stray,
        0,
        Seq::empty(),
        d,
        true,
        crate::construct::Wrap::Inlines,
    );
    assert(first.len() == content.len() + 3);
    assert(first[0] is Cell);
    assert(steps.skip(first.len() as int) =~= rest);
}

} // verus!
