//! Box construction: which boxes the nodes of a document generate, in what order, and which
//! of them wrap inline content.
//!
//! Construction is written down as a sequence of steps. A box is opened, what is inside it
//! follows, and it is closed. Children are sorted into blocks and inlines; runs of inlines
//! beside blocks get an anonymous block; a table's cells are found through its rows.

use vstd::prelude::*;

use crate::counter::MarkerPosition;
use crate::document::{flow_triple, is_in_flow, PseudoStyle, Styled};
use crate::dom::{DomNode, NodeKind};
use crate::multicol::is_multicol;
use crate::numbers::{parse_u16, small_count};
use crate::style::{ComputedStyle, CssDisplay, DisplayInside, DisplayOutside};
use crate::tree::{BoxKind, Clear, CssPosition, Float, PseudoBox, ReplacedContent};

verus! {

/// How deep boxes are nested: the content of a box this deep generates none.
pub const MAX_CONSTRUCT_DEPTH: usize = 256;

/// The style that a box has. Nodes are given by their position in the document.
#[derive(Clone, Copy, PartialEq, Eq, Debug, Structural)]
pub enum StyleOf {
    Element(usize),
    Before(usize),
    After(usize),
    /// That of an anonymous box inside the element.
    Anonymous(usize),
}

/// The inline content that a box is the root of.
#[derive(Clone, Copy, PartialEq, Eq, Debug, Structural)]
pub enum InlineSource {
    Nothing,
    /// The children of the box's element, after its marker if that is inside, and between
    /// its pseudo-elements. In the content flow of a multi-column container it is the
    /// container's element.
    Children { element: usize, marker: Option<i32> },
    /// The items that follow.
    Items,
    /// The text of the pseudo-element.
    Generated,
    /// The marker of the list item with this ordinal.
    Marker(i32),
}

/// A box as it is opened.
#[derive(Clone, Copy, PartialEq, Eq, Debug, Structural)]
pub struct BoxDesc {
    pub kind: BoxKind,
    /// The node that the box belongs to.
    pub node: Option<usize>,
    pub pseudo: Option<PseudoBox>,
    pub style: StyleOf,
    /// The box is laid out as a block, whatever its style says.
    pub as_block: bool,
    /// The box is taken out of the flow.
    pub outside: bool,
    /// The box isolates its floats.
    pub force_bfc: bool,
    /// The children are laid out by their `order`.
    pub ordered: bool,
    pub replaced: Option<ReplacedContent>,
    pub inline: InlineSource,
}

/// Where a table cell goes.
#[derive(Clone, Copy, PartialEq, Eq, Debug, Structural)]
pub struct CellPlace {
    /// The row, from one.
    pub row: u32,
    pub colspan: u16,
    pub rowspan: u16,
}

/// A step of construction.
#[derive(Clone, Copy, PartialEq, Eq, Debug, Structural)]
pub enum Step {
    /// The next box is a cell of the table that is open.
    Cell(CellPlace),
    Open(BoxDesc),
    /// An inline item of the box that is open.
    Inline(usize),
    /// The number of rows of the table that is open.
    Rows(u32),
    Close,
}

/// What the content of a flow container is made of.
#[derive(Clone, Copy, PartialEq, Eq, Debug, Structural)]
pub enum FlowKind {
    Empty,
    OutOfFlow,
    Inlines,
    Blocks,
    Mixed,
}

/// Which children of a mixed container are wrapped in anonymous blocks.
#[derive(Clone, Copy, PartialEq, Eq, Debug, Structural)]
pub enum Wrap {
    /// Text, and inlines that have no block inside.
    Inlines,
    /// Text.
    Text,
}

/// A box of the given style with nothing special about it.
pub open spec fn plain(kind: BoxKind, node: Option<usize>, style: StyleOf) -> BoxDesc {
    BoxDesc {
        kind,
        node,
        pseudo: None,
        style,
        as_block: false,
        outside: false,
        force_bfc: false,
        ordered: false,
        replaced: None,
        inline: InlineSource::Nothing,
    }
}

fn plain_desc(kind: BoxKind, node: Option<usize>, style: StyleOf) -> (r: BoxDesc)
    ensures
        r == plain(kind, node, style),
{
    BoxDesc {
        kind,
        node,
        pseudo: None,
        style,
        as_block: false,
        outside: false,
        force_bfc: false,
        ordered: false,
        replaced: None,
        inline: InlineSource::Nothing,
    }
}

/// The marker box of the list item at `i`.
pub open spec fn marker_desc(i: int, ordinal: i32, outside: bool) -> BoxDesc {
    BoxDesc {
        pseudo: Some(PseudoBox::Marker),
        as_block: true,
        outside,
        inline: InlineSource::Marker(ordinal),
        ..plain(
            BoxKind::InlineRoot,
            Some(i as usize),
            StyleOf::Anonymous(i as usize),
        )
    }
}

/// A box that is opened and closed again.
pub open spec fn leaf(desc: BoxDesc) -> Seq<Step> {
    seq![Step::Open(desc), Step::Close]
}

fn push_leaf(out: &mut Vec<Step>, desc: BoxDesc)
    ensures
        final(out)@ == old(out)@ + leaf(desc),
{
    out.push(Step::Open(desc));
    out.push(Step::Close);
    assert(out@ =~= old(out)@ + leaf(desc));
}

/// The steps for the marker of the list item at `i`, if it has one outside.
pub open spec fn outside_marker_steps(i: int, outside: bool, marker: Option<i32>) -> Seq<Step> {
    match marker {
        Some(o) => if outside {
            leaf(marker_desc(i, o, true))
        } else {
            Seq::empty()
        },
        None => Seq::empty(),
    }
}

/// The content flow of the multi-column container at `i`, before its content is known.
pub open spec fn content_flow(i: int) -> BoxDesc {
    BoxDesc {
        as_block: true,
        ..plain(BoxKind::AnonymousBlock, None, StyleOf::Anonymous(i as usize))
    }
}

/// The steps of inline items.
pub open spec fn item_steps(run: Seq<usize>) -> Seq<Step> {
    run.map_values(|c: usize| Step::Inline(c))
}

impl Styled {
    /// The pseudo-element before the content of the element at `i`, if it generates a box.
    pub open spec fn before(&self, i: int) -> Option<PseudoStyle> {
        match self.styles@[i].before {
            Some(p) => if p.generates() {
                Some(p)
            } else {
                None
            },
            None => None,
        }
    }

    /// The pseudo-element after the content of the element at `i`, if it generates a box.
    pub open spec fn after(&self, i: int) -> Option<PseudoStyle> {
        match self.styles@[i].after {
            Some(p) => if p.generates() {
                Some(p)
            } else {
                None
            },
            None => None,
        }
    }

    /// The node decides what its container is: it is in the flow and not only white space.
    pub open spec fn counts(&self, c: int) -> bool {
        !self.node(c).is_blank() && is_in_flow(self.style(c))
    }

    /// The node is a block for its container: it is one, or an inline that has one inside.
    pub open spec fn acts_as_block(&self, c: int) -> bool {
        match self.display(c).outside {
            DisplayOutside::Absent => false,
            DisplayOutside::Inline => self.holds_block(c),
            _ => true,
        }
    }

    /// What the content of the flow container at `i` is made of, given whether it has a
    /// marker inside.
    pub open spec fn flow_kind(&self, i: int, marker: bool) -> FlowKind {
        let kids = self.expanded(i);
        let b = self.before(i);
        let a = self.after(i);
        if kids.len() == 0 && b is None && a is None {
            FlowKind::Empty
        } else if !marker && b is None && a is None && forall|k: int|
            0 <= k < kids.len() ==> !self.counts(#[trigger] kids[k] as int) {
            FlowKind::OutOfFlow
        } else if !pseudo_is_block(b) && !pseudo_is_block(a) && forall|k: int|
            0 <= k < kids.len() && self.counts(#[trigger] kids[k] as int) ==> !self.acts_as_block(
                kids[k] as int,
            ) {
            FlowKind::Inlines
        } else if !marker && !pseudo_is_inline(b) && !pseudo_is_inline(a) && forall|k: int|
            0 <= k < kids.len() && self.counts(#[trigger] kids[k] as int) ==> !(self.display(
                kids[k] as int,
            ).outside is Inline) {
            FlowKind::Blocks
        } else {
            FlowKind::Mixed
        }
    }

    /// The node floats.
    pub open spec fn floats(&self, c: int) -> bool {
        match self.style(c) {
            Some(s) => !(s.float is Off),
            None => false,
        }
    }

    /// The node clears floats.
    pub open spec fn clears(&self, c: int) -> bool {
        match self.style(c) {
            Some(s) => !(s.box_style.clear is Off),
            None => false,
        }
    }

    /// The container at `i` isolates its floats: it holds one, and something that clears it.
    pub open spec fn isolates_floats(&self, i: int) -> bool {
        let kids = self.expanded(i);
        &&& exists|k: int| 0 <= k < kids.len() && self.floats(#[trigger] kids[k] as int)
        &&& (pseudo_clears(self.before(i)) || pseudo_clears(self.after(i)) || exists|k: int|
            0 <= k < kids.len() && self.clears(#[trigger] kids[k] as int))
    }

    /// The flow container at `i`, as the box of its element or as the content flow of it.
    pub open spec fn flow_desc(&self, i: int, marker: Option<i32>, base: BoxDesc) -> BoxDesc {
        let kind = self.flow_kind(i, marker is Some);
        let inline = kind is Inlines || (kind is Empty && marker is Some);
        BoxDesc {
            kind: if inline {
                BoxKind::InlineRoot
            } else {
                base.kind
            },
            force_bfc: self.isolates_floats(i),
            inline: if inline {
                InlineSource::Children { element: i as usize, marker }
            } else {
                InlineSource::Nothing
            },
            ..base
        }
    }

    /// The box of a pseudo-element of the element at `i`.
    pub open spec fn pseudo_desc(&self, i: int, which: PseudoBox, p: PseudoStyle) -> BoxDesc {
        let text = p.shown().len() > 0;
        BoxDesc {
            pseudo: Some(which),
            as_block: true,
            inline: if text {
                InlineSource::Generated
            } else {
                InlineSource::Nothing
            },
            ..plain(
                if text {
                    BoxKind::InlineRoot
                } else {
                    BoxKind::Block
                },
                Some(i as usize),
                if which is Before {
                    StyleOf::Before(i as usize)
                } else {
                    StyleOf::After(i as usize)
                },
            )
        }
    }

    /// The steps for the marker inside the element at `i`.
    pub open spec fn marker_steps(&self, i: int, marker: Option<i32>) -> Seq<Step> {
        match marker {
            Some(o) => leaf(marker_desc(i, o, false)),
            None => Seq::empty(),
        }
    }

    /// The steps for the pseudo-element before the content of the element at `i`.
    pub open spec fn before_steps(&self, i: int) -> Seq<Step> {
        match self.before(i) {
            Some(p) => leaf(self.pseudo_desc(i, PseudoBox::Before, p)),
            None => Seq::empty(),
        }
    }

    /// The steps for the pseudo-element after the content of the element at `i`.
    pub open spec fn after_steps(&self, i: int) -> Seq<Step> {
        match self.after(i) {
            Some(p) => leaf(self.pseudo_desc(i, PseudoBox::After, p)),
            None => Seq::empty(),
        }
    }

    /// The steps for the element at `i`, at the depth `d`: its box and what is inside.
    pub open spec fn box_steps(&self, i: int, d: int) -> Seq<Step>
        decreases self.len() - i, 9int, 0int,
    {
        match self.style(i) {
            None => Seq::empty(),
            Some(s) => if s.display.inside is Absent || self.is_hidden_control(i) {
                Seq::empty()
            } else {
                let own = plain(
                    BoxKind::Block,
                    Some(i as usize),
                    StyleOf::Element(i as usize),
                );
                match self.replaced(i) {
                    Some(content) => leaf(
                        BoxDesc { kind: BoxKind::Replaced, replaced: Some(content), ..own },
                    ),
                    None => if d >= MAX_CONSTRUCT_DEPTH {
                        leaf(own)
                    } else {
                        self.open_steps(i, d, s)
                    },
                }
            },
        }
    }

    /// The steps for an element that is no leaf.
    pub open spec fn open_steps(&self, i: int, d: int, s: ComputedStyle) -> Seq<Step>
        decreases self.len() - i, 8int, 0int,
    {
        let own = plain(BoxKind::Block, Some(i as usize), StyleOf::Element(i as usize));
        let marker = self.marker(i);
        let is_outside = self.styles@[i].marker is Outside;
        let inside = if is_outside {
            None
        } else {
            marker
        };
        let lead = outside_marker_steps(i, is_outside, marker);
        match s.display.inside {
            DisplayInside::Flex | DisplayInside::Grid => seq![
                Step::Open(BoxDesc { ordered: true, ..own }),
            ] + lead + self.flex_steps(i, inside, d + 1) + seq![Step::Close],
            DisplayInside::Table => seq![
                Step::Open(BoxDesc { kind: BoxKind::TableRoot, ..own }),
            ] + lead + self.table_steps(i, 0, Seq::empty(), 0, d + 1) + seq![Step::Close],
            _ => if (s.display.inside is Flow || s.display.inside is FlowRoot) && (
            s.multicol.count is Some || s.multicol.width is Some) {
                seq![Step::Open(BoxDesc { kind: BoxKind::MulticolRoot, ..own })] + lead + seq![
                    Step::Open(self.flow_desc(i, inside, content_flow(i))),
                ] + self.flow_steps(i, inside, d + 1) + seq![Step::Close, Step::Close]
            } else {
                seq![Step::Open(self.flow_desc(i, inside, own))] + lead + self.flow_steps(
                    i,
                    inside,
                    d + 1,
                ) + seq![Step::Close]
            },
        }
    }

    /// The steps for the content of the flow container at `i`.
    pub open spec fn flow_steps(&self, i: int, marker: Option<i32>, d: int) -> Seq<Step>
        decreases self.len() - i, 7int, 0int,
    {
        let kids = self.expanded(i);
        match self.flow_kind(i, marker is Some) {
            FlowKind::Empty => Seq::empty(),
            FlowKind::OutOfFlow => self.element_steps(i, kids, 0, d),
            FlowKind::Inlines => self.embedded_children(i, 0, d),
            FlowKind::Blocks => self.marker_steps(i, marker) + self.before_steps(i)
                + self.element_steps(i, kids, 0, d) + self.after_steps(i),
            FlowKind::Mixed => self.marker_steps(i, marker) + self.before_steps(i)
                + self.wrapped_steps(i, kids, 0, Seq::empty(), d, false, Wrap::Inlines)
                + self.after_steps(i),
        }
    }

    /// The steps for the content of the flex or grid container at `i`: text is wrapped, and
    /// everything else is an item.
    pub open spec fn flex_steps(&self, i: int, marker: Option<i32>, d: int) -> Seq<Step>
        decreases self.len() - i, 7int, 0int,
    {
        let kids = self.expanded(i);
        self.marker_steps(i, marker) + self.before_steps(i) + (if exists|k: int|
            0 <= k < kids.len() && self.node(#[trigger] kids[k] as int).kind.holds_text() {
            self.wrapped_steps(i, kids, 0, Seq::empty(), d, true, Wrap::Text)
        } else {
            self.element_steps(i, kids, 0, d)
        }) + self.after_steps(i)
    }

    /// The steps for those of the children `kids` of `i` that are elements, from the `k`th
    /// on.
    pub open spec fn element_steps(&self, i: int, kids: Seq<usize>, k: int, d: int) -> Seq<Step>
        decreases self.len() - i, 5int, kids.len() - k,
    {
        if 0 <= k < kids.len() {
            let c = kids[k] as int;
            (if i < c < self.len() && self.node(c).kind is Element {
                self.box_steps(c, d)
            } else {
                Seq::empty()
            }) + self.element_steps(i, kids, k + 1, d)
        } else {
            Seq::empty()
        }
    }

    /// The node is wrapped in an anonymous block.
    pub open spec fn is_wrapped(&self, c: int, wrap: Wrap) -> bool {
        self.node(c).kind.holds_text() || (wrap is Inlines && !self.holds_block(c) && (!(
        self.node(c).kind is Element) || self.display(c).outside is Inline))
    }

    /// The steps for the children `kids` of `i` from the `k`th on, where `run` is waiting to
    /// be wrapped.
    pub open spec fn wrapped_steps(
        &self,
        i: int,
        kids: Seq<usize>,
        k: int,
        run: Seq<usize>,
        d: int,
        hide: bool,
        wrap: Wrap,
    ) -> Seq<Step>
        decreases self.len() - i, 5int, kids.len() - k,
    {
        if 0 <= k < kids.len() {
            let c = kids[k] as int;
            if hide && self.node(c).is_blank() {
                self.wrapped_steps(i, kids, k + 1, run, d, hide, wrap)
            } else if self.node(c).kind is Element && self.display(c).inside is Absent {
                self.wrapped_steps(i, kids, k + 1, run, d, hide, wrap)
            } else if self.is_wrapped(c, wrap) {
                self.wrapped_steps(i, kids, k + 1, run.push(kids[k]), d, hide, wrap)
            } else {
                self.run_steps(i, run, d) + (if i < c < self.len() && self.node(c).kind
                    is Element {
                    self.box_steps(c, d)
                } else {
                    Seq::empty()
                }) + self.wrapped_steps(i, kids, k + 1, Seq::empty(), d, hide, wrap)
            }
        } else {
            self.run_steps(i, run, d)
        }
    }

    /// The steps for a run of inlines beside blocks: an anonymous block around it, unless it
    /// is only white space.
    pub open spec fn run_steps(&self, i: int, run: Seq<usize>, d: int) -> Seq<Step>
        decreases self.len() - i, 4int, 0int,
    {
        if forall|k: int| 0 <= k < run.len() ==> self.node(#[trigger] run[k] as int).is_blank() {
            Seq::empty()
        } else {
            let desc = BoxDesc {
                inline: InlineSource::Items,
                ..plain(BoxKind::AnonymousBlock, None, StyleOf::Anonymous(i as usize))
            };
            seq![Step::Open(desc)] + item_steps(run) + self.embedded_run(i, run, 0, d) + seq![
                Step::Close,
            ]
        }
    }

    /// The steps for the boxes inside the inlines `run`, from the `k`th on.
    pub open spec fn embedded_run(&self, i: int, run: Seq<usize>, k: int, d: int) -> Seq<Step>
        decreases self.len() - i, 3int, run.len() - k,
    {
        if 0 <= k < run.len() {
            let c = run[k] as int;
            (if i < c < self.len() {
                self.embedded_steps(c, d)
            } else {
                Seq::empty()
            }) + self.embedded_run(i, run, k + 1, d)
        } else {
            Seq::empty()
        }
    }

    /// The steps for the boxes inside the inline content of the element at `i`, from its
    /// `k`th child on.
    pub open spec fn embedded_children(&self, i: int, k: int, d: int) -> Seq<Step>
        decreases self.len() - i, 6int, self.node(i).flat_children@.len() - k,
    {
        let kids = self.node(i).flat_children@;
        if 0 <= k < kids.len() {
            let c = kids[k] as int;
            (if i < c < self.len() {
                self.embedded_steps(c, d)
            } else {
                Seq::empty()
            }) + self.embedded_children(i, k + 1, d)
        } else {
            Seq::empty()
        }
    }

    /// The steps for the boxes that the node at `c` puts into inline content: its own, if it
    /// is atomic or out of the flow, else those inside it.
    pub open spec fn embedded_steps(&self, c: int, d: int) -> Seq<Step>
        decreases self.len() - c, 10int, 0int,
    {
        if !(self.node(c).kind is Element) || self.is_hidden_control(c) {
            Seq::empty()
        } else {
            match (self.display(c).outside, self.display(c).inside) {
                (DisplayOutside::Absent, DisplayInside::Absent) => Seq::empty(),
                (DisplayOutside::Absent, DisplayInside::Contents) => self.embedded_children(
                    c,
                    0,
                    d,
                ),
                (DisplayOutside::Inline, DisplayInside::Flow) => if self.is_atomic(c) {
                    self.box_steps(c, d)
                } else if self.node(c).is_tag("br"@) {
                    Seq::empty()
                } else {
                    self.embedded_children(c, 0, d)
                },
                _ => self.box_steps(c, d),
            }
        }
    }

    /// The node is a part of a table that its cells are looked for in.
    pub open spec fn is_internal(&self, c: int) -> bool {
        match self.style(c) {
            Some(s) => s.display.inside is TableRowGroup || s.display.inside is TableHeaderGroup
                || s.display.inside is TableFooterGroup || s.display.inside is TableRow
                || s.display.inside is TableCell || s.display.inside is Contents,
            None => false,
        }
    }

    /// The number of rows after the content `stray` that is in no cell.
    pub open spec fn rows_after_stray(&self, stray: Seq<usize>, row: int) -> int {
        if forall|k: int|
            0 <= k < stray.len() ==> self.node(#[trigger] stray[k] as int).is_blank() {
            row
        } else {
            next_row(row)
        }
    }

    /// The steps for content of the table at `i` that is in no cell: an anonymous cell in a
    /// row of its own, unless it is only white space.
    pub open spec fn stray_steps(&self, i: int, stray: Seq<usize>, row: int, d: int) -> Seq<Step>
        decreases self.len() - i, 6int, 0int,
    {
        if forall|k: int|
            0 <= k < stray.len() ==> self.node(#[trigger] stray[k] as int).is_blank() {
            Seq::empty()
        } else {
            let desc = BoxDesc {
                as_block: true,
                ..plain(BoxKind::Block, None, StyleOf::Anonymous(i as usize))
            };
            seq![
                Step::Cell(CellPlace { row: next_row(row) as u32, colspan: 1, rowspan: 1 }),
                Step::Open(desc),
            ] + self.wrapped_steps(i, stray, 0, Seq::empty(), d, true, Wrap::Inlines) + seq![
                Step::Close,
            ]
        }
    }

    /// The steps for the content of the table at `i`, from its `k`th child on, with `stray`
    /// waiting for an anonymous cell and `row` rows so far.
    pub open spec fn table_steps(&self, i: int, k: int, stray: Seq<usize>, row: int, d: int) -> Seq<
        Step,
    >
        decreases self.len() - i, 7int, self.node(i).flat_children@.len() - k,
    {
        let kids = self.node(i).flat_children@;
        if 0 <= k < kids.len() {
            let c = kids[k] as int;
            if i < c < self.len() && self.is_internal(c) {
                let rows = self.rows_after_stray(stray, row);
                self.stray_steps(i, stray, row, d) + self.cell_steps(c, rows, d)
                    + self.table_steps(i, k + 1, Seq::empty(), self.rows_after(c, rows), d)
            } else {
                self.table_steps(i, k + 1, stray.push(kids[k]), row, d)
            }
        } else {
            self.stray_steps(i, stray, row, d) + seq![
                Step::Rows(self.rows_after_stray(stray, row) as u32),
            ]
        }
    }

    /// The number of rows after the part of a table at `c`.
    pub open spec fn rows_after(&self, c: int, row: int) -> int
        decreases self.len() - c, self.node(c).flat_children@.len() + 1,
    {
        match self.style(c) {
            Some(s) => if !(self.node(c).kind is Element) || s.display.outside is Absent {
                row
            } else {
                match s.display.inside {
                    DisplayInside::TableRowGroup | DisplayInside::TableHeaderGroup
                    | DisplayInside::TableFooterGroup | DisplayInside::Contents =>
                        self.rows_after_children(c, 0, row),
                    DisplayInside::TableRow => self.rows_after_children(c, 0, next_row(row)),
                    _ => row,
                }
            },
            None => row,
        }
    }

    /// The number of rows after the children of the part of a table at `c`, from the `k`th
    /// on.
    pub open spec fn rows_after_children(&self, c: int, k: int, row: int) -> int
        decreases self.len() - c, self.node(c).flat_children@.len() - k,
    {
        let kids = self.node(c).flat_children@;
        if 0 <= k < kids.len() {
            let e = kids[k] as int;
            self.rows_after_children(
                c,
                k + 1,
                if c < e < self.len() {
                    self.rows_after(e, row)
                } else {
                    row
                },
            )
        } else {
            row
        }
    }

    /// The columns that the cell at `c` spans.
    pub open spec fn colspan(&self, c: int) -> u16 {
        span(self.node(c).attribute("colspan"@), 1000)
    }

    /// The rows that the cell at `c` spans.
    pub open spec fn rowspan(&self, c: int) -> u16 {
        span(self.node(c).attribute("rowspan"@), 65534)
    }

    /// The steps for the cells of the part of a table at `c`, after `row` rows. Captions,
    /// columns and the like have none.
    pub open spec fn cell_steps(&self, c: int, row: int, d: int) -> Seq<Step>
        decreases self.len() - c, 10int, 0int,
    {
        match self.style(c) {
            Some(s) => if !(self.node(c).kind is Element) || s.display.outside is Absent {
                Seq::empty()
            } else {
                match s.display.inside {
                    DisplayInside::TableRowGroup | DisplayInside::TableHeaderGroup
                    | DisplayInside::TableFooterGroup | DisplayInside::Contents =>
                        self.cells_inside(c, 0, row, d),
                    DisplayInside::TableRow => self.cells_inside(c, 0, next_row(row), d),
                    DisplayInside::TableCell => {
                        let steps = self.box_steps(c, d);
                        if steps.len() == 0 {
                            Seq::empty()
                        } else {
                            seq![
                                Step::Cell(
                                    CellPlace {
                                        row: row as u32,
                                        colspan: self.colspan(c),
                                        rowspan: self.rowspan(c),
                                    },
                                ),
                            ] + steps
                        }
                    },
                    _ => Seq::empty(),
                }
            },
            None => Seq::empty(),
        }
    }

    /// The steps for the cells of the children of the part of a table at `c`, from the `k`th
    /// on.
    pub open spec fn cells_inside(&self, c: int, k: int, row: int, d: int) -> Seq<Step>
        decreases self.len() - c, 6int, self.node(c).flat_children@.len() - k,
    {
        let kids = self.node(c).flat_children@;
        if 0 <= k < kids.len() {
            let e = kids[k] as int;
            if c < e < self.len() {
                self.cell_steps(e, row, d) + self.cells_inside(
                    c,
                    k + 1,
                    self.rows_after(e, row),
                    d,
                )
            } else {
                self.cells_inside(c, k + 1, row, d)
            }
        } else {
            Seq::empty()
        }
    }
}

/// The row after `row`. The count stops where 32 bits end.
pub open spec fn next_row(row: int) -> int {
    if row < u32::MAX {
        row + 1
    } else {
        row
    }
}

fn row_after(row: u32) -> (r: u32)
    ensures
        r == next_row(row as int),
{
    if row < u32::MAX {
        row + 1
    } else {
        row
    }
}

/// A span attribute: a number, held to what is allowed, or one.
pub open spec fn span(text: Option<Seq<char>>, most: int) -> u16 {
    match text {
        Some(t) => match small_count(t) {
            Some(v) => crate::units::clamped(v, 1, most) as u16,
            None => 1,
        },
        None => 1,
    }
}

/// The pseudo-element is an inline.
pub open spec fn pseudo_is_inline(p: Option<PseudoStyle>) -> bool {
    match p {
        Some(s) => s.style.display.outside is Inline,
        None => false,
    }
}

/// The pseudo-element is a block.
pub open spec fn pseudo_is_block(p: Option<PseudoStyle>) -> bool {
    match p {
        Some(s) => !(s.style.display.outside is Inline) && !(s.style.display.outside is Absent),
        None => false,
    }
}

/// The pseudo-element clears floats.
pub open spec fn pseudo_clears(p: Option<PseudoStyle>) -> bool {
    match p {
        Some(s) => !(s.style.box_style.clear is Off),
        None => false,
    }
}

proof fn lemma_four_parts(
    start: Seq<Step>,
    a: Seq<Step>,
    b: Seq<Step>,
    c: Seq<Step>,
    d: Seq<Step>,
)
    ensures
        start + a + b + c + d == start + (a + b + c + d),
{
    assert(start + a + b + c + d =~= start + (a + b + c + d));
}

/// The children that take part in a layout come after the node and are nodes.
pub(crate) proof fn lemma_expanded_bounds(doc: &Styled, i: int, k: int)
    requires
        doc.wf(),
        0 <= i < doc.len(),
    ensures
        forall|j: int|
            0 <= j < doc.expanded_from(i, k).len() ==> i < #[trigger] doc.expanded_from(i, k)[j]
                < doc.len(),
    decreases doc.len() - i, doc.node(i).flat_children@.len() - k,
{
    let kids = doc.node(i).flat_children@;
    if 0 <= k < kids.len() {
        assert(doc.dom.node_ok(i));
        let c = kids[k] as int;
        assert(i < kids[k] < doc.len());
        lemma_expanded_bounds(doc, i, k + 1);
        lemma_expanded_bounds(doc, c, 0);
        let all = doc.expanded_from(i, k);
        let rest = doc.expanded_from(i, k + 1);
        let inner = doc.expanded_from(c, 0);
        assert forall|j: int| 0 <= j < all.len() implies i < #[trigger] all[j] < doc.len() by {
            if doc.node(c).kind is Element && doc.display(c).inside is Contents {
                if j < inner.len() {
                    assert(all[j] == inner[j]);
                } else {
                    assert(all[j] == rest[j - inner.len()]);
                }
            } else if doc.node(c).kind is Element || doc.node(c).kind.holds_text() {
                if j > 0 {
                    assert(all[j] == rest[j - 1]);
                }
            } else {
                assert(all[j] == rest[j]);
            }
        }
    }
}

/// Every one of `list` comes after `i` and is a node.
pub open spec fn all_after(list: Seq<usize>, i: int, len: int) -> bool {
    forall|j: int| 0 <= j < list.len() ==> i < #[trigger] list[j] < len
}

/// Box construction over a document.
pub struct Builder<'a> {
    pub doc: &'a Styled,
    /// Which nodes are blocks in the flow, or inlines that have one inside.
    pub blocks: Vec<bool>,
}

impl<'a> Builder<'a> {
    /// What is known of the nodes is so.
    pub open spec fn wf(&self) -> bool {
        self.doc.wf() && self.blocks@ == Seq::new(
            self.doc.len(),
            |i: int| self.doc.holds_block(i),
        )
    }

    /// Box construction over a document.
    pub fn new(doc: &'a Styled) -> (r: Builder<'a>)
        requires
            doc.wf(),
        ensures
            r.wf(),
            r.doc == doc,
    {
        let blocks: Vec<bool> = doc.blocks_inside();
        Builder { doc, blocks }
    }

    fn children(&self, i: usize) -> (r: Vec<usize>)
        requires
            self.wf(),
            i < self.doc.len(),
        ensures
            r@ == self.doc.expanded(i as int),
            all_after(r@, i as int, self.doc.len() as int),
    {
        let mut out: Vec<usize> = Vec::new();
        self.doc.expanded_children(i, &mut out);
        assert(out@ =~= self.doc.expanded(i as int));
        proof {
            lemma_expanded_bounds(self.doc, i as int, 0);
        }
        out
    }

    fn pseudo(&self, p: &'a Option<PseudoStyle>) -> (r: Option<&'a PseudoStyle>)
        ensures
            match (r, p) {
                (Some(s), Some(q)) => *s == *q && q.generates(),
                (None, Some(q)) => !q.generates(),
                (None, None) => true,
                _ => false,
            },
    {
        match p {
            Some(s) => if s.is_generated() {
                Some(s)
            } else {
                None
            },
            None => None,
        }
    }

    fn before(&self, i: usize) -> (r: Option<&'a PseudoStyle>)
        requires
            self.wf(),
            i < self.doc.len(),
        ensures
            match (r, self.doc.before(i as int)) {
                (Some(s), Some(q)) => *s == q,
                (None, None) => true,
                _ => false,
            },
    {
        self.pseudo(&self.doc.styles[i].before)
    }

    fn after(&self, i: usize) -> (r: Option<&'a PseudoStyle>)
        requires
            self.wf(),
            i < self.doc.len(),
        ensures
            match (r, self.doc.after(i as int)) {
                (Some(s), Some(q)) => *s == q,
                (None, None) => true,
                _ => false,
            },
    {
        self.pseudo(&self.doc.styles[i].after)
    }

    fn counts(&self, c: usize) -> (r: bool)
        requires
            self.wf(),
            c < self.doc.len(),
        ensures
            r == self.doc.counts(c as int),
    {
        let v: (CssDisplay, CssPosition, Float) = flow_triple(&self.doc.styles[c].primary);
        !self.doc.dom.nodes[c].is_whitespace_text() && v.1 != CssPosition::Absolute && v.1
            != CssPosition::Fixed && v.2 == Float::Off
    }

    fn acts_as_block(&self, c: usize) -> (r: bool)
        requires
            self.wf(),
            c < self.doc.len(),
        ensures
            r == self.doc.acts_as_block(c as int),
    {
        match self.doc.display_of(c).outside {
            DisplayOutside::Absent => false,
            DisplayOutside::Inline => self.blocks[c],
            _ => true,
        }
    }

    /// What the content of a flow container is made of.
    fn flow_kind(&self, i: usize, kids: &Vec<usize>, marker: bool) -> (r: FlowKind)
        requires
            self.wf(),
            i < self.doc.len(),
            kids@ == self.doc.expanded(i as int),
            all_after(kids@, i as int, self.doc.len() as int),
        ensures
            r == self.doc.flow_kind(i as int, marker),
    {
        let b: Option<&PseudoStyle> = self.before(i);
        let a: Option<&PseudoStyle> = self.after(i);
        if kids.len() == 0 && b.is_none() && a.is_none() {
            return FlowKind::Empty;
        }
        let mut all_out: bool = !marker && b.is_none() && a.is_none();
        let mut all_inline: bool = !is_block(b) && !is_block(a);
        let mut all_block: bool = !marker && !is_inline(b) && !is_inline(a);
        let ghost out0 = all_out;
        let ghost inline0 = all_inline;
        let ghost block0 = all_block;
        let mut k: usize = 0;
        while k < kids.len()
            invariant
                k <= kids@.len(),
                self.wf(),
                i < self.doc.len(),
                all_after(kids@, i as int, self.doc.len() as int),
                all_out == (out0 && forall|j: int|
                    0 <= j < k ==> !self.doc.counts(#[trigger] kids@[j] as int)),
                all_inline == (inline0 && forall|j: int|
                    0 <= j < k && self.doc.counts(#[trigger] kids@[j] as int)
                        ==> !self.doc.acts_as_block(kids@[j] as int)),
                all_block == (block0 && forall|j: int|
                    0 <= j < k && self.doc.counts(#[trigger] kids@[j] as int)
                        ==> !(self.doc.display(kids@[j] as int).outside is Inline)),
            decreases kids.len() - k,
        {
            let c: usize = kids[k];
            assert(kids@[k as int] == c);
            if self.counts(c) {
                all_out = false;
                if self.acts_as_block(c) {
                    all_inline = false;
                }
                if self.doc.display_of(c).outside == DisplayOutside::Inline {
                    all_block = false;
                }
            }
            k = k + 1;
        }
        if all_out {
            FlowKind::OutOfFlow
        } else if all_inline {
            FlowKind::Inlines
        } else if all_block {
            FlowKind::Blocks
        } else {
            FlowKind::Mixed
        }
    }

    fn isolates_floats(&self, i: usize, kids: &Vec<usize>) -> (r: bool)
        requires
            self.wf(),
            i < self.doc.len(),
            kids@ == self.doc.expanded(i as int),
            all_after(kids@, i as int, self.doc.len() as int),
        ensures
            r == self.doc.isolates_floats(i as int),
    {
        let mut floats: bool = false;
        let mut clears: bool = clears_floats(self.before(i)) || clears_floats(self.after(i));
        let ghost clears0 = clears;
        let mut k: usize = 0;
        while k < kids.len()
            invariant
                k <= kids@.len(),
                self.wf(),
                i < self.doc.len(),
                all_after(kids@, i as int, self.doc.len() as int),
                floats == exists|j: int|
                    0 <= j < k && self.doc.floats(#[trigger] kids@[j] as int),
                clears == (clears0 || exists|j: int|
                    0 <= j < k && self.doc.clears(#[trigger] kids@[j] as int)),
            decreases kids.len() - k,
        {
            let c: usize = kids[k];
            if let Some(s) = &self.doc.styles[c].primary {
                if s.float != Float::Off {
                    assert(self.doc.floats(kids@[k as int] as int));
                    floats = true;
                }
                if s.box_style.clear != Clear::Off {
                    assert(self.doc.clears(kids@[k as int] as int));
                    clears = true;
                }
            }
            k = k + 1;
        }
        floats && clears
    }

    fn flow_desc(&self, i: usize, kids: &Vec<usize>, marker: Option<i32>, base: BoxDesc) -> (r: BoxDesc)
        requires
            self.wf(),
            i < self.doc.len(),
            kids@ == self.doc.expanded(i as int),
            all_after(kids@, i as int, self.doc.len() as int),
        ensures
            r == self.doc.flow_desc(i as int, marker, base),
    {
        let kind: FlowKind = self.flow_kind(i, kids, marker.is_some());
        let inline: bool = kind == FlowKind::Inlines || (kind == FlowKind::Empty
            && marker.is_some());
        let mut desc: BoxDesc = base;
        desc.force_bfc = self.isolates_floats(i, kids);
        if inline {
            desc.kind = BoxKind::InlineRoot;
            desc.inline = InlineSource::Children { element: i, marker };
        } else {
            desc.inline = InlineSource::Nothing;
        }
        desc
    }

    fn push_marker(&self, i: usize, marker: Option<i32>, out: &mut Vec<Step>)
        ensures
            final(out)@ == old(out)@ + self.doc.marker_steps(i as int, marker),
    {
        if let Some(o) = marker {
            push_leaf(out, marker_box(i, o, false));
        } else {
            assert(out@ =~= old(out)@ + self.doc.marker_steps(i as int, marker));
        }
    }

    /// The box of a pseudo-element. Its style may be a table's, but it is never one.
    fn build_pseudo_box(&self, i: usize, which: PseudoBox, p: &PseudoStyle) -> (r: BoxDesc)
        ensures
            r == self.doc.pseudo_desc(i as int, which, *p),
    {
        let text: String = p.text();
        let shown: bool = !is_empty_text(&text);
        let mut desc: BoxDesc = plain_desc(
            if shown {
                BoxKind::InlineRoot
            } else {
                BoxKind::Block
            },
            Some(i),
            if which == PseudoBox::Before {
                StyleOf::Before(i)
            } else {
                StyleOf::After(i)
            },
        );
        desc.pseudo = Some(which);
        desc.as_block = true;
        desc.inline = if shown {
            InlineSource::Generated
        } else {
            InlineSource::Nothing
        };
        desc
    }

    fn push_before(&self, i: usize, out: &mut Vec<Step>)
        requires
            self.wf(),
            i < self.doc.len(),
        ensures
            final(out)@ == old(out)@ + self.doc.before_steps(i as int),
    {
        match self.before(i) {
            Some(p) => {
                push_leaf(out, self.build_pseudo_box(i, PseudoBox::Before, p));
            },
            None => {
                assert(out@ =~= old(out)@ + self.doc.before_steps(i as int));
            },
        }
    }

    fn push_after(&self, i: usize, out: &mut Vec<Step>)
        requires
            self.wf(),
            i < self.doc.len(),
        ensures
            final(out)@ == old(out)@ + self.doc.after_steps(i as int),
    {
        match self.after(i) {
            Some(p) => {
                push_leaf(out, self.build_pseudo_box(i, PseudoBox::After, p));
            },
            None => {
                assert(out@ =~= old(out)@ + self.doc.after_steps(i as int));
            },
        }
    }

    /// The steps for an element: its box and what is inside. Nothing for one that is not
    /// displayed.
    pub fn build_box(&self, i: usize, d: usize, out: &mut Vec<Step>)
        requires
            self.wf(),
            i < self.doc.len(),
            d <= MAX_CONSTRUCT_DEPTH,
        ensures
            final(out)@ == old(out)@ + self.doc.box_steps(i as int, d as int),
        decreases self.doc.len() - i, 9int, 0int,
    {
        let s: ComputedStyle = match &self.doc.styles[i].primary {
            Some(s) => *s,
            None => {
                assert(out@ =~= old(out)@ + self.doc.box_steps(i as int, d as int));
                return;
            },
        };
        if s.display.inside == DisplayInside::Absent || self.doc.is_hidden_input(i) {
            assert(out@ =~= old(out)@ + self.doc.box_steps(i as int, d as int));
            return;
        }
        let own: BoxDesc = plain_desc(BoxKind::Block, Some(i), StyleOf::Element(i));
        if let Some(content) = self.doc.replaced_content_for(i) {
            let mut desc: BoxDesc = own;
            desc.kind = BoxKind::Replaced;
            desc.replaced = Some(content);
            push_leaf(out, desc);
            return;
        }
        if d >= MAX_CONSTRUCT_DEPTH {
            push_leaf(out, own);
            return;
        }
        self.build_open(i, d, &s, out);
    }

    fn build_open(&self, i: usize, d: usize, s: &ComputedStyle, out: &mut Vec<Step>)
        requires
            self.wf(),
            i < self.doc.len(),
            d < MAX_CONSTRUCT_DEPTH,
        ensures
            final(out)@ == old(out)@ + self.doc.open_steps(i as int, d as int, *s),
        decreases self.doc.len() - i, 8int, 0int,
    {
        let mut own: BoxDesc = plain_desc(BoxKind::Block, Some(i), StyleOf::Element(i));
        let marker: Option<i32> = self.doc.list_marker(i);
        let is_outside: bool = self.doc.styles[i].marker == MarkerPosition::Outside;
        let inside: Option<i32> = if is_outside {
            None
        } else {
            marker
        };
        match s.display.inside {
            DisplayInside::Flex | DisplayInside::Grid => {
                own.ordered = true;
                self.build_flex(i, d, own, is_outside, marker, inside, out);
            },
            DisplayInside::Table => {
                own.kind = BoxKind::TableRoot;
                self.build_table(i, d, own, is_outside, marker, out);
            },
            _ => {
                if matches!(s.display.inside, DisplayInside::Flow | DisplayInside::FlowRoot)
                    && is_multicol(&s.multicol) {
                    own.kind = BoxKind::MulticolRoot;
                    self.build_multicol(i, d, own, is_outside, marker, inside, out);
                } else {
                    self.build_flow(i, d, own, is_outside, marker, inside, out);
                }
            },
        }
    }

    fn build_flex(
        &self,
        i: usize,
        d: usize,
        own: BoxDesc,
        is_outside: bool,
        marker: Option<i32>,
        inside: Option<i32>,
        out: &mut Vec<Step>,
    )
        requires
            self.wf(),
            i < self.doc.len(),
            d < MAX_CONSTRUCT_DEPTH,
        ensures
            final(out)@ == old(out)@ + (seq![Step::Open(own)] + outside_marker_steps(
                i as int,
                is_outside,
                marker,
            ) + self.doc.flex_steps(i as int, inside, d + 1) + seq![Step::Close]),
        decreases self.doc.len() - i, 7int, 1int,
    {
        out.push(Step::Open(own));
        self.push_lead(i, is_outside, marker, out);
        self.collect_flex_grid_children(i, inside, d + 1, out);
        out.push(Step::Close);
        assert(out@ =~= old(out)@ + (seq![Step::Open(own)] + outside_marker_steps(
            i as int,
            is_outside,
            marker,
        ) + self.doc.flex_steps(i as int, inside, d + 1) + seq![Step::Close]));
    }

    fn build_table(
        &self,
        i: usize,
        d: usize,
        own: BoxDesc,
        is_outside: bool,
        marker: Option<i32>,
        out: &mut Vec<Step>,
    )
        requires
            self.wf(),
            i < self.doc.len(),
            d < MAX_CONSTRUCT_DEPTH,
        ensures
            final(out)@ == old(out)@ + (seq![Step::Open(own)] + outside_marker_steps(
                i as int,
                is_outside,
                marker,
            ) + self.doc.table_steps(i as int, 0, Seq::empty(), 0, d + 1) + seq![Step::Close]),
        decreases self.doc.len() - i, 7int, 1int,
    {
        out.push(Step::Open(own));
        self.push_lead(i, is_outside, marker, out);
        self.collect_table_children(i, d + 1, out);
        out.push(Step::Close);
        assert(out@ =~= old(out)@ + (seq![Step::Open(own)] + outside_marker_steps(
            i as int,
            is_outside,
            marker,
        ) + self.doc.table_steps(i as int, 0, Seq::empty(), 0, d + 1) + seq![Step::Close]));
    }

    fn build_flow(
        &self,
        i: usize,
        d: usize,
        own: BoxDesc,
        is_outside: bool,
        marker: Option<i32>,
        inside: Option<i32>,
        out: &mut Vec<Step>,
    )
        requires
            self.wf(),
            i < self.doc.len(),
            d < MAX_CONSTRUCT_DEPTH,
        ensures
            final(out)@ == old(out)@ + (seq![
                Step::Open(self.doc.flow_desc(i as int, inside, own)),
            ] + outside_marker_steps(i as int, is_outside, marker) + self.doc.flow_steps(
                i as int,
                inside,
                d + 1,
            ) + seq![Step::Close]),
        decreases self.doc.len() - i, 7int, 1int,
    {
        let kids: Vec<usize> = self.children(i);
        out.push(Step::Open(self.flow_desc(i, &kids, inside, own)));
        self.push_lead(i, is_outside, marker, out);
        self.collect_flow_children(i, &kids, inside, d + 1, out);
        out.push(Step::Close);
        assert(out@ =~= old(out)@ + (seq![
            Step::Open(self.doc.flow_desc(i as int, inside, own)),
        ] + outside_marker_steps(i as int, is_outside, marker) + self.doc.flow_steps(
            i as int,
            inside,
            d + 1,
        ) + seq![Step::Close]));
    }

    fn build_multicol(
        &self,
        i: usize,
        d: usize,
        own: BoxDesc,
        is_outside: bool,
        marker: Option<i32>,
        inside: Option<i32>,
        out: &mut Vec<Step>,
    )
        requires
            self.wf(),
            i < self.doc.len(),
            d < MAX_CONSTRUCT_DEPTH,
        ensures
            final(out)@ == old(out)@ + (seq![Step::Open(own)] + outside_marker_steps(
                i as int,
                is_outside,
                marker,
            ) + seq![Step::Open(self.doc.flow_desc(i as int, inside, content_flow(i as int)))]
                + self.doc.flow_steps(i as int, inside, d + 1) + seq![Step::Close, Step::Close]),
        decreases self.doc.len() - i, 7int, 1int,
    {
        let kids: Vec<usize> = self.children(i);
        let mut flow: BoxDesc = plain_desc(
            BoxKind::AnonymousBlock,
            None,
            StyleOf::Anonymous(i),
        );
        flow.as_block = true;
        out.push(Step::Open(own));
        self.push_lead(i, is_outside, marker, out);
        out.push(Step::Open(self.flow_desc(i, &kids, inside, flow)));
        self.collect_flow_children(i, &kids, inside, d + 1, out);
        out.push(Step::Close);
        out.push(Step::Close);
        assert(out@ =~= old(out)@ + (seq![Step::Open(own)] + outside_marker_steps(
            i as int,
            is_outside,
            marker,
        ) + seq![Step::Open(self.doc.flow_desc(i as int, inside, content_flow(i as int)))]
            + self.doc.flow_steps(i as int, inside, d + 1) + seq![Step::Close, Step::Close]));
    }

    fn push_lead(&self, i: usize, is_outside: bool, marker: Option<i32>, out: &mut Vec<Step>)
        ensures
            final(out)@ == old(out)@ + outside_marker_steps(i as int, is_outside, marker),
    {
        if is_outside {
            if let Some(o) = marker {
                push_leaf(out, marker_box(i, o, true));
                return;
            }
        }
        assert(out@ =~= old(out)@ + Seq::<Step>::empty());
    }

    /// The steps for the content of a flow container: its children are all inlines, all
    /// blocks, all out of the flow, or mixed.
    fn collect_flow_children(
        &self,
        i: usize,
        kids: &Vec<usize>,
        marker: Option<i32>,
        d: usize,
        out: &mut Vec<Step>,
    )
        requires
            self.wf(),
            i < self.doc.len(),
            kids@ == self.doc.expanded(i as int),
            all_after(kids@, i as int, self.doc.len() as int),
            d <= MAX_CONSTRUCT_DEPTH,
        ensures
            final(out)@ == old(out)@ + self.doc.flow_steps(i as int, marker, d as int),
        decreases self.doc.len() - i, 7int, 0int,
    {
        let ghost start = out@;
        match self.flow_kind(i, kids, marker.is_some()) {
            FlowKind::Empty => {},
            FlowKind::OutOfFlow => {
                self.push_element_boxes(i, kids, d, out);
            },
            FlowKind::Inlines => {
                self.find_embedded_inline_boxes(i, d, out);
            },
            FlowKind::Blocks => {
                self.push_marker(i, marker, out);
                self.push_before(i, out);
                self.push_element_boxes(i, kids, d, out);
                self.push_after(i, out);
            },
            FlowKind::Mixed => {
                self.push_marker(i, marker, out);
                self.push_before(i, out);
                self.collect_complex_children(i, kids, d, false, Wrap::Inlines, out);
                self.push_after(i, out);
            },
        }
        assert(out@ =~= start + self.doc.flow_steps(i as int, marker, d as int));
    }

    /// The steps for the content of a flex or grid container.
    fn collect_flex_grid_children(&self, i: usize, marker: Option<i32>, d: usize, out: &mut Vec<Step>)
        requires
            self.wf(),
            i < self.doc.len(),
            d <= MAX_CONSTRUCT_DEPTH,
        ensures
            final(out)@ == old(out)@ + self.doc.flex_steps(i as int, marker, d as int),
        decreases self.doc.len() - i, 7int, 0int,
    {
        let ghost start = out@;
        let kids: Vec<usize> = self.children(i);
        self.push_marker(i, marker, out);
        self.push_before(i, out);
        let ghost middle: Seq<Step>;
        if self.has_text(i, &kids) {
            self.collect_complex_children(i, &kids, d, true, Wrap::Text, out);
            proof {
                middle = self.doc.wrapped_steps(
                    i as int,
                    kids@,
                    0,
                    Seq::empty(),
                    d as int,
                    true,
                    Wrap::Text,
                );
            }
        } else {
            self.push_element_boxes(i, &kids, d, out);
            proof {
                middle = self.doc.element_steps(i as int, kids@, 0, d as int);
            }
        }
        self.push_after(i, out);
        proof {
            lemma_four_parts(
                start,
                self.doc.marker_steps(i as int, marker),
                self.doc.before_steps(i as int),
                middle,
                self.doc.after_steps(i as int),
            );
        }
    }

    fn has_text(&self, i: usize, kids: &Vec<usize>) -> (r: bool)
        requires
            self.wf(),
            all_after(kids@, i as int, self.doc.len() as int),
        ensures
            r == exists|j: int|
                0 <= j < kids@.len() && self.doc.node(#[trigger] kids@[j] as int).kind.holds_text(),
    {
        let mut has_text: bool = false;
        let mut k: usize = 0;
        while k < kids.len()
            invariant
                k <= kids@.len(),
                self.wf(),
                all_after(kids@, i as int, self.doc.len() as int),
                has_text == exists|j: int|
                    0 <= j < k && self.doc.node(#[trigger] kids@[j] as int).kind.holds_text(),
            decreases kids.len() - k,
        {
            let c: usize = kids[k];
            if self.doc.dom.nodes[c].kind.is_text() {
                assert(self.doc.node(kids@[k as int] as int).kind.holds_text());
                has_text = true;
            }
            k = k + 1;
        }
        has_text
    }

    /// The steps for those of some children that are elements.
    fn push_element_boxes(&self, i: usize, kids: &Vec<usize>, d: usize, out: &mut Vec<Step>)
        requires
            self.wf(),
            i < self.doc.len(),
            all_after(kids@, i as int, self.doc.len() as int),
            d <= MAX_CONSTRUCT_DEPTH,
        ensures
            final(out)@ == old(out)@ + self.doc.element_steps(i as int, kids@, 0, d as int),
        decreases self.doc.len() - i, 5int, 0int,
    {
        let ghost all = out@ + self.doc.element_steps(i as int, kids@, 0, d as int);
        let mut k: usize = 0;
        while k < kids.len()
            invariant
                k <= kids@.len(),
                self.wf(),
                i < self.doc.len(),
                all_after(kids@, i as int, self.doc.len() as int),
                d <= MAX_CONSTRUCT_DEPTH,
                all == out@ + self.doc.element_steps(i as int, kids@, k as int, d as int),
            decreases kids.len() - k,
        {
            let c: usize = kids[k];
            let ghost before = out@;
            let ghost rest = self.doc.element_steps(i as int, kids@, k + 1, d as int);
            assert(i < kids@[k as int] < self.doc.len());
            if self.doc.dom.nodes[c].kind == NodeKind::Element {
                self.build_box(c, d, out);
                assert(out@ + rest =~= before + (self.doc.box_steps(c as int, d as int) + rest));
            } else {
                assert(out@ + rest =~= before + (Seq::<Step>::empty() + rest));
            }
            k = k + 1;
        }
        assert(out@ =~= all);
    }

    fn wraps(&self, c: usize, wrap: Wrap) -> (r: bool)
        requires
            self.wf(),
            c < self.doc.len(),
        ensures
            r == self.doc.is_wrapped(c as int, wrap),
    {
        let kind: NodeKind = self.doc.dom.nodes[c].kind;
        kind.is_text() || (wrap == Wrap::Inlines && !self.blocks[c] && (kind != NodeKind::Element
            || self.doc.display_of(c).outside == DisplayOutside::Inline))
    }

    /// The steps for children of which runs of inlines are wrapped in anonymous blocks.
    fn collect_complex_children(
        &self,
        i: usize,
        kids: &Vec<usize>,
        d: usize,
        hide: bool,
        wrap: Wrap,
        out: &mut Vec<Step>,
    )
        requires
            self.wf(),
            i < self.doc.len(),
            all_after(kids@, i as int, self.doc.len() as int),
            d <= MAX_CONSTRUCT_DEPTH,
        ensures
            final(out)@ == old(out)@ + self.doc.wrapped_steps(
                i as int,
                kids@,
                0,
                Seq::empty(),
                d as int,
                hide,
                wrap,
            ),
        decreases self.doc.len() - i, 5int, 0int,
    {
        let mut run: Vec<usize> = Vec::new();
        assert(run@ =~= Seq::<usize>::empty());
        let ghost all = out@ + self.doc.wrapped_steps(
            i as int,
            kids@,
            0,
            Seq::empty(),
            d as int,
            hide,
            wrap,
        );
        let mut k: usize = 0;
        while k < kids.len()
            invariant
                k <= kids@.len(),
                self.wf(),
                i < self.doc.len(),
                all_after(kids@, i as int, self.doc.len() as int),
                all_after(run@, i as int, self.doc.len() as int),
                d <= MAX_CONSTRUCT_DEPTH,
                all == out@ + self.doc.wrapped_steps(
                    i as int,
                    kids@,
                    k as int,
                    run@,
                    d as int,
                    hide,
                    wrap,
                ),
            decreases kids.len() - k,
        {
            let c: usize = kids[k];
            assert(i < kids@[k as int] < self.doc.len());
            let n: &DomNode = &self.doc.dom.nodes[c];
            let skipped: bool = (hide && n.is_whitespace_text()) || (n.kind == NodeKind::Element
                && self.doc.display_of(c).inside == DisplayInside::Absent);
            if !skipped {
                if self.wraps(c, wrap) {
                    run.push(c);
                } else {
                    let ghost before = out@;
                    let ghost waiting = run@;
                    self.flush_inline_run(i, &run, d, out);
                    let ghost flushed = out@;
                    if n.kind == NodeKind::Element {
                        self.build_box(c, d, out);
                    }
                    run = Vec::new();
                    assert(run@ =~= Seq::<usize>::empty());
                    proof {
                        let own = if self.doc.node(c as int).kind is Element {
                            self.doc.box_steps(c as int, d as int)
                        } else {
                            Seq::empty()
                        };
                        let rest = self.doc.wrapped_steps(
                            i as int,
                            kids@,
                            k + 1,
                            Seq::empty(),
                            d as int,
                            hide,
                            wrap,
                        );
                        assert(out@ =~= flushed + own);
                        assert(out@ + rest =~= before + (self.doc.run_steps(
                            i as int,
                            waiting,
                            d as int,
                        ) + own + rest));
                    }
                }
            }
            k = k + 1;
        }
        self.flush_inline_run(i, &run, d, out);
    }

    fn is_all_blank(&self, list: &Vec<usize>, i: usize) -> (r: bool)
        requires
            self.wf(),
            all_after(list@, i as int, self.doc.len() as int),
        ensures
            r == forall|k: int|
                0 <= k < list@.len() ==> self.doc.node(#[trigger] list@[k] as int).is_blank(),
    {
        let mut k: usize = 0;
        while k < list.len()
            invariant
                k <= list@.len(),
                self.wf(),
                all_after(list@, i as int, self.doc.len() as int),
                forall|j: int|
                    0 <= j < k ==> self.doc.node(#[trigger] list@[j] as int).is_blank(),
            decreases list.len() - k,
        {
            if !self.doc.dom.nodes[list[k]].is_whitespace_text() {
                assert(!self.doc.node(list@[k as int] as int).is_blank());
                return false;
            }
            k = k + 1;
        }
        true
    }

    /// The steps for a run of inlines: an anonymous block around them that is the root of
    /// their inline content. A run of only white space is dropped.
    fn flush_inline_run(&self, i: usize, run: &Vec<usize>, d: usize, out: &mut Vec<Step>)
        requires
            self.wf(),
            i < self.doc.len(),
            all_after(run@, i as int, self.doc.len() as int),
            d <= MAX_CONSTRUCT_DEPTH,
        ensures
            final(out)@ == old(out)@ + self.doc.run_steps(i as int, run@, d as int),
        decreases self.doc.len() - i, 4int, 0int,
    {
        let ghost start = out@;
        if self.is_all_blank(run, i) {
            assert(out@ =~= start + self.doc.run_steps(i as int, run@, d as int));
            return;
        }
        let mut desc: BoxDesc = plain_desc(
            BoxKind::AnonymousBlock,
            None,
            StyleOf::Anonymous(i),
        );
        desc.inline = InlineSource::Items;
        out.push(Step::Open(desc));
        let ghost opened = out@;
        let mut k: usize = 0;
        while k < run.len()
            invariant
                k <= run@.len(),
                out@ == opened + item_steps(run@.take(k as int)),
            decreases run.len() - k,
        {
            out.push(Step::Inline(run[k]));
            assert(item_steps(run@.take(k + 1)) =~= item_steps(run@.take(k as int)).push(
                Step::Inline(run@[k as int]),
            ));
            k = k + 1;
        }
        assert(run@.take(k as int) =~= run@);
        let ghost all = out@ + self.doc.embedded_run(i as int, run@, 0, d as int);
        let mut j: usize = 0;
        while j < run.len()
            invariant
                j <= run@.len(),
                self.wf(),
                i < self.doc.len(),
                all_after(run@, i as int, self.doc.len() as int),
                d <= MAX_CONSTRUCT_DEPTH,
                all == out@ + self.doc.embedded_run(i as int, run@, j as int, d as int),
            decreases run.len() - j,
        {
            let ghost before = out@;
            let ghost rest = self.doc.embedded_run(i as int, run@, j + 1, d as int);
            assert(i < run@[j as int] < self.doc.len());
            self.find_embedded_inline_boxes_for_node(run[j], d, out);
            assert(out@ + rest =~= before + (self.doc.embedded_steps(
                run@[j as int] as int,
                d as int,
            ) + rest));
            j = j + 1;
        }
        assert(out@ =~= all);
        out.push(Step::Close);
        assert(out@ =~= start + self.doc.run_steps(i as int, run@, d as int));
    }

    /// The steps for the boxes inside the inline content of an element.
    fn find_embedded_inline_boxes(&self, i: usize, d: usize, out: &mut Vec<Step>)
        requires
            self.wf(),
            i < self.doc.len(),
            d <= MAX_CONSTRUCT_DEPTH,
        ensures
            final(out)@ == old(out)@ + self.doc.embedded_children(i as int, 0, d as int),
        decreases self.doc.len() - i, 6int, 0int,
    {
        assert(self.doc.dom.node_ok(i as int));
        let n: &DomNode = &self.doc.dom.nodes[i];
        let ghost all = out@ + self.doc.embedded_children(i as int, 0, d as int);
        let mut k: usize = 0;
        while k < n.flat_children.len()
            invariant
                k <= n.flat_children@.len(),
                self.wf(),
                i < self.doc.len(),
                *n == self.doc.node(i as int),
                self.doc.dom.node_ok(i as int),
                d <= MAX_CONSTRUCT_DEPTH,
                all == out@ + self.doc.embedded_children(i as int, k as int, d as int),
            decreases n.flat_children.len() - k,
        {
            let c: usize = n.flat_children[k];
            assert(i < n.flat_children@[k as int] < self.doc.len());
            let ghost before = out@;
            let ghost rest = self.doc.embedded_children(i as int, k + 1, d as int);
            self.find_embedded_inline_boxes_for_node(c, d, out);
            assert(out@ + rest =~= before + (self.doc.embedded_steps(c as int, d as int) + rest));
            k = k + 1;
        }
        assert(out@ =~= all);
    }

    /// The steps for the boxes that a node puts into inline content.
    fn find_embedded_inline_boxes_for_node(&self, c: usize, d: usize, out: &mut Vec<Step>)
        requires
            self.wf(),
            c < self.doc.len(),
            d <= MAX_CONSTRUCT_DEPTH,
        ensures
            final(out)@ == old(out)@ + self.doc.embedded_steps(c as int, d as int),
        decreases self.doc.len() - c, 10int, 0int,
    {
        let ghost start = out@;
        if self.doc.dom.nodes[c].kind != NodeKind::Element || self.doc.is_hidden_input(c) {
            assert(out@ =~= start + self.doc.embedded_steps(c as int, d as int));
            return;
        }
        let display: CssDisplay = self.doc.display_of(c);
        match (display.outside, display.inside) {
            (DisplayOutside::Absent, DisplayInside::Absent) => {},
            (DisplayOutside::Absent, DisplayInside::Contents) => {
                self.find_embedded_inline_boxes(c, d, out);
            },
            (DisplayOutside::Inline, DisplayInside::Flow) => {
                if self.doc.is_atomic_inline_tag(c) {
                    self.build_box(c, d, out);
                } else if !self.doc.dom.nodes[c].tag_is("br") {
                    self.find_embedded_inline_boxes(c, d, out);
                }
            },
            _ => {
                self.build_box(c, d, out);
            },
        }
        assert(out@ =~= start + self.doc.embedded_steps(c as int, d as int));
    }

    fn is_table_internal(&self, c: usize) -> (r: bool)
        requires
            self.wf(),
            c < self.doc.len(),
        ensures
            r == self.doc.is_internal(c as int),
    {
        match &self.doc.styles[c].primary {
            Some(s) => matches!(
                s.display.inside,
                DisplayInside::TableRowGroup | DisplayInside::TableHeaderGroup
                    | DisplayInside::TableFooterGroup | DisplayInside::TableRow
                    | DisplayInside::TableCell | DisplayInside::Contents
            ),
            None => false,
        }
    }

    /// The steps for content of a table that is in no cell.
    fn flush_anonymous_cell(
        &self,
        i: usize,
        stray: &Vec<usize>,
        row: u32,
        d: usize,
        out: &mut Vec<Step>,
    ) -> (r: u32)
        requires
            self.wf(),
            i < self.doc.len(),
            all_after(stray@, i as int, self.doc.len() as int),
            d <= MAX_CONSTRUCT_DEPTH,
        ensures
            final(out)@ == old(out)@ + self.doc.stray_steps(
                i as int,
                stray@,
                row as int,
                d as int,
            ),
            r == self.doc.rows_after_stray(stray@, row as int),
        decreases self.doc.len() - i, 6int, 0int,
    {
        let ghost start = out@;
        if self.is_all_blank(stray, i) {
            assert(out@ =~= start + self.doc.stray_steps(i as int, stray@, row as int, d as int));
            return row;
        }
        let mut desc: BoxDesc = plain_desc(BoxKind::Block, None, StyleOf::Anonymous(i));
        desc.as_block = true;
        out.push(Step::Cell(CellPlace { row: row_after(row), colspan: 1, rowspan: 1 }));
        out.push(Step::Open(desc));
        self.collect_complex_children(i, stray, d, true, Wrap::Inlines, out);
        out.push(Step::Close);
        assert(out@ =~= start + self.doc.stray_steps(i as int, stray@, row as int, d as int));
        row_after(row)
    }

    /// The steps for the content of a table: its cells, and anonymous cells around what is in
    /// none.
    fn collect_table_children(&self, i: usize, d: usize, out: &mut Vec<Step>)
        requires
            self.wf(),
            i < self.doc.len(),
            d <= MAX_CONSTRUCT_DEPTH,
        ensures
            final(out)@ == old(out)@ + self.doc.table_steps(i as int, 0, Seq::empty(), 0, d as int),
        decreases self.doc.len() - i, 7int, 0int,
    {
        assert(self.doc.dom.node_ok(i as int));
        let n: &DomNode = &self.doc.dom.nodes[i];
        let mut stray: Vec<usize> = Vec::new();
        assert(stray@ =~= Seq::<usize>::empty());
        let mut row: u32 = 0;
        let ghost all = out@ + self.doc.table_steps(i as int, 0, Seq::empty(), 0, d as int);
        let mut k: usize = 0;
        while k < n.flat_children.len()
            invariant
                k <= n.flat_children@.len(),
                self.wf(),
                i < self.doc.len(),
                *n == self.doc.node(i as int),
                self.doc.dom.node_ok(i as int),
                d <= MAX_CONSTRUCT_DEPTH,
                all_after(stray@, i as int, self.doc.len() as int),
                all == out@ + self.doc.table_steps(
                    i as int,
                    k as int,
                    stray@,
                    row as int,
                    d as int,
                ),
            decreases n.flat_children.len() - k,
        {
            let c: usize = n.flat_children[k];
            assert(i < n.flat_children@[k as int] < self.doc.len());
            if self.is_table_internal(c) {
                let ghost before = out@;
                let ghost waiting = stray@;
                let ghost row0 = row;
                row = self.flush_anonymous_cell(i, &stray, row, d, out);
                let ghost rows = row;
                row = self.collect_table_cells(c, row, d, out);
                stray = Vec::new();
                assert(stray@ =~= Seq::<usize>::empty());
                proof {
                    let rest = self.doc.table_steps(
                        i as int,
                        k + 1,
                        Seq::empty(),
                        row as int,
                        d as int,
                    );
                    assert(out@ + rest =~= before + (self.doc.stray_steps(
                        i as int,
                        waiting,
                        row0 as int,
                        d as int,
                    ) + self.doc.cell_steps(c as int, rows as int, d as int) + rest));
                }
            } else {
                stray.push(c);
            }
            k = k + 1;
        }
        let rows: u32 = self.flush_anonymous_cell(i, &stray, row, d, out);
        out.push(Step::Rows(rows));
        assert(out@ =~= all);
    }

    /// The steps for the cells of a part of a table. Gives the number of rows after it.
    fn collect_table_cells(&self, c: usize, row: u32, d: usize, out: &mut Vec<Step>) -> (r: u32)
        requires
            self.wf(),
            c < self.doc.len(),
            d <= MAX_CONSTRUCT_DEPTH,
        ensures
            final(out)@ == old(out)@ + self.doc.cell_steps(c as int, row as int, d as int),
            r == self.doc.rows_after(c as int, row as int),
        decreases self.doc.len() - c, 10int, 0int,
    {
        let ghost start = out@;
        let display: CssDisplay = match &self.doc.styles[c].primary {
            Some(s) => s.display,
            None => {
                assert(out@ =~= start + self.doc.cell_steps(c as int, row as int, d as int));
                return row;
            },
        };
        if self.doc.dom.nodes[c].kind != NodeKind::Element || display.outside
            == DisplayOutside::Absent {
            assert(out@ =~= start + self.doc.cell_steps(c as int, row as int, d as int));
            return row;
        }
        match display.inside {
            DisplayInside::TableRowGroup | DisplayInside::TableHeaderGroup
            | DisplayInside::TableFooterGroup | DisplayInside::Contents => {
                self.collect_cells_inside(c, row, d, out)
            },
            DisplayInside::TableRow => self.collect_cells_inside(c, row_after(row), d, out),
            DisplayInside::TableCell => {
                let mut cell: Vec<Step> = Vec::new();
                self.build_box(c, d, &mut cell);
                assert(cell@ =~= self.doc.box_steps(c as int, d as int));
                if cell.len() > 0 {
                    out.push(
                        Step::Cell(
                            CellPlace {
                                row,
                                colspan: span_of(self.doc.dom.nodes[c].attr("colspan"), 1000),
                                rowspan: span_of(self.doc.dom.nodes[c].attr("rowspan"), 65534),
                            },
                        ),
                    );
                    push_all(out, &cell);
                }
                assert(out@ =~= start + self.doc.cell_steps(c as int, row as int, d as int));
                row
            },
            _ => {
                assert(out@ =~= start + self.doc.cell_steps(c as int, row as int, d as int));
                row
            },
        }
    }

    fn collect_cells_inside(&self, c: usize, from: u32, d: usize, out: &mut Vec<Step>) -> (r: u32)
        requires
            self.wf(),
            c < self.doc.len(),
            d <= MAX_CONSTRUCT_DEPTH,
        ensures
            final(out)@ == old(out)@ + self.doc.cells_inside(c as int, 0, from as int, d as int),
            r == self.doc.rows_after_children(c as int, 0, from as int),
        decreases self.doc.len() - c, 6int, 0int,
    {
        assert(self.doc.dom.node_ok(c as int));
        let n: &DomNode = &self.doc.dom.nodes[c];
        let mut row: u32 = from;
        let ghost all = out@ + self.doc.cells_inside(c as int, 0, from as int, d as int);
        let mut k: usize = 0;
        while k < n.flat_children.len()
            invariant
                k <= n.flat_children@.len(),
                self.wf(),
                c < self.doc.len(),
                *n == self.doc.node(c as int),
                self.doc.dom.node_ok(c as int),
                d <= MAX_CONSTRUCT_DEPTH,
                all == out@ + self.doc.cells_inside(c as int, k as int, row as int, d as int),
                self.doc.rows_after_children(c as int, 0, from as int)
                    == self.doc.rows_after_children(c as int, k as int, row as int),
            decreases n.flat_children.len() - k,
        {
            let e: usize = n.flat_children[k];
            assert(c < n.flat_children@[k as int] < self.doc.len());
            let ghost before = out@;
            let ghost row0 = row;
            row = self.collect_table_cells(e, row, d, out);
            proof {
                let rest = self.doc.cells_inside(c as int, k + 1, row as int, d as int);
                assert(out@ + rest =~= before + (self.doc.cell_steps(
                    e as int,
                    row0 as int,
                    d as int,
                ) + rest));
            }
            k = k + 1;
        }
        assert(out@ =~= all);
        row
    }
}

fn push_all(out: &mut Vec<Step>, more: &Vec<Step>)
    ensures
        final(out)@ == old(out)@ + more@,
{
    let ghost start = out@;
    let mut k: usize = 0;
    while k < more.len()
        invariant
            k <= more@.len(),
            out@ == start + more@.take(k as int),
        decreases more.len() - k,
    {
        out.push(more[k]);
        assert(more@.take(k + 1) =~= more@.take(k as int).push(more@[k as int]));
        k = k + 1;
    }
    assert(more@.take(k as int) =~= more@);
}

fn span_of(text: Option<&String>, most: u16) -> (r: u16)
    requires
        most >= 1,
    ensures
        r == span(
            match text {
                Some(t) => Some(t@),
                None => None,
            },
            most as int,
        ),
{
    match text {
        Some(t) => match parse_u16(t.as_str()) {
            Some(v) => if v < 1 {
                1
            } else if v > most {
                most
            } else {
                v
            },
            None => 1,
        },
        None => 1,
    }
}

/// The marker box of a list item. Its style is that of an anonymous box in the item: it has
/// the item's font and none of its box properties.
fn marker_box(i: usize, ordinal: i32, outside: bool) -> (r: BoxDesc)
    ensures
        r == marker_desc(i as int, ordinal, outside),
{
    let mut desc: BoxDesc = plain_desc(BoxKind::InlineRoot, Some(i), StyleOf::Anonymous(i));
    desc.pseudo = Some(PseudoBox::Marker);
    desc.as_block = true;
    desc.outside = outside;
    desc.inline = InlineSource::Marker(ordinal);
    desc
}

fn is_empty_text(s: &String) -> (r: bool)
    ensures
        r == (s@.len() == 0),
{
    let cs: Vec<char> = crate::chars::to_chars(s.as_str());
    cs.len() == 0
}

fn is_inline(p: Option<&PseudoStyle>) -> (r: bool)
    ensures
        r == pseudo_is_inline(
            match p {
                Some(s) => Some(*s),
                None => None,
            },
        ),
{
    match p {
        Some(s) => s.style.display.outside == DisplayOutside::Inline,
        None => false,
    }
}

fn is_block(p: Option<&PseudoStyle>) -> (r: bool)
    ensures
        r == pseudo_is_block(
            match p {
                Some(s) => Some(*s),
                None => None,
            },
        ),
{
    match p {
        Some(s) => s.style.display.outside != DisplayOutside::Inline && s.style.display.outside
            != DisplayOutside::Absent,
        None => false,
    }
}

fn clears_floats(p: Option<&PseudoStyle>) -> (r: bool)
    ensures
        r == pseudo_clears(
            match p {
                Some(s) => Some(*s),
                None => None,
            },
        ),
{
    match p {
        Some(s) => s.style.box_style.clear != Clear::Off,
        None => false,
    }
}

/// A cell spans as many columns or rows as its attribute says: at least one, at most what is
/// allowed, and one where the attribute gives no number.
pub proof fn cells_span_what_their_attribute_says(text: Seq<char>, most: int)
    requires
        1 <= most <= u16::MAX,
    ensures
        span(None, most) == 1,
        match small_count(text) {
            Some(v) => {
                &&& v == 0 ==> span(Some(text), most) == 1
                &&& 1 <= v <= most ==> span(Some(text), most) == v
                &&& v > most ==> span(Some(text), most) == most
            },
            None => span(Some(text), most) == 1,
        },
{
}

/// A flow container keeps floats to itself where one of its children floats and one clears.
pub proof fn floats_are_kept_from_what_follows(
    doc: &Styled,
    i: int,
    marker: Option<i32>,
    base: BoxDesc,
    k: int,
    l: int,
)
    requires
        0 <= k < doc.expanded(i).len(),
        0 <= l < doc.expanded(i).len(),
        doc.style(doc.expanded(i)[k] as int) is Some,
        doc.style(doc.expanded(i)[l] as int) is Some,
        doc.style(doc.expanded(i)[k] as int)->Some_0.float != Float::Off,
        doc.style(doc.expanded(i)[l] as int)->Some_0.box_style.clear != Clear::Off,
    ensures
        doc.flow_desc(i, marker, base).force_bfc,
{
    assert(doc.floats(doc.expanded(i)[k] as int));
    assert(doc.clears(doc.expanded(i)[l] as int));
}

/// Where no child floats, nothing is kept from what follows.
pub proof fn nothing_is_kept_without_floats(
    doc: &Styled,
    i: int,
    marker: Option<i32>,
    base: BoxDesc,
)
    requires
        forall|k: int|
            0 <= k < doc.expanded(i).len() ==> match doc.style(
                #[trigger] doc.expanded(i)[k] as int,
            ) {
                Some(s) => s.float == Float::Off,
                None => true,
            },
    ensures
        !doc.flow_desc(i, marker, base).force_bfc,
{
}

} // verus!
