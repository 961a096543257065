//! The inline content of a box, as a program for a text shaper: text, the spans that style
//! it, white space modes and places for atomic boxes, in order.

use vstd::prelude::*;

use crate::assemble::{find_values, values_of};
use crate::chars;
use crate::construct::{InlineSource, StyleOf};
use crate::document::{flow_triple, flow_values, PseudoStyle, Styled};
use crate::dom::{DomNode, NodeKind};
use crate::style::{
    collapsing_of, resolve_line_height, used_line_height, white_space_collapse, Collapsing,
    ComputedStyle, CssDisplay, DisplayInside, DisplayOutside, TextCase,
};
use crate::tree::{BoxId, CssPosition, Float, LayoutBox, LayoutTree, NodeId, PseudoBox};
use crate::units::{max, max_i32};

verus! {

/// How an atomic box takes part in its line.
#[derive(Clone, Copy, PartialEq, Eq, Debug, Structural)]
pub enum AtomicKind {
    InFlow,
    /// Absolutely positioned.
    OutOfFlow,
    Floating,
}

/// One instruction for the shaper. Nodes are given by their position in the document.
#[derive(Clone, Copy, PartialEq, Eq, Debug, Structural)]
pub enum InlineOp {
    /// What happens to white space from here on.
    WhiteSpace(Collapsing),
    /// The text of a node.
    Text { node: usize, case: TextCase },
    /// A line break that is kept.
    LineBreak,
    /// The span of an inline element starts; its lines are at least this high.
    OpenSpan { node: usize, line_height: i32 },
    /// The span that was opened last ends. White space before its end is kept.
    CloseSpan,
    /// An atomic box.
    Atomic { id: BoxId, kind: AtomicKind },
    /// The text of a pseudo-element of the element, in a span of its own.
    PseudoText { element: usize, which: PseudoBox, line_height: i32 },
    /// The text of the pseudo-element or marker that the box is.
    OwnText,
    /// The marker with this ordinal, in the style of the element.
    MarkerText { element: usize, ordinal: i32 },
}

/// How a node takes part in a line.
pub open spec fn atomic_kind(style: Option<ComputedStyle>) -> AtomicKind {
    let (display, position, float) = flow_values(style);
    if position is Absolute || position is Fixed {
        AtomicKind::OutOfFlow
    } else if !(float is Off) {
        AtomicKind::Floating
    } else {
        AtomicKind::InFlow
    }
}

/// The child of the box `id` that is the box of `node`, among the first `n`: the last one.
pub open spec fn child_of_node(tree: LayoutTree, id: BoxId, node: NodeId, n: int) -> Option<BoxId>
    decreases n,
{
    if n <= 0 {
        None
    } else {
        let c = tree.at(id).children@[n - 1];
        if tree.at(c).pseudo is None && tree.at(c).dom_node == Some(node) {
            Some(c)
        } else {
            child_of_node(tree, id, node, n - 1)
        }
    }
}

fn find_child_of_node(tree: &LayoutTree, id: BoxId, node: NodeId) -> (r: Option<BoxId>)
    requires
        tree.wf(),
        tree.has(id),
    ensures
        r == child_of_node(*tree, id, node, tree.at(id).children@.len() as int),
{
    assert(tree.links_ok(id.0 as int));
    let b: &LayoutBox = tree.box_(id);
    let mut k: usize = b.children.len();
    while k > 0
        invariant
            k <= b.children@.len(),
            tree.wf(),
            tree.has(id),
            *b == tree.at(id),
            tree.links_ok(id.0 as int),
            child_of_node(*tree, id, node, b.children@.len() as int) == child_of_node(
                *tree,
                id,
                node,
                k as int,
            ),
        decreases k,
    {
        let child: BoxId = b.children[k - 1];
        let c: &LayoutBox = tree.box_(child);
        if c.pseudo.is_none() {
            if let Some(n) = c.dom_node {
                if n == node {
                    return Some(child);
                }
            }
        }
        k = k - 1;
    }
    None
}

/// The element that owns the text of inline content which no inline element owns: the one whose
/// children the content is. In the content flow of a multi-column container that is the
/// container, though the flow is an anonymous box. Generated text and the items of an anonymous
/// box have no owner.
pub fn content_owner(source: InlineSource) -> (r: Option<usize>)
    ensures
        r == match source {
            InlineSource::Children { element, .. } => Some(element),
            _ => None,
        },
{
    match source {
        InlineSource::Children { element, marker: _ } => Some(element),
        _ => None,
    }
}

/// The line height of a span that has no style: as much as the font size that such a span is
/// shaped at, 16px.
pub const UNSTYLED_LINE_HEIGHT: i32 = 1024;

/// The box whose inline content is written down, and the height of its lines.
#[derive(Clone, Copy, PartialEq, Eq, Debug, Structural)]
pub struct InlineRoot {
    pub id: BoxId,
    pub line_height: i32,
}

impl Styled {
    /// The case that the text in the node at `c` has.
    pub open spec fn case_of(&self, c: int) -> TextCase {
        match self.style(c) {
            Some(s) => s.text_case,
            None => TextCase::Unchanged,
        }
    }

    /// What happens to white space in the node at `c`.
    pub open spec fn collapsing(&self, c: int, outer: Collapsing) -> Collapsing {
        match self.style(c) {
            Some(s) => collapsing_of(s.white_space),
            None => outer,
        }
    }

    /// The height of lines that hold a part of the node at `c`: its own, and no less than the
    /// root's. A node without a style has the shaper's own line height.
    pub open spec fn span_height(&self, root: InlineRoot, c: int) -> i32 {
        let own = match self.style(c) {
            Some(s) => used_line_height(s.line_height, s.font_size as int),
            None => UNSTYLED_LINE_HEIGHT as int,
        };
        max(own, root.line_height as int) as i32
    }

    /// What the node at `c` adds to the inline content of `root`.
    pub open spec fn inline_ops(
        &self,
        tree: LayoutTree,
        root: InlineRoot,
        c: int,
        outer: Collapsing,
        case: TextCase,
    ) -> Seq<InlineOp>
        decreases self.len() - c, self.node(c).flat_children@.len() + 1,
    {
        let n = self.node(c);
        if n.kind.holds_text() {
            seq![InlineOp::Text { node: c as usize, case }]
        } else if !(n.kind is Element) || self.is_hidden_control(c) {
            Seq::empty()
        } else {
            let mode = self.collapsing(c, outer);
            let own = self.case_of(c);
            let lead = seq![InlineOp::WhiteSpace(mode)];
            let d = self.display(c);
            if d.outside is Absent && d.inside is Absent {
                lead
            } else if d.outside is Absent && d.inside is Contents {
                lead + self.inline_ops_inside(tree, root, c, 0, mode, own)
            } else if d.outside is Inline && d.inside is Flow && !self.is_atomic(c) {
                if n.is_tag("br"@) {
                    lead + seq![InlineOp::LineBreak, InlineOp::WhiteSpace(mode)]
                } else {
                    lead + seq![
                        InlineOp::OpenSpan {
                            node: c as usize,
                            line_height: self.span_height(root, c),
                        },
                    ] + self.inline_ops_inside(tree, root, c, 0, mode, own) + seq![
                        InlineOp::CloseSpan,
                    ]
                }
            } else {
                match child_of_node(
                    tree,
                    root.id,
                    n.id,
                    tree.at(root.id).children@.len() as int,
                ) {
                    Some(id) => lead + seq![
                        InlineOp::Atomic { id, kind: atomic_kind(self.style(c)) },
                    ],
                    None => lead,
                }
            }
        }
    }

    /// What the children of the node at `c`, from the `k`th on, add to the inline content of
    /// `root`.
    pub open spec fn inline_ops_inside(
        &self,
        tree: LayoutTree,
        root: InlineRoot,
        c: int,
        k: int,
        outer: Collapsing,
        case: TextCase,
    ) -> Seq<InlineOp>
        decreases self.len() - c, self.node(c).flat_children@.len() - k,
    {
        let kids = self.node(c).flat_children@;
        if 0 <= k < kids.len() {
            let e = kids[k] as int;
            (if c < e < self.len() {
                self.inline_ops(tree, root, e, outer, case)
            } else {
                Seq::empty()
            }) + self.inline_ops_inside(tree, root, c, k + 1, outer, case)
        } else {
            Seq::empty()
        }
    }

    /// What a pseudo-element of the element at `i` adds to the inline content of `root`.
    pub open spec fn pseudo_ops(
        &self,
        root: InlineRoot,
        i: int,
        which: PseudoBox,
        p: Option<PseudoStyle>,
        mode: Collapsing,
    ) -> Seq<InlineOp> {
        match p {
            Some(s) => if s.shown().len() == 0 {
                Seq::empty()
            } else {
                seq![
                    InlineOp::PseudoText {
                        element: i as usize,
                        which,
                        line_height: max(
                            used_line_height(s.style.line_height, s.style.font_size as int),
                            root.line_height as int,
                        ) as i32,
                    },
                    InlineOp::WhiteSpace(mode),
                ]
            },
            None => Seq::empty(),
        }
    }

    /// What the first `n` of some items add to the inline content of `root`.
    pub open spec fn item_ops(
        &self,
        tree: LayoutTree,
        root: InlineRoot,
        items: Seq<usize>,
        n: int,
        mode: Collapsing,
        case: TextCase,
    ) -> Seq<InlineOp>
        decreases n,
    {
        if n <= 0 {
            Seq::empty()
        } else {
            self.item_ops(tree, root, items, n - 1, mode, case) + (if items[n - 1] < self.len() {
                self.inline_ops(tree, root, items[n - 1] as int, mode, case)
            } else {
                Seq::empty()
            })
        }
    }

    /// The inline content of a box: its marker, its pseudo-elements and its children, or the
    /// items that it wraps, or its own text.
    pub open spec fn inline_program(
        &self,
        tree: LayoutTree,
        id: BoxId,
        source: InlineSource,
        style: StyleOf,
        items: Seq<usize>,
    ) -> Seq<InlineOp> {
        let values = values_of(*self, style);
        let root = InlineRoot {
            id,
            line_height: used_line_height(values.line_height, values.font_size as int) as i32,
        };
        let mode = collapsing_of(values.white_space);
        let lead = seq![InlineOp::WhiteSpace(mode)];
        match source {
            InlineSource::Nothing => Seq::empty(),
            InlineSource::Children { element, marker } => lead + (match marker {
                Some(ordinal) => seq![InlineOp::MarkerText { element, ordinal }],
                None => Seq::empty(),
            }) + self.pseudo_ops(
                root,
                element as int,
                PseudoBox::Before,
                self.before(element as int),
                mode,
            ) + self.inline_ops_inside(tree, root, element as int, 0, mode, values.text_case)
                + self.pseudo_ops(
                root,
                element as int,
                PseudoBox::After,
                self.after(element as int),
                mode,
            ),
            InlineSource::Items => lead + self.item_ops(
                tree,
                root,
                items,
                items.len() as int,
                mode,
                values.text_case,
            ),
            InlineSource::Generated | InlineSource::Marker(_) => lead + seq![InlineOp::OwnText],
        }
    }

    fn find_span_height(&self, root: InlineRoot, c: usize) -> (r: i32)
        requires
            self.wf(),
            c < self.len(),
        ensures
            r == self.span_height(root, c as int),
    {
        let own: i32 = match &self.styles[c].primary {
            Some(s) => resolve_line_height(s.line_height, s.font_size),
            None => UNSTYLED_LINE_HEIGHT,
        };
        max_i32(own, root.line_height)
    }

    /// Writes down what a node adds to inline content.
    #[verifier::rlimit(50)]
    fn walk(
        &self,
        tree: &LayoutTree,
        root: InlineRoot,
        c: usize,
        outer: Collapsing,
        case: TextCase,
        out: &mut Vec<InlineOp>,
    )
        requires
            self.wf(),
            c < self.len(),
            tree.wf(),
            tree.has(root.id),
        ensures
            final(out)@ == old(out)@ + self.inline_ops(*tree, root, c as int, outer, case),
        decreases self.len() - c, 1int,
    {
        let ghost start = out@;
        let n: &DomNode = &self.dom.nodes[c];
        if n.kind.is_text() {
            out.push(InlineOp::Text { node: c, case });
            assert(out@ =~= start + self.inline_ops(*tree, root, c as int, outer, case));
            return;
        }
        if n.kind != NodeKind::Element || self.is_hidden_input(c) {
            assert(out@ =~= start + self.inline_ops(*tree, root, c as int, outer, case));
            return;
        }
        let (mode, own): (Collapsing, TextCase) = match &self.styles[c].primary {
            Some(s) => (white_space_collapse(s.white_space), s.text_case),
            None => (outer, TextCase::Unchanged),
        };
        out.push(InlineOp::WhiteSpace(mode));
        let (d, position, float): (CssDisplay, CssPosition, Float) = flow_triple(
            &self.styles[c].primary,
        );
        if d.outside == DisplayOutside::Absent && d.inside == DisplayInside::Absent {
        } else if d.outside == DisplayOutside::Absent && d.inside == DisplayInside::Contents {
            self.walk_children(tree, root, c, mode, own, out);
        } else if d.outside == DisplayOutside::Inline && d.inside == DisplayInside::Flow
            && !self.is_atomic_inline_tag(c) {
            if n.tag_is("br") {
                out.push(InlineOp::LineBreak);
                out.push(InlineOp::WhiteSpace(mode));
            } else {
                out.push(
                    InlineOp::OpenSpan { node: c, line_height: self.find_span_height(root, c) },
                );
                self.walk_children(tree, root, c, mode, own, out);
                out.push(InlineOp::CloseSpan);
            }
        } else if let Some(id) = find_child_of_node(tree, root.id, n.id) {
            let kind: AtomicKind = if position == CssPosition::Absolute || position
                == CssPosition::Fixed {
                AtomicKind::OutOfFlow
            } else if float != Float::Off {
                AtomicKind::Floating
            } else {
                AtomicKind::InFlow
            };
            out.push(InlineOp::Atomic { id, kind });
        }
        assert(out@ =~= start + self.inline_ops(*tree, root, c as int, outer, case));
    }

    fn walk_children(
        &self,
        tree: &LayoutTree,
        root: InlineRoot,
        c: usize,
        outer: Collapsing,
        case: TextCase,
        out: &mut Vec<InlineOp>,
    )
        requires
            self.wf(),
            c < self.len(),
            tree.wf(),
            tree.has(root.id),
        ensures
            final(out)@ == old(out)@ + self.inline_ops_inside(
                *tree,
                root,
                c as int,
                0,
                outer,
                case,
            ),
        decreases self.len() - c, 0int,
    {
        assert(self.dom.node_ok(c as int));
        let n: &DomNode = &self.dom.nodes[c];
        let ghost all = out@ + self.inline_ops_inside(*tree, root, c as int, 0, outer, case);
        let mut k: usize = 0;
        while k < n.flat_children.len()
            invariant
                k <= n.flat_children@.len(),
                self.wf(),
                c < self.len(),
                tree.wf(),
                tree.has(root.id),
                *n == self.node(c as int),
                self.dom.node_ok(c as int),
                all == out@ + self.inline_ops_inside(
                    *tree,
                    root,
                    c as int,
                    k as int,
                    outer,
                    case,
                ),
            decreases n.flat_children.len() - k,
        {
            let e: usize = n.flat_children[k];
            assert(c < n.flat_children@[k as int] < self.len());
            let ghost before = out@;
            self.walk(tree, root, e, outer, case, out);
            proof {
                let rest = self.inline_ops_inside(*tree, root, c as int, k + 1, outer, case);
                assert(out@ + rest =~= before + (self.inline_ops(
                    *tree,
                    root,
                    e as int,
                    outer,
                    case,
                ) + rest));
            }
            k = k + 1;
        }
        assert(out@ =~= all);
    }

    fn push_pseudo_span(
        &self,
        root: InlineRoot,
        i: usize,
        which: PseudoBox,
        p: &Option<PseudoStyle>,
        mode: Collapsing,
        out: &mut Vec<InlineOp>,
    )
        ensures
            final(out)@ == old(out)@ + self.pseudo_ops(
                root,
                i as int,
                which,
                match p {
                    Some(s) => if s.generates() {
                        Some(*s)
                    } else {
                        None
                    },
                    None => None,
                },
                mode,
            ),
    {
        let ghost start = out@;
        if let Some(s) = p {
            if s.is_generated() {
                let text: Vec<char> = chars::to_chars(s.text().as_str());
                if text.len() > 0 {
                    let own: i32 = resolve_line_height(s.style.line_height, s.style.font_size);
                    out.push(
                        InlineOp::PseudoText {
                            element: i,
                            which,
                            line_height: max_i32(own, root.line_height),
                        },
                    );
                    out.push(InlineOp::WhiteSpace(mode));
                }
            }
        }
        assert(out@ =~= start + self.pseudo_ops(
            root,
            i as int,
            which,
            match p {
                Some(s) => if s.generates() {
                    Some(*s)
                } else {
                    None
                },
                None => None,
            },
            mode,
        ));
    }

    /// Writes down the inline content of a box for a text shaper.
    pub fn build_ifc(
        &self,
        tree: &LayoutTree,
        id: BoxId,
        source: InlineSource,
        style: StyleOf,
        items: &Vec<usize>,
    ) -> (r: Vec<InlineOp>)
        requires
            self.wf(),
            tree.wf(),
            tree.has(id),
            match source {
                InlineSource::Children { element, marker } => element < self.len(),
                _ => true,
            },
        ensures
            r@ == self.inline_program(*tree, id, source, style, items@),
    {
        let mut out: Vec<InlineOp> = Vec::new();
        let values: ComputedStyle = find_values(self, style);
        let root = InlineRoot {
            id,
            line_height: resolve_line_height(values.line_height, values.font_size),
        };
        let mode: Collapsing = white_space_collapse(values.white_space);
        match source {
            InlineSource::Nothing => {
                assert(out@ =~= Seq::<InlineOp>::empty());
            },
            InlineSource::Children { element, marker } => {
                out.push(InlineOp::WhiteSpace(mode));
                if let Some(ordinal) = marker {
                    out.push(InlineOp::MarkerText { element, ordinal });
                }
                self.push_pseudo_span(
                    root,
                    element,
                    PseudoBox::Before,
                    &self.styles[element].before,
                    mode,
                    &mut out,
                );
                self.walk_children(tree, root, element, mode, values.text_case, &mut out);
                self.push_pseudo_span(
                    root,
                    element,
                    PseudoBox::After,
                    &self.styles[element].after,
                    mode,
                    &mut out,
                );
                assert(out@ =~= self.inline_program(*tree, id, source, style, items@));
            },
            InlineSource::Items => {
                out.push(InlineOp::WhiteSpace(mode));
                let ghost lead = out@;
                let mut k: usize = 0;
                while k < items.len()
                    invariant
                        k <= items@.len(),
                        self.wf(),
                        tree.wf(),
                        tree.has(id),
                        root.id == id,
                        out@ == lead + self.item_ops(
                            *tree,
                            root,
                            items@,
                            k as int,
                            mode,
                            values.text_case,
                        ),
                    decreases items.len() - k,
                {
                    let ghost before = out@;
                    if items[k] < self.dom.nodes.len() {
                        self.walk(tree, root, items[k], mode, values.text_case, &mut out);
                    }
                    assert(out@ =~= lead + self.item_ops(
                        *tree,
                        root,
                        items@,
                        k + 1,
                        mode,
                        values.text_case,
                    ));
                    k = k + 1;
                }
                assert(out@ =~= self.inline_program(*tree, id, source, style, items@));
            },
            InlineSource::Generated | InlineSource::Marker(_) => {
                out.push(InlineOp::WhiteSpace(mode));
                out.push(InlineOp::OwnText);
                assert(out@ =~= self.inline_program(*tree, id, source, style, items@));
            },
        }
        out
    }

    /// The ids of the nodes whose spans the first `n` instructions open.
    pub open spec fn span_nodes(&self, ops: Seq<InlineOp>, n: int) -> Seq<NodeId>
        decreases n,
    {
        if n <= 0 {
            Seq::empty()
        } else {
            match ops[n - 1] {
                InlineOp::OpenSpan { node, line_height } => if node < self.len() {
                    self.span_nodes(ops, n - 1).push(self.node(node as int).id)
                } else {
                    self.span_nodes(ops, n - 1)
                },
                _ => self.span_nodes(ops, n - 1),
            }
        }
    }

    /// The nodes that style inline content: a change of their text style asks for shaping
    /// it again.
    pub fn contributors(&self, ops: &Vec<InlineOp>) -> (r: Vec<NodeId>)
        ensures
            r@ == self.span_nodes(ops@, ops@.len() as int),
    {
        let mut out: Vec<NodeId> = Vec::new();
        let mut k: usize = 0;
        while k < ops.len()
            invariant
                k <= ops@.len(),
                out@ == self.span_nodes(ops@, k as int),
            decreases ops.len() - k,
        {
            if let InlineOp::OpenSpan { node, line_height: _ } = ops[k] {
                if node < self.dom.nodes.len() {
                    out.push(self.dom.nodes[node].id);
                }
            }
            k = k + 1;
        }
        out
    }
}

/// How many spans the first `n` instructions leave open.
pub open spec fn open_spans(ops: Seq<InlineOp>, n: int) -> int
    decreases n,
{
    if n <= 0 {
        0
    } else {
        open_spans(ops, n - 1) + match ops[n - 1] {
            InlineOp::OpenSpan { node, line_height } => 1int,
            InlineOp::CloseSpan => -1int,
            _ => 0int,
        }
    }
}

/// Open spans add up.
proof fn lemma_spans_add(a: Seq<InlineOp>, b: Seq<InlineOp>, n: int)
    requires
        0 <= n <= b.len(),
    ensures
        open_spans(a + b, a.len() + n) == open_spans(a, a.len() as int) + open_spans(b, n),
    decreases n,
{
    if n > 0 {
        lemma_spans_add(a, b, n - 1);
        assert((a + b)[a.len() + n - 1] == b[n - 1]);
    } else {
        lemma_spans_prefix(a, b, a.len() as int);
    }
}

proof fn lemma_spans_prefix(a: Seq<InlineOp>, b: Seq<InlineOp>, n: int)
    requires
        0 <= n <= a.len(),
    ensures
        open_spans(a + b, n) == open_spans(a, n),
    decreases n,
{
    if n > 0 {
        lemma_spans_prefix(a, b, n - 1);
        assert((a + b)[n - 1] == a[n - 1]);
    }
}

/// Every span that a node opens it closes.
pub proof fn spans_are_balanced(
    doc: &Styled,
    tree: LayoutTree,
    root: InlineRoot,
    c: int,
    outer: Collapsing,
    case: TextCase,
)
    ensures
        ({
            let ops = doc.inline_ops(tree, root, c, outer, case);
            open_spans(ops, ops.len() as int) == 0
        }),
    decreases doc.len() - c, doc.node(c).flat_children@.len() + 1,
{
    let n = doc.node(c);
    let ops = doc.inline_ops(tree, root, c, outer, case);
    reveal_with_fuel(open_spans, 4);
    if n.kind is Element && !doc.is_hidden_control(c) {
        let mode = doc.collapsing(c, outer);
        let own = doc.case_of(c);
        let inner = doc.inline_ops_inside(tree, root, c, 0, mode, own);
        lemma_children_balanced(doc, tree, root, c, 0, mode, own);
        let lead = seq![InlineOp::WhiteSpace(mode)];
        let d = doc.display(c);
        if d.outside is Absent && d.inside is Contents {
            lemma_spans_add(lead, inner, inner.len() as int);
        } else if d.outside is Inline && d.inside is Flow && !doc.is_atomic(c) && !n.is_tag(
            "br"@,
        ) {
            let open = lead + seq![
                InlineOp::OpenSpan { node: c as usize, line_height: doc.span_height(root, c) },
            ];
            lemma_spans_add(open, inner, inner.len() as int);
            let close = seq![InlineOp::CloseSpan];
            lemma_spans_add(open + inner, close, 1);
            assert(ops =~= open + inner + close);
        }
    }
}

proof fn lemma_children_balanced(
    doc: &Styled,
    tree: LayoutTree,
    root: InlineRoot,
    c: int,
    k: int,
    outer: Collapsing,
    case: TextCase,
)
    ensures
        ({
            let ops = doc.inline_ops_inside(tree, root, c, k, outer, case);
            open_spans(ops, ops.len() as int) == 0
        }),
    decreases doc.len() - c, doc.node(c).flat_children@.len() - k,
{
    let kids = doc.node(c).flat_children@;
    if 0 <= k < kids.len() {
        let e = kids[k] as int;
        let rest = doc.inline_ops_inside(tree, root, c, k + 1, outer, case);
        lemma_children_balanced(doc, tree, root, c, k + 1, outer, case);
        if c < e < doc.len() {
            spans_are_balanced(doc, tree, root, e, outer, case);
            let own = doc.inline_ops(tree, root, e, outer, case);
            lemma_spans_add(own, rest, rest.len() as int);
        } else {
            assert(Seq::<InlineOp>::empty() + rest =~= rest);
        }
    }
}

} // verus!
