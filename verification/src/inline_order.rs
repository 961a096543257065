//! What the inline content of a box holds, and in which order.

use vstd::prelude::*;

use crate::assemble::values_of;
use crate::construct::{InlineSource, StyleOf};
use crate::document::Styled;
use crate::inline_content::{child_of_node, AtomicKind, InlineOp, InlineRoot};
use crate::style::{used_line_height, Collapsing, TextCase, WhiteSpace};
use crate::tree::{BoxId, CssPosition, Float, LayoutTree, NodeId, PseudoBox};

verus! {

/// The instructions `part` stand in `all`, one after another, from `at` on.
pub open spec fn stands_at(all: Seq<InlineOp>, at: int, part: Seq<InlineOp>) -> bool {
    &&& 0 <= at
    &&& at + part.len() <= all.len()
    &&& forall|i: int| 0 <= i < part.len() ==> #[trigger] part[i] == all[at + i]
}

/// The node at `c` is an inline element with a span of its own.
pub open spec fn has_span(doc: &Styled, c: int) -> bool {
    &&& doc.node(c).kind is Element
    &&& !doc.is_hidden_control(c)
    &&& doc.display(c).outside is Inline
    &&& doc.display(c).inside is Flow
    &&& !doc.is_atomic(c)
    &&& !doc.node(c).is_tag("br"@)
}

/// The node at `c` has no box or span, and its children stand in its place.
pub open spec fn is_replaced_by_its_content(doc: &Styled, c: int) -> bool {
    &&& doc.node(c).kind is Element
    &&& !doc.is_hidden_control(c)
    &&& doc.display(c).outside is Absent
    &&& doc.display(c).inside is Contents
}

/// The node at `e` is the `k`th child of the node at `c`.
pub open spec fn is_child(doc: &Styled, c: int, k: int, e: int) -> bool {
    &&& 0 <= k < doc.node(c).flat_children@.len()
    &&& e == doc.node(c).flat_children@[k]
    &&& c < e < doc.len()
}

/// White space in the node at `c` collapses, where it has no style as it does around it.
pub open spec fn white_space_in(doc: &Styled, c: int, outer: Collapsing) -> Collapsing {
    match doc.style(c) {
        Some(s) => if s.white_space == WhiteSpace::Collapse {
            Collapsing::Collapse
        } else {
            Collapsing::Preserve
        },
        None => outer,
    }
}

/// The `text-transform` of the node at `c`.
pub open spec fn case_in(doc: &Styled, c: int) -> TextCase {
    match doc.style(c) {
        Some(s) => s.text_case,
        None => TextCase::Unchanged,
    }
}

proof fn lemma_stands_before(
    all: Seq<InlineOp>,
    lead: Seq<InlineOp>,
    rest: Seq<InlineOp>,
    tail: Seq<InlineOp>,
    at: int,
    part: Seq<InlineOp>,
)
    requires
        all == lead + rest + tail,
        stands_at(rest, at, part),
    ensures
        stands_at(all, lead.len() + at, part),
{
    assert forall|i: int| 0 <= i < part.len() implies #[trigger] part[i] == all[lead.len() + at
        + i] by {
        assert(part[i] == rest[at + i]);
    }
}

proof fn lemma_among_children(
    doc: &Styled,
    tree: LayoutTree,
    root: InlineRoot,
    c: int,
    j: int,
    outer: Collapsing,
    case: TextCase,
    k: int,
    e: int,
) -> (at: int)
    requires
        0 <= j <= k,
        is_child(doc, c, k, e),
    ensures
        stands_at(
            doc.inline_ops_inside(tree, root, c, j, outer, case),
            at,
            doc.inline_ops(tree, root, e, outer, case),
        ),
    decreases k - j,
{
    let all = doc.inline_ops_inside(tree, root, c, j, outer, case);
    let rest = doc.inline_ops_inside(tree, root, c, j + 1, outer, case);
    let f = doc.node(c).flat_children@[j] as int;
    let own = if c < f < doc.len() {
        doc.inline_ops(tree, root, f, outer, case)
    } else {
        Seq::empty()
    };
    assert(all == own + rest);
    if j == k {
        0
    } else {
        let at = lemma_among_children(doc, tree, root, c, j + 1, outer, case, k, e);
        assert(all =~= own + rest + Seq::<InlineOp>::empty());
        lemma_stands_before(
            all,
            own,
            rest,
            Seq::empty(),
            at,
            doc.inline_ops(tree, root, e, outer, case),
        );
        own.len() + at
    }
}

proof fn lemma_two_children(
    doc: &Styled,
    tree: LayoutTree,
    root: InlineRoot,
    c: int,
    j: int,
    outer: Collapsing,
    case: TextCase,
    k: int,
    e: int,
    l: int,
    f: int,
) -> (r: (int, int))
    requires
        0 <= j <= k < l,
        is_child(doc, c, k, e),
        is_child(doc, c, l, f),
    ensures
        stands_at(
            doc.inline_ops_inside(tree, root, c, j, outer, case),
            r.0,
            doc.inline_ops(tree, root, e, outer, case),
        ),
        stands_at(
            doc.inline_ops_inside(tree, root, c, j, outer, case),
            r.1,
            doc.inline_ops(tree, root, f, outer, case),
        ),
        r.0 + doc.inline_ops(tree, root, e, outer, case).len() <= r.1,
    decreases k - j,
{
    let all = doc.inline_ops_inside(tree, root, c, j, outer, case);
    let rest = doc.inline_ops_inside(tree, root, c, j + 1, outer, case);
    let g = doc.node(c).flat_children@[j] as int;
    let own = if c < g < doc.len() {
        doc.inline_ops(tree, root, g, outer, case)
    } else {
        Seq::empty()
    };
    let none = Seq::<InlineOp>::empty();
    assert(all == own + rest);
    assert(all =~= own + rest + none);
    let first = doc.inline_ops(tree, root, e, outer, case);
    let second = doc.inline_ops(tree, root, f, outer, case);
    if j == k {
        let at = lemma_among_children(doc, tree, root, c, j + 1, outer, case, l, f);
        lemma_stands_before(all, own, rest, none, at, second);
        (0, own.len() + at)
    } else {
        let (a, b) = lemma_two_children(doc, tree, root, c, j + 1, outer, case, k, e, l, f);
        lemma_stands_before(all, own, rest, none, a, first);
        lemma_stands_before(all, own, rest, none, b, second);
        (own.len() + a, own.len() + b)
    }
}

/// The span of an inline element opens, holds all that its children add, each in its place,
/// and closes after them. Its lines are as high as its own line height and those of the root
/// ask. Its own style says how white space and letters in it are treated.
pub proof fn spans_surround_their_content(
    doc: &Styled,
    tree: LayoutTree,
    root: InlineRoot,
    c: int,
    outer: Collapsing,
    case: TextCase,
    k: int,
    e: int,
) -> (at: int)
    requires
        0 <= c < doc.len(),
        has_span(doc, c),
        is_child(doc, c, k, e),
    ensures
        ({
            let all = doc.inline_ops(tree, root, c, outer, case);
            let part = doc.inline_ops(tree, root, e, white_space_in(doc, c, outer), case_in(doc, c));
            &&& stands_at(all, at, part)
            &&& 2 <= at
            &&& at + part.len() < all.len()
            &&& all[0] == InlineOp::WhiteSpace(white_space_in(doc, c, outer))
            &&& all[1] is OpenSpan
            &&& all[1]->OpenSpan_node == c as usize
            &&& all[1]->OpenSpan_line_height >= root.line_height
            &&& match doc.style(c) {
                Some(s) => all[1]->OpenSpan_line_height >= used_line_height(
                    s.line_height,
                    s.font_size as int,
                ) && (all[1]->OpenSpan_line_height == root.line_height
                    || all[1]->OpenSpan_line_height == used_line_height(
                    s.line_height,
                    s.font_size as int,
                )),
                None => true,
            }
            &&& all[all.len() - 1] == InlineOp::CloseSpan
        }),
{
    let mode = doc.collapsing(c, outer);
    let own = doc.case_of(c);
    assert(mode == white_space_in(doc, c, outer));
    let all = doc.inline_ops(tree, root, c, outer, case);
    let inner = doc.inline_ops_inside(tree, root, c, 0, mode, own);
    let lead = seq![InlineOp::WhiteSpace(mode)] + seq![
        InlineOp::OpenSpan { node: c as usize, line_height: doc.span_height(root, c) },
    ];
    let at = lemma_among_children(doc, tree, root, c, 0, mode, own, k, e);
    assert(all == lead + inner + seq![InlineOp::CloseSpan]);
    lemma_stands_before(
        all,
        lead,
        inner,
        seq![InlineOp::CloseSpan],
        at,
        doc.inline_ops(tree, root, e, mode, own),
    );
    assert(all[0] == lead[0]);
    assert(all[1] == lead[1]);
    2 + at
}

/// The children of an element add to its inline content in the order in which they stand.
pub proof fn children_are_written_in_order(
    doc: &Styled,
    tree: LayoutTree,
    root: InlineRoot,
    c: int,
    outer: Collapsing,
    case: TextCase,
    k: int,
    e: int,
    l: int,
    f: int,
) -> (r: (int, int))
    requires
        0 <= c < doc.len(),
        has_span(doc, c) || is_replaced_by_its_content(doc, c),
        is_child(doc, c, k, e),
        is_child(doc, c, l, f),
        k < l,
    ensures
        ({
            let all = doc.inline_ops(tree, root, c, outer, case);
            let mode = white_space_in(doc, c, outer);
            let first = doc.inline_ops(tree, root, e, mode, case_in(doc, c));
            let second = doc.inline_ops(tree, root, f, mode, case_in(doc, c));
            &&& stands_at(all, r.0, first)
            &&& stands_at(all, r.1, second)
            &&& r.0 + first.len() <= r.1
        }),
{
    let mode = doc.collapsing(c, outer);
    let own = doc.case_of(c);
    let all = doc.inline_ops(tree, root, c, outer, case);
    let inner = doc.inline_ops_inside(tree, root, c, 0, mode, own);
    let first = doc.inline_ops(tree, root, e, mode, own);
    let second = doc.inline_ops(tree, root, f, mode, own);
    let (a, b) = lemma_two_children(doc, tree, root, c, 0, mode, own, k, e, l, f);
    let white = seq![InlineOp::WhiteSpace(mode)];
    let (lead, tail) = if has_span(doc, c) {
        (
            white + seq![
                InlineOp::OpenSpan { node: c as usize, line_height: doc.span_height(root, c) },
            ],
            seq![InlineOp::CloseSpan],
        )
    } else {
        (white, Seq::empty())
    };
    assert(all =~= lead + inner + tail);
    lemma_stands_before(all, lead, inner, tail, a, first);
    lemma_stands_before(all, lead, inner, tail, b, second);
    (lead.len() + a, lead.len() + b)
}

/// The nodes at `path[j]` and `path[j + 1]` are an inline element and its child.
pub open spec fn is_inline_step(doc: &Styled, path: Seq<int>, j: int) -> bool {
    &&& 0 <= path[j] < doc.len()
    &&& has_span(doc, path[j]) || is_replaced_by_its_content(doc, path[j])
    &&& exists|k: int| #[trigger] is_child(doc, path[j], k, path[j + 1])
}

/// Text however deep inside inline elements is written down, in the letter case that the
/// element around it asks for.
pub proof fn text_inside_inlines_is_written(
    doc: &Styled,
    tree: LayoutTree,
    root: InlineRoot,
    path: Seq<int>,
    outer: Collapsing,
    case: TextCase,
) -> (at: int)
    requires
        path.len() > 0,
        0 <= path.last() < doc.len(),
        doc.node(path.last()).kind.holds_text(),
        forall|j: int| 0 <= j < path.len() - 1 ==> #[trigger] is_inline_step(doc, path, j),
    ensures
        0 <= at < doc.inline_ops(tree, root, path[0], outer, case).len(),
        doc.inline_ops(tree, root, path[0], outer, case)[at] == (InlineOp::Text {
            node: path.last() as usize,
            case: if path.len() == 1 {
                case
            } else {
                case_in(doc, path[path.len() - 2])
            },
        }),
    decreases path.len(),
{
    if path.len() == 1 {
        0
    } else {
        let c = path[0];
        assert(is_inline_step(doc, path, 0));
        let e = path[1];
        let k = choose|k: int| #[trigger] is_child(doc, c, k, e);
        let mode = doc.collapsing(c, outer);
        let own = doc.case_of(c);
        let rest = path.drop_first();
        assert forall|j: int| 0 <= j < rest.len() - 1 implies #[trigger] is_inline_step(
            doc,
            rest,
            j,
        ) by {
            assert(is_inline_step(doc, path, j + 1));
            assert(rest[j] == path[j + 1]);
            assert(rest[j + 1] == path[j + 2]);
        }
        assert(rest.last() == path.last());
        let inside = text_inside_inlines_is_written(doc, tree, root, rest, mode, own);
        let part = doc.inline_ops(tree, root, e, mode, own);
        let all = doc.inline_ops(tree, root, c, outer, case);
        let inner = doc.inline_ops_inside(tree, root, c, 0, mode, own);
        let at = lemma_among_children(doc, tree, root, c, 0, mode, own, k, e);
        let white = seq![InlineOp::WhiteSpace(mode)];
        let (lead, tail) = if has_span(doc, c) {
            (
                white + seq![
                    InlineOp::OpenSpan { node: c as usize, line_height: doc.span_height(root, c) },
                ],
                seq![InlineOp::CloseSpan],
            )
        } else {
            (white, Seq::empty())
        };
        assert(all =~= lead + inner + tail);
        lemma_stands_before(all, lead, inner, tail, at, part);
        assert(part[inside] == all[lead.len() + at + inside]);
        lead.len() + at + inside
    }
}

/// A `br` breaks the line, once, and content without a display is not written at all.
pub proof fn lines_break_and_hidden_content_is_left_out(
    doc: &Styled,
    tree: LayoutTree,
    root: InlineRoot,
    c: int,
    outer: Collapsing,
    case: TextCase,
)
    requires
        0 <= c < doc.len(),
        doc.node(c).kind is Element,
        !doc.is_hidden_control(c),
    ensures
        ({
            let all = doc.inline_ops(tree, root, c, outer, case);
            &&& doc.display(c).outside is Inline && doc.display(c).inside is Flow && doc.node(
                c,
            ).is_tag("br"@) && !doc.is_atomic(c) ==> all.len() == 3 && all[1]
                == InlineOp::LineBreak && all[2] == InlineOp::WhiteSpace(
                white_space_in(doc, c, outer),
            )
            &&& doc.display(c).outside is Absent && doc.display(c).inside is Absent ==> forall|
                i: int,
            |
                0 <= i < all.len() ==> #[trigger] all[i] is WhiteSpace
        }),
{
}

/// An element with a box of its own stands in its line as that box: in the flow, floating or
/// out of the flow as its style says.
pub proof fn boxes_stand_in_their_lines(
    doc: &Styled,
    tree: LayoutTree,
    root: InlineRoot,
    c: int,
    outer: Collapsing,
    case: TextCase,
    k: int,
) -> (at: int)
    requires
        0 <= c < doc.len(),
        doc.node(c).kind is Element,
        !doc.is_hidden_control(c),
        !(doc.display(c).outside is Absent && (doc.display(c).inside is Absent || doc.display(
            c,
        ).inside is Contents)),
        !(doc.display(c).outside is Inline && doc.display(c).inside is Flow) || doc.is_atomic(c),
        0 <= k < tree.at(root.id).children@.len(),
        tree.at(tree.at(root.id).children@[k]).dom_node == Some(doc.node(c).id),
        tree.at(tree.at(root.id).children@[k]).pseudo is None,
        forall|j: int|
            k < j < tree.at(root.id).children@.len() ==> tree.at(
                #[trigger] tree.at(root.id).children@[j],
            ).dom_node != Some(doc.node(c).id),
    ensures
        ({
            let all = doc.inline_ops(tree, root, c, outer, case);
            &&& 0 <= at < all.len()
            &&& all[at] is Atomic
            &&& all[at]->Atomic_id == tree.at(root.id).children@[k]
            &&& match doc.style(c) {
                Some(s) => {
                    &&& all[at]->Atomic_kind == AtomicKind::OutOfFlow <==> s.position
                        == CssPosition::Absolute || s.position == CssPosition::Fixed
                    &&& all[at]->Atomic_kind == AtomicKind::Floating <==> s.position
                        != CssPosition::Absolute && s.position != CssPosition::Fixed && s.float
                        != Float::Off
                },
                None => all[at]->Atomic_kind == AtomicKind::InFlow,
            }
        }),
{
    lemma_last_child(tree, root.id, doc.node(c).id, k, tree.at(root.id).children@.len() as int);
    1
}

proof fn lemma_last_child(tree: LayoutTree, id: BoxId, node: NodeId, k: int, n: int)
    requires
        0 <= k < n <= tree.at(id).children@.len(),
        tree.at(tree.at(id).children@[k]).dom_node == Some(node),
        tree.at(tree.at(id).children@[k]).pseudo is None,
        forall|j: int|
            k < j < n ==> tree.at(#[trigger] tree.at(id).children@[j]).dom_node != Some(node),
    ensures
        child_of_node(tree, id, node, n) == Some(tree.at(id).children@[k]),
    decreases n,
{
    if n - 1 > k {
        assert(tree.at(tree.at(id).children@[n - 1]).dom_node != Some(node));
        lemma_last_child(tree, id, node, k, n - 1);
    }
}

/// The inline content of an element's box starts with its marker and its `::before`, ends
/// with its `::after`, and holds what its children add between them.
pub proof fn boxes_write_their_content_in_order(
    doc: &Styled,
    tree: LayoutTree,
    id: BoxId,
    element: usize,
    marker: Option<i32>,
    style: StyleOf,
    items: Seq<usize>,
    k: int,
    e: int,
) -> (at: int)
    requires
        element < doc.len(),
        is_child(doc, element as int, k, e),
    ensures
        ({
            let values = values_of(*doc, style);
            let mode = if values.white_space == WhiteSpace::Collapse {
                Collapsing::Collapse
            } else {
                Collapsing::Preserve
            };
            let root = InlineRoot {
                id,
                line_height: used_line_height(values.line_height, values.font_size as int) as i32,
            };
            let all = doc.inline_program(
                tree,
                id,
                InlineSource::Children { element, marker },
                style,
                items,
            );
            let part = doc.inline_ops(tree, root, e, mode, values.text_case);
            let first: int = if marker is Some {
                2
            } else {
                1
            };
            &&& stands_at(all, at, part)
            &&& first <= at
            &&& all[0] == InlineOp::WhiteSpace(mode)
            &&& marker is Some ==> all[1] == (InlineOp::MarkerText {
                element,
                ordinal: marker->Some_0,
            })
            &&& doc.before(element as int) is Some && doc.before(element as int)->Some_0.shown().len()
                > 0 ==> {
                &&& first < at
                &&& all[first] is PseudoText
                &&& all[first]->PseudoText_element == element
                &&& all[first]->PseudoText_which == PseudoBox::Before
            }
            &&& doc.after(element as int) is Some && doc.after(element as int)->Some_0.shown().len()
                > 0 ==> {
                &&& at + part.len() <= all.len() - 2
                &&& all[all.len() - 2] is PseudoText
                &&& all[all.len() - 2]->PseudoText_element == element
                &&& all[all.len() - 2]->PseudoText_which == PseudoBox::After
            }
        }),
{
    let values = values_of(*doc, style);
    let root = InlineRoot {
        id,
        line_height: used_line_height(values.line_height, values.font_size as int) as i32,
    };
    let mode = crate::style::collapsing_of(values.white_space);
    let source = InlineSource::Children { element, marker };
    let all = doc.inline_program(tree, id, source, style, items);
    let inner = doc.inline_ops_inside(tree, root, element as int, 0, mode, values.text_case);
    let mark = match marker {
        Some(ordinal) => seq![InlineOp::MarkerText { element, ordinal }],
        None => Seq::empty(),
    };
    let before = doc.pseudo_ops(
        root,
        element as int,
        PseudoBox::Before,
        doc.before(element as int),
        mode,
    );
    let after = doc.pseudo_ops(
        root,
        element as int,
        PseudoBox::After,
        doc.after(element as int),
        mode,
    );
    let white = seq![InlineOp::WhiteSpace(mode)];
    let lead = white + mark + before;
    assert(all == lead + inner + after);
    let part = doc.inline_ops(tree, root, e, mode, values.text_case);
    let at = lemma_among_children(
        doc,
        tree,
        root,
        element as int,
        0,
        mode,
        values.text_case,
        k,
        e,
    );
    lemma_stands_before(all, lead, inner, after, at, part);
    assert(all[0] == lead[0]);
    if marker is Some {
        assert(all[1] == lead[1]);
    }
    if before.len() > 0 {
        let first = white.len() + mark.len();
        assert(all[first as int] == lead[first as int]);
        assert(lead[first as int] == before[0]);
    }
    if after.len() > 0 {
        assert(after.len() == 2);
        assert(all[all.len() - 2] == after[0]);
    }
    lead.len() + at
}

/// An anonymous box writes down what the items that it wraps add, in their order.
pub proof fn items_are_written_in_order(
    doc: &Styled,
    tree: LayoutTree,
    root: InlineRoot,
    items: Seq<usize>,
    n: int,
    mode: Collapsing,
    case: TextCase,
    k: int,
    l: int,
) -> (r: (int, int))
    requires
        0 <= k < l < n <= items.len(),
        items[k] < doc.len(),
        items[l] < doc.len(),
    ensures
        ({
            let all = doc.item_ops(tree, root, items, n, mode, case);
            let first = doc.inline_ops(tree, root, items[k] as int, mode, case);
            let second = doc.inline_ops(tree, root, items[l] as int, mode, case);
            &&& stands_at(all, r.0, first)
            &&& stands_at(all, r.1, second)
            &&& r.0 + first.len() <= r.1
        }),
{
    let before = doc.item_ops(tree, root, items, l, mode, case);
    let a = lemma_item(doc, tree, root, items, l, mode, case, k);
    let b = before.len() as int;
    let upto = doc.item_ops(tree, root, items, l + 1, mode, case);
    let second = doc.inline_ops(tree, root, items[l] as int, mode, case);
    assert(upto == before + second);
    lemma_items_go_on(doc, tree, root, items, l, n, mode, case);
    lemma_items_go_on(doc, tree, root, items, l + 1, n, mode, case);
    let all = doc.item_ops(tree, root, items, n, mode, case);
    assert forall|i: int| 0 <= i < second.len() implies #[trigger] second[i] == all[b + i] by {
        assert(upto[b + i] == second[i]);
    }
    let first = doc.inline_ops(tree, root, items[k] as int, mode, case);
    assert forall|i: int| 0 <= i < first.len() implies #[trigger] first[i] == all[a + i] by {
        assert(first[i] == before[a + i]);
    }
    (a, b)
}

proof fn lemma_items_go_on(
    doc: &Styled,
    tree: LayoutTree,
    root: InlineRoot,
    items: Seq<usize>,
    m: int,
    n: int,
    mode: Collapsing,
    case: TextCase,
)
    requires
        0 <= m <= n <= items.len(),
    ensures
        stands_at(
            doc.item_ops(tree, root, items, n, mode, case),
            0,
            doc.item_ops(tree, root, items, m, mode, case),
        ),
    decreases n,
{
    if m < n {
        lemma_items_go_on(doc, tree, root, items, m, n - 1, mode, case);
        let few = doc.item_ops(tree, root, items, m, mode, case);
        let fewer = doc.item_ops(tree, root, items, n - 1, mode, case);
        let all = doc.item_ops(tree, root, items, n, mode, case);
        assert forall|i: int| 0 <= i < few.len() implies #[trigger] few[i] == all[0 + i] by {
            assert(few[i] == fewer[0 + i]);
        }
    }
}

proof fn lemma_item(
    doc: &Styled,
    tree: LayoutTree,
    root: InlineRoot,
    items: Seq<usize>,
    n: int,
    mode: Collapsing,
    case: TextCase,
    k: int,
) -> (at: int)
    requires
        0 <= k < n <= items.len(),
        items[k] < doc.len(),
    ensures
        stands_at(
            doc.item_ops(tree, root, items, n, mode, case),
            at,
            doc.inline_ops(tree, root, items[k] as int, mode, case),
        ),
{
    let before = doc.item_ops(tree, root, items, k, mode, case);
    let upto = doc.item_ops(tree, root, items, k + 1, mode, case);
    let all = doc.item_ops(tree, root, items, n, mode, case);
    let part = doc.inline_ops(tree, root, items[k] as int, mode, case);
    assert(upto == before + part);
    lemma_items_go_on(doc, tree, root, items, k + 1, n, mode, case);
    let at = before.len() as int;
    assert forall|i: int| 0 <= i < part.len() implies #[trigger] part[i] == all[at + i] by {
        assert(upto[at + i] == part[i]);
    }
    at
}

} // verus!
