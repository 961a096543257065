//! What the steps of construction say of an element's children: which of them take part in
//! its layout, and which boxes they, the pseudo-elements and the list marker generate in it.

use vstd::prelude::*;

use crate::construct::{
    content_flow, item_steps, leaf, marker_desc, outside_marker_steps, plain, BoxDesc, FlowKind,
    InlineSource, Step, StyleOf, Wrap, MAX_CONSTRUCT_DEPTH,
};
use crate::document::Styled;
use crate::dom::NodeKind;
use crate::style::{ComputedStyle, DisplayInside, DisplayOutside};
use crate::tree::{BoxKind, CssPosition, Float, PseudoBox};

verus! {

/// The node is an element whose children take its place.
pub open spec fn stands_for_children(doc: Styled, n: int) -> bool {
    &&& doc.dom.nodes@[n].kind == NodeKind::Element
    &&& match doc.styles@[n].primary {
        Some(s) => s.display.inside == DisplayInside::Contents,
        None => false,
    }
}

/// The numbers of children `path` lead down from the node, through nothing but elements
/// whose children take their place.
pub open spec fn is_laid_out_in(doc: Styled, n: int, path: Seq<int>) -> bool
    decreases path.len(),
{
    &&& path.len() > 0
    &&& 0 <= path[0] < doc.dom.nodes@[n].flat_children@.len()
    &&& path.len() > 1 ==> {
        let c = doc.dom.nodes@[n].flat_children@[path[0]] as int;
        stands_for_children(doc, c) && is_laid_out_in(doc, c, path.skip(1))
    }
}

/// The node that a path leads to.
pub open spec fn end_of(doc: Styled, n: int, path: Seq<int>) -> int
    decreases path.len(),
{
    if path.len() == 0 {
        n
    } else {
        end_of(doc, doc.dom.nodes@[n].flat_children@[path[0]] as int, path.skip(1))
    }
}

/// The node takes part in a layout by itself: it is an element whose children do not take
/// its place, or text.
pub open spec fn takes_part(doc: Styled, n: int) -> bool {
    let kind = doc.dom.nodes@[n].kind;
    (kind == NodeKind::Element && !stands_for_children(doc, n)) || kind == NodeKind::Text || kind
        == NodeKind::CdataSection
}

proof fn lemma_expanded_has(doc: Styled, i: int, k: int, path: Seq<int>)
    requires
        doc.wf(),
        0 <= i < doc.len(),
        0 <= k,
        is_laid_out_in(doc, i, path),
        path[0] >= k,
        takes_part(doc, end_of(doc, i, path)),
    ensures
        doc.expanded_from(i, k).contains(end_of(doc, i, path) as usize),
    decreases path.len(), doc.node(i).flat_children@.len() - k,
{
    assert(doc.dom.node_ok(i));
    let kids = doc.node(i).flat_children@;
    let c = kids[k] as int;
    assert(i < kids[k] < doc.len());
    let rest = doc.expanded_from(i, k + 1);
    let all = doc.expanded_from(i, k);
    let e = end_of(doc, i, path) as usize;
    if path[0] > k {
        lemma_expanded_has(doc, i, k + 1, path);
        let m = choose|m: int| 0 <= m < rest.len() && rest[m] == e;
        assert(all[all.len() - rest.len() + m] == e);
    } else if path.len() == 1 {
        assert(path.skip(1).len() == 0);
        assert(end_of(doc, c, path.skip(1)) == c);
        assert(all[0] == e);
    } else {
        let inner = doc.expanded_from(c, 0);
        lemma_expanded_has(doc, c, 0, path.skip(1));
        let m = choose|m: int| 0 <= m < inner.len() && inner[m] == e;
        assert(all[m] == e);
    }
}

proof fn lemma_expanded_only(doc: Styled, i: int, k: int, m: int) -> (path: Seq<int>)
    requires
        doc.wf(),
        0 <= i < doc.len(),
        0 <= k,
        0 <= m < doc.expanded_from(i, k).len(),
    ensures
        is_laid_out_in(doc, i, path),
        end_of(doc, i, path) == doc.expanded_from(i, k)[m],
        takes_part(doc, end_of(doc, i, path)),
    decreases doc.len() - i, doc.node(i).flat_children@.len() - k,
{
    assert(doc.dom.node_ok(i));
    let kids = doc.node(i).flat_children@;
    let c = kids[k] as int;
    assert(i < kids[k] < doc.len());
    let rest = doc.expanded_from(i, k + 1);
    let all = doc.expanded_from(i, k);
    let own = all.len() - rest.len();
    if m >= own {
        assert(all[m] == rest[m - own]);
        lemma_expanded_only(doc, i, k + 1, m - own)
    } else if stands_for_children(doc, c) {
        let inner = doc.expanded_from(c, 0);
        assert(all[m] == inner[m]);
        let below = lemma_expanded_only(doc, c, 0, m);
        let path = seq![k] + below;
        assert(path.skip(1) =~= below);
        path
    } else {
        let path = seq![k];
        assert(path.skip(1).len() == 0);
        assert(end_of(doc, c, path.skip(1)) == c);
        path
    }
}

/// Which nodes take part in the layout of an element: its children, with those of a child
/// whose `display` is `contents` in the place of the child, however deep that goes.
pub proof fn children_of_contents_take_its_place(doc: Styled, i: int, path: Seq<int>)
    requires
        doc.wf(),
        0 <= i < doc.len(),
        is_laid_out_in(doc, i, path),
        takes_part(doc, end_of(doc, i, path)),
    ensures
        doc.expanded(i).contains(end_of(doc, i, path) as usize),
{
    lemma_expanded_has(doc, i, 0, path);
}

/// No other nodes take part: each of them is reached in this way.
pub proof fn nothing_else_takes_part(doc: Styled, i: int, m: int) -> (path: Seq<int>)
    requires
        doc.wf(),
        0 <= i < doc.len(),
        0 <= m < doc.expanded(i).len(),
    ensures
        is_laid_out_in(doc, i, path),
        end_of(doc, i, path) == doc.expanded(i)[m],
        takes_part(doc, end_of(doc, i, path)),
{
    lemma_expanded_only(doc, i, 0, m)
}

/// The steps `part` are among `steps`, one after the other.
pub open spec fn holds(steps: Seq<Step>, part: Seq<Step>) -> bool {
    exists|at: int| #[trigger] holds_at(steps, part, at)
}

/// The steps `part` are among `steps` from `at` on.
pub open spec fn holds_at(steps: Seq<Step>, part: Seq<Step>, at: int) -> bool {
    0 <= at && at + part.len() <= steps.len() && steps.subrange(at, at + part.len()) == part
}

proof fn lemma_holds_joined(a: Seq<Step>, b: Seq<Step>, part: Seq<Step>)
    requires
        holds(a, part) || holds(b, part),
    ensures
        holds(a + b, part),
{
    if holds(a, part) {
        let at = choose|at: int| #[trigger] holds_at(a, part, at);
        assert((a + b).subrange(at, at + part.len()) =~= a.subrange(at, at + part.len()));
        assert(holds_at(a + b, part, at));
    } else {
        let at = choose|at: int| #[trigger] holds_at(b, part, at);
        let from = a.len() + at;
        assert((a + b).subrange(from, from + part.len()) =~= b.subrange(at, at + part.len()));
        assert(holds_at(a + b, part, from));
    }
}

proof fn lemma_holds_itself(part: Seq<Step>)
    ensures
        holds(part, part),
{
    assert(part.subrange(0, part.len() as int) =~= part);
    assert(holds_at(part, part, 0));
}

proof fn lemma_element_steps(doc: Styled, i: int, kids: Seq<usize>, k: int, j: int, d: int)
    requires
        0 <= k <= j < kids.len(),
        i < kids[j] < doc.len(),
        doc.node(kids[j] as int).kind is Element,
    ensures
        holds(doc.element_steps(i, kids, k, d), doc.box_steps(kids[j] as int, d)),
    decreases j - k,
{
    let part = doc.box_steps(kids[j] as int, d);
    let c = kids[k] as int;
    let own = if i < c < doc.len() && doc.node(c).kind is Element {
        doc.box_steps(c, d)
    } else {
        Seq::empty()
    };
    let rest = doc.element_steps(i, kids, k + 1, d);
    if k < j {
        lemma_element_steps(doc, i, kids, k + 1, j, d);
    } else {
        lemma_holds_itself(part);
    }
    lemma_holds_joined(own, rest, part);
}

proof fn lemma_wrapped_steps(
    doc: Styled,
    i: int,
    kids: Seq<usize>,
    k: int,
    j: int,
    run: Seq<usize>,
    d: int,
    hide: bool,
    wrap: Wrap,
)
    requires
        0 <= k <= j < kids.len(),
        i < kids[j] < doc.len(),
        doc.node(kids[j] as int).kind is Element,
        !(doc.display(kids[j] as int).inside is Absent),
        !doc.is_wrapped(kids[j] as int, wrap),
    ensures
        holds(
            doc.wrapped_steps(i, kids, k, run, d, hide, wrap),
            doc.box_steps(kids[j] as int, d),
        ),
    decreases j - k,
{
    let part = doc.box_steps(kids[j] as int, d);
    let c = kids[k] as int;
    if (hide && doc.node(c).is_blank()) || (doc.node(c).kind is Element && doc.display(c).inside
        is Absent) {
        lemma_wrapped_steps(doc, i, kids, k + 1, j, run, d, hide, wrap);
    } else if doc.is_wrapped(c, wrap) {
        lemma_wrapped_steps(doc, i, kids, k + 1, j, run.push(kids[k]), d, hide, wrap);
    } else {
        let own = if i < c < doc.len() && doc.node(c).kind is Element {
            doc.box_steps(c, d)
        } else {
            Seq::empty()
        };
        let rest = doc.wrapped_steps(i, kids, k + 1, Seq::empty(), d, hide, wrap);
        if k < j {
            lemma_wrapped_steps(doc, i, kids, k + 1, j, Seq::empty(), d, hide, wrap);
            lemma_holds_joined(doc.run_steps(i, run, d) + own, rest, part);
        } else {
            lemma_holds_itself(part);
            lemma_holds_joined(doc.run_steps(i, run, d), own, part);
            lemma_holds_joined(doc.run_steps(i, run, d) + own, rest, part);
        }
    }
}

/// The element is shown, has a box of its own that its content goes into, and is nested no
/// deeper than boxes are.
pub open spec fn opens_content(doc: Styled, i: int, d: int) -> bool {
    &&& 0 <= i < doc.len()
    &&& match doc.styles@[i].primary {
        Some(s) => s.display.inside != DisplayInside::Absent,
        None => false,
    }
    &&& !doc.is_hidden_control(i)
    &&& doc.replaced(i) is None
    &&& d < MAX_CONSTRUCT_DEPTH
}

/// The element lays its children out in a flow.
pub open spec fn is_flow_container(doc: Styled, i: int) -> bool {
    match doc.styles@[i].primary {
        Some(s) => s.display.inside != DisplayInside::Flex && s.display.inside
            != DisplayInside::Grid && s.display.inside != DisplayInside::Table,
        None => false,
    }
}

/// The element lays its children out as the items of a flex container or a grid.
pub open spec fn is_item_container(doc: Styled, i: int) -> bool {
    match doc.styles@[i].primary {
        Some(s) => s.display.inside == DisplayInside::Flex || s.display.inside
            == DisplayInside::Grid,
        None => false,
    }
}

/// The node is an element on the block level that is shown in the flow.
pub open spec fn is_block_in_flow(doc: Styled, c: int) -> bool {
    &&& doc.dom.nodes@[c].kind == NodeKind::Element
    &&& match doc.styles@[c].primary {
        Some(s) => {
            &&& s.display.outside != DisplayOutside::Inline
            &&& s.display.outside != DisplayOutside::Absent
            &&& s.display.inside != DisplayInside::Absent
            &&& s.position != CssPosition::Absolute
            &&& s.position != CssPosition::Fixed
            &&& s.float == Float::Off
        },
        None => false,
    }
}

/// What is inside the content of an opened element is inside its steps.
proof fn lemma_content_held(doc: Styled, i: int, d: int, part: Seq<Step>)
    requires
        opens_content(doc, i, d),
        ({
            let is_outside = doc.styles@[i].marker is Outside;
            let inside = if is_outside {
                None
            } else {
                doc.marker(i)
            };
            if is_item_container(doc, i) {
                holds(doc.flex_steps(i, inside, d + 1), part)
            } else {
                is_flow_container(doc, i) && holds(doc.flow_steps(i, inside, d + 1), part)
            }
        }),
    ensures
        holds(doc.box_steps(i, d), part),
{
    let s = doc.style(i).unwrap();
    let own = plain(BoxKind::Block, Some(i as usize), StyleOf::Element(i as usize));
    let marker = doc.marker(i);
    let is_outside = doc.styles@[i].marker is Outside;
    let inside = if is_outside {
        None
    } else {
        marker
    };
    let lead = outside_marker_steps(i, is_outside, marker);
    let close = seq![Step::Close];
    if is_item_container(doc, i) {
        let first = seq![Step::Open(BoxDesc { ordered: true, ..own })] + lead;
        let content = doc.flex_steps(i, inside, d + 1);
        lemma_holds_joined(first, content, part);
        lemma_holds_joined(first + content, close, part);
    } else if (s.display.inside is Flow || s.display.inside is FlowRoot) && (s.multicol.count
        is Some || s.multicol.width is Some) {
        let first = seq![Step::Open(BoxDesc { kind: BoxKind::MulticolRoot, ..own })] + lead + seq![
            Step::Open(doc.flow_desc(i, inside, content_flow(i))),
        ];
        let content = doc.flow_steps(i, inside, d + 1);
        lemma_holds_joined(first, content, part);
        lemma_holds_joined(first + content, seq![Step::Close, Step::Close], part);
    } else {
        let first = seq![Step::Open(doc.flow_desc(i, inside, own))] + lead;
        let content = doc.flow_steps(i, inside, d + 1);
        lemma_holds_joined(first, content, part);
        lemma_holds_joined(first + content, close, part);
    }
}

/// Every block of the flow that takes part in the layout of an element has its own box in
/// the box of the element, whatever else the element holds.
pub proof fn every_block_child_gets_its_box(doc: Styled, i: int, d: int, j: int)
    requires
        doc.wf(),
        opens_content(doc, i, d),
        is_flow_container(doc, i),
        0 <= j < doc.expanded(i).len(),
        is_block_in_flow(doc, doc.expanded(i)[j] as int),
    ensures
        holds(doc.box_steps(i, d), doc.box_steps(doc.expanded(i)[j] as int, d + 1)),
{
    let kids = doc.expanded(i);
    let c = kids[j] as int;
    let is_outside = doc.styles@[i].marker is Outside;
    let inside = if is_outside {
        None
    } else {
        doc.marker(i)
    };
    lemma_in_range(doc, i, j);
    let part = doc.box_steps(c, d + 1);
    assert(doc.counts(c));
    assert(doc.acts_as_block(c));
    assert(doc.holds_block(c));
    assert(!doc.is_wrapped(c, Wrap::Inlines));
    let kind = doc.flow_kind(i, inside is Some);
    assert(kind is Blocks || kind is Mixed);
    let first = doc.marker_steps(i, inside) + doc.before_steps(i);
    let content = if kind is Blocks {
        lemma_element_steps(doc, i, kids, 0, j, d + 1);
        doc.element_steps(i, kids, 0, d + 1)
    } else {
        lemma_wrapped_steps(
            doc,
            i,
            kids,
            0,
            j,
            Seq::empty(),
            d + 1,
            false,
            Wrap::Inlines,
        );
        doc.wrapped_steps(i, kids, 0, Seq::empty(), d + 1, false, Wrap::Inlines)
    };
    lemma_holds_joined(first, content, part);
    lemma_holds_joined(first + content, doc.after_steps(i), part);
    lemma_content_held(doc, i, d, part);
}

proof fn lemma_in_range(doc: Styled, i: int, j: int)
    requires
        doc.wf(),
        0 <= i < doc.len(),
        0 <= j < doc.expanded(i).len(),
    ensures
        i < doc.expanded(i)[j] < doc.len(),
{
    crate::construct::lemma_expanded_bounds(&doc, i, 0);
}

/// Every element that takes part in the layout of a flex container or a grid and is shown
/// has its own box in the box of the container, whether it is a block or not and whether it
/// is in the flow or not.
pub proof fn every_item_gets_its_box(doc: Styled, i: int, d: int, j: int)
    requires
        doc.wf(),
        opens_content(doc, i, d),
        is_item_container(doc, i),
        0 <= j < doc.expanded(i).len(),
        doc.dom.nodes@[doc.expanded(i)[j] as int].kind == NodeKind::Element,
        match doc.styles@[doc.expanded(i)[j] as int].primary {
            Some(s) => s.display.inside != DisplayInside::Absent,
            None => false,
        },
    ensures
        holds(doc.box_steps(i, d), doc.box_steps(doc.expanded(i)[j] as int, d + 1)),
{
    let kids = doc.expanded(i);
    let c = kids[j] as int;
    let is_outside = doc.styles@[i].marker is Outside;
    let inside = if is_outside {
        None
    } else {
        doc.marker(i)
    };
    lemma_in_range(doc, i, j);
    let part = doc.box_steps(c, d + 1);
    let first = doc.marker_steps(i, inside) + doc.before_steps(i);
    assert(!doc.is_wrapped(c, Wrap::Text));
    lemma_wrapped_steps(doc, i, kids, 0, j, Seq::empty(), d + 1, true, Wrap::Text);
    lemma_element_steps(doc, i, kids, 0, j, d + 1);
    let content = if exists|k: int|
        0 <= k < kids.len() && doc.node(#[trigger] kids[k] as int).kind.holds_text() {
        doc.wrapped_steps(i, kids, 0, Seq::empty(), d + 1, true, Wrap::Text)
    } else {
        doc.element_steps(i, kids, 0, d + 1)
    };
    lemma_holds_joined(first, content, part);
    lemma_holds_joined(first + content, doc.after_steps(i), part);
    lemma_content_held(doc, i, d, part);
}

/// The steps open the box of a pseudo-element of the element at `i` and close it again.
pub open spec fn has_pseudo_box(steps: Seq<Step>, i: int, which: PseudoBox) -> bool {
    exists|at: int|
        0 <= at < steps.len() - 1 && steps[at + 1] == Step::Close && (match #[trigger] steps[at] {
            Step::Open(desc) => desc.node == Some(i as usize) && desc.pseudo == Some(which),
            _ => false,
        })
}

proof fn lemma_has_pseudo(doc: Styled, steps: Seq<Step>, i: int, which: PseudoBox, desc: BoxDesc)
    requires
        desc.node == Some(i as usize),
        desc.pseudo == Some(which),
        holds(steps, leaf(desc)),
    ensures
        has_pseudo_box(steps, i, which),
{
    let part = leaf(desc);
    let at = choose|at: int| #[trigger] holds_at(steps, part, at);
    assert(steps.subrange(at, at + part.len())[0] == part[0]);
    assert(steps.subrange(at, at + part.len())[1] == part[1]);
    assert(steps[at] == Step::Open(desc));
}

/// A pseudo-element that is shown and has content generates a box in that of its element,
/// where the element is a flex container or a grid, or holds a block of the flow beside it.
pub proof fn pseudo_elements_get_their_boxes(doc: Styled, i: int, d: int, j: int)
    requires
        doc.wf(),
        opens_content(doc, i, d),
        is_item_container(doc, i) || (is_flow_container(doc, i) && 0 <= j < doc.expanded(i).len()
            && is_block_in_flow(doc, doc.expanded(i)[j] as int)),
    ensures
        doc.styles@[i].before matches Some(p) && p.content is Some && p.style.display.inside
            != DisplayInside::Absent ==> has_pseudo_box(
            doc.box_steps(i, d),
            i,
            PseudoBox::Before,
        ),
        doc.styles@[i].after matches Some(p) && p.content is Some && p.style.display.inside
            != DisplayInside::Absent ==> has_pseudo_box(doc.box_steps(i, d), i, PseudoBox::After),
{
    let kids = doc.expanded(i);
    let is_outside = doc.styles@[i].marker is Outside;
    let inside = if is_outside {
        None
    } else {
        doc.marker(i)
    };
    let m = doc.marker_steps(i, inside);
    let b = doc.before_steps(i);
    let a = doc.after_steps(i);
    let whole = if is_item_container(doc, i) {
        doc.flex_steps(i, inside, d + 1)
    } else {
        let c = kids[j] as int;
        lemma_in_range(doc, i, j);
        assert(doc.counts(c));
        assert(doc.acts_as_block(c));
        doc.flow_steps(i, inside, d + 1)
    };
    let content = whole.subrange((m + b).len() as int, whole.len() - a.len());
    assert(whole =~= m + b + content + a);
    if let Some(p) = doc.before(i) {
        let desc = doc.pseudo_desc(i, PseudoBox::Before, p);
        lemma_holds_itself(leaf(desc));
        lemma_holds_joined(m, b, leaf(desc));
        lemma_holds_joined(m + b, content, leaf(desc));
        lemma_holds_joined(m + b + content, a, leaf(desc));
        lemma_content_held(doc, i, d, leaf(desc));
        lemma_has_pseudo(doc, doc.box_steps(i, d), i, PseudoBox::Before, desc);
    }
    if let Some(p) = doc.after(i) {
        let desc = doc.pseudo_desc(i, PseudoBox::After, p);
        lemma_holds_itself(leaf(desc));
        lemma_holds_joined(m + b + content, a, leaf(desc));
        lemma_content_held(doc, i, d, leaf(desc));
        lemma_has_pseudo(doc, doc.box_steps(i, d), i, PseudoBox::After, desc);
    }
}

/// A list item whose markers stand outside begins with the box of its marker, out of the
/// flow, with the item's ordinal.
pub proof fn outside_markers_come_first(doc: Styled, i: int, d: int, ordinal: i32)
    requires
        doc.wf(),
        opens_content(doc, i, d),
        doc.styles@[i].marker is Outside,
        doc.marker(i) == Some(ordinal),
    ensures
        doc.box_steps(i, d).len() > 2,
        match doc.box_steps(i, d)[1] {
            Step::Open(desc) => desc.node == Some(i as usize) && desc.pseudo == Some(
                PseudoBox::Marker,
            ) && desc.outside && desc.inline == InlineSource::Marker(ordinal),
            _ => false,
        },
        doc.box_steps(i, d)[2] == Step::Close,
{
    let s = doc.style(i).unwrap();
    let lead = outside_marker_steps(i, true, Some(ordinal));
    assert(lead =~= leaf(marker_desc(i, ordinal, true)));
    assert(lead[0] == Step::Open(marker_desc(i, ordinal, true)));
    assert(lead[1] == Step::Close);
    let own = plain(BoxKind::Block, Some(i as usize), StyleOf::Element(i as usize));
    let steps = doc.box_steps(i, d);
    assert(steps == doc.open_steps(i, d, s));
    if is_item_container(doc, i) {
        let first = seq![Step::Open(BoxDesc { ordered: true, ..own })];
        let rest = doc.flex_steps(i, None, d + 1) + seq![Step::Close];
        assert(steps =~= first + lead + rest);
        assert(steps[1] == lead[0] && steps[2] == lead[1]);
    } else if (s.display.inside is Flow || s.display.inside is FlowRoot) && (s.multicol.count
        is Some || s.multicol.width is Some) {
        let first = seq![Step::Open(BoxDesc { kind: BoxKind::MulticolRoot, ..own })];
        let rest = seq![Step::Open(doc.flow_desc(i, None, content_flow(i)))] + doc.flow_steps(
            i,
            None,
            d + 1,
        ) + seq![Step::Close, Step::Close];
        assert(steps =~= first + lead + rest);
        assert(steps[1] == lead[0] && steps[2] == lead[1]);
    } else {
        let first = seq![Step::Open(doc.flow_desc(i, None, own))];
        let rest = doc.flow_steps(i, None, d + 1) + seq![Step::Close];
        assert(steps =~= first + lead + rest);
        assert(steps[1] == lead[0] && steps[2] == lead[1]);
    }
}

proof fn lemma_run_has(doc: Styled, i: int, run: Seq<usize>, d: int, m: int)
    requires
        0 <= m < run.len(),
        !doc.node(run[m] as int).is_blank(),
    ensures
        holds(doc.run_steps(i, run, d), seq![Step::Inline(run[m])]),
{
    let part = seq![Step::Inline(run[m])];
    let items = item_steps(run);
    assert(items[m] == Step::Inline(run[m]));
    assert(items.subrange(m, m + 1) =~= part);
    assert(holds_at(items, part, m));
    let desc = BoxDesc {
        inline: InlineSource::Items,
        ..plain(BoxKind::AnonymousBlock, None, StyleOf::Anonymous(i as usize))
    };
    let first = seq![Step::Open(desc)];
    lemma_holds_joined(first, items, part);
    lemma_holds_joined(first + items, doc.embedded_run(i, run, 0, d), part);
    lemma_holds_joined(
        first + items + doc.embedded_run(i, run, 0, d),
        seq![Step::Close],
        part,
    );
}

proof fn lemma_wrapped_text(
    doc: Styled,
    i: int,
    kids: Seq<usize>,
    k: int,
    run: Seq<usize>,
    d: int,
    hide: bool,
    wrap: Wrap,
    c: usize,
)
    requires
        0 <= k <= kids.len(),
        doc.node(c as int).kind.holds_text(),
        !doc.node(c as int).is_blank(),
        run.contains(c) || exists|j: int| k <= j < kids.len() && kids[j] == c,
    ensures
        holds(doc.wrapped_steps(i, kids, k, run, d, hide, wrap), seq![Step::Inline(c)]),
    decreases kids.len() - k,
{
    let part = seq![Step::Inline(c)];
    if k < kids.len() {
        let e = kids[k] as int;
        if (hide && doc.node(e).is_blank()) || (doc.node(e).kind is Element && doc.display(e).inside
            is Absent) {
            assert(kids[k] != c);
            lemma_wrapped_text(doc, i, kids, k + 1, run, d, hide, wrap, c);
        } else if doc.is_wrapped(e, wrap) {
            let longer = run.push(kids[k]);
            if kids[k] == c {
                assert(longer[run.len() as int] == c);
            } else if run.contains(c) {
                let m = choose|m: int| 0 <= m < run.len() && run[m] == c;
                assert(longer[m] == c);
            }
            lemma_wrapped_text(doc, i, kids, k + 1, longer, d, hide, wrap, c);
        } else {
            assert(kids[k] != c);
            let own = if i < e < doc.len() && doc.node(e).kind is Element {
                doc.box_steps(e, d)
            } else {
                Seq::empty()
            };
            let none = Seq::<usize>::empty();
            let rest = doc.wrapped_steps(i, kids, k + 1, none, d, hide, wrap);
            if run.contains(c) {
                let m = choose|m: int| 0 <= m < run.len() && run[m] == c;
                lemma_run_has(doc, i, run, d, m);
                lemma_holds_joined(doc.run_steps(i, run, d), own, part);
            } else {
                lemma_wrapped_text(doc, i, kids, k + 1, none, d, hide, wrap, c);
            }
            lemma_holds_joined(doc.run_steps(i, run, d) + own, rest, part);
        }
    } else {
        let m = choose|m: int| 0 <= m < run.len() && run[m] == c;
        lemma_run_has(doc, i, run, d, m);
    }
}

/// Text beside a block of the flow, and text in a flex container or a grid, is not lost: it
/// is an inline item of a box inside that of its element, unless it is only white space.
pub proof fn text_beside_blocks_is_kept(doc: Styled, i: int, d: int, j: int, t: int)
    requires
        doc.wf(),
        opens_content(doc, i, d),
        0 <= t < doc.expanded(i).len(),
        ({
            let n = doc.dom.nodes@[doc.expanded(i)[t] as int];
            (n.kind == NodeKind::Text || n.kind == NodeKind::CdataSection) && !n.is_blank()
        }),
        doc.styles@[doc.expanded(i)[t] as int].primary is None,
        is_item_container(doc, i) || (is_flow_container(doc, i) && 0 <= j < doc.expanded(i).len()
            && is_block_in_flow(doc, doc.expanded(i)[j] as int)),
    ensures
        holds(doc.box_steps(i, d), seq![Step::Inline(doc.expanded(i)[t])]),
{
    let kids = doc.expanded(i);
    let c = kids[t];
    let part = seq![Step::Inline(c)];
    let is_outside = doc.styles@[i].marker is Outside;
    let inside = if is_outside {
        None
    } else {
        doc.marker(i)
    };
    lemma_in_range(doc, i, t);
    let first = doc.marker_steps(i, inside) + doc.before_steps(i);
    let none = Seq::<usize>::empty();
    if is_item_container(doc, i) {
        assert(doc.node(kids[t] as int).kind.holds_text());
        let content = doc.wrapped_steps(i, kids, 0, none, d + 1, true, Wrap::Text);
        lemma_wrapped_text(doc, i, kids, 0, none, d + 1, true, Wrap::Text, c);
        lemma_holds_joined(first, content, part);
        lemma_holds_joined(first + content, doc.after_steps(i), part);
    } else {
        lemma_in_range(doc, i, j);
        assert(doc.counts(kids[j] as int));
        assert(doc.acts_as_block(kids[j] as int));
        assert(doc.counts(kids[t] as int));
        assert(doc.display(kids[t] as int).outside is Inline);
        assert(doc.flow_kind(i, inside is Some) is Mixed);
        let content = doc.wrapped_steps(i, kids, 0, none, d + 1, false, Wrap::Inlines);
        lemma_wrapped_text(doc, i, kids, 0, none, d + 1, false, Wrap::Inlines, c);
        lemma_holds_joined(first, content, part);
        lemma_holds_joined(first + content, doc.after_steps(i), part);
    }
    lemma_content_held(doc, i, d, part);
}

/// The node is an inline element of a flow: what it holds is laid out on the lines that it
/// is on.
pub open spec fn is_inline_span(doc: Styled, n: int) -> bool {
    &&& doc.dom.nodes@[n].kind == NodeKind::Element
    &&& doc.display(n).outside == DisplayOutside::Inline
    &&& doc.display(n).inside == DisplayInside::Flow
}

/// The numbers of children `path` lead down from the node through nothing but inline
/// elements of the flow.
pub open spec fn leads_through_spans(doc: Styled, n: int, path: Seq<int>) -> bool
    decreases path.len(),
{
    path.len() > 0 ==> {
        &&& is_inline_span(doc, n)
        &&& crate::document::is_in_flow(doc.styles@[n].primary)
        &&& 0 <= path[0] < doc.dom.nodes@[n].flat_children@.len()
        &&& leads_through_spans(
            doc,
            doc.dom.nodes@[n].flat_children@[path[0]] as int,
            path.skip(1),
        )
    }
}

/// The element is on the block level and in the flow.
pub open spec fn is_on_block_level(doc: Styled, c: int) -> bool {
    &&& doc.dom.nodes@[c].kind == NodeKind::Element
    &&& match doc.styles@[c].primary {
        Some(s) => {
            &&& s.display.outside != DisplayOutside::Inline
            &&& s.display.outside != DisplayOutside::Absent
            &&& s.position != CssPosition::Absolute
            &&& s.position != CssPosition::Fixed
            &&& s.float == Float::Off
        },
        None => false,
    }
}

proof fn lemma_block_among(doc: Styled, i: int, k: int, j: int)
    requires
        doc.wf(),
        0 <= i < doc.len(),
        0 <= k <= j < doc.node(i).flat_children@.len(),
        doc.holds_block(doc.node(i).flat_children@[j] as int),
    ensures
        doc.holds_block_from(i, k),
    decreases j - k,
{
    assert(doc.dom.node_ok(i));
    assert(i < doc.node(i).flat_children@[j] < doc.len());
    if k < j {
        lemma_block_among(doc, i, k + 1, j);
    }
}

/// An inline element acts as a block for what is around it where it holds one: a block of
/// the flow at any depth, with nothing but inline elements of the flow in between.
pub proof fn blocks_inside_inlines_are_found(doc: Styled, i: int, path: Seq<int>)
    requires
        doc.wf(),
        0 <= i < doc.len(),
        leads_through_spans(doc, i, path),
        is_on_block_level(doc, end_of(doc, i, path)),
    ensures
        doc.holds_block(i),
    decreases path.len(),
{
    if path.len() > 0 {
        assert(doc.dom.node_ok(i));
        let kids = doc.node(i).flat_children@;
        assert(i < kids[path[0]] < doc.len());
        blocks_inside_inlines_are_found(doc, kids[path[0]] as int, path.skip(1));
        lemma_block_among(doc, i, 0, path[0]);
    }
}

proof fn lemma_block_found(doc: Styled, i: int, k: int) -> (path: Seq<int>)
    requires
        doc.wf(),
        0 <= i < doc.len(),
        0 <= k,
        doc.holds_block_from(i, k),
    ensures
        path.len() > 0,
        0 <= path[0] < doc.node(i).flat_children@.len(),
        leads_through_spans(doc, doc.node(i).flat_children@[path[0]] as int, path.skip(1)),
        is_on_block_level(
            doc,
            end_of(doc, doc.node(i).flat_children@[path[0]] as int, path.skip(1)),
        ),
    decreases doc.len() - i, doc.node(i).flat_children@.len() - k,
{
    assert(doc.dom.node_ok(i));
    let kids = doc.node(i).flat_children@;
    let c = kids[k] as int;
    assert(i < kids[k] < doc.len());
    if doc.holds_block(c) {
        let below = only_blocks_inside_inlines_are_found(doc, c);
        let path = seq![k] + below;
        assert(path.skip(1) =~= below);
        path
    } else {
        lemma_block_found(doc, i, k + 1)
    }
}

/// What acts as a block is one, or leads to one through inline elements of the flow.
pub proof fn only_blocks_inside_inlines_are_found(doc: Styled, i: int) -> (path: Seq<int>)
    requires
        doc.wf(),
        0 <= i < doc.len(),
        doc.holds_block(i),
    ensures
        leads_through_spans(doc, i, path),
        is_on_block_level(doc, end_of(doc, i, path)),
    decreases doc.len() - i, doc.node(i).flat_children@.len() + 1,
{
    if doc.display(i).outside is Inline {
        lemma_block_found(doc, i, 0)
    } else {
        Seq::empty()
    }
}

/// What a path of inline content leads down to: through inline elements of the flow that
/// are not laid out as one box, and through elements whose children take their place.
pub open spec fn leads_through_inlines(doc: Styled, n: int, path: Seq<int>) -> bool
    decreases path.len(),
{
    &&& path.len() > 0
    &&& 0 <= path[0] < doc.dom.nodes@[n].flat_children@.len()
    &&& path.len() > 1 ==> {
        let c = doc.dom.nodes@[n].flat_children@[path[0]] as int;
        &&& doc.dom.nodes@[c].kind == NodeKind::Element
        &&& !doc.is_hidden_control(c)
        &&& (is_inline_span(doc, c) && !doc.is_atomic(c) && !doc.node(c).is_tag("br"@)) || (
        doc.display(c).outside == DisplayOutside::Absent && doc.display(c).inside
            == DisplayInside::Contents)
        &&& leads_through_inlines(doc, c, path.skip(1))
    }
}

/// The element is laid out as one box among inline content: a replaced element or form
/// control, or anything else that is shown and no inline of the flow.
pub open spec fn is_boxed_inline(doc: Styled, n: int) -> bool {
    &&& doc.dom.nodes@[n].kind == NodeKind::Element
    &&& !doc.is_hidden_control(n)
    &&& doc.display(n).outside != DisplayOutside::Absent
    &&& doc.is_atomic(n) || !is_inline_span(doc, n)
}

proof fn lemma_embedded(doc: Styled, n: int, k: int, path: Seq<int>, d: int)
    requires
        doc.wf(),
        0 <= n < doc.len(),
        0 <= k,
        leads_through_inlines(doc, n, path),
        path[0] >= k,
        is_boxed_inline(doc, end_of(doc, n, path)),
    ensures
        holds(doc.embedded_children(n, k, d), doc.box_steps(end_of(doc, n, path), d)),
    decreases path.len(), doc.node(n).flat_children@.len() - k,
{
    assert(doc.dom.node_ok(n));
    let kids = doc.node(n).flat_children@;
    let part = doc.box_steps(end_of(doc, n, path), d);
    let c = kids[k] as int;
    assert(n < kids[k] < doc.len());
    let own = doc.embedded_steps(c, d);
    let rest = doc.embedded_children(n, k + 1, d);
    if path[0] > k {
        lemma_embedded(doc, n, k + 1, path, d);
    } else if path.len() == 1 {
        assert(path.skip(1).len() == 0);
        assert(end_of(doc, c, path.skip(1)) == c);
        lemma_holds_itself(part);
        assert(own == part);
    } else {
        assert(leads_through_inlines(doc, c, path.skip(1)));
        lemma_embedded(doc, c, 0, path.skip(1), d);
        assert(own == doc.embedded_children(c, 0, d));
    }
    lemma_holds_joined(own, rest, part);
}

/// An element whose content is all inline is the root of it: its box is one of lines, with
/// the children of the element as their content. Everything in it that is laid out as one
/// box, at any depth of inline elements, has its box in that of the element.
pub proof fn inline_content_has_its_root_and_boxes(
    doc: Styled,
    i: int,
    d: int,
    counted: int,
    path: Seq<int>,
)
    requires
        doc.wf(),
        opens_content(doc, i, d),
        is_flow_container(doc, i),
        match doc.styles@[i].primary {
            Some(s) => s.multicol.count is None && s.multicol.width is None,
            None => false,
        },
        doc.styles@[i].before is None,
        doc.styles@[i].after is None,
        0 <= counted < doc.expanded(i).len(),
        doc.counts(doc.expanded(i)[counted] as int),
        forall|k: int|
            0 <= k < doc.expanded(i).len() && doc.counts(#[trigger] doc.expanded(i)[k] as int) ==> {
                let c = doc.expanded(i)[k] as int;
                doc.display(c).outside == DisplayOutside::Absent || (doc.display(c).outside
                    == DisplayOutside::Inline && !doc.holds_block(c))
            },
    ensures
        match doc.box_steps(i, d)[0] {
            Step::Open(desc) => desc.kind == BoxKind::InlineRoot && (desc.inline matches
                InlineSource::Children { element, marker } && element == i),
            _ => false,
        },
        leads_through_inlines(doc, i, path) && is_boxed_inline(doc, end_of(doc, i, path))
            ==> holds(doc.box_steps(i, d), doc.box_steps(end_of(doc, i, path), d + 1)),
{
    let s = doc.style(i).unwrap();
    let is_outside = doc.styles@[i].marker is Outside;
    let inside = if is_outside {
        None
    } else {
        doc.marker(i)
    };
    let kids = doc.expanded(i);
    assert(doc.len() == doc.dom.nodes.len());
    assert(doc.flow_kind(i, inside is Some) is Inlines) by {
        assert forall|k: int|
            0 <= k < kids.len() && doc.counts(#[trigger] kids[k] as int) implies !doc.acts_as_block(
            kids[k] as int,
        ) by {}
    }
    let own = plain(BoxKind::Block, Some(i as usize), StyleOf::Element(i as usize));
    let first = seq![Step::Open(doc.flow_desc(i, inside, own))];
    let lead = outside_marker_steps(i, is_outside, doc.marker(i));
    let content = doc.flow_steps(i, inside, d + 1);
    assert(doc.box_steps(i, d) == first + lead + content + seq![Step::Close]);
    assert(doc.box_steps(i, d)[0] == first[0]);
    if leads_through_inlines(doc, i, path) && is_boxed_inline(doc, end_of(doc, i, path)) {
        lemma_embedded(doc, i, 0, path, d + 1);
        lemma_content_held(doc, i, d, doc.box_steps(end_of(doc, i, path), d + 1));
    }
}

} // verus!
