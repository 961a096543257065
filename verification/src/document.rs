//! A document with its computed styles, and what box construction asks of its nodes.

use std::sync::Arc;

use vstd::prelude::*;

use crate::counter::{CounterStyle, MarkerPosition};
use crate::dom::{DomNode, DomTree, NodeKind};
use crate::grid::GridStyle;
use crate::images::{DecodedImage, ImageStore, Images};
use crate::numbers::{parse_i32, whole_within};
use crate::chars;
use crate::style::{
    inline_display, ComputedStyle, CssDisplay, DisplayInside, DisplayOutside,
};
use crate::svg::{bindings, inline_svg_key, svg_key};
use crate::tree::{CssPosition, Float, ReplacedContent, ReplacedContext};
use crate::units::{fit, fitted, Size, UNITS_PER_PX};

verus! {

/// An item of `content`.
pub enum ContentItem {
    Text(String),
    /// An image, a counter or a quote: not shown.
    Other,
}

/// The computed values of a pseudo-element and its `content`, without its alternative text.
pub struct PseudoStyle {
    pub style: ComputedStyle,
    pub grid: GridStyle,
    /// `None` for `normal` and `none`.
    pub content: Option<Vec<ContentItem>>,
}

/// Names for the computed values of an element: the same name stands for the same values.
#[derive(Clone, Copy, PartialEq, Eq, Debug, Structural)]
pub struct StyleNames {
    /// All values of the element and its pseudo-elements; new whenever they are computed.
    pub all: u64,
    /// The font values.
    pub font: u64,
    /// The inherited text values.
    pub text: u64,
    /// The list values.
    pub list: u64,
    /// The values that the box algorithms read and that are not held here: what the numbers in
    /// the element's grid properties stand for, its automatic tracks, its areas and its lines.
    pub boxes: u64,
    /// All values of the `::before` and of the `::after` pseudo-element.
    pub before: Option<u64>,
    pub after: Option<u64>,
}

/// What layout reads of a node besides the node itself.
pub struct NodeStyles {
    /// The computed values, if the node is a styled element.
    pub primary: Option<ComputedStyle>,
    /// The grid properties that go with them.
    pub grid: GridStyle,
    pub names: StyleNames,
    pub before: Option<PseudoStyle>,
    pub after: Option<PseudoStyle>,
    /// `list-style-type`.
    pub counter: CounterStyle,
    /// `list-style-position`.
    pub marker: MarkerPosition,
    /// The natural size and the id of the element's decoded image.
    pub image: Option<(Size, u64)>,
    /// The `width` and `height` attributes, as lengths.
    pub attr_width: Option<i32>,
    pub attr_height: Option<i32>,
    /// The `rows` and `cols` attributes, where they are numbers, in millionths.
    pub attr_rows: Option<i64>,
    pub attr_cols: Option<i64>,
}

/// A document and the styles of its nodes, in the same order.
pub struct Styled {
    pub dom: DomTree,
    pub styles: Vec<NodeStyles>,
}

/// The text of the first `n` items of `content`.
pub open spec fn content_text(items: Seq<ContentItem>, n: int) -> Seq<char>
    decreases n,
{
    if n <= 0 {
        Seq::empty()
    } else {
        match items[n - 1] {
            ContentItem::Text(s) => content_text(items, n - 1) + s@,
            ContentItem::Other => content_text(items, n - 1),
        }
    }
}

impl PseudoStyle {
    /// The pseudo-element generates a box.
    pub open spec fn generates(&self) -> bool {
        !(self.style.display.inside is Absent) && self.content is Some
    }

    /// Whether the pseudo-element generates a box.
    pub fn is_generated(&self) -> (r: bool)
        ensures
            r == self.generates(),
    {
        self.style.display.inside != DisplayInside::Absent && self.content.is_some()
    }

    /// The text that the pseudo-element shows.
    pub open spec fn shown(&self) -> Seq<char> {
        match self.content {
            Some(items) => content_text(items@, items@.len() as int),
            None => Seq::empty(),
        }
    }

    /// The text that the pseudo-element shows: the strings of its `content`.
    pub fn text(&self) -> (r: String)
        ensures
            r@ == self.shown(),
    {
        let mut out: String = String::new();
        if let Some(items) = &self.content {
            let mut i: usize = 0;
            while i < items.len()
                invariant
                    i <= items@.len(),
                    out@ == content_text(items@, i as int),
                decreases items.len() - i,
            {
                if let ContentItem::Text(s) = &items[i] {
                    let cs: Vec<char> = chars::to_chars(s.as_str());
                    let ghost before = out@;
                    chars::push_slice(&mut out, cs.as_slice(), 0, cs.len());
                    assert(cs@.subrange(0, cs@.len() as int) =~= cs@);
                    assert(out@ =~= before + s@);
                }
                i = i + 1;
            }
        }
        out
    }
}

/// The values that decide how a node takes part in its parent's layout: those of an inline
/// box in the flow where it has no style.
pub open spec fn flow_values(style: Option<ComputedStyle>) -> (CssDisplay, CssPosition, Float) {
    match style {
        Some(s) => (s.display, s.position, s.float),
        None => (inline_display(), CssPosition::Static, Float::Off),
    }
}

/// The node is in the flow.
pub open spec fn is_in_flow(style: Option<ComputedStyle>) -> bool {
    let (display, position, float) = flow_values(style);
    !(position is Absolute) && !(position is Fixed) && float is Off
}

/// The values that decide how a node takes part in its parent's layout.
pub fn flow_triple(style: &Option<ComputedStyle>) -> (r: (CssDisplay, CssPosition, Float))
    ensures
        r == flow_values(*style),
{
    match style {
        Some(s) => (s.display, s.position, s.float),
        None => (
            CssDisplay {
                outside: DisplayOutside::Inline,
                inside: DisplayInside::Flow,
                list_item: false,
            },
            CssPosition::Static,
            Float::Off,
        ),
    }
}

fn in_flow(style: &Option<ComputedStyle>) -> (r: bool)
    ensures
        r == is_in_flow(*style),
{
    let v: (CssDisplay, CssPosition, Float) = flow_triple(style);
    v.1 != CssPosition::Absolute && v.1 != CssPosition::Fixed && v.2 == Float::Off
}

/// The kind of input control that a `type` attribute names.
pub open spec fn is_text_type(ty: Option<Seq<char>>) -> bool {
    match ty {
        None => true,
        Some(t) => t == "text"@ || t == "password"@ || t == "email"@ || t == "number"@ || t
            == "search"@ || t == "tel"@ || t == "url"@,
    }
}

fn names_text_type(ty: Option<&String>) -> (r: bool)
    ensures
        r == is_text_type(
            match ty {
                Some(t) => Some(t@),
                None => None,
            },
        ),
{
    match ty {
        None => true,
        Some(t) => {
            let s: &str = t.as_str();
            chars::same(s, "text") || chars::same(s, "password") || chars::same(s, "email")
                || chars::same(s, "number") || chars::same(s, "search") || chars::same(s, "tel")
                || chars::same(s, "url")
        },
    }
}

/// A number in millionths, where it is at least one.
pub open spec fn positive(v: Option<i64>) -> Option<u64> {
    match v {
        Some(x) => if x >= 1_000_000 {
            Some(x as u64)
        } else {
            None
        },
        None => None,
    }
}

fn positive_of(v: Option<i64>) -> (r: Option<u64>)
    ensures
        r == positive(v),
{
    match v {
        Some(x) => if x >= 1_000_000 {
            Some(x as u64)
        } else {
            None
        },
        None => None,
    }
}

impl Styled {
    /// There is a style for every node.
    pub open spec fn wf(&self) -> bool {
        self.dom.wf() && self.styles@.len() == self.dom.nodes@.len()
    }

    /// The number of nodes.
    pub open spec fn len(&self) -> nat {
        self.dom.nodes@.len()
    }

    /// The node at `i`.
    pub open spec fn node(&self, i: int) -> DomNode {
        self.dom.nodes@[i]
    }

    /// The computed values of the node at `i`.
    pub open spec fn style(&self, i: int) -> Option<ComputedStyle> {
        self.styles@[i].primary
    }

    /// The `display` of the node at `i`.
    pub open spec fn display(&self, i: int) -> CssDisplay {
        flow_values(self.style(i)).0
    }

    /// The `display` of the node at `i`.
    pub fn display_of(&self, i: usize) -> (r: CssDisplay)
        requires
            self.wf(),
            i < self.len(),
        ensures
            r == self.display(i as int),
    {
        flow_triple(&self.styles[i].primary).0
    }

    /// The node at `i` is an input control that is not shown.
    pub open spec fn is_hidden_control(&self, i: int) -> bool {
        self.node(i).is_tag("input"@) && self.node(i).attribute("type"@) == Some("hidden"@)
    }

    /// Whether the node at `i` is an input control that is not shown.
    pub fn is_hidden_input(&self, i: usize) -> (r: bool)
        requires
            self.wf(),
            i < self.len(),
        ensures
            r == self.is_hidden_control(i as int),
    {
        if !self.dom.nodes[i].tag_is("input") {
            return false;
        }
        match self.dom.nodes[i].attr("type") {
            Some(t) => chars::same(t.as_str(), "hidden"),
            None => false,
        }
    }

    /// What sizes the node at `i`, if it is a replaced element or a form control with the
    /// size of a leaf.
    pub open spec fn replaced(&self, i: int) -> Option<ReplacedContent> {
        let n = self.node(i);
        let s = self.styles@[i];
        if !(n.kind is Element) || (!n.html && n.local@ != "svg"@) {
            None
        } else if n.local@ == "img"@ || n.local@ == "canvas"@ || n.local@ == "svg"@ {
            Some(
                ReplacedContent::Image(
                    ReplacedContext {
                        inherent_size: match s.image {
                            Some(image) => image.0,
                            None => Size { width: 0, height: 0 },
                        },
                        attr_width: s.attr_width,
                        attr_height: s.attr_height,
                        image: match s.image {
                            Some(image) => Some(image.1),
                            None => None,
                        },
                    },
                ),
            )
        } else if n.local@ == "textarea"@ {
            Some(
                ReplacedContent::TextInput {
                    rows: match positive(s.attr_rows) {
                        Some(rows) => rows,
                        None => 2_000_000,
                    },
                    cols: positive(s.attr_cols),
                    multiline: true,
                },
            )
        } else if n.local@ == "input"@ {
            let ty = n.attribute("type"@);
            if is_text_type(ty) {
                Some(
                    ReplacedContent::TextInput { rows: 1_000_000, cols: None, multiline: false },
                )
            } else if ty == Some("checkbox"@) || ty == Some("radio"@) {
                Some(ReplacedContent::Checkbox)
            } else {
                None
            }
        } else {
            None
        }
    }

    /// What sizes the node at `i`, if it is a replaced element or a form control with the
    /// size of a leaf. A text area has two rows unless it says otherwise.
    pub fn replaced_content_for(&self, i: usize) -> (r: Option<ReplacedContent>)
        requires
            self.wf(),
            i < self.len(),
        ensures
            r == self.replaced(i as int),
    {
        let n: &DomNode = &self.dom.nodes[i];
        let s: &NodeStyles = &self.styles[i];
        let local: &str = n.local.as_str();
        if n.kind != NodeKind::Element || (!n.html && !chars::same(local, "svg")) {
            return None;
        }
        if chars::same(local, "img") || chars::same(local, "canvas") || chars::same(local, "svg") {
            return Some(
                ReplacedContent::Image(
                    ReplacedContext {
                        inherent_size: match s.image {
                            Some(image) => image.0,
                            None => Size { width: 0, height: 0 },
                        },
                        attr_width: s.attr_width,
                        attr_height: s.attr_height,
                        image: match s.image {
                            Some(image) => Some(image.1),
                            None => None,
                        },
                    },
                ),
            );
        }
        if chars::same(local, "textarea") {
            return Some(
                ReplacedContent::TextInput {
                    rows: match positive_of(s.attr_rows) {
                        Some(rows) => rows,
                        None => 2_000_000,
                    },
                    cols: positive_of(s.attr_cols),
                    multiline: true,
                },
            );
        }
        if chars::same(local, "input") {
            let ty: Option<&String> = n.attr("type");
            if names_text_type(ty) {
                return Some(
                    ReplacedContent::TextInput { rows: 1_000_000, cols: None, multiline: false },
                );
            }
            if let Some(t) = ty {
                if chars::same(t.as_str(), "checkbox") || chars::same(t.as_str(), "radio") {
                    return Some(ReplacedContent::Checkbox);
                }
            }
        }
        None
    }

    /// The element at `i` is laid out as one atomic box even where it is inline.
    pub open spec fn is_atomic(&self, i: int) -> bool {
        let n = self.node(i);
        n.kind is Element && (n.local@ == "img"@ || n.local@ == "svg"@ || n.local@ == "canvas"@
            || n.local@ == "input"@ || n.local@ == "textarea"@ || n.local@ == "button"@)
    }

    /// Whether the element at `i` is laid out as one atomic box even where it is inline:
    /// replaced elements and form controls.
    pub fn is_atomic_inline_tag(&self, i: usize) -> (r: bool)
        requires
            self.wf(),
            i < self.len(),
        ensures
            r == self.is_atomic(i as int),
    {
        let n: &DomNode = &self.dom.nodes[i];
        let local: &str = n.local.as_str();
        n.kind == NodeKind::Element && (chars::same(local, "img") || chars::same(local, "svg")
            || chars::same(local, "canvas") || chars::same(local, "input") || chars::same(
            local,
            "textarea",
        ) || chars::same(local, "button"))
    }

    /// The node at `i` is a block in the flow, or an inline that has one inside, among its
    /// children from the `k`th on.
    pub open spec fn holds_block_from(&self, i: int, k: int) -> bool
        decreases self.len() - i, self.node(i).flat_children@.len() - k,
    {
        let kids = self.node(i).flat_children@;
        if 0 <= k < kids.len() {
            let c = kids[k] as int;
            (i < c < self.len() && self.holds_block(c)) || self.holds_block_from(i, k + 1)
        } else {
            false
        }
    }

    /// The node at `i` is a block in the flow, or an inline that has one inside.
    pub open spec fn holds_block(&self, i: int) -> bool
        decreases self.len() - i, self.node(i).flat_children@.len() + 1,
    {
        if !(self.node(i).kind is Element) || !is_in_flow(self.style(i)) {
            false
        } else {
            match self.display(i).outside {
                DisplayOutside::Absent => false,
                DisplayOutside::Inline => self.display(i).inside is Flow && self.holds_block_from(
                    i,
                    0,
                ),
                _ => true,
            }
        }
    }

    fn find_block_inside(&self, i: usize, known: &Vec<bool>) -> (r: bool)
        requires
            self.wf(),
            i < self.len(),
            known@.len() == self.len(),
            forall|c: int| i < c < self.len() ==> #[trigger] known@[c] == self.holds_block(c),
        ensures
            r == self.holds_block_from(i as int, 0),
    {
        assert(self.dom.node_ok(i as int));
        let n: &DomNode = &self.dom.nodes[i];
        let mut k: usize = 0;
        while k < n.flat_children.len()
            invariant
                k <= n.flat_children@.len(),
                self.wf(),
                i < self.len(),
                *n == self.node(i as int),
                self.dom.node_ok(i as int),
                known@.len() == self.len(),
                forall|c: int| i < c < self.len() ==> #[trigger] known@[c] == self.holds_block(c),
                self.holds_block_from(i as int, 0) == self.holds_block_from(i as int, k as int),
            decreases n.flat_children.len() - k,
        {
            let c: usize = n.flat_children[k];
            assert(i < n.flat_children@[k as int] < self.len());
            if known[c] {
                return true;
            }
            k = k + 1;
        }
        false
    }

    /// Which nodes are blocks in the flow or inlines that have one inside. Each node is
    /// looked at once, the last first.
    pub fn blocks_inside(&self) -> (r: Vec<bool>)
        requires
            self.wf(),
        ensures
            r@ == Seq::new(self.len(), |i: int| self.holds_block(i)),
    {
        let n: usize = self.dom.nodes.len();
        let mut known: Vec<bool> = Vec::new();
        let mut f: usize = 0;
        while f < n
            invariant
                f <= n,
                known@.len() == f,
            decreases n - f,
        {
            known.push(false);
            f = f + 1;
        }
        let mut i: usize = n;
        while i > 0
            invariant
                i <= n == self.len(),
                self.wf(),
                known@.len() == n,
                forall|c: int| i <= c < n ==> #[trigger] known@[c] == self.holds_block(c),
            decreases i,
        {
            i = i - 1;
            let is_element: bool = self.dom.nodes[i].kind == NodeKind::Element;
            let v: bool = if !is_element || !in_flow(&self.styles[i].primary) {
                false
            } else {
                let d: CssDisplay = self.display_of(i);
                match d.outside {
                    DisplayOutside::Absent => false,
                    DisplayOutside::Inline => d.inside == DisplayInside::Flow
                        && self.find_block_inside(i, &known),
                    _ => true,
                }
            };
            known.set(i, v);
        }
        assert(known@ =~= Seq::new(self.len(), |i: int| self.holds_block(i)));
        known
    }

    /// The children of the node at `i` that take part in its layout, from the `k`th on: the
    /// children of one with `display: contents` take its place.
    pub open spec fn expanded_from(&self, i: int, k: int) -> Seq<usize>
        decreases self.len() - i, self.node(i).flat_children@.len() - k,
    {
        let kids = self.node(i).flat_children@;
        if 0 <= k < kids.len() {
            let c = kids[k] as int;
            let rest = self.expanded_from(i, k + 1);
            if !(i < c < self.len()) {
                rest
            } else if self.node(c).kind is Element {
                if self.display(c).inside is Contents {
                    self.expanded_from(c, 0) + rest
                } else {
                    seq![kids[k]] + rest
                }
            } else if self.node(c).kind.holds_text() {
                seq![kids[k]] + rest
            } else {
                rest
            }
        } else {
            Seq::empty()
        }
    }

    /// The children of the node at `i` that take part in its layout.
    pub open spec fn expanded(&self, i: int) -> Seq<usize> {
        self.expanded_from(i, 0)
    }

    /// Adds the children of the node at `i` that take part in its layout.
    pub fn expanded_children(&self, i: usize, out: &mut Vec<usize>)
        requires
            self.wf(),
            i < self.len(),
        ensures
            final(out)@ == old(out)@ + self.expanded(i as int),
        decreases self.len() - i,
    {
        assert(self.dom.node_ok(i as int));
        let n: &DomNode = &self.dom.nodes[i];
        let ghost start = out@;
        let mut k: usize = 0;
        while k < n.flat_children.len()
            invariant
                k <= n.flat_children@.len(),
                self.wf(),
                i < self.len(),
                *n == self.node(i as int),
                self.dom.node_ok(i as int),
                start + self.expanded_from(i as int, 0) == out@ + self.expanded_from(
                    i as int,
                    k as int,
                ),
            decreases n.flat_children.len() - k,
        {
            let c: usize = n.flat_children[k];
            assert(i < n.flat_children@[k as int] < self.len());
            let ghost before = out@;
            let ghost rest = self.expanded_from(i as int, k + 1);
            let kind: NodeKind = self.dom.nodes[c].kind;
            if kind == NodeKind::Element {
                if self.display_of(c).inside == DisplayInside::Contents {
                    self.expanded_children(c, out);
                    assert(out@ + rest =~= before + (self.expanded_from(c as int, 0) + rest));
                } else {
                    out.push(c);
                    assert(out@ + rest =~= before + (seq![c] + rest));
                }
            } else if kind.is_text() {
                out.push(c);
                assert(out@ + rest =~= before + (seq![c] + rest));
            }
            k = k + 1;
        }
        assert(out@ =~= start + self.expanded(i as int));
    }

    /// The node at `i` is a list item.
    pub open spec fn is_list_item(&self, i: int) -> bool {
        match self.style(i) {
            Some(s) => s.display.list_item,
            None => false,
        }
    }

    /// How many of the first `n` children of the node at `p` are list items.
    pub open spec fn item_count(&self, p: int, n: int) -> int
        decreases n,
    {
        if n <= 0 {
            0
        } else {
            self.item_count(p, n - 1) + if self.is_list_item(
                self.node(p).flat_children@[n - 1] as int,
            ) {
                1int
            } else {
                0int
            }
        }
    }

    /// The list at `p` counts down.
    pub open spec fn counts_down(&self, p: int) -> bool {
        self.node(p).is_tag("ol"@) && self.node(p).attribute("reversed"@) is Some
    }

    /// The number that the `attribute` of the element at `i` gives, if it is the element
    /// that has it.
    pub open spec fn number_attribute(&self, i: int, tag: Seq<char>, name: Seq<char>) -> Option<int> {
        if self.node(i).is_tag(tag) {
            match self.node(i).attribute(name) {
                Some(text) => whole_within(
                    chars::trim(text),
                    i32::MIN as int,
                    i32::MAX as int,
                ),
                None => None,
            }
        } else {
            None
        }
    }

    /// The number that the list at `p` starts with: what it says, else its number of items
    /// if it counts down, else one.
    pub open spec fn first_ordinal(&self, p: int) -> int {
        match self.number_attribute(p, "ol"@, "start"@) {
            Some(v) => v,
            None => if self.counts_down(p) {
                crate::units::min(
                    self.item_count(p, self.node(p).flat_children@.len() as int),
                    i32::MAX as int,
                )
            } else {
                1
            },
        }
    }

    /// The number that the list at `p` has reached before its `k`th child.
    pub open spec fn counter_before(&self, p: int, k: int) -> int
        decreases k, 0int,
    {
        if k <= 0 {
            self.first_ordinal(p)
        } else if self.is_list_item(self.node(p).flat_children@[k - 1] as int) {
            crate::units::clamped(
                self.counter_at(p, k - 1) + if self.counts_down(p) {
                    -1int
                } else {
                    1int
                },
                i32::MIN as int,
                i32::MAX as int,
            )
        } else {
            self.counter_before(p, k - 1)
        }
    }

    /// The number of the `k`th child of the list at `p`, if it is an item: what it says, else
    /// what the list has reached.
    pub open spec fn counter_at(&self, p: int, k: int) -> int
        decreases k, 1int,
    {
        match self.number_attribute(self.node(p).flat_children@[k] as int, "li"@, "value"@) {
            Some(v) => v,
            None => self.counter_before(p, k),
        }
    }

    /// The number of the last child of `p` before the `n`th that is the item `i`.
    pub open spec fn ordinal_among(&self, p: int, i: int, n: int) -> Option<int>
        decreases n,
    {
        if n <= 0 {
            None
        } else if self.node(p).flat_children@[n - 1] == i && self.is_list_item(i) {
            Some(self.counter_at(p, n - 1))
        } else {
            self.ordinal_among(p, i, n - 1)
        }
    }

    /// The ordinal of the list item at `i`: its place among the items of its parent, as the
    /// attributes of the list and of its items have it.
    pub open spec fn ordinal(&self, i: int) -> int {
        match self.node(i).flat_parent {
            Some(p) => match self.ordinal_among(
                p as int,
                i,
                self.node(p as int).flat_children@.len() as int,
            ) {
                Some(v) => v,
                None => 1,
            },
            None => 1,
        }
    }

    fn find_number(&self, i: usize, tag: &str, name: &str) -> (r: Option<i32>)
        requires
            self.wf(),
            i < self.len(),
        ensures
            match r {
                Some(v) => self.number_attribute(i as int, tag@, name@) == Some(v as int),
                None => self.number_attribute(i as int, tag@, name@) is None,
            },
    {
        if !self.dom.nodes[i].tag_is(tag) {
            return None;
        }
        match self.dom.nodes[i].attr(name) {
            Some(text) => parse_i32(text.as_str()),
            None => None,
        }
    }

    fn list_item(&self, i: usize) -> (r: bool)
        requires
            self.wf(),
            i < self.len(),
        ensures
            r == self.is_list_item(i as int),
    {
        match &self.styles[i].primary {
            Some(s) => s.display.list_item,
            None => false,
        }
    }

    fn count_items(&self, p: usize) -> (r: i32)
        requires
            self.wf(),
            p < self.len(),
        ensures
            r == crate::units::min(
                self.item_count(p as int, self.node(p as int).flat_children@.len() as int),
                i32::MAX as int,
            ),
            r >= 0,
    {
        assert(self.dom.node_ok(p as int));
        let n: &DomNode = &self.dom.nodes[p];
        let mut count: usize = 0;
        let mut k: usize = 0;
        while k < n.flat_children.len()
            invariant
                k <= n.flat_children@.len(),
                count <= k,
                self.wf(),
                p < self.len(),
                *n == self.node(p as int),
                self.dom.node_ok(p as int),
                count == self.item_count(p as int, k as int),
            decreases n.flat_children.len() - k,
        {
            assert(p < n.flat_children@[k as int] < self.len());
            if self.list_item(n.flat_children[k]) {
                count = count + 1;
            }
            k = k + 1;
        }
        if count > i32::MAX as usize {
            i32::MAX
        } else {
            count as i32
        }
    }

    /// The ordinal of the list item at `i`. A list inside another counts anew, for its items
    /// have another parent.
    pub fn list_item_ordinal(&self, i: usize) -> (r: i32)
        requires
            self.wf(),
            i < self.len(),
        ensures
            r == self.ordinal(i as int),
    {
        assert(self.dom.node_ok(i as int));
        let p: usize = match self.dom.nodes[i].flat_parent {
            Some(p) => p,
            None => {
                return 1;
            },
        };
        assert(self.dom.node_ok(p as int));
        let n: &DomNode = &self.dom.nodes[p];
        let down: bool = n.tag_is("ol") && n.attr("reversed").is_some();
        let mut counter: i32 = match self.find_number(p, "ol", "start") {
            Some(v) => v,
            None => if down {
                self.count_items(p)
            } else {
                1
            },
        };
        let mut found: Option<i32> = None;
        let mut k: usize = 0;
        while k < n.flat_children.len()
            invariant
                k <= n.flat_children@.len(),
                self.wf(),
                i < self.len(),
                p < self.len(),
                *n == self.node(p as int),
                self.dom.node_ok(p as int),
                down == self.counts_down(p as int),
                counter == self.counter_before(p as int, k as int),
                match found {
                    Some(v) => self.ordinal_among(p as int, i as int, k as int) == Some(v as int),
                    None => self.ordinal_among(p as int, i as int, k as int) is None,
                },
            decreases n.flat_children.len() - k,
        {
            let c: usize = n.flat_children[k];
            assert(p < n.flat_children@[k as int] < self.len());
            if self.list_item(c) {
                let value: i32 = match self.find_number(c, "li", "value") {
                    Some(v) => v,
                    None => counter,
                };
                assert(value == self.counter_at(p as int, k as int));
                if c == i {
                    found = Some(value);
                }
                counter = if down {
                    if value == i32::MIN {
                        i32::MIN
                    } else {
                        value - 1
                    }
                } else {
                    if value == i32::MAX {
                        i32::MAX
                    } else {
                        value + 1
                    }
                };
            }
            assert(counter == self.counter_before(p as int, k + 1));
            k = k + 1;
        }
        match found {
            Some(v) => v,
            None => 1,
        }
    }

    /// The ordinal that the marker of the node at `i` shows, if it has a marker: it is a
    /// list item whose children are not bound to places, and its list style is not `none`.
    pub open spec fn marker(&self, i: int) -> Option<i32> {
        let d = self.display(i);
        if d.list_item && (d.inside is Flow || d.inside is FlowRoot || d.inside is Flex
            || d.inside is Grid) && !(self.styles@[i].counter is Unmarked) {
            Some(self.ordinal(i) as i32)
        } else {
            None
        }
    }

    /// The ordinal that the marker of the node at `i` shows, if it has a marker.
    pub fn list_marker(&self, i: usize) -> (r: Option<i32>)
        requires
            self.wf(),
            i < self.len(),
        ensures
            r == self.marker(i as int),
    {
        let d: CssDisplay = self.display_of(i);
        let unmarked: bool = matches!(self.styles[i].counter, CounterStyle::Unmarked);
        if d.list_item && matches!(
            d.inside,
            DisplayInside::Flow | DisplayInside::FlowRoot | DisplayInside::Flex
                | DisplayInside::Grid
        ) && !unmarked {
            Some(self.list_item_ordinal(i))
        } else {
            None
        }
    }
}

/// Where the image of an element comes from.
pub enum ImageSource {
    /// It has none.
    Absent,
    /// From the URL that stands in its `src` attribute.
    Url(String),
    /// It is the markup of the element itself.
    Inline,
}

/// Where an image comes from, as a value.
pub ghost enum Source {
    Absent,
    Url(Seq<char>),
    Inline,
}

impl View for ImageSource {
    type V = Source;

    open spec fn view(&self) -> Source {
        match self {
            ImageSource::Absent => Source::Absent,
            ImageSource::Url(s) => Source::Url(s@),
            ImageSource::Inline => Source::Inline,
        }
    }
}

impl Styled {
    /// Where the image of the node `i` comes from: its `src` attribute unless that is empty,
    /// or the markup of a styled `svg` element.
    pub open spec fn source(&self, i: int) -> Source {
        let named = match self.node(i).attribute("src"@) {
            Some(s) => s.len() > 0,
            None => false,
        };
        if named {
            Source::Url(self.node(i).attribute("src"@)->Some_0)
        } else if self.node(i).kind is Element && self.node(i).local@ == "svg"@ && self.style(
            i,
        ) is Some {
            Source::Inline
        } else {
            Source::Absent
        }
    }

    /// Where the image of the node `i` comes from.
    pub fn image_source(&self, i: usize) -> (r: ImageSource)
        requires
            self.wf(),
            i < self.len(),
        ensures
            r@ == self.source(i as int),
    {
        let n: &DomNode = &self.dom.nodes[i];
        if let Some(src) = n.attr("src") {
            let text: Vec<char> = chars::to_chars(src.as_str());
            if text.len() > 0 {
                assert(text@.subrange(0, text@.len() as int) =~= text@);
                return ImageSource::Url(chars::slice_to_string(text.as_slice(), 0, text.len()));
            }
        }
        if n.kind == NodeKind::Element && chars::same(n.local.as_str(), "svg")
            && self.styles[i].primary.is_some() {
            ImageSource::Inline
        } else {
            ImageSource::Absent
        }
    }
}

/// What an inline `<svg>` is stored under: its markup with the definitions that it references,
/// its color and the custom properties that it refers to.
pub struct InlineIcon {
    pub markup: String,
    pub color: [u8; 4],
    pub vars: Vec<(String, String)>,
}

/// The decoded image under a key, if there is one.
pub open spec fn stored(images: Images, key: Seq<char>) -> Option<DecodedImage> {
    if images.decoded.dom().contains(key) {
        Some(images.decoded[key])
    } else {
        None
    }
}

/// The decoded image of an element: under the absolute URL that its source was resolved to,
/// or under the key of the icon that it is.
pub open spec fn image_from(
    images: Images,
    source: Source,
    url: Option<Seq<char>>,
    icon: Option<InlineIcon>,
) -> Option<DecodedImage> {
    match source {
        Source::Absent => None,
        Source::Url(_) => match url {
            Some(u) => stored(images, u),
            None => None,
        },
        Source::Inline => match icon {
            Some(i) => stored(images, svg_key(i.markup@, i.color@, bindings(i.vars@))),
            None => None,
        },
    }
}

/// The natural size of an image, in units, and its id.
pub open spec fn natural(image: Option<DecodedImage>) -> Option<(Size, u64)> {
    match image {
        Some(d) => Some(
            (
                Size {
                    width: fitted(d.width * UNITS_PER_PX) as i32,
                    height: fitted(d.height * UNITS_PER_PX) as i32,
                },
                d.id.0,
            ),
        ),
        None => None,
    }
}

impl Styled {
    /// The decoded image of the node `i`. Its source resolves to `url`, where it is one that
    /// resolves; `icon` is what it is stored under where it is an inline `<svg>`.
    pub fn image_data(
        &self,
        i: usize,
        url: &Option<String>,
        icon: &Option<InlineIcon>,
        images: &ImageStore,
    ) -> (r: Option<Arc<DecodedImage>>)
        requires
            self.wf(),
            i < self.len(),
            images.wf(),
        ensures
            ({
                let found = image_from(
                    images@,
                    self.source(i as int),
                    match *url {
                        Some(u) => Some(u@),
                        None => None,
                    },
                    *icon,
                );
                match r {
                    Some(image) => found == Some(*image),
                    None => found is None,
                }
            }),
    {
        match self.image_source(i) {
            ImageSource::Absent => None,
            ImageSource::Url(_) => match url {
                Some(u) => images.get(u.as_str()),
                None => None,
            },
            ImageSource::Inline => match icon {
                Some(s) => {
                    let key: String = inline_svg_key(
                        s.markup.as_str(),
                        s.color,
                        s.vars.as_slice(),
                    );
                    images.get(key.as_str())
                },
                None => None,
            },
        }
    }

    /// Gives the node `i` the natural size and the id of its decoded image, which is what box
    /// construction reads of it.
    pub fn attach_image(
        &mut self,
        i: usize,
        url: &Option<String>,
        icon: &Option<InlineIcon>,
        images: &ImageStore,
    )
        requires
            old(self).wf(),
            i < old(self).len(),
            images.wf(),
        ensures
            final(self).wf(),
            final(self).dom == old(self).dom,
            final(self).styles@ == old(self).styles@.update(
                i as int,
                NodeStyles {
                    image: natural(
                        image_from(
                            images@,
                            old(self).source(i as int),
                            match *url {
                                Some(u) => Some(u@),
                                None => None,
                            },
                            *icon,
                        ),
                    ),
                    ..old(self).styles@[i as int]
                },
            ),
    {
        let found: Option<(Size, u64)> = match self.image_data(i, url, icon, images) {
            Some(image) => Some(
                (
                    Size {
                        width: fit(image.width as i128 * UNITS_PER_PX as i128),
                        height: fit(image.height as i128 * UNITS_PER_PX as i128),
                    },
                    image.id.0,
                ),
            ),
            None => None,
        };
        let ghost start = self.styles@;
        self.styles[i].image = found;
        assert(self.styles@ =~= start.update(i as int, self.styles@[i as int]));
    }
}

/// The children of the node at `p` are distinct, and laid out under it.
pub open spec fn is_list_of(doc: Styled, p: int) -> bool {
    let children = doc.node(p).flat_children@;
    &&& children.no_duplicates()
    &&& forall|k: int|
        0 <= k < children.len() ==> doc.node(#[trigger] children[k] as int).flat_parent == Some(
            p as usize,
        )
}

proof fn lemma_ordinal_of_child(doc: Styled, p: int, k: int, n: int)
    requires
        doc.node(p).flat_children@.no_duplicates(),
        0 <= k < n <= doc.node(p).flat_children@.len(),
        doc.is_list_item(doc.node(p).flat_children@[k] as int),
    ensures
        doc.ordinal_among(p, doc.node(p).flat_children@[k] as int, n) == Some(doc.counter_at(p, k)),
    decreases n,
{
    let children = doc.node(p).flat_children@;
    if n - 1 != k {
        assert(children[n - 1] != children[k]);
        lemma_ordinal_of_child(doc, p, k, n - 1);
    }
}

proof fn lemma_counter_between(doc: Styled, p: int, j: int, k: int)
    requires
        0 <= j <= k,
        forall|m: int|
            j <= m < k ==> !doc.is_list_item(#[trigger] doc.node(p).flat_children@[m] as int),
    ensures
        doc.counter_before(p, k) == doc.counter_before(p, j),
    decreases k - j,
{
    if j < k {
        assert(!doc.is_list_item(doc.node(p).flat_children@[k - 1] as int));
        lemma_counter_between(doc, p, j, k - 1);
    }
}

/// A list counts on from item to item, up or down by one, whatever stands between them; it
/// stops at the largest and the smallest number.
pub proof fn lists_count_on(doc: Styled, p: int, j: int, k: int)
    requires
        0 <= p <= usize::MAX,
        is_list_of(doc, p),
        0 <= j < k < doc.node(p).flat_children@.len(),
        doc.is_list_item(doc.node(p).flat_children@[j] as int),
        doc.is_list_item(doc.node(p).flat_children@[k] as int),
        forall|m: int|
            j < m < k ==> !doc.is_list_item(#[trigger] doc.node(p).flat_children@[m] as int),
        doc.number_attribute(doc.node(p).flat_children@[k] as int, "li"@, "value"@) is None,
    ensures
        doc.ordinal(doc.node(p).flat_children@[k] as int) == crate::units::clamped(
            doc.ordinal(doc.node(p).flat_children@[j] as int) + if doc.counts_down(p) {
                -1int
            } else {
                1int
            },
            i32::MIN as int,
            i32::MAX as int,
        ),
{
    let children = doc.node(p).flat_children@;
    let n = children.len() as int;
    lemma_ordinal_of_child(doc, p, j, n);
    lemma_ordinal_of_child(doc, p, k, n);
    lemma_counter_between(doc, p, j + 1, k);
    assert(doc.node(children[j] as int).flat_parent == Some(p as usize));
    assert(doc.node(children[k] as int).flat_parent == Some(p as usize));
}

/// An item that says its number has it, wherever it stands.
pub proof fn items_keep_their_own_number(doc: Styled, p: int, k: int, v: int)
    requires
        0 <= p <= usize::MAX,
        is_list_of(doc, p),
        0 <= k < doc.node(p).flat_children@.len(),
        doc.is_list_item(doc.node(p).flat_children@[k] as int),
        doc.number_attribute(doc.node(p).flat_children@[k] as int, "li"@, "value"@) == Some(v),
    ensures
        doc.ordinal(doc.node(p).flat_children@[k] as int) == v,
{
    let children = doc.node(p).flat_children@;
    lemma_ordinal_of_child(doc, p, k, children.len() as int);
    assert(doc.node(children[k] as int).flat_parent == Some(p as usize));
}

proof fn lemma_counted(doc: Styled, p: int, k: int)
    requires
        0 <= k <= doc.node(p).flat_children@.len(),
        forall|m: int|
            0 <= m < doc.node(p).flat_children@.len() ==> doc.is_list_item(
                #[trigger] doc.node(p).flat_children@[m] as int,
            ),
    ensures
        doc.item_count(p, k) == k,
    decreases k,
{
    if k > 0 {
        lemma_counted(doc, p, k - 1);
        assert(doc.is_list_item(doc.node(p).flat_children@[k - 1] as int));
    }
}

proof fn lemma_counted_on(doc: Styled, p: int, k: int)
    requires
        0 <= k <= doc.node(p).flat_children@.len(),
        forall|m: int|
            0 <= m < doc.node(p).flat_children@.len() ==> doc.is_list_item(
                #[trigger] doc.node(p).flat_children@[m] as int,
            ) && doc.number_attribute(doc.node(p).flat_children@[m] as int, "li"@, "value"@) is None,
        i32::MIN <= doc.first_ordinal(p) <= i32::MAX,
        doc.counts_down(p) ==> i32::MIN <= doc.first_ordinal(p) - k,
        !doc.counts_down(p) ==> doc.first_ordinal(p) + k <= i32::MAX,
    ensures
        doc.counter_before(p, k) == (if doc.counts_down(p) {
            doc.first_ordinal(p) - k
        } else {
            doc.first_ordinal(p) + k
        }),
    decreases k,
{
    if k > 0 {
        lemma_counted_on(doc, p, k - 1);
        assert(doc.is_list_item(doc.node(p).flat_children@[k - 1] as int));
        assert(doc.counter_at(p, k - 1) == doc.counter_before(p, k - 1));
    }
}

/// The items of a list are numbered one after another: from one, or from what its `start`
/// says, and down from the number of items where it is reversed and has no `start`.
pub proof fn items_are_numbered_in_order(doc: Styled, p: int, k: int)
    requires
        0 <= p <= usize::MAX,
        is_list_of(doc, p),
        0 <= k < doc.node(p).flat_children@.len() <= 0x4000_0000,
        forall|m: int|
            0 <= m < doc.node(p).flat_children@.len() ==> doc.is_list_item(
                #[trigger] doc.node(p).flat_children@[m] as int,
            ) && doc.number_attribute(doc.node(p).flat_children@[m] as int, "li"@, "value"@) is None,
    ensures
        ({
            let n = doc.node(p).flat_children@.len() as int;
            let start = doc.number_attribute(p, "ol"@, "start"@);
            let reversed = doc.node(p).is_tag("ol"@) && doc.node(p).attribute("reversed"@) is Some;
            let ordinal = doc.ordinal(doc.node(p).flat_children@[k] as int);
            &&& start is None && !reversed ==> ordinal == k + 1
            &&& start is None && reversed ==> ordinal == n - k
            &&& start is Some && !reversed && 0 <= start->Some_0 <= 0x3fff_ffff ==> ordinal
                == start->Some_0 + k
            &&& start is Some && reversed && 0 <= start->Some_0 <= 0x3fff_ffff ==> ordinal
                == start->Some_0 - k
        }),
{
    let children = doc.node(p).flat_children@;
    let n = children.len() as int;
    assert(doc.is_list_item(children[k] as int));
    lemma_ordinal_of_child(doc, p, k, n);
    assert(doc.node(children[k] as int).flat_parent == Some(p as usize));
    lemma_counted(doc, p, n);
    let start = doc.number_attribute(p, "ol"@, "start"@);
    if start is None || 0 <= start->Some_0 <= 0x3fff_ffff {
        lemma_counted_on(doc, p, k);
    }
}

/// A list item whose children flow, or are flex or grid items, has a marker with its number
/// unless its list style is `none`; what is no list item has none.
pub proof fn list_items_have_markers(doc: Styled, i: int, s: ComputedStyle)
    requires
        doc.style(i) == Some(s),
    ensures
        !s.display.list_item ==> doc.marker(i) is None,
        doc.styles@[i].counter is Unmarked ==> doc.marker(i) is None,
        s.display.list_item && !(doc.styles@[i].counter is Unmarked) && (s.display.inside
            == DisplayInside::Flow || s.display.inside == DisplayInside::FlowRoot
            || s.display.inside == DisplayInside::Flex || s.display.inside == DisplayInside::Grid)
            ==> doc.marker(i) == Some(doc.ordinal(i) as i32),
{
}

/// A pseudo-element shows the strings of its `content` one after another.
pub proof fn content_is_joined(items: Seq<ContentItem>, n: int, k: int) -> (at: int)
    requires
        0 <= k < n <= items.len(),
        items[k] is Text,
    ensures
        0 <= at,
        at + items[k]->Text_0@.len() <= content_text(items, n).len(),
        content_text(items, n).subrange(at, at + items[k]->Text_0@.len()) == items[k]->Text_0@,
        at == content_text(items, k).len(),
        content_text(items, n).take(at) == content_text(items, k),
    decreases n,
{
    let all = content_text(items, n);
    let before = content_text(items, k);
    let part = items[k]->Text_0@;
    let at = before.len() as int;
    if k + 1 == n {
        assert(all == before + part);
        assert(all.subrange(at, at + part.len()) =~= part);
        assert(all.take(at) =~= before);
    } else {
        let same = content_is_joined(items, n - 1, k);
        let fewer = content_text(items, n - 1);
        assert(all.subrange(at, at + part.len()) =~= fewer.subrange(at, at + part.len()));
        assert(all.take(at) =~= fewer.take(at));
    }
    at
}

/// An image is as large as its pixels, and the element that shows it hands that size, its
/// attributes and its id to layout.
pub proof fn images_are_sized_by_their_pixels(doc: Styled, i: int, d: DecodedImage)
    requires
        d.width * UNITS_PER_PX <= i32::MAX,
        d.height * UNITS_PER_PX <= i32::MAX,
        doc.node(i).kind is Element,
        doc.node(i).html,
        doc.node(i).local@ == "img"@,
        doc.styles@[i].image == natural(Some(d)),
    ensures
        ({
            let r = doc.replaced(i);
            &&& r is Some && r->Some_0 is Image
            &&& r->Some_0->Image_0.inherent_size.width == d.width * UNITS_PER_PX
            &&& r->Some_0->Image_0.inherent_size.height == d.height * UNITS_PER_PX
            &&& r->Some_0->Image_0.image == Some(d.id.0)
            &&& r->Some_0->Image_0.attr_width == doc.styles@[i].attr_width
            &&& r->Some_0->Image_0.attr_height == doc.styles@[i].attr_height
        }),
{
}

} // verus!
