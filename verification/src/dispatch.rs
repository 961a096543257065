//! Which layout algorithm a box gets, and what is kept from the algorithms and made good
//! after them, where they and browsers differ.
//!
//! The block, flex and grid algorithms themselves are called in between: [`begin_block`] and
//! [`end_block`], [`begin_flex`] and [`end_flex`] stand around such a call.

use vstd::prelude::*;

use crate::replaced::{checkbox_size, replaced_measure_function, replaced_size, text_control_size};
use crate::sizing::{
    edges_size, most, plus, resolve, resolve_edges, resolved, resolved_edges, sum_edges, MaybeSize,
    SizingMode, Space, Spaces,
};
use crate::tree::{
    same_links, same_shape, shape_decides_wf, BoxId, BoxKind, BoxSizing, BoxStyle, Display, Float,
    FlexDirection, LayoutBox, LayoutTree, Overflow, Placement, ReplacedContent,
};
use crate::units::{fit, fitted, Dimension, Dimensions, Edges, Size};

verus! {

/// The layout algorithm of a box.
#[derive(Clone, Copy, PartialEq, Eq, Debug, Structural)]
pub enum Algorithm {
    /// An image or another element with a natural size.
    Image,
    /// A text control, as a leaf.
    TextControl,
    /// A checkbox or radio button, as a leaf.
    Checkbox,
    Table,
    Multicol,
    Inline,
    Block,
    Flex,
    Grid,
    /// The box is not laid out.
    Hidden,
}

/// The layout algorithm of a box.
pub open spec fn algorithm_of(b: LayoutBox) -> Algorithm {
    match b.kind {
        BoxKind::Replaced => match b.replaced {
            Some(ReplacedContent::TextInput { .. }) => Algorithm::TextControl,
            Some(ReplacedContent::Checkbox) => Algorithm::Checkbox,
            _ => Algorithm::Image,
        },
        BoxKind::TableRoot => Algorithm::Table,
        BoxKind::MulticolRoot => Algorithm::Multicol,
        _ => if (b.kind is InlineRoot || b.kind is AnonymousBlock) && b.ifc is Some {
            Algorithm::Inline
        } else {
            match b.style.display {
                Display::Block => Algorithm::Block,
                Display::Flex => Algorithm::Flex,
                Display::Grid => Algorithm::Grid,
                Display::Hidden => Algorithm::Hidden,
            }
        },
    }
}

/// The layout algorithm of a box: by its kind, and by its `display` where the kind leaves
/// that open. A replaced box says what it is sized by.
pub fn algorithm(b: &LayoutBox) -> (r: Algorithm)
    requires
        b.kind is Replaced ==> b.replaced is Some,
    ensures
        r == algorithm_of(*b),
{
    match b.kind {
        BoxKind::Replaced => match b.replaced {
            Some(ReplacedContent::TextInput { .. }) => Algorithm::TextControl,
            Some(ReplacedContent::Checkbox) => Algorithm::Checkbox,
            _ => Algorithm::Image,
        },
        BoxKind::TableRoot => Algorithm::Table,
        BoxKind::MulticolRoot => Algorithm::Multicol,
        _ => if matches!(b.kind, BoxKind::InlineRoot | BoxKind::AnonymousBlock) && b.ifc.is_some() {
            Algorithm::Inline
        } else {
            match b.style.display {
                Display::Block => Algorithm::Block,
                Display::Flex => Algorithm::Flex,
                Display::Grid => Algorithm::Grid,
                Display::Hidden => Algorithm::Hidden,
            }
        },
    }
}

/// What is known of the size of a replaced box. A block container stretches its children to
/// its own width, which a replaced box of `auto` width does not follow.
pub open spec fn replaced_known(tree: LayoutTree, id: BoxId, known: MaybeSize) -> MaybeSize {
    let in_block = match tree.at(id).parent {
        Some(p) => tree.at(p).style.display is Block,
        None => false,
    };
    MaybeSize {
        width: if tree.at(id).style.size.width is Auto && in_block {
            None
        } else {
            known.width
        },
        height: known.height,
    }
}

/// The content size of a replaced box of a text control or checkbox, and the border box of
/// another one.
pub open spec fn replaced_box_size(
    tree: LayoutTree,
    id: BoxId,
    known: MaybeSize,
    parent: MaybeSize,
    space: Spaces,
) -> Size {
    let b = tree.at(id);
    match b.replaced {
        Some(ReplacedContent::Image(context)) => replaced_size(
            replaced_known(tree, id, known),
            parent,
            space,
            context,
            b.style,
        ),
        Some(ReplacedContent::TextInput { rows, cols, multiline }) =>
            crate::replaced::text_control(
            rows,
            cols,
            multiline,
            b.font_size,
            b.line_height,
            b.style,
            space.width,
        ),
        Some(ReplacedContent::Checkbox) => {
            let side = crate::replaced::checkbox_side(b.style, parent, space.width) as i32;
            Size { width: side, height: side }
        },
        None => Size { width: 0, height: 0 },
    }
}

/// Measures a replaced box: the border box of an image, the content box of a form control.
/// Nothing if the box is not replaced.
pub fn measure_replaced(
    tree: &LayoutTree,
    id: BoxId,
    known: MaybeSize,
    parent: MaybeSize,
    space: Spaces,
) -> (r: Size)
    requires
        tree.wf(),
        tree.has(id),
    ensures
        r == replaced_box_size(*tree, id, known, parent, space),
{
    assert(tree.links_ok(id.0 as int));
    let b: &LayoutBox = tree.box_(id);
    match b.replaced {
        Some(ReplacedContent::Image(context)) => {
            let in_block: bool = match b.parent {
                Some(p) => tree.box_(p).style.display == Display::Block,
                None => false,
            };
            let width: Option<i64> = if b.style.size.width.is_auto() && in_block {
                None
            } else {
                known.width
            };
            replaced_measure_function(
                MaybeSize { width, height: known.height },
                parent,
                space,
                &context,
                &b.style,
            )
        },
        Some(ReplacedContent::TextInput { rows, cols, multiline }) => text_control_size(
            rows,
            cols,
            multiline,
            b.font_size,
            b.line_height,
            &b.style,
            space.width,
        ),
        Some(ReplacedContent::Checkbox) => checkbox_size(&b.style, parent, space.width),
        None => Size { width: 0, height: 0 },
    }
}

/// The `overflow` that a block container sees of its child: one that isolates its floats
/// looks clipped, whatever its own value.
pub open spec fn item_overflow(b: LayoutBox) -> (Overflow, Overflow) {
    if b.force_bfc {
        (Overflow::Hidden, Overflow::Hidden)
    } else {
        (b.style.overflow_x, b.style.overflow_y)
    }
}

/// The `overflow` that a block container sees of its child, along both axes.
pub fn block_item_overflow(b: &LayoutBox) -> (r: (Overflow, Overflow))
    ensures
        r == item_overflow(*b),
{
    if b.force_bfc {
        (Overflow::Hidden, Overflow::Hidden)
    } else {
        (b.style.overflow_x, b.style.overflow_y)
    }
}

/// What was hidden from the block algorithm.
#[derive(Clone, Copy, PartialEq, Eq, Debug, Structural)]
pub struct HiddenHeights {
    pub min: Option<Dimension>,
    pub height: Option<Dimension>,
}

/// What is hidden from the block algorithm. A percentage height of a child goes by the height
/// of its container and stays open where that is `auto`, whatever the container's minimum;
/// and where only the content counts, the container's own height does not either.
pub open spec fn hidden_heights(style: BoxStyle, mode: SizingMode) -> HiddenHeights {
    HiddenHeights {
        min: if style.size.height is Auto && !(style.min_size.height is Auto) {
            Some(style.min_size.height)
        } else {
            None
        },
        height: if mode is ContentSize {
            Some(style.size.height)
        } else {
            None
        },
    }
}

/// A style without the heights that are hidden.
pub open spec fn without_heights(style: BoxStyle, hidden: HiddenHeights) -> BoxStyle {
    BoxStyle {
        size: Dimensions {
            height: if hidden.height is Some {
                Dimension::Auto
            } else {
                style.size.height
            },
            ..style.size
        },
        min_size: Dimensions {
            height: if hidden.min is Some {
                Dimension::Auto
            } else {
                style.min_size.height
            },
            ..style.min_size
        },
        ..style
    }
}

/// A style with the hidden heights given back.
pub open spec fn with_heights(style: BoxStyle, hidden: HiddenHeights) -> BoxStyle {
    BoxStyle {
        size: Dimensions {
            height: match hidden.height {
                Some(h) => h,
                None => style.size.height,
            },
            ..style.size
        },
        min_size: Dimensions {
            height: match hidden.min {
                Some(h) => h,
                None => style.min_size.height,
            },
            ..style.min_size
        },
        ..style
    }
}

/// What is hidden from the block algorithm is given back after it.
pub proof fn hidden_heights_come_back(style: BoxStyle, mode: SizingMode)
    ensures
        ({
            let hidden = hidden_heights(style, mode);
            with_heights(without_heights(style, hidden), hidden) == style
        }),
{
}

fn find_hidden_heights(style: &BoxStyle, mode: SizingMode) -> (r: HiddenHeights)
    ensures
        r == hidden_heights(*style, mode),
{
    HiddenHeights {
        min: if style.size.height.is_auto() && !style.min_size.height.is_auto() {
            Some(style.min_size.height)
        } else {
            None
        },
        height: if mode == SizingMode::ContentSize {
            Some(style.size.height)
        } else {
            None
        },
    }
}

fn hide_heights(style: BoxStyle, hidden: HiddenHeights) -> (r: BoxStyle)
    ensures
        r == without_heights(style, hidden),
{
    let mut s: BoxStyle = style;
    if hidden.min.is_some() {
        s.min_size.height = Dimension::Auto;
    }
    if hidden.height.is_some() {
        s.size.height = Dimension::Auto;
    }
    s
}

fn give_heights_back(style: BoxStyle, hidden: HiddenHeights) -> (r: BoxStyle)
    ensures
        r == with_heights(style, hidden),
{
    let mut s: BoxStyle = style;
    if let Some(h) = hidden.height {
        s.size.height = h;
    }
    if let Some(h) = hidden.min {
        s.min_size.height = h;
    }
    s
}

fn set_style(tree: &mut LayoutTree, id: BoxId, style: BoxStyle)
    requires
        old(tree).wf(),
        old(tree).has(id),
    ensures
        final(tree).wf(),
        *final(tree) == (LayoutTree { boxes: final(tree).boxes, ..*old(tree) }),
        final(tree).boxes@ == old(tree).boxes@.update(
            id.0 as int,
            LayoutBox { style, ..old(tree).at(id) },
        ),
{
    let i: usize = id.index();
    tree.boxes[i].style = style;
    proof {
        assert(tree.boxes@ =~= old(tree).boxes@.update(
            i as int,
            LayoutBox { style, ..old(tree).at(id) },
        ));
        assert(same_shape(*old(tree), *tree));
        shape_decides_wf(*old(tree), *tree);
    }
}

/// Hides from the block algorithm the heights of the box `id` that are not to reach its
/// children.
pub fn begin_block(tree: &mut LayoutTree, id: BoxId, mode: SizingMode) -> (r: HiddenHeights)
    requires
        old(tree).wf(),
        old(tree).has(id),
    ensures
        r == hidden_heights(old(tree).at(id).style, mode),
        final(tree).wf(),
        *final(tree) == (LayoutTree { boxes: final(tree).boxes, ..*old(tree) }),
        final(tree).boxes@ == old(tree).boxes@.update(
            id.0 as int,
            LayoutBox {
                style: without_heights(old(tree).at(id).style, r),
                ..old(tree).at(id)
            },
        ),
{
    let style: BoxStyle = tree.boxes[id.index()].style;
    let hidden: HiddenHeights = find_hidden_heights(&style, mode);
    set_style(tree, id, hide_heights(style, hidden));
    hidden
}

/// The least height of the border box that a hidden minimum asks for. It bounds the content
/// box, unless the sizes are those of the border box.
pub open spec fn least_height(style: BoxStyle, hidden: HiddenHeights, parent: MaybeSize) -> Option<
    i64,
> {
    match hidden.min {
        Some(m) => match resolved(m, parent.height) {
            Some(v) => Some(
                if style.box_sizing is ContentBox {
                    plus(
                        v,
                        edges_size(
                            resolved_edges(style.padding, parent.width),
                            resolved_edges(style.border, parent.width),
                        ).height,
                    )
                } else {
                    v
                },
            ),
            None => None,
        },
        None => None,
    }
}

/// The bottom of the margin box of a float among the children of a box; zero for another
/// child.
pub open spec fn bottom_of_float(b: LayoutBox) -> int {
    if !(b.style.float is Off) && b.style.placement is InFlow {
        b.unrounded_layout.location.y + b.unrounded_layout.size.height
            + b.unrounded_layout.margin.bottom
    } else {
        0
    }
}

/// The lowest bottom of a float among the first `n` children of the box `id`, or zero.
pub open spec fn bottom_of_floats(tree: LayoutTree, id: BoxId, n: int) -> int
    decreases n,
{
    if n <= 0 {
        0
    } else {
        let before = bottom_of_floats(tree, id, n - 1);
        let own = bottom_of_float(tree.at(tree.at(id).children@[n - 1]));
        if own > before {
            own
        } else {
            before
        }
    }
}

fn find_bottom_of_floats(tree: &LayoutTree, id: BoxId) -> (r: i64)
    requires
        tree.wf(),
        tree.has(id),
    ensures
        r == bottom_of_floats(*tree, id, tree.at(id).children@.len() as int),
        0 <= r <= 0x2_0000_0000,
{
    assert(tree.links_ok(id.0 as int));
    let b: &LayoutBox = tree.box_(id);
    let mut lowest: i64 = 0;
    let mut k: usize = 0;
    while k < b.children.len()
        invariant
            k <= b.children@.len(),
            tree.wf(),
            tree.has(id),
            *b == tree.at(id),
            tree.links_ok(id.0 as int),
            lowest == bottom_of_floats(*tree, id, k as int),
            0 <= lowest <= 0x2_0000_0000,
        decreases b.children.len() - k,
    {
        let c: BoxId = b.children[k];
        assert(id.0 < b.children@[k as int].0 < tree.boxes@.len());
        let child: &LayoutBox = tree.box_(c);
        if child.style.float != Float::Off && child.style.placement == Placement::InFlow {
            let own: i64 = child.unrounded_layout.location.y as i64
                + child.unrounded_layout.size.height as i64
                + child.unrounded_layout.margin.bottom as i64;
            if own > lowest {
                lowest = own;
            }
        }
        k = k + 1;
    }
    lowest
}

/// The height of a block's border box after the block algorithm: no less than a hidden
/// minimum, and tall enough for all of its floats and its bottom padding and border, if it
/// isolates them and its height is `auto`.
pub open spec fn block_height(
    tree: LayoutTree,
    id: BoxId,
    hidden: HiddenHeights,
    parent: MaybeSize,
    performs: bool,
    output: Size,
) -> int {
    let b = tree.at(id);
    let lifted = match least_height(b.style, hidden, parent) {
        Some(lo) => most(output.height as i64, lo),
        None => output.height as i64,
    };
    let floats = bottom_of_floats(tree, id, b.children@.len() as int);
    if b.force_bfc && performs && b.style.size.height is Auto && floats > 0 {
        let width = Some(output.width as i64);
        let with_insets = floats + resolved_edges(b.style.padding, width).bottom + resolved_edges(
            b.style.border,
            width,
        ).bottom;
        if with_insets > lifted {
            with_insets
        } else {
            lifted as int
        }
    } else {
        lifted as int
    }
}

fn find_block_size(
    tree: &LayoutTree,
    id: BoxId,
    hidden: HiddenHeights,
    parent: MaybeSize,
    performs: bool,
    output: Size,
) -> (r: Size)
    requires
        tree.wf(),
        tree.has(id),
    ensures
        r.width == output.width,
        r.height == fitted(block_height(*tree, id, hidden, parent, performs, output)),
{
    let b: &LayoutBox = tree.box_(id);
    let mut height: i64 = output.height as i64;
    if let Some(m) = hidden.min {
        if let Some(v) = resolve(m, parent.height) {
            let lo: i64 = if b.style.box_sizing == BoxSizing::ContentBox {
                let padding: Edges = resolve_edges(b.style.padding, parent.width);
                let border: Edges = resolve_edges(b.style.border, parent.width);
                plus(v, sum_edges(padding, border).height)
            } else {
                v
            };
            height = most(height, lo);
        }
    }
    if b.force_bfc && performs && b.style.size.height.is_auto() {
        let floats: i64 = find_bottom_of_floats(tree, id);
        if floats > 0 {
            let width: Option<i64> = Some(output.width as i64);
            let padding: Edges = resolve_edges(b.style.padding, width);
            let border: Edges = resolve_edges(b.style.border, width);
            height = most(height, floats + padding.bottom as i64 + border.bottom as i64);
        }
    }
    Size { width: output.width, height: fit(height as i128) }
}

/// Gives the box `id` its hidden heights back after the block algorithm, and finds the size of
/// its border box from the size `output` that the algorithm came to. `performs` says that the
/// children were placed, not only measured.
pub fn end_block(
    tree: &mut LayoutTree,
    id: BoxId,
    hidden: HiddenHeights,
    parent: MaybeSize,
    performs: bool,
    output: Size,
) -> (r: Size)
    requires
        old(tree).wf(),
        old(tree).has(id),
    ensures
        final(tree).wf(),
        *final(tree) == (LayoutTree { boxes: final(tree).boxes, ..*old(tree) }),
        final(tree).boxes@ == old(tree).boxes@.update(
            id.0 as int,
            LayoutBox {
                style: with_heights(old(tree).at(id).style, hidden),
                ..old(tree).at(id)
            },
        ),
        r.width == output.width,
        r.height == fitted(block_height(*final(tree), id, hidden, parent, performs, output)),
{
    let style: BoxStyle = tree.boxes[id.index()].style;
    set_style(tree, id, give_heights_back(style, hidden));
    find_block_size(tree, id, hidden, parent, performs, output)
}

/// The flex algorithm is to find the main size of the container from its items alone: nothing
/// gives it, and nothing bounds it.
pub open spec fn derives_main_size(style: BoxStyle, known: MaybeSize, space: Spaces) -> bool {
    if style.flex_direction is Row || style.flex_direction is RowReverse {
        known.width is None && style.size.width is Auto && !(space.width is Definite)
            && style.min_size.width is Auto && style.max_size.width is Auto
    } else {
        known.height is None && style.size.height is Auto && !(space.height is Definite)
            && style.min_size.height is Auto && style.max_size.height is Auto
    }
}

/// The item would grow from a flex basis that is a length.
pub open spec fn grows(style: BoxStyle) -> bool {
    style.flex_grow != 0 && style.flex_basis is Length
}

/// A box with another `flex-grow`.
pub open spec fn with_growth(b: LayoutBox, growth: u32) -> LayoutBox {
    LayoutBox { style: BoxStyle { flex_grow: growth, ..b.style }, ..b }
}

/// The boxes with the growth of those items of the box `id` hidden that have a length to grow
/// from.
pub open spec fn ungrown(tree: LayoutTree, id: BoxId) -> Seq<LayoutBox> {
    tree.boxes@.map(
        |i: int, b: LayoutBox|
            if b.parent == Some(id) && grows(b.style) {
                with_growth(b, 0)
            } else {
                b
            },
    )
}

/// Those of the first `n` children of the box `id` whose growth is hidden, with it.
pub open spec fn hidden_growth(tree: LayoutTree, id: BoxId, n: int) -> Seq<(BoxId, u32)>
    decreases n,
{
    if n <= 0 {
        Seq::empty()
    } else {
        let c = tree.at(id).children@[n - 1];
        let before = hidden_growth(tree, id, n - 1);
        if grows(tree.at(c).style) {
            before.push((c, tree.at(c).style.flex_grow))
        } else {
            before
        }
    }
}

/// The boxes while the growth of the first `n` children of `id` is hidden.
spec fn partly_ungrown(tree: LayoutTree, id: BoxId, n: int) -> Seq<LayoutBox>
    decreases n,
{
    if n <= 0 {
        tree.boxes@
    } else {
        let c = tree.at(id).children@[n - 1];
        let before = partly_ungrown(tree, id, n - 1);
        if grows(tree.at(c).style) {
            before.update(c.0 as int, with_growth(tree.at(c), 0))
        } else {
            before
        }
    }
}

proof fn lemma_partly_ungrown(tree: LayoutTree, id: BoxId, n: int)
    requires
        tree.wf(),
        tree.has(id),
        0 <= n <= tree.at(id).children@.len(),
    ensures
        partly_ungrown(tree, id, n).len() == tree.boxes@.len(),
        forall|i: int|
            0 <= i < tree.boxes@.len() ==> #[trigger] partly_ungrown(tree, id, n)[i] == (
            if grows(tree.boxes@[i].style) && tree.at(id).children@.take(n).contains(
                BoxId(i as u32),
            ) {
                with_growth(tree.boxes@[i], 0)
            } else {
                tree.boxes@[i]
            }),
    decreases n,
{
    let kids = tree.at(id).children@;
    assert(tree.links_ok(id.0 as int));
    if n > 0 {
        lemma_partly_ungrown(tree, id, n - 1);
        let c = kids[n - 1];
        assert(id.0 < c.0 < tree.boxes@.len());
        assert forall|i: int| 0 <= i < tree.boxes@.len() implies #[trigger] partly_ungrown(
            tree,
            id,
            n,
        )[i] == (if grows(tree.boxes@[i].style) && kids.take(n).contains(BoxId(i as u32)) {
            with_growth(tree.boxes@[i], 0)
        } else {
            tree.boxes@[i]
        }) by {
            let x = BoxId(i as u32);
            assert(kids.take(n) =~= kids.take(n - 1).push(c));
            assert(partly_ungrown(tree, id, n - 1)[i] == partly_ungrown(tree, id, n - 1)[i]);
            if i == c.0 {
                assert(kids.take(n)[n - 1] == x);
                assert(kids.take(n).contains(x));
                if kids.take(n - 1).contains(x) {
                    let shorter = kids.take(n - 1);
                    let j = choose|j: int| 0 <= j < shorter.len() && shorter[j] == x;
                    assert(kids[j] == kids[n - 1]);
                    assert(false);
                }
            } else {
                if kids.take(n).contains(x) {
                    let j = choose|j: int| 0 <= j < kids.take(n).len() && kids.take(n)[j] == x;
                    assert(j < n - 1);
                    assert(kids.take(n - 1)[j] == x);
                }
                if kids.take(n - 1).contains(x) {
                    let shorter = kids.take(n - 1);
                    let j = choose|j: int| 0 <= j < shorter.len() && shorter[j] == x;
                    assert(kids.take(n)[j] == x);
                }
            }
        }
    }
}

proof fn lemma_all_ungrown(tree: LayoutTree, id: BoxId)
    requires
        tree.wf(),
        tree.has(id),
    ensures
        partly_ungrown(tree, id, tree.at(id).children@.len() as int) == ungrown(tree, id),
{
    let kids = tree.at(id).children@;
    lemma_partly_ungrown(tree, id, kids.len() as int);
    assert(kids.take(kids.len() as int) =~= kids);
    assert forall|i: int| 0 <= i < tree.boxes@.len() implies (tree.boxes@[i].parent == Some(id))
        == #[trigger] kids.contains(BoxId(i as u32)) by {
        assert(tree.links_ok(i));
        assert(tree.links_ok(id.0 as int));
        if kids.contains(BoxId(i as u32)) {
            let j = choose|j: int| 0 <= j < kids.len() && kids[j] == BoxId(i as u32);
            assert(tree.boxes@[kids[j].0 as int].parent == Some(BoxId(id.0)));
        }
    }
    assert(partly_ungrown(tree, id, kids.len() as int) =~= ungrown(tree, id));
}

fn find_derives_main_size(style: &BoxStyle, known: MaybeSize, space: Spaces) -> (r: bool)
    ensures
        r == derives_main_size(*style, known, space),
{
    if matches!(style.flex_direction, FlexDirection::Row | FlexDirection::RowReverse) {
        known.width.is_none() && style.size.width.is_auto() && !matches!(
            space.width,
            Space::Definite(_)
        ) && style.min_size.width.is_auto() && style.max_size.width.is_auto()
    } else {
        known.height.is_none() && style.size.height.is_auto() && !matches!(
            space.height,
            Space::Definite(_)
        ) && style.min_size.height.is_auto() && style.max_size.height.is_auto()
    }
}

/// Hides the growth of the items of the flex container `id` where its main size is to be found
/// from them: an item with a length to grow from contributes that length, however it grows.
/// With the main size gone to the sum of those lengths there is nothing left to grow into.
pub fn begin_flex(tree: &mut LayoutTree, id: BoxId, known: MaybeSize, space: Spaces) -> (r: Vec<
    (BoxId, u32),
>)
    requires
        old(tree).wf(),
        old(tree).has(id),
    ensures
        final(tree).wf(),
        *final(tree) == (LayoutTree { boxes: final(tree).boxes, ..*old(tree) }),
        derives_main_size(old(tree).at(id).style, known, space) ==> {
            &&& r@ == hidden_growth(*old(tree), id, old(tree).at(id).children@.len() as int)
            &&& final(tree).boxes@ == ungrown(*old(tree), id)
        },
        !derives_main_size(old(tree).at(id).style, known, space) ==> {
            &&& r@.len() == 0
            &&& final(tree).boxes@ == old(tree).boxes@
        },
{
    let mut hidden: Vec<(BoxId, u32)> = Vec::new();
    let derives: bool = find_derives_main_size(&tree.boxes[id.index()].style, known, space);
    if !derives {
        return hidden;
    }
    let ghost before = *tree;
    assert(before.links_ok(id.0 as int));
    let n: usize = tree.boxes[id.index()].children.len();
    let mut k: usize = 0;
    while k < n
        invariant
            k <= n,
            n == before.at(id).children@.len(),
            before == *old(tree),
            before.wf(),
            before.has(id),
            before.links_ok(id.0 as int),
            *tree == (LayoutTree { boxes: tree.boxes, ..before }),
            tree.boxes@ == partly_ungrown(before, id, k as int),
            hidden@ == hidden_growth(before, id, k as int),
        decreases n - k,
    {
        proof {
            lemma_partly_ungrown(before, id, k as int);
            assert(tree.boxes@[id.0 as int] == partly_ungrown(before, id, k as int)[id.0 as int]);
        }
        let c: BoxId = tree.boxes[id.index()].children[k];
        proof {
            let kids = before.at(id).children@;
            assert(c == kids[k as int]);
            assert(id.0 < kids[k as int].0 < before.boxes@.len());
            assert(tree.boxes@[c.0 as int] == partly_ungrown(before, id, k as int)[c.0 as int]);
            if kids.take(k as int).contains(c) {
                let j = choose|j: int|
                    0 <= j < kids.take(k as int).len() && kids.take(k as int)[j] == c;
                assert(kids[j] == kids[k as int]);
                assert(false);
            }
        }
        let growth: u32 = tree.boxes[c.index()].style.flex_grow;
        let basis: Dimension = tree.boxes[c.index()].style.flex_basis;
        if growth != 0 && matches!(basis, Dimension::Length(_)) {
            hidden.push((c, growth));
            tree.boxes[c.index()].style.flex_grow = 0;
        }
        assert(tree.boxes@ =~= partly_ungrown(before, id, k + 1));
        k = k + 1;
    }
    proof {
        lemma_all_ungrown(before, id);
        assert forall|i: int| 0 <= i < before.boxes@.len() implies same_links(
            #[trigger] before.boxes@[i],
            tree.boxes@[i],
        ) by {
            assert(tree.boxes@[i] == ungrown(before, id)[i]);
        }
        assert(same_shape(before, *tree));
        shape_decides_wf(before, *tree);
    }
    hidden
}

/// The boxes with the first `n` hidden growths given back.
pub open spec fn regrown(boxes: Seq<LayoutBox>, hidden: Seq<(BoxId, u32)>, n: int) -> Seq<LayoutBox>
    decreases n,
{
    if n <= 0 {
        boxes
    } else {
        let before = regrown(boxes, hidden, n - 1);
        let (c, growth) = hidden[n - 1];
        before.update(c.0 as int, with_growth(before[c.0 as int], growth))
    }
}

/// Gives items the growth back that was hidden from the flex algorithm.
pub fn end_flex(tree: &mut LayoutTree, hidden: &Vec<(BoxId, u32)>)
    requires
        old(tree).wf(),
        forall|k: int| 0 <= k < hidden@.len() ==> old(tree).has((#[trigger] hidden@[k]).0),
    ensures
        final(tree).wf(),
        *final(tree) == (LayoutTree { boxes: final(tree).boxes, ..*old(tree) }),
        final(tree).boxes@ == regrown(old(tree).boxes@, hidden@, hidden@.len() as int),
{
    let ghost before = *tree;
    let mut k: usize = 0;
    while k < hidden.len()
        invariant
            k <= hidden@.len(),
            before == *old(tree),
            before.wf(),
            tree.wf(),
            tree.boxes@.len() == before.boxes@.len(),
            *tree == (LayoutTree { boxes: tree.boxes, ..before }),
            tree.boxes@ == regrown(before.boxes@, hidden@, k as int),
            forall|j: int| 0 <= j < hidden@.len() ==> before.has((#[trigger] hidden@[j]).0),
        decreases hidden.len() - k,
    {
        let (c, growth): (BoxId, u32) = hidden[k];
        assert(before.has(hidden@[k as int].0));
        let ghost last = *tree;
        tree.boxes[c.index()].style.flex_grow = growth;
        proof {
            assert(tree.boxes@ =~= regrown(before.boxes@, hidden@, k + 1));
            assert(same_shape(last, *tree));
            shape_decides_wf(last, *tree);
        }
        k = k + 1;
    }
}

/// Every box has its own growth back after the flex algorithm, whatever the algorithm did to
/// their layouts.
pub proof fn hidden_growth_comes_back(tree: LayoutTree, id: BoxId, laid_out: Seq<LayoutBox>)
    requires
        tree.wf(),
        tree.has(id),
        laid_out.len() == tree.boxes@.len(),
        forall|i: int|
            0 <= i < laid_out.len() ==> (#[trigger] laid_out[i]).style == ungrown(tree, id)[i].style,
    ensures
        ({
            let hidden = hidden_growth(tree, id, tree.at(id).children@.len() as int);
            let after = regrown(laid_out, hidden, hidden.len() as int);
            &&& after.len() == laid_out.len()
            &&& forall|i: int|
                0 <= i < laid_out.len() ==> (#[trigger] after[i]).style == tree.boxes@[i].style
        }),
{
    let kids = tree.at(id).children@;
    let hidden = hidden_growth(tree, id, kids.len() as int);
    let after = regrown(laid_out, hidden, hidden.len() as int);
    lemma_regrown(tree, id, laid_out, kids.len() as int);
    assert(kids.take(kids.len() as int) =~= kids);
    assert forall|i: int| 0 <= i < laid_out.len() implies (#[trigger] after[i]).style
        == tree.boxes@[i].style by {
        assert(laid_out[i].style == ungrown(tree, id)[i].style);
        assert(tree.links_ok(i));
        if tree.boxes@[i].parent == Some(id) {
            assert(kids.contains(BoxId(i as u32)));
        }
    }
}

proof fn lemma_regrown(tree: LayoutTree, id: BoxId, laid_out: Seq<LayoutBox>, n: int)
    requires
        tree.wf(),
        tree.has(id),
        0 <= n <= tree.at(id).children@.len(),
        laid_out.len() == tree.boxes@.len(),
        forall|i: int|
            0 <= i < laid_out.len() ==> (#[trigger] laid_out[i]).style == ungrown(tree, id)[i].style,
    ensures
        ({
            let hidden = hidden_growth(tree, id, n);
            let after = regrown(laid_out, hidden, hidden.len() as int);
            &&& after.len() == laid_out.len()
            &&& forall|i: int|
                0 <= i < laid_out.len() ==> (#[trigger] after[i]).style == if tree.at(
                    id,
                ).children@.take(n).contains(BoxId(i as u32)) {
                    tree.boxes@[i].style
                } else {
                    laid_out[i].style
                }
        }),
    decreases n,
{
    let kids = tree.at(id).children@;
    let hidden = hidden_growth(tree, id, n);
    let after = regrown(laid_out, hidden, hidden.len() as int);
    assert(tree.links_ok(id.0 as int));
    if n > 0 {
        lemma_regrown(tree, id, laid_out, n - 1);
        let c = kids[n - 1];
        assert(id.0 < c.0 < tree.boxes@.len());
        assert(tree.boxes@[kids[n - 1].0 as int].parent == Some(BoxId(id.0)));
        let less = hidden_growth(tree, id, n - 1);
        let sooner = regrown(laid_out, less, less.len() as int);
        assert(laid_out[c.0 as int].style == ungrown(tree, id)[c.0 as int].style);
        if grows(tree.at(c).style) {
            lemma_regrown_prefix(laid_out, less, hidden, less.len() as int);
        }
        assert forall|i: int| 0 <= i < laid_out.len() implies (#[trigger] after[i]).style == if
            kids.take(n).contains(BoxId(i as u32)) {
            tree.boxes@[i].style
        } else {
            laid_out[i].style
        } by {
            let x = BoxId(i as u32);
            assert(sooner[i] == sooner[i]);
            if i == c.0 {
                assert(kids.take(n)[n - 1] == x);
                assert(kids.take(n).contains(x));
            } else {
                if kids.take(n).contains(x) {
                    let j = choose|j: int| 0 <= j < kids.take(n).len() && kids.take(n)[j] == x;
                    assert(j < n - 1);
                    assert(kids.take(n - 1)[j] == x);
                }
                if kids.take(n - 1).contains(x) {
                    let shorter = kids.take(n - 1);
                    let j = choose|j: int| 0 <= j < shorter.len() && shorter[j] == x;
                    assert(kids.take(n)[j] == x);
                }
            }
        }
    }
}

proof fn lemma_regrown_prefix(
    boxes: Seq<LayoutBox>,
    a: Seq<(BoxId, u32)>,
    b: Seq<(BoxId, u32)>,
    n: int,
)
    requires
        0 <= n <= a.len() <= b.len(),
        forall|k: int| 0 <= k < a.len() ==> a[k] == b[k],
    ensures
        regrown(boxes, a, n) == regrown(boxes, b, n),
    decreases n,
{
    if n > 0 {
        lemma_regrown_prefix(boxes, a, b, n - 1);
    }
}

/// Boxes are the same but for what layout finds of them: their kinds, links and styles are as
/// they were.
pub open spec fn only_laid_out(a: Seq<LayoutBox>, b: Seq<LayoutBox>) -> bool {
    &&& a.len() == b.len()
    &&& forall|i: int| 0 <= i < a.len() ==> is_laid_out(#[trigger] a[i], b[i])
}

/// A box is the same but for what layout finds of it.
pub open spec fn is_laid_out(a: LayoutBox, b: LayoutBox) -> bool {
    a.kind == b.kind && same_links(a, b) && a.style == b.style && a.grid@ == b.grid@
}

/// From [`begin_block`] to [`end_block`], whatever the block algorithm finds in between, no
/// box changes its kind, its links or its style.
pub proof fn block_layout_keeps_styles_and_links(
    tree: LayoutTree,
    id: BoxId,
    mode: SizingMode,
    inside: Seq<LayoutBox>,
)
    requires
        tree.wf(),
        tree.has(id),
        only_laid_out(
            tree.boxes@.update(
                id.0 as int,
                LayoutBox {
                    style: without_heights(
                        tree.at(id).style,
                        hidden_heights(tree.at(id).style, mode),
                    ),
                    ..tree.at(id)
                },
            ),
            inside,
        ),
    ensures
        only_laid_out(
            tree.boxes@,
            inside.update(
                id.0 as int,
                LayoutBox {
                    style: with_heights(
                        inside[id.0 as int].style,
                        hidden_heights(tree.at(id).style, mode),
                    ),
                    ..inside[id.0 as int]
                },
            ),
        ),
{
    let hidden = hidden_heights(tree.at(id).style, mode);
    let at = id.0 as int;
    let before = tree.boxes@.update(
        at,
        LayoutBox { style: without_heights(tree.at(id).style, hidden), ..tree.at(id) },
    );
    let after = inside.update(
        at,
        LayoutBox { style: with_heights(inside[at].style, hidden), ..inside[at] },
    );
    hidden_heights_come_back(tree.at(id).style, mode);
    assert forall|i: int| 0 <= i < tree.boxes@.len() implies is_laid_out(
        #[trigger] tree.boxes@[i],
        after[i],
    ) by {
        assert(is_laid_out(before[i], inside[i]));
    }
}

/// What is hidden from the flex algorithm belongs to boxes of the tree, so that it can be given
/// back.
pub proof fn hidden_growth_has_its_boxes(tree: LayoutTree, id: BoxId, n: int)
    requires
        tree.wf(),
        tree.has(id),
        0 <= n <= tree.at(id).children@.len(),
    ensures
        forall|k: int|
            0 <= k < hidden_growth(tree, id, n).len() ==> tree.has(
                (#[trigger] hidden_growth(tree, id, n)[k]).0,
            ),
    decreases n,
{
    if n > 0 {
        hidden_growth_has_its_boxes(tree, id, n - 1);
        assert(tree.links_ok(id.0 as int));
        let before = hidden_growth(tree, id, n - 1);
        assert(id.0 < tree.at(id).children@[n - 1].0 < tree.boxes@.len());
        assert forall|k: int| 0 <= k < hidden_growth(tree, id, n).len() implies tree.has(
            (#[trigger] hidden_growth(tree, id, n)[k]).0,
        ) by {
            if k < before.len() {
                assert(hidden_growth(tree, id, n)[k] == before[k]);
            }
        }
    }
}

proof fn lemma_regrown_links(boxes: Seq<LayoutBox>, hidden: Seq<(BoxId, u32)>, n: int)
    requires
        0 <= n <= hidden.len(),
        forall|k: int| 0 <= k < hidden.len() ==> (#[trigger] hidden[k]).0.0 < boxes.len(),
    ensures
        regrown(boxes, hidden, n).len() == boxes.len(),
        forall|i: int|
            0 <= i < boxes.len() ==> {
                let b = #[trigger] regrown(boxes, hidden, n)[i];
                b.kind == boxes[i].kind && same_links(b, boxes[i]) && b.grid == boxes[i].grid
            },
    decreases n,
{
    if n > 0 {
        lemma_regrown_links(boxes, hidden, n - 1);
        let before = regrown(boxes, hidden, n - 1);
        assert(hidden[n - 1].0.0 < boxes.len());
        assert forall|i: int| 0 <= i < boxes.len() implies {
            let b = #[trigger] regrown(boxes, hidden, n)[i];
            b.kind == boxes[i].kind && same_links(b, boxes[i]) && b.grid == boxes[i].grid
        } by {
            assert(before[i] == before[i]);
        }
    }
}

/// From [`begin_flex`] to [`end_flex`], whatever the flex algorithm finds in between, no box
/// changes its kind, its links or its style.
pub proof fn flex_layout_keeps_styles_and_links(
    tree: LayoutTree,
    id: BoxId,
    known: MaybeSize,
    space: Spaces,
    inside: Seq<LayoutBox>,
)
    requires
        tree.wf(),
        tree.has(id),
        only_laid_out(
            if derives_main_size(tree.at(id).style, known, space) {
                ungrown(tree, id)
            } else {
                tree.boxes@
            },
            inside,
        ),
    ensures
        ({
            let hidden = if derives_main_size(tree.at(id).style, known, space) {
                hidden_growth(tree, id, tree.at(id).children@.len() as int)
            } else {
                Seq::empty()
            };
            only_laid_out(tree.boxes@, regrown(inside, hidden, hidden.len() as int))
        }),
{
    if derives_main_size(tree.at(id).style, known, space) {
        let hidden = hidden_growth(tree, id, tree.at(id).children@.len() as int);
        let before = ungrown(tree, id);
        let after = regrown(inside, hidden, hidden.len() as int);
        assert forall|i: int| 0 <= i < inside.len() implies (#[trigger] inside[i]).style
            == before[i].style by {
            assert(is_laid_out(before[i], inside[i]));
        }
        hidden_growth_comes_back(tree, id, inside);
        hidden_growth_has_its_boxes(tree, id, tree.at(id).children@.len() as int);
        assert forall|k: int| 0 <= k < hidden.len() implies (#[trigger] hidden[k]).0.0
            < inside.len() by {
            assert(tree.has(hidden[k].0));
        }
        lemma_regrown_links(inside, hidden, hidden.len() as int);
        assert forall|i: int| 0 <= i < tree.boxes@.len() implies is_laid_out(
            #[trigger] tree.boxes@[i],
            after[i],
        ) by {
            assert(is_laid_out(before[i], inside[i]));
            assert(after[i].style == tree.boxes@[i].style);
        }
    }
}

/// What happens to the box tree while a box is laid out.
pub ghost enum LayoutCall {
    /// The box gets a place, lines or columns.
    Found { id: BoxId },
    /// The box is laid out as a block, with the given calls in between and the trees that they
    /// lead to.
    Block { id: BoxId, mode: SizingMode, calls: Seq<LayoutCall>, trees: Seq<LayoutTree> },
    /// The box is laid out as a flex container, likewise.
    Flex {
        id: BoxId,
        known: MaybeSize,
        space: Spaces,
        calls: Seq<LayoutCall>,
        trees: Seq<LayoutTree>,
    },
    /// The box is laid out in another way, likewise.
    Other { calls: Seq<LayoutCall>, trees: Seq<LayoutTree> },
}

/// The tree `b` is the tree `a` with other boxes.
pub open spec fn only_boxes_differ(a: LayoutTree, b: LayoutTree) -> bool {
    b == (LayoutTree { boxes: b.boxes, ..a })
}

/// What layout finds of a box: where it is, its lines and its columns.
pub open spec fn is_found(a: LayoutBox, b: LayoutBox) -> bool {
    &&& b == (LayoutBox {
        unrounded_layout: b.unrounded_layout,
        ifc: b.ifc,
        multicol: b.multicol,
        ..a
    })
    &&& match (a.multicol, b.multicol) {
        (Some(x), Some(y)) => x.flow == y.flow,
        (None, None) => true,
        _ => false,
    }
}

/// The call leads from the tree `a` to the tree `b`.
pub open spec fn leads(call: LayoutCall, a: LayoutTree, b: LayoutTree) -> bool
    decreases call,
{
    match call {
        LayoutCall::Found { id } => {
            &&& a.has(id)
            &&& only_boxes_differ(a, b)
            &&& is_found(a.at(id), b.boxes@[id.0 as int])
            &&& b.boxes@ == a.boxes@.update(id.0 as int, b.boxes@[id.0 as int])
        },
        LayoutCall::Block { id, mode, calls, trees } => {
            let hidden = hidden_heights(a.at(id).style, mode);
            let first = trees[0];
            let last = trees.last();
            &&& a.has(id)
            &&& trees.len() == calls.len() + 1
            &&& only_boxes_differ(a, first)
            &&& first.boxes@ == a.boxes@.update(
                id.0 as int,
                LayoutBox { style: without_heights(a.at(id).style, hidden), ..a.at(id) },
            )
            &&& forall|k: int|
                0 <= k < calls.len() ==> leads(#[trigger] calls[k], trees[k], trees[k + 1])
            &&& only_boxes_differ(last, b)
            &&& b.boxes@ == last.boxes@.update(
                id.0 as int,
                LayoutBox { style: with_heights(last.at(id).style, hidden), ..last.at(id) },
            )
        },
        LayoutCall::Flex { id, known, space, calls, trees } => {
            let derives = derives_main_size(a.at(id).style, known, space);
            let hidden = if derives {
                hidden_growth(a, id, a.at(id).children@.len() as int)
            } else {
                Seq::empty()
            };
            let first = trees[0];
            let last = trees.last();
            &&& a.has(id)
            &&& trees.len() == calls.len() + 1
            &&& only_boxes_differ(a, first)
            &&& first.boxes@ == if derives {
                ungrown(a, id)
            } else {
                a.boxes@
            }
            &&& forall|k: int|
                0 <= k < calls.len() ==> leads(#[trigger] calls[k], trees[k], trees[k + 1])
            &&& only_boxes_differ(last, b)
            &&& b.boxes@ == regrown(last.boxes@, hidden, hidden.len() as int)
        },
        LayoutCall::Other { calls, trees } => {
            &&& trees.len() == calls.len() + 1
            &&& trees[0] == a
            &&& forall|k: int|
                0 <= k < calls.len() ==> leads(#[trigger] calls[k], trees[k], trees[k + 1])
            &&& trees.last() == b
        },
    }
}

proof fn lemma_laid_out_twice(a: Seq<LayoutBox>, b: Seq<LayoutBox>, c: Seq<LayoutBox>)
    requires
        only_laid_out(a, b),
        only_laid_out(b, c),
    ensures
        only_laid_out(a, c),
{
    assert forall|i: int| 0 <= i < a.len() implies is_laid_out(#[trigger] a[i], c[i]) by {
        assert(is_laid_out(a[i], b[i]));
        assert(is_laid_out(b[i], c[i]));
    }
}

proof fn lemma_laid_out_is_wf(a: LayoutTree, b: LayoutTree)
    requires
        a.wf(),
        only_boxes_differ(a, b),
        a.boxes@.len() == b.boxes@.len(),
        forall|i: int|
            0 <= i < a.boxes@.len() ==> same_links(#[trigger] a.boxes@[i], b.boxes@[i]),
    ensures
        b.wf(),
{
    assert(same_shape(a, b));
    shape_decides_wf(a, b);
}

/// The trees that calls lead to, one after the other, differ in what layout finds alone.
proof fn lemma_calls_keep(calls: Seq<LayoutCall>, trees: Seq<LayoutTree>, n: int)
    requires
        trees.len() == calls.len() + 1,
        0 <= n <= calls.len(),
        trees[0].wf(),
        forall|k: int|
            0 <= k < calls.len() ==> leads(#[trigger] calls[k], trees[k], trees[k + 1]),
    ensures
        only_laid_out(trees[0].boxes@, trees[n].boxes@),
        only_boxes_differ(trees[0], trees[n]),
        trees[n].wf(),
    decreases calls, n,
{
    if n > 0 {
        lemma_calls_keep(calls, trees, n - 1);
        assert(leads(calls[n - 1], trees[n - 1], trees[n - 1 + 1]));
        layout_calls_keep_styles_and_links(calls[n - 1], trees[n - 1], trees[n]);
        lemma_laid_out_twice(trees[0].boxes@, trees[n - 1].boxes@, trees[n].boxes@);
    }
}

/// Laying a box out, however deep the calls for the boxes inside it go, changes neither the
/// kind nor the links nor the style of any box: what is hidden for the inner passes is all
/// back.
pub proof fn layout_calls_keep_styles_and_links(call: LayoutCall, a: LayoutTree, b: LayoutTree)
    requires
        a.wf(),
        leads(call, a, b),
    ensures
        only_laid_out(a.boxes@, b.boxes@),
        only_boxes_differ(a, b),
        b.wf(),
    decreases call, 0int,
{
    match call {
        LayoutCall::Found { id } => {
            assert forall|i: int| 0 <= i < a.boxes@.len() implies is_laid_out(
                #[trigger] a.boxes@[i],
                b.boxes@[i],
            ) by {
                if i == id.0 {
                    assert(is_found(a.at(id), b.boxes@[id.0 as int]));
                }
            }
            lemma_laid_out_is_wf(a, b);
        },
        LayoutCall::Block { id, mode, calls, trees } => {
            let first = trees[0];
            lemma_laid_out_is_wf(a, first);
            lemma_calls_keep(calls, trees, calls.len() as int);
            let inside = trees.last().boxes@;
            block_layout_keeps_styles_and_links(a, id, mode, inside);
            lemma_laid_out_is_wf(a, b);
        },
        LayoutCall::Flex { id, known, space, calls, trees } => {
            let first = trees[0];
            assert forall|i: int| 0 <= i < a.boxes@.len() implies same_links(
                #[trigger] a.boxes@[i],
                first.boxes@[i],
            ) by {
                assert(first.boxes@[i] == first.boxes@[i]);
            }
            lemma_laid_out_is_wf(a, first);
            lemma_calls_keep(calls, trees, calls.len() as int);
            flex_layout_keeps_styles_and_links(a, id, known, space, trees.last().boxes@);
            lemma_laid_out_is_wf(a, b);
        },
        LayoutCall::Other { calls, trees } => {
            lemma_calls_keep(calls, trees, calls.len() as int);
        },
    }
}

/// A block that isolates its floats and has no height of its own is tall enough for each of
/// them, with its margin, and for its own bottom padding and border below.
pub proof fn isolated_floats_are_contained(
    tree: LayoutTree,
    id: BoxId,
    hidden: HiddenHeights,
    parent: MaybeSize,
    output: Size,
    k: int,
)
    requires
        0 <= k < tree.at(id).children@.len(),
        tree.at(id).force_bfc,
        tree.at(id).style.size.height == Dimension::Auto,
        ({
            let c = tree.at(tree.at(id).children@[k]);
            c.style.float != Float::Off && c.style.placement == Placement::InFlow
        }),
    ensures
        ({
            let c = tree.at(tree.at(id).children@[k]).unrounded_layout;
            let bottom = c.location.y + c.size.height + c.margin.bottom;
            let height = block_height(tree, id, hidden, parent, true, output);
            match (tree.at(id).style.padding.bottom, tree.at(id).style.border.bottom) {
                (Dimension::Length(p), Dimension::Length(b)) => bottom > 0 ==> height >= bottom + p
                    + b,
                _ => true,
            }
        }),
{
    lemma_floats_reach(tree, id, tree.at(id).children@.len() as int, k);
}

proof fn lemma_floats_reach(tree: LayoutTree, id: BoxId, n: int, k: int)
    requires
        0 <= k < n,
    ensures
        bottom_of_floats(tree, id, n) >= bottom_of_float(tree.at(tree.at(id).children@[k])),
        bottom_of_floats(tree, id, n) >= 0,
    decreases n,
{
    if k < n - 1 {
        lemma_floats_reach(tree, id, n - 1, k);
    } else {
        lemma_floats_are_positive(tree, id, n - 1);
    }
}

proof fn lemma_floats_are_positive(tree: LayoutTree, id: BoxId, n: int)
    ensures
        bottom_of_floats(tree, id, n) >= 0,
    decreases n,
{
    if n > 0 {
        lemma_floats_are_positive(tree, id, n - 1);
    }
}

/// A block is no lower than the block algorithm made it and than a minimum that was hidden
/// from it; without such a minimum and without floats to isolate it is what the algorithm
/// made it.
pub proof fn a_hidden_minimum_lifts_a_block(
    tree: LayoutTree,
    id: BoxId,
    hidden: HiddenHeights,
    parent: MaybeSize,
    performs: bool,
    output: Size,
)
    ensures
        ({
            let style = tree.at(id).style;
            let height = block_height(tree, id, hidden, parent, performs, output);
            &&& height >= output.height
            &&& match (hidden.min, style.padding.top, style.padding.bottom, style.border.top, style.border.bottom) {
                (
                    Some(Dimension::Length(m)),
                    Dimension::Length(pt),
                    Dimension::Length(pb),
                    Dimension::Length(bt),
                    Dimension::Length(bb),
                ) => height >= if style.box_sizing is ContentBox {
                    m + pt + pb + bt + bb
                } else {
                    m as int
                },
                _ => true,
            }
            &&& hidden.min is None && (!tree.at(id).force_bfc || !performs) ==> height
                == output.height
        }),
{
}

/// Which algorithm lays a box out. Replaced boxes are leaves of their own kind, tables and
/// multi-column containers have their own, a box with lines is laid out by them, and any
/// other goes by its `display`.
pub proof fn boxes_are_laid_out_by_their_kind(b: LayoutBox)
    ensures
        b.kind == BoxKind::TableRoot ==> algorithm_of(b) == Algorithm::Table,
        b.kind == BoxKind::MulticolRoot ==> algorithm_of(b) == Algorithm::Multicol,
        b.kind == BoxKind::Replaced && b.replaced == Some(ReplacedContent::Checkbox)
            ==> algorithm_of(b) == Algorithm::Checkbox,
        b.kind == BoxKind::Replaced && b.replaced is None ==> algorithm_of(b) == Algorithm::Image,
        (b.kind == BoxKind::InlineRoot || b.kind == BoxKind::AnonymousBlock) && b.ifc is Some
            ==> algorithm_of(b) == Algorithm::Inline,
        b.kind == BoxKind::Block || (b.ifc is None && (b.kind == BoxKind::InlineRoot || b.kind
            == BoxKind::AnonymousBlock)) ==> {
            &&& b.style.display == Display::Block ==> algorithm_of(b) == Algorithm::Block
            &&& b.style.display == Display::Flex ==> algorithm_of(b) == Algorithm::Flex
            &&& b.style.display == Display::Grid ==> algorithm_of(b) == Algorithm::Grid
            &&& b.style.display == Display::Hidden ==> algorithm_of(b) == Algorithm::Hidden
        },
{
}

/// An image of `auto` width in a block is not stretched to the width of the block; every
/// other replaced box has the size that it is given.
pub proof fn images_do_not_stretch_in_blocks(tree: LayoutTree, id: BoxId, known: MaybeSize, p: BoxId)
    requires
        tree.at(id).parent == Some(p),
    ensures
        replaced_known(tree, id, known).height == known.height,
        tree.at(id).style.size.width == Dimension::Auto && tree.at(p).style.display
            == Display::Block ==> replaced_known(tree, id, known).width is None,
        tree.at(id).style.size.width != Dimension::Auto || tree.at(p).style.display
            != Display::Block ==> replaced_known(tree, id, known).width == known.width,
{
}

} // verus!
