//! Resolves `min-content` and `max-content` to lengths before layout runs, by measuring the
//! content of the boxes that have them. Children come before their parents, so that a
//! parent is measured with its children resolved.

use vstd::prelude::*;

use crate::tree::{
    same_shape, shape_decides_wf, BoxId, BoxSizing, BoxStyle, FlexDirection, IntrinsicSizeKeyword,
    IntrinsicSizeTarget, LayoutBox, LayoutTree,
};
use crate::units::{fit, fitted, max, Dimension, Dimensions, Size};

verus! {

/// A size to be measured.
#[derive(Clone, Copy, PartialEq, Eq, Debug, Structural)]
pub struct SizeRequest {
    pub id: BoxId,
    pub target: IntrinsicSizeTarget,
    pub keyword: IntrinsicSizeKeyword,
    /// The width is measured, else the height.
    pub is_width: bool,
}

/// Which axis a target of the box `id` is measured in. A flex basis has that of its
/// container's main axis; it is left alone where that is vertical, for the height of content
/// depends on a width that only the container's own layout finds, and where there is no
/// container.
pub open spec fn target_axis(tree: LayoutTree, id: int, target: IntrinsicSizeTarget) -> Option<bool> {
    match target {
        IntrinsicSizeTarget::Width | IntrinsicSizeTarget::MinWidth
        | IntrinsicSizeTarget::MaxWidth => Some(true),
        IntrinsicSizeTarget::Height | IntrinsicSizeTarget::MinHeight
        | IntrinsicSizeTarget::MaxHeight => Some(false),
        IntrinsicSizeTarget::FlexBasis => match tree.boxes@[id].parent {
            Some(p) => if tree.at(p).style.flex_direction is Column || tree.at(
                p,
            ).style.flex_direction is ColumnReverse {
                None
            } else {
                Some(true)
            },
            None => None,
        },
    }
}

/// The requests of the first `n` keywords of the box `id`.
pub open spec fn own_requests(tree: LayoutTree, id: int, n: int) -> Seq<SizeRequest>
    decreases n,
{
    if n <= 0 {
        Seq::empty()
    } else {
        let (target, keyword) = tree.boxes@[id].intrinsic_size_keywords@[n - 1];
        match target_axis(tree, id, target) {
            Some(is_width) => own_requests(tree, id, n - 1).push(
                SizeRequest { id: BoxId(id as u32), target, keyword, is_width },
            ),
            None => own_requests(tree, id, n - 1),
        }
    }
}

/// The requests of the box `id` and all inside it, children first.
pub open spec fn requests_in(tree: LayoutTree, id: int) -> Seq<SizeRequest>
    decreases tree.boxes@.len() - id, tree.boxes@[id].children@.len() + 1,
{
    requests_of_children(tree, id, 0) + own_requests(
        tree,
        id,
        tree.boxes@[id].intrinsic_size_keywords@.len() as int,
    )
}

/// The requests of the children of the box `id`, from the `k`th on.
pub open spec fn requests_of_children(tree: LayoutTree, id: int, k: int) -> Seq<SizeRequest>
    decreases tree.boxes@.len() - id, tree.boxes@[id].children@.len() - k,
{
    let kids = tree.boxes@[id].children@;
    if 0 <= k < kids.len() {
        let c = kids[k].0 as int;
        (if id < c < tree.boxes@.len() {
            requests_in(tree, c)
        } else {
            Seq::empty()
        }) + requests_of_children(tree, id, k + 1)
    } else {
        Seq::empty()
    }
}

fn find_axis(tree: &LayoutTree, id: BoxId, target: IntrinsicSizeTarget) -> (r: Option<bool>)
    requires
        tree.wf(),
        tree.has(id),
    ensures
        r == target_axis(*tree, id.0 as int, target),
{
    assert(tree.links_ok(id.0 as int));
    match target {
        IntrinsicSizeTarget::Width | IntrinsicSizeTarget::MinWidth
        | IntrinsicSizeTarget::MaxWidth => Some(true),
        IntrinsicSizeTarget::Height | IntrinsicSizeTarget::MinHeight
        | IntrinsicSizeTarget::MaxHeight => Some(false),
        IntrinsicSizeTarget::FlexBasis => match tree.box_(id).parent {
            Some(p) => if matches!(
                tree.box_(p).style.flex_direction,
                FlexDirection::Column | FlexDirection::ColumnReverse
            ) {
                None
            } else {
                Some(true)
            },
            None => None,
        },
    }
}

fn collect(tree: &LayoutTree, id: BoxId, out: &mut Vec<SizeRequest>)
    requires
        tree.wf(),
        tree.has(id),
    ensures
        final(out)@ == old(out)@ + requests_in(*tree, id.0 as int),
    decreases tree.boxes@.len() - id.0,
{
    assert(tree.links_ok(id.0 as int));
    let b: &LayoutBox = tree.box_(id);
    let ghost start = out@;
    let ghost all = out@ + requests_of_children(*tree, id.0 as int, 0);
    let mut k: usize = 0;
    while k < b.children.len()
        invariant
            k <= b.children@.len(),
            tree.wf(),
            tree.has(id),
            *b == tree.at(id),
            tree.links_ok(id.0 as int),
            all == out@ + requests_of_children(*tree, id.0 as int, k as int),
        decreases b.children.len() - k,
    {
        let c: BoxId = b.children[k];
        assert(id.0 < b.children@[k as int].0 < tree.boxes@.len());
        let ghost before = out@;
        collect(tree, c, out);
        proof {
            let rest = requests_of_children(*tree, id.0 as int, k + 1);
            assert(out@ + rest =~= before + (requests_in(*tree, c.0 as int) + rest));
        }
        k = k + 1;
    }
    assert(out@ =~= all);
    let ghost lead = out@;
    let mut j: usize = 0;
    assert(out@ =~= lead + own_requests(*tree, id.0 as int, 0));
    while j < b.intrinsic_size_keywords.len()
        invariant
            j <= b.intrinsic_size_keywords@.len(),
            tree.wf(),
            tree.has(id),
            *b == tree.at(id),
            out@ == lead + own_requests(*tree, id.0 as int, j as int),
        decreases b.intrinsic_size_keywords.len() - j,
    {
        let (target, keyword): (IntrinsicSizeTarget, IntrinsicSizeKeyword) =
            b.intrinsic_size_keywords[j];
        if let Some(is_width) = find_axis(tree, id, target) {
            out.push(SizeRequest { id, target, keyword, is_width });
        }
        assert(out@ =~= lead + own_requests(*tree, id.0 as int, j + 1));
        j = j + 1;
    }
    assert(out@ =~= start + requests_in(*tree, id.0 as int));
}

/// The sizes that are to be measured, in order.
pub fn size_requests(tree: &LayoutTree) -> (r: Vec<SizeRequest>)
    requires
        tree.wf(),
    ensures
        r@ == match tree.root {
            Some(root) => requests_in(*tree, root.0 as int),
            None => Seq::empty(),
        },
{
    let mut out: Vec<SizeRequest> = Vec::new();
    if let Some(root) = tree.root {
        collect(tree, root, &mut out);
    }
    assert(out@ =~= match tree.root {
        Some(root) => requests_in(*tree, root.0 as int),
        None => Seq::empty(),
    });
    out
}

/// The dimension `d` if it is the one meant, and `v` otherwise.
pub open spec fn replaced_if(meant: bool, d: Dimension, v: Dimension) -> Dimension {
    if meant {
        d
    } else {
        v
    }
}

/// A style with the size that `target` names replaced.
pub open spec fn with_size(s: BoxStyle, target: IntrinsicSizeTarget, d: Dimension) -> BoxStyle {
    BoxStyle {
        size: Dimensions {
            width: replaced_if(target is Width, d, s.size.width),
            height: replaced_if(target is Height, d, s.size.height),
        },
        min_size: Dimensions {
            width: replaced_if(target is MinWidth, d, s.min_size.width),
            height: replaced_if(target is MinHeight, d, s.min_size.height),
        },
        max_size: Dimensions {
            width: replaced_if(target is MaxWidth, d, s.max_size.width),
            height: replaced_if(target is MaxHeight, d, s.max_size.height),
        },
        flex_basis: replaced_if(target is FlexBasis, d, s.flex_basis),
        ..s
    }
}

fn set_size(s: BoxStyle, target: IntrinsicSizeTarget, d: Dimension) -> (r: BoxStyle)
    ensures
        r == with_size(s, target, d),
{
    let mut style: BoxStyle = s;
    match target {
        IntrinsicSizeTarget::Width => {
            style.size.width = d;
        },
        IntrinsicSizeTarget::Height => {
            style.size.height = d;
        },
        IntrinsicSizeTarget::MinWidth => {
            style.min_size.width = d;
        },
        IntrinsicSizeTarget::MinHeight => {
            style.min_size.height = d;
        },
        IntrinsicSizeTarget::MaxWidth => {
            style.max_size.width = d;
        },
        IntrinsicSizeTarget::MaxHeight => {
            style.max_size.height = d;
        },
        IntrinsicSizeTarget::FlexBasis => {
            style.flex_basis = d;
        },
    }
    style
}

/// Prepares a box for being measured: the size in question is `auto`, or the length that an
/// earlier pass found would bound what this one measures; and nothing cached for the box
/// counts.
pub fn begin_measure(tree: &mut LayoutTree, request: &SizeRequest)
    requires
        old(tree).wf(),
        old(tree).has(request.id),
    ensures
        final(tree).wf(),
        final(tree).boxes@ == old(tree).boxes@.update(
            request.id.0 as int,
            LayoutBox {
                style: with_size(
                    old(tree).at(request.id).style,
                    request.target,
                    Dimension::Auto,
                ),
                stale: true,
                ..old(tree).at(request.id)
            },
        ),
        *final(tree) == (LayoutTree { boxes: final(tree).boxes, ..*old(tree) }),
{
    let i: usize = request.id.0 as usize;
    let style: BoxStyle = set_size(tree.boxes[i].style, request.target, Dimension::Auto);
    tree.boxes[i].style = style;
    tree.boxes[i].stale = true;
    assert(tree.boxes@ =~= old(tree).boxes@.update(
        i as int,
        LayoutBox {
            style: with_size(old(tree).at(request.id).style, request.target, Dimension::Auto),
            stale: true,
            ..old(tree).at(request.id)
        },
    ));
    proof {
        assert(same_shape(*old(tree), *tree));
        shape_decides_wf(*old(tree), *tree);
    }
}

/// What a size property does not count in an axis: borders and padding, if it sizes the
/// content box.
pub open spec fn uncounted(s: BoxStyle, is_width: bool) -> int {
    if s.box_sizing is BorderBox {
        0
    } else if is_width {
        s.border.left.or_zero(None) + s.border.right.or_zero(None) + s.padding.left.or_zero(None)
            + s.padding.right.or_zero(None)
    } else {
        s.border.top.or_zero(None) + s.border.bottom.or_zero(None) + s.padding.top.or_zero(None)
            + s.padding.bottom.or_zero(None)
    }
}

/// The length that a measured border box gives a size property.
pub open spec fn measured_length(s: BoxStyle, is_width: bool, measured: Size) -> int {
    fitted(
        max(
            (if is_width {
                measured.width
            } else {
                measured.height
            }) - uncounted(s, is_width),
            0,
        ),
    )
}

/// Stores what a box was measured as.
pub fn end_measure(tree: &mut LayoutTree, request: &SizeRequest, measured: Size)
    requires
        old(tree).wf(),
        old(tree).has(request.id),
    ensures
        final(tree).wf(),
        final(tree).boxes@ == old(tree).boxes@.update(
            request.id.0 as int,
            LayoutBox {
                style: with_size(
                    old(tree).at(request.id).style,
                    request.target,
                    Dimension::Length(
                        measured_length(
                            old(tree).at(request.id).style,
                            request.is_width,
                            measured,
                        ) as i32,
                    ),
                ),
                ..old(tree).at(request.id)
            },
        ),
        *final(tree) == (LayoutTree { boxes: final(tree).boxes, ..*old(tree) }),
{
    let i: usize = request.id.0 as usize;
    let s: BoxStyle = tree.boxes[i].style;
    let rest: i64 = if s.box_sizing == BoxSizing::BorderBox {
        0
    } else if request.is_width {
        s.border.left.resolve_or_zero(None) as i64 + s.border.right.resolve_or_zero(None) as i64
            + s.padding.left.resolve_or_zero(None) as i64 + s.padding.right.resolve_or_zero(
            None,
        ) as i64
    } else {
        s.border.top.resolve_or_zero(None) as i64 + s.border.bottom.resolve_or_zero(None) as i64
            + s.padding.top.resolve_or_zero(None) as i64 + s.padding.bottom.resolve_or_zero(
            None,
        ) as i64
    };
    let whole: i32 = if request.is_width {
        measured.width
    } else {
        measured.height
    };
    let left: i64 = whole as i64 - rest;
    let length: i32 = fit(
        if left >= 0 {
            left as i128
        } else {
            0
        },
    );
    let style: BoxStyle = set_size(s, request.target, Dimension::Length(length));
    tree.boxes[i].style = style;
    assert(tree.boxes@ =~= old(tree).boxes@.update(
        i as int,
        LayoutBox {
            style: with_size(
                old(tree).at(request.id).style,
                request.target,
                Dimension::Length(
                    measured_length(
                        old(tree).at(request.id).style,
                        request.is_width,
                        measured,
                    ) as i32,
                ),
            ),
            ..old(tree).at(request.id)
        },
    ));
    proof {
        assert(same_shape(*old(tree), *tree));
        shape_decides_wf(*old(tree), *tree);
    }
}

/// What is measured does not depend on what an earlier pass stored: a style that is prepared
/// for measuring has forgotten it.
pub proof fn measuring_forgets_the_last_result(
    s: BoxStyle,
    target: IntrinsicSizeTarget,
    earlier: Dimension,
)
    ensures
        with_size(with_size(s, target, earlier), target, Dimension::Auto) == with_size(
            s,
            target,
            Dimension::Auto,
        ),
{
}

/// A measured size is that of the border box. A size property that counts the border box is
/// given all of it, one that counts the content box what borders and padding leave.
pub proof fn measured_sizes_are_those_of_the_border_box(s: BoxStyle, measured: Size)
    requires
        measured.width >= 0,
        measured.height >= 0,
    ensures
        s.box_sizing is BorderBox ==> measured_length(s, true, measured) == measured.width
            && measured_length(s, false, measured) == measured.height,
        ({
            let across = s.border.left.or_zero(None) + s.border.right.or_zero(None)
                + s.padding.left.or_zero(None) + s.padding.right.or_zero(None);
            s.box_sizing is ContentBox && 0 <= across <= measured.width ==> measured_length(
                s,
                true,
                measured,
            ) + across == measured.width
        }),
        ({
            let down = s.border.top.or_zero(None) + s.border.bottom.or_zero(None)
                + s.padding.top.or_zero(None) + s.padding.bottom.or_zero(None);
            s.box_sizing is ContentBox && 0 <= down <= measured.height ==> measured_length(
                s,
                false,
                measured,
            ) + down == measured.height
        }),
{
}

/// A measured length is given to the property that asked for it, and to no other.
pub proof fn measured_lengths_go_where_they_were_asked_for(
    s: BoxStyle,
    target: IntrinsicSizeTarget,
    d: Dimension,
)
    ensures
        ({
            let r = with_size(s, target, d);
            &&& r.size.width == (if target == IntrinsicSizeTarget::Width {
                d
            } else {
                s.size.width
            })
            &&& r.size.height == (if target == IntrinsicSizeTarget::Height {
                d
            } else {
                s.size.height
            })
            &&& r.min_size.width == (if target == IntrinsicSizeTarget::MinWidth {
                d
            } else {
                s.min_size.width
            })
            &&& r.min_size.height == (if target == IntrinsicSizeTarget::MinHeight {
                d
            } else {
                s.min_size.height
            })
            &&& r.max_size.width == (if target == IntrinsicSizeTarget::MaxWidth {
                d
            } else {
                s.max_size.width
            })
            &&& r.max_size.height == (if target == IntrinsicSizeTarget::MaxHeight {
                d
            } else {
                s.max_size.height
            })
            &&& r.flex_basis == (if target == IntrinsicSizeTarget::FlexBasis {
                d
            } else {
                s.flex_basis
            })
        }),
{
}

/// Every keyword of a width or a height is measured, in its own axis.
pub proof fn every_keyword_is_measured(tree: LayoutTree, id: int, n: int, k: int) -> (at: int)
    requires
        0 <= k < n <= tree.boxes@[id].intrinsic_size_keywords@.len(),
        !(tree.boxes@[id].intrinsic_size_keywords@[k].0 is FlexBasis),
    ensures
        ({
            let (target, keyword) = tree.boxes@[id].intrinsic_size_keywords@[k];
            let all = own_requests(tree, id, n);
            &&& 0 <= at < all.len()
            &&& all[at].id == BoxId(id as u32)
            &&& all[at].target == target
            &&& all[at].keyword == keyword
            &&& all[at].is_width <==> target == IntrinsicSizeTarget::Width || target
                == IntrinsicSizeTarget::MinWidth || target == IntrinsicSizeTarget::MaxWidth
        }),
    decreases n,
{
    let all = own_requests(tree, id, n);
    let fewer = own_requests(tree, id, n - 1);
    if k == n - 1 {
        assert(all[all.len() - 1].target == tree.boxes@[id].intrinsic_size_keywords@[k].0);
        all.len() - 1
    } else {
        let at = every_keyword_is_measured(tree, id, n - 1, k);
        assert(all[at] == fewer[at]);
        at
    }
}

} // verus!
