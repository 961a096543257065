//! The computed values that layout reads, and what the layout algorithms are given of them.

use vstd::prelude::*;

use crate::grid::{limited_grid, GridStyle};
use crate::transform::{nearest, quotients_are_near};
use crate::tree::{
    initial_style, AlignKeyword, Alignment, BoxStyle, ColumnGap, CssPosition, Direction, Display,
    FlexDirection, Float, IntrinsicSizeKeyword, IntrinsicSizeTarget, LayoutBox, MulticolConfig,
};
use crate::units::{fit, fitted, Dimension};

verus! {

/// The outer display type.
#[derive(Clone, Copy, PartialEq, Eq, Debug, Structural)]
pub enum DisplayOutside {
    Absent,
    Inline,
    Block,
    TableCaption,
    InternalTable,
}

/// The inner display type.
#[derive(Clone, Copy, PartialEq, Eq, Debug, Structural)]
pub enum DisplayInside {
    Absent,
    Contents,
    Flow,
    FlowRoot,
    Flex,
    Grid,
    Table,
    TableRowGroup,
    TableHeaderGroup,
    TableFooterGroup,
    TableColumn,
    TableColumnGroup,
    TableRow,
    TableCell,
}

/// The computed `display`.
#[derive(Clone, Copy, PartialEq, Eq, Debug, Structural)]
pub struct CssDisplay {
    pub outside: DisplayOutside,
    pub inside: DisplayInside,
    pub list_item: bool,
}

/// `display: inline`.
pub open spec fn inline_display() -> CssDisplay {
    CssDisplay {
        outside: DisplayOutside::Inline,
        inside: DisplayInside::Flow,
        list_item: false,
    }
}

/// `line-height`.
#[derive(Clone, Copy, PartialEq, Eq, Debug, Structural)]
pub enum LineHeight {
    Normal,
    /// A multiple of the font size, in millionths.
    Number(u32),
    Length(i32),
}

/// `white-space-collapse`.
#[derive(Clone, Copy, PartialEq, Eq, Debug, Structural)]
pub enum WhiteSpace {
    Collapse,
    Preserve,
    PreserveBreaks,
    BreakSpaces,
}

/// What white space processing does with a text.
#[derive(Clone, Copy, PartialEq, Eq, Debug, Structural)]
pub enum Collapsing {
    Collapse,
    Preserve,
}

/// The case that `text-transform` asks for.
#[derive(Clone, Copy, PartialEq, Eq, Debug, Structural)]
pub enum TextCase {
    Unchanged,
    Uppercase,
    Lowercase,
    Capitalize,
}

/// A size keyword, where a size property has one that is no length.
#[derive(Clone, Copy, PartialEq, Eq, Debug, Structural)]
pub enum SizeKeyword {
    /// The property is a length, or `auto`.
    Plain,
    Stretch,
    MinContent,
    MaxContent,
}

/// The size keywords of an element.
#[derive(Clone, Copy, PartialEq, Eq, Debug, Structural)]
pub struct SizeKeywords {
    pub width: SizeKeyword,
    pub height: SizeKeyword,
    pub min_width: SizeKeyword,
    pub min_height: SizeKeyword,
    pub max_width: SizeKeyword,
    pub max_height: SizeKeyword,
    pub flex_basis: SizeKeyword,
}

/// The side that `justify-content` names, where it names one.
#[derive(Clone, Copy, PartialEq, Eq, Debug, Structural)]
pub enum PhysicalSide {
    Neither,
    Left,
    Right,
}

/// Which alignment properties carry the `safe` prefix.
#[derive(Clone, Copy, PartialEq, Eq, Debug, Structural)]
pub struct SafeAlignments {
    pub items: bool,
    pub own: bool,
    pub content: bool,
    pub justify: bool,
}

/// The line style of a border.
#[derive(Clone, Copy, PartialEq, Eq, Debug, Structural)]
pub enum BorderLine {
    /// `none` or `hidden`: the border has no width.
    Hidden,
    Shown,
}

/// The width of a border and its line style.
#[derive(Clone, Copy, PartialEq, Eq, Debug, Structural)]
pub struct BorderSide {
    pub width: i32,
    pub line: BorderLine,
}

/// The borders of an element.
#[derive(Clone, Copy, PartialEq, Eq, Debug, Structural)]
pub struct Borders {
    pub left: BorderSide,
    pub right: BorderSide,
    pub top: BorderSide,
    pub bottom: BorderSide,
}

/// The table properties of an element.
#[derive(Clone, Copy, PartialEq, Eq, Debug, Structural)]
pub struct TableStyle {
    /// `table-layout: fixed`.
    pub fixed: bool,
    /// `border-collapse: collapse`.
    pub collapse: bool,
    /// `border-spacing`.
    pub spacing_x: i32,
    pub spacing_y: i32,
}

/// The computed values that layout reads of an element or pseudo-element.
#[derive(Clone, Copy, PartialEq, Eq, Debug, Structural)]
pub struct ComputedStyle {
    pub display: CssDisplay,
    pub position: CssPosition,
    pub float: Float,
    pub order: i32,
    /// `z-index`, zero for `auto`.
    pub z_index: i32,
    pub pointer_events_none: bool,
    pub has_transform: bool,
    /// The box properties, with lengths for what is a length. Size keywords are `auto` here,
    /// physical alignments `start` or `end`, no alignment is `safe`, and the gap between
    /// columns goes by `multicol`.
    pub box_style: BoxStyle,
    pub keywords: SizeKeywords,
    pub justify_side: PhysicalSide,
    pub safe: SafeAlignments,
    pub font_size: i32,
    pub line_height: LineHeight,
    pub white_space: WhiteSpace,
    pub text_case: TextCase,
    pub multicol: MulticolConfig,
    pub table: TableStyle,
    pub borders: Borders,
}

/// A size with `stretch` made into all of what is available.
pub open spec fn stretched(size: Dimension, keyword: SizeKeyword) -> Dimension {
    if keyword is Stretch {
        Dimension::Percent(1_000_000)
    } else {
        size
    }
}

fn stretch(size: Dimension, keyword: SizeKeyword) -> (r: Dimension)
    ensures
        r == stretched(size, keyword),
{
    if keyword == SizeKeyword::Stretch {
        Dimension::Percent(1_000_000)
    } else {
        size
    }
}

/// The width of a float. A share of the container is taken down by the least that can be told
/// apart: shares that total the whole may each have been rounded up, and the last of them is
/// still to find its place on the line.
pub open spec fn float_width(width: Dimension, float: Float) -> Dimension {
    match width {
        Dimension::Percent(p) => if !(float is Off) && p > 0 {
            Dimension::Percent((p - 1) as i32)
        } else {
            width
        },
        _ => width,
    }
}

fn fit_float(width: Dimension, float: Float) -> (r: Dimension)
    ensures
        r == float_width(width, float),
{
    match width {
        Dimension::Percent(p) => if float != Float::Off && p > 0 {
            Dimension::Percent(p - 1)
        } else {
            width
        },
        _ => width,
    }
}

/// What the first `n` shares total, in millionths.
pub open spec fn total_share(widths: Seq<Dimension>, n: int) -> int
    decreases n,
{
    if n <= 0 {
        0
    } else {
        total_share(widths, n - 1) + match widths[n - 1] {
            Dimension::Percent(p) => p as int,
            _ => 0,
        }
    }
}

proof fn lemma_float_shares(widths: Seq<Dimension>, float: Float, n: int)
    requires
        0 <= n <= widths.len(),
        !(float is Off),
        forall|i: int| 0 <= i < widths.len() ==> is_share(#[trigger] widths[i]),
    ensures
        total_share(widths.map_values(|w: Dimension| float_width(w, float)), n) == total_share(
            widths,
            n,
        ) - n,
    decreases n,
{
    if n > 0 {
        lemma_float_shares(widths, float, n - 1);
        assert(is_share(widths[n - 1]));
    }
}

/// The width is a share of the container.
pub open spec fn is_share(width: Dimension) -> bool {
    width matches Dimension::Percent(p) && p > 0
}

/// Floats whose shares total the whole but for rounding, each by less than a millionth, fit
/// side by side.
pub proof fn floats_that_fill_a_line_share_it(widths: Seq<Dimension>, float: Float)
    requires
        !(float is Off),
        forall|i: int| 0 <= i < widths.len() ==> is_share(#[trigger] widths[i]),
        total_share(widths, widths.len() as int) <= 1_000_000 + widths.len(),
    ensures
        ({
            let given = widths.map_values(|w: Dimension| float_width(w, float));
            total_share(given, given.len() as int) <= 1_000_000
        }),
{
    lemma_float_shares(widths, float, widths.len() as int);
}

/// An alignment with its `safe` prefix restored.
pub open spec fn guarded(a: Option<Alignment>, safe: bool) -> Option<Alignment> {
    match a {
        Some(v) => Some(Alignment { keyword: v.keyword, safe: v.safe || safe }),
        None => None,
    }
}

fn guard(a: Option<Alignment>, safe: bool) -> (r: Option<Alignment>)
    ensures
        r == guarded(a, safe),
{
    match a {
        Some(v) => Some(Alignment { keyword: v.keyword, safe: v.safe || safe }),
        None => None,
    }
}

/// The keyword that a side of `justify-content` stands for: the start or the end of the main
/// axis by the direction, and the start where the main axis runs down.
pub open spec fn side_keyword(style: BoxStyle, side: PhysicalSide, given: AlignKeyword) -> AlignKeyword {
    let down = style.display is Flex && (style.flex_direction is Column || style.flex_direction
        is ColumnReverse);
    match side {
        PhysicalSide::Neither => given,
        PhysicalSide::Left => if down || style.direction is Ltr {
            AlignKeyword::Start
        } else {
            AlignKeyword::End
        },
        PhysicalSide::Right => if down || style.direction is Rtl {
            AlignKeyword::Start
        } else {
            AlignKeyword::End
        },
    }
}

fn find_side_keyword(style: &BoxStyle, side: PhysicalSide, given: AlignKeyword) -> (r: AlignKeyword)
    ensures
        r == side_keyword(*style, side, given),
{
    let down: bool = style.display == Display::Flex && matches!(
        style.flex_direction,
        FlexDirection::Column | FlexDirection::ColumnReverse
    );
    match side {
        PhysicalSide::Neither => given,
        PhysicalSide::Left => if down || style.direction == Direction::Ltr {
            AlignKeyword::Start
        } else {
            AlignKeyword::End
        },
        PhysicalSide::Right => if down || style.direction == Direction::Rtl {
            AlignKeyword::Start
        } else {
            AlignKeyword::End
        },
    }
}

/// What the layout algorithms are given of a style.
pub open spec fn layout_style(s: ComputedStyle) -> BoxStyle {
    let b = s.box_style;
    BoxStyle {
        size: crate::units::Dimensions {
            width: stretched(float_width(b.size.width, b.float), s.keywords.width),
            height: stretched(b.size.height, s.keywords.height),
        },
        min_size: crate::units::Dimensions {
            width: stretched(b.min_size.width, s.keywords.min_width),
            height: stretched(b.min_size.height, s.keywords.min_height),
        },
        max_size: crate::units::Dimensions {
            width: stretched(b.max_size.width, s.keywords.max_width),
            height: stretched(b.max_size.height, s.keywords.max_height),
        },
        align_items: guarded(b.align_items, s.safe.items),
        align_self: guarded(b.align_self, s.safe.own),
        align_content: guarded(b.align_content, s.safe.content),
        justify_content: match b.justify_content {
            Some(v) => Some(
                Alignment {
                    keyword: side_keyword(b, s.justify_side, v.keyword),
                    safe: v.safe || s.safe.justify,
                },
            ),
            None => None,
        },
        column_gap: gap_between(s.multicol.gap),
        is_table: s.display.inside is Table,
        ..b
    }
}

/// The gap between the columns of a flex or grid container, where `normal` is none.
pub open spec fn gap_between(gap: ColumnGap) -> Dimension {
    match gap {
        ColumnGap::Normal => Dimension::Length(0),
        ColumnGap::Length(d) => d,
    }
}

/// What the layout algorithms are given of a style, its grid properties aside: a float's share
/// of its container leaves room for rounding, `stretch` is all that is available, a side of
/// `justify-content` goes by the direction of the axis, `safe` prefixes count, and columns are
/// as far apart as `column-gap` says.
pub fn box_style_for(s: &ComputedStyle) -> (r: BoxStyle)
    ensures
        r == layout_style(*s),
{
    let mut b: BoxStyle = s.box_style;
    b.size.width = stretch(fit_float(b.size.width, b.float), s.keywords.width);
    b.size.height = stretch(b.size.height, s.keywords.height);
    b.min_size.width = stretch(b.min_size.width, s.keywords.min_width);
    b.min_size.height = stretch(b.min_size.height, s.keywords.min_height);
    b.max_size.width = stretch(b.max_size.width, s.keywords.max_width);
    b.max_size.height = stretch(b.max_size.height, s.keywords.max_height);
    b.align_items = guard(b.align_items, s.safe.items);
    b.align_self = guard(b.align_self, s.safe.own);
    b.align_content = guard(b.align_content, s.safe.content);
    b.justify_content = match b.justify_content {
        Some(v) => Some(
            Alignment {
                keyword: find_side_keyword(&s.box_style, s.justify_side, v.keyword),
                safe: v.safe || s.safe.justify,
            },
        ),
        None => None,
    };
    b.column_gap = match s.multicol.gap {
        ColumnGap::Normal => Dimension::Length(0),
        ColumnGap::Length(d) => d,
    };
    b.is_table = s.display.inside == DisplayInside::Table;
    b
}

/// What the layout algorithms are given of a style and its grid properties, which are held to
/// the limit on overlarge grids.
pub fn taffy_style_for(s: &ComputedStyle, grid: &GridStyle) -> (r: (BoxStyle, GridStyle))
    ensures
        r.0 == layout_style(*s),
        r.1@ == limited_grid(grid@),
{
    (box_style_for(s), grid.limited())
}

/// The used line height: `normal` is 1.2 times the font size.
pub open spec fn used_line_height(line_height: LineHeight, font_size: int) -> int {
    match line_height {
        LineHeight::Normal => fitted(nearest(12 * font_size, 10)),
        LineHeight::Number(n) => fitted(nearest(n * font_size, 1_000_000)),
        LineHeight::Length(v) => v as int,
    }
}

/// A quotient to the nearest unit.
pub(crate) fn to_nearest(v: i128, per: u32) -> (r: i32)
    requires
        per > 0,
        -0x1_0000_0000_0000_0000_0000_0000_0000 <= v <= 0x1_0000_0000_0000_0000_0000_0000_0000,
    ensures
        r == fitted(nearest(v as int, per as int)),
{
    let top: i128 = 2 * v + per as i128;
    let bottom: i128 = 2 * (per as i128);
    if top >= 0 {
        fit(top / bottom)
    } else {
        proof {
            crate::units::lemma_floor_of_negative(top as int, bottom as int);
            let q = (-top + bottom - 1) as int / (bottom as int);
            assert(0 <= q <= -top + bottom - 1) by (nonlinear_arith)
                requires
                    q == (-top + bottom - 1) as int / (bottom as int),
                    bottom >= 2,
                    top < 0,
            ;
        }
        let q: i128 = (-top + bottom - 1) / bottom;
        fit(-q)
    }
}

/// A multiple of a length, to the nearest unit.
pub(crate) fn multiple(n: u64, length: i32, per: u32) -> (r: i32)
    requires
        per > 0,
    ensures
        r == fitted(nearest(n * length, per as int)),
{
    let (a, b): (i128, i128) = (n as i128, length as i128);
    assert(-0x8000_0000_0000_0000_0000_0000 <= a * b <= 0x8000_0000_0000_0000_0000_0000)
        by (nonlinear_arith)
        requires
            0 <= a <= 0xffff_ffff_ffff_ffff,
            -0x8000_0000 <= b <= 0x7fff_ffff,
    ;
    to_nearest(a * b, per)
}

/// The used line height.
pub fn resolve_line_height(line_height: LineHeight, font_size: i32) -> (r: i32)
    ensures
        r == used_line_height(line_height, font_size as int),
{
    match line_height {
        LineHeight::Normal => multiple(12, font_size, 10),
        LineHeight::Number(n) => multiple(n as u64, font_size, 1_000_000),
        LineHeight::Length(v) => v,
    }
}

/// The size keyword that is resolved by measuring, if it is one.
pub open spec fn measured(keyword: SizeKeyword) -> Option<IntrinsicSizeKeyword> {
    match keyword {
        SizeKeyword::MinContent => Some(IntrinsicSizeKeyword::MinContent),
        SizeKeyword::MaxContent => Some(IntrinsicSizeKeyword::MaxContent),
        _ => None,
    }
}

/// A list of keywords with one more, if it is one that is resolved by measuring.
pub open spec fn with_keyword(
    list: Seq<(IntrinsicSizeTarget, IntrinsicSizeKeyword)>,
    target: IntrinsicSizeTarget,
    keyword: SizeKeyword,
) -> Seq<(IntrinsicSizeTarget, IntrinsicSizeKeyword)> {
    match measured(keyword) {
        Some(k) => list.push((target, k)),
        None => list,
    }
}

/// The keywords of a style that are resolved by measuring, in the order in which they are.
pub open spec fn measured_keywords(k: SizeKeywords) -> Seq<
    (IntrinsicSizeTarget, IntrinsicSizeKeyword),
> {
    let l = Seq::empty();
    let l = with_keyword(l, IntrinsicSizeTarget::Width, k.width);
    let l = with_keyword(l, IntrinsicSizeTarget::Height, k.height);
    let l = with_keyword(l, IntrinsicSizeTarget::MinWidth, k.min_width);
    let l = with_keyword(l, IntrinsicSizeTarget::MinHeight, k.min_height);
    let l = with_keyword(l, IntrinsicSizeTarget::MaxWidth, k.max_width);
    let l = with_keyword(l, IntrinsicSizeTarget::MaxHeight, k.max_height);
    with_keyword(l, IntrinsicSizeTarget::FlexBasis, k.flex_basis)
}

fn add_keyword(
    list: &mut Vec<(IntrinsicSizeTarget, IntrinsicSizeKeyword)>,
    target: IntrinsicSizeTarget,
    keyword: SizeKeyword,
)
    ensures
        final(list)@ == with_keyword(old(list)@, target, keyword),
{
    match keyword {
        SizeKeyword::MinContent => {
            list.push((target, IntrinsicSizeKeyword::MinContent));
        },
        SizeKeyword::MaxContent => {
            list.push((target, IntrinsicSizeKeyword::MaxContent));
        },
        _ => {},
    }
}

/// The size keywords of a style that are resolved by measuring the content.
pub fn intrinsic_size_keywords_for(k: &SizeKeywords) -> (r: Vec<
    (IntrinsicSizeTarget, IntrinsicSizeKeyword),
>)
    ensures
        r@ == measured_keywords(*k),
{
    let mut list: Vec<(IntrinsicSizeTarget, IntrinsicSizeKeyword)> = Vec::new();
    assert(list@ =~= Seq::empty());
    add_keyword(&mut list, IntrinsicSizeTarget::Width, k.width);
    add_keyword(&mut list, IntrinsicSizeTarget::Height, k.height);
    add_keyword(&mut list, IntrinsicSizeTarget::MinWidth, k.min_width);
    add_keyword(&mut list, IntrinsicSizeTarget::MinHeight, k.min_height);
    add_keyword(&mut list, IntrinsicSizeTarget::MaxWidth, k.max_width);
    add_keyword(&mut list, IntrinsicSizeTarget::MaxHeight, k.max_height);
    add_keyword(&mut list, IntrinsicSizeTarget::FlexBasis, k.flex_basis);
    list
}

/// The box holds the computed values that layout and hit testing read.
pub open spec fn carries(b: LayoutBox, s: ComputedStyle) -> bool {
    &&& b.font_size == s.font_size
    &&& b.line_height == used_line_height(s.line_height, s.font_size as int)
    &&& b.position == s.position
    &&& b.z_index == s.z_index
    &&& b.pointer_events_none == s.pointer_events_none
    &&& b.has_transform == s.has_transform
    &&& b.order == s.order
    &&& b.intrinsic_size_keywords@ == measured_keywords(s.keywords)
}

/// Captures the computed values that layout and hit testing read, besides those that the
/// layout algorithms are given.
pub fn capture_text_fields(b: &mut LayoutBox, s: &ComputedStyle)
    ensures
        carries(*final(b), *s),
        *final(b) == (LayoutBox {
            font_size: final(b).font_size,
            line_height: final(b).line_height,
            position: final(b).position,
            z_index: final(b).z_index,
            pointer_events_none: final(b).pointer_events_none,
            has_transform: final(b).has_transform,
            order: final(b).order,
            intrinsic_size_keywords: final(b).intrinsic_size_keywords,
            ..*old(b)
        }),
{
    b.font_size = s.font_size;
    b.line_height = resolve_line_height(s.line_height, s.font_size);
    b.position = s.position;
    b.z_index = s.z_index;
    b.pointer_events_none = s.pointer_events_none;
    b.has_transform = s.has_transform;
    b.order = s.order;
    b.intrinsic_size_keywords = intrinsic_size_keywords_for(&s.keywords);
}

/// The style of an anonymous box inside an element: initial, but for what is inherited.
pub open spec fn anonymous_style(parent: ComputedStyle) -> ComputedStyle {
    ComputedStyle {
        display: CssDisplay {
            outside: DisplayOutside::Block,
            inside: DisplayInside::Flow,
            list_item: false,
        },
        position: CssPosition::Static,
        float: Float::Off,
        order: 0,
        z_index: 0,
        pointer_events_none: parent.pointer_events_none,
        has_transform: false,
        box_style: BoxStyle { direction: parent.box_style.direction, ..initial_style() },
        keywords: plain_keywords(),
        justify_side: PhysicalSide::Neither,
        safe: SafeAlignments { items: false, own: false, content: false, justify: false },
        font_size: parent.font_size,
        line_height: parent.line_height,
        white_space: parent.white_space,
        text_case: parent.text_case,
        multicol: MulticolConfig {
            count: None,
            width: None,
            gap: ColumnGap::Normal,
        },
        table: TableStyle {
            fixed: false,
            collapse: parent.table.collapse,
            spacing_x: parent.table.spacing_x,
            spacing_y: parent.table.spacing_y,
        },
        borders: no_borders(),
    }
}

/// No size keyword.
pub open spec fn plain_keywords() -> SizeKeywords {
    SizeKeywords {
        width: SizeKeyword::Plain,
        height: SizeKeyword::Plain,
        min_width: SizeKeyword::Plain,
        min_height: SizeKeyword::Plain,
        max_width: SizeKeyword::Plain,
        max_height: SizeKeyword::Plain,
        flex_basis: SizeKeyword::Plain,
    }
}

/// No borders.
pub open spec fn no_borders() -> Borders {
    let side = BorderSide { width: 0, line: BorderLine::Hidden };
    Borders { left: side, right: side, top: side, bottom: side }
}

/// The style of an anonymous box inside an element: initial, but for what is inherited.
pub fn anonymous_box_style(parent: &ComputedStyle) -> (r: ComputedStyle)
    ensures
        r == anonymous_style(*parent),
{
    let mut b: BoxStyle = BoxStyle::initial();
    b.direction = parent.box_style.direction;
    let side = BorderSide { width: 0, line: BorderLine::Hidden };
    ComputedStyle {
        display: CssDisplay {
            outside: DisplayOutside::Block,
            inside: DisplayInside::Flow,
            list_item: false,
        },
        position: CssPosition::Static,
        float: Float::Off,
        order: 0,
        z_index: 0,
        pointer_events_none: parent.pointer_events_none,
        has_transform: false,
        box_style: b,
        keywords: SizeKeywords {
            width: SizeKeyword::Plain,
            height: SizeKeyword::Plain,
            min_width: SizeKeyword::Plain,
            min_height: SizeKeyword::Plain,
            max_width: SizeKeyword::Plain,
            max_height: SizeKeyword::Plain,
            flex_basis: SizeKeyword::Plain,
        },
        justify_side: PhysicalSide::Neither,
        safe: SafeAlignments { items: false, own: false, content: false, justify: false },
        font_size: parent.font_size,
        line_height: parent.line_height,
        white_space: parent.white_space,
        text_case: parent.text_case,
        multicol: MulticolConfig {
            count: None,
            width: None,
            gap: ColumnGap::Normal,
        },
        table: TableStyle {
            fixed: false,
            collapse: parent.table.collapse,
            spacing_x: parent.table.spacing_x,
            spacing_y: parent.table.spacing_y,
        },
        borders: Borders { left: side, right: side, top: side, bottom: side },
    }
}

/// An anonymous box takes the text properties of its parent and none of its box
/// properties; one inside another is no different from it.
pub proof fn anonymous_styles_settle(parent: ComputedStyle)
    ensures
        anonymous_style(anonymous_style(parent)) == anonymous_style(parent),
        anonymous_style(parent).font_size == parent.font_size,
        !anonymous_style(parent).has_transform,
{
}

/// White space processing.
pub open spec fn collapsing_of(w: WhiteSpace) -> Collapsing {
    if w is Collapse {
        Collapsing::Collapse
    } else {
        Collapsing::Preserve
    }
}

/// White space processing: all but `collapse` preserve it.
pub fn white_space_collapse(w: WhiteSpace) -> (r: Collapsing)
    ensures
        r == collapsing_of(w),
{
    match w {
        WhiteSpace::Collapse => Collapsing::Collapse,
        WhiteSpace::Preserve | WhiteSpace::PreserveBreaks | WhiteSpace::BreakSpaces =>
            Collapsing::Preserve,
    }
}

/// What the layout algorithms are given of the sizes of a style: all of what is available
/// for `stretch`, and else the size as it is, but for a share of the container that a float
/// has, which is less by no more than a millionth.
pub proof fn sizes_are_given_as_they_are(s: ComputedStyle)
    ensures
        ({
            let b = layout_style(s);
            let own = s.box_style;
            &&& s.keywords.width == SizeKeyword::Stretch ==> b.size.width == Dimension::Percent(
                1_000_000,
            )
            &&& s.keywords.height == SizeKeyword::Stretch ==> b.size.height == Dimension::Percent(
                1_000_000,
            )
            &&& s.keywords.max_width == SizeKeyword::Stretch ==> b.max_size.width
                == Dimension::Percent(1_000_000)
            &&& s.keywords.min_height == SizeKeyword::Stretch ==> b.min_size.height
                == Dimension::Percent(1_000_000)
            &&& s.keywords.width != SizeKeyword::Stretch && (own.float == Float::Off || !(
            own.size.width is Percent)) ==> b.size.width == own.size.width
            &&& s.keywords.width != SizeKeyword::Stretch && own.float != Float::Off ==> match (
                own.size.width,
                b.size.width,
            ) {
                (Dimension::Percent(p), Dimension::Percent(q)) => q <= p <= q + 1 && (p > 0 ==> q
                    < p),
                (Dimension::Percent(_), _) => false,
                _ => true,
            }
            &&& s.keywords.height != SizeKeyword::Stretch ==> b.size.height == own.size.height
            &&& s.keywords.min_width != SizeKeyword::Stretch ==> b.min_size.width
                == own.min_size.width
            &&& s.keywords.min_height != SizeKeyword::Stretch ==> b.min_size.height
                == own.min_size.height
            &&& s.keywords.max_width != SizeKeyword::Stretch ==> b.max_size.width
                == own.max_size.width
            &&& s.keywords.max_height != SizeKeyword::Stretch ==> b.max_size.height
                == own.max_size.height
            &&& b.padding == own.padding && b.border == own.border && b.margin == own.margin
            &&& b.inset == own.inset && b.float == own.float && b.placement == own.placement
        }),
{
}

/// A side of `justify-content` is the start of the main axis or its end: the left one is the
/// start of a line that runs to the right and the end of one that runs to the left, the right
/// one the other way round, and both are the start where the axis runs down. What is not a
/// side is kept, and so is a `safe` prefix.
pub proof fn sides_go_by_the_direction(s: ComputedStyle, a: crate::tree::Alignment)
    requires
        s.box_style.justify_content == Some(a),
    ensures
        ({
            let b = s.box_style;
            let down = b.display == Display::Flex && (b.flex_direction == FlexDirection::Column
                || b.flex_direction == FlexDirection::ColumnReverse);
            match layout_style(s).justify_content {
                Some(r) => {
                    &&& s.justify_side == PhysicalSide::Neither ==> r.keyword == a.keyword
                    &&& s.justify_side != PhysicalSide::Neither && down ==> r.keyword
                        == AlignKeyword::Start
                    &&& !down && b.direction == Direction::Ltr && s.justify_side
                        == PhysicalSide::Left ==> r.keyword == AlignKeyword::Start
                    &&& !down && b.direction == Direction::Ltr && s.justify_side
                        == PhysicalSide::Right ==> r.keyword == AlignKeyword::End
                    &&& !down && b.direction == Direction::Rtl && s.justify_side
                        == PhysicalSide::Left ==> r.keyword == AlignKeyword::End
                    &&& !down && b.direction == Direction::Rtl && s.justify_side
                        == PhysicalSide::Right ==> r.keyword == AlignKeyword::Start
                    &&& s.safe.justify || a.safe ==> r.safe
                    &&& !s.safe.justify && !a.safe ==> !r.safe
                },
                None => false,
            }
        }),
{
}

/// The used line height: 1.2 times the font size for `normal`, as many times as a number
/// says, to the nearest unit, and a length as it is.
pub proof fn line_heights_are_multiples_of_the_font_size(line_height: LineHeight, font_size: int)
    ensures
        ({
            let used = used_line_height(line_height, font_size);
            match line_height {
                LineHeight::Normal => i32::MIN < used < i32::MAX ==> -10 <= 2 * (10 * used - 12
                    * font_size) <= 10,
                LineHeight::Number(n) => i32::MIN < used < i32::MAX ==> -1_000_000 <= 2 * (1_000_000
                    * used - n * font_size) <= 1_000_000,
                LineHeight::Length(v) => used == v,
            }
        }),
{
    quotients_are_near(12 * font_size, 10);
    match line_height {
        LineHeight::Number(n) => {
            quotients_are_near(n * font_size, 1_000_000);
        },
        _ => {},
    }
}

} // verus!
