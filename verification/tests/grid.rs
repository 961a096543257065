//! The limit on overlarge grids: the conversion of styles holds templates, lines and spans to
//! it. What is left is laid out with the grid algorithm, and read off as a width.

use oxidepage_layout::assemble::find_values;
use oxidepage_layout::construct::StyleOf;
use oxidepage_layout::document::Styled;
use oxidepage_layout::dom::DomTree;
use oxidepage_layout::grid::{
    clamp_line, clamp_span, clamp_template, GridComponent, GridEdge, GridRange, GridStyle,
    Repetition, MAX_GRID_TRACKS_PER_AXIS,
};
use oxidepage_layout::style::{taffy_style_for, ComputedStyle};
use oxidepage_layout::tree::{BoxStyle, CssPosition, Display, Placement};
use oxidepage_layout::units::Dimension;
use taffy::style_helpers::{length, TaffyGridLine};

fn repeat(n: u32, tracks: usize) -> GridComponent {
    GridComponent::Repeat { count: Repetition::Times(n), tracks: vec![0; tracks], names: 0 }
}

fn single() -> GridComponent {
    GridComponent::Single(0)
}

fn initial() -> ComputedStyle {
    let doc = Styled { dom: DomTree::new(), styles: Vec::new() };
    find_values(&doc, StyleOf::Element(0))
}

fn convert(grid: &GridStyle) -> GridStyle {
    taffy_style_for(&initial(), grid).1
}

fn columns(list: Vec<GridComponent>) -> GridStyle {
    GridStyle { columns: list, ..GridStyle::initial() }
}

fn placed(start: GridEdge, end: GridEdge) -> GridStyle {
    GridStyle { column: GridRange { start, end }, ..GridStyle::initial() }
}

/// The number of tracks of a template.
fn tracks(list: &[GridComponent]) -> u64 {
    list.iter()
        .map(|c| match c {
            GridComponent::Single(_) => 1,
            GridComponent::Repeat { count: Repetition::Times(n), tracks, .. } => {
                u64::from(*n) * tracks.len() as u64
            }
            GridComponent::Repeat { tracks, .. } => tracks.len() as u64,
        })
        .sum()
}

fn edge(e: GridEdge) -> taffy::GridPlacement {
    match e {
        GridEdge::Line(n) => taffy::GridPlacement::from_line_index(
            i16::try_from(n).expect("16 bits hold the line"),
        ),
        GridEdge::Span(n) => taffy::GridPlacement::Span(
            u16::try_from(n).expect("16 bits hold the span"),
        ),
        GridEdge::NamedSpan { count, .. } => taffy::GridPlacement::NamedSpan(
            "foo".to_string(),
            u16::try_from(count).expect("16 bits hold the span"),
        ),
        GridEdge::NamedLine { index, .. } => taffy::GridPlacement::NamedLine(
            "foo".to_string(),
            i16::try_from(index).expect("16 bits hold the line"),
        ),
        GridEdge::Auto => taffy::GridPlacement::Auto,
    }
}

/// The width of an inline grid with tracks of `px` each and with the given items, which is the
/// sum of its tracks.
fn inline_grid_width(grid: &GridStyle, items: &[GridStyle], px: f32) -> f32 {
    let track: taffy::TrackSizingFunction = length(px);
    let container = convert(grid);
    let template = container
        .columns
        .iter()
        .map(|c| match c {
            GridComponent::Single(_) => taffy::GridTemplateComponent::Single(track),
            GridComponent::Repeat { count, tracks, .. } => {
                taffy::GridTemplateComponent::Repeat(taffy::GridTemplateRepetition {
                    count: match count {
                        Repetition::Times(n) => taffy::RepetitionCount::Count(
                            u16::try_from(*n).expect("16 bits hold the count"),
                        ),
                        Repetition::AutoFill => taffy::RepetitionCount::AutoFill,
                        Repetition::AutoFit => taffy::RepetitionCount::AutoFit,
                    },
                    tracks: tracks.iter().map(|_| track).collect(),
                    line_names: Vec::new(),
                })
            }
        })
        .collect();
    let mut tree: taffy::TaffyTree<()> = taffy::TaffyTree::new();
    // A box without children is no grid to the algorithm; one more item takes the first track.
    let anywhere = GridStyle::initial();
    let children: Vec<taffy::NodeId> = items
        .iter()
        .chain(if items.is_empty() { Some(&anywhere) } else { None })
        .map(|item| {
            let item = convert(item);
            tree.new_leaf(taffy::Style {
                grid_column: taffy::Line {
                    start: edge(item.column.start),
                    end: edge(item.column.end),
                },
                ..taffy::Style::default()
            })
            .unwrap()
        })
        .collect();
    let root = tree
        .new_with_children(
            taffy::Style {
                display: taffy::Display::Grid,
                grid_template_columns: template,
                grid_auto_columns: vec![track],
                ..taffy::Style::default()
            },
            &children,
        )
        .unwrap();
    let open = taffy::AvailableSpace::MaxContent;
    tree.compute_layout(root, taffy::Size { width: open, height: open }).unwrap();
    tree.layout(root).unwrap().size.width
}

const MAX_TRACKS: f32 = 1000.0;

#[test]
fn control_grid_under_the_cap_is_untouched() {
    let items: Vec<GridStyle> = (1..=12)
        .map(|column| placed(GridEdge::Line(column), GridEdge::Line(column + 1)))
        .collect();
    assert_eq!(inline_grid_width(&columns(vec![repeat(12, 1)]), &items, 20.0), 240.0);
    for item in &items {
        assert!(convert(item).same(item));
    }
}

#[test]
fn huge_repeat_count_does_not_panic() {
    let width = inline_grid_width(&columns(vec![repeat(70000, 1)]), &[GridStyle::initial()], 1.0);
    assert!(width > 0.0);
}

#[test]
fn huge_named_span_does_not_panic() {
    let item = placed(GridEdge::NamedSpan { name: 0, count: 70000 }, GridEdge::Auto);
    assert_eq!(
        convert(&item).column.start,
        GridEdge::NamedSpan { name: 0, count: 1000 }
    );
    let grid = columns(vec![single(), single()]);
    assert!(inline_grid_width(&grid, &[item], 10.0) >= 20.0);
}

#[test]
fn giving_up_on_a_template_keeps_the_container_placed() {
    let mut inner = placed(GridEdge::Line(2), GridEdge::Line(3));
    inner.columns = vec![repeat(70000, 1)];
    let given = convert(&inner);
    assert_eq!(given.column, GridRange { start: GridEdge::Line(2), end: GridEdge::Line(3) });
    // In columns of 100px, it begins where the first one ends.
    let before = placed(GridEdge::Line(1), GridEdge::Line(2));
    assert_eq!(inline_grid_width(&columns(vec![single()]), &[before], 100.0), 100.0);
}

#[test]
fn the_saturating_mirror_keeps_every_non_grid_property() {
    let mut s = initial();
    s.position = CssPosition::Absolute;
    s.box_style.placement = Placement::OutOfFlow;
    s.box_style.display = Display::Grid;
    s.box_style.inset.left = Dimension::Length(50 * 64);
    s.box_style.inset.top = Dimension::Length(20 * 64);
    s.box_style.size.width = Dimension::Length(100 * 64);
    s.box_style.size.height = Dimension::Length(30 * 64);
    for count in [3, 70000] {
        let style: BoxStyle = taffy_style_for(&s, &columns(vec![repeat(count, 1)])).0;
        assert_eq!(style.placement, Placement::OutOfFlow);
        assert_eq!(
            (style.inset.left, style.inset.top, style.size.width, style.size.height),
            (
                Dimension::Length(50 * 64),
                Dimension::Length(20 * 64),
                Dimension::Length(100 * 64),
                Dimension::Length(30 * 64)
            ),
            "out-of-flow geometry lost with repeat({count}, 1px)"
        );
    }
}

#[test]
fn explicit_track_count_is_clamped_per_axis() {
    for count in [20000, 70000] {
        assert_eq!(
            inline_grid_width(&columns(vec![repeat(count, 1)]), &[], 1.0),
            MAX_TRACKS,
            "repeat({count}, 1px) did not clamp to the track limit"
        );
        let rows = GridStyle { rows: vec![repeat(count, 1)], ..GridStyle::initial() };
        assert_eq!(tracks(&convert(&rows).rows), u64::from(MAX_GRID_TRACKS_PER_AXIS));
    }
}

#[test]
fn the_track_budget_spans_the_whole_axis() {
    let split = columns(vec![repeat(600, 1), repeat(600, 1)]);
    assert_eq!(inline_grid_width(&split, &[], 1.0), MAX_TRACKS);
    let singles = columns((0..1200).map(|_| single()).collect());
    assert_eq!(inline_grid_width(&singles, &[], 1.0), MAX_TRACKS);
}

#[test]
fn a_far_line_clamps_instead_of_wrapping() {
    let item = placed(GridEdge::Line(1), GridEdge::Line(100000));
    assert_eq!(inline_grid_width(&GridStyle::initial(), &[item], 1.0), MAX_TRACKS);
    assert_eq!(clamp_line(100000) - clamp_line(1), 1000);
}

#[test]
fn a_far_negative_line_clamps_instead_of_wrapping() {
    let item = placed(GridEdge::Line(-100000), GridEdge::Line(2));
    let width = inline_grid_width(&GridStyle::initial(), &[item], 1.0);
    assert!(
        width <= MAX_TRACKS + 2.0,
        "far negative line generated {width} tracks worth of columns"
    );
    let named = placed(GridEdge::NamedLine { name: 0, index: -100000 }, GridEdge::Auto);
    assert_eq!(
        convert(&named).column.start,
        GridEdge::NamedLine { name: 0, index: -1001 }
    );
}

#[test]
fn a_huge_span_is_clamped() {
    let item = placed(GridEdge::Span(50000), GridEdge::Auto);
    assert_eq!(inline_grid_width(&GridStyle::initial(), &[item], 1.0), MAX_TRACKS);
    assert_eq!(clamp_span(50000), 1000);
    assert_eq!(clamp_span(3), 3);
    assert_eq!(clamp_span(0), 1);
}

#[test]
fn only_whole_repetitions_are_kept() {
    // 333 groups of three tracks fit, and one track more.
    let template = clamp_template(&vec![repeat(5000, 3), single(), single()]);
    assert_eq!(tracks(&template), 1000);
    assert_eq!(template.len(), 2);
    // An automatic repetition is not counted out here.
    let auto =
        GridComponent::Repeat { count: Repetition::AutoFill, tracks: vec![1, 2], names: 7 };
    let template = clamp_template(&vec![auto]);
    assert!(matches!(
        &template[0],
        GridComponent::Repeat { count: Repetition::AutoFill, tracks, names: 7 }
            if *tracks == [1, 2]
    ));
}

#[test]
fn grids_are_the_same_by_what_they_hold() {
    let grid = columns(vec![repeat(3, 2), single()]);
    assert!(grid.same(&columns(vec![repeat(3, 2), single()])));
    assert!(!grid.same(&columns(vec![repeat(4, 2), single()])));
    assert!(!grid.same(&columns(vec![repeat(3, 1), single()])));
    assert!(!grid.same(&columns(vec![repeat(3, 2)])));
    assert!(!grid.same(&columns(vec![single(), single()])));
    assert!(!GridStyle::initial().same(&placed(GridEdge::Auto, GridEdge::Span(2))));
    assert!(!GridStyle::initial()
        .same(&GridStyle { rows: vec![single()], ..GridStyle::initial() }));
}
