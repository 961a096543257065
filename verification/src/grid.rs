//! A limit on overlarge grids: how many tracks a template makes along an axis, how far a grid
//! line may lie, and how many tracks an item may span.
//!
//! The limit is a ceiling. A grid within it is untouched.

use vstd::prelude::*;

verus! {

/// The most tracks that a template makes along an axis.
pub const MAX_GRID_TRACKS_PER_AXIS: u32 = 1000;

/// How often a group of tracks is repeated.
#[derive(Clone, Copy, PartialEq, Eq, Debug, Structural)]
pub enum Repetition {
    Times(u32),
    AutoFill,
    AutoFit,
}

/// A component of `grid-template-columns` or `grid-template-rows`. Track sizes are given by
/// their number in a list of such sizes, which goes by the name that an element has for the
/// values of its boxes: under one name, equal numbers are equal sizes.
pub enum GridComponent {
    Single(u32),
    /// A group of tracks with the names of its lines, by their number in a list of such names.
    Repeat { count: Repetition, tracks: Vec<u32>, names: u32 },
}

/// A component as a value.
pub ghost enum Piece {
    Single(u32),
    Repeat(Repetition, Seq<u32>, u32),
}

impl View for GridComponent {
    type V = Piece;

    open spec fn view(&self) -> Piece {
        match self {
            GridComponent::Single(t) => Piece::Single(*t),
            GridComponent::Repeat { count, tracks, names } => Piece::Repeat(
                *count,
                tracks@,
                *names,
            ),
        }
    }
}

/// The components of a template as values.
pub open spec fn pieces(list: Seq<GridComponent>) -> Seq<Piece> {
    list.map_values(|c: GridComponent| c@)
}

/// How many tracks a component makes at least: an automatic repetition, one group.
pub open spec fn tracks_of(p: Piece) -> int {
    match p {
        Piece::Single(_) => 1,
        Piece::Repeat(Repetition::Times(n), tracks, _) => n * tracks.len(),
        Piece::Repeat(_, tracks, _) => tracks.len() as int,
    }
}

/// How many tracks the first `n` components make.
pub open spec fn tracks_in(list: Seq<Piece>, n: int) -> int
    decreases n,
{
    if n <= 0 {
        0
    } else {
        tracks_in(list, n - 1) + tracks_of(list[n - 1])
    }
}

/// What is left of a component where there is room for `left` tracks: as many whole groups as
/// fit, and nothing if none does.
pub open spec fn fitting(p: Piece, left: int) -> Option<Piece> {
    match p {
        Piece::Single(t) => if left >= 1 {
            Some(p)
        } else {
            None
        },
        Piece::Repeat(Repetition::Times(n), tracks, names) => {
            let most = if tracks.len() == 0 {
                n as int
            } else {
                left / tracks.len() as int
            };
            let kept = if n as int <= most {
                n as int
            } else {
                most
            };
            if kept > 0 {
                Some(Piece::Repeat(Repetition::Times(kept as u32), tracks, names))
            } else {
                None
            }
        },
        Piece::Repeat(_, tracks, _) => if tracks.len() <= left {
            Some(p)
        } else {
            None
        },
    }
}

/// The first `n` components with what fits of each.
pub open spec fn clamped(list: Seq<Piece>, n: int) -> Seq<Piece>
    decreases n,
{
    if n <= 0 {
        Seq::empty()
    } else {
        let before = clamped(list, n - 1);
        let left = MAX_GRID_TRACKS_PER_AXIS - tracks_in(before, before.len() as int);
        match fitting(list[n - 1], left) {
            Some(p) => before.push(p),
            None => before,
        }
    }
}

proof fn lemma_tracks_in_prefix(a: Seq<Piece>, b: Seq<Piece>, n: int)
    requires
        0 <= n <= a.len(),
        n <= b.len(),
        forall|k: int| 0 <= k < n ==> a[k] == b[k],
    ensures
        tracks_in(a, n) == tracks_in(b, n),
    decreases n,
{
    if n > 0 {
        lemma_tracks_in_prefix(a, b, n - 1);
    }
}

proof fn lemma_tracks_in_push(a: Seq<Piece>, p: Piece)
    ensures
        tracks_in(a.push(p), (a.len() + 1) as int) == tracks_in(a, a.len() as int) + tracks_of(p),
{
    lemma_tracks_in_prefix(a, a.push(p), a.len() as int);
}

proof fn lemma_fitting_fits(p: Piece, left: int)
    requires
        0 <= left,
    ensures
        match fitting(p, left) {
            Some(q) => 0 <= tracks_of(q) <= left,
            None => true,
        },
{
    match p {
        Piece::Repeat(Repetition::Times(n), tracks, _) => {
            let len = tracks.len() as int;
            if len > 0 {
                let most = left / len;
                let kept = if n as int <= most {
                    n as int
                } else {
                    most
                };
                assert(0 <= most <= left && most * len <= left) by (nonlinear_arith)
                    requires
                        most == left / len,
                        len > 0,
                        left >= 0,
                ;
                assert(kept * len <= most * len) by (nonlinear_arith)
                    requires
                        kept <= most,
                        len > 0,
                ;
                assert(kept > 0 ==> kept * len >= 0) by (nonlinear_arith)
                    requires
                        len > 0,
                ;
            } else {
                assert(n * len == 0) by (nonlinear_arith)
                    requires
                        len == 0,
                ;
            }
        },
        _ => {},
    }
}

proof fn lemma_clamped_is_bounded(list: Seq<Piece>, n: int)
    ensures
        0 <= tracks_in(clamped(list, n), clamped(list, n).len() as int)
            <= MAX_GRID_TRACKS_PER_AXIS,
        n >= 0 ==> clamped(list, n).len() <= n,
    decreases n,
{
    if n > 0 {
        lemma_clamped_is_bounded(list, n - 1);
        let before = clamped(list, n - 1);
        let left = MAX_GRID_TRACKS_PER_AXIS - tracks_in(before, before.len() as int);
        lemma_fitting_fits(list[n - 1], left);
        match fitting(list[n - 1], left) {
            Some(p) => {
                lemma_tracks_in_push(before, p);
            },
            None => {},
        }
    }
}

/// However a template is split into repetitions, it makes no more tracks than the limit.
pub proof fn templates_are_limited(list: Seq<Piece>)
    ensures
        tracks_in(
            clamped(list, list.len() as int),
            clamped(list, list.len() as int).len() as int,
        ) <= MAX_GRID_TRACKS_PER_AXIS,
{
    lemma_clamped_is_bounded(list, list.len() as int);
}

/// The component makes tracks.
pub open spec fn makes_tracks(p: Piece) -> bool {
    match p {
        Piece::Single(_) => true,
        Piece::Repeat(Repetition::Times(n), tracks, _) => n > 0 && tracks.len() > 0,
        Piece::Repeat(_, tracks, _) => tracks.len() > 0,
    }
}

proof fn lemma_tracks_grow(list: Seq<Piece>, n: int)
    requires
        0 <= n < list.len(),
    ensures
        0 <= tracks_of(list[n]),
        tracks_in(list, n) <= tracks_in(list, n + 1),
{
    match list[n] {
        Piece::Repeat(Repetition::Times(c), tracks, _) => {
            assert(c * tracks.len() >= 0) by (nonlinear_arith);
        },
        _ => {},
    }
}

proof fn lemma_within_the_limit(list: Seq<Piece>, n: int)
    requires
        0 <= n <= list.len(),
        forall|k: int| 0 <= k < list.len() ==> makes_tracks(#[trigger] list[k]),
        tracks_in(list, n) <= MAX_GRID_TRACKS_PER_AXIS,
    ensures
        clamped(list, n) == list.take(n),
    decreases n,
{
    if n > 0 {
        lemma_tracks_grow(list, n - 1);
        lemma_within_the_limit(list, n - 1);
        let before = clamped(list, n - 1);
        lemma_tracks_in_prefix(before, list, n - 1);
        let left = MAX_GRID_TRACKS_PER_AXIS - tracks_in(list, n - 1);
        assert(makes_tracks(list[n - 1]));
        match list[n - 1] {
            Piece::Repeat(Repetition::Times(c), tracks, _) => {
                let len = tracks.len() as int;
                assert(c as int <= left / len) by (nonlinear_arith)
                    requires
                        c * len <= left,
                        len > 0,
                ;
            },
            _ => {},
        }
        assert(fitting(list[n - 1], left) == Some(list[n - 1]));
        assert(clamped(list, n) =~= list.take(n));
    } else {
        assert(clamped(list, n) =~= list.take(n));
    }
}

/// A template within the limit is untouched.
pub proof fn small_templates_are_untouched(list: Seq<Piece>)
    requires
        forall|k: int| 0 <= k < list.len() ==> makes_tracks(#[trigger] list[k]),
        tracks_in(list, list.len() as int) <= MAX_GRID_TRACKS_PER_AXIS,
    ensures
        clamped(list, list.len() as int) == list,
{
    lemma_within_the_limit(list, list.len() as int);
    assert(list.take(list.len() as int) =~= list);
}

fn copy_tracks(tracks: &Vec<u32>) -> (r: Vec<u32>)
    ensures
        r@ == tracks@,
{
    let mut out: Vec<u32> = Vec::new();
    let mut k: usize = 0;
    while k < tracks.len()
        invariant
            k <= tracks@.len(),
            out@ == tracks@.take(k as int),
        decreases tracks.len() - k,
    {
        out.push(tracks[k]);
        k = k + 1;
        assert(out@ =~= tracks@.take(k as int));
    }
    assert(out@ =~= tracks@);
    out
}

fn fit_component(c: &GridComponent, left: u32) -> (r: (Option<GridComponent>, u32))
    requires
        left <= MAX_GRID_TRACKS_PER_AXIS,
    ensures
        match r.0 {
            Some(q) => fitting(c@, left as int) == Some(q@) && r.1 == tracks_of(q@) && r.1 <= left,
            None => fitting(c@, left as int) is None && r.1 == 0,
        },
{
    proof {
        lemma_fitting_fits(c@, left as int);
    }
    match c {
        GridComponent::Single(t) => if left >= 1 {
            (Some(GridComponent::Single(*t)), 1)
        } else {
            (None, 0)
        },
        GridComponent::Repeat { count: Repetition::Times(n), tracks, names } => {
            let len: usize = tracks.len();
            if len == 0 {
                if *n > 0 {
                    assert(*n * tracks@.len() == 0) by (nonlinear_arith)
                        requires
                            tracks@.len() == 0,
                    ;
                    return (
                        Some(
                            GridComponent::Repeat {
                                count: Repetition::Times(*n),
                                tracks: copy_tracks(tracks),
                                names: *names,
                            },
                        ),
                        0,
                    );
                }
                return (None, 0);
            }
            let most: u32 = if len <= left as usize {
                left / (len as u32)
            } else {
                0
            };
            assert(most as int == left as int / tracks@.len() as int) by {
                if tracks@.len() > left {
                    assert(left as int / tracks@.len() as int == 0) by (nonlinear_arith)
                        requires
                            0 <= left < tracks@.len(),
                    ;
                }
            }
            let kept: u32 = if *n <= most {
                *n
            } else {
                most
            };
            if kept > 0 {
                assert(kept * len <= left);
                (
                    Some(
                        GridComponent::Repeat {
                            count: Repetition::Times(kept),
                            tracks: copy_tracks(tracks),
                            names: *names,
                        },
                    ),
                    kept * len as u32,
                )
            } else {
                (None, 0)
            }
        },
        GridComponent::Repeat { count, tracks, names } => if tracks.len() <= left as usize {
            (
                Some(
                    GridComponent::Repeat {
                        count: *count,
                        tracks: copy_tracks(tracks),
                        names: *names,
                    },
                ),
                tracks.len() as u32,
            )
        } else {
            (None, 0)
        },
    }
}

/// Holds a template to the limit: what comes first is kept, in whole repetitions.
pub fn clamp_template(list: &Vec<GridComponent>) -> (r: Vec<GridComponent>)
    ensures
        pieces(r@) == clamped(pieces(list@), list@.len() as int),
{
    let mut out: Vec<GridComponent> = Vec::new();
    let mut left: u32 = MAX_GRID_TRACKS_PER_AXIS;
    assert(pieces(out@) =~= Seq::empty());
    let mut k: usize = 0;
    while k < list.len()
        invariant
            k <= list@.len(),
            pieces(out@) == clamped(pieces(list@), k as int),
            left == MAX_GRID_TRACKS_PER_AXIS - tracks_in(
                pieces(out@),
                pieces(out@).len() as int,
            ),
        decreases list.len() - k,
    {
        proof {
            lemma_clamped_is_bounded(pieces(list@), k as int);
            assert(pieces(list@)[k as int] == list@[k as int]@);
        }
        let ghost before = pieces(out@);
        let (found, used): (Option<GridComponent>, u32) = fit_component(&list[k], left);
        if let Some(c) = found {
            let ghost p = c@;
            out.push(c);
            proof {
                assert(pieces(out@) =~= before.push(p));
                lemma_tracks_in_push(before, p);
            }
            left = left - used;
        }
        k = k + 1;
    }
    out
}

/// The number of a grid line, held to as many lines as a template within the limit has.
pub open spec fn limited_line(line: int) -> int {
    let most = MAX_GRID_TRACKS_PER_AXIS + 1;
    if line > most {
        most as int
    } else if line < -most {
        -most as int
    } else {
        line
    }
}

/// Holds the number of a grid line to the limit. One that lies far off stays on its side.
pub fn clamp_line(line: i32) -> (r: i16)
    ensures
        r == limited_line(line as int),
{
    if line > 1001 {
        1001
    } else if line < -1001 {
        -1001
    } else {
        line as i16
    }
}

/// The number of tracks that an item spans, held to the limit.
pub open spec fn limited_span(span: int) -> int {
    if span > MAX_GRID_TRACKS_PER_AXIS {
        MAX_GRID_TRACKS_PER_AXIS as int
    } else if span < 1 {
        1
    } else {
        span
    }
}

/// Holds the number of tracks that an item spans to the limit; it spans at least one.
pub fn clamp_span(span: i32) -> (r: u16)
    ensures
        r == limited_span(span as int),
{
    if span > 1000 {
        1000
    } else if span < 1 {
        1
    } else {
        span as u16
    }
}

/// Limited lines keep their order and their side, and lie no further apart than the limit
/// allows; those within it are untouched.
pub proof fn lines_keep_their_order(a: int, b: int)
    requires
        a <= b,
    ensures
        limited_line(a) <= limited_line(b),
        a > 0 ==> limited_line(a) > 0,
        a < 0 ==> limited_line(a) < 0,
        a > 0 ==> limited_line(b) - limited_line(a) <= MAX_GRID_TRACKS_PER_AXIS,
        -1001 <= a <= 1001 ==> limited_line(a) == a,
        1 <= a <= 1000 ==> limited_span(a) == a,
{
}

/// Where an edge of an item goes. Names are given by their number in a list of names.
#[derive(Clone, Copy, PartialEq, Eq, Debug, Structural)]
pub enum GridEdge {
    Auto,
    Line(i32),
    NamedLine { name: u32, index: i32 },
    Span(i32),
    NamedSpan { name: u32, count: i32 },
}

/// Where an item goes along an axis.
#[derive(Clone, Copy, PartialEq, Eq, Debug, Structural)]
pub struct GridRange {
    pub start: GridEdge,
    pub end: GridEdge,
}

/// The grid properties of an element that the limit is about: its own templates, and where it
/// goes in the grid that it is an item of.
pub struct GridStyle {
    pub columns: Vec<GridComponent>,
    pub rows: Vec<GridComponent>,
    pub column: GridRange,
    pub row: GridRange,
}

/// The grid properties of an element as values.
#[verifier::ext_equal]
pub ghost struct GridValues {
    pub columns: Seq<Piece>,
    pub rows: Seq<Piece>,
    pub column: GridRange,
    pub row: GridRange,
}

impl View for GridStyle {
    type V = GridValues;

    open spec fn view(&self) -> GridValues {
        GridValues {
            columns: pieces(self.columns@),
            rows: pieces(self.rows@),
            column: self.column,
            row: self.row,
        }
    }
}

/// No template, and a place that is found automatically.
pub open spec fn no_grid() -> GridValues {
    let anywhere = GridRange { start: GridEdge::Auto, end: GridEdge::Auto };
    GridValues { columns: Seq::empty(), rows: Seq::empty(), column: anywhere, row: anywhere }
}

/// An edge within the limit.
pub open spec fn limited_edge(e: GridEdge) -> GridEdge {
    match e {
        GridEdge::Auto => GridEdge::Auto,
        GridEdge::Line(n) => GridEdge::Line(limited_line(n as int) as i32),
        GridEdge::NamedLine { name, index } => GridEdge::NamedLine {
            name,
            index: limited_line(index as int) as i32,
        },
        GridEdge::Span(n) => GridEdge::Span(limited_span(n as int) as i32),
        GridEdge::NamedSpan { name, count } => GridEdge::NamedSpan {
            name,
            count: limited_span(count as int) as i32,
        },
    }
}

/// A range within the limit.
pub open spec fn limited_range(r: GridRange) -> GridRange {
    GridRange { start: limited_edge(r.start), end: limited_edge(r.end) }
}

/// Grid properties within the limit: templates, lines and spans.
pub open spec fn limited_grid(v: GridValues) -> GridValues {
    GridValues {
        columns: clamped(v.columns, v.columns.len() as int),
        rows: clamped(v.rows, v.rows.len() as int),
        column: limited_range(v.column),
        row: limited_range(v.row),
    }
}

fn clamp_edge(e: GridEdge) -> (r: GridEdge)
    ensures
        r == limited_edge(e),
{
    match e {
        GridEdge::Auto => GridEdge::Auto,
        GridEdge::Line(n) => GridEdge::Line(clamp_line(n) as i32),
        GridEdge::NamedLine { name, index } => GridEdge::NamedLine {
            name,
            index: clamp_line(index) as i32,
        },
        GridEdge::Span(n) => GridEdge::Span(clamp_span(n) as i32),
        GridEdge::NamedSpan { name, count } => GridEdge::NamedSpan {
            name,
            count: clamp_span(count) as i32,
        },
    }
}

fn clamp_range(r: &GridRange) -> (s: GridRange)
    ensures
        s == limited_range(*r),
{
    GridRange { start: clamp_edge(r.start), end: clamp_edge(r.end) }
}

impl GridStyle {
    /// No template, and a place that is found automatically.
    pub fn initial() -> (r: GridStyle)
        ensures
            r@ == no_grid(),
    {
        let anywhere: GridRange = GridRange { start: GridEdge::Auto, end: GridEdge::Auto };
        let r: GridStyle = GridStyle {
            columns: Vec::new(),
            rows: Vec::new(),
            column: anywhere,
            row: anywhere,
        };
        assert(r@ =~= no_grid());
        r
    }

    /// The grid properties within the limit.
    pub fn limited(&self) -> (r: GridStyle)
        ensures
            r@ == limited_grid(self@),
    {
        GridStyle {
            columns: clamp_template(&self.columns),
            rows: clamp_template(&self.rows),
            column: clamp_range(&self.column),
            row: clamp_range(&self.row),
        }
    }

    /// Whether the grid properties are the same as those of `other`.
    pub fn same(&self, other: &GridStyle) -> (r: bool)
        ensures
            r == (self@ == other@),
    {
        same_template(&self.columns, &other.columns) && same_template(&self.rows, &other.rows)
            && self.column == other.column && self.row == other.row
    }
}

fn same_tracks(a: &Vec<u32>, b: &Vec<u32>) -> (r: bool)
    ensures
        r == (a@ == b@),
{
    if a.len() != b.len() {
        return false;
    }
    let mut k: usize = 0;
    while k < a.len()
        invariant
            k <= a@.len(),
            a@.len() == b@.len(),
            forall|j: int| 0 <= j < k ==> a@[j] == b@[j],
        decreases a.len() - k,
    {
        if a[k] != b[k] {
            return false;
        }
        k = k + 1;
    }
    assert(a@ =~= b@);
    true
}

fn same_component(a: &GridComponent, b: &GridComponent) -> (r: bool)
    ensures
        r == (a@ == b@),
{
    match (a, b) {
        (GridComponent::Single(s), GridComponent::Single(t)) => *s == *t,
        (
            GridComponent::Repeat { count: c, tracks: s, names: m },
            GridComponent::Repeat { count: d, tracks: t, names: n },
        ) => *c == *d && *m == *n && same_tracks(s, t),
        _ => false,
    }
}

fn same_template(a: &Vec<GridComponent>, b: &Vec<GridComponent>) -> (r: bool)
    ensures
        r == (pieces(a@) == pieces(b@)),
{
    assert(pieces(a@).len() == a@.len() && pieces(b@).len() == b@.len());
    if a.len() != b.len() {
        return false;
    }
    let mut k: usize = 0;
    while k < a.len()
        invariant
            k <= a@.len(),
            a@.len() == b@.len(),
            forall|j: int| 0 <= j < k ==> pieces(a@)[j] == pieces(b@)[j],
        decreases a.len() - k,
    {
        assert(pieces(a@)[k as int] == a@[k as int]@);
        assert(pieces(b@)[k as int] == b@[k as int]@);
        if !same_component(&a[k], &b[k]) {
            return false;
        }
        k = k + 1;
    }
    assert(pieces(a@) =~= pieces(b@));
    true
}

/// The edge is within the limit.
pub open spec fn is_near(e: GridEdge) -> bool {
    match e {
        GridEdge::Auto => true,
        GridEdge::Line(n) => -1001 <= n <= 1001,
        GridEdge::NamedLine { index, .. } => -1001 <= index <= 1001,
        GridEdge::Span(n) => 1 <= n <= 1000,
        GridEdge::NamedSpan { count, .. } => 1 <= count <= 1000,
    }
}

/// The grid properties make no more tracks along either axis than the limit, and name lines
/// and spans within it.
pub open spec fn is_limited(v: GridValues) -> bool {
    &&& tracks_in(v.columns, v.columns.len() as int) <= MAX_GRID_TRACKS_PER_AXIS
    &&& tracks_in(v.rows, v.rows.len() as int) <= MAX_GRID_TRACKS_PER_AXIS
    &&& is_near(v.column.start) && is_near(v.column.end)
    &&& is_near(v.row.start) && is_near(v.row.end)
}

/// Whatever the grid properties of an element are, what is left of them is within the limit.
pub proof fn grids_are_limited(v: GridValues)
    ensures
        is_limited(limited_grid(v)),
{
    templates_are_limited(v.columns);
    templates_are_limited(v.rows);
}

/// Grid properties within the limit are untouched.
pub proof fn small_grids_are_untouched(v: GridValues)
    requires
        forall|k: int| 0 <= k < v.columns.len() ==> makes_tracks(#[trigger] v.columns[k]),
        forall|k: int| 0 <= k < v.rows.len() ==> makes_tracks(#[trigger] v.rows[k]),
        is_limited(v),
    ensures
        limited_grid(v) == v,
{
    small_templates_are_untouched(v.columns);
    small_templates_are_untouched(v.rows);
}

} // verus!
