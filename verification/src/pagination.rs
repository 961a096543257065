//! Where a printed page may end: at a break opportunity of the document, the same ones that
//! columns break at, or at the end of the paper where a page has none.

use vstd::prelude::*;

use crate::engine::LayoutEngine;
use crate::geometry::Scene;
use crate::multicol::{
    a_flow_breaks_at_the_top_of_every_box, a_flow_breaks_only_at_tops, break_opportunities, drop_along,
    drops_are_bounded, flow_breaks, is_top_at, leads_down,
};
use crate::tree::BoxId;
use crate::units::{held, hold, max, max_i64, FAR};

verus! {

/// Hard cap on the pages that one document may produce: a pathological document must not turn
/// into an unbounded file. At the cap the last page simply runs to the end of the document.
pub const MAX_PAGES: usize = 1000;

/// The last of the first `n` breaks that lies after `start` and no further than `bottom`.
pub open spec fn last_break(breaks: Seq<i64>, n: int, start: int, bottom: int) -> Option<int>
    decreases n,
{
    if n <= 0 {
        None
    } else {
        let rest = last_break(breaks, n - 1, start, bottom);
        let o = breaks[n - 1] as int;
        if start < o <= bottom {
            match rest {
                Some(best) => Some(max(best, o)),
                None => Some(o),
            }
        } else {
            rest
        }
    }
}

/// Where a page from `start` to at most `bottom` ends: at its last break, or at `bottom` if
/// it has none.
pub open spec fn page_end(breaks: Seq<i64>, start: int, bottom: int) -> int {
    match last_break(breaks, breaks.len() as int, start, bottom) {
        Some(o) => o,
        None => bottom,
    }
}

/// The page ends from `start` on, at most `room` of them before the end of the document.
pub open spec fn page_ends(breaks: Seq<i64>, start: int, page: int, end: int, room: int) -> Seq<i64>
    decreases room,
{
    if room <= 0 || start + page >= end {
        seq![end as i64]
    } else {
        let next = page_end(breaks, start, start + page);
        seq![next as i64] + page_ends(breaks, next, page, end, room - 1)
    }
}

proof fn lemma_last_break(breaks: Seq<i64>, n: int, start: int, bottom: int)
    requires
        0 <= n <= breaks.len(),
    ensures
        match last_break(breaks, n, start, bottom) {
            Some(o) => start < o <= bottom && exists|k: int| 0 <= k < n && breaks[k] == o,
            None => forall|k: int| 0 <= k < n ==> !(start < #[trigger] breaks[k] <= bottom),
        },
        forall|k: int|
            0 <= k < n && start < #[trigger] breaks[k] <= bottom ==> last_break(
                breaks,
                n,
                start,
                bottom,
            ) is Some && breaks[k] <= last_break(breaks, n, start, bottom).unwrap(),
    decreases n,
{
    if n > 0 {
        lemma_last_break(breaks, n - 1, start, bottom);
        assert(breaks[n - 1] == breaks[n - 1]);
    }
}

/// Where each page ends: the pages go forward, none but the last is taller than the paper,
/// and each ends at the last break of the document that it has room for, or at the end of the
/// paper.
pub proof fn pages_fit_the_paper(
    breaks: Seq<i64>,
    start: int,
    page: int,
    end: int,
    room: int,
    k: int,
)
    requires
        page > 0,
        0 <= start < end <= FAR,
        0 <= k < page_ends(breaks, start, page, end, room).len() - 1,
    ensures
        ({
            let ends = page_ends(breaks, start, page, end, room);
            let from = if k == 0 {
                start
            } else {
                ends[k - 1] as int
            };
            &&& from < ends[k] <= from + page
            &&& ends[k] < end
            &&& breaks.contains(ends[k]) || ends[k] == from + page
            &&& forall|j: int|
                0 <= j < breaks.len() && from < #[trigger] breaks[j] <= from + page ==> breaks[j]
                    <= ends[k] && breaks.contains(ends[k])
        }),
    decreases room,
{
    let next = page_end(breaks, start, start + page);
    lemma_last_break(breaks, breaks.len() as int, start, start + page);
    assert(start < next <= start + page);
    let ends = page_ends(breaks, start, page, end, room);
    let rest = page_ends(breaks, next, page, end, room - 1);
    assert(ends =~= seq![next as i64] + rest);
    if k == 0 {
        match last_break(breaks, breaks.len() as int, start, start + page) {
            Some(o) => {
                let j = choose|j: int| 0 <= j < breaks.len() && breaks[j] == o;
                assert(breaks[j] == ends[0]);
            },
            None => {},
        }
    } else {
        pages_fit_the_paper(breaks, next, page, end, room - 1, k - 1);
        if k == 1 {
            assert(ends[0] == next);
        } else {
            assert(ends[k - 1] == rest[k - 2]);
        }
    }
}

/// The last page ends where the document does.
pub proof fn pages_reach_the_end(breaks: Seq<i64>, start: int, page: int, end: int, room: int)
    ensures
        page_ends(breaks, start, page, end, room).len() >= 1,
        page_ends(breaks, start, page, end, room).last() == end as i64,
    decreases room,
{
    if !(room <= 0 || start + page >= end) {
        let next = page_end(breaks, start, start + page);
        pages_reach_the_end(breaks, next, page, end, room - 1);
    }
}

/// A last page that is taller than the paper is one at the limit: with room for another page,
/// it fits too.
pub proof fn only_a_page_at_the_limit_is_taller(
    breaks: Seq<i64>,
    start: int,
    page: int,
    end: int,
    room: int,
)
    requires
        page > 0,
        0 <= start < end <= FAR,
        page_ends(breaks, start, page, end, room).len() <= room,
    ensures
        ({
            let ends = page_ends(breaks, start, page, end, room);
            let from = if ends.len() == 1 {
                start
            } else {
                ends[ends.len() - 2] as int
            };
            end <= from + page
        }),
    decreases room,
{
    if room > 0 && start + page < end {
        let next = page_end(breaks, start, start + page);
        let ends = page_ends(breaks, start, page, end, room);
        let rest = page_ends(breaks, next, page, end, room - 1);
        lemma_last_break(breaks, breaks.len() as int, start, start + page);
        pages_reach_the_end(breaks, next, page, end, room - 1);
        assert(ends =~= seq![next as i64] + rest);
        only_a_page_at_the_limit_is_taller(breaks, next, page, end, room - 1);
        if rest.len() > 1 {
            assert(ends[ends.len() - 2] == rest[rest.len() - 2]);
        }
    } else {
        pages_reach_the_end(breaks, start, page, end, room);
    }
}

impl Scene {
    /// The height of the document: at least that of the viewport.
    pub open spec fn document_height(self) -> int {
        max(max(self.content_extent().1, self.viewport.height as int), 0)
    }

    /// The break opportunities of the document, in document coordinates.
    pub open spec fn document_breaks(self, root: BoxId) -> Seq<i64> {
        let y = self.tree.at(root).final_layout.location.y;
        flow_breaks(self.tree, root, true).map_values(|o: i64| held(o + y) as i64)
    }

    /// The page boundaries for a given height of the paper.
    pub open spec fn pages(self, page: int) -> Seq<i64> {
        let end = self.document_height();
        match self.tree.root {
            Some(root) => if page <= 0 || end <= 0 {
                seq![0i64, end as i64]
            } else {
                seq![0i64] + page_ends(
                    self.document_breaks(root),
                    0,
                    page,
                    end,
                    MAX_PAGES - 1,
                )
            },
            None => seq![0i64, end as i64],
        }
    }
}

proof fn lemma_ends_are_limited(breaks: Seq<i64>, start: int, page: int, end: int, room: int)
    requires
        room >= 0,
    ensures
        1 <= page_ends(breaks, start, page, end, room).len() <= room + 1,
    decreases room,
{
    if !(room <= 0 || start + page >= end) {
        let next = page_end(breaks, start, start + page);
        lemma_ends_are_limited(breaks, next, page, end, room - 1);
    }
}

/// A document prints on at least one page and on no more than the cap, whatever its height and
/// that of the paper.
pub proof fn pages_are_limited(scene: Scene, page: int)
    ensures
        2 <= scene.pages(page).len() <= MAX_PAGES + 1,
{
    match scene.tree.root {
        Some(root) => {
            lemma_ends_are_limited(
                scene.document_breaks(root),
                0,
                page,
                scene.document_height(),
                MAX_PAGES - 1,
            );
        },
        None => {},
    }
}

/// The pages of a document start at its top, end at its bottom, and go forward.
pub proof fn pages_go_forward(scene: Scene, page: int, i: int, j: int)
    requires
        page > 0,
        0 < scene.document_height() <= FAR,
        0 <= i < j < scene.pages(page).len(),
    ensures
        scene.pages(page)[0] == 0,
        scene.pages(page).last() == scene.document_height(),
        scene.pages(page)[i] < scene.pages(page)[j],
    decreases j,
{
    let all = scene.pages(page);
    let end = scene.document_height();
    match scene.tree.root {
        Some(root) => {
            let breaks = scene.document_breaks(root);
            let ends = page_ends(breaks, 0, page, end, MAX_PAGES - 1);
            assert(all =~= seq![0i64] + ends);
            pages_reach_the_end(breaks, 0, page, end, MAX_PAGES - 1);
            assert(all.last() == ends.last());
            if j - 1 < ends.len() - 1 {
                pages_fit_the_paper(breaks, 0, page, end, MAX_PAGES - 1, j - 1);
            } else if j >= 2 {
                pages_fit_the_paper(breaks, 0, page, end, MAX_PAGES - 1, j - 2);
            }
            assert(all[j] == ends[j - 1]);
            if j >= 2 {
                assert(all[j - 1] == ends[j - 2]);
            }
            if i < j - 1 {
                pages_go_forward(scene, page, i, j - 1);
            }
        },
        None => {},
    }
}

fn find_page_end(breaks: &Vec<i64>, start: i64, bottom: i64) -> (r: i64)
    ensures
        r == page_end(breaks@, start as int, bottom as int),
{
    let mut best: Option<i64> = None;
    let mut k: usize = 0;
    while k < breaks.len()
        invariant
            k <= breaks@.len(),
            match best {
                Some(b) => last_break(breaks@, k as int, start as int, bottom as int) == Some(
                    b as int,
                ),
                None => last_break(breaks@, k as int, start as int, bottom as int) is None,
            },
        decreases breaks.len() - k,
    {
        let o: i64 = breaks[k];
        if start < o && o <= bottom {
            best = match best {
                Some(b) => Some(max_i64(b, o)),
                None => Some(o),
            };
        }
        k = k + 1;
    }
    match best {
        Some(b) => b,
        None => bottom,
    }
}

/// The pages of a document while they are cut, one after the other.
pub struct Paging {
    /// The break opportunities of the document.
    pub breaks: Vec<i64>,
    /// The height of the paper, and of the document.
    pub page: i64,
    pub end: i64,
    /// Where the next page begins.
    pub from: i64,
    /// How many pages may follow the next one.
    pub room: usize,
    /// The last page has been cut.
    pub over: bool,
}

impl Paging {
    /// There is something left to cut where there is room for several pages.
    pub open spec fn wf(&self) -> bool {
        !self.over && self.room > 0 ==> 0 <= self.from < self.end <= FAR && 0 < self.page
            <= i32::MAX
    }

    /// Where the pages end that have not been cut yet.
    pub open spec fn rest(&self) -> Seq<i64> {
        if self.over {
            Seq::empty()
        } else {
            page_ends(
                self.breaks@,
                self.from as int,
                self.page as int,
                self.end as int,
                self.room as int,
            )
        }
    }

    /// Cuts the next page and says where it ends; `None` after the last one.
    pub fn next_end(&mut self) -> (r: Option<i64>)
        requires
            old(self).wf(),
        ensures
            final(self).wf(),
            r is None <==> old(self).rest().len() == 0,
            match r {
                Some(end) => old(self).rest() == seq![end] + final(self).rest(),
                None => *final(self) == *old(self),
            },
    {
        if self.over {
            return None;
        }
        if self.room == 0 || self.from + self.page >= self.end {
            self.over = true;
            assert(seq![self.end] + Seq::<i64>::empty() =~= seq![self.end]);
            return Some(self.end);
        }
        let bottom: i64 = self.from + self.page;
        let next: i64 = find_page_end(&self.breaks, self.from, bottom);
        proof {
            lemma_last_break(
                self.breaks@,
                self.breaks@.len() as int,
                self.from as int,
                bottom as int,
            );
        }
        self.from = next;
        self.room = self.room - 1;
        Some(next)
    }
}

impl LayoutEngine {
    /// The pages that the document prints on, for paper of the given height, with none of them
    /// cut yet.
    pub fn begin_pages(&self, page_height: i32) -> (r: Paging)
        requires
            self.wf(),
        ensures
            r.wf(),
            seq![0i64] + r.rest() == self.scene().pages(page_height as int),
    {
        let extent: (i64, i64) = self.document_content_extent();
        let end: i64 = max_i64(max_i64(extent.1, self.viewport.height as i64), 0);
        let page: i64 = page_height as i64;
        let mut breaks: Vec<i64> = Vec::new();
        if let Some(root) = self.tree.root {
            if page_height > 0 && end > 0 {
                let y: i32 = self.tree.box_(root).final_layout.location.y;
                let raw: Vec<i64> = break_opportunities(&self.tree, root, true);
                let mut i: usize = 0;
                while i < raw.len()
                    invariant
                        i <= raw@.len(),
                        breaks@.len() == i,
                        forall|j: int|
                            0 <= j < i ==> #[trigger] breaks@[j] == held(raw@[j] + y) as i64,
                    decreases raw.len() - i,
                {
                    breaks.push(hold(raw[i] as i128 + y as i128));
                    i = i + 1;
                }
                assert(breaks@ =~= self.scene().document_breaks(root));
                return Paging { breaks, page, end, from: 0, room: MAX_PAGES - 1, over: false };
            }
        }
        let r = Paging { breaks, page, end, from: 0, room: 0, over: false };
        assert(seq![0i64] + r.rest() =~= seq![0i64, end]);
        r
    }

    /// The boundaries of the pages that the document prints on, for paper of the given
    /// height: one more than there are pages, from the top of the document to its bottom.
    /// With paper of no height there is one page.
    pub fn page_boundaries(&self, page_height: i32) -> (r: Vec<i64>)
        requires
            self.wf(),
        ensures
            r@ == self.scene().pages(page_height as int),
    {
        let mut paging: Paging = self.begin_pages(page_height);
        let mut out: Vec<i64> = Vec::new();
        out.push(0);
        let ghost all = seq![0i64] + paging.rest();
        loop
            invariant
                paging.wf(),
                all == out@ + paging.rest(),
                all == self.scene().pages(page_height as int),
            decreases paging.rest().len(),
        {
            match paging.next_end() {
                Some(end) => {
                    out.push(end);
                    assert(all =~= out@ + paging.rest());
                },
                None => {
                    assert(all =~= out@);
                    return out;
                },
            }
        }
    }
}

/// A caller that cuts the pages one after the other, and looks at the clock in between, gets
/// the boundaries that the document has.
pub proof fn pages_may_be_cut_one_by_one(before: Paging, end: i64, after: Paging, cut: Seq<i64>)
    requires
        before.rest() == seq![end] + after.rest(),
    ensures
        cut + before.rest() == cut.push(end) + after.rest(),
{
    assert(cut + before.rest() =~= cut.push(end) + after.rest());
}

/// Where the pages of a document are cut. Every page but the last ends at the top of a box
/// of the document's flow or of a line in one, as far down the document as the positions of
/// all boxes around it add up to, or at an edge of the root, or at the end of the paper; the
/// paper is used up only where no such place is left on it, and of the places that fit the
/// last one is taken.
pub proof fn pages_are_cut_between_boxes_and_lines(scene: Scene, root: BoxId, page: int, k: int) -> (r:
    (Seq<BoxId>, Option<int>))
    requires
        scene.tree.wf(),
        scene.tree.root == Some(root),
        scene.tree.boxes@.len() <= 0x0fff_fff0,
        page > 0,
        0 < scene.document_height() <= FAR,
        0 < k < scene.pages(page).len() - 1,
    ensures
        ({
            let ends = scene.pages(page);
            let l = scene.tree.at(root).final_layout;
            &&& ends[k - 1] < ends[k] <= ends[k - 1] + page
            &&& ends[k] == ends[k - 1] + page || ends[k] == l.location.y || ends[k] == l.location.y
                + l.size.height || is_top_at(
                scene.tree,
                root.0 as int,
                l.location.y as int,
                true,
                r.0,
                r.1,
                ends[k] as int,
            )
        }),
{
    let ends = scene.pages(page);
    let end = scene.document_height();
    let breaks = scene.document_breaks(root);
    let raw = flow_breaks(scene.tree, root, true);
    let cut = page_ends(breaks, 0, page, end, MAX_PAGES - 1);
    assert(ends =~= seq![0i64] + cut);
    assert(ends[k] == cut[k - 1]);
    if k > 1 {
        assert(ends[k - 1] == cut[k - 2]);
    }
    pages_fit_the_paper(breaks, 0, page, end, MAX_PAGES - 1, k - 1);
    let y = scene.tree.at(root).final_layout.location.y;
    if breaks.contains(cut[k - 1]) {
        let m = choose|m: int| 0 <= m < breaks.len() && breaks[m] == cut[k - 1];
        assert(breaks[m] == held(raw[m] + y));
        if 0 < m < raw.len() - 1 {
            let (path, line) = a_flow_breaks_only_at_tops(scene.tree, root, true, m);
            drops_are_bounded(scene.tree, path, true);
            assert(held(raw[m] + y) == raw[m] + y);
            (path, line)
        } else {
            (Seq::empty(), None)
        }
    } else {
        (Seq::empty(), None)
    }
}

/// A place to break that fits on a page is not passed over for an earlier one: the page
/// ends there or further down. `path` leads to the box at whose top it is.
pub proof fn pages_are_filled(
    scene: Scene,
    root: BoxId,
    page: int,
    k: int,
    path: Seq<BoxId>,
)
    requires
        scene.tree.wf(),
        scene.tree.root == Some(root),
        page > 0,
        0 < scene.document_height() <= FAR,
        0 < k < scene.pages(page).len() - 1,
        0 < path.len() < 0x0fff_fff0,
        leads_down(scene.tree, root.0 as int, path),
    ensures
        ({
            let ends = scene.pages(page);
            let top = scene.tree.at(root).final_layout.location.y + drop_along(
                scene.tree,
                path,
                true,
            );
            ends[k - 1] < top <= ends[k - 1] + page ==> top <= ends[k]
        }),
{
    let ends = scene.pages(page);
    let end = scene.document_height();
    let breaks = scene.document_breaks(root);
    let raw = flow_breaks(scene.tree, root, true);
    let cut = page_ends(breaks, 0, page, end, MAX_PAGES - 1);
    assert(ends =~= seq![0i64] + cut);
    assert(ends[k] == cut[k - 1]);
    if k > 1 {
        assert(ends[k - 1] == cut[k - 2]);
    }
    pages_fit_the_paper(breaks, 0, page, end, MAX_PAGES - 1, k - 1);
    a_flow_breaks_at_the_top_of_every_box(scene.tree, root, true, path);
    drops_are_bounded(scene.tree, path, true);
    let v = drop_along(scene.tree, path, true) as i64;
    let m = choose|m: int| 0 <= m < raw.len() && raw[m] == v;
    let y = scene.tree.at(root).final_layout.location.y;
    assert(breaks[m] == held(raw[m] + y));
}

} // verus!
