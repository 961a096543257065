//! [`LayoutEngine`]: owns the box tree and what outlives it, and decides what a change of
//! the document, its styles, its images or its fonts asks of the layout.
//!
//! A reflow is a dialogue, for styles, text and the box algorithms are worked on elsewhere.
//! [`LayoutEngine::begin_reflow`] says whether one is due. If so, restyled nodes are offered
//! to [`LayoutEngine::try_patch`], and a new tree is handed to [`LayoutEngine::install`] where
//! they cannot be patched in. [`propagate_body_overflow`] comes before the box algorithms,
//! [`correct_layout`] after them and [`finish_layout`] after positions have been rounded.
//! [`LayoutEngine::finish_reflow`] ends the reflow, whatever became of it.

use std::sync::Arc;

use vstd::prelude::*;

use crate::budget::{LayoutAborted, UNLIMITED};
use crate::chars;
use crate::corrections::{
    apply_absolute_auto_margins, apply_relative_float_offsets, corrected_by, each,
    relative_float_offset, with_auto_margins,
};
use crate::document::Styled;
use crate::dom::DomTree;
use crate::fonts::{Face, FontSystem, Offered, WebFontAttrs, WebFontOutcome};
use crate::images::{inserted, DecodedImage, ImageData, ImageStore, Images};
use crate::multicol::{contexts_ok, only_columns_differ, resolve_columns, resolved_columns};
use crate::overflow::{resolve_scrollable_overflow, scroll_area};
use crate::patch::{
    box_is_patched, can_patch, patched_record, take_snapshot, try_patch, BuildSnapshot,
};
use crate::positioning::{
    hoist_all, hoist_out_of_flow, links_of, only_links_differ, restore_static_positions,
    restored_boxes,
};
use crate::scroll::{bump, next_version, ScrollState, Scrolls};
use crate::tree::{
    same_shape, shape_decides_wf, BoxId, BoxStyle, LayoutBox, LayoutTree, NodeId, Overflow,
    Viewport,
};
use crate::units::Point;
use crate::webfont::decoded;

verus! {

/// The state of the world that a layout was computed for. There is nothing to do while it
/// stands.
#[derive(Clone, Copy, PartialEq, Eq, Debug, Structural)]
pub struct ReflowStamp {
    pub dom_version: u64,
    pub style_version: u64,
    pub viewport: Viewport,
    pub images_version: u64,
    pub fonts_version: u64,
}

/// The state of the world that a display list was built for. The scroll positions of elements
/// are part of it, for they are part of where things are painted; that of the document is not,
/// for a list is reused wherever the document is scrolled to.
#[derive(Clone, Copy, PartialEq, Eq, Debug, Structural)]
pub struct PaintStamp {
    pub dom_version: u64,
    pub style_version: u64,
    pub viewport: Viewport,
    pub element_scroll_version: u64,
    pub images_version: u64,
    pub fonts_version: u64,
}

/// A reflow that ended without a layout: the world it was for, and why.
pub struct FailedReflow {
    pub stamp: ReflowStamp,
    pub reason: LayoutAborted,
}

/// The layout of a document.
pub struct LayoutEngine {
    pub tree: LayoutTree,
    pub fonts: FontSystem,
    pub viewport: Viewport,
    pub scroll: ScrollState,
    pub images: ImageStore,
    /// Counts the web fonts that have been registered.
    pub fonts_version: u64,
    /// What the layout was computed for.
    pub stamp: Option<ReflowStamp>,
    /// The reflow that failed, until the world has changed.
    pub failed: Option<FailedReflow>,
    /// What the box tree was built from.
    pub snapshot: Option<BuildSnapshot>,
    pub rebuild_count: u64,
    pub patch_count: u64,
    /// How long a reflow may take, in nanoseconds.
    pub budget: u128,
}

/// What a reflow begins with.
pub enum ReflowStart {
    /// The layout is current.
    Current,
    /// The same reflow has failed before.
    Failed(LayoutAborted),
    /// The reflow is due, for this world.
    Due(ReflowStamp),
}

impl LayoutAborted {
    /// Two flushes ended for the same reason.
    pub open spec fn same_as(self, other: LayoutAborted) -> bool {
        match (self, other) {
            (LayoutAborted::Deadline { limit: a }, LayoutAborted::Deadline { limit: b }) => a == b,
            (LayoutAborted::EnginePanic(a), LayoutAborted::EnginePanic(b)) => a@ == b@,
            _ => false,
        }
    }

    /// The same reason once more.
    pub fn copied(&self) -> (r: LayoutAborted)
        ensures
            r.same_as(*self),
    {
        match self {
            LayoutAborted::Deadline { limit } => LayoutAborted::Deadline { limit: *limit },
            LayoutAborted::EnginePanic(message) => {
                let text: Vec<char> = chars::to_chars(message.as_str());
                assert(text@.subrange(0, text@.len() as int) =~= text@);
                LayoutAborted::EnginePanic(
                    chars::slice_to_string(text.as_slice(), 0, text.len()),
                )
            },
        }
    }
}

impl LayoutEngine {
    /// The box tree is well formed, and so are the images and the fonts.
    pub open spec fn wf(&self) -> bool {
        &&& self.tree.wf()
        &&& self.images.wf()
        &&& self.fonts.wf()
    }

    /// The layout of an empty document.
    pub fn new(viewport: Viewport) -> (r: LayoutEngine)
        ensures
            r.wf(),
            r.tree.boxes@.len() == 0,
            r.tree.root is None,
            r.tree.viewport == viewport,
            r.viewport == viewport,
            r.fonts.faces() == Seq::<Face>::empty(),
            r.images@ == Images::nothing(),
            r.fonts_version == 0,
            r.stamp is None,
            r.failed is None,
            r.snapshot is None,
            r.rebuild_count == 0,
            r.patch_count == 0,
            r.budget == UNLIMITED,
            r.scroll@ == (Scrolls { offsets: Map::empty(), viewport: Point { x: 0, y: 0 } }),
            r.scroll.element_version == 0,
            r.scroll.document_version == 0,
    {
        LayoutEngine {
            tree: LayoutTree::new(viewport),
            fonts: FontSystem::new(),
            viewport,
            scroll: ScrollState::new(),
            images: ImageStore::new(),
            fonts_version: 0,
            stamp: None,
            failed: None,
            snapshot: None,
            rebuild_count: 0,
            patch_count: 0,
            budget: UNLIMITED,
        }
    }

    /// How often the box tree was built, and how often it was patched instead.
    pub fn reflow_counts(&self) -> (r: (u64, u64))
        ensures
            r == (self.rebuild_count, self.patch_count),
    {
        (self.rebuild_count, self.patch_count)
    }

    /// The box tree, which is current after a reflow.
    pub fn tree(&self) -> (r: &LayoutTree)
        ensures
            *r == self.tree,
    {
        &self.tree
    }

    /// The viewport that the next reflow is for.
    pub fn viewport(&self) -> (r: Viewport)
        ensures
            r == self.viewport,
    {
        self.viewport
    }

    /// Replaces the viewport, which the next reflow goes by.
    pub fn set_viewport(&mut self, viewport: Viewport)
        ensures
            *final(self) == (LayoutEngine { viewport, ..*old(self) }),
    {
        self.viewport = viewport;
    }

    /// Sets how long a reflow may take, in nanoseconds, where nothing around it says so.
    pub fn set_budget(&mut self, limit: u128)
        ensures
            *final(self) == (LayoutEngine { budget: limit, ..*old(self) }),
    {
        self.budget = limit;
    }

    /// The images of the document.
    pub fn images(&self) -> (r: &ImageStore)
        ensures
            *r == self.images,
    {
        &self.images
    }

    /// The state of the world, given the versions of the document and its styles.
    pub open spec fn world(&self, dom_version: u64, style_version: u64) -> ReflowStamp {
        ReflowStamp {
            dom_version,
            style_version,
            viewport: self.viewport,
            images_version: self.images@.version,
            fonts_version: self.fonts_version,
        }
    }

    /// What a display list depends on.
    pub open spec fn paint_world(&self) -> PaintStamp {
        PaintStamp {
            dom_version: match self.stamp {
                Some(s) => s.dom_version,
                None => 0,
            },
            style_version: match self.stamp {
                Some(s) => s.style_version,
                None => 0,
            },
            viewport: self.viewport,
            element_scroll_version: self.scroll.element_version,
            images_version: self.images@.version,
            fonts_version: self.fonts_version,
        }
    }

    /// What a display list of the current layout depends on.
    pub fn paint_stamp(&self) -> (r: PaintStamp)
        ensures
            r == self.paint_world(),
    {
        let (dom_version, style_version): (u64, u64) = match self.stamp {
            Some(s) => (s.dom_version, s.style_version),
            None => (0, 0),
        };
        PaintStamp {
            dom_version,
            style_version,
            viewport: self.viewport,
            element_scroll_version: self.scroll.element_version,
            images_version: self.images.version(),
            fonts_version: self.fonts_version,
        }
    }

    /// Counts the changes of the document's scroll position.
    pub fn document_scroll_version(&self) -> (r: u64)
        ensures
            r == self.scroll.document_version,
    {
        self.scroll.document_version
    }

    /// Decides what is to be done with a downloaded web font; [`LayoutEngine::register_web_font`]
    /// follows if it is new.
    pub fn offer_web_font(&mut self, family: &str, raw: &[u8], attrs: WebFontAttrs) -> (r: Offered)
        requires
            old(self).wf(),
        ensures
            final(self).wf(),
            *final(self) == (LayoutEngine { fonts: final(self).fonts, ..*old(self) }),
            match decoded(raw@) {
                None => r is Undecodable && final(self).fonts.faces() == old(self).fonts.faces(),
                Some(sfnt) => {
                    let face = Face { family: family@, sfnt, attrs };
                    if old(self).fonts.faces().contains(face) {
                        r is Duplicate && final(self).fonts.faces() == old(self).fonts.faces()
                    } else {
                        &&& r matches Offered::Fresh(bytes) && bytes@ == sfnt
                        &&& final(self).fonts.faces() == old(self).fonts.faces().push(face)
                    }
                },
            },
    {
        self.fonts.offer(family, raw, attrs)
    }

    /// Says what became of the web font that was offered last, of which `faces` joined the
    /// collection. If any did, the next reflow shapes text anew.
    pub fn register_web_font(&mut self, faces: usize) -> (r: WebFontOutcome)
        requires
            old(self).wf(),
            old(self).fonts.web_fonts@.len() > 0,
        ensures
            final(self).wf(),
            *final(self) == (LayoutEngine {
                fonts: final(self).fonts,
                fonts_version: final(self).fonts_version,
                ..*old(self)
            }),
            faces == 0 ==> {
                &&& r is Undecodable
                &&& final(self).fonts.faces() == old(self).fonts.faces().drop_last()
                &&& final(self).fonts_version == old(self).fonts_version
            },
            faces > 0 ==> {
                &&& r is Registered
                &&& final(self).fonts.faces() == old(self).fonts.faces()
                &&& final(self).fonts_version == next_version(old(self).fonts_version)
            },
    {
        let outcome: WebFontOutcome = self.fonts.settle(faces);
        if outcome == WebFontOutcome::Registered {
            self.fonts_version = bump(self.fonts_version);
        }
        outcome
    }

    /// Stores a decoded raster image for `url`. The next reflow goes by its size.
    pub fn insert_raster_image(&mut self, url: String, width: u32, height: u32, rgba: Arc<Vec<u8>>)
        requires
            old(self).wf(),
            old(self).images@.version < u64::MAX,
        ensures
            final(self).wf(),
            *final(self) == (LayoutEngine { images: final(self).images, ..*old(self) }),
            exists|image: DecodedImage|
                {
                    &&& #[trigger] inserted(old(self).images@, final(self).images@, url@, image)
                    &&& image.id.0 == old(self).images@.last_id + 1
                    &&& image.width == width
                    &&& image.height == height
                    &&& image.data == (ImageData::Raster { rgba })
                },
    {
        let ghost before = self.images@;
        let ghost name = url@;
        let image: Arc<DecodedImage> = self.images.insert_raster(url, width, height, rgba);
        assert(inserted(before, self.images@, name, *image));
    }

    /// Stores a vector image for `url`, with its intrinsic size and its markup.
    pub fn insert_vector_image(&mut self, url: String, width: u32, height: u32, svg: Arc<Vec<u8>>)
        requires
            old(self).wf(),
            old(self).images@.version < u64::MAX,
        ensures
            final(self).wf(),
            *final(self) == (LayoutEngine { images: final(self).images, ..*old(self) }),
            exists|image: DecodedImage|
                {
                    &&& #[trigger] inserted(old(self).images@, final(self).images@, url@, image)
                    &&& image.id.0 == old(self).images@.last_id + 1
                    &&& image.width == width
                    &&& image.height == height
                    &&& image.data == (ImageData::Vector { svg })
                },
    {
        let ghost before = self.images@;
        let ghost name = url@;
        let image: Arc<DecodedImage> = self.images.insert_vector(url, width, height, svg);
        assert(inserted(before, self.images@, name, *image));
    }

    /// Marks `url` as an image that could not be loaded or decoded.
    pub fn mark_image_broken(&mut self, url: String)
        requires
            old(self).wf(),
            old(self).images@.version < u64::MAX,
        ensures
            final(self).wf(),
            *final(self) == (LayoutEngine { images: final(self).images, ..*old(self) }),
            final(self).images@.decoded == old(self).images@.decoded.remove(url@),
            final(self).images@.broken == old(self).images@.broken.insert(url@),
            final(self).images@.last_id == old(self).images@.last_id,
            final(self).images@.version == old(self).images@.version + 1,
    {
        self.images.insert_broken(url);
    }

    /// `r` is how a reflow for these versions starts: the layout is current, or the same
    /// reflow has failed before, or it is due.
    pub open spec fn starts(&self, dom_version: u64, style_version: u64, r: ReflowStart) -> bool {
        let stamp = self.world(dom_version, style_version);
        if self.stamp == Some(stamp) {
            r is Current
        } else {
            match self.failed {
                Some(f) => if f.stamp == stamp {
                    r matches ReflowStart::Failed(reason) && reason.same_as(f.reason)
                } else {
                    r == ReflowStart::Due(stamp)
                },
                None => r == ReflowStart::Due(stamp),
            }
        }
    }

    /// Says whether a reflow is due, given the versions of the document and its styles: not if
    /// the layout is current, nor if the reflow has failed and nothing has changed since.
    pub fn begin_reflow(&self, dom_version: u64, style_version: u64) -> (r: ReflowStart)
        requires
            self.wf(),
        ensures
            self.starts(dom_version, style_version, r),
    {
        let stamp = ReflowStamp {
            dom_version,
            style_version,
            viewport: self.viewport,
            images_version: self.images.version(),
            fonts_version: self.fonts_version,
        };
        if let Some(s) = self.stamp {
            if s == stamp {
                return ReflowStart::Current;
            }
        }
        if let Some(f) = &self.failed {
            if f.stamp == stamp {
                return ReflowStart::Failed(f.reason.copied());
            }
        }
        ReflowStart::Due(stamp)
    }

    /// Patches the restyled nodes into the box tree, if they can be, for the viewport as it now
    /// is; otherwise nothing changes.
    pub fn try_patch(&mut self, doc: &Styled, structure_version: u64, restyled: &Vec<NodeId>) -> (r:
        bool)
        requires
            old(self).wf(),
            doc.wf(),
        ensures
            final(self).wf(),
            r == match old(self).snapshot {
                Some(s) => can_patch(
                    old(self).tree,
                    s,
                    *doc,
                    structure_version,
                    old(self).images@.version,
                    old(self).fonts_version,
                    restyled@,
                ),
                None => false,
            },
            !r ==> *final(self) == *old(self),
            r ==> {
                let s = old(self).snapshot->Some_0;
                &&& *final(self) == (LayoutEngine {
                    tree: final(self).tree,
                    snapshot: final(self).snapshot,
                    patch_count: next_version(old(self).patch_count),
                    ..*old(self)
                })
                &&& same_shape(
                    LayoutTree { viewport: old(self).viewport, ..old(self).tree },
                    final(self).tree,
                )
                &&& forall|i: int|
                    0 <= i < old(self).tree.boxes@.len() ==> box_is_patched(
                        old(self).tree,
                        s,
                        *doc,
                        restyled@,
                        restyled@.len() as int,
                        i,
                        #[trigger] final(self).tree.boxes@[i],
                    )
                &&& final(self).snapshot matches Some(t) && t == (BuildSnapshot {
                    styles: t.styles,
                    ..s
                }) && forall|node: NodeId| #[trigger]
                    t.record(node) == patched_record(
                        old(self).tree,
                        s,
                        *doc,
                        restyled@,
                        restyled@.len() as int,
                        node,
                    )
            },
    {
        let images_version: u64 = self.images.version();
        let fonts_version: u64 = self.fonts_version;
        let patched: bool = match &mut self.snapshot {
            Some(s) => try_patch(
                &mut self.tree,
                s,
                doc,
                structure_version,
                images_version,
                fonts_version,
                restyled,
            ),
            None => false,
        };
        if patched {
            self.tree.set_viewport(self.viewport);
            self.patch_count = bump(self.patch_count);
        }
        patched
    }

    /// Takes a new box tree, with the inline content of its boxes, and records what it was
    /// built from.
    pub fn install(&mut self, tree: LayoutTree, doc: &Styled, structure_version: u64)
        requires
            old(self).wf(),
            doc.wf(),
            tree.wf(),
            match tree.root {
                Some(r) => r.0 == 0,
                None => true,
            },
        ensures
            final(self).wf(),
            *final(self) == (LayoutEngine {
                tree: final(self).tree,
                snapshot: final(self).snapshot,
                rebuild_count: next_version(old(self).rebuild_count),
                ..*old(self)
            }),
            only_links_differ(tree, final(self).tree),
            match tree.root {
                Some(root) => links_of(final(self).tree) == hoist_all(
                    tree,
                    tree.boxes@.len() as int,
                    root,
                ),
                None => final(self).tree == tree,
            },
            final(self).snapshot matches Some(s) && s.is_of(
                final(self).tree,
                *doc,
                structure_version,
                old(self).images@.version,
                old(self).fonts_version,
            ),
    {
        self.tree = tree;
        hoist_out_of_flow(&mut self.tree);
        self.snapshot = Some(
            take_snapshot(
                &self.tree,
                doc,
                structure_version,
                self.images.version(),
                self.fonts_version,
            ),
        );
        self.rebuild_count = bump(self.rebuild_count);
    }

    /// Ends a reflow. One that failed leaves nothing behind that was laid out by half: no box,
    /// and no record to patch from; and it is not tried again in the same world.
    pub fn finish_reflow(&mut self, stamp: ReflowStamp, outcome: Result<(), LayoutAborted>) -> (r:
        Result<(), LayoutAborted>)
        requires
            old(self).wf(),
        ensures
            final(self).wf(),
            finished(*old(self), stamp, outcome, *final(self)),
            match outcome {
                Ok(_) => r is Ok,
                Err(reason) => r matches Err(e) && e.same_as(reason),
            },
    {
        match outcome {
            Ok(_) => {
                self.stamp = Some(stamp);
                self.failed = None;
                Ok(())
            },
            Err(reason) => {
                let again: LayoutAborted = reason.copied();
                self.tree.clear();
                self.snapshot = None;
                self.stamp = None;
                self.failed = Some(FailedReflow { stamp, reason });
                Err(again)
            },
        }
    }
}

/// `b` is `a` after a reflow for `stamp` that ended with `outcome`: a layout for it, or none at
/// all.
pub open spec fn finished(
    a: LayoutEngine,
    stamp: ReflowStamp,
    outcome: Result<(), LayoutAborted>,
    b: LayoutEngine,
) -> bool {
    match outcome {
        Ok(_) => b == (LayoutEngine { stamp: Some(stamp), failed: None, ..a }),
        Err(reason) => {
            &&& b == (LayoutEngine {
                tree: b.tree,
                stamp: None,
                failed: b.failed,
                snapshot: None,
                ..a
            })
            &&& b.tree.boxes@.len() == 0
            &&& b.tree.root is None
            &&& b.tree.viewport == a.tree.viewport
            &&& b.failed matches Some(f) && f.stamp == stamp && f.reason == reason
        },
    }
}

/// A reflow that has come to its end is not repeated for the same world.
pub proof fn a_finished_reflow_is_current(
    a: LayoutEngine,
    b: LayoutEngine,
    dom_version: u64,
    style_version: u64,
    again: ReflowStart,
)
    requires
        finished(a, a.world(dom_version, style_version), Ok(()), b),
        b.starts(dom_version, style_version, again),
    ensures
        again is Current,
{
}

/// A reflow that was aborted leaves no box behind and nothing to patch. It fails at once, and
/// for the same reason, until the world has changed; then it is due.
pub proof fn an_aborted_reflow_fails_fast(
    a: LayoutEngine,
    b: LayoutEngine,
    dom_version: u64,
    style_version: u64,
    reason: LayoutAborted,
    next_dom: u64,
    next_style: u64,
    again: ReflowStart,
)
    requires
        finished(a, a.world(dom_version, style_version), Err(reason), b),
        b.starts(next_dom, next_style, again),
    ensures
        b.tree.boxes@.len() == 0,
        b.snapshot is None,
        next_dom == dom_version && next_style == style_version ==> {
            again matches ReflowStart::Failed(r) && r.same_as(reason)
        },
        next_dom != dom_version || next_style != style_version ==> again is Due,
{
}

/// A reflow is due again once anything that the layout depends on has changed, and only then.
pub proof fn every_change_makes_a_reflow_due(
    a: LayoutEngine,
    b: LayoutEngine,
    dom_a: u64,
    style_a: u64,
    dom_b: u64,
    style_b: u64,
)
    ensures
        a.world(dom_a, style_a) == b.world(dom_b, style_b) <==> {
            &&& dom_a == dom_b
            &&& style_a == style_b
            &&& a.viewport == b.viewport
            &&& a.images@.version == b.images@.version
            &&& a.fonts_version == b.fonts_version
        },
        next_version(a.fonts_version) != a.fonts_version,
{
}

/// A display list is reused wherever the document is scrolled to.
pub proof fn document_scrolling_keeps_the_display_list(a: LayoutEngine, b: LayoutEngine)
    requires
        a.stamp == b.stamp,
        a.viewport == b.viewport,
        a.images == b.images,
        a.fonts_version == b.fonts_version,
        a.scroll.element_version == b.scroll.element_version,
    ensures
        a.paint_world() == b.paint_world(),
{
}

/// The box belongs to the HTML `body` element.
pub open spec fn is_body(b: LayoutBox, dom: DomTree) -> bool {
    match b.dom_node {
        Some(node) => match dom.position(node) {
            Some(i) => dom.nodes@[i as int].is_tag("body"@),
            None => false,
        },
        None => false,
    }
}

/// The first child of the box `id`, from the `k`th on, that belongs to the `body`.
pub open spec fn body_from(tree: LayoutTree, dom: DomTree, id: BoxId, k: int) -> Option<BoxId>
    decreases tree.at(id).children@.len() - k,
{
    let kids = tree.at(id).children@;
    if 0 <= k < kids.len() {
        if is_body(tree.at(kids[k]), dom) {
            Some(kids[k])
        } else {
            body_from(tree, dom, id, k + 1)
        }
    } else {
        None
    }
}

/// The `overflow` of the body in an axis, once the viewport has taken over its scrolling.
pub open spec fn body_overflow(root: Overflow, body: Overflow) -> Overflow {
    if root is Visible && body is Scroll {
        Overflow::Visible
    } else {
        body
    }
}

fn propagated(root: Overflow, body: Overflow) -> (r: Overflow)
    ensures
        r == body_overflow(root, body),
{
    if root == Overflow::Visible && body == Overflow::Scroll {
        Overflow::Visible
    } else {
        body
    }
}

/// A box with another `overflow`.
pub open spec fn with_overflow(b: LayoutBox, x: Overflow, y: Overflow) -> LayoutBox {
    LayoutBox { style: BoxStyle { overflow_x: x, overflow_y: y, ..b.style }, ..b }
}

/// The boxes after the viewport has taken over the scrolling of the body.
pub open spec fn with_propagated_overflow(tree: LayoutTree, dom: DomTree) -> Seq<LayoutBox> {
    match tree.root {
        Some(root) => match body_from(tree, dom, root, 0) {
            Some(body) => tree.boxes@.update(
                body.0 as int,
                with_overflow(
                    tree.at(body),
                    body_overflow(tree.at(root).style.overflow_x, tree.at(body).style.overflow_x),
                    body_overflow(tree.at(root).style.overflow_y, tree.at(body).style.overflow_y),
                ),
            ),
            None => tree.boxes@,
        },
        None => tree.boxes@,
    }
}

fn find_body(tree: &LayoutTree, dom: &DomTree, root: BoxId) -> (r: Option<BoxId>)
    requires
        tree.wf(),
        tree.has(root),
        dom.wf(),
    ensures
        r == body_from(*tree, *dom, root, 0),
        match r {
            Some(body) => root.0 < body.0 && tree.has(body),
            None => true,
        },
{
    assert(tree.links_ok(root.0 as int));
    let b: &LayoutBox = tree.box_(root);
    let mut k: usize = 0;
    while k < b.children.len()
        invariant
            k <= b.children@.len(),
            tree.wf(),
            tree.has(root),
            dom.wf(),
            *b == tree.at(root),
            tree.links_ok(root.0 as int),
            body_from(*tree, *dom, root, 0) == body_from(*tree, *dom, root, k as int),
        decreases b.children.len() - k,
    {
        let c: BoxId = b.children[k];
        assert(root.0 < b.children@[k as int].0 < tree.boxes@.len());
        if let Some(node) = tree.box_(c).dom_node {
            if let Some(i) = dom.find(node) {
                if dom.nodes[i].tag_is("body") {
                    return Some(c);
                }
            }
        }
        k = k + 1;
    }
    None
}

/// Lets the viewport take over the scrolling of the body where the root does not clip:
/// otherwise a body as high as the viewport would cut the document off at one screen. In each
/// axis by itself, and only for a body that scrolls; one that hides its overflow keeps doing so.
pub fn propagate_body_overflow(tree: &mut LayoutTree, dom: &DomTree)
    requires
        old(tree).wf(),
        dom.wf(),
    ensures
        final(tree).wf(),
        same_shape(*old(tree), *final(tree)),
        *final(tree) == (LayoutTree { boxes: final(tree).boxes, ..*old(tree) }),
        final(tree).boxes@ == with_propagated_overflow(*old(tree), *dom),
{
    let root: BoxId = match tree.root {
        Some(root) => root,
        None => {
            return ;
        },
    };
    let body: BoxId = match find_body(tree, dom, root) {
        Some(body) => body,
        None => {
            return ;
        },
    };
    let outer: BoxStyle = tree.boxes[root.index()].style;
    let inner: BoxStyle = tree.boxes[body.index()].style;
    tree.boxes[body.index()].style.overflow_x = propagated(outer.overflow_x, inner.overflow_x);
    tree.boxes[body.index()].style.overflow_y = propagated(outer.overflow_y, inner.overflow_y);
    proof {
        assert(tree.boxes@ =~= with_propagated_overflow(*old(tree), *dom));
        assert(same_shape(*old(tree), *tree));
        shape_decides_wf(*old(tree), *tree);
    }
}

/// Handing scrolling over once more changes nothing.
pub proof fn overflow_is_propagated_once(root: Overflow, body: Overflow)
    ensures
        body_overflow(root, body_overflow(root, body)) == body_overflow(root, body),
        !(root is Visible) ==> body_overflow(root, body) == body,
{
}

/// `after` is `before` with relative offsets given to its floats.
pub open spec fn floats_offset(before: LayoutTree, after: LayoutTree) -> bool {
    after.boxes@ == each(
        before.boxes@,
        |i: int| corrected_by(before.boxes@[i], relative_float_offset(before, i)),
    ) && same_shape(before, after)
}

/// `after` is `before` with the auto margins of its absolutely positioned boxes resolved.
pub open spec fn margins_resolved(before: LayoutTree, after: LayoutTree) -> bool {
    after.boxes@ == each(before.boxes@, |i: int| with_auto_margins(before, i)) && same_shape(
        before,
        after,
    )
}

/// Corrects what the box algorithms leave undone, in this order: relative offsets of floats,
/// auto margins of absolutely positioned boxes, and the static positions of boxes that were
/// moved out of their place in the tree.
pub fn correct_layout(tree: &mut LayoutTree)
    requires
        old(tree).wf(),
    ensures
        final(tree).wf(),
        same_shape(*old(tree), *final(tree)),
        exists|a: LayoutTree, b: LayoutTree|
            {
                &&& #[trigger] floats_offset(*old(tree), a)
                &&& #[trigger] margins_resolved(a, b)
                &&& final(tree).boxes@ == restored_boxes(b, b.boxes@.len() as int)
                &&& same_shape(b, *final(tree))
            },
{
    apply_relative_float_offsets(tree);
    let ghost a = *tree;
    assert(floats_offset(*old(tree), a));
    apply_absolute_auto_margins(tree);
    let ghost b = *tree;
    assert(margins_resolved(a, b));
    restore_static_positions(tree);
    assert(tree.boxes@ == restored_boxes(b, b.boxes@.len() as int));
}

/// `after` is `before` with its columns placed.
pub open spec fn columns_placed(before: LayoutTree, after: LayoutTree) -> bool {
    &&& same_shape(before, after)
    &&& forall|i: int|
        0 <= i < before.boxes@.len() ==> {
            &&& only_columns_differ(#[trigger] before.boxes@[i], after.boxes@[i])
            &&& match (before.boxes@[i].multicol, after.boxes@[i].multicol) {
                (Some(x), Some(y)) => y.columns@ == resolved_columns(before, x),
                _ => true,
            }
        }
}

/// Finishes a layout whose positions have been rounded: columns are placed where their content
/// is painted, and then what scrolling can reach is found.
pub fn finish_layout(tree: &mut LayoutTree)
    requires
        old(tree).wf(),
        contexts_ok(*old(tree)),
    ensures
        final(tree).wf(),
        same_shape(*old(tree), *final(tree)),
        exists|a: LayoutTree|
            {
                &&& #[trigger] columns_placed(*old(tree), a)
                &&& a.boxes@.len() == final(tree).boxes@.len()
                &&& forall|i: int|
                    0 <= i < a.boxes@.len() ==> #[trigger] final(tree).boxes@[i] == (LayoutBox {
                        scrollable_overflow: scroll_area(a, i),
                        ..a.boxes@[i]
                    })
            },
{
    resolve_columns(tree);
    let ghost a = *tree;
    assert(columns_placed(*old(tree), a));
    resolve_scrollable_overflow(tree);
}

/// Where the root does not scroll in an axis, the viewport takes over the scrolling of the
/// `body`, which is the first child of the root that belongs to one. No other box changes.
pub proof fn the_viewport_scrolls_in_place_of_the_body(tree: LayoutTree, dom: DomTree, k: int)
    requires
        tree.root is Some,
        0 <= k < tree.at(tree.root->Some_0).children@.len(),
        is_body(tree.at(tree.at(tree.root->Some_0).children@[k]), dom),
        forall|j: int|
            0 <= j < k ==> !is_body(
                tree.at(#[trigger] tree.at(tree.root->Some_0).children@[j]),
                dom,
            ),
        tree.has(tree.at(tree.root->Some_0).children@[k]),
    ensures
        ({
            let root = tree.at(tree.root->Some_0).style;
            let b = tree.at(tree.root->Some_0).children@[k].0 as int;
            let before = tree.boxes@[b].style;
            let boxes = with_propagated_overflow(tree, dom);
            let after = boxes[b].style;
            &&& after.overflow_x == (if root.overflow_x == Overflow::Visible && before.overflow_x
                == Overflow::Scroll {
                Overflow::Visible
            } else {
                before.overflow_x
            })
            &&& after.overflow_y == (if root.overflow_y == Overflow::Visible && before.overflow_y
                == Overflow::Scroll {
                Overflow::Visible
            } else {
                before.overflow_y
            })
            &&& boxes.len() == tree.boxes@.len()
            &&& forall|i: int|
                0 <= i < boxes.len() && i != b ==> #[trigger] boxes[i] == tree.boxes@[i]
        }),
{
    lemma_first_body(tree, dom, tree.root->Some_0, 0, k);
}

proof fn lemma_first_body(tree: LayoutTree, dom: DomTree, id: BoxId, j: int, k: int)
    requires
        0 <= j <= k < tree.at(id).children@.len(),
        is_body(tree.at(tree.at(id).children@[k]), dom),
        forall|i: int| 0 <= i < k ==> !is_body(tree.at(#[trigger] tree.at(id).children@[i]), dom),
    ensures
        body_from(tree, dom, id, j) == Some(tree.at(id).children@[k]),
    decreases k - j,
{
    if j < k {
        assert(!is_body(tree.at(tree.at(id).children@[j]), dom));
        lemma_first_body(tree, dom, id, j + 1, k);
    }
}

} // verus!
