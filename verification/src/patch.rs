//! Incremental relayout: which changes of style a box tree can take in place, and what they
//! make of it.
//!
//! A change that neither moves boxes nor reshapes text is patched in: the boxes get their new
//! styles, and what was cached for them and for the boxes around them is out of date. Any
//! other change asks for a new tree.

use std::collections::{HashMap, HashSet};

use vstd::prelude::*;

use crate::document::{Styled, StyleNames};
use crate::dom::NodeKind;
use crate::grid::{
    grids_are_limited, is_limited, limited_grid, no_grid, GridStyle, GridValues,
};
use crate::multicol::is_multicol;
use crate::style::{capture_text_fields, carries, layout_style, taffy_style_for, ComputedStyle};
use crate::tree::{
    node_keys_are_distinct, same_links, same_shape, shape_decides_wf, BoxId, BoxKind, BoxStyle,
    LayoutBox, LayoutTree, MulticolConfig, NodeId,
};

verus! {

broadcast use vstd::std_specs::hash::group_hash_axioms;

/// The computed values of an element, with their names.
#[derive(Clone, Copy, PartialEq, Eq, Debug, Structural)]
pub struct Recorded {
    pub values: ComputedStyle,
    pub names: StyleNames,
}

/// What a box tree was built from.
pub struct BuildSnapshot {
    /// The version of the document's structure.
    pub structure_version: u64,
    /// The computed values of every styled element, by its key.
    pub styles: HashMap<u64, Recorded>,
    /// The keys of the nodes that contribute spans to some inline formatting context.
    pub contributors: HashSet<u64>,
    pub images_version: u64,
    pub fonts_version: u64,
}

/// The computed values of an element of the document.
pub open spec fn current(doc: Styled, node: NodeId) -> Option<Recorded> {
    match doc.dom.position(node) {
        Some(i) => if doc.dom.nodes@[i as int].kind is Element {
            match doc.styles@[i as int].primary {
                Some(values) => Some(Recorded { values, names: doc.styles@[i as int].names }),
                None => None,
            }
        } else {
            None
        },
        None => None,
    }
}

fn find_current(doc: &Styled, node: NodeId) -> (r: Option<Recorded>)
    requires
        doc.wf(),
    ensures
        r == current(*doc, node),
{
    match doc.dom.find(node) {
        Some(i) => if doc.dom.nodes[i].kind == NodeKind::Element {
            match doc.styles[i].primary {
                Some(values) => Some(Recorded { values, names: doc.styles[i].names }),
                None => None,
            }
        } else {
            None
        },
        None => None,
    }
}

/// A set with the keys of the first `n` nodes of a list.
pub open spec fn with_keys(set: Set<u64>, nodes: Seq<NodeId>, n: int) -> Set<u64>
    decreases n,
{
    if n <= 0 {
        set
    } else {
        with_keys(set, nodes, n - 1).insert(nodes[n - 1].key())
    }
}

/// The keys of the nodes that contribute spans to the inline formatting contexts of the first
/// `n` boxes.
pub open spec fn contributor_keys(tree: LayoutTree, n: int) -> Set<u64>
    decreases n,
{
    if n <= 0 {
        Set::empty()
    } else {
        let before = contributor_keys(tree, n - 1);
        match tree.boxes@[n - 1].ifc {
            Some(ifc) => with_keys(before, ifc.contributors@, ifc.contributors@.len() as int),
            None => before,
        }
    }
}

impl BuildSnapshot {
    /// The values that were recorded of a node.
    pub open spec fn record(&self, node: NodeId) -> Option<Recorded> {
        if self.styles@.contains_key(node.key()) {
            Some(self.styles@[node.key()])
        } else {
            None
        }
    }

    /// The snapshot is one of `tree`, built from `doc`.
    pub open spec fn is_of(
        &self,
        tree: LayoutTree,
        doc: Styled,
        structure_version: u64,
        images_version: u64,
        fonts_version: u64,
    ) -> bool {
        &&& self.structure_version == structure_version
        &&& self.images_version == images_version
        &&& self.fonts_version == fonts_version
        &&& self.contributors@ == contributor_keys(tree, tree.boxes@.len() as int)
        &&& forall|node: NodeId| #[trigger] self.record(node) == current(doc, node)
    }
}

fn record_styles(doc: &Styled) -> (r: HashMap<u64, Recorded>)
    requires
        doc.wf(),
    ensures
        forall|node: NodeId|
            (if r@.contains_key(node.key()) {
                Some(r@[node.key()])
            } else {
                None
            }) == #[trigger] current(*doc, node),
{
    let mut styles: HashMap<u64, Recorded> = HashMap::new();
    let n: usize = doc.dom.nodes.len();
    let mut i: usize = 0;
    while i < n
        invariant
            i <= n == doc.dom.nodes@.len(),
            doc.wf(),
            forall|node: NodeId|
                (if styles@.contains_key(node.key()) {
                    Some(styles@[node.key()])
                } else {
                    None
                }) == (match doc.dom.position(node) {
                    Some(p) => if p < i {
                        #[trigger] current(*doc, node)
                    } else {
                        None
                    },
                    None => None,
                }),
        decreases n - i,
    {
        let ghost before = styles@;
        assert(doc.dom.node_ok(i as int));
        let id: NodeId = doc.dom.nodes[i].id;
        if let Some(recorded) = find_current(doc, id) {
            styles.insert(id.to_key(), recorded);
        }
        proof {
            assert forall|node: NodeId|
                (if styles@.contains_key(node.key()) {
                    Some(styles@[node.key()])
                } else {
                    None
                }) == (match doc.dom.position(node) {
                    Some(p) => if p < i + 1 {
                        #[trigger] current(*doc, node)
                    } else {
                        None
                    },
                    None => None,
                }) by {
                node_keys_are_distinct(node, id);
                assert(doc.dom.position(id) == Some(i));
                match doc.dom.position(node) {
                    Some(p) => {
                        assert(doc.dom.index@.contains_key(node.key()));
                        node_keys_are_distinct(node, doc.dom.nodes@[p as int].id);
                    },
                    None => {},
                }
            }
        }
        i = i + 1;
    }
    proof {
        assert forall|node: NodeId|
            (if styles@.contains_key(node.key()) {
                Some(styles@[node.key()])
            } else {
                None
            }) == #[trigger] current(*doc, node) by {
            match doc.dom.position(node) {
                Some(p) => {
                    assert(doc.dom.index@.contains_key(node.key()));
                },
                None => {},
            }
        }
    }
    styles
}

fn collect_contributors(tree: &LayoutTree) -> (r: HashSet<u64>)
    ensures
        r@ == contributor_keys(*tree, tree.boxes@.len() as int),
{
    let mut keys: HashSet<u64> = HashSet::new();
    let n: usize = tree.boxes.len();
    let mut i: usize = 0;
    while i < n
        invariant
            i <= n == tree.boxes@.len(),
            keys@ == contributor_keys(*tree, i as int),
        decreases n - i,
    {
        if let Some(ifc) = &tree.boxes[i].ifc {
            let ghost before = keys@;
            let mut k: usize = 0;
            while k < ifc.contributors.len()
                invariant
                    k <= ifc.contributors@.len(),
                    keys@ == with_keys(before, ifc.contributors@, k as int),
                decreases ifc.contributors.len() - k,
            {
                keys.insert(ifc.contributors[k].to_key());
                k = k + 1;
            }
        }
        i = i + 1;
    }
    keys
}

/// Records what `tree` was built from.
pub fn take_snapshot(
    tree: &LayoutTree,
    doc: &Styled,
    structure_version: u64,
    images_version: u64,
    fonts_version: u64,
) -> (r: BuildSnapshot)
    requires
        doc.wf(),
    ensures
        r.is_of(*tree, *doc, structure_version, images_version, fonts_version),
{
    let r = BuildSnapshot {
        structure_version,
        styles: record_styles(doc),
        contributors: collect_contributors(tree),
        images_version,
        fonts_version,
    };
    assert forall|node: NodeId| #[trigger] r.record(node) == current(*doc, node) by {}
    r
}

/// What a restyled node asks of the box tree.
#[derive(Clone, Copy, PartialEq, Eq, Debug, Structural)]
pub enum Verdict {
    /// A new tree.
    Rebuild,
    /// Nothing: its values are those that were recorded.
    Keep,
    /// Nothing but that its new values are recorded: no box takes them.
    Refresh,
    /// That the box takes the new values.
    Restyle(BoxId),
}

/// The columns of a multi-column container differ, or one of the two is none.
pub open spec fn columns_differ(a: MulticolConfig, b: MulticolConfig) -> bool {
    (a.count is Some || a.width is Some || b.count is Some || b.width is Some) && a != b
}

/// The change reaches what is decided when boxes are built: whether there is one and where,
/// its markers and columns, and the boxes of pseudo-elements.
pub open spec fn reaches_construction(a: Recorded, b: Recorded) -> bool {
    ||| a.names.before != b.names.before
    ||| a.names.after != b.names.after
    ||| a.values.display != b.values.display
    ||| a.values.position != b.values.position
    ||| a.values.float != b.values.float
    ||| a.values.order != b.values.order
    ||| a.names.list != b.names.list
    ||| columns_differ(a.values.multicol, b.values.multicol)
}

/// The change reaches the shapes of text.
pub open spec fn reaches_text(a: Recorded, b: Recorded) -> bool {
    a.names.font != b.names.font || a.names.text != b.names.text
}

/// The box is part of a table's grid, which holds styles of its own.
pub open spec fn in_table_grid(tree: LayoutTree, id: BoxId) -> bool {
    tree.at(id).kind is TableRoot || match tree.at(id).parent {
        Some(p) => tree.at(p).kind is TableRoot,
        None => false,
    }
}

/// The box has inline content, of its own or in an anonymous box.
pub open spec fn holds_text(tree: LayoutTree, id: BoxId) -> bool {
    tree.at(id).ifc is Some || exists|k: int|
        0 <= k < tree.at(id).children@.len() && tree.at(
            #[trigger] tree.at(id).children@[k],
        ).dom_node is None
}

/// What a restyled node asks of the box tree. Its values may be new though nothing about them
/// has changed, for nodes are visited for the sake of what is inside them.
pub open spec fn verdict(tree: LayoutTree, snapshot: BuildSnapshot, doc: Styled, node: NodeId) -> Verdict {
    match (snapshot.record(node), current(doc, node)) {
        (Some(a), Some(b)) => if a.names.all == b.names.all {
            Verdict::Keep
        } else if reaches_construction(a, b) {
            Verdict::Rebuild
        } else if snapshot.contributors@.contains(node.key()) {
            if reaches_text(a, b) {
                Verdict::Rebuild
            } else {
                Verdict::Refresh
            }
        } else {
            match tree.principal(node) {
                None => Verdict::Refresh,
                Some(id) => if in_table_grid(tree, id) || (reaches_text(a, b) && holds_text(
                    tree,
                    id,
                )) {
                    Verdict::Rebuild
                } else {
                    Verdict::Restyle(id)
                },
            }
        },
        _ => Verdict::Rebuild,
    }
}

fn find_reaches_construction(a: &Recorded, b: &Recorded) -> (r: bool)
    ensures
        r == reaches_construction(*a, *b),
{
    let columns: bool = (is_multicol(&a.values.multicol) || is_multicol(&b.values.multicol))
        && a.values.multicol != b.values.multicol;
    a.names.before != b.names.before || a.names.after != b.names.after || a.values.display
        != b.values.display || a.values.position != b.values.position || a.values.float
        != b.values.float || a.values.order != b.values.order || a.names.list != b.names.list
        || columns
}

fn find_holds_text(tree: &LayoutTree, id: BoxId) -> (r: bool)
    requires
        tree.wf(),
        tree.has(id),
    ensures
        r == holds_text(*tree, id),
{
    assert(tree.links_ok(id.0 as int));
    let b: &LayoutBox = tree.box_(id);
    if b.ifc.is_some() {
        return true;
    }
    let mut k: usize = 0;
    while k < b.children.len()
        invariant
            k <= b.children@.len(),
            tree.wf(),
            tree.has(id),
            tree.links_ok(id.0 as int),
            *b == tree.at(id),
            forall|j: int|
                0 <= j < k ==> tree.at(#[trigger] tree.at(id).children@[j]).dom_node is Some,
        decreases b.children.len() - k,
    {
        let c: BoxId = b.children[k];
        assert(id.0 < b.children@[k as int].0 < tree.boxes@.len());
        if tree.box_(c).dom_node.is_none() {
            assert(tree.at(tree.at(id).children@[k as int]).dom_node is None);
            return true;
        }
        k = k + 1;
    }
    false
}

fn find_in_table_grid(tree: &LayoutTree, id: BoxId) -> (r: bool)
    requires
        tree.wf(),
        tree.has(id),
    ensures
        r == in_table_grid(*tree, id),
{
    assert(tree.links_ok(id.0 as int));
    let b: &LayoutBox = tree.box_(id);
    b.kind == BoxKind::TableRoot || match b.parent {
        Some(p) => tree.box_(p).kind == BoxKind::TableRoot,
        None => false,
    }
}

/// Decides what a restyled node asks of the box tree.
pub fn judge(tree: &LayoutTree, snapshot: &BuildSnapshot, doc: &Styled, node: NodeId) -> (r: Verdict)
    requires
        tree.wf(),
        doc.wf(),
    ensures
        r == verdict(*tree, *snapshot, *doc, node),
{
    let b: Recorded = match find_current(doc, node) {
        Some(b) => b,
        None => {
            return Verdict::Rebuild;
        },
    };
    let key: u64 = node.to_key();
    let a: Recorded = match snapshot.styles.get(&key) {
        Some(a) => *a,
        None => {
            return Verdict::Rebuild;
        },
    };
    if a.names.all == b.names.all {
        return Verdict::Keep;
    }
    if find_reaches_construction(&a, &b) {
        return Verdict::Rebuild;
    }
    let text: bool = a.names.font != b.names.font || a.names.text != b.names.text;
    if snapshot.contributors.contains(&key) {
        if text {
            return Verdict::Rebuild;
        }
        return Verdict::Refresh;
    }
    match tree.box_for_node(node) {
        None => Verdict::Refresh,
        Some(id) => {
            if find_in_table_grid(tree, id) || (text && find_holds_text(tree, id)) {
                return Verdict::Rebuild;
            }
            Verdict::Restyle(id)
        },
    }
}

/// The box `a` is the box `b` or one that it lies in.
pub open spec fn is_over(tree: LayoutTree, a: int, b: int) -> bool
    decreases b,
{
    a == b || (0 <= b < tree.boxes@.len() && match tree.boxes@[b].parent {
        Some(p) => p.0 < b && is_over(tree, a, p.0 as int),
        None => false,
    })
}

/// The parent of a box that lies over another lies over that one too.
proof fn over_goes_up(tree: LayoutTree, a: int, b: int)
    requires
        tree.wf(),
        0 <= b < tree.boxes@.len(),
        is_over(tree, a, b),
        tree.boxes@[a].parent is Some,
    ensures
        is_over(tree, tree.boxes@[a].parent->Some_0.0 as int, b),
    decreases b,
{
    assert(tree.links_ok(b));
    if a == b {
        let p = tree.boxes@[a].parent->Some_0.0 as int;
        assert(is_over(tree, p, p));
    } else {
        let p = tree.boxes@[b].parent->Some_0;
        over_goes_up(tree, a, p.0 as int);
    }
}

/// Being over depends on the shape of a tree alone.
proof fn lemma_over_by_shape(s: LayoutTree, t: LayoutTree, a: int, b: int)
    requires
        same_shape(s, t),
    ensures
        is_over(s, a, b) == is_over(t, a, b),
    decreases b,
{
    if a != b && 0 <= b < s.boxes@.len() {
        assert(same_links(s.boxes@[b], t.boxes@[b]));
        match s.boxes@[b].parent {
            Some(p) => if p.0 < b {
                lemma_over_by_shape(s, t, a, p.0 as int);
            },
            None => {},
        }
    }
}

fn mark_stale(tree: &mut LayoutTree, id: BoxId)
    requires
        old(tree).wf(),
        old(tree).has(id),
    ensures
        final(tree).wf(),
        same_shape(*old(tree), *final(tree)),
        *final(tree) == (LayoutTree { boxes: final(tree).boxes, ..*old(tree) }),
        forall|i: int|
            0 <= i < old(tree).boxes@.len() ==> #[trigger] final(tree).boxes@[i] == (LayoutBox {
                stale: old(tree).boxes@[i].stale || is_over(*old(tree), i, id.0 as int),
                ..old(tree).boxes@[i]
            }),
{
    let ghost start = *tree;
    let mut at: usize = id.index();
    let mut more: bool = true;
    while more
        invariant
            start == *old(tree),
            start.wf(),
            start.has(id),
            tree.wf(),
            same_shape(start, *tree),
            *tree == (LayoutTree { boxes: tree.boxes, ..start }),
            more ==> at < start.boxes@.len(),
            forall|i: int|
                0 <= i < start.boxes@.len() ==> #[trigger] tree.boxes@[i] == (LayoutBox {
                    stale: tree.boxes@[i].stale,
                    ..start.boxes@[i]
                }),
            forall|i: int|
                0 <= i < start.boxes@.len() ==> (start.boxes@[i].stale || is_over(
                    start,
                    i,
                    id.0 as int,
                )) == ((#[trigger] tree.boxes@[i]).stale || (more && is_over(
                    start,
                    i,
                    at as int,
                ))),
        decreases
                if more {
                    at + 1
                } else {
                    0
                },
    {
        let ghost last = *tree;
        assert(start.links_ok(at as int));
        tree.boxes[at].stale = true;
        proof {
            assert(same_shape(last, *tree));
            assert forall|i: int| 0 <= i < start.boxes@.len() implies same_links(
                #[trigger] start.boxes@[i],
                tree.boxes@[i],
            ) by {
                assert(same_links(start.boxes@[i], last.boxes@[i]));
            }
            shape_decides_wf(start, *tree);
            assert(tree.boxes@[at as int].parent == start.boxes@[at as int].parent);
        }
        let up: Option<BoxId> = tree.boxes[at].parent;
        let ghost was = at;
        match up {
            Some(p) => {
                at = p.index();
            },
            None => {
                more = false;
            },
        }
        proof {
            assert forall|i: int| 0 <= i < start.boxes@.len() implies (start.boxes@[i].stale
                || is_over(start, i, id.0 as int)) == ((#[trigger] tree.boxes@[i]).stale || (more
                && is_over(start, i, at as int))) by {
                assert(last.boxes@[i].stale == last.boxes@[i].stale);
                if i != was {
                    assert(tree.boxes@[i] == last.boxes@[i]);
                }
            }
        }
    }
}

/// The patches that the first `n` restyled nodes ask for: the boxes that take new values.
pub open spec fn is_restyled(
    tree: LayoutTree,
    snapshot: BuildSnapshot,
    doc: Styled,
    restyled: Seq<NodeId>,
    n: int,
    i: int,
) -> bool {
    exists|k: int|
        0 <= k < n && verdict(tree, snapshot, doc, #[trigger] restyled[k]) == Verdict::Restyle(
            BoxId(i as u32),
        )
}

/// The grid properties of an element of the document.
pub open spec fn current_grid(doc: Styled, node: NodeId) -> GridValues {
    match doc.dom.position(node) {
        Some(i) => doc.styles@[i as int].grid@,
        None => no_grid(),
    }
}

/// With the values `now` in place of `was`, and with the given grid properties, the layout
/// algorithms read anything else of the box than they did.
pub open spec fn gives_other(b: LayoutBox, was: Recorded, now: Recorded, grid: GridValues) -> bool {
    ||| b.style != layout_style(now.values)
    ||| b.grid@ != limited_grid(grid)
    ||| was.names.boxes != now.names.boxes
}

/// A restyled node changes what the layout algorithms are given of its box, and the box `i`
/// lies over that one.
pub open spec fn affects(
    tree: LayoutTree,
    snapshot: BuildSnapshot,
    doc: Styled,
    node: NodeId,
    i: int,
) -> bool {
    match verdict(tree, snapshot, doc, node) {
        Verdict::Restyle(id) => gives_other(
            tree.at(id),
            snapshot.record(node)->Some_0,
            current(doc, node)->Some_0,
            current_grid(doc, node),
        ) && is_over(tree, i, id.0 as int),
        _ => false,
    }
}

/// What was cached for the box `i` is out of date for one of the first `n` restyled nodes.
pub open spec fn is_affected(
    tree: LayoutTree,
    snapshot: BuildSnapshot,
    doc: Styled,
    restyled: Seq<NodeId>,
    n: int,
    i: int,
) -> bool {
    exists|k: int| 0 <= k < n && affects(tree, snapshot, doc, #[trigger] restyled[k], i)
}

/// Two boxes differ at most in the values that they carry and in whether what was cached for
/// them is out of date.
pub open spec fn only_values_differ(a: LayoutBox, b: LayoutBox) -> bool {
    b == (LayoutBox {
        style: b.style,
        grid: b.grid,
        font_size: b.font_size,
        line_height: b.line_height,
        position: b.position,
        z_index: b.z_index,
        pointer_events_none: b.pointer_events_none,
        has_transform: b.has_transform,
        order: b.order,
        intrinsic_size_keywords: b.intrinsic_size_keywords,
        stale: b.stale,
        ..a
    })
}

/// The box `after` is the box `i` with what the first `n` restyled nodes make of it.
pub open spec fn box_is_patched(
    tree: LayoutTree,
    snapshot: BuildSnapshot,
    doc: Styled,
    restyled: Seq<NodeId>,
    n: int,
    i: int,
    after: LayoutBox,
) -> bool {
    let before = tree.boxes@[i];
    &&& after.stale == (before.stale || is_affected(tree, snapshot, doc, restyled, n, i))
    &&& if is_restyled(tree, snapshot, doc, restyled, n, i) {
        let values = current(doc, before.dom_node->Some_0)->Some_0.values;
        &&& after.style == layout_style(values)
        &&& after.grid@ == limited_grid(current_grid(doc, before.dom_node->Some_0))
        &&& carries(after, values)
        &&& only_values_differ(before, after)
    } else {
        after == (LayoutBox { stale: after.stale, ..before })
    }
}

/// A restyled node has its new values recorded.
pub open spec fn refreshes(v: Verdict) -> bool {
    v is Refresh || v is Restyle
}

/// The record of `node` after the first `n` restyled nodes.
pub open spec fn patched_record(
    tree: LayoutTree,
    snapshot: BuildSnapshot,
    doc: Styled,
    restyled: Seq<NodeId>,
    n: int,
    node: NodeId,
) -> Option<Recorded> {
    if restyled.take(n).contains(node) && refreshes(verdict(tree, snapshot, doc, node)) {
        current(doc, node)
    } else {
        snapshot.record(node)
    }
}

proof fn lemma_verdict_names_its_box(
    tree: LayoutTree,
    snapshot: BuildSnapshot,
    doc: Styled,
    node: NodeId,
)
    requires
        tree.wf(),
    ensures
        match verdict(tree, snapshot, doc, node) {
            Verdict::Restyle(id) => tree.has(id) && tree.at(id).dom_node == Some(node) && current(
                doc,
                node,
            ) is Some && snapshot.record(node) is Some,
            Verdict::Refresh => current(doc, node) is Some,
            _ => true,
        },
{
    match tree.principal(node) {
        Some(id) => {
            assert(tree.node_to_box@.contains_key(node.key()));
            node_keys_are_distinct(tree.at(id).dom_node->Some_0, node);
        },
        None => {},
    }
}

fn give_values(b: &mut LayoutBox, was: &Recorded, now: &Recorded, grid: &GridStyle) -> (changed:
    bool)
    ensures
        changed == gives_other(*old(b), *was, *now, grid@),
        final(b).style == layout_style(now.values),
        final(b).grid@ == limited_grid(grid@),
        carries(*final(b), now.values),
        only_values_differ(*old(b), *final(b)),
        final(b).stale == old(b).stale,
        same_links(*old(b), *final(b)),
{
    let (style, limited): (BoxStyle, GridStyle) = taffy_style_for(&now.values, grid);
    let changed: bool = b.style != style || !b.grid.same(&limited) || was.names.boxes
        != now.names.boxes;
    b.style = style;
    b.grid = limited;
    capture_text_fields(b, &now.values);
    changed
}

fn set_values(
    tree: &mut LayoutTree,
    id: BoxId,
    was: &Recorded,
    now: &Recorded,
    grid: &GridStyle,
) -> (changed: bool)
    requires
        old(tree).wf(),
        old(tree).has(id),
    ensures
        changed == gives_other(old(tree).at(id), *was, *now, grid@),
        final(tree).wf(),
        same_shape(*old(tree), *final(tree)),
        *final(tree) == (LayoutTree { boxes: final(tree).boxes, ..*old(tree) }),
        final(tree).boxes@ == old(tree).boxes@.update(id.0 as int, final(tree).at(id)),
        final(tree).at(id).style == layout_style(now.values),
        final(tree).at(id).grid@ == limited_grid(grid@),
        carries(final(tree).at(id), now.values),
        only_values_differ(old(tree).at(id), final(tree).at(id)),
        final(tree).at(id).stale == old(tree).at(id).stale,
{
    let ghost start = *tree;
    let i: usize = id.index();
    let changed: bool = give_values(&mut tree.boxes[i], was, now, grid);
    proof {
        assert(tree.boxes@ =~= start.boxes@.update(i as int, tree.boxes@[i as int]));
        assert(same_links(start.boxes@[i as int], tree.boxes@[i as int]));
        assert(same_shape(start, *tree));
        shape_decides_wf(start, *tree);
    }
    changed
}

proof fn lemma_same_shape_twice(a: LayoutTree, b: LayoutTree, c: LayoutTree)
    requires
        same_shape(a, b),
        same_shape(b, c),
    ensures
        same_shape(a, c),
{
    assert forall|j: int| 0 <= j < a.boxes@.len() implies same_links(
        #[trigger] a.boxes@[j],
        c.boxes@[j],
    ) by {
        assert(same_links(a.boxes@[j], b.boxes@[j]));
        assert(same_links(b.boxes@[j], c.boxes@[j]));
    }
}

proof fn lemma_stale_keeps_values(a: LayoutBox, b: LayoutBox, c: LayoutBox, values: ComputedStyle)
    requires
        only_values_differ(a, b),
        carries(b, values),
        c == (LayoutBox { stale: c.stale, ..b }),
    ensures
        only_values_differ(a, c),
        carries(c, values),
        c.style == b.style,
        c.grid == b.grid,
{
}

/// Gives a box its new values, and marks it and what it lies in as out of date if the layout
/// algorithms are given other ones.
fn restyle_box(
    tree: &mut LayoutTree,
    id: BoxId,
    was: &Recorded,
    now: &Recorded,
    grid: &GridStyle,
)
    requires
        old(tree).wf(),
        old(tree).has(id),
    ensures
        final(tree).wf(),
        same_shape(*old(tree), *final(tree)),
        *final(tree) == (LayoutTree { boxes: final(tree).boxes, ..*old(tree) }),
        forall|i: int|
            0 <= i < old(tree).boxes@.len() ==> (#[trigger] final(tree).boxes@[i]).stale == (old(
                tree,
            ).boxes@[i].stale || (gives_other(old(tree).at(id), *was, *now, grid@) && is_over(
                *old(tree),
                i,
                id.0 as int,
            ))),
        forall|i: int|
            0 <= i < old(tree).boxes@.len() && i != id.0 ==> #[trigger] final(tree).boxes@[i] == (
            LayoutBox { stale: final(tree).boxes@[i].stale, ..old(tree).boxes@[i] }),
        final(tree).at(id).style == layout_style(now.values),
        final(tree).at(id).grid@ == limited_grid(grid@),
        carries(final(tree).at(id), now.values),
        only_values_differ(old(tree).at(id), final(tree).at(id)),
{
    let ghost start = *tree;
    let changed: bool = set_values(tree, id, was, now, grid);
    let ghost middle = *tree;
    if changed {
        mark_stale(tree, id);
        proof {
            lemma_same_shape_twice(start, middle, *tree);
            let i = id.0 as int;
            assert(tree.boxes@[i] == (LayoutBox {
                stale: tree.boxes@[i].stale,
                ..middle.boxes@[i]
            }));
            lemma_stale_keeps_values(start.boxes@[i], middle.boxes@[i], tree.boxes@[i], now.values);
            assert forall|j: int| 0 <= j < start.boxes@.len() implies (
            #[trigger] tree.boxes@[j]).stale == (start.boxes@[j].stale || is_over(start, j, i)) by {
                lemma_over_by_shape(start, middle, j, i);
                assert(middle.boxes@[j].stale == start.boxes@[j].stale);
            }
        }
    }
}

/// The document has a shadow tree.
pub open spec fn has_shadow_roots(doc: Styled) -> bool {
    exists|i: int|
        0 <= i < doc.dom.nodes@.len() && (#[trigger] doc.dom.nodes@[i]).shadow_host is Some
}

fn find_shadow_roots(doc: &Styled) -> (r: bool)
    ensures
        r == has_shadow_roots(*doc),
{
    let mut i: usize = 0;
    while i < doc.dom.nodes.len()
        invariant
            i <= doc.dom.nodes@.len(),
            forall|j: int|
                0 <= j < i ==> (#[trigger] doc.dom.nodes@[j]).shadow_host is None,
        decreases doc.dom.nodes.len() - i,
    {
        if doc.dom.nodes[i].shadow_host.is_some() {
            assert(doc.dom.nodes@[i as int].shadow_host is Some);
            return true;
        }
        i = i + 1;
    }
    false
}

/// The restyled nodes can be patched in: the document's structure, its images and its fonts
/// are those of the build, no shadow tree hides a change from the record, and no node asks for
/// a new tree.
pub open spec fn can_patch(
    tree: LayoutTree,
    snapshot: BuildSnapshot,
    doc: Styled,
    structure_version: u64,
    images_version: u64,
    fonts_version: u64,
    restyled: Seq<NodeId>,
) -> bool {
    &&& snapshot.structure_version == structure_version
    &&& tree.root is Some
    &&& !has_shadow_roots(doc)
    &&& snapshot.images_version == images_version
    &&& snapshot.fonts_version == fonts_version
    &&& forall|k: int|
        0 <= k < restyled.len() ==> !(verdict(tree, snapshot, doc, #[trigger] restyled[k])
            is Rebuild)
}

/// The verdicts on all restyled nodes, or nothing if one asks for a new tree.
fn judge_all(
    tree: &LayoutTree,
    snapshot: &BuildSnapshot,
    doc: &Styled,
    restyled: &Vec<NodeId>,
) -> (r: Option<Vec<Verdict>>)
    requires
        tree.wf(),
        doc.wf(),
    ensures
        r is Some <==> forall|k: int|
            0 <= k < restyled@.len() ==> !(verdict(
                *tree,
                *snapshot,
                *doc,
                #[trigger] restyled@[k],
            ) is Rebuild),
        match r {
            Some(list) => list@.len() == restyled@.len() && forall|k: int|
                0 <= k < restyled@.len() ==> list@[k] == verdict(
                    *tree,
                    *snapshot,
                    *doc,
                    #[trigger] restyled@[k],
                ),
            None => true,
        },
{
    let mut list: Vec<Verdict> = Vec::new();
    let mut k: usize = 0;
    while k < restyled.len()
        invariant
            k <= restyled@.len(),
            list@.len() == k,
            tree.wf(),
            doc.wf(),
            forall|j: int|
                0 <= j < k ==> list@[j] == verdict(*tree, *snapshot, *doc, #[trigger] restyled@[j])
                    && !(list@[j] is Rebuild),
        decreases restyled.len() - k,
    {
        let v: Verdict = judge(tree, snapshot, doc, restyled[k]);
        if v == Verdict::Rebuild {
            assert(verdict(*tree, *snapshot, *doc, restyled@[k as int]) is Rebuild);
            return None;
        }
        list.push(v);
        k = k + 1;
    }
    Some(list)
}

/// What one more restyled node makes of a box, if it asks for no new values.
proof fn lemma_step_keeps(
    tree: LayoutTree,
    snapshot: BuildSnapshot,
    doc: Styled,
    restyled: Seq<NodeId>,
    n: int,
    i: int,
)
    requires
        0 <= n < restyled.len(),
        !(verdict(tree, snapshot, doc, restyled[n]) is Restyle),
    ensures
        is_restyled(tree, snapshot, doc, restyled, n + 1, i) == is_restyled(
            tree,
            snapshot,
            doc,
            restyled,
            n,
            i,
        ),
        is_affected(tree, snapshot, doc, restyled, n + 1, i) == is_affected(
            tree,
            snapshot,
            doc,
            restyled,
            n,
            i,
        ),
{
    if is_restyled(tree, snapshot, doc, restyled, n + 1, i) {
        let k = choose|k: int|
            0 <= k < n + 1 && verdict(tree, snapshot, doc, #[trigger] restyled[k])
                == Verdict::Restyle(BoxId(i as u32));
        assert(k < n);
        assert(verdict(tree, snapshot, doc, restyled[k]) == Verdict::Restyle(BoxId(i as u32)));
    }
    if is_affected(tree, snapshot, doc, restyled, n + 1, i) {
        let k = choose|k: int|
            0 <= k < n + 1 && affects(tree, snapshot, doc, #[trigger] restyled[k], i);
        assert(k < n);
        assert(affects(tree, snapshot, doc, restyled[k], i));
    }
    if is_restyled(tree, snapshot, doc, restyled, n, i) {
        let k = choose|k: int|
            0 <= k < n && verdict(tree, snapshot, doc, #[trigger] restyled[k]) == Verdict::Restyle(
                BoxId(i as u32),
            );
        assert(0 <= k < n + 1 && verdict(tree, snapshot, doc, restyled[k]) == Verdict::Restyle(
            BoxId(i as u32),
        ));
    }
    if is_affected(tree, snapshot, doc, restyled, n, i) {
        let k = choose|k: int|
            0 <= k < n && affects(tree, snapshot, doc, #[trigger] restyled[k], i);
        assert(0 <= k < n + 1 && affects(tree, snapshot, doc, restyled[k], i));
    }
}

/// Which boxes are restyled and affected, after one more restyled node that gives new values
/// to the box `id`.
proof fn lemma_step_restyles(
    tree: LayoutTree,
    snapshot: BuildSnapshot,
    doc: Styled,
    restyled: Seq<NodeId>,
    n: int,
    id: BoxId,
    i: int,
)
    requires
        tree.wf(),
        0 <= n < restyled.len(),
        0 <= i < tree.boxes@.len(),
        verdict(tree, snapshot, doc, restyled[n]) == Verdict::Restyle(id),
    ensures
        tree.has(id),
        tree.at(id).dom_node == Some(restyled[n]),
        is_restyled(tree, snapshot, doc, restyled, n + 1, i) == (i == id.0 || is_restyled(
            tree,
            snapshot,
            doc,
            restyled,
            n,
            i,
        )),
        is_affected(tree, snapshot, doc, restyled, n + 1, i) == (affects(
            tree,
            snapshot,
            doc,
            restyled[n],
            i,
        ) || is_affected(tree, snapshot, doc, restyled, n, i)),
        is_restyled(tree, snapshot, doc, restyled, n, id.0 as int) && affects(
            tree,
            snapshot,
            doc,
            restyled[n],
            i,
        ) ==> is_affected(tree, snapshot, doc, restyled, n, i),
{
    lemma_verdict_names_its_box(tree, snapshot, doc, restyled[n]);
    if is_restyled(tree, snapshot, doc, restyled, n + 1, i) && i != id.0 {
        let k = choose|k: int|
            0 <= k < n + 1 && verdict(tree, snapshot, doc, #[trigger] restyled[k])
                == Verdict::Restyle(BoxId(i as u32));
        assert(k < n);
        assert(verdict(tree, snapshot, doc, restyled[k]) == Verdict::Restyle(BoxId(i as u32)));
    }
    if i == id.0 {
        assert(verdict(tree, snapshot, doc, restyled[n]) == Verdict::Restyle(BoxId(i as u32)));
    }
    if is_restyled(tree, snapshot, doc, restyled, n, i) {
        let k = choose|k: int|
            0 <= k < n && verdict(tree, snapshot, doc, #[trigger] restyled[k]) == Verdict::Restyle(
                BoxId(i as u32),
            );
        assert(0 <= k < n + 1 && verdict(tree, snapshot, doc, restyled[k]) == Verdict::Restyle(
            BoxId(i as u32),
        ));
    }
    if is_affected(tree, snapshot, doc, restyled, n + 1, i) && !affects(
        tree,
        snapshot,
        doc,
        restyled[n],
        i,
    ) {
        let k = choose|k: int|
            0 <= k < n + 1 && affects(tree, snapshot, doc, #[trigger] restyled[k], i);
        assert(k < n);
        assert(affects(tree, snapshot, doc, restyled[k], i));
    }
    if is_affected(tree, snapshot, doc, restyled, n, i) {
        let k = choose|k: int|
            0 <= k < n && affects(tree, snapshot, doc, #[trigger] restyled[k], i);
        assert(0 <= k < n + 1 && affects(tree, snapshot, doc, restyled[k], i));
    }
    if is_restyled(tree, snapshot, doc, restyled, n, id.0 as int) && affects(
        tree,
        snapshot,
        doc,
        restyled[n],
        i,
    ) {
        let k = choose|k: int|
            0 <= k < n && verdict(tree, snapshot, doc, #[trigger] restyled[k]) == Verdict::Restyle(
                BoxId(id.0 as int as u32),
            );
        lemma_verdict_names_its_box(tree, snapshot, doc, restyled[k]);
        assert(restyled[k] == restyled[n]);
        assert(affects(tree, snapshot, doc, restyled[k], i));
    }
}

/// What is recorded of a node when its turn comes: the new values if it had one before, and
/// the old ones otherwise.
proof fn lemma_recorded_before(
    tree: LayoutTree,
    snapshot: BuildSnapshot,
    doc: Styled,
    restyled: Seq<NodeId>,
    n: int,
    id: BoxId,
)
    requires
        tree.wf(),
        0 <= n < restyled.len(),
        verdict(tree, snapshot, doc, restyled[n]) == Verdict::Restyle(id),
    ensures
        patched_record(tree, snapshot, doc, restyled, n, restyled[n]) == if is_restyled(
            tree,
            snapshot,
            doc,
            restyled,
            n,
            id.0 as int,
        ) {
            current(doc, restyled[n])
        } else {
            snapshot.record(restyled[n])
        },
{
    let before = restyled.take(n);
    lemma_verdict_names_its_box(tree, snapshot, doc, restyled[n]);
    if is_restyled(tree, snapshot, doc, restyled, n, id.0 as int) {
        let k = choose|k: int|
            0 <= k < n && verdict(tree, snapshot, doc, #[trigger] restyled[k]) == Verdict::Restyle(
                BoxId(id.0 as int as u32),
            );
        lemma_verdict_names_its_box(tree, snapshot, doc, restyled[k]);
        assert(before[k] == restyled[n]);
        assert(before.contains(restyled[n]));
    } else if before.contains(restyled[n]) {
        let k = choose|k: int| 0 <= k < before.len() && before[k] == restyled[n];
        assert(restyled[k] == restyled[n]);
        assert(verdict(tree, snapshot, doc, restyled[k]) == Verdict::Restyle(
            BoxId(id.0 as int as u32),
        ));
    }
}

/// One more restyled node makes out of date what [`affects`] says, also where the tree has
/// been patched for the nodes before it.
proof fn lemma_stale_step(
    tree: LayoutTree,
    snapshot: BuildSnapshot,
    doc: Styled,
    restyled: Seq<NodeId>,
    n: int,
    id: BoxId,
    i: int,
    was: Recorded,
    middle: LayoutTree,
)
    requires
        tree.wf(),
        0 <= n < restyled.len(),
        patched_record(tree, snapshot, doc, restyled, n, restyled[n]) == Some(was),
        0 <= i < tree.boxes@.len(),
        verdict(tree, snapshot, doc, restyled[n]) == Verdict::Restyle(id),
        same_shape(tree, middle),
        box_is_patched(tree, snapshot, doc, restyled, n, id.0 as int, middle.boxes@[id.0 as int]),
    ensures
        is_affected(tree, snapshot, doc, restyled, n + 1, i) == (is_affected(
            tree,
            snapshot,
            doc,
            restyled,
            n,
            i,
        ) || (gives_other(
            middle.at(id),
            was,
            current(doc, restyled[n])->Some_0,
            current_grid(doc, restyled[n]),
        ) && is_over(middle, i, id.0 as int))),
{
    lemma_step_restyles(tree, snapshot, doc, restyled, n, id, i);
    lemma_over_by_shape(tree, middle, i, id.0 as int);
    lemma_recorded_before(tree, snapshot, doc, restyled, n, id);
    lemma_verdict_names_its_box(tree, snapshot, doc, restyled[n]);
    if is_restyled(tree, snapshot, doc, restyled, n, id.0 as int) {
        assert(!gives_other(
            middle.at(id),
            was,
            current(doc, restyled[n])->Some_0,
            current_grid(doc, restyled[n]),
        ));
    } else {
        assert(middle.at(id).style == tree.at(id).style);
        assert(middle.at(id).grid == tree.at(id).grid);
    }
}

/// One box after one more restyled node that gives new values to the box `id`: `middle` and
/// `after` are the trees before and after that node.
proof fn lemma_box_step(
    tree: LayoutTree,
    snapshot: BuildSnapshot,
    doc: Styled,
    restyled: Seq<NodeId>,
    n: int,
    id: BoxId,
    i: int,
    was: Recorded,
    middle: LayoutTree,
    after: LayoutTree,
)
    requires
        tree.wf(),
        0 <= n < restyled.len(),
        patched_record(tree, snapshot, doc, restyled, n, restyled[n]) == Some(was),
        0 <= i < tree.boxes@.len(),
        verdict(tree, snapshot, doc, restyled[n]) == Verdict::Restyle(id),
        same_shape(tree, middle),
        after.boxes@.len() == middle.boxes@.len(),
        box_is_patched(tree, snapshot, doc, restyled, n, i, middle.boxes@[i]),
        box_is_patched(tree, snapshot, doc, restyled, n, id.0 as int, middle.boxes@[id.0 as int]),
        ({
            let now = current(doc, restyled[n])->Some_0;
            let values = now.values;
            let grid = current_grid(doc, restyled[n]);
            &&& after.boxes@[i].stale == (middle.boxes@[i].stale || (gives_other(
                middle.at(id),
                was,
                now,
                grid,
            ) && is_over(middle, i, id.0 as int)))
            &&& i != id.0 ==> after.boxes@[i] == (LayoutBox {
                stale: after.boxes@[i].stale,
                ..middle.boxes@[i]
            })
            &&& i == id.0 ==> {
                &&& after.boxes@[i].style == layout_style(values)
                &&& after.boxes@[i].grid@ == limited_grid(grid)
                &&& carries(after.boxes@[i], values)
                &&& only_values_differ(middle.boxes@[i], after.boxes@[i])
            }
        }),
    ensures
        box_is_patched(tree, snapshot, doc, restyled, n + 1, i, after.boxes@[i]),
{
    lemma_step_restyles(tree, snapshot, doc, restyled, n, id, i);
    lemma_step_restyles(tree, snapshot, doc, restyled, n, id, id.0 as int);
    lemma_stale_step(tree, snapshot, doc, restyled, n, id, i, was, middle);
}

/// Refreshes the record of a restyled node.
fn refresh(snapshot: &mut BuildSnapshot, node: NodeId, recorded: Recorded)
    ensures
        *final(snapshot) == (BuildSnapshot { styles: final(snapshot).styles, ..*old(snapshot) }),
        forall|other: NodeId| #[trigger]
            final(snapshot).record(other) == if other == node {
                Some(recorded)
            } else {
                old(snapshot).record(other)
            },
{
    snapshot.styles.insert(node.to_key(), recorded);
    proof {
        assert forall|other: NodeId| #[trigger]
            snapshot.record(other) == (if other == node {
                Some(recorded)
            } else {
                old(snapshot).record(other)
            }) by {
            node_keys_are_distinct(other, node);
        }
    }
}

proof fn lemma_record_step(
    tree: LayoutTree,
    snapshot: BuildSnapshot,
    doc: Styled,
    restyled: Seq<NodeId>,
    n: int,
    node: NodeId,
)
    requires
        0 <= n < restyled.len(),
    ensures
        patched_record(tree, snapshot, doc, restyled, n + 1, node) == if node == restyled[n]
            && refreshes(verdict(tree, snapshot, doc, node)) {
            current(doc, node)
        } else {
            patched_record(tree, snapshot, doc, restyled, n, node)
        },
{
    let shorter = restyled.take(n);
    let longer = restyled.take(n + 1);
    assert(longer =~= shorter.push(restyled[n]));
    if longer.contains(node) && node != restyled[n] {
        let k = choose|k: int| 0 <= k < longer.len() && longer[k] == node;
        assert(shorter[k] == node);
    }
    if shorter.contains(node) {
        let k = choose|k: int| 0 <= k < shorter.len() && shorter[k] == node;
        assert(longer[k] == node);
    }
    if node == restyled[n] {
        assert(longer[n] == node);
        assert(longer.contains(node));
    }
}

/// Takes the restyled nodes into the box tree in place, if they can be. Otherwise nothing
/// changes, and a new tree is to be built.
pub fn try_patch(
    tree: &mut LayoutTree,
    snapshot: &mut BuildSnapshot,
    doc: &Styled,
    structure_version: u64,
    images_version: u64,
    fonts_version: u64,
    restyled: &Vec<NodeId>,
) -> (r: bool)
    requires
        old(tree).wf(),
        doc.wf(),
    ensures
        r == can_patch(
            *old(tree),
            *old(snapshot),
            *doc,
            structure_version,
            images_version,
            fonts_version,
            restyled@,
        ),
        !r ==> *final(tree) == *old(tree) && *final(snapshot) == *old(snapshot),
        final(tree).wf(),
        same_shape(*old(tree), *final(tree)),
        r ==> forall|i: int|
            0 <= i < old(tree).boxes@.len() ==> box_is_patched(
                *old(tree),
                *old(snapshot),
                *doc,
                restyled@,
                restyled@.len() as int,
                i,
                #[trigger] final(tree).boxes@[i],
            ),
        r ==> *final(snapshot) == (BuildSnapshot {
            styles: final(snapshot).styles,
            ..*old(snapshot)
        }),
        r ==> forall|node: NodeId| #[trigger]
            final(snapshot).record(node) == patched_record(
                *old(tree),
                *old(snapshot),
                *doc,
                restyled@,
                restyled@.len() as int,
                node,
            ),
{
    if snapshot.structure_version != structure_version || tree.root.is_none() {
        return false;
    }
    if find_shadow_roots(doc) {
        return false;
    }
    if snapshot.images_version != images_version || snapshot.fonts_version != fonts_version {
        return false;
    }
    let verdicts: Vec<Verdict> = match judge_all(tree, snapshot, doc, restyled) {
        Some(verdicts) => verdicts,
        None => {
            return false;
        },
    };
    let ghost start = *tree;
    let ghost record = *snapshot;
    proof {
        assert forall|i: int| 0 <= i < start.boxes@.len() implies box_is_patched(
            start,
            record,
            *doc,
            restyled@,
            0,
            i,
            #[trigger] tree.boxes@[i],
        ) by {
            assert(!is_restyled(start, record, *doc, restyled@, 0, i));
            assert(!is_affected(start, record, *doc, restyled@, 0, i));
        }
        assert forall|node: NodeId| #[trigger]
            snapshot.record(node) == patched_record(start, record, *doc, restyled@, 0, node) by {
            assert(!restyled@.take(0).contains(node));
        }
    }
    let mut k: usize = 0;
    while k < restyled.len()
        invariant
            k <= restyled@.len(),
            start == *old(tree),
            record == *old(snapshot),
            start.wf(),
            doc.wf(),
            tree.wf(),
            same_shape(start, *tree),
            verdicts@.len() == restyled@.len(),
            forall|j: int|
                0 <= j < restyled@.len() ==> verdicts@[j] == verdict(
                    start,
                    record,
                    *doc,
                    #[trigger] restyled@[j],
                ),
            forall|i: int|
                0 <= i < start.boxes@.len() ==> box_is_patched(
                    start,
                    record,
                    *doc,
                    restyled@,
                    k as int,
                    i,
                    #[trigger] tree.boxes@[i],
                ),
            *snapshot == (BuildSnapshot { styles: snapshot.styles, ..record }),
            forall|node: NodeId| #[trigger]
                snapshot.record(node) == patched_record(
                    start,
                    record,
                    *doc,
                    restyled@,
                    k as int,
                    node,
                ),
        decreases restyled.len() - k,
    {
        let node: NodeId = restyled[k];
        let v: Verdict = verdicts[k];
        assert(verdicts@[k as int] == verdict(start, record, *doc, restyled@[k as int]));
        let ghost middle = *tree;
        let ghost last = *snapshot;
        proof {
            lemma_verdict_names_its_box(start, record, *doc, node);
        }
        if let Verdict::Restyle(id) = v {
            if let Some(recorded) = find_current(doc, node) {
                let none: GridStyle = GridStyle::initial();
                let grid: &GridStyle = match doc.dom.find(node) {
                    Some(i) => &doc.styles[i].grid,
                    None => &none,
                };
                let was: Recorded = match snapshot.styles.get(&node.to_key()) {
                    Some(was) => *was,
                    None => recorded,
                };
                proof {
                    assert(last.record(node) == patched_record(
                        start,
                        record,
                        *doc,
                        restyled@,
                        k as int,
                        node,
                    ));
                }
                restyle_box(tree, id, &was, &recorded, grid);
                proof {
                    lemma_same_shape_twice(start, middle, *tree);
                    assert forall|i: int| 0 <= i < start.boxes@.len() implies box_is_patched(
                        start,
                        record,
                        *doc,
                        restyled@,
                        k + 1,
                        i,
                        #[trigger] tree.boxes@[i],
                    ) by {
                        assert(box_is_patched(
                            start,
                            record,
                            *doc,
                            restyled@,
                            k as int,
                            i,
                            middle.boxes@[i],
                        ));
                        assert(box_is_patched(
                            start,
                            record,
                            *doc,
                            restyled@,
                            k as int,
                            id.0 as int,
                            middle.boxes@[id.0 as int],
                        ));
                        lemma_box_step(
                            start,
                            record,
                            *doc,
                            restyled@,
                            k as int,
                            id,
                            i,
                            was,
                            middle,
                            *tree,
                        );
                    }
                }
            }
        } else {
            proof {
                assert forall|i: int| 0 <= i < start.boxes@.len() implies box_is_patched(
                    start,
                    record,
                    *doc,
                    restyled@,
                    k + 1,
                    i,
                    #[trigger] tree.boxes@[i],
                ) by {
                    lemma_step_keeps(start, record, *doc, restyled@, k as int, i);
                }
            }
        }
        if matches!(v, Verdict::Refresh | Verdict::Restyle(_)) {
            if let Some(recorded) = find_current(doc, node) {
                refresh(snapshot, node, recorded);
            }
        }
        proof {
            assert forall|other: NodeId| #[trigger]
                snapshot.record(other) == patched_record(
                    start,
                    record,
                    *doc,
                    restyled@,
                    k + 1,
                    other,
                ) by {
                lemma_record_step(start, record, *doc, restyled@, k as int, other);
                assert(last.record(other) == patched_record(
                    start,
                    record,
                    *doc,
                    restyled@,
                    k as int,
                    other,
                ));
            }
        }
        k = k + 1;
    }
    true
}

/// A node whose values have been recorded asks for nothing more.
pub proof fn recorded_values_ask_for_nothing(
    tree: LayoutTree,
    snapshot: BuildSnapshot,
    doc: Styled,
    node: NodeId,
)
    requires
        current(doc, node) is Some,
        snapshot.record(node) == current(doc, node),
    ensures
        verdict(tree, snapshot, doc, node) is Keep,
{
}

/// Boxes whose grids are within the limit have such grids after a patch.
pub proof fn patched_grids_are_limited(
    tree: LayoutTree,
    snapshot: BuildSnapshot,
    doc: Styled,
    restyled: Seq<NodeId>,
    i: int,
    after: LayoutBox,
)
    requires
        is_limited(tree.boxes@[i].grid@),
        box_is_patched(tree, snapshot, doc, restyled, restyled.len() as int, i, after),
    ensures
        is_limited(after.grid@),
{
    grids_are_limited(current_grid(doc, tree.boxes@[i].dom_node->Some_0));
}

/// Where the layout algorithms are given the same as before, as for a change of colour, all
/// that they have cached stands.
pub proof fn painting_changes_keep_what_is_cached(
    tree: LayoutTree,
    snapshot: BuildSnapshot,
    doc: Styled,
    restyled: Seq<NodeId>,
    i: int,
)
    requires
        forall|k: int|
            0 <= k < restyled.len() ==> match verdict(tree, snapshot, doc, #[trigger] restyled[k]) {
                Verdict::Restyle(id) => !gives_other(
                    tree.at(id),
                    snapshot.record(restyled[k])->Some_0,
                    current(doc, restyled[k])->Some_0,
                    current_grid(doc, restyled[k]),
                ),
                _ => true,
            },
    ensures
        !is_affected(tree, snapshot, doc, restyled, restyled.len() as int, i),
{
}

/// Where the layout algorithms are given anything else, as for another gap between the items of
/// a flex container, what they have cached for the box and for every box around it is out of
/// date.
pub proof fn layout_changes_reach_the_boxes_around(
    tree: LayoutTree,
    snapshot: BuildSnapshot,
    doc: Styled,
    restyled: Seq<NodeId>,
    k: int,
    id: BoxId,
    i: int,
    after: LayoutBox,
)
    requires
        0 <= k < restyled.len(),
        verdict(tree, snapshot, doc, restyled[k]) == Verdict::Restyle(id),
        gives_other(
            tree.at(id),
            snapshot.record(restyled[k])->Some_0,
            current(doc, restyled[k])->Some_0,
            current_grid(doc, restyled[k]),
        ),
        is_over(tree, i, id.0 as int),
        box_is_patched(tree, snapshot, doc, restyled, restyled.len() as int, i, after),
    ensures
        after.stale,
{
    assert(affects(tree, snapshot, doc, restyled[k], i));
}

/// If what was cached for a box is out of date for a restyled node, so is what was cached for
/// the box around it.
pub proof fn what_is_out_of_date_goes_up(
    tree: LayoutTree,
    snapshot: BuildSnapshot,
    doc: Styled,
    node: NodeId,
    i: int,
)
    requires
        tree.wf(),
        affects(tree, snapshot, doc, node, i),
        tree.boxes@[i].parent is Some,
    ensures
        affects(tree, snapshot, doc, node, tree.boxes@[i].parent->Some_0.0 as int),
{
    lemma_verdict_names_its_box(tree, snapshot, doc, node);
    let id = verdict(tree, snapshot, doc, node)->Restyle_0;
    over_goes_up(tree, i, id.0 as int);
}

/// A change of what decides on boxes asks for a new tree: of `display`, `position`, `float`,
/// `order`, of the list style, of columns or of a pseudo-element.
pub proof fn changes_of_structure_ask_for_a_new_tree(
    tree: LayoutTree,
    snapshot: BuildSnapshot,
    doc: Styled,
    node: NodeId,
)
    requires
        snapshot.record(node) is Some,
        current(doc, node) is Some,
        snapshot.record(node)->Some_0.names.all != current(doc, node)->Some_0.names.all,
    ensures
        ({
            let a = snapshot.record(node)->Some_0;
            let b = current(doc, node)->Some_0;
            let v = verdict(tree, snapshot, doc, node);
            &&& a.values.display != b.values.display ==> v is Rebuild
            &&& a.values.position != b.values.position ==> v is Rebuild
            &&& a.values.float != b.values.float ==> v is Rebuild
            &&& a.values.order != b.values.order ==> v is Rebuild
            &&& a.names.list != b.names.list ==> v is Rebuild
            &&& a.names.before != b.names.before ==> v is Rebuild
            &&& a.names.after != b.names.after ==> v is Rebuild
            &&& a.values.multicol.count != b.values.multicol.count ==> v is Rebuild
            &&& a.values.multicol.width != b.values.multicol.width ==> v is Rebuild
        }),
{
}

/// A change of the font or of text values asks for a new tree where the node has a part in a
/// line, and where its box holds lines. So does any change of a table whose element has no part
/// in a line. What else is not rebuilt is given to the box of the node, or only recorded where
/// the node has a part in a line.
pub proof fn changes_of_text_reach_what_is_shaped(
    tree: LayoutTree,
    snapshot: BuildSnapshot,
    doc: Styled,
    node: NodeId,
    id: BoxId,
)
    requires
        snapshot.record(node) is Some,
        current(doc, node) is Some,
        snapshot.record(node)->Some_0.names.all != current(doc, node)->Some_0.names.all,
        tree.principal(node) == Some(id),
    ensures
        ({
            let a = snapshot.record(node)->Some_0;
            let b = current(doc, node)->Some_0;
            let v = verdict(tree, snapshot, doc, node);
            let text = a.names.font != b.names.font || a.names.text != b.names.text;
            let lines = snapshot.contributors@.contains(node.key());
            &&& text && lines ==> v is Rebuild
            &&& text && tree.at(id).ifc is Some ==> v is Rebuild
            &&& !lines && tree.at(id).kind is TableRoot ==> v is Rebuild
            &&& !text && lines && !(v is Rebuild) ==> v is Refresh
            &&& !lines && !(v is Rebuild) ==> v == Verdict::Restyle(id)
        }),
{
}

/// Colours, borders, sizes and whatever else does not decide on boxes or on text are patched
/// in, unless the box is part of a table.
pub proof fn other_changes_are_patched_in(
    tree: LayoutTree,
    snapshot: BuildSnapshot,
    doc: Styled,
    node: NodeId,
    id: BoxId,
)
    requires
        snapshot.record(node) is Some,
        current(doc, node) is Some,
        tree.principal(node) == Some(id),
        !snapshot.contributors@.contains(node.key()),
        tree.at(id).kind != BoxKind::TableRoot,
        tree.at(id).parent is Some ==> tree.at(tree.at(id).parent->Some_0).kind
            != BoxKind::TableRoot,
        ({
            let a = snapshot.record(node)->Some_0;
            let b = current(doc, node)->Some_0;
            &&& a.names.all != b.names.all
            &&& a.names.font == b.names.font
            &&& a.names.text == b.names.text
            &&& a.names.list == b.names.list
            &&& a.names.before == b.names.before
            &&& a.names.after == b.names.after
            &&& a.values.display == b.values.display
            &&& a.values.position == b.values.position
            &&& a.values.float == b.values.float
            &&& a.values.order == b.values.order
            &&& a.values.multicol == b.values.multicol
        }),
    ensures
        verdict(tree, snapshot, doc, node) == Verdict::Restyle(id),
{
}

/// Nothing is patched where the document's structure, its images or its fonts are others than
/// those of the build.
pub proof fn a_new_document_is_built_anew(
    tree: LayoutTree,
    snapshot: BuildSnapshot,
    doc: Styled,
    structure_version: u64,
    images_version: u64,
    fonts_version: u64,
    restyled: Seq<NodeId>,
)
    requires
        snapshot.structure_version != structure_version || snapshot.images_version
            != images_version || snapshot.fonts_version != fonts_version || tree.root is None,
    ensures
        !can_patch(
            tree,
            snapshot,
            doc,
            structure_version,
            images_version,
            fonts_version,
            restyled,
        ),
{
}

} // verus!
