//! Out-of-flow positioning: gives absolutely positioned boxes the containing block that
//! CSS asks for.
//!
//! The layout algorithms lay an out-of-flow box out against its direct parent. CSS asks
//! for the nearest positioned ancestor, or the viewport for `position: fixed`. So before
//! layout each out-of-flow box is re-parented onto its containing block, and after layout
//! the ones with `auto` insets are put back to where they would have sat in the flow.

use vstd::prelude::*;

use crate::tree::{
    same_links, same_shape, shape_decides_wf, BoxId, BoxStyle, CssPosition, Layout, LayoutBox,
    LayoutTree, Placement,
};
use crate::units::{fit, fitted, held, hold, Dimension, Offset, Point};

verus! {

/// How the boxes of a tree are linked.
#[verifier::ext_equal]
pub struct Links {
    pub parent: Seq<Option<BoxId>>,
    pub children: Seq<Seq<BoxId>>,
    pub static_parent: Seq<Option<BoxId>>,
    pub hoisted: Seq<Seq<BoxId>>,
}

/// How the boxes of `tree` are linked.
pub open spec fn links_of(tree: LayoutTree) -> Links {
    Links {
        parent: tree.boxes@.map_values(|b: LayoutBox| b.parent),
        children: tree.boxes@.map_values(|b: LayoutBox| b.children@),
        static_parent: tree.boxes@.map_values(|b: LayoutBox| b.static_parent),
        hoisted: tree.boxes@.map_values(|b: LayoutBox| b.hoisted_children@),
    }
}

/// The box `id` is the content flow of a multi-column container.
pub open spec fn is_flow(tree: LayoutTree, l: Links, id: BoxId) -> bool {
    match l.parent[id.0 as int] {
        Some(p) => match tree.at(p).multicol {
            Some(mc) => mc.flow == id,
            None => false,
        },
        None => false,
    }
}

/// The box `id` is a containing block for out-of-flow boxes of the given scheme: a flow
/// for all of them, a transformed box for all of them, a positioned box for those that
/// are not fixed.
pub open spec fn establishes(tree: LayoutTree, l: Links, id: BoxId, fixed: bool) -> bool {
    is_flow(tree, l, id) || tree.at(id).has_transform || (!fixed && !(tree.at(id).position
        is Static))
}

/// The containing block among `from` and its ancestors: the nearest one that is the root
/// or establishes one, and the root where none does.
pub open spec fn containing_from(
    tree: LayoutTree,
    l: Links,
    from: Option<BoxId>,
    fixed: bool,
    root: BoxId,
) -> BoxId
    decreases
            match from {
                Some(a) => a.0 + 1,
                None => 0,
            },
{
    match from {
        None => root,
        Some(a) => if a == root || establishes(tree, l, a, fixed) {
            a
        } else {
            match l.parent[a.0 as int] {
                Some(p) => if p.0 < a.0 {
                    containing_from(tree, l, Some(p), fixed, root)
                } else {
                    root
                },
                None => root,
            }
        },
    }
}

/// The containing block of an out-of-flow box.
pub open spec fn containing(tree: LayoutTree, l: Links, id: BoxId, root: BoxId) -> BoxId {
    containing_from(tree, l, l.parent[id.0 as int], tree.at(id).position is Fixed, root)
}

/// The box is one that is placed by its containing block: out of the flow, and no outside
/// list marker, which is placed by its item.
pub open spec fn is_positioned_away(b: LayoutBox) -> bool {
    b.style.placement is OutOfFlow && !b.outside_marker()
}

/// `s` without its first `x`.
pub open spec fn without(s: Seq<BoxId>, x: BoxId) -> Seq<BoxId>
    decreases s.len(),
{
    if s.len() == 0 {
        s
    } else if s[0] == x {
        s.skip(1)
    } else {
        seq![s[0]] + without(s.skip(1), x)
    }
}

/// The links after the box `i` was moved onto its containing block, where it has one
/// other than its parent.
pub open spec fn hoist_one(tree: LayoutTree, l: Links, i: int, root: BoxId) -> Links {
    let id = BoxId(i as u32);
    match l.parent[i] {
        Some(parent) => {
            let target = containing(tree, l, id, root);
            if id == root || !is_positioned_away(tree.boxes@[i]) || target == parent {
                l
            } else {
                let p = parent.0 as int;
                let t = target.0 as int;
                let shorter = l.children.update(p, without(l.children[p], id));
                Links {
                    parent: l.parent.update(i, Some(target)),
                    children: shorter.update(t, shorter[t].push(id)),
                    static_parent: l.static_parent.update(i, Some(parent)),
                    hoisted: l.hoisted.update(p, l.hoisted[p].push(id)),
                }
            }
        },
        None => l,
    }
}

/// The links after the first `n` boxes were moved onto their containing blocks, one after
/// the other.
pub open spec fn hoist_all(tree: LayoutTree, n: int, root: BoxId) -> Links
    decreases n,
{
    if n <= 0 {
        links_of(tree)
    } else {
        hoist_one(tree, hoist_all(tree, n - 1, root), n - 1, root)
    }
}

/// The tree `b` differs from `a` only in how its boxes are linked.
pub open spec fn only_links_differ(a: LayoutTree, b: LayoutTree) -> bool {
    &&& a.boxes@.len() == b.boxes@.len()
    &&& a.root == b.root
    &&& a.node_to_box == b.node_to_box
    &&& a.viewport == b.viewport
    &&& forall|i: int|
        0 <= i < a.boxes@.len() ==> #[trigger] b.boxes@[i] == (LayoutBox {
            parent: b.boxes@[i].parent,
            children: b.boxes@[i].children,
            static_parent: b.boxes@[i].static_parent,
            hoisted_children: b.boxes@[i].hoisted_children,
            ..a.boxes@[i]
        })
}

proof fn lemma_without(s: Seq<BoxId>, x: BoxId, k: int)
    requires
        0 <= k < s.len(),
        s[k] == x,
        s.no_duplicates(),
    ensures
        without(s, x) == s.remove(k),
    decreases s.len(),
{
    if s[0] == x {
        assert(k == 0);
        assert(s.skip(1) =~= s.remove(0));
    } else {
        let t = s.skip(1);
        assert(t[k - 1] == x);
        assert(t.no_duplicates()) by {
            assert forall|i: int, j: int| 0 <= i < t.len() && 0 <= j < t.len() && i != j implies t[i]
                != t[j] by {
                assert(s[i + 1] != s[j + 1]);
            }
        }
        lemma_without(t, x, k - 1);
        assert(seq![s[0]] + t.remove(k - 1) =~= s.remove(k));
    }
}

/// Whether `id` establishes a containing block.
fn establishes_containing_block(tree: &LayoutTree, id: BoxId, fixed: bool) -> (r: bool)
    requires
        tree.wf(),
        tree.has(id),
    ensures
        r == establishes(*tree, links_of(*tree), id, fixed),
{
    if tree.multicol_root_of_flow(id).is_some() {
        return true;
    }
    let b: &LayoutBox = tree.box_(id);
    b.has_transform || (!fixed && !matches!(b.position, CssPosition::Static))
}

/// The containing block of an out-of-flow box: the nearest ancestor that establishes one
/// for its scheme, else the root.
pub fn containing_block(tree: &LayoutTree, id: BoxId, root: BoxId) -> (r: BoxId)
    requires
        tree.wf(),
        tree.has(id),
        tree.has(root),
    ensures
        r == containing(*tree, links_of(*tree), id, root),
        tree.has(r),
{
    let fixed: bool = matches!(tree.box_(id).position, CssPosition::Fixed);
    let ghost l = links_of(*tree);
    let mut ancestor: Option<BoxId> = tree.box_(id).parent;
    assert(tree.links_ok(id.0 as int));
    loop
        invariant
            tree.wf(),
            tree.has(root),
            l == links_of(*tree),
            match ancestor {
                Some(a) => tree.has(a),
                None => true,
            },
            containing(*tree, l, id, root) == containing_from(*tree, l, ancestor, fixed, root),
        decreases
                match ancestor {
                    Some(a) => a.0 + 1,
                    None => 0,
                },
    {
        match ancestor {
            None => {
                return root;
            },
            Some(a) => {
                assert(tree.links_ok(a.0 as int));
                if a == root || establishes_containing_block(tree, a, fixed) {
                    return a;
                }
                ancestor = tree.box_(a).parent;
            },
        }
    }
}

fn position_in(children: &[BoxId], x: BoxId) -> (r: usize)
    requires
        children@.contains(x),
    ensures
        r < children@.len(),
        children@[r as int] == x,
{
    let mut k: usize = 0;
    while k < children.len()
        invariant
            k <= children@.len(),
            children@.contains(x),
            forall|j: int| 0 <= j < k ==> children@[j] != x,
        decreases children.len() - k,
    {
        if children[k] == x {
            return k;
        }
        k = k + 1;
    }
    assert(false);
    0
}

/// Moves the box `id` from its parent to the end of the children of `target`.
fn move_box(tree: &mut LayoutTree, id: BoxId, parent: BoxId, target: BoxId)
    requires
        old(tree).wf(),
        old(tree).has(id),
        old(tree).at(id).parent == Some(parent),
        target.0 < id.0,
        target != parent,
    ensures
        final(tree).wf(),
        only_links_differ(*old(tree), *final(tree)),
        ({
            let l = links_of(*old(tree));
            let (i, p, t) = (id.0 as int, parent.0 as int, target.0 as int);
            let shorter = l.children.update(p, without(l.children[p], id));
            links_of(*final(tree)) == (Links {
                parent: l.parent.update(i, Some(target)),
                children: shorter.update(t, shorter[t].push(id)),
                static_parent: l.static_parent.update(i, Some(parent)),
                hoisted: l.hoisted.update(p, l.hoisted[p].push(id)),
            })
        }),
{
    let ghost before = *tree;
    let i: usize = id.0 as usize;
    let p: usize = parent.0 as usize;
    let t: usize = target.0 as usize;
    assert(tree.links_ok(i as int));
    assert(tree.links_ok(p as int));
    let k: usize = position_in(tree.boxes[p].children.as_slice(), id);
    tree.boxes[p].children.remove(k);
    tree.boxes[p].hoisted_children.push(id);
    tree.boxes[t].children.push(id);
    tree.boxes[i].parent = Some(target);
    tree.boxes[i].static_parent = Some(parent);
    proof {
        let kids = before.boxes@[p as int].children@;
        lemma_without(kids, id, k as int);
        let after = *tree;
        assert(after.boxes@[p as int].children@ == kids.remove(k as int));
        assert(after.boxes@[t as int].children@ == before.boxes@[t as int].children@.push(id));
        assert forall|j: int| 0 <= j < after.boxes@.len() implies #[trigger] after.links_ok(j) by {
            assert(before.links_ok(j));
            lemma_moved_links(before, after, id, parent, target, k as int, j);
        }
        assert(after.map_ok()) by {
            assert forall|key: u64| #[trigger] after.node_to_box@.contains_key(key) implies ({
                let b = after.node_to_box@[key];
                &&& after.has(b)
                &&& after.at(b).pseudo is None
                &&& match after.at(b).dom_node {
                    Some(node) => node.key() == key,
                    None => false,
                }
            }) by {
                assert(before.node_to_box@.contains_key(key));
            }
        }
        match after.root {
            Some(r) => {
                assert(before.at(r).parent is None);
            },
            None => {},
        }
        let l = links_of(before);
        let m = links_of(after);
        let shorter = l.children.update(p as int, without(l.children[p as int], id));
        assert(m.parent =~= l.parent.update(i as int, Some(target)));
        assert(m.children =~= shorter.update(t as int, shorter[t as int].push(id)));
        assert(m.static_parent =~= l.static_parent.update(i as int, Some(parent)));
        assert(m.hoisted =~= l.hoisted.update(p as int, l.hoisted[p as int].push(id)));
    }
}

/// The links of every box still agree after a box was moved.
proof fn lemma_moved_links(
    before: LayoutTree,
    after: LayoutTree,
    id: BoxId,
    parent: BoxId,
    target: BoxId,
    k: int,
    j: int,
)
    requires
        before.wf(),
        before.has(id),
        before.at(id).parent == Some(parent),
        target.0 < id.0,
        target != parent,
        0 <= k < before.at(parent).children@.len(),
        before.at(parent).children@[k] == id,
        after.boxes@.len() == before.boxes@.len(),
        after.at(parent).children@ == before.at(parent).children@.remove(k),
        after.at(target).children@ == before.at(target).children@.push(id),
        after.at(id).parent == Some(target),
        after.at(id).static_parent == Some(parent),
        forall|i: int|
            #![trigger after.boxes@[i]]
            0 <= i < before.boxes@.len() ==> {
                &&& i != id.0 ==> after.boxes@[i].parent == before.boxes@[i].parent
                    && after.boxes@[i].static_parent == before.boxes@[i].static_parent
                &&& i != parent.0 && i != target.0 ==> after.boxes@[i].children@
                    == before.boxes@[i].children@
                &&& after.boxes@[i].multicol == before.boxes@[i].multicol
            },
        0 <= j < before.boxes@.len(),
    ensures
        after.links_ok(j),
{
    let b = after.boxes@[j];
    let a = before.boxes@[j];
    assert(before.links_ok(j));
    assert(before.links_ok(id.0 as int));
    assert(before.links_ok(parent.0 as int));
    assert(before.links_ok(target.0 as int));
    let old_kids = before.at(parent).children@;
    let tkids = before.at(target).children@;
    // The box is no child of the target yet, since it is one of another box.
    assert(!tkids.contains(id)) by {
        if tkids.contains(id) {
            let m = choose|m: int| 0 <= m < tkids.len() && tkids[m] == id;
            assert(before.boxes@[tkids[m].0 as int].parent == Some(target));
        }
    }
    // The parent lists the box.
    match b.parent {
        Some(q) => {
            if j == id.0 {
                assert(after.at(target).children@[tkids.len() as int] == id);
            } else {
                let kids = before.boxes@[q.0 as int].children@;
                let me = BoxId(j as u32);
                let m = choose|m: int| 0 <= m < kids.len() && kids[m] == me;
                if q == parent {
                    if m < k {
                        assert(after.at(parent).children@[m] == me);
                    } else {
                        assert(m != k);
                        assert(after.at(parent).children@[m - 1] == me);
                    }
                } else if q == target {
                    assert(after.at(target).children@[m] == me);
                } else {
                    assert(after.boxes@[q.0 as int].children@[m] == me);
                }
            }
        },
        None => {},
    }
    // The children name the box as their parent.
    assert forall|m: int| 0 <= m < b.children@.len() implies j < (#[trigger] b.children@[m]).0
        < after.boxes@.len() && after.boxes@[b.children@[m].0 as int].parent == Some(
        BoxId(j as u32),
    ) by {
        let c = b.children@[m];
        if j == parent.0 {
            let m0 = if m < k {
                m
            } else {
                m + 1
            };
            assert(old_kids[m0] == c);
            assert(m0 != k);
            assert(c != id);
            assert(after.boxes@[c.0 as int].parent == before.boxes@[c.0 as int].parent);
        } else if j == target.0 {
            if m < tkids.len() {
                assert(tkids[m] == c);
                assert(c != id);
                assert(after.boxes@[c.0 as int].parent == before.boxes@[c.0 as int].parent);
            } else {
                assert(c == id);
            }
        } else {
            assert(a.children@[m] == c);
            assert(before.boxes@[c.0 as int].parent == Some(BoxId(j as u32)));
            assert(c != id);
            assert(after.boxes@[c.0 as int].parent == before.boxes@[c.0 as int].parent);
        }
    }
    assert(b.children@.no_duplicates()) by {
        assert forall|x: int, y: int|
            0 <= x < b.children@.len() && 0 <= y < b.children@.len() && x != y implies b.children@[x]
            != b.children@[y] by {
            if j == parent.0 {
                let x0 = if x < k { x } else { x + 1 };
                let y0 = if y < k { y } else { y + 1 };
                assert(old_kids[x0] != old_kids[y0]);
            } else if j == target.0 {
                if x < tkids.len() && y < tkids.len() {
                    assert(tkids[x] != tkids[y]);
                } else if x < tkids.len() {
                    assert(tkids.contains(tkids[x]));
                } else if y < tkids.len() {
                    assert(tkids.contains(tkids[y]));
                }
            }
        }
    }
}

/// The containing block that a walk finds precedes the box.
proof fn lemma_containing_precedes(
    tree: LayoutTree,
    l: Links,
    from: Option<BoxId>,
    fixed: bool,
    root: BoxId,
)
    ensures
        containing_from(tree, l, from, fixed, root) == root || match from {
            Some(a) => containing_from(tree, l, from, fixed, root).0 <= a.0,
            None => false,
        },
    decreases
            match from {
                Some(a) => a.0 + 1,
                None => 0,
            },
{
    match from {
        None => {},
        Some(a) => {
            match l.parent[a.0 as int] {
                Some(p) => {
                    if p.0 < a.0 {
                        lemma_containing_precedes(tree, l, Some(p), fixed, root);
                    }
                },
                None => {},
            }
        },
    }
}

/// What decides a containing block is the same in trees that differ only in their links.
proof fn lemma_same_decisions(
    a: LayoutTree,
    b: LayoutTree,
    l: Links,
    from: Option<BoxId>,
    fixed: bool,
    root: BoxId,
)
    requires
        only_links_differ(a, b),
        b.wf(),
        l == links_of(b),
        match from {
            Some(x) => b.has(x),
            None => true,
        },
    ensures
        containing_from(a, l, from, fixed, root) == containing_from(b, l, from, fixed, root),
    decreases
            match from {
                Some(x) => x.0 + 1,
                None => 0,
            },
{
    match from {
        None => {},
        Some(x) => {
            assert(b.links_ok(x.0 as int));
            assert(b.boxes@[x.0 as int].position == a.boxes@[x.0 as int].position);
            match l.parent[x.0 as int] {
                Some(p) => {
                    assert(b.boxes@[p.0 as int].multicol == a.boxes@[p.0 as int].multicol);
                    if p.0 < x.0 {
                        lemma_same_decisions(a, b, l, Some(p), fixed, root);
                    }
                },
                None => {},
            }
        },
    }
}

/// Re-parents every out-of-flow box onto its containing block. Runs once per tree, before
/// the first layout pass.
pub fn hoist_out_of_flow(tree: &mut LayoutTree)
    requires
        old(tree).wf(),
        match old(tree).root {
            Some(r) => r.0 == 0,
            None => true,
        },
    ensures
        final(tree).wf(),
        only_links_differ(*old(tree), *final(tree)),
        match old(tree).root {
            Some(root) => links_of(*final(tree)) == hoist_all(
                *old(tree),
                old(tree).boxes@.len() as int,
                root,
            ),
            None => *final(tree) == *old(tree),
        },
{
    let root: BoxId = match tree.root {
        Some(r) => r,
        None => {
            return ;
        },
    };
    let n: usize = tree.boxes.len();
    let mut index: usize = 0;
    while index < n
        invariant
            index <= n,
            n == old(tree).boxes@.len(),
            n <= u32::MAX,
            tree.wf(),
            only_links_differ(*old(tree), *tree),
            old(tree).root == Some(root),
            root.0 == 0,
            root.0 < n,
            links_of(*tree) == hoist_all(*old(tree), index as int, root),
        decreases n - index,
    {
        let id = BoxId(index as u32);
        let ghost l = links_of(*tree);
        let ghost now = *tree;
        proof {
            assert(tree.links_ok(index as int));
            assert(now.boxes@[index as int].style == old(tree).boxes@[index as int].style);
            assert(now.boxes@[index as int].pseudo == old(tree).boxes@[index as int].pseudo);
            assert(now.boxes@[index as int].position == old(tree).boxes@[index as int].position);
            assert(l.parent[index as int] == now.boxes@[index as int].parent);
            lemma_same_decisions(
                *old(tree),
                now,
                l,
                l.parent[index as int],
                now.boxes@[index as int].position is Fixed,
                root,
            );
            lemma_containing_precedes(
                now,
                l,
                l.parent[index as int],
                now.boxes@[index as int].position is Fixed,
                root,
            );
        }
        let b: &LayoutBox = &tree.boxes[index];
        let away: bool = id != root && matches!(b.style.placement, Placement::OutOfFlow)
            && !b.is_outside_marker();
        match b.parent {
            Some(parent) => {
                if away {
                    let target: BoxId = containing_block(tree, id, root);
                    if target != parent {
                        move_box(tree, id, parent, target);
                        proof {
                            assert(only_links_differ(*old(tree), *tree)) by {
                                assert forall|i: int| 0 <= i < n implies #[trigger] tree.boxes@[i]
                                    == (LayoutBox {
                                    parent: tree.boxes@[i].parent,
                                    children: tree.boxes@[i].children,
                                    static_parent: tree.boxes@[i].static_parent,
                                    hoisted_children: tree.boxes@[i].hoisted_children,
                                    ..old(tree).boxes@[i]
                                }) by {
                                    assert(now.boxes@[i].style == old(tree).boxes@[i].style);
                                }
                            }
                        }
                    }
                }
            },
            None => {},
        }
        index = index + 1;
    }
}

/// Every parent precedes its child.
spec fn parents_precede(l: Links) -> bool {
    forall|j: int|
        0 <= j < l.parent.len() ==> match #[trigger] l.parent[j] {
            Some(p) => p.0 < j,
            None => true,
        }
}

proof fn lemma_hoist_keeps_order(tree: LayoutTree, n: int, root: BoxId)
    requires
        tree.wf(),
        tree.root == Some(root),
        root.0 == 0,
        0 <= n <= tree.boxes@.len(),
    ensures
        parents_precede(hoist_all(tree, n, root)),
        hoist_all(tree, n, root).parent.len() == tree.boxes@.len(),
    decreases n,
{
    if n <= 0 {
        let l = links_of(tree);
        assert forall|j: int| 0 <= j < l.parent.len() implies match #[trigger] l.parent[j] {
            Some(p) => p.0 < j,
            None => true,
        } by {
            assert(tree.links_ok(j));
        }
    } else {
        lemma_hoist_keeps_order(tree, n - 1, root);
        let l = hoist_all(tree, n - 1, root);
        lemma_containing_precedes(
            tree,
            l,
            l.parent[n - 1],
            tree.at(BoxId((n - 1) as u32)).position is Fixed,
            root,
        );
    }
}

/// The containing block that a walk finds is the root, or a box that establishes one.
proof fn lemma_containing_establishes(
    tree: LayoutTree,
    l: Links,
    from: Option<BoxId>,
    fixed: bool,
    root: BoxId,
)
    ensures
        ({
            let c = containing_from(tree, l, from, fixed, root);
            c == root || establishes(tree, l, c, fixed)
        }),
    decreases
            match from {
                Some(a) => a.0 + 1,
                None => 0,
            },
{
    match from {
        None => {},
        Some(a) => match l.parent[a.0 as int] {
            Some(p) => {
                if p.0 < a.0 {
                    lemma_containing_establishes(tree, l, Some(p), fixed, root);
                }
            },
            None => {},
        },
    }
}

/// After hoisting, the parent of every out-of-flow box is its containing block: the root,
/// or a box that establishes one for its scheme. List markers outside their item stay
/// with the item.
pub proof fn hoisted_boxes_are_under_their_containing_block(
    tree: LayoutTree,
    n: int,
    root: BoxId,
    j: int,
)
    requires
        tree.wf(),
        tree.root == Some(root),
        root.0 == 0,
        0 <= j < n <= tree.boxes@.len(),
        is_positioned_away(tree.boxes@[j]),
        BoxId(j as u32) != root,
    ensures
        match hoist_all(tree, n, root).parent[j] {
            Some(p) => p == root || establishes(
                tree,
                hoist_all(tree, n, root),
                p,
                tree.boxes@[j].position is Fixed,
            ),
            None => true,
        },
    decreases n,
{
    let l = hoist_all(tree, n - 1, root);
    let m = hoist_all(tree, n, root);
    lemma_hoist_keeps_order(tree, n - 1, root);
    let fixed = tree.boxes@[j].position is Fixed;
    if j == n - 1 {
        lemma_containing_establishes(tree, l, l.parent[j], fixed, root);
        lemma_containing_precedes(tree, l, l.parent[j], fixed, root);
        match m.parent[j] {
            Some(p) => {
                assert(p == containing(tree, l, BoxId(j as u32), root));
                if p != root {
                    assert(m.parent[p.0 as int] == l.parent[p.0 as int]);
                }
            },
            None => {},
        }
    } else {
        hoisted_boxes_are_under_their_containing_block(tree, n - 1, root, j);
        match m.parent[j] {
            Some(p) => {
                assert(p.0 < j);
                assert(m.parent[p.0 as int] == l.parent[p.0 as int]);
            },
            None => {},
        }
    }
}

fn absolute_origin(tree: &LayoutTree, id: BoxId) -> (r: Point)
    requires
        tree.wf(),
        tree.has(id),
    ensures
        r == origin_in(tree.boxes@, id.0 as int),
    decreases id.0,
{
    assert(tree.links_ok(id.0 as int));
    let b: &LayoutBox = tree.box_(id);
    let at: Offset = b.unrounded_layout.location;
    match b.parent {
        Some(p) => absolute_origin(tree, p).shift(at.x as i64, at.y as i64),
        None => Point { x: at.x as i64, y: at.y as i64 },
    }
}

/// Both insets along the inline axis are `auto`.
pub open spec fn auto_x(style: BoxStyle) -> bool {
    style.inset.left is Auto && style.inset.right is Auto
}

/// Both insets along the block axis are `auto`.
pub open spec fn auto_y(style: BoxStyle) -> bool {
    style.inset.top is Auto && style.inset.bottom is Auto
}

/// The box moved to `to` before rounding, with the move on record.
pub open spec fn moved_to(b: LayoutBox, to: Offset) -> LayoutBox {
    let at = b.unrounded_layout.location;
    LayoutBox {
        unrounded_layout: Layout { location: to, ..b.unrounded_layout },
        post_layout_offset: Point {
            x: held(b.post_layout_offset.x + (to.x - at.x)) as i64,
            y: held(b.post_layout_offset.y + (to.y - at.y)) as i64,
        },
        ..b
    }
}

/// The boxes of `a` with the first `n` put back to their static position, in order: each is
/// placed by what the ones before it have become.
pub open spec fn restored_boxes(a: LayoutTree, n: int) -> Seq<LayoutBox>
    decreases n,
{
    if n <= 0 {
        a.boxes@
    } else {
        let before = restored_boxes(a, n - 1);
        before.update(
            n - 1,
            moved_to(before[n - 1], restored_location_in(before, n - 1)),
        )
    }
}

/// The position of a box's border box in the space of the root, before rounding.
pub open spec fn origin_in(boxes: Seq<LayoutBox>, id: int) -> Point
    decreases id,
{
    let at = boxes[id].unrounded_layout.location;
    match boxes[id].parent {
        Some(p) => if p.0 < id {
            origin_in(boxes, p.0 as int).moved(at.x as int, at.y as int)
        } else {
            Point { x: at.x as i64, y: at.y as i64 }
        },
        None => Point { x: at.x as i64, y: at.y as i64 },
    }
}

/// Where the box `id` goes before rounding: where it would have sat in the flow, along each
/// axis whose insets are both `auto`, if it was hoisted. That is at the content edge of the
/// parent it was built under, past its own margin, given relative to its containing block.
pub open spec fn restored_location_in(boxes: Seq<LayoutBox>, id: int) -> Offset {
    let b = boxes[id];
    let at = b.unrounded_layout.location;
    match (b.static_parent, b.parent) {
        (Some(s), Some(p)) => {
            let sl = boxes[s.0 as int].unrounded_layout;
            let so = origin_in(boxes, s.0 as int);
            let co = origin_in(boxes, p.0 as int);
            let m = b.unrounded_layout.margin;
            Offset {
                x: if auto_x(b.style) {
                    fitted(so.x + sl.border.left + sl.padding.left - co.x + m.left) as i32
                } else {
                    at.x
                },
                y: if auto_y(b.style) {
                    fitted(so.y + sl.border.top + sl.padding.top - co.y + m.top) as i32
                } else {
                    at.y
                },
            }
        },
        _ => at,
    }
}

fn find_restored_location(tree: &LayoutTree, id: BoxId) -> (r: Offset)
    requires
        tree.wf(),
        tree.has(id),
    ensures
        r == restored_location_in(tree.boxes@, id.0 as int),
{
    assert(tree.links_ok(id.0 as int));
    let b: &LayoutBox = tree.box_(id);
    let at: Offset = b.unrounded_layout.location;
    match (b.static_parent, b.parent) {
        (Some(s), Some(p)) => {
            let inset = b.style.inset;
            let ax: bool = inset.left.is_auto() && inset.right.is_auto();
            let ay: bool = inset.top.is_auto() && inset.bottom.is_auto();
            let so: Point = absolute_origin(tree, s);
            let co: Point = absolute_origin(tree, p);
            let sl: Layout = tree.box_(s).unrounded_layout;
            let m = b.unrounded_layout.margin;
            Offset {
                x: if ax {
                    fit(
                        so.x as i128 + sl.border.left as i128 + sl.padding.left as i128
                            - co.x as i128 + m.left as i128,
                    )
                } else {
                    at.x
                },
                y: if ay {
                    fit(
                        so.y as i128 + sl.border.top as i128 + sl.padding.top as i128
                            - co.y as i128 + m.top as i128,
                    )
                } else {
                    at.y
                },
            }
        },
        _ => at,
    }
}

/// Moves a box before rounding and records the move.
pub fn move_unrounded(tree: &mut LayoutTree, id: BoxId, to: Offset)
    requires
        old(tree).has(id),
    ensures
        final(tree).boxes@ == old(tree).boxes@.update(
            id.0 as int,
            moved_to(old(tree).at(id), to),
        ),
        final(tree).root == old(tree).root,
        final(tree).node_to_box == old(tree).node_to_box,
        final(tree).viewport == old(tree).viewport,
{
    let i: usize = id.0 as usize;
    let at: Offset = tree.boxes[i].unrounded_layout.location;
    let offset: Point = tree.boxes[i].post_layout_offset;
    tree.boxes[i].unrounded_layout.location = to;
    tree.boxes[i].post_layout_offset = Point {
        x: hold(offset.x as i128 + (to.x as i128 - at.x as i128)),
        y: hold(offset.y as i128 + (to.y as i128 - at.y as i128)),
    };
}

/// Puts hoisted boxes with `auto` insets back to their static position, in build order, so
/// that each is placed by what the boxes before it have become. Runs after layout and
/// before rounding.
pub fn restore_static_positions(tree: &mut LayoutTree)
    requires
        old(tree).wf(),
    ensures
        final(tree).wf(),
        same_shape(*old(tree), *final(tree)),
        final(tree).boxes@ == restored_boxes(*old(tree), old(tree).boxes@.len() as int),
{
    let n: usize = tree.boxes.len();
    let mut index: usize = 0;
    while index < n
        invariant
            index <= n == tree.boxes@.len(),
            n == old(tree).boxes@.len(),
            n <= u32::MAX,
            tree.wf(),
            old(tree).wf(),
            same_shape(*old(tree), *tree),
            tree.boxes@ == restored_boxes(*old(tree), index as int),
        decreases n - index,
    {
        let id = BoxId(index as u32);
        let to: Offset = find_restored_location(tree, id);
        let ghost before = *tree;
        move_unrounded(tree, id, to);
        proof {
            assert forall|k: int| 0 <= k < n implies same_links(
                #[trigger] old(tree).boxes@[k],
                tree.boxes@[k],
            ) by {
                assert(same_links(old(tree).boxes@[k], before.boxes@[k]));
            }
            shape_decides_wf(*old(tree), *tree);
        }
        index = index + 1;
    }
}

/// The `k`th box of a chain is the parent of the one before.
pub open spec fn is_joined(parent: Seq<Option<BoxId>>, chain: Seq<BoxId>, k: int) -> bool {
    parent[chain[k - 1].0 as int] == Some(chain[k])
}

/// The boxes around `c`, the innermost first: each is the parent of the one before.
pub open spec fn is_chain(parent: Seq<Option<BoxId>>, c: BoxId, chain: Seq<BoxId>) -> bool {
    &&& chain.len() > 0
    &&& parent[c.0 as int] == Some(chain[0])
    &&& forall|k: int| 0 < k < chain.len() ==> #[trigger] is_joined(parent, chain, k)
}

/// The box `flow` holds the content of the multi-column container `container`.
pub open spec fn is_content_of(tree: LayoutTree, flow: BoxId, container: Option<BoxId>) -> bool {
    match container {
        Some(p) => match tree.at(p).multicol {
            Some(mc) => mc.flow == flow,
            None => false,
        },
        None => false,
    }
}

proof fn lemma_walk_passes(
    tree: LayoutTree,
    l: Links,
    chain: Seq<BoxId>,
    k: int,
    fixed: bool,
    root: BoxId,
)
    requires
        0 <= k < chain.len(),
        forall|j: int|
            k < j < chain.len() ==> #[trigger] is_joined(l.parent, chain, j) && chain[j].0
                < chain[j - 1].0,
        forall|j: int|
            k <= j < chain.len() - 1 ==> (#[trigger] chain[j]) != root && (fixed || tree.at(
                chain[j],
            ).position is Static) && !tree.at(chain[j]).has_transform && !is_content_of(
                tree,
                chain[j],
                l.parent[chain[j].0 as int],
            ),
        ({
            let a = chain.last();
            a == root || tree.at(a).has_transform || (!fixed && !(tree.at(a).position is Static))
                || is_content_of(tree, a, l.parent[a.0 as int])
        }),
    ensures
        containing_from(tree, l, Some(chain[k]), fixed, root) == chain.last(),
    decreases chain.len() - k,
{
    if k < chain.len() - 1 {
        assert(is_joined(l.parent, chain, k + 1));
        lemma_walk_passes(tree, l, chain, k + 1, fixed, root);
    }
}

proof fn lemma_chain_ascends(tree: LayoutTree, c: BoxId, chain: Seq<BoxId>)
    requires
        tree.wf(),
        tree.has(c),
        is_chain(links_of(tree).parent, c, chain),
    ensures
        forall|k: int| 0 <= k < chain.len() ==> (#[trigger] chain[k]).0 < c.0,
        forall|k: int|
            0 < k < chain.len() ==> #[trigger] is_joined(links_of(tree).parent, chain, k)
                && chain[k].0 < chain[k - 1].0,
    decreases chain.len(),
{
    assert(tree.links_ok(c.0 as int));
    if chain.len() > 1 {
        let rest = chain.skip(1);
        let parent = links_of(tree).parent;
        assert forall|k: int| 0 < k < rest.len() implies #[trigger] is_joined(parent, rest, k) by {
            assert(is_joined(parent, chain, k + 1));
            assert(rest[k] == chain[k + 1]);
        }
        assert(is_joined(parent, chain, 1));
        assert(rest[0] == chain[1]);
        lemma_chain_ascends(tree, chain[0], rest);
        assert forall|k: int| 0 <= k < chain.len() implies (#[trigger] chain[k]).0 < c.0 by {
            if k > 0 {
                assert(chain[k] == rest[k - 1]);
            }
        }
        assert forall|k: int| 0 < k < chain.len() implies #[trigger] is_joined(parent, chain, k)
            && chain[k].0 < chain[k - 1].0 by {
            if k > 1 {
                assert(is_joined(parent, rest, k - 1));
                assert(chain[k] == rest[k - 1]);
                assert(chain[k - 1] == rest[k - 2]);
            } else {
                assert(chain[1] == rest[0]);
            }
        }
    }
}

proof fn lemma_chain_parents(tree: LayoutTree, c: BoxId, chain: Seq<BoxId>)
    requires
        tree.wf(),
        tree.has(c),
        is_chain(links_of(tree).parent, c, chain),
    ensures
        forall|k: int|
            0 <= k < chain.len() ==> links_of(tree).parent[(#[trigger] chain[k]).0 as int]
                == tree.at(chain[k]).parent,
{
    lemma_chain_ascends(tree, c, chain);
}

/// The containing block of a box that is not fixed is the nearest box around it that is
/// positioned: one whose `position` is relative, absolute, fixed or sticky, with nothing
/// but static boxes in between that are neither transformed nor the content of a
/// multi-column container.
pub proof fn the_nearest_positioned_box_around_contains(
    tree: LayoutTree,
    c: BoxId,
    chain: Seq<BoxId>,
    root: BoxId,
)
    requires
        tree.wf(),
        tree.has(c),
        tree.at(c).position != CssPosition::Fixed,
        is_chain(links_of(tree).parent, c, chain),
        forall|k: int|
            0 <= k < chain.len() - 1 ==> {
                &&& (#[trigger] chain[k]) != root
                &&& tree.at(chain[k]).position == CssPosition::Static
                &&& !tree.at(chain[k]).has_transform
                &&& !is_content_of(tree, chain[k], tree.at(chain[k]).parent)
            },
        ({
            let position = tree.at(chain.last()).position;
            position == CssPosition::Relative || position == CssPosition::Absolute || position
                == CssPosition::Fixed || position == CssPosition::Sticky
        }),
    ensures
        containing(tree, links_of(tree), c, root) == chain.last(),
{
    lemma_chain_ascends(tree, c, chain);
    lemma_chain_parents(tree, c, chain);
    lemma_walk_passes(tree, links_of(tree), chain, 0, false, root);
}

/// The containing block of a fixed box is the nearest transformed box around it, the
/// content of a multi-column container counting as one; how the boxes in between are
/// positioned does not matter.
pub proof fn positioned_boxes_do_not_contain_fixed_ones(
    tree: LayoutTree,
    c: BoxId,
    chain: Seq<BoxId>,
    root: BoxId,
)
    requires
        tree.wf(),
        tree.has(c),
        tree.at(c).position == CssPosition::Fixed,
        is_chain(links_of(tree).parent, c, chain),
        forall|k: int|
            0 <= k < chain.len() - 1 ==> {
                &&& (#[trigger] chain[k]) != root
                &&& !tree.at(chain[k]).has_transform
                &&& !is_content_of(tree, chain[k], tree.at(chain[k]).parent)
            },
        chain.last() == root || tree.at(chain.last()).has_transform || is_content_of(
            tree,
            chain.last(),
            tree.at(chain.last()).parent,
        ),
    ensures
        containing(tree, links_of(tree), c, root) == chain.last(),
{
    lemma_chain_ascends(tree, c, chain);
    lemma_chain_parents(tree, c, chain);
    lemma_walk_passes(tree, links_of(tree), chain, 0, true, root);
}

/// A box with nothing but static, untransformed boxes around it up to the root, of which
/// none is the content of a multi-column container, is contained by the root, whatever the
/// root's own style and whatever the box's own scheme. Where one of them is transformed, or
/// is such content, the nearest one of these contains it instead.
pub proof fn the_root_contains_what_nothing_else_does(
    tree: LayoutTree,
    c: BoxId,
    chain: Seq<BoxId>,
    root: BoxId,
)
    requires
        tree.wf(),
        tree.has(c),
        is_chain(links_of(tree).parent, c, chain),
        forall|k: int|
            0 <= k < chain.len() - 1 ==> {
                &&& (#[trigger] chain[k]) != root
                &&& tree.at(chain[k]).position == CssPosition::Static
                &&& !tree.at(chain[k]).has_transform
                &&& !is_content_of(tree, chain[k], tree.at(chain[k]).parent)
            },
        chain.last() == root || tree.at(chain.last()).has_transform || is_content_of(
            tree,
            chain.last(),
            tree.at(chain.last()).parent,
        ),
    ensures
        containing(tree, links_of(tree), c, root) == chain.last(),
{
    lemma_chain_ascends(tree, c, chain);
    lemma_chain_parents(tree, c, chain);
    lemma_walk_passes(
        tree,
        links_of(tree),
        chain,
        0,
        tree.at(c).position is Fixed,
        root,
    );
}

/// Hoisting the first `n` boxes leaves alone the parents of those that follow, of those in
/// the flow, and of those that it moved before.
proof fn lemma_hoist_keeps_parents(tree: LayoutTree, m: int, n: int, root: BoxId, j: int)
    requires
        tree.wf(),
        tree.root == Some(root),
        root.0 == 0,
        0 <= m <= n <= tree.boxes@.len(),
        0 <= j < tree.boxes@.len(),
        j >= n || j < m || !is_positioned_away(tree.boxes@[j]),
    ensures
        hoist_all(tree, n, root).parent[j] == hoist_all(tree, m, root).parent[j],
    decreases n - m,
{
    if m < n {
        lemma_hoist_keeps_parents(tree, m, n - 1, root, j);
        lemma_hoist_keeps_order(tree, n - 1, root);
    }
}

/// Hoisting puts a box that is out of the flow and not fixed right under the nearest
/// positioned box around it: one whose `position` is relative, absolute, fixed or sticky,
/// with nothing but static boxes of the flow in between that are neither transformed nor
/// the content of a multi-column container.
pub proof fn hoisting_leads_to_the_nearest_positioned_box(
    tree: LayoutTree,
    n: int,
    c: BoxId,
    chain: Seq<BoxId>,
    root: BoxId,
)
    requires
        tree.wf(),
        tree.root == Some(root),
        root.0 == 0,
        0 <= c.0 < n <= tree.boxes@.len(),
        c != root,
        tree.at(c).style.placement == Placement::OutOfFlow,
        !tree.at(c).outside_marker(),
        tree.at(c).position != CssPosition::Fixed,
        is_chain(links_of(tree).parent, c, chain),
        forall|k: int|
            0 <= k < chain.len() - 1 ==> {
                &&& (#[trigger] chain[k]) != root
                &&& tree.at(chain[k]).position == CssPosition::Static
                &&& tree.at(chain[k]).style.placement == Placement::InFlow
                &&& !tree.at(chain[k]).has_transform
                &&& !is_content_of(tree, chain[k], tree.at(chain[k]).parent)
            },
        ({
            let position = tree.at(chain.last()).position;
            position == CssPosition::Relative || position == CssPosition::Absolute || position
                == CssPosition::Fixed || position == CssPosition::Sticky
        }),
    ensures
        hoist_all(tree, n, root).parent[c.0 as int] == Some(chain.last()),
{
    let i = c.0 as int;
    let l = hoist_all(tree, i, root);
    lemma_chain_ascends(tree, c, chain);
    lemma_hoist_keeps_order(tree, i, root);
    lemma_hoist_keeps_parents(tree, 0, i, root, i);
    assert(l.parent[i] == Some(chain[0]));
    lemma_chain_parents(tree, c, chain);
    assert forall|k: int| 0 <= k < chain.len() - 1 implies l.parent[(
    #[trigger] chain[k]).0 as int] == tree.at(chain[k]).parent by {
        assert(tree.at(chain[k]).style.placement == Placement::InFlow);
        lemma_hoist_keeps_parents(tree, 0, i, root, chain[k].0 as int);
    }
    assert forall|k: int| 0 < k < chain.len() implies #[trigger] is_joined(l.parent, chain, k)
        && chain[k].0 < chain[k - 1].0 by {
        assert(is_joined(links_of(tree).parent, chain, k));
        assert(l.parent[chain[k - 1].0 as int] == tree.at(chain[k - 1]).parent);
    }
    lemma_walk_passes(tree, l, chain, 0, false, root);
    assert(BoxId(i as u32) == c);
    assert(hoist_all(tree, i + 1, root) == hoist_one(tree, l, i, root));
    assert(hoist_all(tree, i + 1, root).parent[i] == Some(chain.last()));
    lemma_hoist_keeps_parents(tree, i + 1, n, root, i);
}

/// Hoisting a box out of one it stays below keeps on record where it was built, and one
/// that is under its containing block already is left there.
pub proof fn hoisting_records_where_a_box_was_built(
    tree: LayoutTree,
    n: int,
    c: BoxId,
    root: BoxId,
)
    requires
        tree.wf(),
        tree.root == Some(root),
        root.0 == 0,
        0 <= c.0 < n <= tree.boxes@.len(),
    ensures
        ({
            let after = hoist_all(tree, n, root);
            let b = tree.at(c);
            if after.parent[c.0 as int] == b.parent {
                after.static_parent[c.0 as int] == b.static_parent
            } else {
                after.static_parent[c.0 as int] == b.parent
            }
        }),
        tree.at(c).style.placement == Placement::InFlow ==> hoist_all(
            tree,
            n,
            root,
        ).parent[c.0 as int] == tree.at(c).parent,
    decreases n,
{
    let i = c.0 as int;
    lemma_hoist_keeps_order(tree, n - 1, root);
    lemma_hoist_sizes(tree, n - 1, root);
    if i < n - 1 {
        hoisting_records_where_a_box_was_built(tree, n - 1, c, root);
    } else {
        lemma_hoist_keeps_parents(tree, 0, i, root, i);
        lemma_unmoved_static_parent(tree, i, root, i);
    }
}

proof fn lemma_hoist_sizes(tree: LayoutTree, n: int, root: BoxId)
    requires
        n <= tree.boxes@.len(),
    ensures
        hoist_all(tree, n, root).static_parent.len() == tree.boxes@.len(),
    decreases n,
{
    if n > 0 {
        lemma_hoist_sizes(tree, n - 1, root);
    }
}

proof fn lemma_unmoved_static_parent(tree: LayoutTree, n: int, root: BoxId, j: int)
    requires
        0 <= n <= j < tree.boxes@.len(),
    ensures
        hoist_all(tree, n, root).static_parent[j] == tree.boxes@[j].static_parent,
    decreases n,
{
    if n > 0 {
        lemma_unmoved_static_parent(tree, n - 1, root, j);
        lemma_hoist_sizes(tree, n - 1, root);
    }
}

/// How far a box is from where the outermost box of a chain is measured from, before
/// rounding: the sum of how far each is from the one around it.
pub open spec fn sum_along(boxes: Seq<LayoutBox>, c: int, chain: Seq<BoxId>) -> (int, int)
    decreases chain.len(),
{
    let at = boxes[c].unrounded_layout.location;
    if chain.len() == 0 {
        (at.x as int, at.y as int)
    } else {
        let rest = sum_along(boxes, chain[0].0 as int, chain.skip(1));
        (at.x + rest.0, at.y + rest.1)
    }
}

/// The boxes of the chain are all that is around `c`: each is the parent of the one before,
/// and the last has none.
pub open spec fn is_whole_chain(boxes: Seq<LayoutBox>, c: int, chain: Seq<BoxId>) -> bool
    decreases chain.len(),
{
    if chain.len() == 0 {
        boxes[c].parent is None
    } else {
        &&& boxes[c].parent == Some(chain[0])
        &&& chain[0].0 < c
        &&& is_whole_chain(boxes, chain[0].0 as int, chain.skip(1))
    }
}

/// The position of a box in the space of the root adds up the positions of the box and of
/// all boxes around it.
pub proof fn origins_add_up(boxes: Seq<LayoutBox>, c: int, chain: Seq<BoxId>)
    requires
        0 <= c < boxes.len(),
        is_whole_chain(boxes, c, chain),
        chain.len() < 0x0fff_ffff,
    ensures
        origin_in(boxes, c).x == sum_along(boxes, c, chain).0,
        origin_in(boxes, c).y == sum_along(boxes, c, chain).1,
        -0x8000_0000 * (chain.len() + 1) <= sum_along(boxes, c, chain).0 <= 0x8000_0000 * (
        chain.len() + 1),
        -0x8000_0000 * (chain.len() + 1) <= sum_along(boxes, c, chain).1 <= 0x8000_0000 * (
        chain.len() + 1),
    decreases chain.len(),
{
    if chain.len() > 0 {
        origins_add_up(boxes, chain[0].0 as int, chain.skip(1));
    }
}

/// A hoisted box goes back to where it would have sat in the flow along each axis that has
/// no inset: its border box is then as far from the content edge of the box it was built in
/// as its margin is wide. Along an axis with an inset it stays where it is, and so does a
/// box that was not hoisted.
pub proof fn boxes_without_insets_go_back_to_the_flow(boxes: Seq<LayoutBox>, id: int)
    ensures
        ({
            let b = boxes[id];
            let at = b.unrounded_layout.location;
            let to = restored_location_in(boxes, id);
            let inset = b.style.inset;
            match (b.static_parent, b.parent) {
                (Some(s), Some(p)) => {
                    let built_in = boxes[s.0 as int].unrounded_layout;
                    let x = origin_in(boxes, s.0 as int).x + built_in.border.left
                        + built_in.padding.left + b.unrounded_layout.margin.left;
                    let y = origin_in(boxes, s.0 as int).y + built_in.border.top
                        + built_in.padding.top + b.unrounded_layout.margin.top;
                    let from = origin_in(boxes, p.0 as int);
                    &&& inset.left == Dimension::Auto && inset.right == Dimension::Auto && i32::MIN
                        <= x - from.x <= i32::MAX ==> from.x + to.x == x
                    &&& inset.top == Dimension::Auto && inset.bottom == Dimension::Auto && i32::MIN
                        <= y - from.y <= i32::MAX ==> from.y + to.y == y
                    &&& inset.left != Dimension::Auto || inset.right != Dimension::Auto ==> to.x
                        == at.x
                    &&& inset.top != Dimension::Auto || inset.bottom != Dimension::Auto ==> to.y
                        == at.y
                },
                _ => to == at,
            }
        }),
{
}

proof fn lemma_same_origin(a: Seq<LayoutBox>, b: Seq<LayoutBox>, id: int)
    requires
        0 <= id < a.len() == b.len(),
        forall|k: int| 0 <= k <= id ==> #[trigger] a[k] == b[k],
    ensures
        origin_in(a, id) == origin_in(b, id),
    decreases id,
{
    assert(a[id] == b[id]);
    match a[id].parent {
        Some(p) => {
            if p.0 < id {
                lemma_same_origin(a, b, p.0 as int);
            }
        },
        None => {},
    }
}

proof fn lemma_restored_prefix(a: LayoutTree, m: int, n: int)
    requires
        0 <= m <= n <= a.boxes@.len(),
    ensures
        restored_boxes(a, n).len() == a.boxes@.len(),
        restored_boxes(a, m).len() == a.boxes@.len(),
        forall|k: int| 0 <= k < m ==> #[trigger] restored_boxes(a, n)[k] == restored_boxes(a, m)[k],
        forall|k: int| n <= k < a.boxes@.len() ==> #[trigger] restored_boxes(a, n)[k] == a.boxes@[k],
    decreases n,
{
    if m < n {
        lemma_restored_prefix(a, m, n - 1);
        assert forall|k: int| 0 <= k < m implies #[trigger] restored_boxes(a, n)[k]
            == restored_boxes(a, m)[k] by {
            assert(restored_boxes(a, n)[k] == restored_boxes(a, n - 1)[k]);
        }
        assert forall|k: int| n <= k < a.boxes@.len() implies #[trigger] restored_boxes(a, n)[k]
            == a.boxes@[k] by {
            assert(restored_boxes(a, n)[k] == restored_boxes(a, n - 1)[k]);
        }
    } else if n > 0 {
        lemma_restored_prefix(a, n - 1, n - 1);
        assert forall|k: int| n <= k < a.boxes@.len() implies #[trigger] restored_boxes(a, n)[k]
            == a.boxes@[k] by {
            assert(restored_boxes(a, n)[k] == restored_boxes(a, n - 1)[k]);
        }
    }
}

/// In the finished layout a hoisted box without insets along an axis stands where it would
/// have sat in the flow: past its margin from the content edge of the box that it was built
/// in, wherever the two have come to be.
pub proof fn finished_boxes_stand_where_the_flow_had_them(a: LayoutTree, id: BoxId)
    requires
        a.wf(),
        a.has(id),
    ensures
        ({
            let done = restored_boxes(a, a.boxes@.len() as int);
            let b = a.at(id);
            match (b.static_parent, b.parent) {
                (Some(s), Some(p)) => s.0 < id.0 ==> {
                    let built_in = done[s.0 as int].unrounded_layout;
                    let x = origin_in(done, s.0 as int).x + built_in.border.left
                        + built_in.padding.left + b.unrounded_layout.margin.left;
                    let y = origin_in(done, s.0 as int).y + built_in.border.top
                        + built_in.padding.top + b.unrounded_layout.margin.top;
                    let from = origin_in(done, p.0 as int);
                    let to = done[id.0 as int].unrounded_layout.location;
                    &&& b.style.inset.left == Dimension::Auto && b.style.inset.right
                        == Dimension::Auto && i32::MIN <= x - from.x <= i32::MAX ==> from.x + to.x
                        == x
                    &&& b.style.inset.top == Dimension::Auto && b.style.inset.bottom
                        == Dimension::Auto && i32::MIN <= y - from.y <= i32::MAX ==> from.y + to.y
                        == y
                },
                _ => done[id.0 as int].unrounded_layout.location == b.unrounded_layout.location,
            }
        }),
{
    let n = a.boxes@.len() as int;
    let i = id.0 as int;
    let done = restored_boxes(a, n);
    let before = restored_boxes(a, i);
    assert(a.links_ok(i));
    lemma_restored_prefix(a, i, n);
    lemma_restored_prefix(a, i + 1, n);
    lemma_restored_prefix(a, i, i);
    assert(done[i] == restored_boxes(a, i + 1)[i]);
    assert(before[i] == a.boxes@[i]);
    assert(done[i].unrounded_layout.location == restored_location_in(before, i));
    boxes_without_insets_go_back_to_the_flow(before, i);
    match (a.at(id).static_parent, a.at(id).parent) {
        (Some(s), Some(p)) => {
            if s.0 < i {
                lemma_same_origin(done, before, s.0 as int);
                lemma_same_origin(done, before, p.0 as int);
            }
        },
        _ => {},
    }
}

} // verus!
