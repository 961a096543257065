//! What layout reads of a document: its nodes in tree order, a shadow tree before the children
//! of its host. So every node comes after its parent, the host of the shadow tree that it is
//! in, and the node that it is laid out under.

use std::collections::HashMap;

use vstd::prelude::*;

use crate::chars;
use crate::tree::{node_keys_are_distinct, NodeId};

verus! {

broadcast use vstd::std_specs::hash::group_hash_axioms;

/// What kind of node this is.
#[derive(Clone, Copy, PartialEq, Eq, Debug, Structural)]
pub enum NodeKind {
    Document,
    Doctype,
    Element,
    Text,
    CdataSection,
    Comment,
    ProcessingInstruction,
    /// A document fragment, or the root of a shadow tree.
    Fragment,
}

impl NodeKind {
    /// The node holds text that is laid out.
    pub open spec fn holds_text(self) -> bool {
        self is Text || self is CdataSection
    }

    /// Whether the node holds text that is laid out.
    pub fn is_text(self) -> (r: bool)
        ensures
            r == self.holds_text(),
    {
        matches!(self, NodeKind::Text | NodeKind::CdataSection)
    }
}

/// An attribute by its local name.
pub struct Attribute {
    pub name: String,
    pub value: String,
}

/// A node of the document. Other nodes are given by their position in the [`DomTree`].
pub struct DomNode {
    pub id: NodeId,
    pub kind: NodeKind,
    /// The element is in the HTML namespace.
    pub html: bool,
    /// The element's local name.
    pub local: String,
    pub attributes: Vec<Attribute>,
    /// The text of a text node.
    pub text: String,
    pub parent: Option<usize>,
    /// The element whose shadow tree this node is the root of.
    pub shadow_host: Option<usize>,
    /// The node that this one is laid out under: its parent, or the slot it is assigned to.
    pub flat_parent: Option<usize>,
    /// The nodes that are laid out under this one, in order.
    pub flat_children: Vec<usize>,
}

impl DomNode {
    /// The node is an HTML element of the given name.
    pub open spec fn is_tag(&self, name: Seq<char>) -> bool {
        self.kind is Element && self.html && self.local@ == name
    }

    /// Whether the node is an HTML element of the given name.
    pub fn tag_is(&self, name: &str) -> (r: bool)
        ensures
            r == self.is_tag(name@),
    {
        self.kind == NodeKind::Element && self.html && chars::same(self.local.as_str(), name)
    }

    /// The node is text of nothing but white space.
    pub open spec fn is_blank(&self) -> bool {
        self.kind.holds_text() && forall|k: int|
            0 <= k < self.text@.len() ==> blank(#[trigger] self.text@[k])
    }

    /// Whether the node is text of nothing but white space.
    pub fn is_whitespace_text(&self) -> (r: bool)
        ensures
            r == self.is_blank(),
    {
        if !self.kind.is_text() {
            return false;
        }
        let text: Vec<char> = chars::to_chars(self.text.as_str());
        let mut i: usize = 0;
        while i < text.len()
            invariant
                i <= text@.len(),
                text@ == self.text@,
                forall|k: int| 0 <= k < i ==> blank(#[trigger] self.text@[k]),
            decreases text.len() - i,
        {
            if !is_blank_char(text[i]) {
                assert(!blank(self.text@[i as int]));
                return false;
            }
            i = i + 1;
        }
        true
    }

    /// The value of the first attribute of that name.
    pub open spec fn attribute_from(&self, name: Seq<char>, k: int) -> Option<Seq<char>>
        decreases self.attributes@.len() - k,
    {
        if k < 0 || k >= self.attributes@.len() || !(self.kind is Element) {
            None
        } else if self.attributes@[k].name@ == name {
            Some(self.attributes@[k].value@)
        } else {
            self.attribute_from(name, k + 1)
        }
    }

    /// The value of the element's attribute `name`.
    pub open spec fn attribute(&self, name: Seq<char>) -> Option<Seq<char>> {
        self.attribute_from(name, 0)
    }

    /// The value of the element's attribute `name`.
    pub fn attr(&self, name: &str) -> (r: Option<&String>)
        ensures
            match r {
                Some(v) => self.attribute(name@) == Some(v@),
                None => self.attribute(name@) is None,
            },
    {
        if self.kind != NodeKind::Element {
            return None;
        }
        let mut i: usize = 0;
        while i < self.attributes.len()
            invariant
                i <= self.attributes@.len(),
                self.kind is Element,
                self.attribute(name@) == self.attribute_from(name@, i as int),
            decreases self.attributes.len() - i,
        {
            if chars::same(self.attributes[i].name.as_str(), name) {
                return Some(&self.attributes[i].value);
            }
            i = i + 1;
        }
        None
    }
}

/// White space in the sense of HTML: space, tab, line feed, form feed, carriage return.
pub open spec fn blank(c: char) -> bool {
    c == ' ' || c == '\t' || c == '\n' || c == '\x0c' || c == '\r'
}

fn is_blank_char(c: char) -> (r: bool)
    ensures
        r == blank(c),
{
    c == ' ' || c == '\t' || c == '\n' || c == '\x0c' || c == '\r'
}

/// The document.
pub struct DomTree {
    pub nodes: Vec<DomNode>,
    /// The position of each node, by its key.
    pub index: HashMap<u64, usize>,
}

/// The position comes before `i`, if there is one.
pub open spec fn before(p: Option<usize>, i: int) -> bool {
    match p {
        Some(j) => j < i,
        None => true,
    }
}

impl DomTree {
    /// The links of the node at `i` lead to where they may.
    pub open spec fn node_ok(&self, i: int) -> bool {
        let n = self.nodes@[i];
        &&& before(n.parent, i)
        &&& before(n.shadow_host, i)
        &&& before(n.flat_parent, i)
        &&& forall|k: int|
            0 <= k < n.flat_children@.len() ==> i < (#[trigger] n.flat_children@[k])
                < self.nodes@.len()
        &&& self.index@.contains_key(n.id.key())
        &&& self.index@[n.id.key()] == i
    }

    /// Every node comes after the nodes that it hangs on and is found by its id.
    pub open spec fn wf(&self) -> bool {
        &&& forall|i: int| 0 <= i < self.nodes@.len() ==> #[trigger] self.node_ok(i)
        &&& forall|key: u64| #[trigger]
            self.index@.contains_key(key) ==> self.index@[key] < self.nodes@.len()
                && self.nodes@[self.index@[key] as int].id.key() == key
    }

    /// The position of `node`, if the document has it.
    pub open spec fn position(&self, node: NodeId) -> Option<usize> {
        if self.index@.contains_key(node.key()) {
            Some(self.index@[node.key()])
        } else {
            None
        }
    }

    /// A document without nodes.
    pub fn new() -> (r: DomTree)
        ensures
            r.wf(),
            r.nodes@.len() == 0,
    {
        DomTree { nodes: Vec::new(), index: HashMap::new() }
    }

    /// The position of `node`, if the document has it.
    pub fn find(&self, node: NodeId) -> (r: Option<usize>)
        requires
            self.wf(),
        ensures
            r == self.position(node),
            match r {
                Some(i) => i < self.nodes@.len() && self.nodes@[i as int].id == node,
                None => true,
            },
    {
        match self.index.get(&node.to_key()) {
            Some(i) => {
                proof {
                    node_keys_are_distinct(self.nodes@[*i as int].id, node);
                }
                Some(*i)
            },
            None => None,
        }
    }

    /// A node may be added: it is new, and the nodes that it hangs on are there.
    pub open spec fn accepts(&self, node: DomNode) -> bool {
        let n = self.nodes@.len();
        &&& self.position(node.id) is None
        &&& n < usize::MAX
        &&& before(node.parent, n as int)
        &&& before(node.shadow_host, n as int)
        &&& before(node.flat_parent, n as int)
        &&& node.flat_children@.len() == 0
    }

    /// Adds a node after all others and puts it last under the node that it is laid out
    /// under. Refuses one that is there already, that hangs on a node which is not, or that
    /// comes with children.
    pub fn push(&mut self, node: DomNode) -> (r: Option<usize>)
        requires
            old(self).wf(),
        ensures
            final(self).wf(),
            r is Some <==> old(self).accepts(node),
            match r {
                Some(i) => {
                    &&& i == old(self).nodes@.len()
                    &&& final(self).nodes@.len() == i + 1
                    &&& final(self).nodes@[i as int] == node
                    &&& final(self).index@ == old(self).index@.insert(node.id.key(), i)
                    &&& forall|k: int|
                        0 <= k < i && Some(k as usize) != node.flat_parent
                            ==> #[trigger] final(self).nodes@[k] == old(self).nodes@[k]
                    &&& match node.flat_parent {
                        Some(p) => final(self).nodes@[p as int] == (DomNode {
                            flat_children: final(self).nodes@[p as int].flat_children,
                            ..old(self).nodes@[p as int]
                        }) && final(self).nodes@[p as int].flat_children@ == old(
                            self,
                        ).nodes@[p as int].flat_children@.push(i),
                        None => true,
                    }
                },
                None => *final(self) == *old(self),
            },
    {
        let i: usize = self.nodes.len();
        let fits: bool = is_before(node.parent, i) && is_before(node.shadow_host, i) && is_before(
            node.flat_parent,
            i,
        );
        if self.find(node.id).is_some() || i == usize::MAX || !fits || node.flat_children.len()
            != 0 {
            return None;
        }
        let ghost start = *self;
        let key: u64 = node.id.to_key();
        let under: Option<usize> = node.flat_parent;
        self.index.insert(key, i);
        self.nodes.push(node);
        if let Some(p) = under {
            self.nodes[p].flat_children.push(i);
        }
        proof {
            assert forall|k: int| 0 <= k < self.nodes@.len() implies #[trigger] self.node_ok(k) by {
                if k < i {
                    assert(start.node_ok(k));
                    assert(self.nodes@[k].id == start.nodes@[k].id);
                    assert(start.nodes@[k].id.key() != key);
                    let kids = start.nodes@[k].flat_children@;
                    let now = self.nodes@[k].flat_children@;
                    assert forall|j: int| 0 <= j < now.len() implies k < (#[trigger] now[j])
                        < self.nodes@.len() by {
                        if j < kids.len() {
                            assert(now[j] == kids[j]);
                        }
                    }
                }
            }
            assert forall|other: u64| #[trigger] self.index@.contains_key(other) implies (
            self.index@[other] < self.nodes@.len() && self.nodes@[self.index@[other] as int].id.key()
                == other) by {
                if other != key {
                    assert(start.index@.contains_key(other));
                }
            }
        }
        Some(i)
    }

    /// The ancestors of the node at `i`, the nearest first.
    pub open spec fn ancestors(&self, i: int) -> Seq<int>
        decreases i,
    {
        match self.nodes@[i].parent {
            Some(p) => if p < i {
                seq![p as int] + self.ancestors(p as int)
            } else {
                Seq::empty()
            },
            None => Seq::empty(),
        }
    }

    /// `outer` is the node at `i` or an ancestor of it.
    pub open spec fn is_inclusive_ancestor(&self, outer: int, i: int) -> bool
        decreases i,
    {
        outer == i || match self.nodes@[i].parent {
            Some(p) => p < i && self.is_inclusive_ancestor(outer, p as int),
            None => false,
        }
    }

    /// Whether `outer` is the node at `i` or an ancestor of it.
    pub fn contains(&self, outer: usize, i: usize) -> (r: bool)
        requires
            self.wf(),
            i < self.nodes@.len(),
        ensures
            r == self.is_inclusive_ancestor(outer as int, i as int),
        decreases i,
    {
        assert(self.node_ok(i as int));
        if outer == i {
            return true;
        }
        match self.nodes[i].parent {
            Some(p) => self.contains(outer, p),
            None => false,
        }
    }

    /// `candidate` is reached from the node at `i` by parents and shadow hosts, and never by
    /// slot assignment.
    pub open spec fn shadow_reaches(&self, candidate: int, i: int) -> bool
        decreases i,
    {
        candidate == i || match self.nodes@[i].parent {
            Some(p) => p < i && self.shadow_reaches(candidate, p as int),
            None => match self.nodes@[i].shadow_host {
                Some(h) => h < i && self.shadow_reaches(candidate, h as int),
                None => false,
            },
        }
    }

    /// Whether `candidate` lies in the tree of the node at `i` or in one that its shadow
    /// tree is nested in. What is reached only through a slot is out of sight.
    pub fn is_shadow_reachable(&self, candidate: usize, i: usize) -> (r: bool)
        requires
            self.wf(),
            i < self.nodes@.len(),
        ensures
            r == self.shadow_reaches(candidate as int, i as int),
        decreases i,
    {
        assert(self.node_ok(i as int));
        if candidate == i {
            return true;
        }
        match self.nodes[i].parent {
            Some(p) => self.is_shadow_reachable(candidate, p),
            None => match self.nodes[i].shadow_host {
                Some(h) => self.is_shadow_reachable(candidate, h),
                None => false,
            },
        }
    }

    /// The document that the node at `i` is in, if it is in one: where its parents, and the
    /// hosts of the shadow trees that it is in, lead.
    pub open spec fn document_of(&self, i: int) -> Option<int>
        decreases i,
    {
        match self.nodes@[i].parent {
            Some(p) => if p < i {
                self.document_of(p as int)
            } else {
                None
            },
            None => match self.nodes@[i].shadow_host {
                Some(h) => if h < i {
                    self.document_of(h as int)
                } else {
                    None
                },
                None => if self.nodes@[i].kind is Document {
                    Some(i)
                } else {
                    None
                },
            },
        }
    }

    /// The document that the node at `i` is in, if it is in one.
    pub fn containing_document(&self, i: usize) -> (r: Option<usize>)
        requires
            self.wf(),
            i < self.nodes@.len(),
        ensures
            match r {
                Some(d) => self.document_of(i as int) == Some(d as int) && d <= i,
                None => self.document_of(i as int) is None,
            },
        decreases i,
    {
        assert(self.node_ok(i as int));
        match self.nodes[i].parent {
            Some(p) => self.containing_document(p),
            None => match self.nodes[i].shadow_host {
                Some(h) => self.containing_document(h),
                None => if self.nodes[i].kind == NodeKind::Document {
                    Some(i)
                } else {
                    None
                },
            },
        }
    }

    /// The first element of the given id in the tree of the node `root`, from the position
    /// `k` on.
    pub open spec fn element_from(&self, root: int, id: Seq<char>, k: int) -> Option<int>
        decreases self.nodes@.len() - k,
    {
        if k < 0 || k >= self.nodes@.len() {
            None
        } else if self.nodes@[k].attribute("id"@) == Some(id) && self.is_inclusive_ancestor(
            root,
            k,
        ) {
            Some(k)
        } else {
            self.element_from(root, id, k + 1)
        }
    }

    /// The first element of the given id in the tree of the node `root`.
    pub fn element_by_id(&self, root: usize, id: &str) -> (r: Option<usize>)
        requires
            self.wf(),
        ensures
            match r {
                Some(e) => self.element_from(root as int, id@, 0) == Some(e as int) && e
                    < self.nodes@.len(),
                None => self.element_from(root as int, id@, 0) is None,
            },
    {
        let mut k: usize = 0;
        while k < self.nodes.len()
            invariant
                k <= self.nodes@.len(),
                self.wf(),
                self.element_from(root as int, id@, 0) == self.element_from(
                    root as int,
                    id@,
                    k as int,
                ),
            decreases self.nodes.len() - k,
        {
            if let Some(own) = self.nodes[k].attr("id") {
                if chars::same(own.as_str(), id) && self.contains(root, k) {
                    return Some(k);
                }
            }
            k = k + 1;
        }
        None
    }
}

fn is_before(p: Option<usize>, i: usize) -> (r: bool)
    ensures
        r == before(p, i as int),
{
    match p {
        Some(j) => j < i,
        None => true,
    }
}

/// A node and its ancestors are all reachable from it.
pub proof fn ancestors_are_shadow_reachable(dom: &DomTree, outer: int, i: int)
    requires
        dom.is_inclusive_ancestor(outer, i),
    ensures
        dom.shadow_reaches(outer, i),
    decreases i,
{
    if outer != i {
        match dom.nodes@[i].parent {
            Some(p) => {
                ancestors_are_shadow_reachable(dom, outer, p as int);
            },
            None => {},
        }
    }
}

/// An attribute is the first one of its name, and only elements have any.
pub proof fn the_first_attribute_of_a_name_counts(node: &DomNode, name: Seq<char>, k: int)
    requires
        0 <= k < node.attributes@.len(),
        node.attributes@[k].name@ == name,
        forall|j: int| 0 <= j < k ==> (#[trigger] node.attributes@[j]).name@ != name,
    ensures
        node.kind is Element ==> node.attribute(name) == Some(node.attributes@[k].value@),
        !(node.kind is Element) ==> node.attribute(name) is None,
{
    if node.kind is Element {
        lemma_attribute_found(node, name, 0, k);
    }
}

proof fn lemma_attribute_found(node: &DomNode, name: Seq<char>, j: int, k: int)
    requires
        0 <= j <= k < node.attributes@.len(),
        node.kind is Element,
        node.attributes@[k].name@ == name,
        forall|i: int| 0 <= i < k ==> (#[trigger] node.attributes@[i]).name@ != name,
    ensures
        node.attribute_from(name, j) == Some(node.attributes@[k].value@),
    decreases k - j,
{
    if j < k {
        assert(node.attributes@[j].name@ != name);
        lemma_attribute_found(node, name, j + 1, k);
    }
}

/// An attribute that no entry names is not there.
pub proof fn other_attributes_are_absent(node: &DomNode, name: Seq<char>, k: int)
    requires
        forall|j: int|
            0 <= j < node.attributes@.len() ==> (#[trigger] node.attributes@[j]).name@ != name,
    ensures
        node.attribute_from(name, k) is None,
    decreases node.attributes@.len() - k,
{
    if 0 <= k < node.attributes@.len() {
        assert(node.attributes@[k].name@ != name);
        other_attributes_are_absent(node, name, k + 1);
    }
}

/// The node at `path[j + 1]` is the parent of the one at `path[j]`.
pub open spec fn is_parent_step(dom: &DomTree, path: Seq<int>, j: int) -> bool {
    &&& dom.nodes@[path[j]].parent is Some
    &&& dom.nodes@[path[j]].parent->Some_0 == path[j + 1]
    &&& 0 <= path[j + 1] < path[j]
}

/// The node at `path[j + 1]` is the parent of the one at `path[j]`, or where that has none the
/// host of the shadow tree whose root it is.
pub open spec fn is_shadow_step(dom: &DomTree, path: Seq<int>, j: int) -> bool {
    is_parent_step(dom, path, j) || {
        &&& dom.nodes@[path[j]].parent is None
        &&& dom.nodes@[path[j]].shadow_host is Some
        &&& dom.nodes@[path[j]].shadow_host->Some_0 == path[j + 1]
        &&& 0 <= path[j + 1] < path[j]
    }
}

/// Whatever a path of parents leads to contains the node that it starts at.
pub proof fn parents_contain_their_descendants(dom: &DomTree, path: Seq<int>)
    requires
        path.len() > 0,
        forall|j: int| 0 <= j < path.len() - 1 ==> #[trigger] is_parent_step(dom, path, j),
    ensures
        dom.is_inclusive_ancestor(path.last(), path[0]),
    decreases path.len(),
{
    if path.len() > 1 {
        assert(is_parent_step(dom, path, 0));
        let rest = path.drop_first();
        assert forall|j: int| 0 <= j < rest.len() - 1 implies #[trigger] is_parent_step(
            dom,
            rest,
            j,
        ) by {
            assert(is_parent_step(dom, path, j + 1));
            assert(rest[j] == path[j + 1]);
            assert(rest[j + 1] == path[j + 2]);
        }
        assert(rest.last() == path.last());
        parents_contain_their_descendants(dom, rest);
    }
}

/// A node that contains another is reached from it by a path of parents.
pub proof fn what_contains_a_node_is_above_it(dom: &DomTree, outer: int, i: int) -> (path: Seq<int>)
    requires
        dom.is_inclusive_ancestor(outer, i),
    ensures
        path.len() > 0,
        path[0] == i,
        path.last() == outer,
        forall|j: int| 0 <= j < path.len() - 1 ==> #[trigger] is_parent_step(dom, path, j),
    decreases i,
{
    if outer == i {
        seq![i]
    } else {
        let p = dom.nodes@[i].parent->Some_0 as int;
        let rest = what_contains_a_node_is_above_it(dom, outer, p);
        let path = seq![i] + rest;
        assert forall|j: int| 0 <= j < path.len() - 1 implies #[trigger] is_parent_step(
            dom,
            path,
            j,
        ) by {
            if j > 0 {
                assert(is_parent_step(dom, rest, j - 1));
                assert(path[j] == rest[j - 1]);
                assert(path[j + 1] == rest[j]);
            } else {
                assert(path[1] == rest[0]);
            }
        }
        assert(path.last() == rest.last());
        path
    }
}

/// Parents and the hosts of shadow trees are reached from the nodes inside, and where they lead
/// to a document, that is the document of the node.
pub proof fn hosts_are_reached_from_their_shadow_trees(dom: &DomTree, path: Seq<int>)
    requires
        path.len() > 0,
        forall|j: int| 0 <= j < path.len() - 1 ==> #[trigger] is_shadow_step(dom, path, j),
    ensures
        dom.shadow_reaches(path.last(), path[0]),
        dom.document_of(path[0]) == dom.document_of(path.last()),
        dom.nodes@[path.last()].kind is Document && dom.nodes@[path.last()].parent is None
            && dom.nodes@[path.last()].shadow_host is None ==> dom.document_of(path[0]) == Some(
            path.last(),
        ),
    decreases path.len(),
{
    if path.len() > 1 {
        assert(is_shadow_step(dom, path, 0));
        let rest = path.drop_first();
        assert forall|j: int| 0 <= j < rest.len() - 1 implies #[trigger] is_shadow_step(
            dom,
            rest,
            j,
        ) by {
            assert(is_shadow_step(dom, path, j + 1));
            assert(rest[j] == path[j + 1]);
            assert(rest[j + 1] == path[j + 2]);
        }
        assert(rest.last() == path.last());
        hosts_are_reached_from_their_shadow_trees(dom, rest);
    }
}

/// What is reached from a node is so by parents and by hosts of shadow trees.
pub proof fn what_is_reached_is_above_or_hosts(dom: &DomTree, outer: int, i: int) -> (path: Seq<
    int,
>)
    requires
        dom.shadow_reaches(outer, i),
    ensures
        path.len() > 0,
        path[0] == i,
        path.last() == outer,
        forall|j: int| 0 <= j < path.len() - 1 ==> #[trigger] is_shadow_step(dom, path, j),
    decreases i,
{
    if outer == i {
        seq![i]
    } else {
        let p = match dom.nodes@[i].parent {
            Some(p) => p as int,
            None => dom.nodes@[i].shadow_host->Some_0 as int,
        };
        let rest = what_is_reached_is_above_or_hosts(dom, outer, p);
        let path = seq![i] + rest;
        assert forall|j: int| 0 <= j < path.len() - 1 implies #[trigger] is_shadow_step(
            dom,
            path,
            j,
        ) by {
            if j > 0 {
                assert(is_shadow_step(dom, rest, j - 1));
                assert(path[j] == rest[j - 1]);
                assert(path[j + 1] == rest[j]);
            } else {
                assert(path[1] == rest[0]);
            }
        }
        assert(path.last() == rest.last());
        path
    }
}

/// The first element of an id in a tree is found, whatever stands before it.
pub proof fn the_first_element_of_an_id_is_found(
    dom: &DomTree,
    root: int,
    id: Seq<char>,
    j: int,
    k: int,
)
    requires
        0 <= j <= k < dom.nodes@.len(),
        dom.nodes@[k].attribute("id"@) == Some(id),
        dom.is_inclusive_ancestor(root, k),
        forall|i: int|
            j <= i < k ==> (#[trigger] dom.nodes@[i]).attribute("id"@) != Some(id)
                || !dom.is_inclusive_ancestor(root, i),
    ensures
        dom.element_from(root, id, j) == Some(k),
    decreases k - j,
{
    if j < k {
        assert(dom.nodes@[j].attribute("id"@) != Some(id) || !dom.is_inclusive_ancestor(root, j));
        the_first_element_of_an_id_is_found(dom, root, id, j + 1, k);
    }
}

} // verus!
