//! Scroll offsets of scroll containers and of the viewport. They are kept apart from the
//! box tree, so that they outlive it; they are held to the range of the current layout
//! when written and again when read.

use std::collections::HashMap;

use vstd::prelude::*;

use crate::tree::NodeId;
use crate::units::Point;

verus! {

broadcast use vstd::std_specs::hash::group_hash_axioms;

/// Scroll positions, and how often they have changed.
pub struct ScrollState {
    /// The offset of each element that has been scrolled, by its key.
    pub offsets: HashMap<u64, Point>,
    /// The offset of the document.
    pub viewport: Point,
    /// Counts the changes of element offsets. Painted positions include these offsets.
    pub element_version: u64,
    /// Counts the changes of the document's offset. Painting does not depend on it.
    pub document_version: u64,
}

/// The positions themselves.
#[verifier::ext_equal]
pub struct Scrolls {
    pub offsets: Map<u64, Point>,
    pub viewport: Point,
}

impl ScrollState {
    /// The positions themselves.
    pub open spec fn view(&self) -> Scrolls {
        Scrolls { offsets: self.offsets@, viewport: self.viewport }
    }

    /// Nothing is scrolled.
    pub fn new() -> (r: ScrollState)
        ensures
            r@ == (Scrolls { offsets: Map::empty(), viewport: Point { x: 0, y: 0 } }),
            r.element_version == 0,
            r.document_version == 0,
    {
        ScrollState {
            offsets: HashMap::new(),
            viewport: Point { x: 0, y: 0 },
            element_version: 0,
            document_version: 0,
        }
    }

    /// Notes that an element was scrolled to another place.
    pub fn note_element_changed(&mut self)
        ensures
            final(self).element_version == next_version(old(self).element_version),
            *final(self) == (ScrollState {
                element_version: final(self).element_version,
                ..*old(self)
            }),
    {
        self.element_version = bump(self.element_version);
    }

    /// Notes that the document was scrolled to another place.
    pub fn note_document_changed(&mut self)
        ensures
            final(self).document_version == next_version(old(self).document_version),
            *final(self) == (ScrollState {
                document_version: final(self).document_version,
                ..*old(self)
            }),
    {
        self.document_version = bump(self.document_version);
    }

    /// Stores the offset of an element.
    pub fn store(&mut self, node: NodeId, offset: Point)
        ensures
            final(self)@ == (Scrolls {
                offsets: old(self)@.offsets.insert(node.key(), offset),
                viewport: old(self)@.viewport,
            }),
            final(self).element_version == old(self).element_version,
            final(self).document_version == old(self).document_version,
    {
        self.offsets.insert(node.to_key(), offset);
    }
}

/// The version after `v`. It is never `v` itself.
pub open spec fn next_version(v: u64) -> u64 {
    if v == u64::MAX {
        0
    } else {
        (v + 1) as u64
    }
}

/// The version after `v`.
pub fn bump(v: u64) -> (r: u64)
    ensures
        r == next_version(v),
        r != v,
{
    if v == u64::MAX {
        0
    } else {
        v + 1
    }
}

/// What a scroll request did: the position that it led to, and whether that is another than
/// before. A `scroll` event is due exactly when it is.
#[derive(Clone, Copy, PartialEq, Eq, Debug, Structural)]
pub struct ScrollResult {
    pub x: i64,
    pub y: i64,
    pub changed: bool,
}

} // verus!
