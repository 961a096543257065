//! The box tree and its ids.

use oxidepage_layout::tree::{
    BoxId, BoxKind, BoxStyle, LayoutBox, LayoutTree, NodeId, TextBrush, Viewport,
};

#[test]
fn text_brush_roundtrip() {
    let node = NodeId { index: 7, generation: 42 };
    let brush = TextBrush::from_node(node);
    assert_eq!(brush.node(), Some(node));
    assert_eq!(TextBrush::unowned().node(), None);
}

#[test]
fn box_id_taffy_roundtrip() {
    let id = BoxId(123);
    let taffy_id = taffy::NodeId::from(id.to_node_number());
    assert_eq!(BoxId::from_node_number(u64::from(taffy_id)), id);
}

#[test]
fn boxes_are_found_by_their_node() {
    let node = NodeId { index: 3, generation: 1 };
    let mut tree = LayoutTree::new(Viewport { width: 640, height: 640 });
    let root = tree.push_box(LayoutBox::new(BoxKind::Block, None, BoxStyle::initial()));
    let child = tree.push_box(LayoutBox::new(BoxKind::Block, Some(node), BoxStyle::initial()));
    tree.append_child(root, child);
    tree.set_root(Some(root));
    assert_eq!(tree.box_for_node(node), Some(child));
    assert_eq!(tree.box_for_node(NodeId { index: 3, generation: 2 }), None);
    assert_eq!(tree.box_(child).parent, Some(root));
    assert_eq!(tree.box_(root).children, vec![child]);
    assert_eq!(tree.box_count(), 2);
    tree.clear();
    assert_eq!(tree.box_count(), 0);
    assert_eq!(tree.box_for_node(node), None);
}

#[test]
fn node_keys_differ() {
    let a = NodeId { index: 0, generation: 1 };
    let b = NodeId { index: 1, generation: 0x7fff };
    assert_ne!(a.to_key(), b.to_key());
}
