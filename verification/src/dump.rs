//! A text of the box tree, one line per box, with where the boxes are.

use vstd::prelude::*;

use crate::budget::{decimal_text, is_power_of_ten, push_decimal};
use crate::chars;
use crate::engine::LayoutEngine;
use crate::tree::{BoxId, BoxKind, Display, LayoutBox, LayoutTree, NodeId};

verus! {

/// The text between quotes that stands for `s`, with escapes for what cannot be shown.
pub uninterp spec fn quoted(s: Seq<char>) -> Seq<char>;

/// Formats with the `Debug` impl of `str`, whose output depends on the text alone.
#[verifier::external_body]
fn quote(s: &str) -> (r: String)
    ensures
        r@ == quoted(s@),
{
    format!("{s:?}")
}

/// A length in px.
pub open spec fn px_text(v: int) -> Seq<char> {
    if v < 0 {
        seq!['-'] + decimal_text(
            ((-v) / 64) as nat,
            ((-v) % 64 * 15_625) as nat,
            100_000,
        )
    } else {
        decimal_text((v / 64) as nat, (v % 64 * 15_625) as nat, 100_000)
    }
}

fn push_px(out: &mut String, v: i32)
    ensures
        final(out)@ == old(out)@ + px_text(v as int),
{
    proof {
        reveal_with_fuel(is_power_of_ten, 7);
    }
    if v < 0 {
        out.push('-');
        let u: u64 = (-(v as i64)) as u64;
        push_decimal(out, (u / 64) as u128, (u % 64) as u32 * 15_625, 100_000);
    } else {
        let u: u64 = v as u64;
        push_decimal(out, (u / 64) as u128, (u % 64) as u32 * 15_625, 100_000);
    }
    assert(out@ =~= old(out)@ + px_text(v as int));
}

/// The name of a kind of box.
pub open spec fn label_of(b: LayoutBox) -> Seq<char> {
    match b.kind {
        BoxKind::Block => match b.style.display {
            Display::Flex => "FLEX"@,
            Display::Grid => "GRID"@,
            Display::Hidden => "NONE"@,
            Display::Block => "BLOCK"@,
        },
        BoxKind::InlineRoot => "INLINE"@,
        BoxKind::AnonymousBlock => "ANON"@,
        BoxKind::Replaced => "REPLACED"@,
        BoxKind::TableRoot => "TABLE"@,
        BoxKind::MulticolRoot => "MULTICOL"@,
    }
}

fn push_label(out: &mut String, b: &LayoutBox)
    ensures
        final(out)@ == old(out)@ + label_of(*b),
{
    match b.kind {
        BoxKind::Block => match b.style.display {
            Display::Flex => out.append("FLEX"),
            Display::Grid => out.append("GRID"),
            Display::Hidden => out.append("NONE"),
            Display::Block => out.append("BLOCK"),
        },
        BoxKind::InlineRoot => out.append("INLINE"),
        BoxKind::AnonymousBlock => out.append("ANON"),
        BoxKind::Replaced => out.append("REPLACED"),
        BoxKind::TableRoot => out.append("TABLE"),
        BoxKind::MulticolRoot => out.append("MULTICOL"),
    }
}

/// The node of a box.
pub open spec fn node_text(node: Option<NodeId>) -> Seq<char> {
    match node {
        Some(n) => " node="@ + chars::decimal_digits(n.index as nat) + seq!['v']
            + chars::decimal_digits(n.generation as nat),
        None => Seq::empty(),
    }
}

fn push_node(out: &mut String, node: Option<NodeId>)
    ensures
        final(out)@ == old(out)@ + node_text(node),
{
    if let Some(n) = node {
        out.append(" node=");
        chars::push_digits(out, n.index as u128);
        out.push('v');
        chars::push_digits(out, n.generation as u128);
    }
    assert(out@ =~= old(out)@ + node_text(node));
}

/// The indent of a line.
pub open spec fn indent(n: int) -> Seq<char> {
    chars::repeated(" "@, n as nat)
}

/// The line of a box.
pub open spec fn box_line(b: LayoutBox, depth: int) -> Seq<char> {
    let l = b.final_layout;
    indent(2 * depth) + label_of(b) + node_text(b.dom_node) + " @ ("@ + px_text(
        l.location.x as int,
    ) + ", "@ + px_text(l.location.y as int) + ") "@ + px_text(l.size.width as int) + "x"@
        + px_text(l.size.height as int) + "\n"@
}

/// The line of a multi-column container.
pub open spec fn columns_line(b: LayoutBox, depth: int) -> Seq<char> {
    match b.multicol {
        Some(mc) => indent(2 * depth + 2) + "columns: "@ + chars::decimal_digits(mc.columns@.len())
            + " x "@ + px_text(mc.used_width as int) + " gap "@ + px_text(mc.used_gap as int)
            + "\n"@,
        None => Seq::empty(),
    }
}

/// The start of a text, up to 40 characters.
pub open spec fn preview(s: Seq<char>) -> Seq<char> {
    s.take(
        if s.len() < 40 {
            s.len() as int
        } else {
            40
        },
    )
}

/// The line of a box with text.
pub open spec fn text_line(b: LayoutBox, depth: int) -> Seq<char> {
    match b.ifc {
        Some(ifc) => if ifc.text@.len() > 0 {
            indent(2 * depth + 2) + "text: "@ + quoted(preview(ifc.text@)) + "\n"@
        } else {
            Seq::empty()
        },
        None => Seq::empty(),
    }
}

/// The lines of the box `id` and of all inside it.
pub open spec fn box_text(tree: LayoutTree, id: int, depth: int) -> Seq<char>
    decreases tree.boxes@.len() - id, tree.boxes@[id].children@.len() + 1,
{
    box_line(tree.boxes@[id], depth) + columns_line(tree.boxes@[id], depth) + text_line(
        tree.boxes@[id],
        depth,
    ) + children_text(tree, id, depth, 0)
}

/// The lines of the children of the box `id`, from the `k`th on.
pub open spec fn children_text(tree: LayoutTree, id: int, depth: int, k: int) -> Seq<char>
    decreases tree.boxes@.len() - id, tree.boxes@[id].children@.len() - k,
{
    let kids = tree.boxes@[id].children@;
    if 0 <= k < kids.len() {
        let c = kids[k].0 as int;
        (if id < c < tree.boxes@.len() {
            box_text(tree, c, depth + 1)
        } else {
            Seq::empty()
        }) + children_text(tree, id, depth, k + 1)
    } else {
        Seq::empty()
    }
}

fn push_box_line(out: &mut String, b: &LayoutBox, depth: u64)
    requires
        depth <= u32::MAX,
    ensures
        final(out)@ == old(out)@ + box_line(*b, depth as int),
{
    let ghost start = out@;
    let space: String = chars::repeat(" ", 2 * depth);
    out.append(space.as_str());
    push_label(out, b);
    push_node(out, b.dom_node);
    out.append(" @ (");
    push_px(out, b.final_layout.location.x);
    out.append(", ");
    push_px(out, b.final_layout.location.y);
    out.append(") ");
    push_px(out, b.final_layout.size.width);
    out.append("x");
    push_px(out, b.final_layout.size.height);
    out.append("\n");
    assert(out@ =~= start + box_line(*b, depth as int));
}

fn push_columns_line(out: &mut String, b: &LayoutBox, depth: u64)
    requires
        depth <= u32::MAX,
    ensures
        final(out)@ == old(out)@ + columns_line(*b, depth as int),
{
    let ghost start = out@;
    if let Some(mc) = &b.multicol {
        let space: String = chars::repeat(" ", 2 * depth + 2);
        out.append(space.as_str());
        out.append("columns: ");
        chars::push_digits(out, mc.columns.len() as u128);
        out.append(" x ");
        push_px(out, mc.used_width);
        out.append(" gap ");
        push_px(out, mc.used_gap);
        out.append("\n");
    }
    assert(out@ =~= start + columns_line(*b, depth as int));
}

fn push_text_line(out: &mut String, b: &LayoutBox, depth: u64)
    requires
        depth <= u32::MAX,
    ensures
        final(out)@ == old(out)@ + text_line(*b, depth as int),
{
    let ghost start = out@;
    if let Some(ifc) = &b.ifc {
        let text: Vec<char> = chars::to_chars(ifc.text.as_str());
        if text.len() > 0 {
            let space: String = chars::repeat(" ", 2 * depth + 2);
            out.append(space.as_str());
            out.append("text: ");
            let n: usize = if text.len() < 40 {
                text.len()
            } else {
                40
            };
            let short: String = chars::slice_to_string(text.as_slice(), 0, n);
            assert(short@ =~= preview(ifc.text@));
            let shown: String = quote(short.as_str());
            out.append(shown.as_str());
            out.append("\n");
        }
    }
    assert(out@ =~= start + text_line(*b, depth as int));
}

fn dump_box(tree: &LayoutTree, out: &mut String, id: BoxId, depth: u64)
    requires
        tree.wf(),
        tree.has(id),
        depth <= id.0,
    ensures
        final(out)@ == old(out)@ + box_text(*tree, id.0 as int, depth as int),
    decreases tree.boxes@.len() - id.0,
{
    assert(tree.links_ok(id.0 as int));
    let ghost start = out@;
    let b: &LayoutBox = tree.box_(id);
    push_box_line(out, b, depth);
    push_columns_line(out, b, depth);
    push_text_line(out, b, depth);
    let ghost all = out@ + children_text(*tree, id.0 as int, depth as int, 0);
    assert(all =~= start + box_text(*tree, id.0 as int, depth as int));
    let mut k: usize = 0;
    while k < b.children.len()
        invariant
            k <= b.children@.len(),
            tree.wf(),
            tree.has(id),
            depth <= id.0,
            *b == tree.at(id),
            tree.links_ok(id.0 as int),
            all == out@ + children_text(*tree, id.0 as int, depth as int, k as int),
        decreases b.children.len() - k,
    {
        let c: BoxId = b.children[k];
        assert(id.0 < b.children@[k as int].0 < tree.boxes@.len());
        let ghost before = out@;
        dump_box(tree, out, c, depth + 1);
        proof {
            let rest = children_text(*tree, id.0 as int, depth as int, k + 1);
            assert(out@ + rest =~= before + (box_text(*tree, c.0 as int, depth + 1) + rest));
        }
        k = k + 1;
    }
    assert(out@ =~= all);
}

impl LayoutEngine {
    /// A text of the box tree: a line per box with its kind, its node and where it is, and
    /// lines for columns and for the start of its text.
    pub fn dump(&self) -> (r: String)
        requires
            self.wf(),
        ensures
            r@ == match self.tree.root {
                Some(root) => box_text(self.tree, root.0 as int, 0),
                None => "(no layout)\n"@,
            },
    {
        let mut out: String = String::new();
        match self.tree.root {
            Some(root) => {
                dump_box(&self.tree, &mut out, root, 0);
            },
            None => {
                out.append("(no layout)\n");
            },
        }
        assert(out@ =~= match self.tree.root {
            Some(root) => box_text(self.tree, root.0 as int, 0),
            None => "(no layout)\n"@,
        });
        out
    }
}

/// The text `part` stands in `all` from `at` on.
pub open spec fn is_part(all: Seq<char>, at: int, part: Seq<char>) -> bool {
    &&& 0 <= at
    &&& at + part.len() <= all.len()
    &&& forall|i: int| 0 <= i < part.len() ==> #[trigger] part[i] == all[at + i]
}

proof fn lemma_child_lines(tree: LayoutTree, id: int, depth: int, j: int, k: int) -> (at: int)
    requires
        0 <= j <= k < tree.boxes@[id].children@.len(),
        id < tree.boxes@[id].children@[k].0 < tree.boxes@.len(),
    ensures
        is_part(
            children_text(tree, id, depth, j),
            at,
            box_text(tree, tree.boxes@[id].children@[k].0 as int, depth + 1),
        ),
    decreases k - j,
{
    let kids = tree.boxes@[id].children@;
    let all = children_text(tree, id, depth, j);
    let rest = children_text(tree, id, depth, j + 1);
    let c = kids[j].0 as int;
    let own = if id < c < tree.boxes@.len() {
        box_text(tree, c, depth + 1)
    } else {
        Seq::empty()
    };
    assert(all == own + rest);
    if j == k {
        0
    } else {
        let at = lemma_child_lines(tree, id, depth, j + 1, k);
        let part = box_text(tree, kids[k].0 as int, depth + 1);
        assert forall|i: int| 0 <= i < part.len() implies #[trigger] part[i] == all[own.len() + at
            + i] by {
            assert(part[i] == rest[at + i]);
        }
        own.len() + at
    }
}

/// The lines of a box start with its own, with twice its depth in spaces before the name of its
/// kind, and hold after that the lines of each child, one level deeper.
pub proof fn every_child_is_dumped_below_its_parent(tree: LayoutTree, id: int, depth: int, k: int) -> (at:
    int)
    requires
        0 <= id < tree.boxes@.len(),
        0 <= depth,
        0 <= k < tree.boxes@[id].children@.len(),
        id < tree.boxes@[id].children@[k].0 < tree.boxes@.len(),
    ensures
        is_part(box_text(tree, id, depth), 0, box_line(tree.boxes@[id], depth)),
        at >= box_line(tree.boxes@[id], depth).len(),
        is_part(
            box_text(tree, id, depth),
            at,
            box_text(tree, tree.boxes@[id].children@[k].0 as int, depth + 1),
        ),
{
    let b = tree.boxes@[id];
    let all = box_text(tree, id, depth);
    let lead = box_line(b, depth) + columns_line(b, depth) + text_line(b, depth);
    let rest = children_text(tree, id, depth, 0);
    assert(all == lead + rest);
    let at = lemma_child_lines(tree, id, depth, 0, k);
    let part = box_text(tree, b.children@[k].0 as int, depth + 1);
    assert forall|i: int| 0 <= i < part.len() implies #[trigger] part[i] == all[lead.len() + at
        + i] by {
        assert(part[i] == rest[at + i]);
    }
    let line = box_line(b, depth);
    assert forall|i: int| 0 <= i < line.len() implies #[trigger] line[i] == all[0 + i] by {
        assert(lead[i] == line[i]);
    }
    lead.len() + at
}

/// A whole number of px is dumped as that number, and half a px as a decimal fraction.
pub proof fn whole_lengths_are_dumped_as_numbers(n: int)
    requires
        n >= 0,
    ensures
        px_text(64 * n) == chars::decimal(n),
        n > 0 ==> px_text(-64 * n) == chars::decimal(-n),
        px_text(64 * n + 32) == chars::decimal(n) + seq!['.', '5'],
{
    assert((64 * n) / 64 == n && (64 * n) % 64 == 0);
    assert((64 * n + 32) / 64 == n && (64 * n + 32) % 64 == 32);
    let whole = chars::decimal_digits(n as nat);
    assert(whole + Seq::<char>::empty() =~= whole);
    reveal_with_fuel(crate::budget::fraction_digits, 3);
    assert(crate::budget::fraction_digits(500_000, 100_000) =~= seq!['5']);
    assert(seq!['.'] + seq!['5'] =~= seq!['.', '5']);
}

} // verus!
