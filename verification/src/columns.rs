//! Cutting a flow into columns.
//!
//! A flow is laid out once, as one tall block, and then cut at break opportunities. A
//! column is filled greedily, to the last opportunity at or above its bottom. Columns of
//! automatic height are balanced: they get the least height at which the flow fits into
//! the wanted number of them.

use vstd::prelude::*;

use crate::units::{clamped, max, max_i64, FAR};

verus! {

/// Upper bound on the number of columns.
pub const MAX_COLUMNS: usize = 64;

/// How many columns of at least `width` with gaps of `gap` fit into `available`: at least
/// one, and no more than the bound.
pub open spec fn columns_that_fit(available: int, width: int, gap: int) -> int {
    if width + gap <= 0 {
        MAX_COLUMNS as int
    } else {
        clamped((available + gap) / (width + gap), 1, MAX_COLUMNS as int)
    }
}

/// The used column count: as many as the count says, no more than fit the width, one
/// where neither is given.
pub open spec fn used_count(available: int, count: Option<u32>, width: Option<i32>, gap: int) -> int {
    let room = max(available, 0);
    clamped(
        match (count, width) {
            (Some(c), None) => c as int,
            (None, Some(w)) => columns_that_fit(room, w as int, gap),
            (Some(c), Some(w)) => if (c as int) < columns_that_fit(room, w as int, gap) {
                c as int
            } else {
                columns_that_fit(room, w as int, gap)
            },
            (None, None) => 1,
        },
        1,
        MAX_COLUMNS as int,
    )
}

/// The used column width: what the gaps leave of the space, shared evenly.
pub open spec fn used_width(available: int, n: int, gap: int) -> int {
    max((max(available, 0) - (n - 1) * gap) / n, 0)
}

fn fit(available: i64, width: i64, gap: i64) -> (r: i64)
    requires
        0 <= available <= i32::MAX,
        i32::MIN <= width <= i32::MAX,
        0 <= gap <= i32::MAX,
    ensures
        r == columns_that_fit(available as int, width as int, gap as int),
{
    let den: i64 = width + gap;
    if den <= 0 {
        return MAX_COLUMNS as i64;
    }
    let n: i64 = (available + gap) / den;
    proof {
        vstd::arithmetic::div_mod::lemma_div_pos_is_pos(available + gap, den as int);
    }
    if n < 1 {
        1
    } else if n > MAX_COLUMNS as i64 {
        MAX_COLUMNS as i64
    } else {
        n
    }
}

/// The used column count and width for a definite available inline size.
pub fn used_columns(available: i32, count: Option<u32>, width: Option<i32>, gap: i32) -> (r: (
    usize,
    i32,
))
    requires
        gap >= 0,
    ensures
        r.0 == used_count(available as int, count, width, gap as int),
        r.1 == used_width(available as int, r.0 as int, gap as int),
        1 <= r.0 <= MAX_COLUMNS,
        r.1 >= 0,
{
    let room: i64 = if available < 0 {
        0
    } else {
        available as i64
    };
    let g: i64 = gap as i64;
    let wanted: i64 = match (count, width) {
        (Some(c), None) => c as i64,
        (None, Some(w)) => fit(room, w as i64, g),
        (Some(c), Some(w)) => {
            let f: i64 = fit(room, w as i64, g);
            if (c as i64) < f {
                c as i64
            } else {
                f
            }
        },
        (None, None) => 1,
    };
    let n: i64 = if wanted < 1 {
        1
    } else if wanted > MAX_COLUMNS as i64 {
        MAX_COLUMNS as i64
    } else {
        wanted
    };
    assert(0 <= (n - 1) * g <= 0x20_0000_0000) by (nonlinear_arith)
        requires
            1 <= n <= 64,
            0 <= g <= 0x7fff_ffff,
    ;
    let left: i64 = room - (n - 1) * g;
    let share: i64 = if left > 0 {
        left / n
    } else {
        0
    };
    proof {
        if left > 0 {
            vstd::arithmetic::div_mod::lemma_div_is_ordered_by_denominator(left as int, 1, n as int);
            vstd::arithmetic::div_mod::lemma_div_pos_is_pos(left as int, n as int);
        } else {
            assert(left as int / n as int <= 0) by (nonlinear_arith)
                requires
                    left <= 0,
                    n >= 1,
            ;
        }
    }
    (n as usize, share as i32)
}

/// A break opportunity: its position in the flow, and its index in the list of all of
/// them in the order of the boxes.
#[derive(Clone, Copy, PartialEq, Eq, Debug, Structural)]
pub struct Opportunity {
    pub offset: i64,
    pub index: usize,
}

/// The positions of the opportunities.
pub open spec fn offsets(ops: Seq<Opportunity>) -> Seq<int> {
    ops.map_values(|op: Opportunity| op.offset as int)
}

/// The positions strictly increase.
pub open spec fn increasing(p: Seq<int>) -> bool {
    forall|i: int, j: int| 0 <= i < j < p.len() ==> p[i] < p[j]
}

/// The positions are inside the range of positions.
pub open spec fn in_range(p: Seq<int>) -> bool {
    forall|i: int| 0 <= i < p.len() ==> -FAR <= #[trigger] p[i] <= FAR
}

/// `ops` lists each position of `raw` once, in order, with the first index that it has
/// there.
pub open spec fn lists_once(ops: Seq<Opportunity>, raw: Seq<i64>) -> bool {
    &&& increasing(offsets(ops))
    &&& forall|k: int|
        0 <= k < ops.len() ==> {
            &&& (#[trigger] ops[k]).index < raw.len()
            &&& raw[ops[k].index as int] == ops[k].offset
            &&& forall|i: int| 0 <= i < ops[k].index ==> #[trigger] raw[i] != ops[k].offset
        }
    &&& forall|i: int|
        0 <= i < raw.len() ==> offsets(ops).contains(#[trigger] raw[i] as int)
}

/// The break opportunities in order of position, each position once.
pub fn sorted_opportunities(raw: &[i64]) -> (r: Vec<Opportunity>)
    ensures
        lists_once(r@, raw@),
{
    let mut out: Vec<Opportunity> = Vec::new();
    let mut i: usize = 0;
    assert(lists_once(out@, raw@.take(0)));
    while i < raw.len()
        invariant
            i <= raw@.len(),
            lists_once(out@, raw@.take(i as int)),
        decreases raw.len() - i,
    {
        insert_opportunity(&mut out, raw, i);
        i = i + 1;
    }
    assert(raw@.take(raw@.len() as int) =~= raw@);
    out
}

fn insert_opportunity(out: &mut Vec<Opportunity>, raw: &[i64], i: usize)
    requires
        i < raw@.len(),
        lists_once(old(out)@, raw@.take(i as int)),
    ensures
        lists_once(final(out)@, raw@.take(i + 1)),
{
    let v: i64 = raw[i];
    let ghost before = out@;
    let ghost head = raw@.take(i as int);
    let ghost now = raw@.take(i + 1);
    let mut at: usize = 0;
    while at < out.len() && out[at].offset < v
        invariant
            at <= out@.len(),
            out@ == before,
            forall|k: int| 0 <= k < at ==> (#[trigger] out@[k]).offset < v,
        decreases out.len() - at,
    {
        at = at + 1;
    }
    assert(increasing(offsets(before)));
    assert forall|k: int| at <= k < before.len() implies v <= (#[trigger] before[k]).offset by {
        assert(offsets(before)[at as int] <= offsets(before)[k]);
    }
    if at < out.len() && out[at].offset == v {
        proof {
            assert(offsets(out@)[at as int] == v);
            assert forall|j: int| 0 <= j < now.len() implies offsets(out@).contains(
                #[trigger] now[j] as int,
            ) by {
                if j < i {
                    assert(now[j] == head[j]);
                }
            }
            assert forall|k: int| 0 <= k < out@.len() implies {
                &&& (#[trigger] out@[k]).index < now.len()
                &&& now[out@[k].index as int] == out@[k].offset
                &&& forall|j: int| 0 <= j < out@[k].index ==> #[trigger] now[j] != out@[k].offset
            } by {
                assert(now[out@[k].index as int] == head[out@[k].index as int]);
                assert forall|j: int| 0 <= j < out@[k].index implies #[trigger] now[j]
                    != out@[k].offset by {
                    assert(now[j] == head[j]);
                }
            }
        }
        return;
    }
    let op = Opportunity { offset: v, index: i };
    out.insert(at, op);
    proof {
        assert(out@ == before.insert(at as int, op));
        assert forall|k: int| 0 <= k < at implies out@[k] == before[k] by {}
        assert forall|k: int| at < k < out@.len() implies out@[k] == before[k - 1] by {}
        assert forall|a: int, b: int| 0 <= a < b < out@.len() implies offsets(out@)[a]
            < offsets(out@)[b] by {
            if b < at {
                assert(offsets(before)[a] < offsets(before)[b]);
            } else if a > at {
                assert(offsets(before)[a - 1] < offsets(before)[b - 1]);
            } else if a < at && b > at {
                assert(before[a].offset < v);
                assert(v <= before[b - 1].offset);
            } else if a == at {
                assert(v <= before[b - 1].offset);
                assert(before[at as int].offset != v);
                assert(offsets(before)[at as int] <= offsets(before)[b - 1]);
            }
        }
        assert forall|k: int| 0 <= k < out@.len() implies {
            &&& (#[trigger] out@[k]).index < now.len()
            &&& now[out@[k].index as int] == out@[k].offset
            &&& forall|j: int| 0 <= j < out@[k].index ==> #[trigger] now[j] != out@[k].offset
        } by {
            if k == at {
                assert forall|j: int| 0 <= j < i implies #[trigger] now[j] != v by {
                    assert(now[j] == head[j]);
                    assert(offsets(before).contains(head[j] as int));
                    let w = choose|w: int|
                        0 <= w < offsets(before).len() && offsets(before)[w] == head[j] as int;
                    if now[j] == v {
                        assert(before[w].offset == v);
                        if w < at {
                            assert(before[w].offset < v);
                        } else {
                            assert(offsets(before)[at as int] <= offsets(before)[w]);
                        }
                    }
                }
            } else {
                let m = if k < at {
                    k
                } else {
                    k - 1
                };
                assert(out@[k] == before[m]);
                assert(now[before[m].index as int] == head[before[m].index as int]);
                assert forall|j: int| 0 <= j < out@[k].index implies #[trigger] now[j]
                    != out@[k].offset by {
                    assert(now[j] == head[j]);
                }
            }
        }
        assert forall|j: int| 0 <= j < now.len() implies offsets(out@).contains(
            #[trigger] now[j] as int,
        ) by {
            if j < i {
                assert(now[j] == head[j]);
                assert(offsets(before).contains(head[j] as int));
                let w = choose|w: int|
                    0 <= w < offsets(before).len() && offsets(before)[w] == head[j] as int;
                if w < at {
                    assert(offsets(out@)[w] == now[j]);
                } else {
                    assert(offsets(out@)[w + 1] == now[j]);
                }
            } else {
                assert(offsets(out@)[at as int] == v);
            }
        }
    }
}

/// The last opportunity behind `c` that is at or above `bottom`, or `c` itself.
pub open spec fn reach(p: Seq<int>, bottom: int, c: int) -> int
    decreases p.len() - c,
{
    if 0 <= c && c + 1 < p.len() && p[c + 1] <= bottom {
        reach(p, bottom, c + 1)
    } else {
        c
    }
}

/// Where a column of height `h` that starts at opportunity `c` ends: at the last
/// opportunity that it holds, or, where it holds none, at the next one, which it
/// overflows to.
pub open spec fn column_end(p: Seq<int>, c: int, h: int) -> int {
    let k = reach(p, p[c] + h, c);
    if k > c {
        k
    } else {
        c + 1
    }
}

proof fn lemma_reach(p: Seq<int>, bottom: int, c: int)
    requires
        0 <= c < p.len(),
    ensures
        c <= reach(p, bottom, c) < p.len(),
        forall|j: int| c < j <= reach(p, bottom, c) ==> #[trigger] p[j] <= bottom,
        reach(p, bottom, c) + 1 < p.len() ==> p[reach(p, bottom, c) + 1] > bottom,
    decreases p.len() - c,
{
    if c + 1 < p.len() && p[c + 1] <= bottom {
        lemma_reach(p, bottom, c + 1);
    }
}

/// The opportunities at which columns of height `h` start and end, from `c` on.
pub open spec fn cuts_from(p: Seq<int>, c: int, h: int) -> Seq<int>
    decreases p.len() - c,
{
    if 0 <= c && c + 1 < p.len() {
        proof {
            lemma_reach_public(p, p[c] + h, c);
        }
        seq![c] + cuts_from(p, column_end(p, c, h), h)
    } else {
        seq![c]
    }
}

/// A column goes forward, and no further than the last opportunity.
pub proof fn lemma_reach_public(p: Seq<int>, bottom: int, c: int)
    requires
        0 <= c < p.len(),
    ensures
        c <= reach(p, bottom, c) < p.len(),
{
    lemma_reach(p, bottom, c);
}

/// The opportunities at which columns of height `h` start and end.
pub open spec fn cuts(p: Seq<int>, h: int) -> Seq<int> {
    if p.len() == 1 {
        seq![0, 0]
    } else {
        cuts_from(p, 0, h)
    }
}

/// The opportunities that `idx` lists.
pub open spec fn picked(ops: Seq<Opportunity>, idx: Seq<int>) -> Seq<Opportunity> {
    idx.map_values(|i: int| ops[i])
}

/// The opportunity at the start of an empty flow.
pub open spec fn origin() -> Opportunity {
    Opportunity { offset: 0, index: 0 }
}

/// The boundaries of columns of height `h`.
pub open spec fn filled(ops: Seq<Opportunity>, h: int) -> Seq<Opportunity> {
    if ops.len() == 0 {
        seq![origin(), origin()]
    } else {
        picked(ops, cuts(offsets(ops), h))
    }
}

fn column_end_of(ops: &[Opportunity], c: usize, h: i64) -> (r: usize)
    requires
        c + 1 < ops@.len(),
        in_range(offsets(ops@)),
        -2 * FAR <= h <= 2 * FAR,
    ensures
        r == column_end(offsets(ops@), c as int, h as int),
        c < r < ops@.len(),
{
    let ghost p = offsets(ops@);
    assert(-FAR <= p[c as int] <= FAR);
    let bottom: i64 = ops[c].offset + h;
    let mut k: usize = c;
    while k + 1 < ops.len() && ops[k + 1].offset <= bottom
        invariant
            c <= k < ops@.len(),
            p == offsets(ops@),
            reach(p, bottom as int, c as int) == reach(p, bottom as int, k as int),
        decreases ops.len() - k,
    {
        k = k + 1;
    }
    if k > c {
        k
    } else {
        c + 1
    }
}

/// Greedily fills columns of height `h`. Each ends at the last break opportunity at or
/// above its bottom; content without one overflows its column.
pub fn fill(ops: &[Opportunity], h: i64) -> (r: Vec<Opportunity>)
    requires
        increasing(offsets(ops@)),
        in_range(offsets(ops@)),
        -2 * FAR <= h <= 2 * FAR,
    ensures
        r@ == filled(ops@, h as int),
{
    let mut bounds: Vec<Opportunity> = Vec::new();
    if ops.len() == 0 {
        bounds.push(Opportunity { offset: 0, index: 0 });
        bounds.push(Opportunity { offset: 0, index: 0 });
        assert(bounds@ =~= filled(ops@, h as int));
        return bounds;
    }
    let ghost p = offsets(ops@);
    if ops.len() == 1 {
        bounds.push(ops[0]);
        bounds.push(ops[0]);
        assert(bounds@ =~= filled(ops@, h as int));
        return bounds;
    }
    bounds.push(ops[0]);
    let mut cursor: usize = 0;
    assert(bounds@ + picked(ops@, cuts_from(p, 0, h as int).skip(1)) =~= filled(ops@, h as int)) by {
        assert(cuts_from(p, 0, h as int)[0] == 0);
    }
    while cursor + 1 < ops.len()
        invariant
            cursor < ops@.len(),
            p == offsets(ops@),
            in_range(p),
            -2 * FAR <= h <= 2 * FAR,
            bounds@ + picked(ops@, cuts_from(p, cursor as int, h as int).skip(1)) == filled(
                ops@,
                h as int,
            ),
        decreases ops.len() - cursor,
    {
        let next: usize = column_end_of(ops, cursor, h);
        let ghost rest = cuts_from(p, next as int, h as int);
        proof {
            assert(cuts_from(p, cursor as int, h as int).skip(1) =~= rest);
            assert(rest[0] == next as int);
            assert(picked(ops@, rest) =~= seq![ops@[next as int]] + picked(ops@, rest.skip(1)));
            assert(bounds@.push(ops@[next as int]) + picked(ops@, rest.skip(1)) =~= bounds@
                + picked(ops@, rest));
        }
        bounds.push(ops[next]);
        cursor = next;
    }
    assert(cuts_from(p, cursor as int, h as int).skip(1) =~= Seq::<int>::empty());
    assert(bounds@ =~= filled(ops@, h as int));
    bounds
}

/// `idx` cuts the whole flow: it goes forward from the first opportunity to the last.
pub open spec fn is_cut(p: Seq<int>, idx: Seq<int>) -> bool {
    &&& idx.len() >= 2
    &&& idx[0] == 0
    &&& idx.last() == p.len() - 1
    &&& forall|k: int| 0 <= k < idx.len() ==> 0 <= #[trigger] idx[k] < p.len()
    &&& increasing(idx)
}

/// The height of the tallest column of a cut.
pub open spec fn tallest(p: Seq<int>, idx: Seq<int>) -> int
    decreases idx.len(),
{
    if idx.len() < 2 {
        0
    } else {
        max(tallest(p, idx.drop_last()), p[idx.last()] - p[idx[idx.len() - 2]])
    }
}

/// The height of the `k`th column of a cut.
pub open spec fn column_height(p: Seq<int>, idx: Seq<int>, k: int) -> int {
    p[idx[k + 1]] - p[idx[k]]
}

/// Every column of the cut is at most `h` tall.
pub open spec fn columns_within(p: Seq<int>, idx: Seq<int>, h: int) -> bool {
    forall|k: int| 0 <= k < idx.len() - 1 ==> #[trigger] column_height(p, idx, k) <= h
}

/// Every column of the cut is at most `h` tall, or one chunk that no opportunity divides.
pub open spec fn within_or_whole(p: Seq<int>, idx: Seq<int>, h: int) -> bool {
    forall|k: int|
        0 <= k < idx.len() - 1 ==> #[trigger] column_height(p, idx, k) <= h || idx[k + 1]
            == idx[k] + 1
}

proof fn lemma_tallest(p: Seq<int>, idx: Seq<int>, h: int)
    requires
        h >= 0,
    ensures
        columns_within(p, idx, h) <==> tallest(p, idx) <= h,
        tallest(p, idx) >= 0,
    decreases idx.len(),
{
    if idx.len() >= 2 {
        let head = idx.drop_last();
        lemma_tallest(p, head, h);
        let m = idx.len() - 2;
        if columns_within(p, idx, h) {
            assert forall|k: int| 0 <= k < head.len() - 1 implies #[trigger] column_height(
                p,
                head,
                k,
            ) <= h by {
                assert(column_height(p, idx, k) <= h);
            }
            assert(column_height(p, idx, m) <= h);
        }
        if tallest(p, idx) <= h {
            assert forall|k: int| 0 <= k < idx.len() - 1 implies #[trigger] column_height(
                p,
                idx,
                k,
            ) <= h by {
                if k < m {
                    assert(column_height(p, head, k) <= h);
                }
            }
        }
    }
}

/// Greedy filling cuts the flow, and each of its columns is within the height or is one
/// chunk that no opportunity divides.
proof fn lemma_cuts_from(p: Seq<int>, c: int, h: int)
    requires
        increasing(p),
        0 <= c < p.len(),
    ensures
        cuts_from(p, c, h).len() >= 1,
        cuts_from(p, c, h)[0] == c,
        cuts_from(p, c, h).last() == p.len() - 1,
        forall|k: int|
            0 <= k < cuts_from(p, c, h).len() ==> c <= #[trigger] cuts_from(p, c, h)[k] < p.len(),
        increasing(cuts_from(p, c, h)),
        within_or_whole(p, cuts_from(p, c, h), h),
    decreases p.len() - c,
{
    if c + 1 < p.len() {
        lemma_reach(p, p[c] + h, c);
        let e = column_end(p, c, h);
        lemma_cuts_from(p, e, h);
        let rest = cuts_from(p, e, h);
        let all = cuts_from(p, c, h);
        assert(all =~= seq![c] + rest);
        assert forall|i: int, j: int| 0 <= i < j < all.len() implies all[i] < all[j] by {
            if i == 0 {
                assert(all[j] == rest[j - 1]);
                assert(rest[j - 1] >= e);
            } else {
                assert(rest[i - 1] < rest[j - 1]);
            }
        }
        assert forall|k: int| 0 <= k < all.len() implies c <= #[trigger] all[k] < p.len() by {
            if k > 0 {
                assert(e <= rest[k - 1] < p.len());
            }
        }
        assert forall|k: int| 0 <= k < all.len() - 1 implies #[trigger] column_height(p, all, k)
            <= h || all[k + 1] == all[k] + 1 by {
            if k == 0 {
                assert(all[1] == e);
            } else {
                assert(all[k] == rest[k - 1]);
                assert(all[k + 1] == rest[k]);
                assert(column_height(p, rest, k - 1) == column_height(p, all, k));
            }
        }
    }
}

/// A taller column, or one that starts further on, ends no earlier.
proof fn lemma_column_end_monotone(p: Seq<int>, c1: int, h1: int, c2: int, h2: int)
    requires
        increasing(p),
        0 <= c1 <= c2,
        c2 + 1 < p.len(),
        h1 <= h2,
    ensures
        column_end(p, c1, h1) <= column_end(p, c2, h2),
{
    let r1 = reach(p, p[c1] + h1, c1);
    let r2 = reach(p, p[c2] + h2, c2);
    lemma_reach(p, p[c1] + h1, c1);
    lemma_reach(p, p[c2] + h2, c2);
    assert(p[c1] <= p[c2]);
    if r1 > r2 {
        assert(p[r2 + 1] <= p[c1] + h1);
    }
}

/// Filling gives no more columns as the height grows.
proof fn lemma_fewer_when_taller(p: Seq<int>, c1: int, h1: int, c2: int, h2: int)
    requires
        increasing(p),
        0 <= c1 <= c2 < p.len(),
        h1 <= h2,
    ensures
        cuts_from(p, c2, h2).len() <= cuts_from(p, c1, h1).len(),
    decreases p.len() - c1,
{
    if c2 + 1 < p.len() {
        lemma_reach(p, p[c1] + h1, c1);
        lemma_reach(p, p[c2] + h2, c2);
        lemma_column_end_monotone(p, c1, h1, c2, h2);
        lemma_fewer_when_taller(p, column_end(p, c1, h1), h1, column_end(p, c2, h2), h2);
    } else {
        lemma_cuts_from(p, c1, h1);
    }
}

/// Greedy filling keeps ahead of every cut whose columns are within the height.
proof fn lemma_greedy_stays_ahead(p: Seq<int>, idx: Seq<int>, k: int, c: int, h: int)
    requires
        increasing(p),
        is_cut(p, idx),
        columns_within(p, idx, h),
        0 <= k < idx.len(),
        idx[k] <= c < p.len(),
    ensures
        cuts_from(p, c, h).len() <= idx.len() - k,
    decreases p.len() - c,
{
    if c + 1 < p.len() {
        assert(k + 1 < idx.len());
        lemma_reach(p, p[c] + h, c);
        let e = column_end(p, c, h);
        let a = idx[k];
        let b = idx[k + 1];
        assert(0 <= b < p.len());
        assert(e >= b) by {
            if b > c {
                assert(column_height(p, idx, k) <= h);
                assert(p[a] <= p[c]);
                let r = reach(p, p[c] + h, c);
                if r < b {
                    assert(p[r + 1] <= p[b]);
                }
            }
        }
        lemma_greedy_stays_ahead(p, idx, k + 1, e, h);
    }
}

/// Every chunk between neighbouring opportunities lies in some column of a cut.
proof fn lemma_chunk_within(p: Seq<int>, idx: Seq<int>, m: int, c: int, h: int)
    requires
        increasing(p),
        is_cut(p, idx),
        columns_within(p, idx, h),
        0 <= c,
        c + 1 < p.len(),
        0 <= m < idx.len(),
        idx[m] <= c,
    ensures
        p[c + 1] - p[c] <= h,
    decreases idx.len() - m,
{
    assert(m + 1 < idx.len());
    let b = idx[m + 1];
    assert(0 <= b < p.len());
    if b <= c {
        lemma_chunk_within(p, idx, m + 1, c, h);
    } else {
        assert(column_height(p, idx, m) <= h);
        assert(p[idx[m]] <= p[c]);
        assert(p[c + 1] <= p[b]);
    }
}

/// Filling to at most the height of a cut gives no column taller than that cut's.
proof fn lemma_fill_within_cut(p: Seq<int>, idx: Seq<int>, h: int, top: int)
    requires
        increasing(p),
        is_cut(p, idx),
        columns_within(p, idx, top),
        h <= top,
        p.len() >= 2,
    ensures
        columns_within(p, cuts(p, h), top),
{
    let all = cuts(p, h);
    lemma_cuts_from(p, 0, h);
    assert forall|k: int| 0 <= k < all.len() - 1 implies #[trigger] column_height(p, all, k)
        <= top by {
        let (a, b) = (all[k], all[k + 1]);
        assert(all[k + 1] < p.len());
        if b == a + 1 {
            lemma_chunk_within(p, idx, 0, a, top);
        }
    }
}

/// Columns of height `h` hold the flow in at most `n` of them.
pub open spec fn fits_in(p: Seq<int>, h: int, n: int) -> bool {
    cuts(p, h).len() - 1 <= n
}

/// `h` is the least height at which columns hold the flow in at most `n` of them.
pub open spec fn is_least_height(p: Seq<int>, n: int, h: int) -> bool {
    0 <= h && fits_in(p, h, n) && forall|g: int| 0 <= g < h ==> !fits_in(p, g, n)
}

/// The least height at which columns hold the flow in at most `n` of them.
pub open spec fn least_height(p: Seq<int>, n: int) -> int {
    choose|h: int| is_least_height(p, n, h)
}

/// The flow needs no balancing: one column, or nothing to share out.
pub open spec fn is_single(p: Seq<int>, n: int) -> bool {
    n <= 1 || p.len() < 2
}

/// The boundaries of at most `n` balanced columns: filled to the tallest column that
/// filling to the least height gives, which is a height that columns can have.
pub open spec fn balanced_cuts(p: Seq<int>, n: int) -> Seq<int> {
    cuts(p, tallest(p, cuts(p, least_height(p, n))))
}

/// The height and the boundaries of at most `n` balanced columns.
pub open spec fn balanced(ops: Seq<Opportunity>, n: int) -> (int, Seq<Opportunity>) {
    let p = offsets(ops);
    if is_single(p, n) {
        let (first, last) = if ops.len() == 0 {
            (origin(), origin())
        } else {
            (ops[0], ops.last())
        };
        (max(last.offset - first.offset, 0), seq![first, last])
    } else {
        (tallest(p, balanced_cuts(p, n)), picked(ops, balanced_cuts(p, n)))
    }
}

fn tallest_of(bounds: &[Opportunity], Ghost(ops): Ghost<Seq<Opportunity>>, Ghost(idx): Ghost<
    Seq<int>,
>) -> (r: i64)
    requires
        bounds@ == picked(ops, idx),
        in_range(offsets(ops)),
        forall|k: int| 0 <= k < idx.len() ==> 0 <= #[trigger] idx[k] < ops.len(),
    ensures
        r == tallest(offsets(ops), idx),
        0 <= r <= 2 * FAR,
{
    let ghost p = offsets(ops);
    let mut best: i64 = 0;
    let mut k: usize = 1;
    assert(bounds@.len() == idx.len());
    if bounds.len() == 0 {
        return 0;
    }
    assert(tallest(p, idx.take(1)) == 0);
    while k < bounds.len()
        invariant
            1 <= k <= bounds@.len(),
            bounds@ == picked(ops, idx),
            bounds@.len() == idx.len(),
            p == offsets(ops),
            in_range(p),
            forall|j: int| 0 <= j < idx.len() ==> 0 <= #[trigger] idx[j] < ops.len(),
            best == tallest(p, idx.take(k as int)),
            0 <= best <= 2 * FAR,
        decreases bounds.len() - k,
    {
        assert(bounds@[k as int] == ops[idx[k as int]]);
        assert(bounds@[k - 1] == ops[idx[k - 1]]);
        assert(-FAR <= p[idx[k as int]] <= FAR);
        assert(-FAR <= p[idx[k - 1]] <= FAR);
        assert(idx.take(k + 1).drop_last() =~= idx.take(k as int));
        best = max_i64(best, bounds[k].offset - bounds[k - 1].offset);
        k = k + 1;
    }
    assert(idx.take(idx.len() as int) =~= idx);
    best
}

proof fn lemma_indices(ops: Seq<Opportunity>, h: int)
    requires
        increasing(offsets(ops)),
        ops.len() >= 2,
    ensures
        is_cut(offsets(ops), cuts(offsets(ops), h)),
        filled(ops, h) == picked(ops, cuts(offsets(ops), h)),
        filled(ops, h).len() == cuts(offsets(ops), h).len(),
{
    let p = offsets(ops);
    lemma_cuts_from(p, 0, h);
    let all = cuts(p, h);
    assert(all.len() >= 2) by {
        if all.len() == 1 {
            assert(all.last() == all[0]);
        }
    }
}

/// The height of at most `n` balanced columns, and their boundaries.
pub fn balance(ops: &[Opportunity], n: usize) -> (r: (i64, Vec<Opportunity>))
    requires
        increasing(offsets(ops@)),
        in_range(offsets(ops@)),
    ensures
        r.0 == balanced(ops@, n as int).0,
        r.1@ == balanced(ops@, n as int).1,
{
    let ghost p = offsets(ops@);
    let len: usize = ops.len();
    if n <= 1 || len < 2 {
        let mut bounds: Vec<Opportunity> = Vec::new();
        let (first, last) = if len == 0 {
            (Opportunity { offset: 0, index: 0 }, Opportunity { offset: 0, index: 0 })
        } else {
            (ops[0], ops[len - 1])
        };
        bounds.push(first);
        bounds.push(last);
        proof {
            if len > 0 {
                assert(-FAR <= p[0] <= FAR);
                assert(-FAR <= p[len - 1] <= FAR);
            }
            assert(bounds@ =~= balanced(ops@, n as int).1);
        }
        return (max_i64(last.offset - first.offset, 0), bounds);
    }
    proof {
        assert(-FAR <= p[0] <= FAR);
        assert(-FAR <= p[len - 1] <= FAR);
        assert(p[0] < p[len - 1]);
    }
    let total: i64 = ops[len - 1].offset - ops[0].offset;
    let mut lo: i64 = -1;
    let mut hi: i64 = total;
    proof {
        lemma_whole_height_is_one_column(p, total as int);
    }
    while hi - lo > 1
        invariant
            -1 <= lo < hi <= total <= 2 * FAR,
            p == offsets(ops@),
            increasing(p),
            in_range(p),
            len == ops@.len(),
            len >= 2,
            n >= 2,
            fits_in(p, hi as int, n as int),
            forall|g: int| 0 <= g <= lo ==> !fits_in(p, g, n as int),
        decreases hi - lo,
    {
        let mid: i64 = lo + (hi - lo) / 2;
        let bounds: Vec<Opportunity> = fill(ops, mid);
        proof {
            lemma_indices(ops@, mid as int);
        }
        if bounds.len() - 1 <= n {
            hi = mid;
        } else {
            proof {
                assert forall|g: int| 0 <= g <= mid implies !fits_in(p, g, n as int) by {
                    lemma_fewer_when_taller(p, 0, g, 0, mid as int);
                }
            }
            lo = mid;
        }
    }
    proof {
        assert(is_least_height(p, n as int, hi as int));
        lemma_least_is_unique(p, n as int, hi as int);
        lemma_indices(ops@, hi as int);
    }
    let first: Vec<Opportunity> = fill(ops, hi);
    let height: i64 = tallest_of(
        first.as_slice(),
        Ghost(ops@),
        Ghost(cuts(offsets(ops@), hi as int)),
    );
    proof {
        lemma_indices(ops@, height as int);
    }
    let bounds: Vec<Opportunity> = fill(ops, height);
    let used: i64 = tallest_of(
        bounds.as_slice(),
        Ghost(ops@),
        Ghost(cuts(offsets(ops@), height as int)),
    );
    (used, bounds)
}

proof fn lemma_least_is_unique(p: Seq<int>, n: int, h: int)
    requires
        is_least_height(p, n, h),
    ensures
        least_height(p, n) == h,
{
    let g = least_height(p, n);
    assert(is_least_height(p, n, g));
    if g < h {
        assert(!fits_in(p, g, n));
    }
    if h < g {
        assert(!fits_in(p, h, n));
    }
}

/// A column as tall as the flow holds all of it.
proof fn lemma_whole_height_is_one_column(p: Seq<int>, total: int)
    requires
        increasing(p),
        p.len() >= 2,
        total == p.last() - p[0],
    ensures
        cuts(p, total).len() == 2,
        total > 0,
{
    let r = reach(p, p[0] + total, 0);
    lemma_reach(p, p[0] + total, 0);
    if r + 1 < p.len() {
        assert(p[r + 1] <= p.last()) by {
            if r + 1 < p.len() - 1 {
                assert(p[r + 1] < p[p.len() - 1]);
            }
        }
    }
    assert(r == p.len() - 1);
    let e = column_end(p, 0, total);
    assert(e == p.len() - 1);
    assert(cuts_from(p, e, total) =~= seq![e]);
    assert(cuts(p, total) =~= seq![0, e]);
    assert(p[0] < p[p.len() - 1]);
}

/// Filling goes forward from the first opportunity to the last and takes no other
/// positions, and a column taller than asked for is one chunk that nothing divides.
pub proof fn filling_cuts_at_opportunities(ops: Seq<Opportunity>, h: int)
    requires
        increasing(offsets(ops)),
        ops.len() >= 2,
    ensures
        is_cut(offsets(ops), cuts(offsets(ops), h)),
        filled(ops, h) == picked(ops, cuts(offsets(ops), h)),
        within_or_whole(offsets(ops), cuts(offsets(ops), h), h),
{
    lemma_indices(ops, h);
    lemma_cuts_from(offsets(ops), 0, h);
}

/// Filling gives no more columns as the height grows.
pub proof fn taller_columns_are_no_more(ops: Seq<Opportunity>, low: int, high: int)
    requires
        increasing(offsets(ops)),
        low <= high,
    ensures
        filled(ops, high).len() <= filled(ops, low).len(),
{
    if ops.len() >= 2 {
        lemma_fewer_when_taller(offsets(ops), 0, low, 0, high);
    }
}

proof fn lemma_least_exists(p: Seq<int>, n: int, h: int)
    requires
        0 <= h,
        fits_in(p, h, n),
    ensures
        exists|g: int| is_least_height(p, n, g),
    decreases h,
{
    if forall|g: int| 0 <= g < h ==> !fits_in(p, g, n) {
        assert(is_least_height(p, n, h));
    } else {
        let g = choose|g: int| 0 <= g < h && fits_in(p, g, n);
        lemma_least_exists(p, n, g);
    }
}

/// Balanced columns are at most as many as wanted, are a cut of the flow, and are as low
/// as can be: no cut of the flow at break opportunities into at most as many columns has
/// a lower tallest column.
pub proof fn balancing_is_optimal(ops: Seq<Opportunity>, n: int, other: Seq<int>)
    requires
        increasing(offsets(ops)),
        n >= 2,
        ops.len() >= 2,
        is_cut(offsets(ops), other),
        other.len() - 1 <= n,
    ensures
        is_cut(offsets(ops), balanced_cuts(offsets(ops), n)),
        balanced_cuts(offsets(ops), n).len() - 1 <= n,
        balanced(ops, n).0 == tallest(offsets(ops), balanced_cuts(offsets(ops), n)),
        balanced(ops, n).0 <= tallest(offsets(ops), other),
{
    let p = offsets(ops);
    let top = tallest(p, other);
    lemma_tallest(p, other, 0);
    lemma_tallest(p, other, top);
    // The other cut's height is one that fits, so the least one is no greater.
    lemma_greedy_stays_ahead(p, other, 0, 0, top);
    assert(fits_in(p, top, n));
    lemma_least_exists(p, n, top);
    let h = least_height(p, n);
    assert(is_least_height(p, n, h));
    if h > top {
        assert(!fits_in(p, top, n));
    }
    lemma_indices(ops, h);
    let first = cuts(p, h);
    lemma_fill_within_cut(p, other, h, top);
    let mid = tallest(p, first);
    lemma_tallest(p, first, top);
    lemma_tallest(p, first, mid);
    // Filling to the tallest of those columns needs no more of them.
    lemma_greedy_stays_ahead(p, first, 0, 0, mid);
    lemma_indices(ops, mid);
    lemma_fill_within_cut(p, other, mid, top);
    lemma_tallest(p, cuts(p, mid), top);
}

/// The columns of a container with a column width fit the container with their gaps between
/// them, and another one would not, short of the most columns that there can be; with a
/// column count there are no more than that.
pub proof fn as_many_columns_as_fit(available: int, count: Option<u32>, width: i32, gap: int)
    requires
        0 <= available <= i32::MAX,
        0 < width,
        0 <= gap <= i32::MAX,
        count matches Some(c) ==> c > 0,
    ensures
        ({
            let n = used_count(available, count, Some(width), gap);
            &&& 1 <= n <= MAX_COLUMNS
            &&& n > 1 ==> n * width + (n - 1) * gap <= available
            &&& count matches Some(c) ==> n <= c
            &&& n < MAX_COLUMNS && count != Some(n as u32) ==> (n + 1) * width + n * gap > available
        }),
{
    let den = width + gap;
    let q = (available + gap) / den;
    assert(den * q <= available + gap < den * q + den) by (nonlinear_arith)
        requires
            den > 0,
            q == (available + gap) / den,
    ;
    let n = used_count(available, count, Some(width), gap);
    assert(n * width + (n - 1) * gap == n * den - gap) by (nonlinear_arith)
        requires
            den == width + gap,
    ;
    assert((n + 1) * width + n * gap == (n + 1) * den - gap) by (nonlinear_arith)
        requires
            den == width + gap,
    ;
    if n <= q {
        assert(n * den <= den * q) by (nonlinear_arith)
            requires
                n <= q,
                den > 0,
        ;
    }
    if n >= q {
        assert((n + 1) * den >= den * q + den) by (nonlinear_arith)
            requires
                n >= q,
                den > 0,
        ;
    }
}

/// A container without a column width has as many columns as its count says.
pub proof fn the_count_is_used_where_nothing_limits_it(available: int, count: u32, gap: int)
    ensures
        1 <= count <= MAX_COLUMNS ==> used_count(available, Some(count), None, gap) == count,
{
}

/// The columns share out the width of their container: together with the gaps they fill it
/// up to less than one unit for each column.
pub proof fn columns_fill_their_container(available: int, n: int, gap: int)
    requires
        1 <= n,
        0 <= gap,
        (n - 1) * gap <= available,
    ensures
        ({
            let w = used_width(available, n, gap);
            &&& w >= 0
            &&& n * w + (n - 1) * gap <= available < n * (w + 1) + (n - 1) * gap
        }),
{
    let rest = available - (n - 1) * gap;
    assert((n - 1) * gap >= 0) by (nonlinear_arith)
        requires
            n >= 1,
            gap >= 0,
    ;
    let w = rest / n;
    assert(n * w <= rest < n * w + n && w >= 0) by (nonlinear_arith)
        requires
            n >= 1,
            rest >= 0,
            w == rest / n,
    ;
    assert(n * (w + 1) == n * w + n) by (nonlinear_arith);
}

} // verus!
