//! The window onto the visible list: where it starts, and how it follows
//! the current selection.

use crate::utils::index_value;
use vstd::prelude::*;

verus! {

/// The greatest offset at which a window of `height` rows still ends
/// within a list of `count` rows.
pub open spec fn max_offset(count: int, height: int) -> int {
    if count > height {
        count - height
    } else {
        0
    }
}

/// An offset brought back into the range that the list allows.
pub open spec fn clamped_offset(offset: int, count: int, height: int) -> int {
    if offset > max_offset(count, height) {
        max_offset(count, height)
    } else {
        offset
    }
}

/// Whether row `pos` lies in the window of `height` rows that starts at
/// `offset`.
pub open spec fn in_window(offset: int, pos: int, height: int) -> bool {
    offset <= pos < offset + height
}

/// The offset after the window has followed row `pos`: the old offset is
/// first brought into range; if the row is then above the window, the
/// window starts at the row, and if it is below, the window ends with it.
/// A window of no height cannot show a row and stays where the clamp puts
/// it.
pub open spec fn spec_scroll(offset: int, pos: int, count: int, height: int) -> int {
    let start = clamped_offset(offset, count, height);
    if height <= 0 {
        start
    } else if pos < start {
        pos
    } else if pos >= start + height {
        pos - height + 1
    } else {
        start
    }
}

/// How far an offset lies from another.
pub open spec fn distance(a: int, b: int) -> int {
    if a <= b {
        b - a
    } else {
        a - b
    }
}

/// Brings an offset into the range that the list allows.
pub fn clamp_offset(offset: usize, count: usize, height: usize) -> (start: usize)
    ensures
        start == clamped_offset(offset as int, count as int, height as int),
        start <= offset,
        start <= max_offset(count as int, height as int),
{
    let limit = if count > height {
        count - height
    } else {
        0
    };
    if offset > limit {
        limit
    } else {
        offset
    }
}

/// Moves the window so that it shows row `pos` of a list of `count` rows.
///
/// The window moves by the least amount that brings the row into it, and
/// never past the end of the list.
pub fn scroll_to_show(offset: usize, pos: usize, count: usize, height: usize) -> (start: usize)
    ensures
        start == spec_scroll(offset as int, pos as int, count as int, height as int),
        pos < count && height > 0 ==> in_window(start as int, pos as int, height as int),
        pos < count ==> start <= max_offset(count as int, height as int),
{
    let start = clamp_offset(offset, count, height);
    if height == 0 {
        start
    } else if pos < start {
        pos
    } else if pos - start >= height {
        pos - (height - 1)
    } else {
        start
    }
}

/// Among the offsets in range whose window shows the row, the one that
/// scrolling picks is nearest to the offset it started from, once that is
/// brought into range.
pub proof fn lemma_scroll_is_least_shift(
    offset: int,
    pos: int,
    count: int,
    height: int,
    other: int,
)
    requires
        0 <= offset,
        0 <= pos < count,
        0 < height,
        0 <= other <= max_offset(count, height),
        in_window(other, pos, height),
    ensures
        in_window(spec_scroll(offset, pos, count, height), pos, height),
        0 <= spec_scroll(offset, pos, count, height) <= max_offset(count, height),
        distance(clamped_offset(offset, count, height), spec_scroll(offset, pos, count, height))
            <= distance(clamped_offset(offset, count, height), other),
{
}

/// The first position at or after `start` at which `list` holds `item`.
pub open spec fn position_from(list: Seq<usize>, item: usize, start: int) -> Option<int>
    decreases list.len() - start,
{
    if start < 0 || start >= list.len() {
        None
    } else if list[start] == item {
        Some(start)
    } else {
        position_from(list, item, start + 1)
    }
}

/// The first position at which `list` holds `item`.
pub open spec fn spec_position(list: Seq<usize>, item: usize) -> Option<int> {
    position_from(list, item, 0)
}

/// A found position holds the item and is the first to do so; where none
/// is found, the item is not in the list.
pub proof fn lemma_position_from(list: Seq<usize>, item: usize, start: int)
    requires
        0 <= start <= list.len(),
    ensures
        match position_from(list, item, start) {
            Some(k) => start <= k < list.len() && list[k] == item && forall|m: int|
                start <= m < k ==> list[m] != item,
            None => forall|m: int| start <= m < list.len() ==> list[m] != item,
        },
    decreases list.len() - start,
{
    if start < list.len() && list[start] != item {
        lemma_position_from(list, item, start + 1);
    }
}

/// An item has a position in a list exactly when the list holds it.
pub proof fn lemma_position_tells_membership(list: Seq<usize>, item: usize)
    ensures
        spec_position(list, item) is Some <==> list.contains(item),
        match spec_position(list, item) {
            Some(k) => 0 <= k < list.len() && list[k] == item,
            None => true,
        },
{
    lemma_position_from(list, item, 0);
    if list.contains(item) {
        let k = choose|k: int| 0 <= k < list.len() && list[k] == item;
        assert(spec_position(list, item) is Some);
    }
}

/// Finds the first position at which `list` holds `item`.
pub fn position_in(list: &[usize], item: usize) -> (found: Option<usize>)
    ensures
        match found {
            Some(k) => spec_position(list@, item) == Some(k as int) && k < list@.len() && list@[k as int]
                == item,
            None => spec_position(list@, item) is None && !list@.contains(item),
        },
{
    proof {
        lemma_position_tells_membership(list@, item);
    }
    let n = list.len();
    let mut k: usize = 0;
    while k < n
        invariant
            k <= n == list@.len(),
            spec_position(list@, item) == position_from(list@, item, k as int),
        decreases n - k,
    {
        if list[k] == item {
            return Some(k);
        }
        k += 1;
    }
    None
}

/// The row reached from row `pos` of a list of `count` rows by `delta`
/// steps, going round at either end. With no row to start from, a step
/// forward leads to the first row and any other to the last.
pub open spec fn spec_step(pos: Option<int>, count: int, delta: int) -> int {
    match pos {
        Some(p) => (p + delta) % count,
        None => if delta > 0 {
            0
        } else {
            count - 1
        },
    }
}

/// Steps through a list of `count` rows, going round at either end. In a
/// list without rows, and from a row that the list does not have, the step
/// leads to the first row.
pub fn step_in_list(pos: Option<usize>, count: usize, delta: i32) -> (row: usize)
    ensures
        count > 0 ==> row < count,
        count > 0 && (pos is Some ==> pos->0 < count) ==> row == spec_step(
            index_value(pos),
            count as int,
            delta as int,
        ),
        count == 0 || (pos is Some && pos->0 >= count) ==> row == 0,
{
    if count == 0 {
        return 0;
    }
    match pos {
        None => if delta > 0 {
            0
        } else {
            count - 1
        },
        Some(p) => {
            if p >= count {
                return 0;
            }
            if delta >= 0 {
                let wide: u64 = delta as u64;
                let step: usize = if (count as u64) <= wide {
                    (wide % (count as u64)) as usize
                } else {
                    wide as usize
                };
                proof {
                    if wide < count {
                        vstd::arithmetic::div_mod::lemma_small_mod(wide as nat, count as nat);
                    }
                    lemma_forward_step(p as int, count as int, delta as int, step as int);
                }
                if step >= count - p {
                    step - (count - p)
                } else {
                    p + step
                }
            } else {
                let wide: u64 = (-(delta as i64)) as u64;
                let back: usize = if (count as u64) <= wide {
                    (wide % (count as u64)) as usize
                } else {
                    wide as usize
                };
                proof {
                    if wide < count {
                        vstd::arithmetic::div_mod::lemma_small_mod(wide as nat, count as nat);
                    }
                    lemma_backward_step(p as int, count as int, delta as int, back as int);
                }
                if back <= p {
                    p - back
                } else {
                    count - (back - p)
                }
            }
        },
    }
}

/// A step forward and a step back lead to the row they started from, and
/// so do a step back and a step forward.
pub proof fn lemma_step_there_and_back(pos: int, count: int)
    requires
        0 <= pos < count,
    ensures
        0 <= spec_step(Some(pos), count, 1) < count,
        0 <= spec_step(Some(pos), count, -1) < count,
        spec_step(Some(spec_step(Some(pos), count, 1)), count, -1) == pos,
        spec_step(Some(spec_step(Some(pos), count, -1)), count, 1) == pos,
{
    let one = 1int % count;
    lemma_forward_step(pos, count, 1, one);
    lemma_backward_step(pos, count, -1, one);
    vstd::arithmetic::div_mod::lemma_mod_bound(1, count);
    let ahead = spec_step(Some(pos), count, 1);
    let behind = spec_step(Some(pos), count, -1);
    if count == 1 {
        assert(1int % 1 == 0);
    } else {
        vstd::arithmetic::div_mod::lemma_small_mod(1, count as nat);
    }
    lemma_backward_step(ahead, count, -1, one);
    lemma_forward_step(behind, count, 1, one);
}

proof fn lemma_forward_step(p: int, count: int, delta: int, step: int)
    requires
        0 <= p < count,
        0 <= delta,
        step == delta % count,
    ensures
        (p + delta) % count == if step >= count - p {
            step - (count - p)
        } else {
            p + step
        },
{
    let q = delta / count;
    vstd::arithmetic::div_mod::lemma_fundamental_div_mod(delta, count);
    vstd::arithmetic::div_mod::lemma_mod_bound(delta, count);
    assert(q * count == count * q) by (nonlinear_arith);
    if step >= count - p {
        assert((q + 1) * count == q * count + count) by (nonlinear_arith);
        vstd::arithmetic::div_mod::lemma_fundamental_div_mod_converse(
            p + delta,
            count,
            q + 1,
            step - (count - p),
        );
    } else {
        vstd::arithmetic::div_mod::lemma_fundamental_div_mod_converse(
            p + delta,
            count,
            q,
            p + step,
        );
    }
}

proof fn lemma_backward_step(p: int, count: int, delta: int, back: int)
    requires
        0 <= p < count,
        delta < 0,
        back == (-delta) % count,
    ensures
        (p + delta) % count == if back <= p {
            p - back
        } else {
            count - (back - p)
        },
{
    let q = (-delta) / count;
    vstd::arithmetic::div_mod::lemma_fundamental_div_mod(-delta, count);
    vstd::arithmetic::div_mod::lemma_mod_bound(-delta, count);
    assert(q * count == count * q) by (nonlinear_arith);
    assert((-q) * count == -(q * count)) by (nonlinear_arith);
    if back <= p {
        vstd::arithmetic::div_mod::lemma_fundamental_div_mod_converse(
            p + delta,
            count,
            -q,
            p - back,
        );
    } else {
        assert((-q - 1) * count == -(q * count) - count) by (nonlinear_arith);
        vstd::arithmetic::div_mod::lemma_fundamental_div_mod_converse(
            p + delta,
            count,
            -q - 1,
            count - (back - p),
        );
    }
}

} // verus!
