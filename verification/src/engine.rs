//! The generation update: for every pair of cells the window around it is
//! gathered from the source, packed into an index, and looked up in the
//! table. Cells beyond the source's grid are read as dead.

use crate::field::Field;
use crate::life::{alive_at, bit16, bit8, moore_count, outcome, Rule};
use crate::table::{pair_outcome, window, window_outcome, Table, WINDOWS};
use vstd::prelude::*;

verus! {

/// Whether the cell under bit `k` of the window around the pair at columns
/// `x0` and `x0 + 1` of row `y` is alive. The window's column 0 is the
/// plane's column `x0 - 1`, its row 0 the plane's row `y - 1`.
pub open spec fn tap_alive(live: Set<(int, int)>, x0: int, y: int, k: int) -> bool {
    live.contains((x0 - 1 + k % 4, y - 1 + k / 4))
}

/// The window's index as far as its first `k` bits.
pub open spec fn window_index_upto(live: Set<(int, int)>, x0: int, y: int, k: nat) -> u16
    decreases k,
{
    if k == 0 {
        0
    } else {
        let rest = window_index_upto(live, x0, y, (k - 1) as nat);
        if tap_alive(live, x0, y, k - 1) {
            rest | (1u16 << ((k - 1) as u16))
        } else {
            rest
        }
    }
}

/// The index of the window around the pair of cells at columns `x0` and
/// `x0 + 1` of row `y`.
pub open spec fn window_index(live: Set<(int, int)>, x0: int, y: int) -> u16 {
    window_index_upto(live, x0, y, 12)
}

/// The bits of a partial window index are the cells gathered so far.
pub proof fn lemma_window_index_upto(live: Set<(int, int)>, x0: int, y: int, k: nat)
    requires
        k <= 12,
    ensures
        forall|j: u16|
            j < 16 ==> #[trigger] bit16(window_index_upto(live, x0, y, k), j) == (j < k
                && tap_alive(live, x0, y, j as int)),
    decreases k,
{
    if k == 0 {
        assert(forall|j: u16| j < 16 ==> !#[trigger] bit16(0u16, j)) by (bit_vector);
    } else {
        lemma_window_index_upto(live, x0, y, (k - 1) as nat);
        let rest = window_index_upto(live, x0, y, (k - 1) as nat);
        let top: u16 = (k - 1) as u16;
        assert(forall|j: u16|
            j < 16 ==> #[trigger] bit16(rest | (1u16 << top), j) == (j == top || bit16(rest, j)))
            by (bit_vector)
            requires
                top < 12,
        ;
    }
}

/// The window index is below 4096, and the window it names holds exactly
/// the cells around the pair.
pub proof fn lemma_window_index(live: Set<(int, int)>, x0: int, y: int)
    ensures
        window_index(live, x0, y) < WINDOWS,
        forall|c: int, r: int|
            0 <= c < 4 && 0 <= r < 3 ==> #[trigger] window(window_index(live, x0, y)).contains(
                (c, r),
            ) == live.contains((x0 - 1 + c, y - 1 + r)),
{
    let idx = window_index(live, x0, y);
    lemma_window_index_upto(live, x0, y, 12);
    assert(!bit16(idx, 12) && !bit16(idx, 13) && !bit16(idx, 14) && !bit16(idx, 15));
    assert(idx < 4096) by (bit_vector)
        requires
            !bit16(idx, 12) && !bit16(idx, 13) && !bit16(idx, 14) && !bit16(idx, 15),
    ;
    assert forall|c: int, r: int| 0 <= c < 4 && 0 <= r < 3 implies #[trigger] window(idx).contains(
        (c, r),
    ) == live.contains((x0 - 1 + c, y - 1 + r)) by {
        let k: u16 = (4 * r + c) as u16;
        assert(bit16(idx, k) == tap_alive(live, x0, y, k as int));
        assert((4 * r + c) % 4 == c && (4 * r + c) / 4 == r);
    }
}

impl Table {
    /// What the table gives for the cell at `(x, y)` of a plane whose live
    /// cells are `live`: the bit for that cell in the entry for the window
    /// around the pair that the cell belongs to.
    pub open spec fn looked_up(&self, live: Set<(int, int)>, x: int, y: int) -> bool {
        bit8(self.entry(window_index(live, x - x % 2, y) as int), (x % 2) as u8)
    }
}

/// A table that encodes a rule gives every cell the state that the rule
/// decides from the cell and its eight neighbours.
pub proof fn lemma_looked_up(table: &Table, rule: Rule, live: Set<(int, int)>, x: int, y: int)
    requires
        table.encodes(rule),
    ensures
        table.looked_up(live, x, y) == outcome(rule, live, x, y),
{
    let x0 = x - x % 2;
    let idx = window_index(live, x0, y);
    lemma_window_index(live, x0, y);
    let win = window(idx);
    assert forall|c: int, r: int| 0 <= c < 4 && 0 <= r < 3 implies #[trigger] alive_at(
        win,
        c,
        r,
    ) == alive_at(live, x0 - 1 + c, y - 1 + r) by {
        assert(win.contains((c, r)) == live.contains((x0 - 1 + c, y - 1 + r)));
    }
    assert(moore_count(win, 1, 1) == moore_count(live, x0, y));
    assert(moore_count(win, 2, 1) == moore_count(live, x0 + 1, y));
    assert(window_outcome(rule, idx, 1) == outcome(rule, live, x0, y));
    assert(window_outcome(rule, idx, 2) == outcome(rule, live, x0 + 1, y));
    assert(table.entry(idx as int) == pair_outcome(rule, idx));
    assert(bit8(0u8, 0) == false && bit8(1u8, 0) == true && bit8(2u8, 0) == false && bit8(3u8, 0)
        == true && bit8(0u8, 1) == false && bit8(1u8, 1) == false && bit8(2u8, 1) == true && bit8(
        3u8,
        1,
    ) == true) by (bit_vector);
}

/// Whether the cell under column `c`, row `r` of the window around the pair
/// at `(x0, y)` is alive in `source`; a cell beyond the grid is dead.
fn probe(source: &Field, x0: usize, c: usize, y: usize, r: usize) -> (alive: bool)
    requires
        source.wf(),
        x0 + 1 < 8 * source.stride(),
        y < source.height(),
        c < 4,
        r < 3,
    ensures
        alive == source.live().contains((x0 - 1 + c, y - 1 + r)),
{
    if (c == 0 && x0 == 0) || (r == 0 && y == 0) {
        return false;
    }
    let x: usize = if c == 0 {
        x0 - 1
    } else {
        x0 + (c - 1)
    };
    let row: usize = if r == 0 {
        y - 1
    } else {
        y + (r - 1)
    };
    if x >= source.width() || row >= source.height() {
        return false;
    }
    source.get(x, row)
}

/// Packs the window around the pair of cells at columns `x0` and `x0 + 1`
/// of row `y` into its index.
pub fn gather(source: &Field, x0: usize, y: usize) -> (env: u16)
    requires
        source.wf(),
        x0 + 1 < 8 * source.stride(),
        y < source.height(),
    ensures
        env == window_index(source.live(), x0 as int, y as int),
        env < WINDOWS,
{
    let mut env: u16 = 0;
    let mut k: u16 = 0;
    while k < 12
        invariant
            k <= 12,
            source.wf(),
            x0 + 1 < 8 * source.stride(),
            y < source.height(),
            env == window_index_upto(source.live(), x0 as int, y as int, k as nat),
        decreases 12 - k,
    {
        if probe(source, x0, (k % 4) as usize, y, (k / 4) as usize) {
            env = env | (1u16 << k);
        }
        k = k + 1;
    }
    proof {
        lemma_window_index(source.live(), x0 as int, y as int);
    }
    env
}

/// The next states of the eight cells that byte `b` of row `y` stands for,
/// margin included, as the table gives them.
pub fn step_byte(source: &Field, table: &Table, b: usize, y: usize) -> (out: u8)
    requires
        source.wf(),
        b < source.stride(),
        y < source.height(),
    ensures
        forall|j: u8|
            j < 8 ==> #[trigger] bit8(out, j) == table.looked_up(source.live(), 8 * b + j, y as int),
{
    let x0: usize = 8 * b;
    let v0: u8 = table.get(gather(source, x0, y));
    let v1: u8 = table.get(gather(source, x0 + 2, y));
    let v2: u8 = table.get(gather(source, x0 + 4, y));
    let v3: u8 = table.get(gather(source, x0 + 6, y));
    let out: u8 = v0 | (v1 << 2) | (v2 << 4) | (v3 << 6);
    assert(bit8(out, 0) == bit8(v0, 0) && bit8(out, 1) == bit8(v0, 1) && bit8(out, 2) == bit8(v1, 0)
        && bit8(out, 3) == bit8(v1, 1) && bit8(out, 4) == bit8(v2, 0) && bit8(out, 5) == bit8(v2, 1)
        && bit8(out, 6) == bit8(v3, 0) && bit8(out, 7) == bit8(v3, 1)) by (bit_vector)
        requires
            out == v0 | (v1 << 2) | (v2 << 4) | (v3 << 6),
            v0 < 4,
            v1 < 4,
            v2 < 4,
            v3 < 4,
    ;
    assert forall|j: u8| j < 8 implies #[trigger] bit8(out, j) == table.looked_up(
        source.live(),
        8 * b + j,
        y as int,
    ) by {
        let x: int = 8 * b + j;
        assert(x - x % 2 == x0 + 2 * (j as int / 2));
        assert(x % 2 == j as int % 2);
    }
    out
}

/// The bytes of row `y` of the next generation of `source`, margin
/// included.
pub fn row_bytes(source: &Field, table: &Table, y: usize) -> (row: Vec<u8>)
    requires
        source.wf(),
        y < source.height(),
    ensures
        row@.len() == source.stride(),
        forall|x: int|
            0 <= x < 8 * source.stride() ==> bit8(#[trigger] row@[x / 8], (x % 8) as u8)
                == table.looked_up(source.live(), x, y as int),
{
    let w8: usize = source.stride();
    let mut row: Vec<u8> = Vec::new();
    let mut b: usize = 0;
    while b < w8
        invariant
            b <= w8,
            w8 == source.stride(),
            source.wf(),
            y < source.height(),
            row@.len() == b,
            forall|b2: int, j: u8|
                0 <= b2 < b && j < 8 ==> #[trigger] bit8(row@[b2], j) == table.looked_up(
                    source.live(),
                    8 * b2 + j,
                    y as int,
                ),
        decreases w8 - b,
    {
        let out: u8 = step_byte(source, table, b, y);
        row.push(out);
        b = b + 1;
    }
    assert forall|x: int| 0 <= x < 8 * source.stride() implies bit8(
        #[trigger] row@[x / 8],
        (x % 8) as u8,
    ) == table.looked_up(source.live(), x, y as int) by {
        let j: u8 = (x % 8) as u8;
        assert(bit8(row@[x / 8], j) == table.looked_up(source.live(), 8 * (x / 8) + j, y as int));
    }
    row
}

/// Computes row `y` of the next generation of `source` into row `y` of
/// `target`; the other rows of `target` stay.
pub fn step_row(source: &Field, table: &Table, target: &mut Field, y: usize)
    requires
        source.wf(),
        old(target).wf(),
        old(target).width() == source.width(),
        old(target).height() == source.height(),
        y < source.height(),
    ensures
        final(target).wf(),
        final(target).width() == source.width(),
        final(target).height() == source.height(),
        forall|x: int, y2: int|
            #[trigger] final(target).raw(x, y2) == (if y2 == y {
                0 <= x < 8 * source.stride() && table.looked_up(source.live(), x, y2)
            } else {
                old(target).raw(x, y2)
            }),
{
    let w8: usize = source.stride();
    let mut b: usize = 0;
    while b < w8
        invariant
            b <= w8,
            w8 == source.stride(),
            source.wf(),
            target.wf(),
            target.width() == source.width(),
            target.height() == source.height(),
            y < source.height(),
            forall|x: int, y2: int|
                #[trigger] target.raw(x, y2) == (if y2 == y && x < 8 * b {
                    0 <= x && table.looked_up(source.live(), x, y2)
                } else {
                    old(target).raw(x, y2)
                }),
        decreases w8 - b,
    {
        let out: u8 = step_byte(source, table, b, y);
        let ghost before = *target;
        target.put_byte(b, y, out);
        assert forall|x: int, y2: int|
            #[trigger] target.raw(x, y2) == (if y2 == y && x < 8 * (b + 1) {
                0 <= x && table.looked_up(source.live(), x, y2)
            } else {
                old(target).raw(x, y2)
            }) by {
            if y2 == y && 8 * b <= x < 8 * b + 8 {
                let j: u8 = (x - 8 * b) as u8;
                assert(bit8(out, j) == table.looked_up(source.live(), 8 * b + j, y as int));
            } else {
                assert(target.raw(x, y2) == before.raw(x, y2));
            }
        }
        b = b + 1;
    }
    assert forall|x: int, y2: int|
        #[trigger] target.raw(x, y2) == (if y2 == y {
            0 <= x < 8 * source.stride() && table.looked_up(source.live(), x, y2)
        } else {
            old(target).raw(x, y2)
        }) by {
        if y2 == y && x >= 8 * w8 {
            assert(!target.raw(x, y2));
        }
    }
}

} // verus!
