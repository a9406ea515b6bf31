//! The automaton as mathematics: live cells as a set of positions, the
//! neighbour count, and the step from one generation to the next.

use vstd::prelude::*;

verus! {

/// Whether bit `k` of the mask `m` is set.
pub open spec fn bit16(m: u16, k: u16) -> bool {
    (m >> k) & 1 == 1
}

/// Whether bit `k` of the byte `b` is set.
pub open spec fn bit8(b: u8, k: u8) -> bool {
    (b >> k) & 1 == 1
}

/// A birth/survival rule: bit `k` of `borns` says that a dead cell with
/// exactly `k` live neighbours comes alive, bit `k` of `survives` that a live
/// cell with exactly `k` live neighbours stays alive.
#[derive(Clone, Copy, Debug, PartialEq, Eq, Structural)]
pub struct Rule {
    pub borns: u16,
    pub survives: u16,
}

/// 1 where the cell at column `x`, row `y` is in `live`, else 0.
pub open spec fn alive_at(live: Set<(int, int)>, x: int, y: int) -> nat {
    if live.contains((x, y)) {
        1
    } else {
        0
    }
}

/// The number of live cells among the eight neighbours of `(x, y)`.
pub open spec fn moore_count(live: Set<(int, int)>, x: int, y: int) -> nat {
    alive_at(live, x - 1, y - 1) + alive_at(live, x, y - 1) + alive_at(live, x + 1, y - 1)
        + alive_at(live, x - 1, y) + alive_at(live, x + 1, y) + alive_at(live, x - 1, y + 1)
        + alive_at(live, x, y + 1) + alive_at(live, x + 1, y + 1)
}

/// The next state of a cell that is `alive` now and has `count` live
/// neighbours.
pub open spec fn next_state(rule: Rule, alive: bool, count: nat) -> bool {
    if alive {
        bit16(rule.survives, count as u16)
    } else {
        bit16(rule.borns, count as u16)
    }
}

/// The next state of the cell at `(x, y)` on an unbounded plane whose live
/// cells are `live`.
pub open spec fn outcome(rule: Rule, live: Set<(int, int)>, x: int, y: int) -> bool {
    next_state(rule, live.contains((x, y)), moore_count(live, x, y))
}

/// Whether `(x, y)` lies on a grid of `w` columns and `h` rows.
pub open spec fn on_grid(w: int, h: int, x: int, y: int) -> bool {
    0 <= x < w && 0 <= y < h
}

/// One generation on a `w` by `h` grid whose surroundings are dead and stay
/// dead: a cell of the grid takes its `outcome`, everything else is dead.
pub open spec fn life_step(rule: Rule, w: int, h: int, live: Set<(int, int)>) -> Set<(int, int)> {
    Set::new(|p: (int, int)| on_grid(w, h, p.0, p.1) && outcome(rule, live, p.0, p.1))
}

/// The live cells after `n` generations.
pub open spec fn generations(rule: Rule, w: int, h: int, live: Set<(int, int)>, n: nat) -> Set<
    (int, int),
>
    decreases n,
{
    if n == 0 {
        live
    } else {
        life_step(rule, w, h, generations(rule, w, h, live, (n - 1) as nat))
    }
}

/// Whether every cell of `live` lies on the `w` by `h` grid.
pub open spec fn confined(w: int, h: int, live: Set<(int, int)>) -> bool {
    forall|p: (int, int)| #[trigger] live.contains(p) ==> on_grid(w, h, p.0, p.1)
}

/// Whether the rule brings a dead cell without live neighbours to life.
pub open spec fn births_from_zero(rule: Rule) -> bool {
    bit16(rule.borns, 0)
}

} // verus!
