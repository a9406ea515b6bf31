//! The transition table: for each of the 4096 windows of four columns and
//! three rows, the next state of the two cells in the middle of the window.

use crate::life::{alive_at, bit16, moore_count, next_state, Rule};
use vstd::prelude::*;

verus! {

/// The number of windows, and of entries in a table.
pub const WINDOWS: u16 = 4096;

/// The live cells of the window with index `env`. The window has columns 0
/// to 3 and rows 0 to 2; the cell in column `c` and row `r` is bit `4 r + c`
/// of `env`:
///
/// ```text
///  0  1  2  3
///  4  5  6  7
///  8  9 10 11
/// ```
pub open spec fn window(env: u16) -> Set<(int, int)> {
    Set::new(
        |p: (int, int)| 0 <= p.0 < 4 && 0 <= p.1 < 3 && bit16(env, (4 * p.1 + p.0) as u16),
    )
}

/// The next state of the window's cell in column `c` of the middle row,
/// found by counting its eight neighbours in the window.
pub open spec fn window_outcome(rule: Rule, env: u16, c: int) -> bool {
    next_state(rule, window(env).contains((c, 1)), moore_count(window(env), c, 1))
}

/// Two cell states as a table entry: the left cell is bit 0, the right bit 1.
pub open spec fn pair_value(left: bool, right: bool) -> u8 {
    if left && right {
        3
    } else if right {
        2
    } else if left {
        1
    } else {
        0
    }
}

/// The entry that a table for `rule` holds for the window `env`: the next
/// states of the cells in columns 1 and 2 of the middle row.
pub open spec fn pair_outcome(rule: Rule, env: u16) -> u8 {
    pair_value(window_outcome(rule, env, 1), window_outcome(rule, env, 2))
}

/// A transition table: 4096 entries of two bits, four to a byte.
pub struct Table {
    values: [u8; 1024],
}

/// 1 where bit `k` of `env` is set, else 0.
fn tap(env: u16, k: u16) -> (t: u16)
    requires
        k < 12,
    ensures
        t == (if bit16(env, k) { 1u16 } else { 0u16 }),
{
    let t: u16 = (env >> k) & 1;
    assert(((env >> k) & 1) == 0 || ((env >> k) & 1) == 1) by (bit_vector);
    t
}

/// Whether bit `count` of `mask` is set.
fn allows(mask: u16, count: u16) -> (b: bool)
    requires
        count <= 8,
    ensures
        b == bit16(mask, count),
{
    assert(((mask >> count) & 1) == 0 || ((mask >> count) & 1) == 1) by (bit_vector);
    (mask >> count) & 1 != 0
}

/// The next state of the cell in column `c` of the middle row of the window
/// `env`.
#[verifier::rlimit(40)]
fn decide(borns: u16, survives: u16, env: u16, c: u16) -> (alive: bool)
    requires
        env < WINDOWS,
        c == 1 || c == 2,
    ensures
        alive == window_outcome(Rule { borns, survives }, env, c as int),
{
    let a0: u16 = tap(env, c - 1);
    let a1: u16 = tap(env, c);
    let a2: u16 = tap(env, c + 1);
    let b0: u16 = tap(env, c + 3);
    let mid: u16 = tap(env, c + 4);
    let b2: u16 = tap(env, c + 5);
    let c0: u16 = tap(env, c + 7);
    let c1: u16 = tap(env, c + 8);
    let c2: u16 = tap(env, c + 9);
    proof {
        let win = window(env);
        let x = c as int;
        assert(a0 == alive_at(win, x - 1, 0));
        assert(a1 == alive_at(win, x, 0));
        assert(a2 == alive_at(win, x + 1, 0));
        assert(b0 == alive_at(win, x - 1, 1));
        assert(mid == alive_at(win, x, 1));
        assert(b2 == alive_at(win, x + 1, 1));
        assert(c0 == alive_at(win, x - 1, 2));
        assert(c1 == alive_at(win, x, 2));
        assert(c2 == alive_at(win, x + 1, 2));
    }
    let count: u16 = a0 + a1 + a2 + b0 + b2 + c0 + c1 + c2;
    if mid != 0 {
        allows(survives, count)
    } else {
        allows(borns, count)
    }
}

impl Table {
    /// The table's bytes: four entries each, the entry for the window
    /// `env` in bits `2 (env % 4)` and `2 (env % 4) + 1` of byte `env / 4`.
    pub closed spec fn bytes(&self) -> Seq<u8> {
        self.values@
    }

    /// The entry for the window `env`, a value below 4.
    pub open spec fn entry(&self, env: int) -> u8 {
        (self.bytes()[env / 4] >> (((env % 4) * 2) as u8)) & 3
    }

    /// Whether the table holds, for every window, what `rule` decides.
    pub open spec fn encodes(&self, rule: Rule) -> bool {
        forall|env: u16| env < WINDOWS ==> #[trigger] self.entry(env as int) == pair_outcome(rule, env)
    }

    /// Builds the table of the rule with the masks `borns` and `survives`.
    pub fn new(borns: u16, survives: u16) -> (t: Table)
        ensures
            t.encodes(Rule { borns, survives }),
            t.bytes().len() == 1024,
    {
        let mut t = Table { values: [0u8; 1024] };
        let mut env: u16 = 0;
        while env < WINDOWS
            invariant
                env <= WINDOWS,
                forall|e: u16|
                    e < env ==> #[trigger] t.entry(e as int) == pair_outcome(
                        Rule { borns, survives },
                        e,
                    ),
            decreases WINDOWS - env,
        {
            let mut value: u8 = 0;
            if decide(borns, survives, env, 1) {
                value = value + 1;
            }
            if decide(borns, survives, env, 2) {
                value = value + 2;
            }
            t.set(env, value);
            env = env + 1;
        }
        t
    }

    /// The table's bytes.
    pub fn values(&self) -> (bytes: &[u8; 1024])
        ensures
            bytes@ == self.bytes(),
    {
        &self.values
    }

    /// The entry for the window `env`.
    pub fn get(&self, env: u16) -> (value: u8)
        requires
            env < WINDOWS,
        ensures
            value == self.entry(env as int),
            value < 4,
    {
        let d: u8 = self.values[(env / 4) as usize];
        let shift: u8 = ((env % 4) * 2) as u8;
        assert(((d >> shift) & 3) < 4) by (bit_vector);
        (d >> shift) & 3
    }

    /// Stores `value` as the entry for the window `env`; the other entries
    /// stay.
    fn set(&mut self, env: u16, value: u8)
        requires
            env < WINDOWS,
            value < 4,
        ensures
            final(self).entry(env as int) == value,
            forall|e: int| 0 <= e < WINDOWS && e != env ==> final(self).entry(e) == old(self).entry(e),
    {
        let i: usize = (env / 4) as usize;
        let shift: u8 = ((env % 4) * 2) as u8;
        let d: u8 = self.values[i];
        let stored: u8 = (d & !(3u8 << shift)) | (value << shift);
        assert((stored >> shift) & 3 == value) by (bit_vector)
            requires
                stored == (d & !(3u8 << shift)) | (value << shift),
                value < 4,
                shift == 0 || shift == 2 || shift == 4 || shift == 6,
        ;
        assert(forall|other: u8|
            (other == 0 || other == 2 || other == 4 || other == 6) && other != shift ==> #[trigger] ((stored >> other) & 3)
                == (d >> other) & 3) by (bit_vector)
            requires
                stored == (d & !(3u8 << shift)) | (value << shift),
                value < 4,
                shift == 0 || shift == 2 || shift == 4 || shift == 6,
        ;
        self.values[i] = stored;
        assert forall|e: int| 0 <= e < WINDOWS && e != env implies final(self).entry(e) == old(
            self,
        ).entry(e) by {
            if e / 4 == i as int {
                let other: u8 = ((e % 4) * 2) as u8;
                assert(other != shift);
                assert((stored >> other) & 3 == (d >> other) & 3);
            }
        }
    }
}

/// A byte is known by its four entries.
proof fn lemma_byte_by_entries(a: u8, b: u8)
    by (bit_vector)
    requires
        (a >> 0u8) & 3 == (b >> 0u8) & 3,
        (a >> 2u8) & 3 == (b >> 2u8) & 3,
        (a >> 4u8) & 3 == (b >> 4u8) & 3,
        (a >> 6u8) & 3 == (b >> 6u8) & 3,
    ensures
        a == b,
{
}

/// Building is repeatable: two tables for one rule are the same, byte for
/// byte.
pub proof fn lemma_table_unique(first: &Table, second: &Table, rule: Rule)
    requires
        first.encodes(rule),
        second.encodes(rule),
        first.bytes().len() == 1024,
        second.bytes().len() == 1024,
    ensures
        first.bytes() == second.bytes(),
{
    assert forall|i: int| 0 <= i < 1024 implies first.bytes()[i] == second.bytes()[i] by {
        let e: u16 = (4 * i) as u16;
        assert(first.entry(e as int) == second.entry(e as int));
        assert(first.entry((e + 1) as u16 as int) == second.entry((e + 1) as u16 as int));
        assert(first.entry((e + 2) as u16 as int) == second.entry((e + 2) as u16 as int));
        assert(first.entry((e + 3) as u16 as int) == second.entry((e + 3) as u16 as int));
        lemma_byte_by_entries(first.bytes()[i], second.bytes()[i]);
    }
    assert(first.bytes() =~= second.bytes());
}

} // verus!
