//! The automaton: two fields used as a double buffer, the rule and its
//! table. One field holds the current generation; a generation is computed
//! into the other, and then the two change roles.

use crate::collector::Collector;
use crate::engine::lemma_looked_up;
use crate::error::{AutomataError, ErrorKind};
use crate::field::{lemma_bytes_by_bits, Field};
use crate::life::{bit8, births_from_zero, generations, life_step, on_grid, outcome, Rule};
use crate::rule::{reads_as, well_formed};
use crate::scheduler::{run, stepped};
use crate::table::Table;
use vstd::prelude::*;

verus! {

/// Whether a grid of `w` columns and `h` rows can be stored.
pub open spec fn storable(w: int, h: int) -> bool {
    &&& 8 * ((w + 7) / 8) <= usize::MAX
    &&& ((w + 7) / 8) * h <= isize::MAX
}

/// Whether the seed has a row for each of the grid's `h` rows, each with a
/// byte for every eight of the grid's `w` columns.
pub open spec fn seed_covers(seed: Seq<Vec<u8>>, w: int, h: int) -> bool {
    &&& seed.len() >= h
    &&& forall|y: int| 0 <= y < h ==> (#[trigger] seed[y])@.len() >= (w + 7) / 8
}

/// The live cells that a seed gives a `w` by `h` grid: the cell in column
/// `x` of row `y` is bit `x % 8` of byte `x / 8` of the seed's row `y`.
pub open spec fn seed_live(seed: Seq<Vec<u8>>, w: int, h: int) -> Set<(int, int)> {
    Set::new(
        |p: (int, int)| on_grid(w, h, p.0, p.1) && bit8(seed[p.1]@[p.0 / 8], (p.0 % 8) as u8),
    )
}

/// Why a grid is rejected, if it is. Of several faults the first in this
/// order is named: the dimensions, the number of workers, the seed.
pub open spec fn grid_rejection(w: int, h: int, parallelism: int, seed: Seq<Vec<u8>>) -> Option<
    ErrorKind,
> {
    if w <= 0 || h <= 0 || !storable(w, h) {
        Some(ErrorKind::Dimension)
    } else if parallelism <= 0 {
        Some(ErrorKind::Parallelism)
    } else if !seed_covers(seed, w, h) {
        Some(ErrorKind::Seed)
    } else {
        None
    }
}

/// Why a configuration is rejected, if it is: for the rule's text, or else
/// for what the grid is rejected for.
pub open spec fn rejection(
    rulestring: Seq<char>,
    w: int,
    h: int,
    parallelism: int,
    seed: Seq<Vec<u8>>,
) -> Option<ErrorKind> {
    if !well_formed(rulestring) {
        Some(ErrorKind::Format)
    } else {
        grid_rejection(w, h, parallelism, seed)
    }
}

/// The bit that a generation leaves in the margin at column `x` of row `y`,
/// where `live` are the cells of the generation before and a row is stored
/// in `stride` bytes. The update computes the margin like any cell; where
/// the rule gives birth from zero neighbours the margin is cleared after it.
pub open spec fn margin_after(
    rule: Rule,
    stride: int,
    h: int,
    live: Set<(int, int)>,
    x: int,
    y: int,
) -> bool {
    &&& !births_from_zero(rule)
    &&& 0 <= x < 8 * stride
    &&& 0 <= y < h
    &&& outcome(rule, live, x, y)
}

/// An automaton on a grid of `w` columns and `h` rows under `rule`, with
/// the rule's `table`, its work divided among `parallelism` workers. Of
/// `field0` and `field1` one holds the current generation: `field1` where
/// `fields_swapped` is set, else `field0`. The fields are open to read; an
/// automaton that was written to from outside has to meet `wf` again
/// before use.
pub struct Automata {
    pub w: usize,
    pub h: usize,
    pub field0: Field,
    pub field1: Field,
    pub fields_swapped: bool,
    pub rule: Rule,
    pub table: Table,
    pub parallelism: usize,
}

impl Automata {
    /// The number of columns.
    pub open spec fn spec_width(&self) -> usize {
        self.w
    }

    /// The number of rows.
    pub open spec fn spec_height(&self) -> usize {
        self.h
    }

    /// The rule.
    pub open spec fn spec_rule(&self) -> Rule {
        self.rule
    }

    /// The number of workers that a generation's rows are divided among.
    pub open spec fn spec_parallelism(&self) -> usize {
        self.parallelism
    }

    /// The table of the rule.
    pub open spec fn spec_table(&self) -> &Table {
        &self.table
    }

    /// Whether the two fields have changed roles: `field1` holds the
    /// current generation where this is set, `field0` where it is not.
    pub open spec fn spec_swapped(&self) -> bool {
        self.fields_swapped
    }

    /// The field that holds the current generation.
    pub open spec fn spec_current(&self) -> &Field {
        if self.fields_swapped {
            &self.field1
        } else {
            &self.field0
        }
    }

    /// The field that the next generation is computed into.
    pub open spec fn spare(&self) -> &Field {
        if self.fields_swapped {
            &self.field0
        } else {
            &self.field1
        }
    }

    /// The automaton's invariant: both fields have its dimensions, which
    /// are not zero, and the table is the one of its rule.
    pub open spec fn wf(&self) -> bool {
        &&& self.width() > 0
        &&& self.height() > 0
        &&& self.parallelism() > 0
        &&& self.current().wf()
        &&& self.current().width() == self.width()
        &&& self.current().height() == self.height()
        &&& self.spare().wf()
        &&& self.spare().width() == self.width()
        &&& self.spare().height() == self.height()
        &&& self.table().encodes(self.rule())
    }

    /// The live cells of the current generation.
    pub open spec fn live(&self) -> Set<(int, int)> {
        self.current().live()
    }

    /// The stored bit of the current generation for column `x` of row `y`,
    /// margin included.
    pub open spec fn raw(&self, x: int, y: int) -> bool {
        self.current().raw(x, y)
    }

    /// Whether `self` is what `before` becomes by `n` generations: the same
    /// grid, rule and workers, the fields' roles changed `n` times, the
    /// live cells `n` steps on, and in the margin what the last step left
    /// there.
    pub open spec fn played_from(&self, before: &Automata, n: nat) -> bool {
        &&& self.wf()
        &&& self.swapped() == (before.swapped() != (n % 2 == 1))
        &&& self.width() == before.width()
        &&& self.height() == before.height()
        &&& self.rule() == before.rule()
        &&& self.parallelism() == before.parallelism()
        &&& self.live() == generations(
            self.rule(),
            self.width() as int,
            self.height() as int,
            before.live(),
            n,
        )
        &&& n == 0 ==> forall|x: int, y: int| #[trigger] self.raw(x, y) == before.raw(x, y)
        &&& n > 0 ==> forall|x: int, y: int|
            x >= self.width() ==> #[trigger] self.raw(x, y) == margin_after(
                self.rule(),
                self.current().stride() as int,
                self.height() as int,
                generations(
                    self.rule(),
                    self.width() as int,
                    self.height() as int,
                    before.live(),
                    (n - 1) as nat,
                ),
                x,
                y,
            )
    }

    /// Whether the stored bits of `self` are those of `bytes`, a generation
    /// handed to `before`, but for the margin where the rule gives birth
    /// from zero neighbours, which is clear; and the fields' roles have
    /// changed once.
    pub open spec fn adopted(&self, before: &Automata, bytes: Seq<u8>) -> bool {
        &&& self.swapped() != before.swapped()
        &&& forall|x: int, y: int|
            #[trigger] self.raw(x, y) == {
                &&& 0 <= x < 8 * before.current().stride()
                &&& 0 <= y < before.height()
                &&& bit8(bytes[y * before.current().stride() + x / 8], (x % 8) as u8)
                &&& (x < before.width() || !births_from_zero(before.rule()))
            }
    }

    /// Whether `bytes` are the bytes that one generation's update of the
    /// current generation stores, row after row: each row as
    /// `engine::row_bytes` computes it.
    pub open spec fn updated_by(&self, bytes: Seq<u8>) -> bool {
        &&& bytes.len() == self.height() * self.current().stride()
        &&& forall|x: int, y: int|
            0 <= x < 8 * self.current().stride() && 0 <= y < self.height() ==> bit8(
                #[trigger] bytes[y * self.current().stride() + x / 8],
                (x % 8) as u8,
            ) == self.table().looked_up(self.live(), x, y)
    }

    /// The number of columns.
    #[verifier::when_used_as_spec(spec_width)]
    pub fn width(&self) -> (w: usize)
        ensures
            w == self.spec_width(),
    {
        self.w
    }

    /// The number of rows.
    #[verifier::when_used_as_spec(spec_height)]
    pub fn height(&self) -> (h: usize)
        ensures
            h == self.spec_height(),
    {
        self.h
    }

    /// The rule.
    #[verifier::when_used_as_spec(spec_rule)]
    pub fn rule(&self) -> (rule: Rule)
        ensures
            rule == self.spec_rule(),
    {
        self.rule
    }

    /// The number of workers that a generation's rows are divided among.
    #[verifier::when_used_as_spec(spec_parallelism)]
    pub fn parallelism(&self) -> (p: usize)
        ensures
            p == self.spec_parallelism(),
    {
        self.parallelism
    }

    /// The table of the rule.
    #[verifier::when_used_as_spec(spec_table)]
    pub fn table(&self) -> (t: &Table)
        ensures
            t == self.spec_table(),
    {
        &self.table
    }

    /// Whether the two fields have changed roles: `field1` holds the
    /// current generation where this is set, `field0` where it is not.
    #[verifier::when_used_as_spec(spec_swapped)]
    pub fn swapped(&self) -> (swapped: bool)
        ensures
            swapped == self.spec_swapped(),
    {
        self.fields_swapped
    }

    /// The field that holds the current generation.
    #[verifier::when_used_as_spec(spec_current)]
    pub fn current(&self) -> (f: &Field)
        ensures
            f == self.spec_current(),
    {
        if self.fields_swapped {
            &self.field1
        } else {
            &self.field0
        }
    }

    /// An automaton of `w` columns and `h` rows under the rule that
    /// `rulestring` stands for, its first generation taken from `seed`, its
    /// work divided among `parallelism` workers.
    pub fn new(
        w: usize,
        h: usize,
        rulestring: &str,
        seed: &Vec<Vec<u8>>,
        parallelism: usize,
    ) -> (r: Result<Automata, AutomataError>)
        ensures
            match r {
                Ok(a) => {
                    &&& rejection(rulestring@, w as int, h as int, parallelism as int, seed@)
                        is None
                    &&& a.wf()
                    &&& a.width() == w
                    &&& a.height() == h
                    &&& a.parallelism() == parallelism
                    &&& !a.swapped()
                    &&& reads_as(rulestring@, a.rule())
                    &&& a.live() == seed_live(seed@, w as int, h as int)
                    &&& a.current().margin_dead()
                },
                Err(e) => rejection(rulestring@, w as int, h as int, parallelism as int, seed@)
                    == Some(e.kind),
            },
    {
        match Rule::parse(rulestring) {
            Ok(rule) => Automata::with_rule(w, h, rule, seed, parallelism),
            Err(e) => Err(e),
        }
    }

    /// An automaton of `w` columns and `h` rows under `rule`, its first
    /// generation taken from `seed`, its work divided among `parallelism`
    /// workers.
    pub fn with_rule(
        w: usize,
        h: usize,
        rule: Rule,
        seed: &Vec<Vec<u8>>,
        parallelism: usize,
    ) -> (r: Result<Automata, AutomataError>)
        ensures
            match r {
                Ok(a) => {
                    &&& grid_rejection(w as int, h as int, parallelism as int, seed@) is None
                    &&& a.wf()
                    &&& a.width() == w
                    &&& a.height() == h
                    &&& a.parallelism() == parallelism
                    &&& !a.swapped()
                    &&& a.rule() == rule
                    &&& a.live() == seed_live(seed@, w as int, h as int)
                    &&& a.current().margin_dead()
                },
                Err(e) => grid_rejection(w as int, h as int, parallelism as int, seed@) == Some(
                    e.kind,
                ),
            },
    {
        if w == 0 || h == 0 {
            return Err(AutomataError { kind: ErrorKind::Dimension });
        }
        let w8: usize = w / 8 + (if w % 8 != 0 { 1usize } else { 0usize });
        if w8.checked_mul(8).is_none() {
            return Err(AutomataError { kind: ErrorKind::Dimension });
        }
        match w8.checked_mul(h) {
            Some(size) => {
                if size > isize::MAX as usize {
                    return Err(AutomataError { kind: ErrorKind::Dimension });
                }
            },
            None => {
                return Err(AutomataError { kind: ErrorKind::Dimension });
            },
        }
        if parallelism == 0 {
            return Err(AutomataError { kind: ErrorKind::Parallelism });
        }
        if !covers(seed, w8, h) {
            return Err(AutomataError { kind: ErrorKind::Seed });
        }
        let table = Table::new(rule.borns, rule.survives);
        let mut new = Automata {
            w,
            h,
            field0: Field::new(w, h),
            field1: Field::new(w, h),
            fields_swapped: false,
            rule,
            table,
            parallelism,
        };
        let mut y: usize = 0;
        while y < h
            invariant
                y <= h,
                w8 == (w + 7) / 8,
                seed_covers(seed@, w as int, h as int),
                new.wf(),
                new.width() == w,
                new.height() == h,
                new.parallelism() == parallelism,
                new.rule() == rule,
                !new.swapped(),
                forall|x2: int, y2: int|
                    #[trigger] new.raw(x2, y2) == (y2 < y && seed_live(
                        seed@,
                        w as int,
                        h as int,
                    ).contains((x2, y2))),
            decreases h - y,
        {
            let row: &Vec<u8> = &seed[y];
            let mut x: usize = 0;
            while x < w
                invariant
                    x <= w,
                    y < h <= seed@.len(),
                    w8 == (w + 7) / 8,
                    row == seed@[y as int],
                    row@.len() >= w8,
                    new.wf(),
                    new.width() == w,
                    new.height() == h,
                    new.parallelism() == parallelism,
                    new.rule() == rule,
                    !new.swapped(),
                    forall|x2: int, y2: int|
                        #[trigger] new.raw(x2, y2) == ((y2 < y || (y2 == y && x2 < x))
                            && seed_live(seed@, w as int, h as int).contains((x2, y2))),
                decreases w - x,
            {
                let d: u8 = row[x / 8];
                let k: u8 = (x % 8) as u8;
                assert(((d >> k) & 1) == 0 || ((d >> k) & 1) == 1) by (bit_vector);
                let v: bool = ((d >> k) & 1) != 0;
                new.set(x, y, v);
                x = x + 1;
            }
            y = y + 1;
        }
        assert forall|p: (int, int)|
            new.live().contains(p) == seed_live(seed@, w as int, h as int).contains(p) by {
            assert(new.raw(p.0, p.1) == seed_live(seed@, w as int, h as int).contains((p.0, p.1)));
        }
        assert(new.live() =~= seed_live(seed@, w as int, h as int));
        assert forall|x: int, y: int| x >= new.current().width() implies !#[trigger] new.current().raw(
            x,
            y,
        ) by {
            assert(new.raw(x, y) == seed_live(seed@, w as int, h as int).contains((x, y)));
        }
        Ok(new)
    }

    /// Plays `n_rounds` generations.
    pub fn play(&mut self, n_rounds: usize)
        requires
            old(self).wf(),
        ensures
            final(self).played_from(old(self), n_rounds as nat),
    {
        let mut round: usize = 0;
        while round < n_rounds
            invariant
                round <= n_rounds,
                self.played_from(old(self), round as nat),
            decreases n_rounds - round,
        {
            let ghost before = *self;
            self.advance();
            proof {
                lemma_played_on(old(self), &before, self, round as nat, 1);
            }
            round = round + 1;
        }
    }

    /// Plays one generation: computes it into the spare field, clears that
    /// field's margin where the rule gives birth from zero neighbours, and
    /// makes it the current field.
    pub fn advance(&mut self)
        requires
            old(self).wf(),
        ensures
            final(self).played_from(old(self), 1),
    {
        let clear: bool = self.rule.births_from_zero();
        if self.fields_swapped {
            run(&self.field1, &mut self.field0, &self.table, self.parallelism);
            if clear {
                self.field0.clear_margin();
            }
        } else {
            run(&self.field0, &mut self.field1, &self.table, self.parallelism);
            if clear {
                self.field1.clear_margin();
            }
        }
        self.fields_swapped = !self.fields_swapped;
        proof {
            let source = old(self).current();
            let w = self.width() as int;
            let h = self.height() as int;
            assert forall|x: int, y: int| #[trigger]
                self.raw(x, y) == (stepped(source, &self.table, x, y) && (x < w || !clear)) by {}
            assert forall|x: int, y: int| #[trigger]
                stepped(source, &self.table, x, y) == (0 <= x < 8 * source.stride() && 0 <= y < h
                    && outcome(self.rule(), source.live(), x, y)) by {
                lemma_looked_up(&self.table, self.rule(), source.live(), x, y);
            }
            assert forall|p: (int, int)|
                self.live().contains(p) == life_step(self.rule(), w, h, old(self).live()).contains(
                    p,
                ) by {
                assert(self.raw(p.0, p.1) == (stepped(source, &self.table, p.0, p.1) && (p.0 < w
                    || !clear)));
            }
            assert(self.live() =~= life_step(self.rule(), w, h, old(self).live()));
            assert(generations(self.rule(), w, h, old(self).live(), 0) == old(self).live());
            assert(generations(self.rule(), w, h, old(self).live(), 1) == life_step(
                self.rule(),
                w,
                h,
                generations(self.rule(), w, h, old(self).live(), 0),
            ));
        }
    }

    /// Takes `bytes` as the next generation, computed elsewhere: stores
    /// them in the spare field, clears the margin where the rule gives
    /// birth from zero neighbours, and makes that field the current one.
    /// Bytes of another length than the storage's are rejected, and nothing
    /// changes.
    pub fn adopt(&mut self, bytes: &Vec<u8>) -> (r: Result<(), AutomataError>)
        requires
            old(self).wf(),
        ensures
            final(self).wf(),
            final(self).width() == old(self).width(),
            final(self).height() == old(self).height(),
            final(self).rule() == old(self).rule(),
            final(self).parallelism() == old(self).parallelism(),
            final(self).current().stride() == old(self).current().stride(),
            bytes@.len() != old(self).height() * old(self).current().stride() ==> {
                &&& r == Err::<(), AutomataError>(AutomataError { kind: ErrorKind::Size })
                &&& *final(self) == *old(self)
            },
            bytes@.len() == old(self).height() * old(self).current().stride() ==> {
                &&& r is Ok
                &&& final(self).adopted(old(self), bytes@)
            },
    {
        let clear: bool = self.rule.births_from_zero();
        let size: usize = self.field0.data().len();
        if bytes.len() != size {
            return Err(AutomataError { kind: ErrorKind::Size });
        }
        if self.fields_swapped {
            self.field0.load(bytes);
            if clear {
                self.field0.clear_margin();
            }
        } else {
            self.field1.load(bytes);
            if clear {
                self.field1.clear_margin();
            }
        }
        self.fields_swapped = !self.fields_swapped;
        Ok(())
    }

    /// Row `y` of the current generation as pixels: 0 for a live cell, 255
    /// for a dead one.
    pub fn pixel_row(&self, y: usize) -> (pixels: Vec<u8>)
        requires
            self.wf(),
            y < self.height(),
        ensures
            pixels@.len() == self.width(),
            forall|x: int|
                0 <= x < self.width() ==> #[trigger] pixels@[x] == (if self.live().contains(
                    (x, y as int),
                ) {
                    0u8
                } else {
                    255u8
                }),
    {
        let w: usize = self.w;
        let mut pixels: Vec<u8> = Vec::new();
        let mut x: usize = 0;
        while x < w
            invariant
                x <= w,
                w == self.width(),
                self.wf(),
                y < self.height(),
                pixels@.len() == x,
                forall|x2: int|
                    0 <= x2 < x ==> #[trigger] pixels@[x2] == (if self.live().contains(
                        (x2, y as int),
                    ) {
                        0u8
                    } else {
                        255u8
                    }),
            decreases w - x,
        {
            let pixel: u8 = if self.get(x, y) {
                0
            } else {
                255
            };
            pixels.push(pixel);
            x = x + 1;
        }
        pixels
    }

    /// Whether the cell in column `x` of row `y` is alive in the current
    /// generation.
    pub fn get(&self, x: usize, y: usize) -> (alive: bool)
        requires
            self.wf(),
            x < self.width(),
            y < self.height(),
        ensures
            alive == self.live().contains((x as int, y as int)),
    {
        let field = if self.fields_swapped {
            &self.field1
        } else {
            &self.field0
        };
        field.get(x, y)
    }

    /// Makes the cell in column `x` of row `y` of the current generation
    /// alive or dead; every other cell stays.
    pub fn set(&mut self, x: usize, y: usize, v: bool)
        requires
            old(self).wf(),
            x < old(self).width(),
            y < old(self).height(),
        ensures
            final(self).wf(),
            final(self).width() == old(self).width(),
            final(self).height() == old(self).height(),
            final(self).rule() == old(self).rule(),
            final(self).parallelism() == old(self).parallelism(),
            final(self).swapped() == old(self).swapped(),
            final(self).live() == (if v {
                old(self).live().insert((x as int, y as int))
            } else {
                old(self).live().remove((x as int, y as int))
            }),
            forall|x2: int, y2: int|
                #[trigger] final(self).raw(x2, y2) == (if x2 == x && y2 == y {
                    v
                } else {
                    old(self).raw(x2, y2)
                }),
    {
        if self.fields_swapped {
            self.field1.set(x, y, v);
        } else {
            self.field0.set(x, y, v);
        }
        assert(self.live() =~= (if v {
            old(self).live().insert((x as int, y as int))
        } else {
            old(self).live().remove((x as int, y as int))
        }));
    }
}

/// Generations add up: `m` generations after `n` generations are `n + m`
/// generations.
pub proof fn lemma_generations_add(rule: Rule, w: int, h: int, live: Set<(int, int)>, n: nat, m: nat)
    ensures
        generations(rule, w, h, generations(rule, w, h, live, n), m) == generations(
            rule,
            w,
            h,
            live,
            n + m,
        ),
    decreases m,
{
    if m > 0 {
        lemma_generations_add(rule, w, h, live, n, (m - 1) as nat);
        assert(n + m - 1 == n + (m - 1));
    }
}

/// Playing on: what `a` becomes by `n` generations becomes by `m` more
/// what `a` becomes by `n + m`.
pub proof fn lemma_played_on(a: &Automata, b: &Automata, c: &Automata, n: nat, m: nat)
    requires
        b.played_from(a, n),
        c.played_from(b, m),
    ensures
        c.played_from(a, n + m),
{
    let rule = a.rule();
    let w = a.width() as int;
    let h = a.height() as int;
    lemma_generations_add(rule, w, h, a.live(), n, m);
    if m > 0 {
        lemma_generations_add(rule, w, h, a.live(), n, (m - 1) as nat);
        assert(n + (m - 1) == n + m - 1);
    } else {
        assert forall|x: int, y: int| #[trigger] c.raw(x, y) == b.raw(x, y) by {}
    }
}

/// The number of workers leaves no trace: two automata with the same grid,
/// rule and cells hold the same cells after the same number of generations,
/// whatever the number of workers of each, and after at least one
/// generation the same bytes, margin included.
pub proof fn lemma_workers_leave_no_trace(
    a: &Automata,
    a_played: &Automata,
    b: &Automata,
    b_played: &Automata,
    n: nat,
)
    requires
        a.width() == b.width(),
        a.height() == b.height(),
        a.rule() == b.rule(),
        a.live() == b.live(),
        a_played.played_from(a, n),
        b_played.played_from(b, n),
    ensures
        a_played.live() == b_played.live(),
        forall|x: int, y: int| x < a.width() ==> a_played.raw(x, y) == b_played.raw(x, y),
        n > 0 ==> a_played.current().bytes() == b_played.current().bytes(),
{
    assert forall|x: int, y: int| x < a.width() implies a_played.raw(x, y) == b_played.raw(
        x,
        y,
    ) by {
        assert(a_played.live().contains((x, y)) == b_played.live().contains((x, y)));
    }
    if n > 0 {
        assert forall|x: int, y: int|
            a_played.current().raw(x, y) == b_played.current().raw(x, y) by {
            assert(a_played.raw(x, y) == b_played.raw(x, y));
        }
        lemma_bytes_by_bits(a_played.current(), b_played.current());
    }
}

/// Birth from zero neighbours fills the grid and nothing else: one
/// generation after a generation without live cells every cell of the grid
/// is alive, and every bit of the margin is clear.
pub proof fn lemma_birth_from_zero(before: &Automata, after: &Automata)
    requires
        births_from_zero(before.rule()),
        before.live() == Set::<(int, int)>::empty(),
        after.played_from(before, 1),
    ensures
        forall|x: int, y: int|
            after.raw(x, y) == on_grid(after.width() as int, after.height() as int, x, y),
        after.live() == Set::new(
            |p: (int, int)| on_grid(after.width() as int, after.height() as int, p.0, p.1),
        ),
        after.current().margin_dead(),
{
    let rule = before.rule();
    let w = after.width() as int;
    let h = after.height() as int;
    let none = Set::<(int, int)>::empty();
    assert(generations(rule, w, h, none, 0) == none);
    assert(generations(rule, w, h, none, 1) == life_step(rule, w, h, generations(rule, w, h, none, 0)));
    assert forall|x: int, y: int| outcome(rule, none, x, y) by {
        assert(crate::life::moore_count(none, x, y) == 0);
    }
    assert forall|x: int, y: int| after.raw(x, y) == on_grid(w, h, x, y) by {
        if x < w {
            assert(after.live().contains((x, y)) == on_grid(w, h, x, y));
        }
    }
    assert(after.live() =~= Set::new(|p: (int, int)| on_grid(w, h, p.0, p.1)));
    assert forall|x: int, y: int| x >= after.current().width() implies !#[trigger] after.current().raw(
        x,
        y,
    ) by {
        assert(after.raw(x, y) == on_grid(w, h, x, y));
    }
}

/// Rows collected from workers, each row as `engine::row_bytes` computes it
/// from the current generation, are the bytes of the generation's update.
pub proof fn lemma_collected_update(collector: &Collector, automata: &Automata)
    requires
        automata.wf(),
        collector.wf(),
        collector.height() == automata.height(),
        collector.stride() == automata.current().stride(),
        forall|x: int, y: int|
            0 <= x < 8 * collector.stride() && 0 <= y < collector.height() ==> bit8(
                #[trigger] collector.row(y)[x / 8],
                (x % 8) as u8,
            ) == automata.table().looked_up(automata.live(), x, y),
    ensures
        automata.updated_by(collector.bytes()),
{
    let bytes = collector.bytes();
    let stride = collector.stride();
    assert forall|x: int, y: int|
        0 <= x < 8 * stride && 0 <= y < automata.height() implies bit8(
        #[trigger] bytes[y * stride + x / 8],
        (x % 8) as u8,
    ) == automata.table().looked_up(automata.live(), x, y) by {
        assert(collector.row(y)[x / 8] == bytes[y * stride + x / 8]);
    }
}

/// A generation computed elsewhere row by row and adopted is a generation
/// played.
pub proof fn lemma_adopted_generation(before: &Automata, after: &Automata, bytes: Seq<u8>)
    requires
        before.wf(),
        after.wf(),
        after.width() == before.width(),
        after.height() == before.height(),
        after.rule() == before.rule(),
        after.parallelism() == before.parallelism(),
        before.updated_by(bytes),
        after.adopted(before, bytes),
    ensures
        after.played_from(before, 1),
{
    let rule = before.rule();
    let w = before.width() as int;
    let h = before.height() as int;
    let stride = before.current().stride() as int;
    assert forall|x: int, y: int| #[trigger]
        after.raw(x, y) == (0 <= x < 8 * stride && 0 <= y < h && outcome(
            rule,
            before.live(),
            x,
            y,
        ) && (x < w || !births_from_zero(rule))) by {
        lemma_looked_up(before.table(), rule, before.live(), x, y);
        if 0 <= x < 8 * stride && 0 <= y < h {
            assert(bit8(bytes[y * stride + x / 8], (x % 8) as u8) == before.table().looked_up(
                before.live(),
                x,
                y,
            ));
        }
    }
    assert forall|p: (int, int)|
        after.live().contains(p) == life_step(rule, w, h, before.live()).contains(p) by {
        assert(after.raw(p.0, p.1) == (0 <= p.0 < 8 * stride && 0 <= p.1 < h && outcome(
            rule,
            before.live(),
            p.0,
            p.1,
        ) && (p.0 < w || !births_from_zero(rule))));
    }
    assert(after.live() =~= life_step(rule, w, h, before.live()));
    assert(generations(rule, w, h, before.live(), 0) == before.live());
    assert(generations(rule, w, h, before.live(), 1) == life_step(
        rule,
        w,
        h,
        generations(rule, w, h, before.live(), 0),
    ));
}

/// One generation is the step of the model: a cell of the grid takes the
/// state that the rule decides from the cell and its eight neighbours, the
/// cells beyond the grid counted as dead.
pub proof fn lemma_one_generation(before: &Automata, after: &Automata)
    requires
        after.played_from(before, 1),
    ensures
        forall|x: int, y: int|
            after.live().contains((x, y)) == (on_grid(
                before.width() as int,
                before.height() as int,
                x,
                y,
            ) && outcome(before.rule(), before.live(), x, y)),
{
    let rule = before.rule();
    let w = before.width() as int;
    let h = before.height() as int;
    assert(generations(rule, w, h, before.live(), 0) == before.live());
    assert(generations(rule, w, h, before.live(), 1) == life_step(
        rule,
        w,
        h,
        generations(rule, w, h, before.live(), 0),
    ));
}

/// Whether the seed has a row for each of `h` rows, each of at least `w8`
/// bytes.
fn covers(seed: &Vec<Vec<u8>>, w8: usize, h: usize) -> (ok: bool)
    ensures
        ok == (seed@.len() >= h && forall|y: int|
            0 <= y < h ==> (#[trigger] seed@[y])@.len() >= w8),
{
    if seed.len() < h {
        return false;
    }
    let mut y: usize = 0;
    while y < h
        invariant
            y <= h,
            seed@.len() >= h,
            forall|y2: int| 0 <= y2 < y ==> (#[trigger] seed@[y2])@.len() >= w8,
        decreases h - y,
    {
        if seed[y].len() < w8 {
            return false;
        }
        y = y + 1;
    }
    true
}

} // verus!
