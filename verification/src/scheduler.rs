//! The division of one generation's work among workers. Row `y` belongs to
//! worker `y mod parallelism`; every worker writes only its own rows of the
//! target, so the workers' order, and their number, leave no trace in the
//! result.

use crate::engine::step_row;
use crate::field::Field;
use crate::table::Table;
use vstd::arithmetic::div_mod::{
    lemma_fundamental_div_mod,
    lemma_mod_add_multiples_vanish,
    lemma_mod_pos_bound,
    lemma_small_mod,
};
use vstd::prelude::*;

verus! {

/// The bit that one generation's update of `source` stores for column `x`
/// of row `y`, margin included.
pub open spec fn stepped(source: &Field, table: &Table, x: int, y: int) -> bool {
    &&& 0 <= x < 8 * source.stride()
    &&& 0 <= y < source.height()
    &&& table.looked_up(source.live(), x, y)
}

/// Whether row `y` is one of the rows of `worker` among `parallelism`
/// workers.
pub open spec fn assigned(y: int, worker: int, parallelism: int) -> bool {
    y % parallelism == worker
}

/// Two different rows of one worker lie at least `p` rows apart.
pub proof fn lemma_residue_gap(a: int, b: int, p: int)
    requires
        0 <= a < b,
        p > 0,
        a % p == b % p,
    ensures
        b - a >= p,
{
    lemma_fundamental_div_mod(a, p);
    lemma_fundamental_div_mod(b, p);
    let ka = a / p;
    let kb = b / p;
    let r = a % p;
    assert(b - a >= p) by (nonlinear_arith)
        requires
            a == p * ka + r,
            b == p * kb + r,
            a < b,
            p > 0,
    ;
}

/// The row that a worker has reached: `row`, or `h` when it has no row
/// left.
pub open spec fn frontier(row: Option<usize>, h: int) -> int {
    match row {
        Some(y) => y as int,
        None => h,
    }
}

/// Whether `row` is the first of the rows from `from` up to `h` that is
/// assigned to `worker`, or nothing where none of them is.
pub open spec fn is_next_row(
    row: Option<usize>,
    from: int,
    h: int,
    worker: int,
    parallelism: int,
) -> bool {
    &&& from <= frontier(row, h) <= h
    &&& row is Some ==> frontier(row, h) < h && assigned(frontier(row, h), worker, parallelism)
    &&& forall|y: int| from <= y < frontier(row, h) ==> !assigned(y, worker, parallelism)
}

/// The first row of `worker` on a grid of `h` rows, if it has one.
pub fn first_row(worker: usize, parallelism: usize, h: usize) -> (row: Option<usize>)
    requires
        worker < parallelism,
    ensures
        is_next_row(row, 0, h as int, worker as int, parallelism as int),
        row == (if worker < h {
            Some(worker)
        } else {
            None
        }),
{
    proof {
        assert forall|y: int| 0 <= y <= worker && y < parallelism implies (assigned(
            y,
            worker as int,
            parallelism as int,
        ) <==> y == worker) by {
            lemma_small_mod(y as nat, parallelism as nat);
        }
    }
    if worker < h {
        Some(worker)
    } else {
        None
    }
}

/// The row after `y` of the worker that row `y` belongs to, if it has one.
pub fn next_row(y: usize, parallelism: usize, h: usize) -> (row: Option<usize>)
    requires
        y < h,
        parallelism > 0,
    ensures
        is_next_row(row, y + 1, h as int, y as int % parallelism as int, parallelism as int),
        row == (if y + parallelism < h {
            Some((y + parallelism) as usize)
        } else {
            None
        }),
{
    let row: Option<usize> = if parallelism >= h - y {
        None
    } else {
        Some(y + parallelism)
    };
    proof {
        let worker = y as int % parallelism as int;
        lemma_mod_add_multiples_vanish(y as int, parallelism as int);
        assert forall|y2: int| y < y2 < frontier(row, h as int) implies !assigned(
            y2,
            worker,
            parallelism as int,
        ) by {
            if assigned(y2, worker, parallelism as int) {
                lemma_residue_gap(y as int, y2, parallelism as int);
            }
        }
    }
    row
}

/// Computes the rows of one worker into `target`; the other rows of
/// `target` stay.
pub fn run_worker(
    source: &Field,
    target: &mut Field,
    table: &Table,
    worker: usize,
    parallelism: usize,
)
    requires
        source.wf(),
        old(target).wf(),
        old(target).width() == source.width(),
        old(target).height() == source.height(),
        worker < parallelism,
    ensures
        final(target).wf(),
        final(target).width() == source.width(),
        final(target).height() == source.height(),
        forall|x: int, y: int|
            #[trigger] final(target).raw(x, y) == (if 0 <= y < source.height() && assigned(
                y,
                worker as int,
                parallelism as int,
            ) {
                stepped(source, table, x, y)
            } else {
                old(target).raw(x, y)
            }),
{
    let h: usize = source.height();
    let mut row: Option<usize> = first_row(worker, parallelism, h);
    while row.is_some()
        invariant
            h == source.height(),
            source.wf(),
            target.wf(),
            target.width() == source.width(),
            target.height() == source.height(),
            worker < parallelism,
            frontier(row, h as int) <= h,
            row is Some ==> frontier(row, h as int) < h && assigned(
                frontier(row, h as int),
                worker as int,
                parallelism as int,
            ),
            forall|x: int, y2: int|
                #[trigger] target.raw(x, y2) == (if 0 <= y2 < frontier(row, h as int) && assigned(
                    y2,
                    worker as int,
                    parallelism as int,
                ) {
                    stepped(source, table, x, y2)
                } else {
                    old(target).raw(x, y2)
                }),
        decreases h - frontier(row, h as int),
    {
        let y: usize = row.unwrap();
        step_row(source, table, target, y);
        row = next_row(y, parallelism, h);
    }
}

/// Computes one generation: `target` becomes the update of `source`, every
/// row computed once, by the worker it is assigned to. The result does not
/// depend on `parallelism`.
pub fn run(source: &Field, target: &mut Field, table: &Table, parallelism: usize)
    requires
        source.wf(),
        old(target).wf(),
        old(target).width() == source.width(),
        old(target).height() == source.height(),
        parallelism > 0,
    ensures
        final(target).wf(),
        final(target).width() == source.width(),
        final(target).height() == source.height(),
        forall|x: int, y: int| #[trigger] final(target).raw(x, y) == stepped(source, table, x, y),
{
    // A worker beyond the last row has no rows.
    let workers: usize = if parallelism < source.height() {
        parallelism
    } else {
        source.height()
    };
    let mut worker: usize = 0;
    while worker < workers
        invariant
            worker <= workers <= parallelism,
            workers == parallelism || workers == source.height(),
            source.wf(),
            target.wf(),
            target.width() == source.width(),
            target.height() == source.height(),
            forall|x: int, y: int|
                #[trigger] target.raw(x, y) == (if 0 <= y < source.height() && y % (
                parallelism as int) < worker {
                    stepped(source, table, x, y)
                } else {
                    old(target).raw(x, y)
                }),
        decreases workers - worker,
    {
        run_worker(source, target, table, worker, parallelism);
        worker = worker + 1;
    }
    assert forall|x: int, y: int| #[trigger] target.raw(x, y) == stepped(source, table, x, y) by {
        if 0 <= y < source.height() {
            lemma_mod_pos_bound(y, parallelism as int);
            if workers != parallelism {
                lemma_small_mod(y as nat, parallelism as nat);
            }
        } else {
            assert(!target.raw(x, y));
        }
    }
}

} // verus!
