//! The collection of one generation's rows as the workers hand them in, in
//! any order. The generation is complete when every row has arrived, each
//! exactly once.

use crate::error::{AutomataError, ErrorKind};
use crate::field::{lemma_byte_index, lemma_byte_index_unique, Field};
use vstd::prelude::*;

verus! {

/// The number of rows that have not arrived.
pub open spec fn count_missing(arrived: Seq<bool>) -> nat
    decreases arrived.len(),
{
    if arrived.len() == 0 {
        0
    } else {
        count_missing(arrived.drop_last()) + (if arrived.last() {
            0nat
        } else {
            1nat
        })
    }
}

/// As long as no row has arrived, all rows are missing.
proof fn lemma_count_none(arrived: Seq<bool>)
    requires
        forall|i: int| 0 <= i < arrived.len() ==> !arrived[i],
    ensures
        count_missing(arrived) == arrived.len(),
    decreases arrived.len(),
{
    if arrived.len() > 0 {
        lemma_count_none(arrived.drop_last());
    }
}

/// No row is missing exactly when every row has arrived.
proof fn lemma_count_zero(arrived: Seq<bool>)
    ensures
        count_missing(arrived) == 0 <==> forall|i: int| 0 <= i < arrived.len() ==> arrived[i],
    decreases arrived.len(),
{
    if arrived.len() > 0 {
        let rest = arrived.drop_last();
        lemma_count_zero(rest);
        if count_missing(arrived) == 0 {
            assert forall|i: int| 0 <= i < arrived.len() implies arrived[i] by {
                if i < rest.len() {
                    assert(rest[i]);
                }
            }
        }
        if forall|i: int| 0 <= i < arrived.len() ==> arrived[i] {
            assert forall|i: int| 0 <= i < rest.len() implies rest[i] by {
                assert(arrived[i]);
            }
        }
    }
}

/// The arrival of a missing row leaves one row fewer missing.
proof fn lemma_count_arrival(arrived: Seq<bool>, y: int)
    requires
        0 <= y < arrived.len(),
        !arrived[y],
    ensures
        count_missing(arrived.update(y, true)) + 1 == count_missing(arrived),
    decreases arrived.len(),
{
    let after = arrived.update(y, true);
    if y == arrived.len() - 1 {
        assert(after.drop_last() =~= arrived.drop_last());
    } else {
        lemma_count_arrival(arrived.drop_last(), y);
        assert(after.drop_last() =~= arrived.drop_last().update(y, true));
    }
}

/// The rows of one generation, as far as they have arrived.
pub struct Collector {
    bytes: Vec<u8>,
    arrived: Vec<bool>,
    stride: usize,
    missing: usize,
}

impl Collector {
    /// The number of rows to collect.
    pub closed spec fn height(&self) -> int {
        self.arrived@.len() as int
    }

    /// The number of bytes of a row.
    pub closed spec fn stride(&self) -> int {
        self.stride as int
    }

    /// The bytes collected, row after row; the bytes of a row that has not
    /// arrived are 0.
    pub closed spec fn bytes(&self) -> Seq<u8> {
        self.bytes@
    }

    /// For each row, whether it has arrived.
    pub closed spec fn arrivals(&self) -> Seq<bool> {
        self.arrived@
    }

    /// The number of rows that are counted as missing.
    pub closed spec fn missing(&self) -> nat {
        self.missing as nat
    }

    /// Whether row `y` has arrived.
    pub open spec fn has(&self, y: int) -> bool {
        0 <= y < self.height() && self.arrivals()[y]
    }

    /// The collector's invariant: the storage has room for every row, and
    /// the rows counted as missing are those that have not arrived.
    pub open spec fn wf(&self) -> bool {
        &&& self.arrivals().len() == self.height()
        &&& self.bytes().len() == self.height() * self.stride()
        &&& self.missing() == count_missing(self.arrivals())
    }

    /// Row `y` as it is stored.
    pub open spec fn row(&self, y: int) -> Seq<u8> {
        Seq::new(self.stride() as nat, |b: int| self.bytes()[y * self.stride() + b])
    }

    /// Whether every row has arrived.
    pub open spec fn all_arrived(&self) -> bool {
        forall|y: int| 0 <= y < self.height() ==> self.has(y)
    }

    /// A collector for a generation of the dimensions of `field`, no row
    /// arrived yet.
    pub fn new(field: &Field) -> (c: Collector)
        requires
            field.wf(),
        ensures
            c.wf(),
            c.height() == field.height(),
            c.stride() == field.stride(),
            forall|y: int| !c.has(y),
            forall|i: int| 0 <= i < c.bytes().len() ==> c.bytes()[i] == 0,
    {
        let h: usize = field.height();
        let c = Collector {
            bytes: vec![0u8; field.data().len()],
            arrived: vec![false; h],
            stride: field.stride(),
            missing: h,
        };
        proof {
            lemma_count_none(c.arrived@);
        }
        c
    }

    /// Whether every row has arrived.
    pub fn complete(&self) -> (done: bool)
        requires
            self.wf(),
        ensures
            done == self.all_arrived(),
    {
        proof {
            lemma_count_zero(self.arrived@);
            if self.missing == 0 {
                assert forall|y: int| 0 <= y < self.height() implies self.has(y) by {
                    assert(self.arrived@[y]);
                }
            } else if self.all_arrived() {
                assert forall|i: int| 0 <= i < self.arrived@.len() implies self.arrived@[i] by {
                    assert(self.has(i));
                }
            }
        }
        self.missing == 0
    }

    /// Takes row `y`. A row beyond the last, a row of another length than
    /// the stride, and a row that has arrived before are rejected, and
    /// nothing changes.
    pub fn accept(&mut self, y: usize, row: &Vec<u8>) -> (r: Result<(), AutomataError>)
        requires
            old(self).wf(),
        ensures
            final(self).wf(),
            final(self).height() == old(self).height(),
            final(self).stride() == old(self).stride(),
            (y >= old(self).height() || row@.len() != old(self).stride() || old(self).has(y as int))
                ==> {
                &&& r == Err::<(), AutomataError>(AutomataError { kind: ErrorKind::Row })
                &&& *final(self) == *old(self)
            },
            (y < old(self).height() && row@.len() == old(self).stride() && !old(self).has(y as int))
                ==> {
                &&& r is Ok
                &&& forall|y2: int| final(self).has(y2) == (y2 == y || old(self).has(y2))
                &&& final(self).row(y as int) == row@
                &&& forall|y2: int|
                    0 <= y2 < old(self).height() && y2 != y ==> final(self).row(y2) == old(
                        self,
                    ).row(y2)
            },
    {
        if y >= self.arrived.len() || row.len() != self.stride || self.arrived[y] {
            return Err(AutomataError { kind: ErrorKind::Row });
        }
        let stride: usize = self.stride;
        let total: usize = self.bytes.len();
        let ghost h = self.arrived@.len() as int;
        proof {
            lemma_count_arrival(self.arrived@, y as int);
            assert(0 <= y * stride && y * stride + stride <= h * stride) by (nonlinear_arith)
                requires
                    0 <= y < h,
                    0 <= stride,
            ;
        }
        let base: usize = y * stride;
        let mut b: usize = 0;
        while b < stride
            invariant
                b <= stride,
                stride == self.stride == old(self).stride,
                row@.len() == stride,
                base == y * stride,
                base + stride <= total,
                self.bytes@.len() == total == old(self).bytes@.len(),
                self.arrived == old(self).arrived,
                self.missing == old(self).missing,
                forall|i: int|
                    0 <= i < self.bytes@.len() ==> self.bytes@[i] == (if base <= i < base + b {
                        row@[i - base]
                    } else {
                        old(self).bytes@[i]
                    }),
            decreases stride - b,
        {
            self.bytes[base + b] = row[b];
            b = b + 1;
        }
        self.arrived[y] = true;
        self.missing = self.missing - 1;
        assert(self.row(y as int) =~= row@);
        assert forall|y2: int| 0 <= y2 < old(self).height() && y2 != y implies self.row(y2) == old(
            self,
        ).row(y2) by {
            assert forall|b2: int| 0 <= b2 < stride implies #[trigger] self.row(y2)[b2] == old(
                self,
            ).row(y2)[b2] by {
                lemma_byte_index(stride as int, h, b2, y2);
                if base <= y2 * stride + b2 < base + stride {
                    lemma_byte_index_unique(
                        stride as int,
                        b2,
                        y2,
                        y2 * stride + b2 - base,
                        y as int,
                    );
                }
            }
            assert(self.row(y2) =~= old(self).row(y2));
        }
        Ok(())
    }

    /// The bytes collected, row after row.
    pub fn into_bytes(self) -> (bytes: Vec<u8>)
        ensures
            bytes@ == self.bytes(),
    {
        self.bytes
    }
}

} // verus!
