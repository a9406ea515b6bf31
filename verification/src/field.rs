//! The storage of one generation: one bit per cell, rows of whole bytes.

use crate::life::bit8;
use vstd::arithmetic::div_mod::{lemma_fundamental_div_mod, lemma_mod_pos_bound};
use vstd::prelude::*;

verus! {

/// A grid of `w` columns and `h` rows, one bit per cell, stored in `data`
/// row after row. A row takes `w8` bytes; the cell in column `x` is bit
/// `x % 8` of byte `x / 8` of its row. The bits of a row's last byte beyond
/// column `w` are the row's margin. The fields are open to read; a field
/// that was written to from outside has to meet `wf` again before use.
pub struct Field {
    pub data: Vec<u8>,
    pub w: usize,
    pub h: usize,
    pub w8: usize,
}

/// The byte of row `y` with index `b` in the row is byte `y * w8 + b` of the
/// storage, which has `h * w8` bytes.
pub proof fn lemma_byte_index(w8: int, h: int, b: int, y: int)
    by (nonlinear_arith)
    requires
        0 <= b < w8,
        0 <= y < h,
    ensures
        0 <= y * w8 <= y * w8 + b < h * w8,
{
}

/// Two bytes with the same index in the storage are the same byte of the
/// same row.
pub proof fn lemma_byte_index_unique(w8: int, b: int, y: int, b2: int, y2: int)
    by (nonlinear_arith)
    requires
        0 <= b < w8,
        0 <= b2 < w8,
        0 <= y,
        0 <= y2,
        y * w8 + b == y2 * w8 + b2,
    ensures
        y == y2,
        b == b2,
{
}

impl Field {
    /// The number of columns.
    pub open spec fn spec_width(&self) -> usize {
        self.w
    }

    /// The number of rows.
    pub open spec fn spec_height(&self) -> usize {
        self.h
    }

    /// The number of bytes that a row takes.
    pub open spec fn spec_stride(&self) -> usize {
        self.w8
    }

    /// The number of columns.
    #[verifier::when_used_as_spec(spec_width)]
    pub fn width(&self) -> (w: usize)
        ensures
            w == self.spec_width(),
    {
        self.w
    }

    /// The number of rows.
    #[verifier::when_used_as_spec(spec_height)]
    pub fn height(&self) -> (h: usize)
        ensures
            h == self.spec_height(),
    {
        self.h
    }

    /// The number of bytes that a row takes.
    #[verifier::when_used_as_spec(spec_stride)]
    pub fn stride(&self) -> (w8: usize)
        ensures
            w8 == self.spec_stride(),
    {
        self.w8
    }

    /// The stored bytes, row after row.
    pub open spec fn bytes(&self) -> Seq<u8> {
        self.data@
    }

    /// The field's invariant: rows of `ceil(w / 8)` bytes, `h` of them.
    pub open spec fn wf(&self) -> bool {
        &&& self.stride() == (self.width() + 7) / 8
        &&& 8 * self.stride() <= usize::MAX
        &&& self.height() * self.stride() <= usize::MAX
        &&& self.bytes().len() == self.height() * self.stride()
    }

    /// The stored bit for column `x` of row `y`, margin included; false
    /// outside the storage.
    pub open spec fn raw(&self, x: int, y: int) -> bool {
        &&& 0 <= x < 8 * self.stride()
        &&& 0 <= y < self.height()
        &&& bit8(self.bytes()[y * self.stride() + x / 8], (x % 8) as u8)
    }

    /// The live cells of the grid.
    pub open spec fn live(&self) -> Set<(int, int)> {
        Set::new(|p: (int, int)| p.0 < self.width() && self.raw(p.0, p.1))
    }

    /// Whether every bit of the margin is clear.
    pub open spec fn margin_dead(&self) -> bool {
        forall|x: int, y: int| x >= self.width() ==> !#[trigger] self.raw(x, y)
    }

    /// A field of `w` by `h` dead cells.
    pub fn new(w: usize, h: usize) -> (f: Field)
        requires
            8 * ((w + 7) / 8) <= usize::MAX,
            ((w + 7) / 8) * h <= isize::MAX,
        ensures
            f.wf(),
            f.width() == w,
            f.height() == h,
            forall|x: int, y: int| !#[trigger] f.raw(x, y),
    {
        let w8: usize = w / 8 + (if w % 8 != 0 { 1usize } else { 0usize });
        assert(h * w8 == w8 * h) by (nonlinear_arith);
        let data: Vec<u8> = vec![0u8; h * w8];
        let f = Field { data, w, h, w8 };
        assert forall|x: int, y: int| !#[trigger] f.raw(x, y) by {
            if 0 <= x < 8 * w8 && 0 <= y < h {
                lemma_byte_index(w8 as int, h as int, x / 8, y);
                let d: u8 = f.bytes()[y * w8 + x / 8];
                let k: u8 = (x % 8) as u8;
                assert(d == 0);
                assert((0u8 >> k) & 1 == 0) by (bit_vector);
            }
        }
        f
    }

    /// The stored bytes, row after row.
    pub fn data(&self) -> (d: &Vec<u8>)
        ensures
            d@ == self.bytes(),
    {
        &self.data
    }

    /// Whether the cell in column `x` of row `y` is alive.
    pub fn get(&self, x: usize, y: usize) -> (alive: bool)
        requires
            self.wf(),
            x < self.width(),
            y < self.height(),
        ensures
            alive == self.live().contains((x as int, y as int)),
    {
        proof {
            lemma_byte_index(self.w8 as int, self.h as int, (x / 8) as int, y as int);
        }
        let di: usize = y * self.w8 + x / 8;
        let d: u8 = self.data[di];
        let k: u8 = (x % 8) as u8;
        assert(((d >> k) & 1) == 0 || ((d >> k) & 1) == 1) by (bit_vector);
        ((d >> k) & 1) != 0
    }

    /// Makes the cell in column `x` of row `y` alive or dead; every other
    /// bit stays.
    pub fn set(&mut self, x: usize, y: usize, v: bool)
        requires
            old(self).wf(),
            x < old(self).width(),
            y < old(self).height(),
        ensures
            final(self).wf(),
            final(self).width() == old(self).width(),
            final(self).height() == old(self).height(),
            forall|x2: int, y2: int|
                #[trigger] final(self).raw(x2, y2) == (if x2 == x && y2 == y {
                    v
                } else {
                    old(self).raw(x2, y2)
                }),
    {
        proof {
            lemma_byte_index(self.w8 as int, self.h as int, (x / 8) as int, y as int);
        }
        let k: u8 = (x % 8) as u8;
        let v8: u8 = (if v { 1u8 } else { 0u8 }) << k;
        let di: usize = y * self.w8 + x / 8;
        let d: u8 = self.data[di];
        let stored: u8 = (d & !(1u8 << k)) | v8;
        assert(forall|j: u8|
            j < 8 ==> #[trigger] bit8(stored, j) == (if j == k {
                v
            } else {
                bit8(d, j)
            })) by (bit_vector)
            requires
                k < 8,
                stored == (d & !(1u8 << k)) | ((if v { 1u8 } else { 0u8 }) << k),
        ;
        self.put_byte(x / 8, y, stored);
    }

    /// The byte with index `b` of row `y`.
    pub fn byte(&self, b: usize, y: usize) -> (d: u8)
        requires
            self.wf(),
            b < self.stride(),
            y < self.height(),
        ensures
            forall|j: u8| j < 8 ==> #[trigger] bit8(d, j) == self.raw(8 * b + j, y as int),
    {
        proof {
            lemma_byte_index(self.w8 as int, self.h as int, b as int, y as int);
        }
        self.data[y * self.w8 + b]
    }

    /// Replaces the byte with index `b` of row `y`, that is the cells in
    /// columns `8 b` to `8 b + 7` of that row; every other bit stays.
    pub fn put_byte(&mut self, b: usize, y: usize, value: u8)
        requires
            old(self).wf(),
            b < old(self).stride(),
            y < old(self).height(),
        ensures
            final(self).wf(),
            final(self).width() == old(self).width(),
            final(self).height() == old(self).height(),
            forall|x2: int, y2: int|
                #[trigger] final(self).raw(x2, y2) == (if y2 == y && 8 * b <= x2 < 8 * b + 8 {
                    bit8(value, (x2 - 8 * b) as u8)
                } else {
                    old(self).raw(x2, y2)
                }),
    {
        proof {
            lemma_byte_index(self.w8 as int, self.h as int, b as int, y as int);
        }
        let di: usize = y * self.w8 + b;
        self.data[di] = value;
        assert forall|x2: int, y2: int|
            #[trigger] final(self).raw(x2, y2) == (if y2 == y && 8 * b <= x2 < 8 * b + 8 {
                bit8(value, (x2 - 8 * b) as u8)
            } else {
                old(self).raw(x2, y2)
            }) by {
            if 0 <= x2 < 8 * self.w8 && 0 <= y2 < self.h {
                lemma_byte_index(self.w8 as int, self.h as int, x2 / 8, y2);
                if y2 * self.w8 + x2 / 8 == di {
                    lemma_byte_index_unique(self.w8 as int, b as int, y as int, x2 / 8, y2);
                }
            }
        }
    }

    /// Clears every bit of the margin; the cells of the grid stay.
    pub fn clear_margin(&mut self)
        requires
            old(self).wf(),
        ensures
            final(self).wf(),
            final(self).width() == old(self).width(),
            final(self).height() == old(self).height(),
            final(self).margin_dead(),
            forall|x: int, y: int|
                #[trigger] final(self).raw(x, y) == (x < old(self).width() && old(self).raw(x, y)),
    {
        let k: u8 = (self.w % 8) as u8;
        if k != 0 {
            assert(1 <= (1u8 << k)) by (bit_vector)
                requires
                    k < 8,
            ;
            let mask: u8 = (1u8 << k) - 1;
            let b: usize = self.w8 - 1;
            let h: usize = self.h;
            let mut y: usize = 0;
            while y < h
                invariant
                    y <= h,
                    h == self.height(),
                    self.wf(),
                    self.width() == old(self).width(),
                    self.height() == old(self).height(),
                    b == self.stride() - 1,
                    8 * b + k == self.width(),
                    0 < k < 8,
                    mask == (1u8 << k) - 1,
                    forall|x: int, y2: int|
                        #[trigger] self.raw(x, y2) == (if y2 < y {
                            x < old(self).width() && old(self).raw(x, y2)
                        } else {
                            old(self).raw(x, y2)
                        }),
                decreases h - y,
            {
                let d: u8 = self.byte(b, y);
                let kept: u8 = d & mask;
                assert(forall|j: u8| j < 8 ==> #[trigger] bit8(kept, j) == (j < k && bit8(d, j)))
                    by (bit_vector)
                    requires
                        kept == d & mask,
                        mask == (1u8 << k) - 1,
                        0 < k < 8,
                ;
                let ghost before = *self;
                self.put_byte(b, y, kept);
                assert forall|x: int, y2: int|
                    #[trigger] self.raw(x, y2) == (if y2 < y + 1 {
                        x < old(self).width() && old(self).raw(x, y2)
                    } else {
                        old(self).raw(x, y2)
                    }) by {
                    if y2 == y && 8 * b <= x < 8 * b + 8 {
                        let j: u8 = (x - 8 * b) as u8;
                        assert(bit8(d, j) == before.raw(8 * b + j, y as int));
                        assert(bit8(kept, j) == (j < k && bit8(d, j)));
                    } else {
                        assert(self.raw(x, y2) == before.raw(x, y2));
                    }
                }
                y = y + 1;
            }
        }
    }

    /// Replaces the whole storage by `bytes`, which has the storage's
    /// length.
    pub fn load(&mut self, bytes: &Vec<u8>)
        requires
            old(self).wf(),
            bytes@.len() == old(self).height() * old(self).stride(),
        ensures
            final(self).wf(),
            final(self).width() == old(self).width(),
            final(self).height() == old(self).height(),
            final(self).bytes() == bytes@,
    {
        let n: usize = bytes.len();
        let mut i: usize = 0;
        while i < n
            invariant
                i <= n,
                n == bytes@.len(),
                self.data@.len() == n,
                self.w == old(self).w,
                self.h == old(self).h,
                self.w8 == old(self).w8,
                forall|j: int| 0 <= j < i ==> self.data@[j] == bytes@[j],
            decreases n - i,
        {
            self.data[i] = bytes[i];
            i = i + 1;
        }
        assert(self.data@ =~= bytes@);
    }
}

/// A byte is known by its eight bits.
proof fn lemma_byte_by_bits(a: u8, b: u8)
    by (bit_vector)
    requires
        (a >> 0u8) & 1 == (b >> 0u8) & 1,
        (a >> 1u8) & 1 == (b >> 1u8) & 1,
        (a >> 2u8) & 1 == (b >> 2u8) & 1,
        (a >> 3u8) & 1 == (b >> 3u8) & 1,
        (a >> 4u8) & 1 == (b >> 4u8) & 1,
        (a >> 5u8) & 1 == (b >> 5u8) & 1,
        (a >> 6u8) & 1 == (b >> 6u8) & 1,
        (a >> 7u8) & 1 == (b >> 7u8) & 1,
    ensures
        a == b,
{
}

/// A bit of a byte is 0 or 1.
proof fn lemma_bit_is_binary(a: u8, k: u8)
    by (bit_vector)
    ensures
        (a >> k) & 1 == 0 || (a >> k) & 1 == 1,
{
}

/// Two fields of the same dimensions with the same bits, margin included,
/// hold the same bytes.
pub proof fn lemma_bytes_by_bits(first: &Field, second: &Field)
    requires
        first.wf(),
        second.wf(),
        first.width() == second.width(),
        first.height() == second.height(),
        forall|x: int, y: int| first.raw(x, y) == second.raw(x, y),
    ensures
        first.bytes() == second.bytes(),
{
    let w8 = first.stride() as int;
    let h = first.height() as int;
    assert(first.bytes().len() == second.bytes().len());
    assert forall|i: int| 0 <= i < first.bytes().len() implies first.bytes()[i]
        == second.bytes()[i] by {
        assert(w8 > 0) by (nonlinear_arith)
            requires
                0 <= i < h * w8,
                0 <= h,
                0 <= w8,
        ;
        lemma_fundamental_div_mod(i, w8);
        lemma_mod_pos_bound(i, w8);
        let y = i / w8;
        let b = i % w8;
        assert(0 <= y < h && y * w8 + b == i) by (nonlinear_arith)
            requires
                i == w8 * y + b,
                0 <= b < w8,
                0 <= i < h * w8,
        ;
        let d1 = first.bytes()[i];
        let d2 = second.bytes()[i];
        assert forall|j: u8| j < 8 implies (d1 >> j) & 1 == (d2 >> j) & 1 by {
            let x = 8 * b + j;
            assert(x / 8 == b && x % 8 == j as int);
            assert(first.raw(x, y) == second.raw(x, y));
            assert(first.raw(x, y) == bit8(d1, j));
            assert(second.raw(x, y) == bit8(d2, j));
            lemma_bit_is_binary(d1, j);
            lemma_bit_is_binary(d2, j);
        }
        lemma_byte_by_bits(d1, d2);
    }
    assert(first.bytes() =~= second.bytes());
}

} // verus!
