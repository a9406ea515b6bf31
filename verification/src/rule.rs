//! Reading a rule from its text, `B<digits>/S<digits>`.

use crate::error::{AutomataError, ErrorKind};
use crate::life::{bit16, Rule};
use vstd::prelude::*;

verus! {

/// Whether `c` is a digit that names a neighbour count: `0` to `8`.
pub open spec fn is_count_digit(c: char) -> bool {
    48 <= c as u32 <= 56
}

/// The neighbour count that the digit `c` names.
pub open spec fn count_of(c: char) -> int {
    c as u32 - 48
}

/// The end of the run of count digits that starts at index `from` of `s`.
pub open spec fn digits_end(s: Seq<char>, from: int) -> int
    decreases s.len() - from,
{
    if 0 <= from < s.len() && is_count_digit(s[from]) {
        digits_end(s, from + 1)
    } else {
        from
    }
}

/// Whether `s` is a rule's text: `B`, count digits, `/`, `S`, count digits,
/// and nothing else.
pub open spec fn well_formed(s: Seq<char>) -> bool {
    let slash = digits_end(s, 1);
    &&& s.len() >= 3
    &&& s[0] == 'B'
    &&& slash + 1 < s.len()
    &&& s[slash] == '/'
    &&& s[slash + 1] == 'S'
    &&& digits_end(s, slash + 2) == s.len()
}

/// Whether one of the digits of `s` from index `from` up to `to` names the
/// count `k`.
pub open spec fn names(s: Seq<char>, from: int, to: int, k: int) -> bool {
    exists|i: int| from <= i < to && 0 <= i < s.len() && count_of(#[trigger] s[i]) == k
}

/// Whether `mask` has exactly the bits of the counts that the digits of `s`
/// from `from` up to `to` name.
pub open spec fn mask_reads(s: Seq<char>, from: int, to: int, mask: u16) -> bool {
    &&& mask < 512
    &&& forall|k: u16| k < 9 ==> #[trigger] bit16(mask, k) == names(s, from, to, k as int)
}

/// Whether `rule` is the rule that the well-formed text `s` stands for.
pub open spec fn reads_as(s: Seq<char>, rule: Rule) -> bool {
    let slash = digits_end(s, 1);
    &&& well_formed(s)
    &&& mask_reads(s, 1, slash, rule.borns)
    &&& mask_reads(s, slash + 2, s.len() as int, rule.survives)
}

/// A text stands for at most one rule.
pub proof fn lemma_reads_as_unique(s: Seq<char>, a: Rule, b: Rule)
    requires
        reads_as(s, a),
        reads_as(s, b),
    ensures
        a == b,
{
    lemma_mask_unique(a.borns, b.borns);
    lemma_mask_unique(a.survives, b.survives);
}

/// A mask below 512 is known by its nine bits.
proof fn lemma_mask_unique(a: u16, b: u16)
    requires
        a < 512,
        b < 512,
        forall|k: u16| k < 9 ==> #[trigger] bit16(a, k) == bit16(b, k),
    ensures
        a == b,
{
    assert(a == b) by (bit_vector)
        requires
            a < 512,
            b < 512,
            bit16(a, 0) == bit16(b, 0) && bit16(a, 1) == bit16(b, 1) && bit16(a, 2) == bit16(b, 2)
                && bit16(a, 3) == bit16(b, 3) && bit16(a, 4) == bit16(b, 4) && bit16(a, 5)
                == bit16(b, 5) && bit16(a, 6) == bit16(b, 6) && bit16(a, 7) == bit16(b, 7)
                && bit16(a, 8) == bit16(b, 8),
    ;
}

/// Reads the run of count digits of `s` that starts at `from`: where it
/// ends, and the mask of the counts in it.
fn scan_digits(s: &str, from: usize, len: usize) -> (r: (usize, u16))
    requires
        len == s@.len(),
        from <= len,
    ensures
        r.0 == digits_end(s@, from as int),
        from <= r.0 <= len,
        mask_reads(s@, from as int, r.0 as int, r.1),
{
    let mut i: usize = from;
    let mut mask: u16 = 0;
    let mut going: bool = true;
    proof {
        assert(forall|k: u16| k < 9 ==> !#[trigger] bit16(0u16, k)) by (bit_vector);
    }
    while going && i < len
        invariant
            len == s@.len(),
            from <= i <= len,
            going ==> digits_end(s@, i as int) == digits_end(s@, from as int),
            !going ==> i == digits_end(s@, from as int),
            mask_reads(s@, from as int, i as int, mask),
        decreases (if going { 1int } else { 0int }) + len - i,
    {
        let c: char = s.get_char(i);
        let v: u32 = c as u32;
        if 48 <= v && v <= 56 {
            let d: u16 = (v - 48) as u16;
            let grown: u16 = mask | (1u16 << d);
            assert(grown < 512 && (forall|k: u16|
                k < 9 ==> #[trigger] bit16(grown, k) == (k == d || bit16(mask, k))))
                by (bit_vector)
                requires
                    grown == mask | (1u16 << d),
                    d < 9,
                    mask < 512,
            ;
            assert forall|k: u16| k < 9 implies #[trigger] bit16(grown, k) == names(
                s@,
                from as int,
                i + 1,
                k as int,
            ) by {
                if names(s@, from as int, i + 1, k as int) {
                    let j = choose|j: int|
                        from <= j < i + 1 && 0 <= j < s@.len() && count_of(#[trigger] s@[j]) == k;
                    if j < i {
                        assert(names(s@, from as int, i as int, k as int));
                    }
                }
                if k == d {
                    assert(count_of(s@[i as int]) == k);
                }
                if names(s@, from as int, i as int, k as int) {
                    let j = choose|j: int|
                        from <= j < i && 0 <= j < s@.len() && count_of(#[trigger] s@[j]) == k;
                    assert(from <= j < i + 1 && count_of(s@[j]) == k);
                }
            }
            mask = grown;
            i = i + 1;
        } else {
            going = false;
        }
    }
    (i, mask)
}

impl Rule {
    /// Reads a rule from its text. The text is `B`, the neighbour counts
    /// that bring a dead cell to life, `/`, `S`, and the counts that keep a
    /// live cell alive, each count a digit from 0 to 8. Any other text is
    /// rejected.
    pub fn parse(s: &str) -> (r: Result<Rule, AutomataError>)
        ensures
            match r {
                Ok(rule) => reads_as(s@, rule),
                Err(e) => !well_formed(s@) && e.kind == ErrorKind::Format,
            },
    {
        let len: usize = s.unicode_len();
        if len < 3 || s.get_char(0) != 'B' {
            return Err(AutomataError { kind: ErrorKind::Format });
        }
        let (slash, borns) = scan_digits(s, 1, len);
        if len - slash < 2 {
            return Err(AutomataError { kind: ErrorKind::Format });
        }
        if s.get_char(slash) != '/' || s.get_char(slash + 1) != 'S' {
            return Err(AutomataError { kind: ErrorKind::Format });
        }
        let (end, survives) = scan_digits(s, slash + 2, len);
        if end != len {
            return Err(AutomataError { kind: ErrorKind::Format });
        }
        Ok(Rule { borns, survives })
    }

    /// Whether the rule brings a dead cell without live neighbours to life.
    pub fn births_from_zero(&self) -> (b: bool)
        ensures
            b == crate::life::births_from_zero(*self),
    {
        let borns: u16 = self.borns;
        assert((borns & 1 != 0) == ((borns >> 0u16) & 1 == 1)) by (bit_vector);
        borns & 1 != 0
    }
}

} // verus!
