//! What a seed is read from: the rule's text under the key `rulestring` of
//! a JSON object, and the first generation as rows of pixels, a pixel of
//! value 0 for a live cell.

use crate::error::{AutomataError, ErrorKind};
use crate::life::{bit8, Rule};
use crate::rule::{reads_as, well_formed};
use vstd::prelude::*;

verus! {

/// The longest seed description that is read, in characters.
pub const MAX_SEED_TEXT: usize = 32_768;

/// What the `json` crate finds under the key `key` of the document `text`:
/// the string there, or nothing where `text` is no JSON document, the
/// document is no object, the object has no such key, or the value under
/// the key is no string.
pub uninterp spec fn json_string_at(text: Seq<char>, key: Seq<char>) -> Option<Seq<char>>;

/// The rule string of the seed description `text`: what stands under the
/// key `rulestring`, and nothing where the description is longer than
/// `MAX_SEED_TEXT` characters.
pub open spec fn seed_rulestring(text: Seq<char>) -> Option<Seq<char>> {
    if text.len() > MAX_SEED_TEXT {
        None
    } else {
        json_string_at(text, "rulestring"@)
    }
}

/// Parses `text` with `json::parse`, indexes the value with `key` and
/// reads the result with `JsonValue::as_str`. Not proved: that the string
/// handed back is the one the crate finds, which `json_string_at` names.
/// The crate's parser and lookup depend on the text and the key alone; a
/// parse error, a value that is no object, a missing key and a value that
/// is no string all give `None`. The parser counts the digits of a
/// fraction in a 16-bit exponent without a test, and a number with more
/// than 32,768 of them takes it out of range; a text of at most
/// `MAX_SEED_TEXT` characters has no room for that many, and no longer
/// text is admitted.
#[verifier::external_body]
fn find_string(text: &str, key: &str) -> (found: Option<String>)
    requires
        text@.len() <= MAX_SEED_TEXT,
    ensures
        match found {
            Some(s) => json_string_at(text@, key@) == Some(s@),
            None => json_string_at(text@, key@) is None,
        },
{
    match json::parse(text) {
        Ok(value) => match value[key].as_str() {
            Some(s) => Some(s.to_string()),
            None => None,
        },
        Err(_) => None,
    }
}

impl Rule {
    /// The rule that a rule string found in a seed description stands for;
    /// a description without a rule string is rejected like a malformed
    /// one.
    pub fn from_found(found: Option<String>) -> (r: Result<Rule, AutomataError>)
        ensures
            match r {
                Ok(rule) => found matches Some(s) && reads_as(s@, rule),
                Err(e) => e.kind == ErrorKind::Format && match found {
                    Some(s) => !well_formed(s@),
                    None => true,
                },
            },
    {
        match found {
            Some(s) => Rule::parse(s.as_str()),
            None => Err(AutomataError { kind: ErrorKind::Format }),
        }
    }

    /// The rule of the seed description `text`, a JSON object with the
    /// rule's text under the key `rulestring`. A description of more than
    /// `MAX_SEED_TEXT` characters is rejected unread, like one without a
    /// rule string.
    pub fn from_seed_json(text: &str) -> (r: Result<Rule, AutomataError>)
        ensures
            match r {
                Ok(rule) => seed_rulestring(text@) matches Some(s) && reads_as(s, rule),
                Err(e) => e.kind == ErrorKind::Format && match seed_rulestring(text@) {
                    Some(s) => !well_formed(s),
                    None => true,
                },
            },
    {
        if text.unicode_len() > MAX_SEED_TEXT {
            return Err(AutomataError { kind: ErrorKind::Format });
        }
        Rule::from_found(find_string(text, "rulestring"))
    }
}

/// Packs the first `w` pixels of a row into the bytes of a seed row: the
/// cell in column `x` is bit `x % 8` of byte `x / 8`, alive where the pixel
/// is 0. The bits beyond column `w` are clear.
pub fn pack_row(pixels: &Vec<u8>, w: usize) -> (row: Vec<u8>)
    requires
        pixels@.len() >= w,
    ensures
        row@.len() == (w + 7) / 8,
        forall|x: int|
            0 <= x < 8 * ((w + 7) / 8) ==> bit8(#[trigger] row@[x / 8], (x % 8) as u8) == (x < w
                && pixels@[x] == 0),
{
    let w8: usize = w / 8 + (if w % 8 != 0 { 1usize } else { 0usize });
    let mut row: Vec<u8> = vec![0u8; w8];
    assert forall|b: int, j: u8| 0 <= b < w8 && j < 8 implies !#[trigger] bit8(row@[b], j) by {
        assert(row@[b] == 0);
        assert((0u8 >> j) & 1 == 0) by (bit_vector);
    }
    let mut x: usize = 0;
    while x < w
        invariant
            x <= w,
            w8 == (w + 7) / 8,
            pixels@.len() >= w,
            row@.len() == w8,
            forall|b: int, j: u8|
                0 <= b < w8 && j < 8 ==> #[trigger] bit8(row@[b], j) == (8 * b + j < x
                    && pixels@[8 * b + j] == 0),
        decreases w - x,
    {
        if pixels[x] == 0 {
            let k: u8 = (x % 8) as u8;
            let d: u8 = row[x / 8];
            let lit: u8 = d | (1u8 << k);
            assert(forall|j: u8| j < 8 ==> #[trigger] bit8(lit, j) == (j == k || bit8(d, j)))
                by (bit_vector)
                requires
                    lit == d | (1u8 << k),
                    k < 8,
            ;
            row[x / 8] = lit;
        }
        x = x + 1;
    }
    assert forall|x2: int| 0 <= x2 < 8 * ((w + 7) / 8) implies bit8(
        #[trigger] row@[x2 / 8],
        (x2 % 8) as u8,
    ) == (x2 < w && pixels@[x2] == 0) by {
        let j: u8 = (x2 % 8) as u8;
        assert(bit8(row@[x2 / 8], j) == (8 * (x2 / 8) + j < w && pixels@[8 * (x2 / 8) + j] == 0));
    }
    row
}

} // verus!
