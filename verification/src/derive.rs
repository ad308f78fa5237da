//! Which integer backs a derived identifier.
use crate::text::same_text;
use vstd::prelude::*;

verus! {

/// Which primitive integer backs an identifier.
#[derive(Debug, Clone, Copy, PartialEq, Eq, Structural)]
pub enum Backing {
    Usize,
    U32,
}

/// The form of a type: a tuple struct with the types of its fields (as far as they are
/// plain names), or anything else.
pub enum Shape {
    Tuple(Vec<Option<String>>),
    Other,
}

/// The backing that a plain type name stands for.
pub open spec fn named_backing(name: Seq<char>) -> Option<Backing> {
    if name == "usize"@ {
        Some(Backing::Usize)
    } else if name == "u32"@ {
        Some(Backing::U32)
    } else {
        None
    }
}

/// The backing of an identifier: that of the single field of a tuple struct.
pub open spec fn spec_backing(shape: Shape) -> Option<Backing> {
    match shape {
        Shape::Tuple(fields) => if fields@.len() == 1 {
            match fields@[0] {
                Some(name) => named_backing(name@),
                None => None,
            }
        } else {
            None
        },
        Shape::Other => None,
    }
}

/// Finds the backing of an identifier.
pub fn backing_of(shape: &Shape) -> (backing: Option<Backing>)
    ensures
        backing == spec_backing(*shape),
{
    match shape {
        Shape::Tuple(fields) => {
            if fields.len() != 1 {
                return None;
            }
            match &fields[0] {
                Some(name) => {
                    if same_text(name.as_str(), "usize") {
                        Some(Backing::Usize)
                    } else if same_text(name.as_str(), "u32") {
                        proof {
                            reveal_strlit("usize");
                            reveal_strlit("u32");
                            assert("usize"@.len() != "u32"@.len());
                        }
                        Some(Backing::U32)
                    } else {
                        None
                    }
                },
                None => None,
            }
        },
        Shape::Other => None,
    }
}

/// The index that an identifier made from `n` stands for: a narrow one keeps the low bits.
pub open spec fn kept_index(backing: Backing, n: usize) -> usize {
    match backing {
        Backing::Usize => n,
        Backing::U32 => (n as int % 0x1_0000_0000) as usize,
    }
}

/// What is left of an index after the way through an identifier.
pub fn round_trip(backing: Backing, n: usize) -> (kept: usize)
    ensures
        kept == kept_index(backing, n),
{
    match backing {
        Backing::Usize => n,
        Backing::U32 => {
            assert(n as u64 as u32 == n as u64 % 0x1_0000_0000) by (bit_vector);
            let low: u32 = (n as u64) as u32;
            low as usize
        },
    }
}

/// Nothing is lost of an index that fits the backing, and the way through an identifier
/// changes nothing a second time.
pub proof fn law_round_trip_keeps_what_fits(backing: Backing, n: usize)
    ensures
        kept_index(backing, n) == n <==> (backing == Backing::U32 ==> n <= u32::MAX),
        kept_index(backing, kept_index(backing, n)) == kept_index(backing, n),
{
}

/// What identifiers hold is equal and ordered as the indices that they were made from, as
/// far as these fit the backing; the first index makes the least identifier.
pub proof fn law_identifiers_are_ordered_as_indices(backing: Backing, m: usize, n: usize)
    requires
        backing == Backing::U32 ==> m <= u32::MAX && n <= u32::MAX,
    ensures
        kept_index(backing, m) == kept_index(backing, n) <==> m == n,
        kept_index(backing, m) < kept_index(backing, n) <==> m < n,
        kept_index(backing, 0) == 0,
{
}

} // verus!
