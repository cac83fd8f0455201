//! Coordinates and polylines.

use vstd::prelude::*;

verus! {

/// Whether a 64-bit word is the pattern of a finite double-precision number: one
/// whose exponent bits are not all set. The other words stand for the infinities
/// and for values that are no number.
pub open spec fn is_finite_word(bits: u64) -> bool {
    bits & 0x7ff0_0000_0000_0000u64 != 0x7ff0_0000_0000_0000u64
}

/// One axis value of a coordinate: a finite double-precision number, carried as
/// its 64-bit pattern. The crate stores, copies and compares scalars and never
/// computes with them. Two scalars are equal exactly when their patterns are.
#[derive(Clone, Copy, Debug, PartialEq, Eq, Structural, Hash)]
pub struct Scalar {
    bits: u64,
}

impl Scalar {
    /// No scalar is an infinity or a value that is no number.
    #[verifier::type_invariant]
    spec fn finite(self) -> bool {
        is_finite_word(self.bits)
    }

    /// The pattern of the scalar.
    pub closed spec fn word(self) -> u64 {
        self.bits
    }

    /// The scalar with the given pattern. An infinity, or a value that is no
    /// number, is refused.
    pub fn from_bits(bits: u64) -> (scalar: Option<Scalar>)
        ensures
            scalar is Some <==> is_finite_word(bits),
            scalar is Some ==> scalar->0.word() == bits,
    {
        if bits & 0x7ff0_0000_0000_0000u64 != 0x7ff0_0000_0000_0000u64 {
            Some(Scalar { bits })
        } else {
            None
        }
    }

    /// The pattern of the scalar.
    pub fn to_bits(self) -> (bits: u64)
        ensures
            bits == self.word(),
            is_finite_word(bits),
    {
        proof {
            use_type_invariant(self);
        }
        self.bits
    }
}

/// Scalars with the same pattern are the same scalar.
pub proof fn scalar_is_its_word(a: Scalar, b: Scalar)
    requires
        a.word() == b.word(),
    ensures
        a == b,
{
}

/// A coordinate: the primary axis `x` and the secondary axis `y`.
///
/// Two coordinates are the same point exactly when both axes hold the same word.
#[derive(Clone, Copy, Debug, PartialEq, Eq, Structural, Hash)]
pub struct Point {
    pub x: Scalar,
    pub y: Scalar,
}

/// The point sequences held by a list of polylines.
pub open spec fn polylines(lines: Seq<Vec<Point>>) -> Seq<Seq<Point>> {
    lines.map_values(|line: Vec<Point>| line@)
}

/// Whether a polyline is a ring: non-empty, and ending on the point it starts from.
pub open spec fn is_ring(line: Seq<Point>) -> bool {
    line.len() > 0 && line.first() == line.last()
}

/// Compares two polylines point for point.
pub fn same_points(a: &[Point], b: &[Point]) -> (same: bool)
    ensures
        same == (a@ == b@),
{
    if a.len() != b.len() {
        return false;
    }
    let mut i: usize = 0;
    while i < a.len()
        invariant
            a.len() == b.len(),
            i <= a.len(),
            forall|k: int| 0 <= k < i ==> a@[k] == b@[k],
        decreases a.len() - i,
    {
        if a[i] != b[i] {
            return false;
        }
        i += 1;
    }
    assert(a@ =~= b@);
    true
}

/// Copies the points of a polyline.
pub fn copy_points(polyline: &[Point]) -> (points: Vec<Point>)
    ensures
        points@ == polyline@,
{
    let mut points: Vec<Point> = Vec::new();
    let mut i: usize = 0;
    while i < polyline.len()
        invariant
            i <= polyline.len(),
            points@ == polyline@.subrange(0, i as int),
        decreases polyline.len() - i,
    {
        points.push(polyline[i]);
        assert(points@ =~= polyline@.subrange(0, i + 1));
        i += 1;
    }
    assert(points@ =~= polyline@);
    points
}

} // verus!
