use vstd::prelude::*;

verus! {

/// How the distance between two embeddings is measured. Lower is nearer for
/// both: squared Euclidean distance, and one minus the cosine similarity.
#[derive(Debug, Clone, Copy, PartialEq, Eq, Structural)]
pub enum Metric {
    Euclidean,
    Cosine,
}

// ---------------------------------------------------------------------
// Ordering of distances
//
// A distance is carried as the bit pattern of an IEEE-754 single precision
// number. The functions below order such patterns as the numbers are
// ordered, with integer operations only.
// ---------------------------------------------------------------------
/// Whether the pattern is a NaN: all exponent bits set, mantissa not zero.
pub open spec fn is_nan(bits: u32) -> bool {
    (bits & 0x7fff_ffff) > 0x7f80_0000
}

/// Position of a pattern in the total order of distances: numbers by value,
/// both zeros at the same place, every NaN last.
pub open spec fn rank(bits: u32) -> u32 {
    let mag = bits & 0x7fff_ffff;
    if mag > 0x7f80_0000 {
        0xffff_ffff
    } else if bits & 0x8000_0000 != 0 {
        (0x8000_0000 - mag) as u32
    } else {
        (0x8000_0000 + mag) as u32
    }
}

/// The numeric `<`: false whenever either side is a NaN.
pub open spec fn less(a: u32, b: u32) -> bool {
    !is_nan(a) && !is_nan(b) && rank(a) < rank(b)
}

/// Whether the pattern is a NaN.
pub fn is_nan_bits(bits: u32) -> (r: bool)
    ensures
        r == is_nan(bits),
{
    (bits & 0x7fff_ffff) > 0x7f80_0000
}

/// Position of a distance in the total order of distances.
pub fn distance_rank(bits: u32) -> (r: u32)
    ensures
        r == rank(bits),
{
    let mag: u32 = bits & 0x7fff_ffff;
    assert(bits & 0x7fff_ffff <= 0x7fff_ffff) by (bit_vector);
    if mag > 0x7f80_0000 {
        0xffff_ffff
    } else if bits & 0x8000_0000 != 0 {
        0x8000_0000 - mag
    } else {
        0x8000_0000 + mag
    }
}

/// Whether distance `a` is less than distance `b`, as numbers.
pub fn distance_less(a: u32, b: u32) -> (r: bool)
    ensures
        r == less(a, b),
{
    !is_nan_bits(a) && !is_nan_bits(b) && distance_rank(a) < distance_rank(b)
}

/// `less` is irreflexive and transitive, and whatever is less is ranked
/// lower.
pub proof fn law_distance_order(a: u32, b: u32, c: u32)
    ensures
        !less(a, a),
        less(a, b) && less(b, c) ==> less(a, c),
        less(a, b) ==> rank(a) < rank(b),
{
}

// ---------------------------------------------------------------------
// Distance kernels
// ---------------------------------------------------------------------
/// Whether the kernel `f` can answer `r` for embeddings with the contents `a`
/// and `b`.
pub open spec fn kernel_yields<F: Fn(&Vec<u32>, &Vec<u32>) -> u32>(
    f: F,
    a: Seq<u32>,
    b: Seq<u32>,
    r: u32,
) -> bool {
    exists|x: &Vec<u32>, y: &Vec<u32>| x@ == a && y@ == b && #[trigger] call_ensures(f, (x, y), r)
}

/// The distance that the kernel `f` assigns to two embeddings, as a function
/// of their contents.
pub open spec fn kernel_value<F: Fn(&Vec<u32>, &Vec<u32>) -> u32>(
    f: F,
    a: Seq<u32>,
    b: Seq<u32>,
) -> u32 {
    choose|r: u32| kernel_yields(f, a, b, r)
}

/// A kernel is well formed when it accepts every pair of embeddings and its
/// result depends on nothing but their contents. [`law_kernel_of_function`]
/// shows it of a kernel whose contract names the function it computes.
pub open spec fn kernel_wf<F: Fn(&Vec<u32>, &Vec<u32>) -> u32>(f: F) -> bool {
    &&& forall|x: &Vec<u32>, y: &Vec<u32>| #[trigger] call_requires(f, (x, y))
    &&& forall|x: &Vec<u32>, y: &Vec<u32>, r: u32| #[trigger]
        call_ensures(f, (x, y), r) ==> r == kernel_value(f, x@, y@)
}

/// A kernel that accepts every pair of embeddings and whose answers are
/// those of the function `g` is well formed, and `g` is what it assigns.
pub proof fn law_kernel_of_function<F: Fn(&Vec<u32>, &Vec<u32>) -> u32>(
    f: F,
    g: spec_fn(Seq<u32>, Seq<u32>) -> u32,
)
    requires
        forall|x: &Vec<u32>, y: &Vec<u32>| #[trigger] call_requires(f, (x, y)),
        forall|x: &Vec<u32>, y: &Vec<u32>, r: u32| #[trigger]
            call_ensures(f, (x, y), r) ==> r == g(x@, y@),
    ensures
        kernel_wf(f),
        forall|a: Seq<u32>, b: Seq<u32>, r: u32| #[trigger]
            kernel_yields(f, a, b, r) ==> kernel_value(f, a, b) == g(a, b),
{
    assert forall|a: Seq<u32>, b: Seq<u32>, r: u32| #[trigger]
        kernel_yields(f, a, b, r) implies kernel_value(f, a, b) == g(a, b) by {
        let r0 = kernel_value(f, a, b);
        assert(kernel_yields(f, a, b, r0));
        let (x2, y2) = choose|x2: &Vec<u32>, y2: &Vec<u32>|
            x2@ == a && y2@ == b && #[trigger] call_ensures(f, (x2, y2), r0);
        assert(call_ensures(f, (x2, y2), r0));
    }
    assert forall|x: &Vec<u32>, y: &Vec<u32>, r: u32| #[trigger]
        call_ensures(f, (x, y), r) implies r == kernel_value(f, x@, y@) by {
        assert(kernel_yields(f, x@, y@, r));
    }
}

} // verus!
