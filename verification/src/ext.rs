//! Small helpers: rounding up to an alignment, and the last segment of a
//! path.
use vstd::prelude::*;
use vstd::string::StringSliceAdditionalSpecFns;

verus! {

/// Whether `alignment` is a power of two.
pub open spec fn is_power_of_two(alignment: usize) -> bool {
    exists|k: usize| k < usize::BITS && alignment == #[trigger] vstd::arithmetic::power2::pow2(k as nat)
}

/// `value` plus `alignment - 1`, with the low bits below the alignment
/// cleared.
pub open spec fn aligned(value: usize, alignment: usize) -> usize {
    ((value + alignment - 1) as usize) & !((alignment - 1) as usize)
}

/// Rounds `value` up to the next multiple of `alignment`. When
/// `alignment` is a power of two, the result is the least multiple of it
/// that is not below `value`.
pub fn align_to(value: usize, alignment: usize) -> (r: usize)
    requires
        alignment > 0,
        value + alignment - 1 <= usize::MAX,
    ensures
        r == aligned(value, alignment),
        is_power_of_two(alignment) ==> {
            &&& r % alignment == 0
            &&& value <= r
            &&& r < value + alignment
        },
{
    let r = (value + (alignment - 1)) & !(alignment - 1);
    proof {
        if is_power_of_two(alignment) {
            lemma_align_up(value, alignment);
        }
    }
    r
}

/// Rounding up to a power of two lands on the first multiple of it at or
/// above the value.
proof fn lemma_align_up(value: usize, alignment: usize)
    requires
        is_power_of_two(alignment),
        value + alignment - 1 <= usize::MAX,
    ensures
        aligned(value, alignment) % alignment == 0,
        value <= aligned(value, alignment),
        aligned(value, alignment) < value + alignment,
{
    let k = choose|k: usize| k < usize::BITS && alignment == #[trigger] vstd::arithmetic::power2::pow2(k as nat);
    vstd::bits::lemma_usize_pow2_no_overflow(k as nat);
    vstd::bits::lemma_usize_shl_is_mul(1, k);
    assert(alignment == 1usize << k);
    let r = aligned(value, alignment);
    assert(((value + alignment - 1) as usize) == value + alignment - 1);
    assert(r & ((alignment - 1) as usize) == 0 && value <= r && r < value + alignment) by (bit_vector)
        requires
            k < usize::BITS,
            alignment == 1usize << k,
            ((value + alignment - 1) as usize) >= value,
            r == ((value + alignment - 1) as usize) & !((alignment - 1) as usize),
    ;
    vstd::bits::lemma_usize_low_bits_mask_is_mod(r, k as nat);
    assert(vstd::bits::low_bits_mask(k as nat) == alignment - 1);
}

/// Whether `b[i - 2..i]` is `::` and `i` is a character boundary.
pub open spec fn cut_at(b: Seq<u8>, i: int) -> bool {
    2 <= i <= b.len() && b[i - 2] == 58 && b[i - 1] == 58 && vstd::utf8::is_char_boundary(b, i)
}

/// The last position up to `i` that follows a `::`, or `0` when there is
/// none.
pub open spec fn last_cut(b: Seq<u8>, i: int) -> int
    decreases i,
{
    if i < 2 {
        0
    } else if cut_at(b, i) {
        i
    } else {
        last_cut(b, i - 1)
    }
}

/// What follows the last `::` in `name`, or all of `name` when it holds
/// none.
pub fn short_name(name: &'static str) -> (r: &'static str)
    ensures
        r.spec_bytes() == name.spec_bytes().subrange(
            last_cut(name.spec_bytes(), name.spec_bytes().len() as int),
            name.spec_bytes().len() as int,
        ),
{
    let bytes = name.as_bytes();
    let ghost b = name.spec_bytes();
    let mut i = bytes.len();
    while i >= 2
        invariant
            bytes@ == b,
            b == name.spec_bytes(),
            i <= b.len(),
            last_cut(b, b.len() as int) == last_cut(b, i as int),
        decreases i,
    {
        if bytes[i - 2] == 58 && bytes[i - 1] == 58 && name.is_char_boundary(i) {
            let (_, tail) = name.split_at(i);
            return tail;
        }
        i = i - 1;
    }
    proof {
        assert(b.subrange(0, b.len() as int) =~= b);
    }
    name
}

} // verus!
