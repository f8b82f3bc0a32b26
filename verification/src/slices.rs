//! Index arithmetic on string slices: finding where the first word ends,
//! and cutting a string at a computed point.

use vstd::prelude::*;

use vstd::string::StringSliceAdditionalSpecFns;
use vstd::utf8::{
    encode_utf8, encode_utf8_valid_utf8, is_char_boundary,
    is_char_boundary_iff_not_is_continuation_byte, is_char_boundary_start_end_of_seq,
    valid_utf8_split,
};

verus! {

/// The byte value of the space character.
pub open spec fn space() -> u8 {
    32u8
}

/// The byte index where the first word of `s` ends: the first space, or
/// the whole length when there is none.
///
/// The index is only meaningful as long as the caller knows which string
/// it came from; nothing keeps the two in sync.
pub fn the_problem(s: &String) -> (r: usize)
    ensures
        ({
            let bytes = encode_utf8(s@);
            &&& r <= bytes.len()
            &&& forall|j: int| 0 <= j < r ==> bytes[j] != space()
            &&& r < bytes.len() ==> bytes[r as int] == space()
        }),
{
    let bytes: &[u8] = s.as_str().as_bytes();
    let n = bytes.len();
    let mut i: usize = 0;
    while i < n
        invariant
            i <= n,
            n == bytes@.len(),
            bytes@ == encode_utf8(s@),
            forall|j: int| 0 <= j < i ==> bytes@[j] != space(),
        decreases n - i,
    {
        if bytes[i] == 32u8 {
            return i;
        }
        i += 1;
    }
    n
}

/// The byte value of the vertical bar separator.
pub open spec fn bar() -> u8 {
    124u8
}

/// Cut `s` into the part before its first vertical bar and the part
/// after it, as two slices borrowing the same underlying string.
///
/// A string without a separator is excluded: the caller asked for both
/// halves, and there are none to hand out.
pub fn showcase_string_slices(string: &String) -> (r: (&str, &str))
    requires
        exists|i: int|
            0 <= i < encode_utf8(string@).len() && #[trigger] encode_utf8(string@)[i] == bar(),
    ensures
        ({
            let bytes = encode_utf8(string@);
            exists|sep: int|
                {
                    &&& 0 <= sep < bytes.len()
                    &&& #[trigger] bytes[sep] == bar()
                    &&& forall|j: int| 0 <= j < sep ==> bytes[j] != bar()
                    &&& r.0.spec_bytes() == bytes.subrange(0, sep)
                    &&& r.1.spec_bytes() == bytes.subrange(sep + 1, bytes.len() as int)
                }
        }),
{
    let ghost all = encode_utf8(string@);
    let bytes: &[u8] = string.as_str().as_bytes();
    let n = bytes.len();
    let mut i: usize = 0;
    while i < n
        invariant
            i <= n,
            n == bytes@.len(),
            all == encode_utf8(string@),
            bytes@ == all,
            exists|k: int| 0 <= k < all.len() && #[trigger] all[k] == bar(),
            forall|j: int| 0 <= j < i ==> all[j] != bar(),
        decreases n - i,
    {
        if bytes[i] == 124u8 {
            let ghost sep = i as int;
            proof {
                encode_utf8_valid_utf8(string@);
                is_char_boundary_iff_not_is_continuation_byte(all, sep);
            }
            let pair = string.as_str().split_at(i);
            let rest: &str = pair.1;
            let ghost rb = rest.spec_bytes();
            proof {
                valid_utf8_split(all, sep);
                assert(rb == all.subrange(sep, all.len() as int));
                assert(rb[0] == bar());
                assert(vstd::utf8::length_of_first_scalar(rb) == 1);
                assert(is_char_boundary(rb, 1)) by {
                    reveal_with_fuel(vstd::utf8::is_char_boundary, 2);
                    is_char_boundary_start_end_of_seq(vstd::utf8::pop_first_scalar(rb));
                }
            }
            let tail = rest.split_at(1);
            proof {
                assert(tail.1.spec_bytes() =~= all.subrange(sep + 1, all.len() as int));
                assert(pair.0.spec_bytes() =~= all.subrange(0, sep));
            }
            return (pair.0, tail.1);
        }
        i += 1;
    }
    proof {
        let k = choose|k: int| 0 <= k < all.len() && #[trigger] all[k] == bar();
        assert(all[k] != bar());
        assert(false);
    }
    (string.as_str(), string.as_str())
}

/// The byte index of the last space of `bytes`, or a negative value when
/// there is none.
pub open spec fn last_space(bytes: Seq<u8>) -> int
    decreases bytes.len(),
{
    if bytes.len() == 0 {
        -1
    } else if bytes.last() == space() {
        bytes.len() - 1
    } else {
        last_space(bytes.drop_last())
    }
}

/// Where `gimme_a_slice` cuts: half the index of the last space, or half
/// the length when no space occurs.
pub open spec fn half_point(bytes: Seq<u8>) -> int {
    if last_space(bytes) >= 0 {
        last_space(bytes) / 2
    } else {
        bytes.len() as int / 2
    }
}

/// A slice of the front of `s`, cut at `half_point` of its bytes.
///
/// The slice stays tied to the underlying string: clearing the string
/// would invalidate it, which is exactly what the borrow rules prevent.
/// Cutting is only possible where a character ends, so inputs whose cut
/// point falls inside a multi-byte character are excluded.
pub fn gimme_a_slice(s: &String) -> (r: &str)
    requires
        is_char_boundary(encode_utf8(s@), half_point(encode_utf8(s@))),
    ensures
        r.spec_bytes() == encode_utf8(s@).subrange(0, half_point(encode_utf8(s@))),
{
    let bytes: &[u8] = s.as_str().as_bytes();
    let n = bytes.len();
    let mut slice_point: usize = n / 2;
    let mut i: usize = 0;
    proof {
        assert(bytes@.take(0) =~= Seq::<u8>::empty());
    }
    while i < n
        invariant
            i <= n,
            n == bytes@.len(),
            bytes@ == encode_utf8(s@),
            slice_point == (if last_space(bytes@.take(i as int)) >= 0 {
                last_space(bytes@.take(i as int)) / 2
            } else {
                bytes@.len() as int / 2
            }),
        decreases n - i,
    {
        proof {
            assert(bytes@.take(i + 1).drop_last() =~= bytes@.take(i as int));
            assert(bytes@.take(i + 1).last() == bytes@[i as int]);
        }
        if bytes[i] == 32u8 {
            slice_point = i / 2;
        }
        i += 1;
    }
    proof {
        assert(bytes@.take(n as int) =~= bytes@);
        assert(slice_point == half_point(encode_utf8(s@)));
    }
    let pair = s.as_str().split_at(slice_point);
    pair.0
}

} // verus!