//! The colour and stroke rules of the 2D treemap drawing.

use vstd::prelude::*;
use vstd::utf8::encode_utf8;

verus! {

/// The HSL lightness, in percent, of a folder drawn at `depth`: 10 at the top, 5 more for
/// each level down, at most 50.
pub open spec fn spec_folder_lightness(depth: int) -> int {
    if 10 + 5 * depth <= 50 {
        10 + 5 * depth
    } else {
        50
    }
}

/// Folders get lighter, never darker, the deeper they are drawn, from 10% at the top up to
/// at most 50%.
pub proof fn lemma_lightness_grows_with_depth(d1: int, d2: int)
    requires
        0 <= d1 <= d2,
    ensures
        10 <= spec_folder_lightness(d1) <= spec_folder_lightness(d2) <= 50,
{
}

/// The HSL lightness, in percent, of a folder drawn at `depth`; `None` exactly where
/// `10 + 5 * depth` overflows a `usize`.
pub fn folder_lightness(depth: usize) -> (l: Option<usize>)
    ensures
        l is None <==> 10 + 5 * depth > usize::MAX,
        l matches Some(v) ==> v == spec_folder_lightness(depth as int),
{
    match depth.checked_mul(5) {
        Some(scaled) => match scaled.checked_add(10) {
            Some(v) => Some(
                if v < 50 {
                    v
                } else {
                    50
                },
            ),
            None => None,
        },
        None => None,
    }
}

/// The sum of a sequence of bytes.
pub open spec fn byte_sum(bytes: Seq<u8>) -> nat
    decreases bytes.len(),
{
    if bytes.len() == 0 {
        0
    } else {
        byte_sum(bytes.drop_last()) + bytes.last() as nat
    }
}

proof fn lemma_byte_sum_prefix(bytes: Seq<u8>, k: int)
    requires
        0 <= k <= bytes.len(),
    ensures
        byte_sum(bytes.take(k)) <= byte_sum(bytes),
    decreases bytes.len(),
{
    if k < bytes.len() {
        lemma_byte_sum_prefix(bytes.drop_last(), k);
        assert(bytes.drop_last().take(k) =~= bytes.take(k));
    } else {
        assert(bytes.take(k) =~= bytes);
    }
}

/// The HSL hue, in degrees, of a file named `name`: the sum of its UTF-8 bytes modulo 360;
/// `None` exactly where that sum overflows a `usize`.
pub fn file_hue(name: &str) -> (hue: Option<usize>)
    ensures
        hue is None <==> byte_sum(encode_utf8(name@)) > usize::MAX,
        hue matches Some(h) ==> h == byte_sum(encode_utf8(name@)) % 360,
{
    let bytes = name.as_bytes();
    let ghost all = encode_utf8(name@);
    let mut sum: usize = 0;
    let mut i: usize = 0;
    while i < bytes.len()
        invariant
            bytes@ == all,
            all == encode_utf8(name@),
            i <= all.len(),
            sum == byte_sum(all.take(i as int)),
        decreases all.len() - i,
    {
        proof {
            assert(all.take(i + 1).drop_last() =~= all.take(i as int));
            assert(all.take(i + 1).last() == all[i as int]);
        }
        match sum.checked_add(bytes[i] as usize) {
            Some(s) => {
                sum = s;
            },
            None => {
                proof {
                    assert(byte_sum(all.take(i + 1)) == sum + all[i as int]);
                    lemma_byte_sum_prefix(all, i + 1);
                }
                return None;
            },
        }
        i = i + 1;
    }
    proof {
        assert(all.take(i as int) =~= all);
    }
    Some(sum % 360)
}

/// The stroke width of an outline: thicker for folders, to show the hierarchy.
pub fn stroke_width(is_dir: bool) -> (w: &'static str)
    ensures
        w@ == if is_dir {
            "2.0"@
        } else {
            "0.5"@
        },
{
    if is_dir {
        "2.0"
    } else {
        "0.5"
    }
}

} // verus!
