//! Hex form of byte strings.
use vstd::prelude::*;

verus! {

/// The hex digits of `bytes`, two to a byte, higher half first.
pub open spec fn hex_digits(bytes: Seq<u8>) -> Seq<u8> {
    Seq::new(
        2 * bytes.len(),
        |i: int|
            if i % 2 == 0 {
                bytes[i / 2] / 16
            } else {
                bytes[i / 2] % 16
            },
    )
}

/// `len` is the length of the longest common prefix of `a` and `b`.
pub open spec fn is_common_prefix_len(a: Seq<u8>, b: Seq<u8>, len: int) -> bool {
    &&& 0 <= len <= a.len()
    &&& len <= b.len()
    &&& forall|i: int| 0 <= i < len ==> a[i] == b[i]
    &&& len < a.len() && len < b.len() ==> a[len] != b[len]
}

/// A byte string has two hex digits for each byte, and they make up the byte.
pub proof fn lemma_hex_digits(bytes: Seq<u8>)
    ensures
        hex_digits(bytes).len() == 2 * bytes.len(),
        forall|i: int|
            0 <= i < bytes.len() ==> {
                &&& hex_digits(bytes)[2 * i] < 16
                &&& hex_digits(bytes)[2 * i + 1] < 16
                &&& 16 * hex_digits(bytes)[2 * i] + hex_digits(bytes)[2 * i + 1]
                    == #[trigger] bytes[i]
            },
{
}

/// Byte strings with the same hex digits are the same.
pub proof fn lemma_hex_digits_determine(first: Seq<u8>, second: Seq<u8>)
    requires
        hex_digits(first) == hex_digits(second),
    ensures
        first == second,
{
    lemma_hex_digits(first);
    lemma_hex_digits(second);
    assert forall|i: int| 0 <= i < first.len() implies first[i] == second[i] by {
        let digits = hex_digits(first);
        assert(16 * digits[2 * i] + digits[2 * i + 1] == first[i]);
        assert(16 * digits[2 * i] + digits[2 * i + 1] == second[i]);
    }
    assert(first =~= second);
}

/// Two sequences are the same up to the length of their longest common prefix, and
/// up to no greater length.
pub proof fn lemma_longest_common_prefix(a: Seq<u8>, b: Seq<u8>, len: int)
    ensures
        is_common_prefix_len(a, b, len) <==> {
            &&& 0 <= len <= a.len()
            &&& len <= b.len()
            &&& a.take(len) == b.take(len)
            &&& forall|k: int|
                len < k <= a.len() && k <= b.len() ==> #[trigger] a.take(k) != #[trigger] b.take(k)
        },
{
    if is_common_prefix_len(a, b, len) {
        assert(a.take(len) =~= b.take(len));
        assert forall|k: int| len < k <= a.len() && k <= b.len() implies #[trigger] a.take(k)
            != #[trigger] b.take(k) by {
            assert(a.take(k)[len] == a[len]);
            assert(b.take(k)[len] == b[len]);
        }
    }
    if {
        &&& 0 <= len <= a.len()
        &&& len <= b.len()
        &&& a.take(len) == b.take(len)
        &&& forall|k: int|
            len < k <= a.len() && k <= b.len() ==> #[trigger] a.take(k) != #[trigger] b.take(k)
    } {
        assert forall|i: int| 0 <= i < len implies a[i] == b[i] by {
            assert(a.take(len)[i] == b.take(len)[i]);
        }
        if len < a.len() && len < b.len() && a[len] == b[len] {
            assert(a.take(len + 1) =~= b.take(len + 1));
        }
    }
}

/// Returns the number of leading hex digits which the two byte strings share.
///
/// The number of digits has to fit in a `usize`.
pub fn common_hex_len(bytes_a: &[u8], bytes_b: &[u8]) -> (len: usize)
    requires
        2 * bytes_a@.len() <= usize::MAX,
    ensures
        is_common_prefix_len(hex_digits(bytes_a@), hex_digits(bytes_b@), len as int),
{
    let ghost a = hex_digits(bytes_a@);
    let ghost b = hex_digits(bytes_b@);
    let mut i: usize = 0;
    while i < bytes_a.len() && i < bytes_b.len()
        invariant
            i <= bytes_a@.len(),
            i <= bytes_b@.len(),
            2 * bytes_a@.len() <= usize::MAX,
            a == hex_digits(bytes_a@),
            b == hex_digits(bytes_b@),
            forall|k: int| 0 <= k < 2 * i ==> a[k] == b[k],
        decreases bytes_a@.len() - i,
    {
        let x: u8 = bytes_a[i];
        let y: u8 = bytes_b[i];
        assert(a[2 * i] == x / 16 && a[2 * i + 1] == x % 16);
        assert(b[2 * i] == y / 16 && b[2 * i + 1] == y % 16);
        if x != y {
            if x / 16 == y / 16 {
                return 2 * i + 1;
            }
            return 2 * i;
        }
        i += 1;
    }
    2 * i
}

} // verus!
