//! The byte codec for field elements: each element is written as
//! `ELEMENT_BYTES` little-endian bytes, and contiguous buffers hold the
//! concatenation. Decoding rejects buffers of the wrong length and values
//! at or above the modulus, so the codec is lossless in both directions.

use vstd::prelude::*;
use vstd::arithmetic::div_mod::*;
use vstd::arithmetic::mul::*;
use vstd::arithmetic::power::*;
use crate::field::{Felt, P, ELEMENT_BYTES};

verus! {

/// The `n` little-endian base-256 digits of `v`.
pub open spec fn le_bytes(v: int, n: nat) -> Seq<u8>
    decreases n,
{
    if n == 0 {
        Seq::empty()
    } else {
        seq![(v % 256) as u8] + le_bytes(v / 256, (n - 1) as nat)
    }
}

/// The value of a little-endian base-256 digit string.
pub open spec fn le_val(bs: Seq<u8>) -> int
    decreases bs.len(),
{
    if bs.len() == 0 {
        0
    } else {
        bs[0] + 256 * le_val(bs.skip(1))
    }
}

/// The canonical encoding of one field element.
pub open spec fn elem_to_bytes(v: int) -> Seq<u8> {
    le_bytes(v, ELEMENT_BYTES as nat)
}

/// The canonical encoding of a sequence of field elements.
pub open spec fn elems_to_bytes(s: Seq<int>) -> Seq<u8>
    decreases s.len(),
{
    if s.len() == 0 {
        Seq::empty()
    } else {
        elem_to_bytes(s[0]) + elems_to_bytes(s.skip(1))
    }
}

/// Decoding of a byte buffer into field element values: `None` when the
/// length is not a multiple of the element width or some chunk holds a
/// value at or above the modulus.
pub open spec fn bytes_to_elems(bs: Seq<u8>) -> Option<Seq<int>>
    decreases bs.len(),
{
    if bs.len() as int % (ELEMENT_BYTES as int) != 0 {
        None
    } else if bs.len() == 0 {
        Some(Seq::empty())
    } else {
        let v = le_val(bs.take(ELEMENT_BYTES as int));
        if 0 <= v < P as int {
            match bytes_to_elems(bs.skip(ELEMENT_BYTES as int)) {
                Some(rest) => Some(seq![v] + rest),
                None => None,
            }
        } else {
            None
        }
    }
}

/// The sequence of values of a vector of elements.
pub open spec fn felt_vals(s: Seq<Felt>) -> Seq<int> {
    s.map(|i: int, f: Felt| f.val())
}

/// All entries of a vector of elements are reduced.
pub open spec fn all_wf(s: Seq<Felt>) -> bool {
    forall|i: int| 0 <= i < s.len() ==> (#[trigger] s[i]).wf()
}

// CODEC LEMMAS
// ================================================================================================

/// An encoding has exactly the requested length.
pub proof fn lemma_le_bytes_len(v: int, n: nat)
    ensures
        le_bytes(v, n).len() == n,
    decreases n,
{
    if n > 0 {
        lemma_le_bytes_len(v / 256, (n - 1) as nat);
    }
}

/// The value of a digit string is bounded by the base raised to its length.
pub proof fn lemma_le_val_bound(bs: Seq<u8>)
    ensures
        0 <= le_val(bs) < pow(256, bs.len() as nat),
    decreases bs.len(),
{
    if bs.len() == 0 {
        lemma_pow0(256);
    } else {
        lemma_le_val_bound(bs.skip(1));
        lemma_pow_adds(256, 1, (bs.len() - 1) as nat);
        lemma_pow1(256);
        assert(le_val(bs) == bs[0] + 256 * le_val(bs.skip(1)));
        assert(256 * le_val(bs.skip(1)) <= 256 * (pow(256, (bs.len() - 1) as nat) - 1)) by {
            lemma_mul_inequality(
                le_val(bs.skip(1)),
                pow(256, (bs.len() - 1) as nat) - 1,
                256,
            );
            lemma_mul_is_commutative(le_val(bs.skip(1)), 256);
            lemma_mul_is_commutative(pow(256, (bs.len() - 1) as nat) - 1, 256);
        }
        assert(256 * (pow(256, (bs.len() - 1) as nat) - 1) == 256 * pow(256, (bs.len() - 1) as nat)
            - 256) by {
            lemma_mul_is_distributive_sub(256, pow(256, (bs.len() - 1) as nat), 1);
        }
        lemma_mul_nonnegative(256, le_val(bs.skip(1)));
    }
}

/// Decoding inverts encoding on values the width can hold.
pub proof fn lemma_le_roundtrip(v: int, n: nat)
    requires
        0 <= v < pow(256, n),
    ensures
        le_val(le_bytes(v, n)) == v,
    decreases n,
{
    if n == 0 {
        lemma_pow0(256);
    } else {
        lemma_fundamental_div_mod(v, 256);
        lemma_mod_bound(v, 256);
        assert(v / 256 < pow(256, (n - 1) as nat)) by {
            lemma_pow_adds(256, 1, (n - 1) as nat);
            lemma_pow1(256);
            assert(v < 256 * pow(256, (n - 1) as nat));
            lemma_multiply_divide_lt(v, 256, pow(256, (n - 1) as nat));
        }
        lemma_div_pos_is_pos(v, 256);
        lemma_le_roundtrip(v / 256, (n - 1) as nat);
        let bs = le_bytes(v, n);
        assert(bs.skip(1) =~= le_bytes(v / 256, (n - 1) as nat));
        assert(le_val(bs) == (v % 256) + 256 * (v / 256));
        lemma_mul_is_commutative(256, v / 256);
    }
}

/// Appending one element appends its encoding.
pub proof fn lemma_elems_to_bytes_push(s: Seq<int>, x: int)
    ensures
        elems_to_bytes(s.push(x)) == elems_to_bytes(s) + elem_to_bytes(x),
    decreases s.len(),
{
    lemma_le_bytes_len(x, ELEMENT_BYTES as nat);
    if s.len() == 0 {
        assert(s.push(x).skip(1) =~= Seq::<int>::empty());
        assert(s.push(x)[0] == x);
        assert(elems_to_bytes(s.push(x)) == elem_to_bytes(s.push(x)[0]) + elems_to_bytes(
            s.push(x).skip(1),
        ));
        assert(elems_to_bytes(s.push(x)) == elem_to_bytes(x) + elems_to_bytes(
            Seq::<int>::empty(),
        ));
        assert(elems_to_bytes(Seq::<int>::empty()) == Seq::<u8>::empty());
        assert(elems_to_bytes(s) == Seq::<u8>::empty());
        assert(elems_to_bytes(s.push(x)) =~= elems_to_bytes(s) + elem_to_bytes(x));
    } else {
        assert(s.push(x).skip(1) =~= s.skip(1).push(x));
        assert(s.push(x)[0] == s[0]);
        lemma_elems_to_bytes_push(s.skip(1), x);
        lemma_le_bytes_len(s[0], ELEMENT_BYTES as nat);
        assert(elems_to_bytes(s.push(x)) =~= elems_to_bytes(s) + elem_to_bytes(x));
    }
}

/// The encoding of a sequence of elements has length `ELEMENT_BYTES` per
/// element.
pub proof fn lemma_elems_to_bytes_len(s: Seq<int>)
    ensures
        elems_to_bytes(s).len() == s.len() * ELEMENT_BYTES,
    decreases s.len(),
{
    if s.len() == 0 {
        assert(s.len() * ELEMENT_BYTES == 0) by {
            lemma_mul_basics(ELEMENT_BYTES as int);
        }
    } else {
        lemma_elems_to_bytes_len(s.skip(1));
        lemma_le_bytes_len(s[0], ELEMENT_BYTES as nat);
        assert((s.len() - 1) * ELEMENT_BYTES == s.len() * ELEMENT_BYTES - ELEMENT_BYTES) by {
            lemma_mul_is_distributive_sub_other_way(ELEMENT_BYTES as int, s.len() as int, 1);
        }
    }
}

/// The number of byte values an element-width string can hold.
pub proof fn lemma_pow256_width()
    ensures
        pow(256, ELEMENT_BYTES as nat) == 0x1_0000_0000_0000_0000,
{
    lemma_pow1(256);
    assert(pow(256, 2) == 0x1_0000) by {
        lemma_pow_adds(256, 1, 1);
    }
    assert(pow(256, 4) == 0x1_0000_0000) by {
        lemma_pow_adds(256, 2, 2);
    }
    assert(pow(256, 8) == 0x1_0000_0000_0000_0000) by {
        lemma_pow_adds(256, 4, 4);
    }
}

/// Decoding inverts encoding on sequences of reduced values.
pub proof fn lemma_codec_roundtrip(s: Seq<int>)
    requires
        forall|i: int| 0 <= i < s.len() ==> 0 <= #[trigger] s[i] < P as int,
    ensures
        bytes_to_elems(elems_to_bytes(s)) == Some(s),
    decreases s.len(),
{
    let bs = elems_to_bytes(s);
    lemma_elems_to_bytes_len(s);
    lemma_mod_multiples_basic(s.len() as int, ELEMENT_BYTES as int);
    lemma_mul_is_commutative(s.len() as int, ELEMENT_BYTES as int);
    if s.len() == 0 {
        assert(bytes_to_elems(bs) == Some(s));
    } else {
        lemma_le_bytes_len(s[0], ELEMENT_BYTES as nat);
        assert(bs.take(ELEMENT_BYTES as int) =~= elem_to_bytes(s[0]));
        assert(bs.skip(ELEMENT_BYTES as int) =~= elems_to_bytes(s.skip(1)));
        assert(pow(256, ELEMENT_BYTES as nat) > P as int) by {
            lemma_pow256_width();
        }
        lemma_le_roundtrip(s[0], ELEMENT_BYTES as nat);
        lemma_codec_roundtrip(s.skip(1));
        assert(seq![s[0]] + s.skip(1) =~= s);
    }
}

// EXECUTABLE CODEC
// ================================================================================================

/// Packs a vector of field elements into their contiguous little-endian
/// byte encoding.
pub fn elements_as_bytes(elems: &Vec<Felt>) -> (r: Vec<u8>)
    requires
        all_wf(elems@),
    ensures
        r@ == elems_to_bytes(felt_vals(elems@)),
{
    let ghost vals = felt_vals(elems@);
    let mut out: Vec<u8> = Vec::new();
    proof {
        assert(vals.take(0) =~= Seq::<int>::empty());
    }
    let mut j: usize = 0;
    while j < elems.len()
        invariant
            j <= elems@.len(),
            all_wf(elems@),
            vals == felt_vals(elems@),
            out@ == elems_to_bytes(vals.take(j as int)),
        decreases elems@.len() - j,
    {
        let ghost v = elems@[j as int].val();
        let mut w = elems[j].v;
        let mut k: usize = 0;
        while k < ELEMENT_BYTES
            invariant
                k <= ELEMENT_BYTES,
                out@ + le_bytes(w as int, (ELEMENT_BYTES - k) as nat) == elems_to_bytes(
                    vals.take(j as int),
                ) + le_bytes(v, ELEMENT_BYTES as nat),
            decreases ELEMENT_BYTES - k,
        {
            let ghost w0 = w as int;
            let ghost out0 = out@;
            let b = (w % 256) as u8;
            out.push(b);
            w = w / 256;
            proof {
                assert(le_bytes(w0, (ELEMENT_BYTES - k) as nat) == seq![(w0 % 256) as u8]
                    + le_bytes(w0 / 256, (ELEMENT_BYTES - k - 1) as nat));
                assert(out@ + le_bytes(w as int, (ELEMENT_BYTES - k - 1) as nat) =~= out0
                    + le_bytes(w0, (ELEMENT_BYTES - k) as nat));
            }
            k = k + 1;
        }
        proof {
            assert(le_bytes(w as int, 0) =~= Seq::<u8>::empty());
            assert(out@ + Seq::<u8>::empty() =~= out@);
            assert(vals.take(j + 1) =~= vals.take(j as int).push(v));
            lemma_elems_to_bytes_push(vals.take(j as int), v);
        }
        j = j + 1;
    }
    proof {
        assert(vals.take(vals.len() as int) =~= vals);
    }
    out
}

/// Unpacks a contiguous little-endian byte buffer into field elements.
/// Returns `None` when the buffer length is not a whole number of elements
/// or some chunk holds a value at or above the modulus.
pub fn read_elements(bytes: &Vec<u8>) -> (r: Option<Vec<Felt>>)
    ensures
        match r {
            Some(elems) => {
                &&& bytes_to_elems(bytes@) == Some(felt_vals(elems@))
                &&& all_wf(elems@)
            },
            None => bytes_to_elems(bytes@) is None,
        },
{
    if bytes.len() % ELEMENT_BYTES != 0 {
        return None;
    }
    let mut out: Vec<Felt> = Vec::new();
    let mut j: usize = 0;
    proof {
        assert(bytes@.skip(0) =~= bytes@);
        if bytes_to_elems(bytes@) is Some {
            assert(felt_vals(out@) + bytes_to_elems(bytes@)->Some_0 =~= bytes_to_elems(
                bytes@,
            )->Some_0);
        }
    }
    while j < bytes.len()
        invariant
            j <= bytes@.len(),
            j % ELEMENT_BYTES == 0,
            bytes@.len() as int % (ELEMENT_BYTES as int) == 0,
            all_wf(out@),
            bytes_to_elems(bytes@) == match bytes_to_elems(bytes@.skip(j as int)) {
                Some(rest) => Some(felt_vals(out@) + rest),
                None => None::<Seq<int>>,
            },
        decreases bytes@.len() - j,
    {
        let ghost tail = bytes@.skip(j as int);
        proof {
            // A nonempty suffix whose length is a multiple of the element
            // width holds at least one whole element.
            let m = bytes@.len() - j;
            lemma_sub_mod_noop(bytes@.len() as int, j as int, ELEMENT_BYTES as int);
            lemma_mod_multiples_basic(
                (bytes@.len() as int / ELEMENT_BYTES as int), ELEMENT_BYTES as int);
            assert(m % (ELEMENT_BYTES as int) == 0);
            lemma_fundamental_div_mod(m, ELEMENT_BYTES as int);
            let q = m / (ELEMENT_BYTES as int);
            assert(m == ELEMENT_BYTES * q);
            assert(q >= 1) by {
                if q <= 0 {
                    lemma_mul_inequality(q, 0, ELEMENT_BYTES as int);
                    lemma_mul_is_commutative(q, ELEMENT_BYTES as int);
                    lemma_mul_basics(ELEMENT_BYTES as int);
                }
            }
            assert(m >= ELEMENT_BYTES) by {
                lemma_mul_inequality(1, q, ELEMENT_BYTES as int);
                lemma_mul_is_commutative(q, ELEMENT_BYTES as int);
                lemma_mul_basics(ELEMENT_BYTES as int);
            }
        }
        let mut w: u64 = 0;
        let mut k: usize = ELEMENT_BYTES;
        proof {
            assert(tail.subrange(ELEMENT_BYTES as int, ELEMENT_BYTES as int) =~= Seq::<
                u8,
            >::empty());
            lemma_pow0(256);
        }
        while k > 0
            invariant
                k <= ELEMENT_BYTES,
                j + ELEMENT_BYTES <= bytes@.len(),
                bytes@.len() <= usize::MAX,
                tail == bytes@.skip(j as int),
                w as int == le_val(tail.subrange(k as int, ELEMENT_BYTES as int)),
                (w as int) < pow(256, (ELEMENT_BYTES - k) as nat),
            decreases k,
        {
            let ghost wk = w as int;
            let ghost pk = pow(256, (ELEMENT_BYTES - k) as nat);
            proof {
                assert(tail.subrange(k - 1, ELEMENT_BYTES as int).skip(1) =~= tail.subrange(
                    k as int,
                    ELEMENT_BYTES as int,
                ));
                assert(pow(256, (ELEMENT_BYTES - k + 1) as nat) == 256 * pk) by {
                    lemma_pow_adds(256, 1, (ELEMENT_BYTES - k) as nat);
                    lemma_pow1(256);
                }
                assert(wk * 256 <= (pk - 1) * 256) by {
                    lemma_mul_inequality(wk, pk - 1, 256);
                }
                assert((pk - 1) * 256 == 256 * pk - 256) by {
                    lemma_mul_is_commutative(pk - 1, 256);
                    lemma_mul_is_distributive_sub(256, pk, 1);
                }
                assert(pow(256, (ELEMENT_BYTES - k + 1) as nat) <= pow(
                    256,
                    ELEMENT_BYTES as nat,
                )) by {
                    if ELEMENT_BYTES - k + 1 < ELEMENT_BYTES {
                        lemma_pow_strictly_increases(
                            256,
                            (ELEMENT_BYTES - k + 1) as nat,
                            ELEMENT_BYTES as nat,
                        );
                    }
                }
                lemma_pow256_width();
            }
            let b = bytes[j + k - 1];
            w = w * 256 + (b as u64);
            k = k - 1;
        }
        proof {
            assert(tail.subrange(0, ELEMENT_BYTES as int) =~= tail.take(ELEMENT_BYTES as int));
        }
        if w >= P {
            proof {
                assert(bytes_to_elems(tail) is None);
            }
            return None;
        }
        let ghost out0 = out@;
        out.push(Felt { v: w });
        proof {
            let ghost rest_tail = bytes@.skip(j + ELEMENT_BYTES);
            assert(tail.skip(ELEMENT_BYTES as int) =~= rest_tail);
            assert(bytes_to_elems(tail) == match bytes_to_elems(rest_tail) {
                Some(rest) => Some(seq![w as int] + rest),
                None => None::<Seq<int>>,
            });
            if bytes_to_elems(rest_tail) is Some {
                let rest = bytes_to_elems(rest_tail)->Some_0;
                assert(felt_vals(out@) =~= felt_vals(out0).push(w as int));
                assert(felt_vals(out0) + (seq![w as int] + rest) =~= felt_vals(out@) + rest);
            }
        }
        j = j + ELEMENT_BYTES;
    }
    proof {
        assert(bytes@.skip(bytes@.len() as int) =~= Seq::<u8>::empty());
        assert(felt_vals(out@) + Seq::<int>::empty() =~= felt_vals(out@));
    }
    Some(out)
}

} // verus!
