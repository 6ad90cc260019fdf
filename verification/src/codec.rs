//! Checked byte boundary for element buffers.
//!
//! The transport moves raw bytes, so every collective converts element
//! vectors to and from little-endian byte streams here, and nowhere else.
//! `encoded_elems`/`decoded_elems` describe the raw stream (eight bytes per
//! element, no header); `framed_elems`/`frame_payload` describe the
//! self-delimiting form the variable-length gather uses (an eight-byte
//! little-endian element count, then the raw stream, then possibly
//! unrelated trailing bytes).

use vstd::arithmetic::div_mod::lemma_fundamental_div_mod_converse;
use vstd::bytes::{
    lemma_auto_spec_u64_to_from_le_bytes, spec_u64_from_le_bytes, spec_u64_to_le_bytes,
    u64_from_le_bytes, u64_to_le_bytes,
};
use vstd::prelude::*;
use vstd::seq_lib::*;
use vstd::slice::slice_subrange;

use crate::field::{all_in_range, vals, FieldElem, FIELD_MODULUS};

verus! {

/// In a buffer of `w`-byte groups, position `t` of group `i` is the flat
/// index `i * w + t`; this recovers the group and the offset from it.
pub proof fn lemma_flat_index(i: int, t: int, w: int)
    requires
        w > 0,
        0 <= t < w,
    ensures
        (i * w + t) / w == i,
        (i * w + t) % w == t,
{
    lemma_fundamental_div_mod_converse(i * w + t, w, i, t);
}

/// The little-endian byte stream of a value sequence, eight bytes a value.
pub open spec fn encoded_elems(v: Seq<int>) -> Seq<u8> {
    Seq::new(v.len() * 8, |i: int| spec_u64_to_le_bytes(v[i / 8] as u64)[i % 8])
}

/// The value sequence read back from a little-endian byte stream.
pub open spec fn decoded_elems(b: Seq<u8>) -> Seq<int> {
    Seq::new(
        (b.len() as int / 8) as nat,
        |i: int| spec_u64_from_le_bytes(b.subrange(8 * i, 8 * i + 8)) as int,
    )
}

/// Each element's eight-byte group of the stream holds exactly its bytes.
pub proof fn lemma_encoded_group(v: Seq<int>, i: int)
    requires
        0 <= i < v.len(),
    ensures
        encoded_elems(v).subrange(8 * i, 8 * i + 8) == spec_u64_to_le_bytes(v[i] as u64),
{
    lemma_auto_spec_u64_to_from_le_bytes();
    let g = encoded_elems(v).subrange(8 * i, 8 * i + 8);
    assert forall|t: int| 0 <= t < 8 implies g[t] == spec_u64_to_le_bytes(v[i] as u64)[t] by {
        lemma_flat_index(i, t, 8);
    }
    assert_seqs_equal!(g == spec_u64_to_le_bytes(v[i] as u64));
}

/// Decoding inverts encoding on reduced values.
pub proof fn lemma_decode_encode(v: Seq<int>)
    requires
        all_in_range(v),
    ensures
        decoded_elems(encoded_elems(v)) == v,
{
    lemma_auto_spec_u64_to_from_le_bytes();
    let d = decoded_elems(encoded_elems(v));
    assert(encoded_elems(v).len() == v.len() * 8);
    assert forall|i: int| 0 <= i < v.len() implies d[i] == v[i] by {
        lemma_flat_index(i, 0, 8);
        lemma_encoded_group(v, i);
        assert(v[i] as u64 as int == v[i]);
    }
    assert(d.len() == v.len()) by {
        lemma_flat_index(v.len() as int, 0, 8);
    }
    assert_seqs_equal!(d == v);
}

/// The raw stream of a vector of elements.
pub fn encode_elems(v: &Vec<FieldElem>) -> (b: Vec<u8>)
    ensures
        b@ == encoded_elems(vals(v@)),
        b@.len() == v@.len() * 8,
        all_in_range(vals(v@)),
{
    let ghost goal = encoded_elems(vals(v@));
    let mut b: Vec<u8> = Vec::new();
    let mut i: usize = 0;
    while i < v.len()
        invariant
            i <= v@.len(),
            goal == encoded_elems(vals(v@)),
            goal.len() == v@.len() * 8,
            b@.len() == i * 8,
            forall|t: int| 0 <= t < i * 8 ==> b@[t] == goal[t],
            forall|k: int| 0 <= k < i ==> 0 <= #[trigger] vals(v@)[k] < FIELD_MODULUS as int,
        decreases v@.len() - i,
    {
        let x = v[i];
        let y = x.as_u64();
        let mut g = u64_to_le_bytes(y);
        proof {
            assert(y as int == vals(v@)[i as int]);
            assert forall|t: int| 0 <= t < 8 implies g@[t] == goal[8 * (i as int) + t] by {
                lemma_flat_index(i as int, t, 8);
                assert(vals(v@)[i as int] as u64 == y);
            }
        }
        b.append(&mut g);
        i = i + 1;
    }
    proof {
        assert_seqs_equal!(b@ == goal);
    }
    b
}

/// The elements read back from a raw stream; the stream must be a whole
/// number of groups, each a reduced residue.
pub fn decode_elems(b: &Vec<u8>) -> (v: Vec<FieldElem>)
    requires
        b@.len() % 8 == 0,
        all_in_range(decoded_elems(b@)),
    ensures
        vals(v@) == decoded_elems(b@),
        v@.len() * 8 == b@.len(),
{
    let ghost goal = decoded_elems(b@);
    let blen = b.len();
    let n = blen / 8;
    proof {
        assert(8 * (n as int) == b@.len());
        assert(goal.len() == n);
    }
    let mut v: Vec<FieldElem> = Vec::new();
    let mut i: usize = 0;
    while i < n
        invariant
            i <= n,
            goal == decoded_elems(b@),
            goal.len() == n,
            all_in_range(goal),
            8 * (n as int) == b@.len(),
            b@.len() <= usize::MAX,
            v@.len() == i,
            forall|k: int| 0 <= k < i ==> vals(v@)[k] == goal[k],
        decreases n - i,
    {
        let x = u64_from_le_bytes(slice_subrange(b.as_slice(), 8 * i, 8 * i + 8));
        proof {
            assert(x as int == goal[i as int]);
            assert(x < FIELD_MODULUS);
            vstd::arithmetic::div_mod::lemma_small_mod(x as nat, FIELD_MODULUS as nat);
        }
        let e = FieldElem::from_u64(x);
        v.push(e);
        proof {
            assert forall|k: int| 0 <= k < i + 1 implies vals(v@)[k] == goal[k] by {
                assert(v@[k].val() == vals(v@)[k]);
            }
        }
        i = i + 1;
    }
    proof {
        assert_seqs_equal!(vals(v@) == goal);
    }
    v
}

/// The self-delimiting form: an eight-byte little-endian count, then the
/// raw stream of the elements.
pub open spec fn framed_elems(v: Seq<int>) -> Seq<u8> {
    spec_u64_to_le_bytes(v.len() as u64) + encoded_elems(v)
}

/// The element count a framed buffer announces.
pub open spec fn frame_count(b: Seq<u8>) -> int {
    spec_u64_from_le_bytes(b.take(8)) as int
}

/// The buffer begins with a well-formed frame: the announced payload is
/// present and all of its values are reduced residues.
pub open spec fn is_valid_frame(b: Seq<u8>) -> bool {
    &&& b.len() >= 8
    &&& 8 + frame_count(b) * 8 <= b.len()
    &&& all_in_range(frame_payload(b))
}

/// The values a framed buffer carries; trailing bytes are ignored.
pub open spec fn frame_payload(b: Seq<u8>) -> Seq<int> {
    decoded_elems(b.subrange(8, 8 + 8 * frame_count(b)))
}

/// A frame followed by arbitrary trailing bytes reads back as exactly the
/// values that were framed.
pub proof fn lemma_frame_roundtrip(v: Seq<int>, rest: Seq<u8>)
    requires
        all_in_range(v),
        v.len() <= u64::MAX,
    ensures
        is_valid_frame(framed_elems(v) + rest),
        frame_payload(framed_elems(v) + rest) == v,
{
    lemma_auto_spec_u64_to_from_le_bytes();
    let b = framed_elems(v) + rest;
    assert_seqs_equal!(b.take(8) == spec_u64_to_le_bytes(v.len() as u64));
    assert(frame_count(b) == v.len());
    assert_seqs_equal!(b.subrange(8, 8 + 8 * frame_count(b)) == encoded_elems(v), t => {
        lemma_flat_index(t / 8, t % 8, 8);
    });
    lemma_decode_encode(v);
}

/// Frames a vector of elements.
pub fn encode_framed(v: &Vec<FieldElem>) -> (b: Vec<u8>)
    ensures
        b@ == framed_elems(vals(v@)),
        b@.len() == 8 + v@.len() * 8,
        all_in_range(vals(v@)),
{
    let mut b = u64_to_le_bytes(v.len() as u64);
    let mut body = encode_elems(v);
    b.append(&mut body);
    proof {
        assert_seqs_equal!(b@ == framed_elems(vals(v@)));
    }
    b
}

/// Reads the values framed at the start of a buffer, ignoring whatever
/// follows them, as a transport segment may run past one rank's payload.
pub fn decode_framed(b: &Vec<u8>) -> (v: Vec<FieldElem>)
    requires
        is_valid_frame(b@),
    ensures
        vals(v@) == frame_payload(b@),
{
    let header = slice_subrange(b.as_slice(), 0, 8);
    proof {
        assert_seqs_equal!(header@ == b@.take(8));
    }
    let count = u64_from_le_bytes(header);
    let blen = b.len();
    proof {
        assert(8 + (count as int) * 8 <= blen as int);
        assert(count as int <= usize::MAX as int);
    }
    let count = count as usize;
    let body = slice_subrange(b.as_slice(), 8, 8 + 8 * count);
    let mut body_vec: Vec<u8> = Vec::new();
    body_vec.extend_from_slice(body);
    proof {
        assert(body_vec@ == b@.subrange(8, 8 + 8 * frame_count(b@)));
        assert(body_vec@.len() == 8 * frame_count(b@));
        assert(body_vec@.len() % 8 == 0) by {
            lemma_flat_index(frame_count(b@), 0, 8);
        }
    }
    decode_elems(&body_vec)
}

} // verus!
