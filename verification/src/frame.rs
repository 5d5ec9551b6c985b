//! Length-prefixed framing of the browser channel.
//!
//! A frame is a 4-byte unsigned length followed by that many bytes of
//! payload. The length is little-endian, which is the host byte order of
//! the wire format on the machines this runs on.

use vstd::prelude::*;

verus! {

/// The little-endian bytes of a 32-bit length.
pub open spec fn len_bytes(n: int) -> Seq<u8> {
    seq![
        (n % 256) as u8,
        ((n / 256) % 256) as u8,
        ((n / 65536) % 256) as u8,
        ((n / 16777216) % 256) as u8,
    ]
}

/// The length a 4-byte little-endian prefix announces.
pub open spec fn len_of_bytes(b0: u8, b1: u8, b2: u8, b3: u8) -> int {
    b0 + 256 * b1 + 65536 * b2 + 16777216 * b3
}

/// Decoding an encoded length gives the length back.
pub proof fn lemma_len_round_trip(n: int)
    requires
        0 <= n < 4294967296,
    ensures
        len_of_bytes(
            len_bytes(n)[0],
            len_bytes(n)[1],
            len_bytes(n)[2],
            len_bytes(n)[3],
        ) == n,
{
    let q1 = n / 256;
    let q2 = n / 65536;
    let q3 = n / 16777216;
    assert(q1 / 256 == q2) by (nonlinear_arith)
        requires n >= 0, q1 == n / 256, q2 == n / 65536,
    ;
    assert(q2 / 256 == q3) by (nonlinear_arith)
        requires n >= 0, q2 == n / 65536, q3 == n / 16777216,
    ;
    assert(n == 256 * q1 + n % 256);
    assert(q1 == 256 * (q1 / 256) + q1 % 256);
    assert(q2 == 256 * (q2 / 256) + q2 % 256);
    assert(q3 % 256 == q3);
}

/// The 4-byte length prefix followed by the payload bytes.
pub fn encode_frame(payload: &Vec<u8>) -> (r: Vec<u8>)
    requires
        payload@.len() < 4294967296,
    ensures
        r@ == len_bytes(payload@.len() as int) + payload@,
{
    let n = payload.len();
    let mut r: Vec<u8> = Vec::new();
    r.push((n % 256) as u8);
    r.push(((n / 256) % 256) as u8);
    r.push(((n / 65536) % 256) as u8);
    r.push(((n / 16777216) % 256) as u8);
    proof {
        assert(r@ =~= len_bytes(payload@.len() as int));
        assert(r@ + payload@.take(0) =~= r@);
    }
    let mut i: usize = 0;
    while i < payload.len()
        invariant
            i <= payload@.len(),
            r@ == len_bytes(payload@.len() as int) + payload@.take(i as int),
        decreases payload@.len() - i,
    {
        r.push(payload[i]);
        proof {
            assert((len_bytes(payload@.len() as int) + payload@.take(i as int)).push(
                payload@[i as int],
            ) =~= len_bytes(payload@.len() as int) + payload@.take(i as int + 1));
        }
        i += 1;
    }
    proof {
        assert(payload@.take(payload@.len() as int) =~= payload@);
    }
    r
}

/// The length a received 4-byte prefix announces.
pub fn decode_frame_len(b0: u8, b1: u8, b2: u8, b3: u8) -> (n: u32)
    ensures
        n as int == len_of_bytes(b0, b1, b2, b3),
{
    (b0 as u32) + 256 * (b1 as u32) + 65536 * (b2 as u32) + 16777216 * (b3 as u32)
}

/// A whole frame round-trips: the prefix of an encoded frame announces
/// exactly the payload's length, and the rest is the payload itself.
pub proof fn lemma_frame_round_trip(payload: Seq<u8>)
    requires
        payload.len() < 4294967296,
    ensures
        ({
            let f = len_bytes(payload.len() as int) + payload;
            &&& f.len() == payload.len() + 4
            &&& len_of_bytes(f[0], f[1], f[2], f[3]) == payload.len()
            &&& f.skip(4) == payload
        }),
{
    lemma_len_round_trip(payload.len() as int);
    let f = len_bytes(payload.len() as int) + payload;
    assert(f.skip(4) =~= payload);
}

} // verus!
