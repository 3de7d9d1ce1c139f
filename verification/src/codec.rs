//! On-wire encoding of a single back-reference token.
//!
//! A match token carries a `(distance, length)` pair in one of three layouts,
//! selected by the magnitude of the length and distinguished on decode by the
//! top nibble of the first byte:
//!   - top nibble >= 2: two bytes, `length - 1` in the top 4 bits, then the
//!     12-bit `distance - 1`;
//!   - top nibble == 0: three bytes, 8-bit `length - 0x11`, then the 12-bit
//!     `distance - 1`;
//!   - top nibble == 1: four bytes, 16-bit `length - 0x111`, then the 12-bit
//!     `distance - 1`.

use vstd::prelude::*;
use vstd::arithmetic::div_mod::lemma_fundamental_div_mod_converse;
use vstd::assert_seqs_equal;

verus! {

/// Ranges of a `(distance, length)` pair that the wire format can carry.
pub open spec fn valid_backref(dist: nat, len: nat) -> bool {
    &&& 1 <= dist <= 0xFFF
    &&& 3 <= len <= 0x10110
}

/// The bytes that encode one back-reference token.
pub open spec fn encode_token(dist: nat, len: nat) -> Seq<u8> {
    let ad = (dist - 1) as nat;
    if len >= 0x111 {
        let al = (len - 0x111) as nat;
        seq![
            (0x10 + al / 4096) as u8,
            ((al / 16) % 256) as u8,
            ((al % 16) * 16 + ad / 256) as u8,
            (ad % 256) as u8,
        ]
    } else if len >= 0x11 {
        let al = (len - 0x11) as nat;
        seq![
            (al / 16) as u8,
            ((al % 16) * 16 + ad / 256) as u8,
            (ad % 256) as u8,
        ]
    } else {
        let al = (len - 1) as nat;
        seq![(al * 16 + ad / 256) as u8, (ad % 256) as u8]
    }
}

/// Reads one token from the front of `buf`: `Some((distance, length, bytes
/// consumed))`, or `None` when `buf` is too short for the layout its first
/// byte announces.
pub open spec fn read_token(buf: Seq<u8>) -> Option<(nat, nat, nat)> {
    if buf.len() < 2 {
        None
    } else {
        let b0 = buf[0] as nat;
        let b1 = buf[1] as nat;
        if b0 / 16 == 0 {
            if buf.len() < 3 {
                None
            } else {
                let len = ((b0 * 256 + b1) / 16 + 0x11) as nat;
                let dist = ((b1 % 16) * 256 + buf[2] + 1) as nat;
                Some((dist, len, 3))
            }
        } else if b0 / 16 == 1 {
            if buf.len() < 4 {
                None
            } else {
                let b2 = buf[2] as nat;
                let b3 = buf[3] as nat;
                let len = (((b0 % 16) * 256 + b1) * 16 + b2 / 16 + 0x111) as nat;
                let dist = ((b2 % 16) * 256 + b3 + 1) as nat;
                Some((dist, len, 4))
            }
        } else {
            let len = (b0 / 16 + 1) as nat;
            let dist = ((b0 % 16) * 256 + b1 + 1) as nat;
            Some((dist, len, 2))
        }
    }
}

/// Any length a decoded token can report is at least 3, so expanding a token
/// always makes the output strictly longer.
pub proof fn lemma_read_token_len(buf: Seq<u8>)
    ensures
        read_token(buf) matches Some(t) ==> 3 <= t.1 && 1 <= t.0 && 2 <= t.2 <= 4 && t.2
            <= buf.len(),
{
    if buf.len() >= 2 {
        let b0 = buf[0] as nat;
        if b0 / 16 == 0 {
        } else if b0 / 16 == 1 {
        } else {
            assert(b0 / 16 >= 2);
        }
    }
}

/// `q * d + r` divided by `d` gives back `q` and `r`.
pub proof fn lemma_comp(d: int, q: int, r: int)
    requires
        d > 0,
        0 <= r < d,
        0 <= q,
    ensures
        (q * d + r) / d == q,
        (q * d + r) % d == r,
{
    lemma_fundamental_div_mod_converse(q * d + r, d, q, r);
}

/// Token round-trip: reading a buffer that starts with the encoding of a
/// valid `(distance, length)` pair yields that pair back and consumes exactly
/// the encoded bytes.
pub proof fn lemma_read_encode(dist: nat, len: nat, buf: Seq<u8>)
    requires
        valid_backref(dist, len),
        encode_token(dist, len).len() <= buf.len(),
        buf.take(encode_token(dist, len).len() as int) == encode_token(dist, len),
    ensures
        read_token(buf) == Some((dist, len, encode_token(dist, len).len())),
{
    let ad = (dist - 1) as int;
    let dq = ad / 256;
    let dr = ad % 256;
    lemma_comp(256, dq, dr);
    assert(0 <= dq < 16 && 0 <= dr < 256) by {
        lemma_fundamental_div_mod_converse(ad, 256, dq, dr);
    }
    assert(ad == dq * 256 + dr);
    if len >= 0x111 {
        let al = (len - 0x111) as int;
        let x = al / 4096;
        let r = al % 4096;
        lemma_comp(4096, x, r);
        assert(al == x * 4096 + r && 0 <= x < 16 && 0 <= r < 4096);
        let y = r / 16;
        let z = r % 16;
        lemma_comp(16, y, z);
        assert(r == y * 16 + z && 0 <= y < 256 && 0 <= z < 16);
        let b0 = (0x10 + x) as u8;
        let b1 = ((al / 16) % 256) as u8;
        let b2 = ((al % 16) * 16 + dq) as u8;
        let b3 = dr as u8;
        assert(buf[0] == b0 && buf[1] == b1 && buf[2] == b2 && buf[3] == b3) by {
            assert(buf.take(4)[0] == buf[0]);
            assert(buf.take(4)[1] == buf[1]);
            assert(buf.take(4)[2] == buf[2]);
            assert(buf.take(4)[3] == buf[3]);
        }
        // al / 16 == x * 256 + y and al % 16 == z
        assert(al == (x * 256 + y) * 16 + z) by (nonlinear_arith)
            requires
                al == x * 4096 + r,
                r == y * 16 + z,
        ;
        lemma_comp(16, x * 256 + y, z);
        assert(al / 16 == x * 256 + y && al % 16 == z);
        lemma_comp(256, x, y);
        assert((al / 16) % 256 == y);
        assert(b0 as nat / 16 == 1 && b0 as nat % 16 == x) by {
            lemma_comp(16, 1, x);
        }
        assert(b2 as nat / 16 == z && b2 as nat % 16 == dq) by {
            lemma_comp(16, z, dq);
        }
        // reconstructed length
        assert(((b0 as nat % 16) * 256 + b1 as nat) * 16 + b2 as nat / 16 ==
            (x * 256 + y) * 16 + z);
        assert((x * 256 + y) * 16 + z == al);
        // reconstructed distance
        assert((b2 as nat % 16) * 256 + b3 as nat == dq * 256 + dr);
        assert(read_token(buf) == Some((dist, len, 4nat)));
    } else if len >= 0x11 {
        let al = (len - 0x11) as int;
        let y = al / 16;
        let z = al % 16;
        lemma_comp(16, y, z);
        assert(al == y * 16 + z && 0 <= y < 16 && 0 <= z < 16);
        let b0 = y as u8;
        let b1 = (z * 16 + dq) as u8;
        let b2 = dr as u8;
        assert(buf[0] == b0 && buf[1] == b1 && buf[2] == b2) by {
            assert(buf.take(3)[0] == buf[0]);
            assert(buf.take(3)[1] == buf[1]);
            assert(buf.take(3)[2] == buf[2]);
        }
        assert(b0 as nat / 16 == 0) by {
            lemma_comp(16, 0, y);
        }
        assert(b1 as nat / 16 == z && b1 as nat % 16 == dq) by {
            lemma_comp(16, z, dq);
        }
        // reconstructed length: (b0 * 256 + b1) / 16 == al
        assert(y * 256 + (z * 16 + dq) == (y * 16 + z) * 16 + dq) by (nonlinear_arith);
        lemma_comp(16, y * 16 + z, dq);
        assert((b0 as nat * 256 + b1 as nat) / 16 == al);
        // reconstructed distance
        assert((b1 as nat % 16) * 256 + b2 as nat == dq * 256 + dr);
        assert(read_token(buf) == Some((dist, len, 3nat)));
    } else {
        let al = (len - 1) as int;
        let b0 = (al * 16 + dq) as u8;
        let b1 = dr as u8;
        assert(buf[0] == b0 && buf[1] == b1) by {
            assert(buf.take(2)[0] == buf[0]);
            assert(buf.take(2)[1] == buf[1]);
        }
        assert(b0 as nat / 16 == al && b0 as nat % 16 == dq) by {
            lemma_comp(16, al, dq);
        }
        assert(al >= 2);
        assert((b0 as nat % 16) * 256 + b1 as nat == dq * 256 + dr);
        assert(read_token(buf) == Some((dist, len, 2nat)));
    }
}

/// One back-reference token: copy `length` bytes from `distance` bytes before
/// the current end of the output.
pub struct LzssCode {
    pub distance: u32,
    pub length: u32,
}

impl LzssCode {
    /// Decodes one token from the front of `buf`; `None` when `buf` is too
    /// short for the layout its first byte announces.
    pub fn read(buf: &[u8]) -> (r: Option<(LzssCode, usize)>)
        ensures
            match r {
                Some((code, adv)) => read_token(buf@) == Some(
                    (code.distance as nat, code.length as nat, adv as nat),
                ),
                None => read_token(buf@) is None,
            },
    {
        if buf.len() < 2 {
            return None;
        }
        let b0 = buf[0] as u32;
        let b1 = buf[1] as u32;
        if b0 / 16 == 0 {
            if buf.len() < 3 {
                return None;
            }
            let length = (b0 * 256 + b1) / 16 + 0x11;
            let distance = (b1 % 16) * 256 + buf[2] as u32 + 1;
            Some((LzssCode { distance, length }, 3))
        } else if b0 / 16 == 1 {
            if buf.len() < 4 {
                return None;
            }
            let b2 = buf[2] as u32;
            let b3 = buf[3] as u32;
            let length = ((b0 % 16) * 256 + b1) * 16 + b2 / 16 + 0x111;
            let distance = (b2 % 16) * 256 + b3 + 1;
            Some((LzssCode { distance, length }, 4))
        } else {
            let length = b0 / 16 + 1;
            let distance = (b0 % 16) * 256 + b1 + 1;
            Some((LzssCode { distance, length }, 2))
        }
    }

    /// Appends this token's on-wire bytes to `out_buf`.
    pub fn write(&self, out_buf: &mut Vec<u8>)
        requires
            valid_backref(self.distance as nat, self.length as nat),
        ensures
            final(out_buf)@ == old(out_buf)@ + encode_token(
                self.distance as nat,
                self.length as nat,
            ),
    {
        let adj_dist = self.distance - 1;
        if self.length >= 0x111 {
            let adj_len = self.length - 0x111;
            out_buf.push((0x10 + adj_len / 4096) as u8);
            out_buf.push(((adj_len / 16) % 256) as u8);
            out_buf.push(((adj_len % 16) * 16 + adj_dist / 256) as u8);
            out_buf.push((adj_dist % 256) as u8);
        } else if self.length >= 0x11 {
            let adj_len = self.length - 0x11;
            out_buf.push((adj_len / 16) as u8);
            out_buf.push(((adj_len % 16) * 16 + adj_dist / 256) as u8);
            out_buf.push((adj_dist % 256) as u8);
        } else {
            let adj_len = self.length - 1;
            out_buf.push((adj_len * 16 + adj_dist / 256) as u8);
            out_buf.push((adj_dist % 256) as u8);
        }
        proof {
            assert_seqs_equal!(
                out_buf@,
                old(out_buf)@ + encode_token(self.distance as nat, self.length as nat)
            );
        }
    }
}

} // verus!
