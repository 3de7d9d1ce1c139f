//! Incremental stream writer: takes literal and back-reference events one at
//! a time, packs their tag bits into group-header bytes (one per eight
//! tokens, flushed into a placeholder slot), and appends the encoded token
//! bytes. The tokens written so far are tracked as a ghost sequence, so that
//! the finished buffer is provably the framed encoding of that sequence.

use vstd::prelude::*;
use vstd::assert_seqs_equal;
use crate::codec::{valid_backref, LzssCode};
use crate::tokens::{
    Token, flag, build_bits, enc_tok, enc_toks, frame, group_byte, p2, stream_prefix, toks_wf,
    toks_expand_len, lemma_build_bits_snoc, lemma_build_bits_bound, lemma_frame_snoc_group,
    lemma_toks_snoc,
};

verus! {

/// The token a `handle_match` call stands for: a literal byte when the
/// distance is zero, a back-reference otherwise.
pub open spec fn event_token(distance: u32, length: u32) -> Token {
    if distance == 0 {
        Token::Lit(length as u8)
    } else {
        Token::Back { dist: distance as nat, len: length as nat }
    }
}

pub proof fn lemma_p2_mono(a: nat, b: nat)
    requires
        a <= b,
    ensures
        p2(a) <= p2(b),
    decreases b,
{
    if a < b {
        lemma_p2_mono(a, (b - 1) as nat);
    }
}

/// Writes an encoded stream from a sequence of match/literal events.
pub struct Lzss11Writer {
    pub result: Vec<u8>,
    pub group_header: u8,
    pub group_header_count: u8,
    pub group_header_offset: usize,
    /// Everything written before the first group: preexisting bytes of the
    /// destination buffer, the magic byte and the size header.
    pub prefix: Ghost<Seq<u8>>,
    /// The tokens handled so far.
    pub tokens: Ghost<Seq<Token>>,
}

impl Lzss11Writer {
    pub open spec fn wf(self) -> bool {
        let toks = self.tokens@;
        let c = self.group_header_count as int;
        &&& 0 <= c <= 8
        &&& c <= toks.len()
        &&& (toks.len() - c) % 8 == 0
        &&& (c == 0 ==> toks.len() == 0)
        &&& toks_wf(0, toks)
        &&& self.group_header as nat == build_bits(toks.skip(toks.len() - c))
        &&& self.group_header_offset as int == self.prefix@.len() + frame(
            toks.take(toks.len() - c),
        ).len()
        &&& self.result@ == self.prefix@ + frame(toks.take(toks.len() - c)) + seq![0u8]
            + enc_toks(toks.skip(toks.len() - c))
    }

    /// Takes over `dest`'s buffer and writes the magic byte, the size header
    /// for `uncompressed_size`, and the first group-header placeholder.
    pub fn new(dest: &mut Vec<u8>, uncompressed_size: u32) -> (w: Self)
        ensures
            w.wf(),
            w.tokens@ == Seq::<Token>::empty(),
            w.prefix@ == old(dest)@ + stream_prefix(uncompressed_size as nat),
            final(dest)@ == Seq::<u8>::empty(),
    {
        let mut buffer: Vec<u8> = Vec::new();
        core::mem::swap(dest, &mut buffer);
        buffer.push(0x11);
        let n = uncompressed_size;
        if 0 < n && n < 0xFFFFFF {
            buffer.push((n % 256) as u8);
            buffer.push(((n / 256) % 256) as u8);
            buffer.push(((n / 65536) % 256) as u8);
        } else {
            buffer.push(0);
            buffer.push(0);
            buffer.push(0);
            buffer.push((n % 256) as u8);
            buffer.push(((n / 256) % 256) as u8);
            buffer.push(((n / 65536) % 256) as u8);
            buffer.push(((n / 16777216) % 256) as u8);
        }
        let ghost prefix = old(dest)@ + stream_prefix(n as nat);
        proof {
            assert_seqs_equal!(buffer@, prefix);
        }
        let group_header_offset = buffer.len();
        buffer.push(0);
        let w = Lzss11Writer {
            result: buffer,
            group_header: 0,
            group_header_count: 0,
            group_header_offset,
            prefix: Ghost(prefix),
            tokens: Ghost(Seq::empty()),
        };
        proof {
            let toks = Seq::<Token>::empty();
            assert(toks.take(0) =~= toks);
            assert(toks.skip(0) =~= toks);
            assert(build_bits(toks) == 0);
            assert(frame(toks) =~= Seq::<u8>::empty());
            assert(enc_toks(toks) =~= Seq::<u8>::empty());
            assert(toks_wf(0, toks));
            assert_seqs_equal!(w.result@, prefix + frame(toks) + seq![0u8] + enc_toks(toks));
        }
        w
    }

    /// Handles one event: `distance == 0` records the literal byte given in
    /// `length`; otherwise records a back-reference. Flushes the pending
    /// group header first when its group is full.
    pub fn handle_match(&mut self, distance: u32, length: u32)
        requires
            old(self).wf(),
            distance == 0 ==> length <= 0xFF,
            distance != 0 ==> valid_backref(distance as nat, length as nat) && distance as nat
                <= toks_expand_len(old(self).tokens@),
        ensures
            final(self).wf(),
            final(self).tokens@ == old(self).tokens@.push(event_token(distance, length)),
            final(self).prefix@ == old(self).prefix@,
    {
        let ghost toks0 = self.tokens@;
        let ghost c0 = self.group_header_count as int;
        let ghost full0 = toks0.len() - c0;
        let ghost cur0 = toks0.skip(full0);
        let ghost tf0 = toks0.take(full0);
        let ghost prefix = self.prefix@;
        let ghost t = event_token(distance, length);
        let ghost toks1 = toks0.push(t);
        proof {
            lemma_build_bits_bound(cur0);
            reveal_with_fuel(p2, 9);
            lemma_toks_snoc(Seq::<u8>::empty(), 0, toks0, t);
            assert(toks_wf(0, toks1));
        }
        if self.group_header_count == 8 {
            // flush the completed group's header byte into its placeholder
            proof {
                assert(build_bits(cur0) < p2(8));
                assert(group_byte(cur0) as nat == build_bits(cur0) * p2(0));
                assert(build_bits(cur0) * 1 == build_bits(cur0)) by (nonlinear_arith);
                assert(self.group_header == group_byte(cur0));
                assert(self.group_header_offset < self.result@.len());
            }
            let off = self.group_header_offset;
            let gh = self.group_header;
            self.result[off] = gh;
            proof {
                assert(tf0 + cur0 =~= toks0);
                assert(tf0.len() % 8 == 0);
                lemma_frame_snoc_group(tf0, cur0);
                assert_seqs_equal!(
                    self.result@,
                    prefix + frame(toks0),
                    i => {
                        if i < off {
                        } else if i == off {
                        } else {
                        }
                    }
                );
            }
            self.group_header_offset = self.result.len();
            self.result.push(0);
            self.group_header = 0;
            self.group_header_count = 0;
            proof {
                assert(self.result@ == prefix + frame(toks0) + seq![0u8]);
                // the new group holds the one token about to be appended
                assert(toks1.take(toks0.len() as int) =~= toks0);
                assert(toks1.skip(toks0.len() as int) =~= Seq::<Token>::empty().push(t));
                lemma_build_bits_snoc(Seq::<Token>::empty(), t);
                lemma_toks_snoc(Seq::<u8>::empty(), 0, Seq::<Token>::empty(), t);
                assert(enc_toks(Seq::<Token>::empty()) =~= Seq::<u8>::empty());
                assert(enc_toks(Seq::<Token>::empty().push(t)) =~= enc_tok(t));
                assert(toks0.len() % 8 == 0);
            }
        } else {
            proof {
                assert(c0 <= 7);
                lemma_p2_mono(c0 as nat, 7);
                assert(build_bits(cur0) < 128);
                assert(toks1.take(full0) =~= tf0);
                assert(toks1.skip(full0) =~= cur0.push(t));
                lemma_build_bits_snoc(cur0, t);
                lemma_toks_snoc(Seq::<u8>::empty(), 0, cur0, t);
            }
        }
        let ghost mid = self.result@;
        let ghost full1 = toks1.len() - (self.group_header_count + 1) as int;
        if distance == 0 {
            self.result.push(length as u8);
            self.group_header = self.group_header * 2;
            self.group_header_count = self.group_header_count + 1;
        } else {
            let code = LzssCode { distance, length };
            code.write(&mut self.result);
            self.group_header = self.group_header * 2 + 1;
            self.group_header_count = self.group_header_count + 1;
        }
        self.tokens = Ghost(toks1);
        proof {
            assert(self.result@ == mid + enc_tok(t));
            assert(flag(t) == if distance == 0 { 0int } else { 1int });
            assert(self.group_header as nat == build_bits(toks1.skip(full1)));
            assert_seqs_equal!(
                self.result@,
                prefix + frame(toks1.take(full1)) + seq![0u8] + enc_toks(toks1.skip(full1))
            );
            assert((toks1.len() - self.group_header_count as int) % 8 == 0);
        }
    }

    /// Left-aligns the tag bits of the final, possibly partial group and
    /// writes them into the pending placeholder byte. The buffer is then
    /// exactly the framed encoding of the handled tokens (the placeholder
    /// stays as a stray trailing zero byte only when there were no tokens at
    /// all, where it is never read).
    #[verifier::rlimit(60)]
    pub fn finish(&mut self)
        requires
            old(self).wf(),
        ensures
            final(self).tokens@ == old(self).tokens@,
            final(self).result@ == old(self).prefix@ + frame(old(self).tokens@) + (
            if old(self).tokens@.len() == 0 {
                seq![0u8]
            } else {
                Seq::<u8>::empty()
            }),
    {
        let ghost toks = self.tokens@;
        let ghost c0 = self.group_header_count as int;
        let ghost full0 = toks.len() - c0;
        let ghost cur = toks.skip(full0);
        let ghost tf = toks.take(full0);
        let ghost prefix = self.prefix@;
        if self.group_header_count != 0 {
            proof {
                lemma_build_bits_bound(cur);
                reveal_with_fuel(p2, 9);
            }
            let mut v: u8 = self.group_header;
            let mut k: u8 = self.group_header_count;
            while k < 8
                invariant
                    c0 == self.group_header_count as int,
                    1 <= c0 <= k <= 8,
                    build_bits(cur) < p2(c0 as nat),
                    v as nat == build_bits(cur) * p2((k - c0) as nat),
                    v < p2(k as nat),
                    p2(8) == 256,
                decreases 8 - k,
            {
                proof {
                    lemma_p2_mono(k as nat, 7);
                    reveal_with_fuel(p2, 9);
                    assert(v < 128);
                    assert(p2((k + 1 - c0) as nat) == 2 * p2((k - c0) as nat));
                    assert(build_bits(cur) * (2 * p2((k - c0) as nat)) == 2 * (build_bits(cur)
                        * p2((k - c0) as nat))) by (nonlinear_arith);
                }
                v = v * 2;
                k = k + 1;
            }
            proof {
                assert(v == group_byte(cur));
                assert(self.group_header_offset < self.result@.len());
            }
            let off = self.group_header_offset;
            self.result[off] = v;
            proof {
                assert(tf + cur =~= toks);
                assert(tf.len() % 8 == 0);
                lemma_frame_snoc_group(tf, cur);
                assert_seqs_equal!(self.result@, prefix + frame(toks));
            }
        } else {
            proof {
                assert(toks.len() == 0);
                assert(frame(toks) =~= Seq::<u8>::empty());
                assert(enc_toks(toks.skip(0)) =~= Seq::<u8>::empty());
                assert_seqs_equal!(self.result@, prefix + frame(toks) + seq![0u8]);
            }
        }
    }

    /// Hands the finished buffer out.
    pub fn into_inner(self) -> (r: Vec<u8>)
        ensures
            r@ == self.result@,
    {
        self.result
    }
}

} // verus!
