//! Compression: a greedy single-pass scan of the input. At each position the
//! match finder either proposes a back-reference (which provably repeats
//! earlier input) or the byte is emitted as a literal; the writer frames the
//! resulting token stream. The contract is the round-trip itself: the
//! returned stream decompresses to exactly the input.

use vstd::prelude::*;
use vstd::assert_seqs_equal;
use crate::decomp::{decompress_spec, DecompressError};
use crate::searcher::MatchSearcher;
use crate::tokens::{
    Token, expand_from, toks_wf, toks_expand_len, frame, stream_prefix, lemma_toks_snoc,
    lemma_back_copy_matches, lemma_decompress_frame,
};
use crate::writer::{Lzss11Writer, event_token};

verus! {

/// Compresses `data`; the resulting stream always decompresses back to
/// `data` exactly. The input must fit the 32-bit escape size field, the
/// largest length the wire format can declare.
///
/// The stream's structure is part of the contract: it starts with the magic
/// byte and the size header for the input's length, followed by the group
/// framing of some well-formed token run whose expansion is the input (which
/// tokens the greedy matcher picks is deliberately left open). An empty input
/// leaves the one group-header placeholder byte, which a decoder never reads.
pub fn compress(data: &[u8]) -> (r: Vec<u8>)
    requires
        data@.len() <= 0xFFFFFFFF,
    ensures
        decompress_spec(r@) == Ok::<Seq<u8>, DecompressError>(data@),
        r@.take(stream_prefix(data@.len()).len() as int) == stream_prefix(data@.len()),
        exists|toks: Seq<Token>|
            {
                &&& #[trigger] toks_wf(0, toks)
                &&& toks_expand_len(toks) == data@.len()
                &&& expand_from(Seq::empty(), toks) == data@
                &&& r@ == stream_prefix(data@.len()) + frame(toks) + (if toks.len() == 0 {
                    seq![0u8]
                } else {
                    Seq::<u8>::empty()
                })
            },
{
    let mut searcher = MatchSearcher::new();
    let mut out_buf: Vec<u8> = Vec::new();
    let n = data.len();
    let mut writer = Lzss11Writer::new(&mut out_buf, n as u32);
    proof {
        assert(writer.prefix@ =~= stream_prefix(n as nat));
        assert(expand_from(Seq::empty(), writer.tokens@) =~= data@.take(0));
    }
    let mut pos: usize = 0;
    while pos < n
        invariant
            n == data@.len(),
            n <= 0xFFFFFFFF,
            pos <= n,
            writer.wf(),
            writer.prefix@ == stream_prefix(n as nat),
            toks_expand_len(writer.tokens@) == pos,
            expand_from(Seq::empty(), writer.tokens@) == data@.take(pos as int),
            searcher.wf(pos as nat),
        decreases n - pos,
    {
        let lz = searcher.get_lz_code(data, pos as u32);
        if let Some((backref_dist, backref_len)) = lz {
            let ghost t = event_token(backref_dist, backref_len);
            proof {
                lemma_toks_snoc(Seq::<u8>::empty(), 0, writer.tokens@, t);
                assert forall|i: int|
                    0 <= i < backref_len implies #[trigger] data@[pos + i] == data@[pos
                    - backref_dist + i] by {}
                lemma_back_copy_matches(
                    data@,
                    pos as nat,
                    backref_dist as nat,
                    backref_len as nat,
                );
            }
            writer.handle_match(backref_dist, backref_len);
            // register every position the match covers, so later matches can
            // point into the bytes it just consumed
            let end = pos + backref_len as usize;
            let mut p = pos;
            while p < end
                invariant
                    pos <= p <= end,
                    end <= n,
                    n == data@.len(),
                    n <= 0xFFFFFFFF,
                    searcher.wf(p as nat),
                decreases end - p,
            {
                searcher.submit_val(data, p as u32);
                p = p + 1;
            }
            pos = end;
        } else {
            let b = data[pos];
            let ghost t = event_token(0, b as u32);
            proof {
                lemma_toks_snoc(Seq::<u8>::empty(), 0, writer.tokens@, t);
                assert(data@.take(pos as int).push(b) =~= data@.take(pos as int + 1));
            }
            writer.handle_match(0, b as u32);
            searcher.submit_val(data, pos as u32);
            pos = pos + 1;
        }
    }
    let ghost toks = writer.tokens@;
    proof {
        assert(data@.take(n as int) =~= data@);
        assert(toks_wf(0, toks));
    }
    writer.finish();
    let result = writer.into_inner();
    proof {
        let pre = stream_prefix(n as nat);
        let fr = frame(toks);
        assert(result@.take(pre.len() as int + fr.len() as int) =~= pre + fr);
        lemma_decompress_frame(result@, toks, n as nat);
        assert(result@.take(pre.len() as int) =~= pre) by {
            assert forall|i: int| 0 <= i < pre.len() implies result@.take(pre.len() as int)[i]
                == pre[i] by {
                assert(result@.take(pre.len() as int + fr.len() as int)[i] == (pre + fr)[i]);
            }
        }
        assert({
            &&& toks_wf(0, toks)
            &&& toks_expand_len(toks) == data@.len()
            &&& expand_from(Seq::empty(), toks) == data@
            &&& result@ == stream_prefix(data@.len()) + frame(toks) + (if toks.len() == 0 {
                seq![0u8]
            } else {
                Seq::<u8>::empty()
            })
        });
    }
    result
}

} // verus!
