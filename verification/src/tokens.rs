//! Model of the token stream: literal and back-reference tokens, their
//! expansion into output bytes, and the group framing (one bitmap byte per
//! run of up to eight tokens). The main theorem says that decoding a framed
//! token stream yields exactly its expansion.

use vstd::prelude::*;
use crate::codec::{valid_backref, encode_token, read_token, lemma_read_encode};
use crate::decomp::{back_copy, lemma_back_copy_len, decode_stream, decompress_spec, shl1, le24, le32, DecompressError};
use vstd::arithmetic::div_mod::lemma_fundamental_div_mod;

verus! {

/// One element of the decoded token stream: a literal byte, or a copy of
/// `len` bytes starting `dist` bytes before the current end of the output.
pub enum Token {
    Lit(u8),
    Back { dist: nat, len: nat },
}

pub open spec fn is_back(t: Token) -> bool {
    t matches Token::Back { .. }
}

/// How many output bytes one token expands to.
pub open spec fn tok_expand_len(t: Token) -> nat {
    match t {
        Token::Lit(_) => 1,
        Token::Back { dist, len } => len,
    }
}

/// A token is well formed once `produced` bytes of output exist before it.
pub open spec fn tok_wf(t: Token, produced: nat) -> bool {
    match t {
        Token::Lit(_) => true,
        Token::Back { dist, len } => valid_backref(dist, len) && dist <= produced,
    }
}

pub open spec fn apply_token(out: Seq<u8>, t: Token) -> Seq<u8> {
    match t {
        Token::Lit(b) => out.push(b),
        Token::Back { dist, len } => back_copy(out, dist, len),
    }
}

/// Expands a token sequence on top of the output produced so far.
pub open spec fn expand_from(out: Seq<u8>, toks: Seq<Token>) -> Seq<u8>
    decreases toks.len(),
{
    if toks.len() == 0 {
        out
    } else {
        expand_from(apply_token(out, toks[0]), toks.skip(1))
    }
}

/// Each token in turn is well formed for the output length at its position.
pub open spec fn toks_wf(produced: nat, toks: Seq<Token>) -> bool
    decreases toks.len(),
{
    toks.len() == 0 || (tok_wf(toks[0], produced) && toks_wf(
        produced + tok_expand_len(toks[0]),
        toks.skip(1),
    ))
}

/// Total number of output bytes a token sequence expands to.
pub open spec fn toks_expand_len(toks: Seq<Token>) -> nat
    decreases toks.len(),
{
    if toks.len() == 0 {
        0
    } else {
        tok_expand_len(toks[0]) + toks_expand_len(toks.skip(1))
    }
}

/// The on-wire bytes of one token (without its tag bit).
pub open spec fn enc_tok(t: Token) -> Seq<u8> {
    match t {
        Token::Lit(b) => seq![b],
        Token::Back { dist, len } => encode_token(dist, len),
    }
}

/// The on-wire bytes of a run of tokens, without group headers.
pub open spec fn enc_toks(g: Seq<Token>) -> Seq<u8>
    decreases g.len(),
{
    if g.len() == 0 {
        Seq::empty()
    } else {
        enc_tok(g[0]) + enc_toks(g.skip(1))
    }
}

pub open spec fn flag(t: Token) -> nat {
    if is_back(t) {
        1
    } else {
        0
    }
}

/// 2 to the `n`th, for the small shifts of the group header.
pub open spec fn p2(n: nat) -> nat
    decreases n,
{
    if n == 0 {
        1nat
    } else {
        2 * p2((n - 1) as nat)
    }
}

/// The tag bits of a group, most significant bit first, right-aligned.
pub open spec fn build_bits(g: Seq<Token>) -> nat
    decreases g.len(),
{
    if g.len() == 0 {
        0
    } else {
        flag(g[0]) * p2((g.len() - 1) as nat) + build_bits(g.skip(1))
    }
}

/// The group-header byte: the tag bits left-aligned in one byte.
pub open spec fn group_byte(g: Seq<Token>) -> u8 {
    (build_bits(g) * p2((8 - g.len()) as nat)) as u8
}

/// The framed token stream: one header byte, then up to eight tokens,
/// repeated.
pub open spec fn frame(toks: Seq<Token>) -> Seq<u8>
    decreases toks.len(),
{
    if toks.len() == 0 {
        Seq::empty()
    } else {
        let k = if toks.len() < 8 {
            toks.len() as int
        } else {
            8
        };
        seq![group_byte(toks.take(k))] + enc_toks(toks.take(k)) + frame(toks.skip(k))
    }
}

/// The header byte still tags the remaining tokens of its group after the
/// consumed bits have been shifted out.
pub open spec fn hdr_matches(hdr: u8, g: Seq<Token>) -> bool
    decreases g.len(),
{
    g.len() == 0 || (((hdr >= 0x80) == is_back(g[0])) && hdr_matches(shl1(hdr), g.skip(1)))
}

/// The header byte after `n` tag bits have been consumed.
pub open spec fn shl_n(hdr: u8, n: nat) -> u8
    decreases n,
{
    if n == 0 {
        hdr
    } else {
        shl_n(shl1(hdr), (n - 1) as nat)
    }
}

pub proof fn lemma_p2_adds(a: nat, b: nat)
    ensures
        p2(a + b) == p2(a) * p2(b),
    decreases a,
{
    if a == 0 {
        assert(p2(a) == 1);
        assert(p2(a + b) == p2(b));
        assert(p2(a) * p2(b) == p2(b)) by (nonlinear_arith)
            requires
                p2(a) == 1,
        ;
    } else {
        lemma_p2_adds((a - 1) as nat, b);
        assert(p2(a + b) == 2 * p2((a + b - 1) as nat));
        assert(p2((a - 1) as nat + b) == p2((a - 1) as nat) * p2(b));
        assert(2 * (p2((a - 1) as nat) * p2(b)) == (2 * p2((a - 1) as nat)) * p2(b))
            by (nonlinear_arith);
        assert(p2(a) == 2 * p2((a - 1) as nat));
        assert((a + b - 1) as nat == (a - 1) as nat + b);
        assert(p2(a + b) == p2(a) * p2(b));
    }
}

pub proof fn lemma_build_bits_bound(g: Seq<Token>)
    ensures
        build_bits(g) < p2(g.len()),
    decreases g.len(),
{
    if g.len() > 0 {
        lemma_build_bits_bound(g.skip(1));
        if is_back(g[0]) {
            assert(build_bits(g) == p2((g.len() - 1) as nat) + build_bits(g.skip(1)));
        } else {
            assert(build_bits(g) == build_bits(g.skip(1)));
        }
    }
}

pub proof fn lemma_build_bits_snoc(g: Seq<Token>, t: Token)
    ensures
        build_bits(g.push(t)) == build_bits(g) * 2 + flag(t),
    decreases g.len(),
{
    if g.len() == 0 {
        assert(g.push(t).skip(1) =~= Seq::<Token>::empty());
        assert(g.push(t)[0] == t);
        assert(build_bits(Seq::<Token>::empty()) == 0);
        assert(p2(0nat) == 1);
        assert(flag(t) * 1 == flag(t)) by (nonlinear_arith);
        assert(build_bits(g.push(t)) == flag(t) * p2(0) + 0);
        assert(build_bits(g) == 0);
    } else {
        assert(g.push(t).skip(1) =~= g.skip(1).push(t));
        lemma_build_bits_snoc(g.skip(1), t);
        let c = (g.len() - 1) as nat;
        assert(build_bits(g.push(t)) == flag(g[0]) * p2(g.len()) + build_bits(g.skip(1).push(t)));
        assert(p2(g.len()) == 2 * p2(c));
        assert(flag(g[0]) * (2 * p2(c)) == 2 * (flag(g[0]) * p2(c))) by (nonlinear_arith);
    }
}

/// A group byte built as `bits * 2^(8 - count) + junk` tags its `count`
/// tokens correctly, whatever the `junk` low bits hold.
pub proof fn lemma_hdr_matches_of_bits(g: Seq<Token>, e: nat)
    requires
        g.len() <= 8,
        e < p2((8 - g.len()) as nat),
    ensures
        hdr_matches(((build_bits(g) * p2((8 - g.len()) as nat) + e) as u8), g),
    decreases g.len(),
{
    if g.len() == 0 {
    } else {
        let c = g.len();
        let f0 = flag(g[0]);
        let rest = build_bits(g.skip(1));
        let sh = p2((8 - c) as nat);
        lemma_build_bits_bound(g.skip(1));
        assert(rest < p2((c - 1) as nat));
        lemma_p2_adds((c - 1) as nat, (8 - c) as nat);
        reveal_with_fuel(p2, 9);
        assert(p2(7) == 128);
        assert(p2((c - 1) as nat) * sh == p2(7nat));
        let low = rest * sh + e;
        assert(rest * sh + sh <= p2((c - 1) as nat) * sh) by (nonlinear_arith)
            requires
                rest + 1 <= p2((c - 1) as nat),
                sh >= 0,
        ;
        assert(low < 128);
        assert(build_bits(g) == f0 * p2((c - 1) as nat) + rest);
        let full = build_bits(g) * sh + e;
        assert(build_bits(g) * sh == f0 * 128 + rest * sh) by (nonlinear_arith)
            requires
                build_bits(g) == f0 * p2((c - 1) as nat) + rest,
                p2((c - 1) as nat) * sh == 128,
                sh >= 0,
        ;
        assert(full == f0 * 128 + low);
        assert(f0 == 0 || f0 == 1);
        if f0 == 1 {
            assert(full == 128 + low);
        } else {
            assert(full == low);
        }
        assert(full < 256);
        let b = full as u8;
        assert((b >= 0x80) == (f0 == 1));
        assert((b >= 0x80) == is_back(g[0]));
        // shifting out the top bit leaves the rest of the group's bits
        assert(shl1(b) as nat == (full * 2) % 256);
        assert(full * 2 == f0 * 256 + low * 2) by (nonlinear_arith)
            requires
                full == f0 * 128 + low,
        ;
        assert((f0 * 256 + low * 2) % 256 == low * 2) by {
            crate::codec::lemma_comp(256, f0 as int, (low * 2) as int);
        }
        assert(shl1(b) as nat == low * 2);
        // low * 2 == rest * p2(8 - (c - 1)) + 2 e, with 2 e below the shift
        assert(p2((8 - (c - 1)) as nat) == 2 * sh);
        assert(low * 2 == rest * (2 * sh) + 2 * e) by (nonlinear_arith)
            requires
                low == rest * sh + e,
        ;
        lemma_hdr_matches_of_bits(g.skip(1), 2 * e);
        assert(hdr_matches(((rest * (2 * sh) + 2 * e) as u8), g.skip(1)));
        assert(hdr_matches(shl1(b), g.skip(1)));
    }
}

pub proof fn lemma_p2_pos(n: nat)
    ensures
        p2(n) >= 1,
    decreases n,
{
    if n > 0 {
        lemma_p2_pos((n - 1) as nat);
    }
}

pub proof fn lemma_apply_token_len(out: Seq<u8>, t: Token)
    requires
        tok_wf(t, out.len()),
    ensures
        apply_token(out, t).len() == out.len() + tok_expand_len(t),
{
    match t {
        Token::Lit(_) => {},
        Token::Back { dist, len } => {
            lemma_back_copy_len(out, dist, len);
        },
    }
}

pub proof fn lemma_expand_from_len(out: Seq<u8>, toks: Seq<Token>)
    requires
        toks_wf(out.len(), toks),
    ensures
        expand_from(out, toks).len() == out.len() + toks_expand_len(toks),
    decreases toks.len(),
{
    if toks.len() > 0 {
        lemma_apply_token_len(out, toks[0]);
        lemma_expand_from_len(apply_token(out, toks[0]), toks.skip(1));
    }
}

/// A nonempty well-formed token run expands to at least one byte per token.
pub proof fn lemma_toks_expand_len_lower(p: nat, toks: Seq<Token>)
    requires
        toks_wf(p, toks),
    ensures
        toks_expand_len(toks) >= toks.len(),
    decreases toks.len(),
{
    if toks.len() > 0 {
        lemma_toks_expand_len_lower(p + tok_expand_len(toks[0]), toks.skip(1));
        match toks[0] {
            Token::Lit(_) => {},
            Token::Back { dist, len } => {},
        }
    }
}

/// Splitting a well-formed run at `k` leaves two well-formed runs, the second
/// starting after the first's expansion.
pub proof fn lemma_wf_split(p: nat, toks: Seq<Token>, k: int)
    requires
        0 <= k <= toks.len(),
        toks_wf(p, toks),
    ensures
        toks_wf(p, toks.take(k)),
        toks_wf(p + toks_expand_len(toks.take(k)), toks.skip(k)),
        toks_expand_len(toks) == toks_expand_len(toks.take(k)) + toks_expand_len(toks.skip(k)),
    decreases toks.len(),
{
    if k == 0 {
        assert(toks.take(0) =~= Seq::<Token>::empty());
        assert(toks.skip(0) =~= toks);
        assert(toks_expand_len(Seq::<Token>::empty()) == 0);
    } else {
        let g = toks.take(k);
        assert(g[0] == toks[0]);
        assert(g.skip(1) =~= toks.skip(1).take(k - 1));
        assert(toks.skip(k) =~= toks.skip(1).skip(k - 1));
        lemma_wf_split(p + tok_expand_len(toks[0]), toks.skip(1), k - 1);
    }
}

/// Expanding a split run in two stages gives the same bytes as expanding it
/// whole.
pub proof fn lemma_expand_split(out: Seq<u8>, toks: Seq<Token>, k: int)
    requires
        0 <= k <= toks.len(),
    ensures
        expand_from(out, toks) == expand_from(expand_from(out, toks.take(k)), toks.skip(k)),
    decreases toks.len(),
{
    if k == 0 {
        assert(toks.take(0) =~= Seq::<Token>::empty());
        assert(toks.skip(0) =~= toks);
    } else {
        let g = toks.take(k);
        assert(g[0] == toks[0]);
        assert(g.skip(1) =~= toks.skip(1).take(k - 1));
        assert(toks.skip(k) =~= toks.skip(1).skip(k - 1));
        lemma_expand_split(apply_token(out, toks[0]), toks.skip(1), k - 1);
    }
}

/// Appending one token to a run: its expansion, length, well-formedness and
/// encoding all extend in the obvious way.
pub proof fn lemma_toks_snoc(out: Seq<u8>, p: nat, toks: Seq<Token>, t: Token)
    ensures
        expand_from(out, toks.push(t)) == apply_token(expand_from(out, toks), t),
        toks_expand_len(toks.push(t)) == toks_expand_len(toks) + tok_expand_len(t),
        toks_wf(p, toks) && tok_wf(t, p + toks_expand_len(toks)) ==> toks_wf(p, toks.push(t)),
        enc_toks(toks.push(t)) == enc_toks(toks) + enc_tok(t),
    decreases toks.len(),
{
    if toks.len() == 0 {
        assert(toks.push(t)[0] == t);
        assert(toks.push(t).skip(1) =~= Seq::<Token>::empty());
        assert(expand_from(apply_token(out, t), Seq::<Token>::empty()) == apply_token(
            expand_from(out, toks),
            t,
        ));
        assert(toks_expand_len(Seq::<Token>::empty()) == 0);
        assert(toks_expand_len(toks) == 0);
        if tok_wf(t, p) {
            assert(toks_wf(p + tok_expand_len(t), Seq::<Token>::empty()));
            assert(toks_wf(p, toks.push(t)));
        }
        assert(enc_toks(Seq::<Token>::empty()) =~= Seq::<u8>::empty());
        assert(enc_toks(toks.push(t)) =~= enc_toks(toks) + enc_tok(t));
    } else {
        assert(toks.push(t)[0] == toks[0]);
        assert(toks.push(t).skip(1) =~= toks.skip(1).push(t));
        lemma_toks_snoc(apply_token(out, toks[0]), p + tok_expand_len(toks[0]), toks.skip(1), t);
        if toks_wf(p, toks) && tok_wf(t, p + toks_expand_len(toks)) {
            assert(toks_wf(p + tok_expand_len(toks[0]), toks.skip(1)));
            assert(tok_wf(t, p + tok_expand_len(toks[0]) + toks_expand_len(toks.skip(1))));
            assert(toks_wf(p + tok_expand_len(toks[0]), toks.skip(1).push(t)));
            assert(toks_wf(p, toks.push(t)));
        }
        assert(enc_toks(toks.push(t)) =~= enc_toks(toks) + enc_tok(t));
    }
}

/// Framing one more (final, possibly partial) group appends its header byte
/// and its token bytes to the frame.
pub proof fn lemma_frame_snoc_group(a: Seq<Token>, g: Seq<Token>)
    requires
        a.len() % 8 == 0,
        1 <= g.len() <= 8,
    ensures
        frame(a + g) == frame(a) + seq![group_byte(g)] + enc_toks(g),
    decreases a.len(),
{
    if a.len() == 0 {
        assert(a + g =~= g);
        let s = a + g;
        let k = if s.len() < 8 {
            s.len() as int
        } else {
            8
        };
        assert(s.take(k) =~= g);
        assert(s.skip(k) =~= Seq::<Token>::empty());
        assert(frame(Seq::<Token>::empty()) =~= Seq::<u8>::empty());
        assert(frame(a) =~= Seq::<u8>::empty());
        assert(frame(a + g) =~= frame(a) + seq![group_byte(g)] + enc_toks(g));
    } else {
        let s = a + g;
        assert(a.len() >= 8);
        assert(s.take(8) =~= a.take(8));
        assert(s.skip(8) =~= a.skip(8) + g);
        assert((a.len() - 8) % 8 == 0) by {
            assert(a.len() % 8 == 0);
        }
        lemma_frame_snoc_group(a.skip(8), g);
        assert(frame(s) == seq![group_byte(s.take(8))] + enc_toks(s.take(8)) + frame(s.skip(8)));
        assert(frame(a) == seq![group_byte(a.take(8))] + enc_toks(a.take(8)) + frame(a.skip(8)));
        assert(frame(a + g) =~= frame(a) + seq![group_byte(g)] + enc_toks(g));
    }
}

/// Decoding one group of tokens from the stream: with the header byte tagging
/// the group correctly and the group's bytes sitting at the cursor, the
/// decoder steps through the whole group and arrives at its expansion.
#[verifier::rlimit(100)]
pub proof fn lemma_decode_group(
    data: Seq<u8>,
    pos: nat,
    out: Seq<u8>,
    out_size: nat,
    g: Seq<Token>,
    hdr: u8,
    rem: nat,
)
    requires
        g.len() <= rem <= 8,
        toks_wf(out.len(), g),
        hdr_matches(hdr, g),
        out.len() + toks_expand_len(g) <= out_size,
        pos + enc_toks(g).len() <= data.len(),
        data.subrange(pos as int, pos as int + enc_toks(g).len() as int) == enc_toks(g),
    ensures
        decode_stream(data, pos, out, out_size, hdr, rem) == decode_stream(
            data,
            pos + enc_toks(g).len(),
            expand_from(out, g),
            out_size,
            shl_n(hdr, g.len()),
            (rem - g.len()) as nat,
        ),
    decreases g.len(),
{
    if g.len() == 0 {
        assert(enc_toks(g).len() == 0);
        assert(expand_from(out, g) == out);
        assert(shl_n(hdr, 0) == hdr);
    } else {
        let t = g[0];
        let e0 = enc_tok(t);
        let g1 = g.skip(1);
        let enc = enc_toks(g);
        assert(enc == e0 + enc_toks(g1));
        assert(e0.len() >= 1);
        lemma_toks_expand_len_lower(out.len(), g);
        assert(out.len() < out_size);
        assert(rem > 0);
        // the bytes of the first token sit at the cursor
        assert(forall|i: int|
            0 <= i < enc.len() ==> data[pos + i] == #[trigger] enc[i]) by {
            assert(forall|i: int|
                0 <= i < enc.len() ==> data.subrange(
                    pos as int,
                    pos as int + enc.len() as int,
                )[i] == #[trigger] enc[i]);
        }
        let out1 = apply_token(out, t);
        let pos1 = pos + e0.len();
        // the tail run's bytes follow the first token's bytes
        assert(data.subrange(pos1 as int, pos1 as int + enc_toks(g1).len() as int) =~= enc_toks(
            g1,
        )) by {
            assert(forall|i: int|
                0 <= i < enc_toks(g1).len() ==> enc[e0.len() + i] == #[trigger] enc_toks(g1)[i]);
        }
        lemma_apply_token_len(out, t);
        match t {
            Token::Lit(b) => {
                assert(hdr < 0x80);
                assert(data[pos as int] == enc[0]);
                assert(enc[0] == b);
                assert(decode_stream(data, pos, out, out_size, hdr, rem) == decode_stream(
                    data,
                    pos + 1,
                    out.push(b),
                    out_size,
                    shl1(hdr),
                    (rem - 1) as nat,
                ));
            },
            Token::Back { dist, len } => {
                assert(hdr >= 0x80);
                assert(e0 == encode_token(dist, len));
                let tail = data.skip(pos as int);
                assert(tail.take(e0.len() as int) =~= e0) by {
                    assert(forall|i: int|
                        0 <= i < e0.len() ==> tail[i] == data[pos + i] && enc[i]
                            == #[trigger] e0[i]);
                }
                lemma_read_encode(dist, len, tail);
                assert(read_token(tail) == Some((dist, len, e0.len())));
                assert(dist <= out.len());
                assert(decode_stream(data, pos, out, out_size, hdr, rem) == decode_stream(
                    data,
                    pos + e0.len(),
                    back_copy(out, dist, len),
                    out_size,
                    shl1(hdr),
                    (rem - 1) as nat,
                ));
            },
        }
        lemma_decode_group(data, pos1, out1, out_size, g1, shl1(hdr), (rem - 1) as nat);
        assert(shl_n(hdr, g.len()) == shl_n(shl1(hdr), g1.len()));
        assert(expand_from(out, g) == expand_from(out1, g1));
        assert(pos + enc.len() == pos1 + enc_toks(g1).len());
    }
}

/// Decoding a framed well-formed token stream whose expansion has exactly the
/// declared size yields that expansion; bytes after the frame are never read.
pub proof fn lemma_decode_frame(
    data: Seq<u8>,
    pos: nat,
    out: Seq<u8>,
    out_size: nat,
    toks: Seq<Token>,
    hdr: u8,
)
    requires
        toks_wf(out.len(), toks),
        out.len() + toks_expand_len(toks) == out_size,
        pos + frame(toks).len() <= data.len(),
        data.subrange(pos as int, pos as int + frame(toks).len() as int) == frame(toks),
    ensures
        decode_stream(data, pos, out, out_size, hdr, 0) == Ok::<Seq<u8>, DecompressError>(
            expand_from(out, toks),
        ),
    decreases toks.len(),
{
    if toks.len() == 0 {
        assert(toks_expand_len(toks) == 0);
        assert(out.len() >= out_size);
    } else {
        let k = if toks.len() < 8 {
            toks.len() as int
        } else {
            8
        };
        let g = toks.take(k);
        let rest = toks.skip(k);
        let fr = frame(toks);
        assert(fr == seq![group_byte(g)] + enc_toks(g) + frame(rest));
        lemma_wf_split(out.len(), toks, k);
        lemma_expand_split(out, toks, k);
        lemma_toks_expand_len_lower(out.len(), g);
        assert(toks_expand_len(g) >= 1);
        assert(out.len() < out_size);
        assert(forall|i: int|
            0 <= i < fr.len() ==> data[pos + i] == #[trigger] fr[i]) by {
            assert(forall|i: int|
                0 <= i < fr.len() ==> data.subrange(pos as int, pos as int + fr.len() as int)[i]
                    == #[trigger] fr[i]);
        }
        assert(data[pos as int] == group_byte(g));
        // reading the header byte
        assert(decode_stream(data, pos, out, out_size, hdr, 0) == decode_stream(
            data,
            pos + 1,
            out,
            out_size,
            group_byte(g),
            8,
        ));
        // the header byte tags the group
        lemma_build_bits_bound(g);
        lemma_p2_pos((8 - g.len()) as nat);
        lemma_hdr_matches_of_bits(g, 0);
        assert(hdr_matches(group_byte(g), g));
        // the group's token bytes follow the header byte
        let pos1 = pos + 1;
        assert(data.subrange(pos1 as int, pos1 as int + enc_toks(g).len() as int) =~= enc_toks(g))
            by {
            assert(forall|i: int|
                0 <= i < enc_toks(g).len() ==> fr[1 + i] == #[trigger] enc_toks(g)[i]);
        }
        lemma_decode_group(data, pos1, out, out_size, g, group_byte(g), 8);
        let out1 = expand_from(out, g);
        let pos2 = pos1 + enc_toks(g).len();
        lemma_expand_from_len(out, g);
        if rest.len() == 0 {
            assert(toks_expand_len(rest) == 0);
            assert(out1.len() == out_size);
            assert(decode_stream(
                data,
                pos2,
                out1,
                out_size,
                shl_n(group_byte(g), g.len()),
                (8 - g.len()) as nat,
            ) == Ok::<Seq<u8>, DecompressError>(out1));
            assert(expand_from(out1, rest) == out1);
        } else {
            assert(k == 8);
            assert(data.subrange(pos2 as int, pos2 as int + frame(rest).len() as int) =~= frame(
                rest,
            )) by {
                assert(forall|i: int|
                    0 <= i < frame(rest).len() ==> fr[1 + enc_toks(g).len() + i]
                        == #[trigger] frame(rest)[i]);
            }
            lemma_decode_frame(data, pos2, out1, out_size, rest, shl_n(group_byte(g), 8));
        }
    }
}

/// The magic byte and the size header that precede the framed tokens: a
/// 24-bit little-endian length, or three zero bytes and a 32-bit length when
/// the 24-bit form cannot carry the value unambiguously.
pub open spec fn size_header(n: nat) -> Seq<u8> {
    if 0 < n < 0xFFFFFF {
        seq![(n % 256) as u8, ((n / 256) % 256) as u8, ((n / 65536) % 256) as u8]
    } else {
        seq![
            0u8,
            0u8,
            0u8,
            (n % 256) as u8,
            ((n / 256) % 256) as u8,
            ((n / 65536) % 256) as u8,
            ((n / 16777216) % 256) as u8,
        ]
    }
}

pub open spec fn stream_prefix(n: nat) -> Seq<u8> {
    seq![0x11u8] + size_header(n)
}

/// The little-endian digits of `n` recompose to `n` (24-bit form).
pub proof fn lemma_le24_digits(n: nat)
    requires
        n < 0x1000000,
    ensures
        le24((n % 256) as u8, ((n / 256) % 256) as u8, ((n / 65536) % 256) as u8) == n,
{
    let c = n / 65536;
    lemma_fundamental_div_mod(n as int, 65536);
    let r = n % 65536;
    assert(n == 65536 * c + r);
    lemma_fundamental_div_mod(r as int, 256);
    let b = r / 256;
    let a = r % 256;
    assert(r == 256 * b + a);
    assert(n == (c * 256 + b) * 256 + a) by (nonlinear_arith)
        requires
            n == 65536 * c + r,
            r == 256 * b + a,
    ;
    crate::codec::lemma_comp(256, c as int * 256 + b, a as int);
    assert(n % 256 == a && n / 256 == c * 256 + b);
    crate::codec::lemma_comp(256, c as int, b as int);
    assert((n / 256) % 256 == b);
    assert(c < 256);
    crate::codec::lemma_comp(256, 0, c as int);
    assert(c % 256 == c);
    assert((n / 65536) % 256 == c);
}

/// The little-endian digits of `n` recompose to `n` (32-bit form).
pub proof fn lemma_le32_digits(n: nat)
    requires
        n <= 0xFFFFFFFF,
    ensures
        le32(
            (n % 256) as u8,
            ((n / 256) % 256) as u8,
            ((n / 65536) % 256) as u8,
            ((n / 16777216) % 256) as u8,
        ) == n,
{
    let d = n / 16777216;
    lemma_fundamental_div_mod(n as int, 16777216);
    let m = n % 16777216;
    assert(n == 16777216 * d + m);
    assert(d < 256);
    let c = m / 65536;
    lemma_fundamental_div_mod(m as int, 65536);
    let r = m % 65536;
    assert(m == 65536 * c + r && c < 256);
    let b = r / 256;
    let a = r % 256;
    lemma_fundamental_div_mod(r as int, 256);
    assert(r == 256 * b + a && b < 256 && a < 256);
    assert(n == (d * 65536 + c * 256 + b) * 256 + a) by (nonlinear_arith)
        requires
            n == 16777216 * d + m,
            m == 65536 * c + r,
            r == 256 * b + a,
    ;
    crate::codec::lemma_comp(256, d as int * 65536 + c as int * 256 + b, a as int);
    assert(n % 256 == a && n / 256 == d * 65536 + c * 256 + b);
    assert(d * 65536 + c * 256 + b == (d * 256 + c) * 256 + b) by (nonlinear_arith);
    crate::codec::lemma_comp(256, d as int * 256 + c, b as int);
    assert((n / 256) % 256 == b && (n / 256) / 256 == d * 256 + c);
    vstd::arithmetic::div_mod::lemma_div_denominator(n as int, 256, 256);
    assert(n / 65536 == d * 256 + c);
    crate::codec::lemma_comp(256, d as int, c as int);
    assert((n / 65536) % 256 == c && (n / 65536) / 256 == d);
    vstd::arithmetic::div_mod::lemma_div_denominator(n as int, 65536, 256);
    assert(n / 16777216 == d);
    crate::codec::lemma_comp(256, 0, d as int);
    assert((n / 16777216) % 256 == d);
    assert(a + b * 256 + c * 65536 + d * 16777216 == n);
}

/// Decompressing a stream that carries the size header for `n` and the frame
/// of a well-formed token run expanding to exactly `n` bytes succeeds with
/// that expansion; trailing bytes are ignored.
pub proof fn lemma_decompress_frame(bytes: Seq<u8>, toks: Seq<Token>, n: nat)
    requires
        n <= 0xFFFFFFFF,
        toks_wf(0, toks),
        toks_expand_len(toks) == n,
        stream_prefix(n).len() + frame(toks).len() <= bytes.len(),
        bytes.take(stream_prefix(n).len() as int + frame(toks).len() as int) == stream_prefix(n)
            + frame(toks),
    ensures
        decompress_spec(bytes) == Ok::<Seq<u8>, DecompressError>(
            expand_from(Seq::empty(), toks),
        ),
{
    let pre = stream_prefix(n);
    let fr = frame(toks);
    let tl = pre.len() as int + fr.len() as int;
    assert(bytes.take(tl)[0] == (pre + fr)[0]);
    assert(bytes[0] == pre[0]);
    assert(pre[0] == 0x11);
    if 0 < n < 0xFFFFFF {
        assert(pre.len() == 4);
        assert(bytes.take(tl)[1] == (pre + fr)[1]);
        assert(bytes.take(tl)[2] == (pre + fr)[2]);
        assert(bytes.take(tl)[3] == (pre + fr)[3]);
        assert(bytes[1] == pre[1] && bytes[2] == pre[2] && bytes[3] == pre[3]);
        assert(pre[1] == (n % 256) as u8);
        assert(pre[2] == ((n / 256) % 256) as u8);
        assert(pre[3] == ((n / 65536) % 256) as u8);
        lemma_le24_digits(n);
        assert(le24(bytes[1], bytes[2], bytes[3]) == n);
        assert(n != 0);
        assert(bytes.subrange(4, 4 + fr.len() as int) =~= fr) by {
            assert forall|i: int| 0 <= i < fr.len() implies bytes.subrange(
                4,
                4 + fr.len() as int,
            )[i] == fr[i] by {
                assert(bytes.take(tl)[4 + i] == (pre + fr)[4 + i]);
                assert((pre + fr)[4 + i] == fr[i]);
            }
        }
        assert(Seq::<u8>::empty().len() + toks_expand_len(toks) == n);
        lemma_decode_frame(bytes, 4, Seq::empty(), n, toks, 0);
    } else {
        assert(pre.len() == 8);
        assert(bytes.take(tl)[1] == (pre + fr)[1]);
        assert(bytes.take(tl)[2] == (pre + fr)[2]);
        assert(bytes.take(tl)[3] == (pre + fr)[3]);
        assert(bytes.take(tl)[4] == (pre + fr)[4]);
        assert(bytes.take(tl)[5] == (pre + fr)[5]);
        assert(bytes.take(tl)[6] == (pre + fr)[6]);
        assert(bytes.take(tl)[7] == (pre + fr)[7]);
        assert(bytes[1] == pre[1] && bytes[2] == pre[2] && bytes[3] == pre[3]);
        assert(bytes[4] == pre[4] && bytes[5] == pre[5] && bytes[6] == pre[6] && bytes[7]
            == pre[7]);
        assert(pre[1] == 0 && pre[2] == 0 && pre[3] == 0);
        assert(le24(bytes[1], bytes[2], bytes[3]) == 0);
        assert(pre[4] == (n % 256) as u8);
        assert(pre[5] == ((n / 256) % 256) as u8);
        assert(pre[6] == ((n / 65536) % 256) as u8);
        assert(pre[7] == ((n / 16777216) % 256) as u8);
        lemma_le32_digits(n);
        assert(le32(bytes[4], bytes[5], bytes[6], bytes[7]) == n);
        assert(bytes.subrange(8, 8 + fr.len() as int) =~= fr) by {
            assert forall|i: int| 0 <= i < fr.len() implies bytes.subrange(
                8,
                8 + fr.len() as int,
            )[i] == fr[i] by {
                assert(bytes.take(tl)[8 + i] == (pre + fr)[8 + i]);
                assert((pre + fr)[8 + i] == fr[i]);
            }
        }
        lemma_decode_frame(bytes, 8, Seq::empty(), n, toks, 0);
    }
}

/// When the `l` bytes at `pos` repeat the `l` bytes `d` positions earlier,
/// the back-copy of the decoder reproduces exactly the input's next `l`
/// bytes, including the self-overlapping case `d < l`.
pub proof fn lemma_back_copy_matches(x: Seq<u8>, pos: nat, d: nat, l: nat)
    requires
        1 <= d <= pos,
        pos + l <= x.len(),
        forall|i: int| 0 <= i < l ==> #[trigger] x[pos + i] == x[pos - d + i],
    ensures
        back_copy(x.take(pos as int), d, l) == x.take(pos as int + l),
    decreases l,
{
    let out = x.take(pos as int);
    if l == 0 {
        assert(back_copy(out, d, 0) == out);
    } else {
        assert(out.len() == pos);
        let z: int = 0;
        assert(x[pos + z] == x[pos - d + z]);
        assert(out[pos - d] == x[pos - d]);
        assert(out.push(out[pos - d]) =~= x.take(pos as int + 1));
        assert forall|j: int| 0 <= j < l - 1 implies #[trigger] x[pos + 1 + j] == x[pos + 1 - d
            + j] by {
            let jj = j + 1;
            assert(x[pos + jj] == x[pos - d + jj]);
            assert(pos + 1 + j == pos + jj);
            assert(pos + 1 - d + j == pos - d + jj);
        }
        lemma_back_copy_matches(x, pos + 1, d, (l - 1) as nat);
        assert(back_copy(out, d, l) == back_copy(x.take(pos as int + 1), d, (l - 1) as nat));
    }
}

/// The size-header escape boundary: lengths below 0xFFFFFF (except zero) use
/// the 3-byte form, whose bytes are then not all zero, so the decoder takes
/// them as the length itself; zero and lengths of 0xFFFFFF or more use three
/// zero bytes followed by the 32-bit form, and the decoder, seeing the zero
/// bytes, reads the length from the escape field.
pub proof fn lemma_size_header_escape(n: nat)
    requires
        n <= 0xFFFFFFFF,
    ensures
        0 < n < 0xFFFFFF ==> size_header(n).len() == 3 && le24(
            size_header(n)[0],
            size_header(n)[1],
            size_header(n)[2],
        ) == n,
        n == 0 || n >= 0xFFFFFF ==> size_header(n).len() == 7 && le24(
            size_header(n)[0],
            size_header(n)[1],
            size_header(n)[2],
        ) == 0 && le32(
            size_header(n)[3],
            size_header(n)[4],
            size_header(n)[5],
            size_header(n)[6],
        ) == n,
{
    if 0 < n < 0xFFFFFF {
        lemma_le24_digits(n);
    } else {
        lemma_le32_digits(n);
    }
}

} // verus!
