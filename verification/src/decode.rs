//! Decode pipeline: auto-detect the frame parameters from the first frame,
//! then per frame read the header rows for the slice length, median-decode
//! the data rows, Reed-Solomon correct, concatenate, and finally open or
//! pass through the payload.

use vstd::prelude::*;
use vstd::arithmetic::div_mod::{
    lemma_fundamental_div_mod,
    lemma_fundamental_div_mod_converse,
    lemma_div_pos_is_pos,
    lemma_div_is_ordered,
    lemma_mod_bound,
};
use vstd::arithmetic::power2::{pow2, lemma_pow2_pos};
use crate::bits::{stream_bit, byte_bit, bits_val, val_bits, pad_len, lemma_bits_of_bits_val};
use crate::config::{
    FrameConfig,
    HEADER_ROWS,
    PROTOCOL_VERSION,
    FRAME_WIDTH,
    FRAME_HEIGHT,
    spec_bits_per_channel,
};
use crate::crypto::{aes_gcm_seal, argon2id_key, decrypt, AES_GCM_MAX_PLAINTEXT,
    ARGON2_MAX_PASSWORD_CHARS};
use crate::ecc::{
    spec_rs_encode,
    rs_decode,
    num_blocks,
    blocks_close,
    lemma_rs_encode_clean,
};
use crate::encode::{payload_rel, pw_view, frame_slice, frame_header_ok, frame_is_encoded, zero_bytes, header_fits};
use crate::error::VstorageError;
use crate::frame::{
    RgbFrame,
    rows_encoded,
    decode_output_ok,
    decoded_level,
    decode_header_area,
    decode_data_area,
    lemma_frame_codec_round_trip,
    lemma_decoded_level_matches,
};
use crate::header::{
    FrameHeader,
    spec_serialize,
    spec_voted,
    header_parse_ok,
    header_matches,
    decode_header_triple,
    lemma_header_round_trip,
    HEADER_SIZE,
};

verus! {

/// The header area of a frame, decoded under candidate parameters `(b, l)`,
/// votes to a parseable header that names those same parameters.
pub open spec fn triple_vote_ok(out: Seq<u8>, b: u8, l: u8) -> bool {
    &&& out.len() >= 3 * HEADER_SIZE
    &&& header_parse_ok(spec_voted(out))
    &&& spec_voted(out)[13] == b
    &&& spec_voted(out)[14] == l
}

/// Candidate `(b, l)` does not detect on this frame.
pub open spec fn candidate_fails(img: RgbFrame, b: u8, l: u8) -> bool {
    forall|out: Seq<u8>|
        decode_output_ok(
            img,
            b as int,
            l,
            0,
            HEADER_ROWS as int,
            img.spec_width() / b as int,
            out,
        ) ==> !(#[trigger] triple_vote_ok(out, b, l))
}

/// Candidate `(b, l)` is passed over by the detector: its vote fails, or the
/// voted header carries an unusable parity length.
pub open spec fn candidate_rejected(img: RgbFrame, b: u8, l: u8) -> bool {
    forall|out: Seq<u8>|
        decode_output_ok(
            img,
            b as int,
            l,
            0,
            HEADER_ROWS as int,
            img.spec_width() / b as int,
            out,
        ) ==> !(#[trigger] triple_vote_ok(out, b, l) && 1 <= spec_voted(out)[27] <= 170)
}

/// The candidate grid the detector searches.
pub open spec fn is_candidate(b: u8, l: u8) -> bool {
    (b == 1 || b == 2 || b == 4 || b == 8 || b == 16) && (l == 2 || l == 4 || l == 8 || l == 16)
}

/// `(b1, l1)` is searched strictly before `(b2, l2)`.
pub open spec fn earlier_candidate(b1: u8, l1: u8, b2: u8, l2: u8) -> bool {
    b1 < b2 || (b1 == b2 && l1 < l2)
}

/// What a successful detection returns: a header recovered from the first
/// frame's header area under the returned configuration's own parameters.
pub open spec fn detected_ok(img: RgbFrame, h: FrameHeader, c: FrameConfig) -> bool {
    &&& is_candidate(c.block_size, c.levels)
    &&& h.block_size == c.block_size
    &&& h.levels == c.levels
    &&& c.width == FRAME_WIDTH
    &&& c.height == FRAME_HEIGHT
    &&& c.ecc_len == h.ecc_len
    &&& c.wf()
    &&& exists|out: Seq<u8>|
        {
            &&& #[trigger] decode_output_ok(
                img,
                c.block_size as int,
                c.levels,
                0,
                HEADER_ROWS as int,
                img.spec_width() / c.block_size as int,
                out,
            )
            &&& out.len() >= 3 * HEADER_SIZE
            &&& header_parse_ok(spec_voted(out))
            &&& header_matches(h, spec_voted(out))
        }
}

/// The decode of a band is a function of the image and parameters: any two
/// outputs satisfying the decode description are equal.
proof fn lemma_decode_output_unique(
    img: RgbFrame,
    bs: int,
    levels: u8,
    row0: int,
    nrows: int,
    lw: int,
    o1: Seq<u8>,
    o2: Seq<u8>,
)
    requires
        decode_output_ok(img, bs, levels, row0, nrows, lw, o1),
        decode_output_ok(img, bs, levels, row0, nrows, lw, o2),
    ensures
        o1 == o2,
{
    let bpc = spec_bits_per_channel(levels) as int;
    let nbits = 3 * (nrows * lw) * bpc;
    assert(o1.len() == o2.len());
    assert forall|j: int| 0 <= j < o1.len() implies o1[j] == o2[j] by {
        assert forall|t: int| 0 <= t < 8 implies byte_bit(o1[j], t) == byte_bit(o2[j], t) by {
            let i = 8 * j + t;
            lemma_fundamental_div_mod_converse(i, 8, j, t);
            assert(stream_bit(o1, i) == byte_bit(o1[j], t));
            assert(stream_bit(o2, i) == byte_bit(o2[j], t));
            if i < nbits {
                assert(stream_bit(o1, i) == val_bits(
                    decoded_level(img, bs, levels, row0, lw, i / bpc) as int,
                    spec_bits_per_channel(levels) as nat,
                )[i % bpc]);
                assert(stream_bit(o2, i) == val_bits(
                    decoded_level(img, bs, levels, row0, lw, i / bpc) as int,
                    spec_bits_per_channel(levels) as nat,
                )[i % bpc]);
            } else {
                assert(!stream_bit(o1, i) && !stream_bit(o2, i));
            }
        }
        crate::frame::lemma_byte_eq_from_bits(o1[j], o2[j]);
    }
    assert(o1 =~= o2);
}

/// Under a clean encoding, the decoded header area begins with the three
/// header copies and votes back to the header's wire image.
proof fn lemma_clean_header_decode(img: RgbFrame, h: FrameHeader, cfg: FrameConfig, out: Seq<u8>)
    requires
        cfg.wf(),
        header_fits(cfg),
        img.wf(),
        img.spec_width() == FRAME_WIDTH as int,
        img.spec_height() == FRAME_HEIGHT as int,
        h.version == PROTOCOL_VERSION,
        rows_encoded(
            img,
            spec_serialize(h) + spec_serialize(h) + spec_serialize(h),
            cfg,
            0,
            HEADER_ROWS as int,
        ),
        decode_output_ok(
            img,
            cfg.block_size as int,
            cfg.levels,
            0,
            HEADER_ROWS as int,
            cfg.spec_logical_width(),
            out,
        ),
    ensures
        out.len() >= 3 * HEADER_SIZE,
        spec_voted(out) == spec_serialize(h),
        header_parse_ok(spec_voted(out)),
        forall|h2: FrameHeader| header_matches(h2, spec_voted(out)) ==> h2 == h,
{
    let triple = spec_serialize(h) + spec_serialize(h) + spec_serialize(h);
    let bpc = spec_bits_per_channel(cfg.levels) as int;
    let nbits = 3 * (HEADER_ROWS as int * cfg.spec_logical_width()) * bpc;
    cfg.lemma_geometry_bounds();
    lemma_header_round_trip(h);
    assert(triple.len() == 270);
    lemma_frame_codec_round_trip(img, triple, cfg, out, 0, HEADER_ROWS as int);
    assert(8 * out.len() >= nbits);
    assert forall|j: int| 0 <= j < 270 implies out[j] == triple[j] by {
        assert(8 * j + 8 <= nbits);
    }
    let s = spec_serialize(h);
    assert forall|i: int| 0 <= i < 90 implies spec_voted(out)[i] == s[i] by {
        assert(out[i] == triple[i] && out[90 + i] == triple[90 + i] && out[180 + i] == triple[180
            + i]);
        assert(triple[i] == s[i] && triple[90 + i] == s[i] && triple[180 + i] == s[i]);
    }
    assert(spec_voted(out) =~= s);
}

/// Under a clean encoding the frame's own parameters always detect: there is
/// a decode output of the header area whose vote succeeds and names them.
proof fn lemma_clean_candidate_succeeds(img: RgbFrame, h: FrameHeader, cfg: FrameConfig)
    requires
        cfg.wf(),
        header_fits(cfg),
        img.wf(),
        img.spec_width() == FRAME_WIDTH as int,
        img.spec_height() == FRAME_HEIGHT as int,
        h.version == PROTOCOL_VERSION,
        h.block_size == cfg.block_size,
        h.levels == cfg.levels,
        1 <= h.ecc_len <= 170,
        rows_encoded(
            img,
            spec_serialize(h) + spec_serialize(h) + spec_serialize(h),
            cfg,
            0,
            HEADER_ROWS as int,
        ),
    ensures
        !candidate_fails(img, cfg.block_size, cfg.levels),
        !candidate_rejected(img, cfg.block_size, cfg.levels),
{
    let triple = spec_serialize(h) + spec_serialize(h) + spec_serialize(h);
    let levels = cfg.levels;
    let bs = cfg.block_size as int;
    let lw = cfg.spec_logical_width();
    let bpc = spec_bits_per_channel(levels) as int;
    let nslots = 3 * (HEADER_ROWS as int * lw);
    let nbits = nslots * bpc;
    cfg.lemma_geometry_bounds();
    lemma_header_round_trip(h);
    let total = nbits + pad_len(nbits);
    assert(total % 8 == 0 && total >= nbits) by {
        lemma_fundamental_div_mod(nbits, 8);
        lemma_mod_bound(nbits, 8);
        if nbits % 8 != 0 {
            lemma_fundamental_div_mod_converse(total, 8, nbits / 8 + 1, 0);
        }
    }
    let nbytes = total / 8;
    assert(8 * nbytes == total) by {
        lemma_fundamental_div_mod(total, 8);
    }
    assert(nbytes >= 270) by {
        assert(total >= 2160);
        lemma_div_is_ordered(2160, total, 8);
    }
    let out0 = triple + zero_bytes(nbytes - 270);
    assert(out0.len() == nbytes);
    assert forall|i: int| 0 <= i < 8 * out0.len() implies stream_bit(out0, i) == (if i < 2160 {
        stream_bit(triple, i)
    } else {
        false
    }) by {
        crate::bits::lemma_div_mod_8(i, out0.len() as int);
        if i < 2160 {
            assert(out0[i / 8] == triple[i / 8]);
        } else {
            assert(i / 8 >= 270) by {
                lemma_div_is_ordered(2160, i, 8);
            }
            assert(out0[i / 8] == 0u8);
            assert(!byte_bit(0u8, i % 8)) by {
                lemma_pow2_pos((7 - i % 8) as nat);
                lemma_div_pos_is_pos(0, pow2((7 - i % 8) as nat) as int);
            }
        }
    }
    assert(decode_output_ok(img, bs, levels, 0, HEADER_ROWS as int, lw, out0)) by {
        assert(8 * out0.len() == nbits + pad_len(nbits));
        assert forall|i: int| 0 <= i < nbits implies #[trigger] stream_bit(out0, i) == val_bits(
            decoded_level(img, bs, levels, 0, lw, i / bpc) as int,
            spec_bits_per_channel(levels) as nat,
        )[i % bpc] by {
            crate::frame::lemma_div_mod_decompose(i, bpc);
            lemma_mod_bound(i, bpc);
            let slot = i / bpc;
            let off = i % bpc;
            assert(0 <= slot < nslots) by (nonlinear_arith)
                requires
                    slot * bpc <= i && 0 <= i < nslots * bpc && bpc >= 1 && 0 <= slot,
            ;
            lemma_decoded_level_matches(img, triple, cfg, 0, HEADER_ROWS as int, slot);
            lemma_bits_of_bits_val(triple, slot * bpc, spec_bits_per_channel(levels) as nat);
            assert(slot * bpc + off == i) by (nonlinear_arith)
                requires
                    slot == i / bpc && off == i % bpc && bpc >= 1 && (i / bpc) * bpc + i % bpc == i,
            ;
            assert(val_bits(
                bits_val(triple, slot * bpc, spec_bits_per_channel(levels) as nat),
                spec_bits_per_channel(levels) as nat,
            )[off] == stream_bit(triple, slot * bpc + off));
            if i < 2160 {
            } else {
                assert(!stream_bit(triple, i));
            }
        }
        assert forall|i: int| nbits <= i implies !stream_bit(out0, i) by {
            if i < 8 * out0.len() {
                assert(i >= 2160);
            }
        }
    }
    assert(triple_vote_ok(out0, cfg.block_size, cfg.levels) && 1 <= spec_voted(out0)[27] <= 170)
        by {
        let s = spec_serialize(h);
        assert forall|i: int| 0 <= i < 90 implies spec_voted(out0)[i] == s[i] by {
            assert(out0[i] == triple[i] && out0[90 + i] == triple[90 + i] && out0[180 + i]
                == triple[180 + i]);
            assert(triple[i] == s[i] && triple[90 + i] == s[i] && triple[180 + i] == s[i]);
        }
        assert(spec_voted(out0) =~= s);
        assert(header_matches(h, s));
        assert(s[13] == h.block_size && s[14] == h.levels && s[27] == h.ecc_len);
    }
}

/// The candidate block sizes all tile the 3840 by 2160 frame.
proof fn lemma_candidate_divides(b: u8)
    requires
        b == 1 || b == 2 || b == 4 || b == 8 || b == 16,
    ensures
        FRAME_WIDTH as int % b as int == 0,
        FRAME_HEIGHT as int % b as int == 0,
{
    if b == 1 {
        lemma_fundamental_div_mod_converse(3840, 1, 3840, 0);
        lemma_fundamental_div_mod_converse(2160, 1, 2160, 0);
    } else if b == 2 {
        lemma_fundamental_div_mod_converse(3840, 2, 1920, 0);
        lemma_fundamental_div_mod_converse(2160, 2, 1080, 0);
    } else if b == 4 {
        lemma_fundamental_div_mod_converse(3840, 4, 960, 0);
        lemma_fundamental_div_mod_converse(2160, 4, 540, 0);
    } else if b == 8 {
        lemma_fundamental_div_mod_converse(3840, 8, 480, 0);
        lemma_fundamental_div_mod_converse(2160, 8, 270, 0);
    } else {
        lemma_fundamental_div_mod_converse(3840, 16, 240, 0);
        lemma_fundamental_div_mod_converse(2160, 16, 135, 0);
    }
}

/// Try block size and level count candidates in ascending order, decode the
/// header area under each, and accept the first whose voted header names the
/// candidate itself and carries a usable parity length. When none does, fail
/// with a `Header` error. The returned configuration takes its parity length
/// from the recovered header.
pub fn detect_config_from_frame(img: &RgbFrame) -> (r: Result<
    (FrameHeader, FrameConfig),
    VstorageError,
>)
    requires
        img.wf(),
        img.spec_width() == FRAME_WIDTH as int,
        img.spec_height() == FRAME_HEIGHT as int,
    ensures
        r matches Ok(t) ==> detected_ok(*img, t.0, t.1) && forall|b: u8, l: u8|
            is_candidate(b, l) && earlier_candidate(b, l, t.1.block_size, t.1.levels)
                ==> candidate_rejected(*img, b, l),
        r matches Err(e) ==> e is Header && forall|b: u8, l: u8|
            is_candidate(b, l) ==> #[trigger] candidate_rejected(*img, b, l),
{
    let sizes: [u8; 5] = [1, 2, 4, 8, 16];
    let lvls: [u8; 4] = [2, 4, 8, 16];
    let mut bi: usize = 0;
    while bi < 5
        invariant
            bi <= 5,
            img.wf(),
            img.spec_width() == FRAME_WIDTH as int,
            img.spec_height() == FRAME_HEIGHT as int,
            sizes@ =~= seq![1u8, 2u8, 4u8, 8u8, 16u8],
            lvls@ =~= seq![2u8, 4u8, 8u8, 16u8],
            forall|b: u8, l: u8|
                is_candidate(b, l) && bi < 5 && (b as int) < sizes@[bi as int] as int
                    ==> #[trigger] candidate_rejected(*img, b, l),
            forall|b: u8, l: u8|
                is_candidate(b, l) && bi == 5 ==> #[trigger] candidate_rejected(*img, b, l),
        decreases 5 - bi,
    {
        let b = sizes[bi];
        let mut li: usize = 0;
        while li < 4
            invariant
                li <= 4,
                bi < 5,
                b == sizes@[bi as int],
                img.wf(),
                img.spec_width() == FRAME_WIDTH as int,
                img.spec_height() == FRAME_HEIGHT as int,
                sizes@ =~= seq![1u8, 2u8, 4u8, 8u8, 16u8],
                lvls@ =~= seq![2u8, 4u8, 8u8, 16u8],
                forall|b2: u8, l: u8|
                    is_candidate(b2, l) && (b2 as int) < b as int ==> #[trigger] candidate_rejected(
                        *img,
                        b2,
                        l,
                    ),
                forall|l: u8|
                    is_candidate(b, l) && li < 4 && (l as int) < lvls@[li as int] as int
                        ==> #[trigger] candidate_rejected(*img, b, l),
                forall|l: u8|
                    is_candidate(b, l) && li == 4 ==> #[trigger] candidate_rejected(*img, b, l),
            decreases 4 - li,
        {
            let l = lvls[li];
            let header_bytes = decode_header_area(img, b, l);
            let ghost out = header_bytes@;
            let voted = decode_header_triple(&header_bytes);
            let mut accepted = false;
            match voted {
                Ok(hdr) => {
                    if hdr.block_size == b && hdr.levels == l && hdr.ecc_len >= 1 && hdr.ecc_len
                        <= 170 {
                        proof {
                            lemma_candidate_divides(b);
                        }
                        let config = match FrameConfig::new(b, l, hdr.ecc_len, 30, 18) {
                            Ok(c) => c,
                            Err(_) => {
                                proof {
                                    assert(false);
                                }
                                return Err(VstorageError::Header(
                                    "could not detect frame configuration",
                                ));
                            },
                        };
                        proof {
                            assert(detected_ok(*img, hdr, config));
                        }
                        return Ok((hdr, config));
                    }
                    proof {
                        assert(candidate_rejected(*img, b, l)) by {
                            assert forall|o2: Seq<u8>|
                                decode_output_ok(
                                    *img,
                                    b as int,
                                    l,
                                    0,
                                    HEADER_ROWS as int,
                                    img.spec_width() / b as int,
                                    o2,
                                ) implies !(#[trigger] triple_vote_ok(o2, b, l) && 1 <= spec_voted(
                                o2,
                            )[27] <= 170) by {
                                lemma_decode_output_unique(
                                    *img,
                                    b as int,
                                    l,
                                    0,
                                    HEADER_ROWS as int,
                                    img.spec_width() / b as int,
                                    out,
                                    o2,
                                );
                                if triple_vote_ok(o2, b, l) {
                                    assert(hdr.block_size == spec_voted(out)[13]);
                                    assert(hdr.levels == spec_voted(out)[14]);
                                    assert(hdr.ecc_len == spec_voted(out)[27]);
                                }
                            }
                        }
                    }
                },
                Err(_) => {
                    proof {
                        assert(candidate_rejected(*img, b, l)) by {
                            assert forall|o2: Seq<u8>|
                                decode_output_ok(
                                    *img,
                                    b as int,
                                    l,
                                    0,
                                    HEADER_ROWS as int,
                                    img.spec_width() / b as int,
                                    o2,
                                ) implies !(#[trigger] triple_vote_ok(o2, b, l) && 1 <= spec_voted(
                                o2,
                            )[27] <= 170) by {
                                lemma_decode_output_unique(
                                    *img,
                                    b as int,
                                    l,
                                    0,
                                    HEADER_ROWS as int,
                                    img.spec_width() / b as int,
                                    out,
                                    o2,
                                );
                            }
                        }
                    }
                },
            }
            li = li + 1;
        }
        bi = bi + 1;
    }
    Err(VstorageError::Header("could not detect frame configuration"))
}

/// A byte string is entirely zero.
fn all_zero(a: &[u8]) -> (r: bool)
    ensures
        r <==> a@ == zero_bytes(a@.len() as int),
{
    let n = a.len();
    let mut i: usize = 0;
    let mut z = true;
    while i < n
        invariant
            i <= n,
            n == a@.len(),
            z <==> forall|j: int| 0 <= j < i ==> a@[j] == 0u8,
        decreases n - i,
    {
        if a[i] != 0 {
            z = false;
        }
        i = i + 1;
    }
    proof {
        if z {
            assert(a@ =~= zero_bytes(a@.len() as int));
        } else {
            assert(a@ != zero_bytes(a@.len() as int));
        }
    }
    z
}

/// The data rows of frame `i` carry the RS encoding of its payload slice.
pub open spec fn frame_data_encoded(img: RgbFrame, payload: Seq<u8>, i: int, cfg: FrameConfig) -> bool {
    &&& img.wf()
    &&& img.spec_width() == FRAME_WIDTH as int
    &&& img.spec_height() == FRAME_HEIGHT as int
    &&& rows_encoded(
        img,
        spec_rs_encode(
            frame_slice(payload, cfg.spec_max_raw_per_frame(), i),
            cfg.ecc_len as int,
            cfg.spec_rs_data_len(),
        ),
        cfg,
        HEADER_ROWS as int,
        cfg.spec_logical_height(),
    )
}

/// No decode of this frame's header area under the frame's own parameters
/// parses: the triple vote fails.
pub open spec fn header_unreadable(img: RgbFrame, cfg: FrameConfig) -> bool {
    forall|out: Seq<u8>|
        #[trigger] decode_output_ok(
            img,
            cfg.block_size as int,
            cfg.levels,
            0,
            HEADER_ROWS as int,
            img.spec_width() / cfg.block_size as int,
            out,
        ) ==> !(out.len() >= 3 * HEADER_SIZE && header_parse_ok(spec_voted(out)))
}

/// Frame `i` can still be decoded: it is fully encoded, or its header rows
/// are beyond recovery while its data rows are intact and its slice fills
/// the frame's capacity, so the decoder's documented fallback to `max_raw`
/// reads it correctly.
pub open spec fn frame_recoverable(
    img: RgbFrame,
    payload: Seq<u8>,
    i: int,
    nframes: int,
    fsize: int,
    nonce: Seq<u8>,
    salt: Seq<u8>,
    cfg: FrameConfig,
) -> bool {
    ||| frame_is_encoded(img, payload, i, nframes, fsize, nonce, salt, cfg)
    ||| {
        &&& frame_data_encoded(img, payload, i, cfg)
        &&& header_unreadable(img, cfg)
        &&& frame_slice(payload, cfg.spec_max_raw_per_frame(), i).len()
            == cfg.spec_max_raw_per_frame()
    }
}

/// The part of every decode premise that concerns the first frame: a usable
/// configuration, the first frame fully encoded under it, and nothing
/// earlier in the detector's search order voting a header on that frame.
#[verifier::opaque]
pub open spec fn first_frame_carries(
    frames: Seq<RgbFrame>,
    orig: Seq<u8>,
    nonce: Seq<u8>,
    salt: Seq<u8>,
    payload: Seq<u8>,
    cfg: FrameConfig,
) -> bool {
    &&& cfg.wf()
    &&& is_candidate(cfg.block_size, cfg.levels)
    &&& header_fits(cfg)
    &&& cfg.spec_max_raw_per_frame() > 0
    &&& payload.len() > 0
    &&& num_blocks(payload.len() as int, cfg.spec_max_raw_per_frame()) <= u32::MAX
    &&& frames.len() >= 1
    &&& frame_is_encoded(
        frames[0],
        payload,
        0,
        num_blocks(payload.len() as int, cfg.spec_max_raw_per_frame()),
        orig.len() as int,
        nonce,
        salt,
        cfg,
    )
    &&& forall|b: u8, l: u8|
        is_candidate(b, l) && earlier_candidate(b, l, cfg.block_size, cfg.levels)
            ==> #[trigger] candidate_fails(frames[0], b, l)
}

/// A clean decode scenario: the frame sequence begins with an encoding of
/// `orig` under `cfg` whose per-frame headers record `num_blocks` frames
/// (the muxer may append extra images beyond them), every recorded frame is
/// at least recoverable, the encoder's parameters are first among the
/// detector's candidates to detect, and an encrypted payload does not
/// collide with the all-zero sentinel or exceed the cipher's limits.
#[verifier::opaque]
pub open spec fn clean_frames(
    frames: Seq<RgbFrame>,
    orig: Seq<u8>,
    pw: Option<Seq<char>>,
    nonce: Seq<u8>,
    salt: Seq<u8>,
    payload: Seq<u8>,
    cfg: FrameConfig,
) -> bool {
    let nb = num_blocks(payload.len() as int, cfg.spec_max_raw_per_frame());
    &&& first_frame_carries(frames, orig, nonce, salt, payload, cfg)
    &&& payload_rel(orig, pw, nonce, salt, payload)
    &&& (pw is Some ==> !(nonce == zero_bytes(12) && salt == zero_bytes(16)))
    &&& (pw matches Some(pc) ==> pc.len() <= ARGON2_MAX_PASSWORD_CHARS)
    &&& orig.len() <= AES_GCM_MAX_PLAINTEXT
    &&& frames.len() >= nb
    &&& forall|i: int|
        1 <= i < nb ==> frame_recoverable(
            #[trigger] frames[i],
            payload,
            i,
            nb,
            orig.len() as int,
            nonce,
            salt,
            cfg,
        )
}

/// A truncated sequence: the demuxer delivered fewer frames than the first
/// frame's header records.
#[verifier::opaque]
pub open spec fn truncated_frames(
    frames: Seq<RgbFrame>,
    orig: Seq<u8>,
    nonce: Seq<u8>,
    salt: Seq<u8>,
    payload: Seq<u8>,
    cfg: FrameConfig,
) -> bool {
    &&& first_frame_carries(frames, orig, nonce, salt, payload, cfg)
    &&& frames.len() < num_blocks(payload.len() as int, cfg.spec_max_raw_per_frame())
}

/// What a clean frame's decoded header area contains: it votes to the
/// frame's header, and only a header with the frame's recorded fields
/// matches the vote.
proof fn lemma_clean_frame_header(
    img: RgbFrame,
    payload: Seq<u8>,
    i: int,
    nframes: int,
    fsize: int,
    nonce: Seq<u8>,
    salt: Seq<u8>,
    cfg: FrameConfig,
    header_out: Seq<u8>,
)
    requires
        cfg.wf(),
        header_fits(cfg),
        frame_is_encoded(img, payload, i, nframes, fsize, nonce, salt, cfg),
        decode_output_ok(
            img,
            cfg.block_size as int,
            cfg.levels,
            0,
            HEADER_ROWS as int,
            cfg.spec_logical_width(),
            header_out,
        ),
    ensures
        header_out.len() >= 3 * HEADER_SIZE,
        header_parse_ok(spec_voted(header_out)),
        forall|h2: FrameHeader|
            header_matches(h2, spec_voted(header_out)) ==> frame_header_ok(
                h2,
                payload,
                i,
                nframes,
                fsize,
                nonce,
                salt,
                cfg,
            ),
{
    let h = choose|h: FrameHeader|
        {
            &&& #[trigger] frame_header_ok(h, payload, i, nframes, fsize, nonce, salt, cfg)
            &&& img.wf()
            &&& img.spec_width() == FRAME_WIDTH as int
            &&& img.spec_height() == FRAME_HEIGHT as int
            &&& rows_encoded(
                img,
                spec_serialize(h) + spec_serialize(h) + spec_serialize(h),
                cfg,
                0,
                HEADER_ROWS as int,
            )
            &&& rows_encoded(
                img,
                spec_rs_encode(
                    frame_slice(payload, cfg.spec_max_raw_per_frame(), i),
                    cfg.ecc_len as int,
                    cfg.spec_rs_data_len(),
                ),
                cfg,
                HEADER_ROWS as int,
                cfg.spec_logical_height(),
            )
        };
    lemma_clean_header_decode(img, h, cfg, header_out);
    assert forall|h2: FrameHeader|
        header_matches(h2, spec_voted(header_out)) implies frame_header_ok(
        h2,
        payload,
        i,
        nframes,
        fsize,
        nonce,
        salt,
        cfg,
    ) by {
        assert(h2 == h);
    }
}

/// What a recoverable frame's decoded data area contains: blockwise exactly
/// the RS encoding of the frame's payload slice.
#[verifier::rlimit(60)]
proof fn lemma_clean_frame_data(
    img: RgbFrame,
    payload: Seq<u8>,
    i: int,
    cfg: FrameConfig,
    data_out: Seq<u8>,
)
    requires
        cfg.wf(),
        cfg.spec_max_raw_per_frame() >= 1,
        0 <= i < num_blocks(payload.len() as int, cfg.spec_max_raw_per_frame()),
        frame_data_encoded(img, payload, i, cfg),
        decode_output_ok(
            img,
            cfg.block_size as int,
            cfg.levels,
            HEADER_ROWS as int,
            cfg.spec_logical_height() - HEADER_ROWS as int,
            cfg.spec_logical_width(),
            data_out,
        ),
    ensures
        blocks_close(
            data_out,
            frame_slice(payload, cfg.spec_max_raw_per_frame(), i),
            cfg.ecc_len as int,
            cfg.spec_rs_data_len(),
        ),
        data_out.len() >= 255 * num_blocks(
            frame_slice(payload, cfg.spec_max_raw_per_frame(), i).len() as int,
            cfg.spec_rs_data_len(),
        ),
{
    let e = cfg.ecc_len as int;
    let k = cfg.spec_rs_data_len();
    let sl = frame_slice(payload, cfg.spec_max_raw_per_frame(), i);
    let enc = spec_rs_encode(sl, e, k);
    let lh = cfg.spec_logical_height();
    let lw = cfg.spec_logical_width();
    let bpc = spec_bits_per_channel(cfg.levels) as int;
    let nbits = 3 * ((lh - HEADER_ROWS as int) * lw) * bpc;
    cfg.lemma_geometry_bounds();
    lemma_rs_encode_clean(sl, e, k);
    let nb = num_blocks(sl.len() as int, k);
    assert(enc.len() == 255 * nb);
    let mr = cfg.spec_max_raw_per_frame();
    assert(sl.len() <= mr) by {
        crate::ecc::lemma_block_start_in_range(payload.len() as int, mr, i);
        assert(mr * (i + 1) == mr * i + mr) by (nonlinear_arith);
    }
    assert(8 * enc.len() <= nbits) by {
        let dap = cfg.spec_data_area_pixels();
        let dab = cfg.spec_data_area_bytes();
        assert(nb <= dab / 255) by {
            assert(sl.len() <= cfg.spec_max_raw_per_frame());
            assert(sl.len() + k - 1 <= (dab / 255) * k + k - 1) by (nonlinear_arith)
                requires
                    sl.len() <= (dab / 255) * k,
            ;
            lemma_div_is_ordered(sl.len() as int + k - 1, (dab / 255) * k + k - 1, k);
            assert(((dab / 255) * k + k - 1) / k == dab / 255) by {
                lemma_fundamental_div_mod_converse((dab / 255) * k + k - 1, k, dab / 255, k - 1);
            }
        }
        assert(255 * nb <= 255 * (dab / 255)) by (nonlinear_arith)
            requires
                nb <= dab / 255,
        ;
        assert(255 * (dab / 255) <= dab) by {
            lemma_fundamental_div_mod(dab, 255);
            lemma_mod_bound(dab, 255);
        }
        assert(8 * dab <= dap * (3 * bpc)) by {
            lemma_fundamental_div_mod(dap * (3 * bpc), 8);
            lemma_mod_bound(dap * (3 * bpc), 8);
        }
        assert(dap * (3 * bpc) == nbits) by (nonlinear_arith)
            requires
                dap == lw * (lh - HEADER_ROWS as int) && nbits == 3 * ((lh - HEADER_ROWS as int)
                    * lw) * bpc,
        ;
    }
    assert(8 * data_out.len() >= nbits);
    lemma_frame_codec_round_trip(img, enc, cfg, data_out, HEADER_ROWS as int, lh);
    assert forall|j: int| 0 <= j < enc.len() implies data_out[j] == enc[j] by {
        assert(8 * j + 8 <= 8 * enc.len());
    }
    assert forall|bi: int| 0 <= bi < nb implies crate::ecc::diff_count(
        #[trigger] data_out.subrange(255 * bi, 255 * bi + 255),
        crate::ecc::rs_block(crate::ecc::payload_chunk(sl, k, bi), e),
    ) <= e / 2 by {
        assert(0 <= 255 * bi && 255 * (bi + 1) <= 255 * nb && 255 * (bi + 1) == 255 * bi + 255)
            by (nonlinear_arith)
            requires
                0 <= bi && bi + 1 <= nb,
        ;
        assert(data_out.subrange(255 * bi, 255 * bi + 255) =~= enc.subrange(
            255 * bi,
            255 * bi + 255,
        ));
        assert(crate::ecc::diff_count(
            enc.subrange(255 * bi, 255 * bi + 255),
            crate::ecc::rs_block(crate::ecc::payload_chunk(sl, k, bi), e),
        ) <= e / 2);
    }
}

/// The detector, run on the first frame of a clean encoding, returns exactly
/// the encoder's parameters and first header.
proof fn lemma_detect_identifies(
    frames: Seq<RgbFrame>,
    det_h: FrameHeader,
    det_c: FrameConfig,
    orig: Seq<u8>,
    nonce: Seq<u8>,
    salt: Seq<u8>,
    payload: Seq<u8>,
    cfg: FrameConfig,
)
    requires
        first_frame_carries(frames, orig, nonce, salt, payload, cfg),
        detected_ok(frames[0], det_h, det_c),
        forall|b: u8, l: u8|
            is_candidate(b, l) && earlier_candidate(b, l, det_c.block_size, det_c.levels)
                ==> candidate_rejected(frames[0], b, l),
    ensures
        det_c.block_size == cfg.block_size,
        det_c.levels == cfg.levels,
        det_c.ecc_len == cfg.ecc_len,
        frame_header_ok(
            det_h,
            payload,
            0,
            num_blocks(payload.len() as int, cfg.spec_max_raw_per_frame()),
            orig.len() as int,
            nonce,
            salt,
            cfg,
        ),
{
    reveal(first_frame_carries);
    lemma_premise_detects(frames, orig, nonce, salt, payload, cfg);
    let h0 = lemma_premise_header(frames, orig, nonce, salt, payload, cfg);
    if earlier_candidate(det_c.block_size, det_c.levels, cfg.block_size, cfg.levels) {
        assert(candidate_fails(frames[0], det_c.block_size, det_c.levels));
        let out = choose|out: Seq<u8>|
            {
                &&& #[trigger] decode_output_ok(
                    frames[0],
                    det_c.block_size as int,
                    det_c.levels,
                    0,
                    HEADER_ROWS as int,
                    frames[0].spec_width() / det_c.block_size as int,
                    out,
                )
                &&& out.len() >= 3 * HEADER_SIZE
                &&& header_parse_ok(spec_voted(out))
                &&& header_matches(det_h, spec_voted(out))
            };
        assert(triple_vote_ok(out, det_c.block_size, det_c.levels));
        assert(false);
    } else if earlier_candidate(cfg.block_size, cfg.levels, det_c.block_size, det_c.levels) {
        assert(candidate_rejected(frames[0], cfg.block_size, cfg.levels));
        assert(false);
    }
    assert(det_c.block_size == cfg.block_size && det_c.levels == cfg.levels);
    let out = choose|out: Seq<u8>|
        {
            &&& #[trigger] decode_output_ok(
                frames[0],
                det_c.block_size as int,
                det_c.levels,
                0,
                HEADER_ROWS as int,
                frames[0].spec_width() / det_c.block_size as int,
                out,
            )
            &&& out.len() >= 3 * HEADER_SIZE
            &&& header_parse_ok(spec_voted(out))
            &&& header_matches(det_h, spec_voted(out))
        };
    assert(frames[0].spec_width() / det_c.block_size as int == cfg.spec_logical_width());
    lemma_clean_header_decode(frames[0], h0, cfg, out);
    assert(det_h == h0);
}

/// Everything one loop iteration of the decoder learns about frame `i`
/// under a clean premise: the frame's data rows are intact, the slice
/// length the decoder settled on (voted header or full-capacity fallback)
/// is the true slice length, and the decoded data area is blockwise the
/// slice's RS encoding.
proof fn lemma_frame_step(
    fs: Seq<RgbFrame>,
    det_h: FrameHeader,
    det_c: FrameConfig,
    total: int,
    i: int,
    hout: Seq<u8>,
    triple: Result<FrameHeader, VstorageError>,
    data_len: int,
    dout: Seq<u8>,
    orig: Seq<u8>,
    pwe: Option<Seq<char>>,
    nonce: Seq<u8>,
    salt: Seq<u8>,
    payload: Seq<u8>,
    cfg: FrameConfig,
)
    requires
        clean_frames(fs, orig, pwe, nonce, salt, payload, cfg),
        detected_ok(fs[0], det_h, det_c),
        forall|b: u8, l: u8|
            is_candidate(b, l) && earlier_candidate(b, l, det_c.block_size, det_c.levels)
                ==> candidate_rejected(fs[0], b, l),
        total == det_h.total_frames,
        0 <= i < total,
        i < fs.len(),
        fs[i].wf(),
        fs[i].spec_width() == FRAME_WIDTH as int,
        fs[i].spec_height() == FRAME_HEIGHT as int,
        decode_output_ok(
            fs[i],
            det_c.block_size as int,
            det_c.levels,
            0,
            HEADER_ROWS as int,
            fs[i].spec_width() / det_c.block_size as int,
            hout,
        ),
        triple is Ok <==> hout.len() >= 3 * HEADER_SIZE && header_parse_ok(spec_voted(hout)),
        triple matches Ok(fh) ==> header_matches(fh, spec_voted(hout)),
        data_len == if triple is Ok {
            triple->Ok_0.data_length as int
        } else {
            det_c.spec_max_raw_per_frame()
        },
        decode_output_ok(
            fs[i],
            det_c.block_size as int,
            det_c.levels,
            HEADER_ROWS as int,
            det_c.spec_logical_height() - HEADER_ROWS as int,
            det_c.spec_logical_width(),
            dout,
        ),
    ensures
        det_c.block_size == cfg.block_size,
        det_c.levels == cfg.levels,
        det_c.ecc_len == cfg.ecc_len,
        det_c.spec_max_raw_per_frame() == cfg.spec_max_raw_per_frame(),
        total == num_blocks(payload.len() as int, cfg.spec_max_raw_per_frame()),
        data_len == frame_slice(payload, cfg.spec_max_raw_per_frame(), i).len(),
        data_len <= cfg.spec_max_raw_per_frame(),
        0 <= cfg.spec_max_raw_per_frame() * i < payload.len(),
        data_len <= dout.len(),
        data_len <= 24883200,
        blocks_close(
            dout,
            frame_slice(payload, cfg.spec_max_raw_per_frame(), i),
            cfg.ecc_len as int,
            cfg.spec_rs_data_len(),
        ),
        dout.len() >= 255 * num_blocks(data_len, cfg.spec_rs_data_len()),
{
    reveal(clean_frames);
    reveal(first_frame_carries);
    let nb = num_blocks(payload.len() as int, cfg.spec_max_raw_per_frame());
    let mr = cfg.spec_max_raw_per_frame();
    lemma_detect_identifies(fs, det_h, det_c, orig, nonce, salt, payload, cfg);
    assert(total == nb);
    let encoded = i == 0 || frame_is_encoded(
        fs[i],
        payload,
        i,
        nb,
        orig.len() as int,
        nonce,
        salt,
        cfg,
    );
    if encoded {
        lemma_clean_frame_header(
            fs[i],
            payload,
            i,
            nb,
            orig.len() as int,
            nonce,
            salt,
            cfg,
            hout,
        );
        assert(triple is Ok);
        assert(header_matches(triple->Ok_0, spec_voted(hout)));
        assert(frame_header_ok(triple->Ok_0, payload, i, nb, orig.len() as int, nonce, salt, cfg));
        lemma_frame_encoded_parts(fs[i], payload, i, nb, orig.len() as int, nonce, salt, cfg);
    } else {
        assert(frame_recoverable(fs[i], payload, i, nb, orig.len() as int, nonce, salt, cfg));
        assert(header_unreadable(fs[i], cfg));
        assert(fs[i].spec_width() / cfg.block_size as int == cfg.spec_logical_width()) by {
            cfg.lemma_geometry_bounds();
        }
        assert(triple is Err) by {
            if triple is Ok {
                assert(hout.len() >= 3 * HEADER_SIZE && header_parse_ok(spec_voted(hout)));
            }
        }
        assert(frame_slice(payload, mr, i).len() == mr);
    }
    crate::ecc::lemma_block_start_in_range(payload.len() as int, mr, i);
    assert(mr * (i + 1) == mr * i + mr) by (nonlinear_arith);
    assert(data_len == frame_slice(payload, mr, i).len());
    lemma_slice_fits_data_area(fs[i], payload, cfg, i, dout);
    assert(data_len <= 24883200) by {
        cfg.lemma_geometry_bounds();
    }
    lemma_clean_frame_data(fs[i], payload, i, cfg, dout);
}

/// The decoder may index frame `i`: under a clean premise it is a 4K frame.
proof fn lemma_frame_dims(
    fs: Seq<RgbFrame>,
    det_h: FrameHeader,
    det_c: FrameConfig,
    total: int,
    i: int,
    orig: Seq<u8>,
    pwe: Option<Seq<char>>,
    nonce: Seq<u8>,
    salt: Seq<u8>,
    payload: Seq<u8>,
    cfg: FrameConfig,
)
    requires
        clean_frames(fs, orig, pwe, nonce, salt, payload, cfg),
        detected_ok(fs[0], det_h, det_c),
        forall|b: u8, l: u8|
            is_candidate(b, l) && earlier_candidate(b, l, det_c.block_size, det_c.levels)
                ==> candidate_rejected(fs[0], b, l),
        total == det_h.total_frames,
        0 <= i < total,
        i < fs.len(),
    ensures
        frame_data_encoded(fs[i], payload, i, cfg),
{
    reveal(clean_frames);
    reveal(first_frame_carries);
    let nb = num_blocks(payload.len() as int, cfg.spec_max_raw_per_frame());
    lemma_detect_identifies(fs, det_h, det_c, orig, nonce, salt, payload, cfg);
    assert(total == nb);
    if i == 0 || frame_is_encoded(fs[i], payload, i, nb, orig.len() as int, nonce, salt, cfg) {
        lemma_frame_encoded_parts(fs[i], payload, i, nb, orig.len() as int, nonce, salt, cfg);
    } else {
        assert(frame_recoverable(fs[i], payload, i, nb, orig.len() as int, nonce, salt, cfg));
    }
}

/// Decode a sequence of frames back to the stored bytes: detect the
/// parameters on the first frame, per frame recover the slice length from
/// the header rows (falling back to the full capacity when the triple vote
/// fails) and Reed-Solomon decode the data rows, then open the concatenated
/// payload (or pass it through when the all-zero sentinel marks it
/// unencrypted) and truncate to the recorded file size.
///
/// The contract covers the documented behaviors: a clean encoding decoded
/// with the encoder's password (or none) returns the input exactly; an
/// unencrypted encoding is passed through regardless of any supplied
/// password; an encrypted encoding without a password is a `Crypto` error,
/// and with any password it can fail only as a `Crypto` error; a sequence
/// shorter than the recorded frame count is an `Ecc` error. Frames beyond
/// the recorded count are never read, and a non-first frame whose header
/// rows are beyond recovery is still decoded at full capacity.
#[verifier::rlimit(100)]
pub fn decode_frames(frames: &Vec<RgbFrame>, password: Option<&str>) -> (r: Result<
    Vec<u8>,
    VstorageError,
>)
    ensures
        forall|orig: Seq<u8>, nonce: Seq<u8>, salt: Seq<u8>, payload: Seq<u8>, cfg: FrameConfig|
            #[trigger] clean_frames(frames@, orig, pw_view(password), nonce, salt, payload, cfg)
                ==> (r is Ok && r->Ok_0@ == orig),
        forall|orig: Seq<u8>, nonce: Seq<u8>, salt: Seq<u8>, payload: Seq<u8>, cfg: FrameConfig|
            #[trigger] clean_frames(frames@, orig, Option::None, nonce, salt, payload, cfg) ==> (
            r is Ok && r->Ok_0@ == orig),
        forall|
            orig: Seq<u8>,
            pwe: Seq<char>,
            nonce: Seq<u8>,
            salt: Seq<u8>,
            payload: Seq<u8>,
            cfg: FrameConfig,
        |
            #[trigger] clean_frames(frames@, orig, Option::Some(pwe), nonce, salt, payload, cfg)
                && pw_view(password) is None ==> (r matches Err(e) && e is Crypto),
        forall|
            orig: Seq<u8>,
            pwe: Seq<char>,
            nonce: Seq<u8>,
            salt: Seq<u8>,
            payload: Seq<u8>,
            cfg: FrameConfig,
        |
            #[trigger] clean_frames(frames@, orig, Option::Some(pwe), nonce, salt, payload, cfg)
                ==> (r is Err ==> r->Err_0 is Crypto),
        forall|orig: Seq<u8>, nonce: Seq<u8>, salt: Seq<u8>, payload: Seq<u8>, cfg: FrameConfig|
            #[trigger] truncated_frames(frames@, orig, nonce, salt, payload, cfg) ==> (
            r matches Err(e) && e is Ecc),
{
    let ghost pwv = pw_view(password);
    let ghost fs = frames@;
    if frames.len() == 0 {
        proof {
            assert forall|
                o: Seq<u8>,
                pe: Option<Seq<char>>,
                n: Seq<u8>,
                s2: Seq<u8>,
                p: Seq<u8>,
                c: FrameConfig,
            |
                #[trigger] clean_frames(fs, o, pe, n, s2, p, c) implies false by {
                lemma_clean_carries(fs, o, pe, n, s2, p, c);
                lemma_premise_basics(fs, o, n, s2, p, c);
            }
            assert forall|o: Seq<u8>, n: Seq<u8>, s2: Seq<u8>, p: Seq<u8>, c: FrameConfig|
                #[trigger] truncated_frames(fs, o, n, s2, p, c) implies false by {
                lemma_truncated_carries(fs, o, n, s2, p, c);
                lemma_premise_basics(fs, o, n, s2, p, c);
            }
        }
        return Err(VstorageError::Ffmpeg("no frames extracted"));
    }
    let first = &frames[0];
    if !first.check_4k() {
        proof {
            assert forall|
                o: Seq<u8>,
                pe: Option<Seq<char>>,
                n: Seq<u8>,
                s2: Seq<u8>,
                p: Seq<u8>,
                c: FrameConfig,
            |
                #[trigger] clean_frames(fs, o, pe, n, s2, p, c) implies false by {
                lemma_clean_carries(fs, o, pe, n, s2, p, c);
                lemma_premise_basics(fs, o, n, s2, p, c);
            }
            assert forall|o: Seq<u8>, n: Seq<u8>, s2: Seq<u8>, p: Seq<u8>, c: FrameConfig|
                #[trigger] truncated_frames(fs, o, n, s2, p, c) implies false by {
                lemma_truncated_carries(fs, o, n, s2, p, c);
                lemma_premise_basics(fs, o, n, s2, p, c);
            }
        }
        return Err(VstorageError::Image("unexpected frame size"));
    }
    let detected = detect_config_from_frame(first);
    let (first_header, config) = match detected {
        Ok(t) => t,
        Err(_) => {
            proof {
                assert forall|
                    o: Seq<u8>,
                    pe: Option<Seq<char>>,
                    n: Seq<u8>,
                    s2: Seq<u8>,
                    p: Seq<u8>,
                    c: FrameConfig,
                |
                    #[trigger] clean_frames(fs, o, pe, n, s2, p, c) implies false by {
                    lemma_clean_carries(fs, o, pe, n, s2, p, c);
                    lemma_premise_detects(fs, o, n, s2, p, c);
                    assert(candidate_rejected(fs[0], c.block_size, c.levels));
                }
                assert forall|o: Seq<u8>, n: Seq<u8>, s2: Seq<u8>, p: Seq<u8>, c: FrameConfig|
                    #[trigger] truncated_frames(fs, o, n, s2, p, c) implies false by {
                    lemma_truncated_carries(fs, o, n, s2, p, c);
                    lemma_premise_detects(fs, o, n, s2, p, c);
                    assert(candidate_rejected(fs[0], c.block_size, c.levels));
                }
            }
            return Err(VstorageError::Header("could not detect frame configuration"));
        },
    };
    let ghost det_h = first_header;
    let ghost det_c = config;
    let total_u32 = first_header.total_frames;
    let total = total_u32 as usize;
    let max_raw = config.max_raw_per_frame();
    let ecc_len = config.ecc_len as usize;
    let rs_len = config.rs_data_len();
    if frames.len() < total {
        proof {
            assert forall|
                o: Seq<u8>,
                pe: Option<Seq<char>>,
                n: Seq<u8>,
                s2: Seq<u8>,
                p: Seq<u8>,
                c: FrameConfig,
            |
                #[trigger] clean_frames(fs, o, pe, n, s2, p, c) implies false by {
                lemma_clean_carries(fs, o, pe, n, s2, p, c);
                lemma_detect_identifies(fs, det_h, det_c, o, n, s2, p, c);
            }
        }
        return Err(VstorageError::Ecc("insufficient data"));
    }
    proof {
        assert forall|o: Seq<u8>, n: Seq<u8>, s2: Seq<u8>, p: Seq<u8>, c: FrameConfig|
            #[trigger] truncated_frames(fs, o, n, s2, p, c) implies false by {
            lemma_truncated_carries(fs, o, n, s2, p, c);
            lemma_detect_identifies(fs, det_h, det_c, o, n, s2, p, c);
        }
    }
    let ghost mr_g = config.spec_max_raw_per_frame();
    let mut ciphertext: Vec<u8> = Vec::new();
    let mut i: usize = 0;
    proof {
        assert forall|
            o: Seq<u8>,
            pe: Option<Seq<char>>,
            n: Seq<u8>,
            s2: Seq<u8>,
            p: Seq<u8>,
            c: FrameConfig,
        |
            #[trigger] clean_frames(fs, o, pe, n, s2, p, c) implies ciphertext@ == p.take(0) by {
            assert(ciphertext@ =~= p.take(0));
        }
    }
    while i < total
        invariant
            i <= total,
            fs == frames@,
            pwv == pw_view(password),
            fs.len() >= total,
            det_c == config,
            det_h == first_header,
            config.wf(),
            total == first_header.total_frames,
            max_raw as int == config.spec_max_raw_per_frame(),
            mr_g == config.spec_max_raw_per_frame(),
            ecc_len == config.ecc_len as usize,
            rs_len as int == config.spec_rs_data_len(),
            detected_ok(fs[0], det_h, det_c),
            forall|b: u8, l: u8|
                is_candidate(b, l) && earlier_candidate(b, l, det_c.block_size, det_c.levels)
                    ==> candidate_rejected(fs[0], b, l),
            forall|o: Seq<u8>, n: Seq<u8>, s2: Seq<u8>, p: Seq<u8>, c: FrameConfig|
                #[trigger] truncated_frames(fs, o, n, s2, p, c) ==> false,
            forall|
                o: Seq<u8>,
                pe: Option<Seq<char>>,
                n: Seq<u8>,
                s2: Seq<u8>,
                p: Seq<u8>,
                c: FrameConfig,
            |
                #[trigger] clean_frames(fs, o, pe, n, s2, p, c) ==> ciphertext@ == p.take(
                    if mr_g * i <= p.len() {
                        mr_g * i
                    } else {
                        p.len() as int
                    },
                ),
        decreases total - i,
    {
        let img = &frames[i];
        proof {
            assert forall|
                o: Seq<u8>,
                pe: Option<Seq<char>>,
                n: Seq<u8>,
                s2: Seq<u8>,
                p: Seq<u8>,
                c: FrameConfig,
            |
                #[trigger] clean_frames(fs, o, pe, n, s2, p, c) implies frame_data_encoded(
                fs[i as int],
                p,
                i as int,
                c,
            ) by {
                lemma_frame_dims(fs, det_h, det_c, total as int, i as int, o, pe, n, s2, p, c);
            }
        }
        if !img.check_4k() {
            proof {
                assert forall|
                    o: Seq<u8>,
                    pe: Option<Seq<char>>,
                    n: Seq<u8>,
                    s2: Seq<u8>,
                    p: Seq<u8>,
                    c: FrameConfig,
                |
                    #[trigger] clean_frames(fs, o, pe, n, s2, p, c) implies false by {
                    assert(frame_data_encoded(fs[i as int], p, i as int, c));
                }
            }
            return Err(VstorageError::Image("unexpected frame size"));
        }
        let header_bytes = decode_header_area(img, config.block_size, config.levels);
        let ghost hout = header_bytes@;
        let triple = decode_header_triple(&header_bytes);
        let data_len: usize = match &triple {
            Ok(fh) => fh.data_length as usize,
            Err(_) => max_raw,
        };
        let data_bytes = decode_data_area(img, &config);
        let ghost dout = data_bytes@;
        proof {
            assert forall|
                o: Seq<u8>,
                pe: Option<Seq<char>>,
                n: Seq<u8>,
                s2: Seq<u8>,
                p: Seq<u8>,
                c: FrameConfig,
            |
                #[trigger] clean_frames(fs, o, pe, n, s2, p, c) implies {
                &&& data_len as int == frame_slice(p, mr_g, i as int).len()
                &&& data_len <= dout.len()
                &&& data_len <= 24883200
                &&& 0 <= mr_g * (i as int) < p.len()
                &&& data_len <= mr_g
                &&& blocks_close(
                    dout,
                    frame_slice(p, mr_g, i as int),
                    c.ecc_len as int,
                    c.spec_rs_data_len(),
                )
                &&& dout.len() >= 255 * num_blocks(data_len as int, c.spec_rs_data_len())
                &&& c.spec_rs_data_len() == rs_len as int
                &&& c.ecc_len == ecc_len
            } by {
                lemma_frame_step(
                    fs,
                    det_h,
                    det_c,
                    total as int,
                    i as int,
                    hout,
                    triple,
                    data_len as int,
                    dout,
                    o,
                    pe,
                    n,
                    s2,
                    p,
                    c,
                );
            }
        }
        // No frame slice can exceed the data area, and no data area exceeds
        // the whole frame (3840 * 2160 * 3 bytes).
        if data_len > data_bytes.len() || data_len > 24883200 {
            proof {
                assert forall|
                    o: Seq<u8>,
                    pe: Option<Seq<char>>,
                    n: Seq<u8>,
                    s2: Seq<u8>,
                    p: Seq<u8>,
                    c: FrameConfig,
                |
                    #[trigger] clean_frames(fs, o, pe, n, s2, p, c) implies false by {
                    assert(data_len as int == frame_slice(p, mr_g, i as int).len());
                }
            }
            return Err(VstorageError::Ecc("insufficient data"));
        }
        let rs_decoded = match rs_decode(&data_bytes, ecc_len, rs_len, data_len) {
            Ok(d) => d,
            Err(e) => {
                proof {
                    assert forall|
                        o: Seq<u8>,
                        pe: Option<Seq<char>>,
                        n: Seq<u8>,
                        s2: Seq<u8>,
                        p: Seq<u8>,
                        c: FrameConfig,
                    |
                        #[trigger] clean_frames(fs, o, pe, n, s2, p, c) implies false by {
                        let sl = frame_slice(p, mr_g, i as int);
                        assert(sl.len() == data_len as int);
                        assert(blocks_close(data_bytes@, sl, ecc_len as int, rs_len as int));
                        assert(data_bytes@.len() >= 255 * num_blocks(
                            data_len as int,
                            rs_len as int,
                        ));
                    }
                }
                return Err(e);
            },
        };
        let ghost old_cipher = ciphertext@;
        let mut tail = rs_decoded;
        let ghost tl = tail@;
        ciphertext.append(&mut tail);
        proof {
            assert forall|
                o: Seq<u8>,
                pe: Option<Seq<char>>,
                n: Seq<u8>,
                s2: Seq<u8>,
                p: Seq<u8>,
                c: FrameConfig,
            |
                #[trigger] clean_frames(fs, o, pe, n, s2, p, c) implies ciphertext@ == p.take(
                if mr_g * (i + 1) <= p.len() {
                    mr_g * (i + 1)
                } else {
                    p.len() as int
                },
            ) by {
                let sl = frame_slice(p, mr_g, i as int);
                assert(sl.len() == data_len as int);
                assert(blocks_close(data_bytes@, sl, ecc_len as int, rs_len as int));
                assert(data_bytes@.len() >= 255 * num_blocks(data_len as int, rs_len as int));
                assert(tl == sl);
                assert(mr_g * (i as int + 1) == mr_g * (i as int) + mr_g) by (nonlinear_arith);
                assert(ciphertext@ == old_cipher + sl);
                assert(ciphertext@ =~= p.take(
                    if mr_g * (i + 1) <= p.len() {
                        mr_g * (i as int + 1)
                    } else {
                        p.len() as int
                    },
                ));
            }
        }
        i = i + 1;
    }
    let nonce = first_header.nonce;
    let salt = first_header.salt;
    proof {
        assert forall|
            o: Seq<u8>,
            pe: Option<Seq<char>>,
            n: Seq<u8>,
            s2: Seq<u8>,
            p: Seq<u8>,
            c: FrameConfig,
        |
            #[trigger] clean_frames(fs, o, pe, n, s2, p, c) implies ciphertext@ == p && nonce@ == n
            && salt@ == s2 && first_header.file_size == o.len() && payload_rel(o, pe, n, s2, p)
            && (pe is Some ==> !(n == zero_bytes(12) && s2 == zero_bytes(16))) && (pe matches Some(
            pc,
        ) ==> pc.len() <= ARGON2_MAX_PASSWORD_CHARS) && o.len() <= AES_GCM_MAX_PLAINTEXT by {
            lemma_clean_carries(fs, o, pe, n, s2, p, c);
            lemma_clean_crypto(fs, o, pe, n, s2, p, c);
            lemma_detect_identifies(fs, det_h, det_c, o, n, s2, p, c);
            assert(mr_g == c.spec_max_raw_per_frame());
            crate::ecc::lemma_num_blocks_covers(p.len() as int, mr_g);
            assert(total as int == num_blocks(p.len() as int, mr_g));
            assert(mr_g * (total as int) >= p.len());
            assert(ciphertext@ =~= p);
        }
    }
    let encrypted = !(all_zero(nonce.as_slice()) && all_zero(salt.as_slice()));
    let plaintext: Vec<u8>;
    if encrypted {
        let pw = match password {
            Option::Some(p2) => p2,
            Option::None => {
                proof {
                    assert forall|
                        o: Seq<u8>,
                        n: Seq<u8>,
                        s2: Seq<u8>,
                        p: Seq<u8>,
                        c: FrameConfig,
                    |
                        #[trigger] clean_frames(fs, o, Option::None, n, s2, p, c) implies false by {
                        assert(n == zero_bytes(12) && s2 == zero_bytes(16));
                        assert(nonce@ == zero_bytes(nonce@.len() as int));
                        assert(salt@ == zero_bytes(salt@.len() as int));
                    }
                }
                return Err(VstorageError::Crypto("encrypted video requires a password"));
            },
        };
        plaintext = match decrypt(&ciphertext, pw, &nonce, &salt) {
            Ok(pt) => pt,
            Err(e) => {
                proof {
                    assert forall|
                        o: Seq<u8>,
                        n: Seq<u8>,
                        s2: Seq<u8>,
                        p: Seq<u8>,
                        c: FrameConfig,
                    |
                        #[trigger] clean_frames(fs, o, pwv, n, s2, p, c) implies false by {
                        assert(pwv == Option::Some(pw@));
                        assert(p == aes_gcm_seal(argon2id_key(pw@, s2), n, o));
                        assert(ciphertext@ == aes_gcm_seal(argon2id_key(pw@, salt@), nonce@, o));
                        assert(o.len() + 16 == ciphertext@.len());
                    }
                    assert forall|
                        o: Seq<u8>,
                        n: Seq<u8>,
                        s2: Seq<u8>,
                        p: Seq<u8>,
                        c: FrameConfig,
                    |
                        #[trigger] clean_frames(fs, o, Option::None, n, s2, p, c) implies false by {
                        assert(nonce@ == zero_bytes(nonce@.len() as int));
                        assert(salt@ == zero_bytes(salt@.len() as int));
                    }
                }
                return Err(e);
            },
        };
        proof {
            assert forall|o: Seq<u8>, n: Seq<u8>, s2: Seq<u8>, p: Seq<u8>, c: FrameConfig|
                #[trigger] clean_frames(fs, o, pwv, n, s2, p, c) implies plaintext@ == o by {
                assert(pwv == Option::Some(pw@));
                assert(ciphertext@ == aes_gcm_seal(argon2id_key(pw@, salt@), nonce@, o));
            }
            assert forall|o: Seq<u8>, n: Seq<u8>, s2: Seq<u8>, p: Seq<u8>, c: FrameConfig|
                #[trigger] clean_frames(fs, o, Option::None, n, s2, p, c) implies false by {
                assert(nonce@ == zero_bytes(nonce@.len() as int));
                assert(salt@ == zero_bytes(salt@.len() as int));
            }
            assert forall|o: Seq<u8>, n: Seq<u8>, s2: Seq<u8>, p: Seq<u8>, c: FrameConfig|
                #[trigger] clean_frames(fs, o, pwv, n, s2, p, c) implies plaintext@.len()
                == first_header.file_size by {
            }
        }
    } else {
        plaintext = ciphertext;
        proof {
            assert forall|
                o: Seq<u8>,
                pe: Option<Seq<char>>,
                n: Seq<u8>,
                s2: Seq<u8>,
                p: Seq<u8>,
                c: FrameConfig,
            |
                #[trigger] clean_frames(fs, o, pe, n, s2, p, c) implies plaintext@ == o && (
            pe is None) by {
                if pe is Some {
                    assert(!(n == zero_bytes(12) && s2 == zero_bytes(16)));
                    assert(nonce@ =~= zero_bytes(12));
                    assert(salt@ =~= zero_bytes(16));
                    assert(false);
                }
            }
        }
    }
    let fsize = first_header.file_size;
    if (plaintext.len() as u64) < fsize {
        proof {
            assert forall|
                o: Seq<u8>,
                pe: Option<Seq<char>>,
                n: Seq<u8>,
                s2: Seq<u8>,
                p: Seq<u8>,
                c: FrameConfig,
            |
                #[trigger] clean_frames(fs, o, pe, n, s2, p, c) implies false by {
                if encrypted {
                    if pe is None {
                        assert(nonce@ == zero_bytes(nonce@.len() as int));
                        assert(salt@ == zero_bytes(salt@.len() as int));
                    } else {
                        assert(plaintext@.len() + 16 == ciphertext@.len());
                        assert(p.len() == o.len() + 16);
                    }
                } else {
                    assert(plaintext@ == o && first_header.file_size == o.len());
                }
            }
        }
        return Err(VstorageError::Ecc("insufficient data"));
    }
    let mut out = plaintext;
    out.truncate(fsize as usize);
    proof {
        assert forall|o: Seq<u8>, n: Seq<u8>, s2: Seq<u8>, p: Seq<u8>, c: FrameConfig|
            #[trigger] clean_frames(fs, o, pwv, n, s2, p, c) implies out@ == o by {
            if encrypted {
                assert(pwv is Some);
            }
            assert(out@ =~= o);
        }
        assert forall|o: Seq<u8>, n: Seq<u8>, s2: Seq<u8>, p: Seq<u8>, c: FrameConfig|
            #[trigger] clean_frames(fs, o, Option::None, n, s2, p, c) implies out@ == o by {
            if encrypted {
                assert(nonce@ == zero_bytes(nonce@.len() as int));
                assert(salt@ == zero_bytes(salt@.len() as int));
                assert(false);
            }
            assert(out@ =~= o);
        }
    }
    Ok(out)
}

/// A fully encoded frame has the 4K dimensions and intact data rows.
proof fn lemma_frame_encoded_parts(
    img: RgbFrame,
    payload: Seq<u8>,
    i: int,
    nframes: int,
    fsize: int,
    nonce: Seq<u8>,
    salt: Seq<u8>,
    cfg: FrameConfig,
)
    requires
        frame_is_encoded(img, payload, i, nframes, fsize, nonce, salt, cfg),
    ensures
        frame_data_encoded(img, payload, i, cfg),
{
    let h = choose|h: FrameHeader|
        {
            &&& #[trigger] frame_header_ok(h, payload, i, nframes, fsize, nonce, salt, cfg)
            &&& img.wf()
            &&& img.spec_width() == FRAME_WIDTH as int
            &&& img.spec_height() == FRAME_HEIGHT as int
            &&& rows_encoded(
                img,
                spec_serialize(h) + spec_serialize(h) + spec_serialize(h),
                cfg,
                0,
                HEADER_ROWS as int,
            )
            &&& rows_encoded(
                img,
                spec_rs_encode(
                    frame_slice(payload, cfg.spec_max_raw_per_frame(), i),
                    cfg.ecc_len as int,
                    cfg.spec_rs_data_len(),
                ),
                cfg,
                HEADER_ROWS as int,
                cfg.spec_logical_height(),
            )
        };
}

/// A frame's payload slice fits in its decoded data area.
proof fn lemma_slice_fits_data_area(
    img: RgbFrame,
    payload: Seq<u8>,
    cfg: FrameConfig,
    i: int,
    data_out: Seq<u8>,
)
    requires
        cfg.wf(),
        cfg.spec_max_raw_per_frame() >= 1,
        0 <= i < num_blocks(payload.len() as int, cfg.spec_max_raw_per_frame()),
        decode_output_ok(
            img,
            cfg.block_size as int,
            cfg.levels,
            HEADER_ROWS as int,
            cfg.spec_logical_height() - HEADER_ROWS as int,
            cfg.spec_logical_width(),
            data_out,
        ),
    ensures
        frame_slice(payload, cfg.spec_max_raw_per_frame(), i).len() <= data_out.len(),
{
    let mr = cfg.spec_max_raw_per_frame();
    let k = cfg.spec_rs_data_len();
    let lw = cfg.spec_logical_width();
    let lh = cfg.spec_logical_height();
    let bpc = spec_bits_per_channel(cfg.levels) as int;
    let dap = cfg.spec_data_area_pixels();
    let dab = cfg.spec_data_area_bytes();
    let nbits = 3 * ((lh - HEADER_ROWS as int) * lw) * bpc;
    cfg.lemma_geometry_bounds();
    crate::ecc::lemma_block_start_in_range(payload.len() as int, mr, i);
    assert(mr * (i + 1) == mr * i + mr) by (nonlinear_arith);
    assert(frame_slice(payload, mr, i).len() <= mr);
    assert(mr <= dab) by {
        assert((dab / 255) * k <= (dab / 255) * 255) by (nonlinear_arith)
            requires
                k <= 255 && dab / 255 >= 0,
        ;
        assert(255 * (dab / 255) <= dab) by {
            lemma_fundamental_div_mod(dab, 255);
            lemma_mod_bound(dab, 255);
        }
        assert((dab / 255) * 255 == 255 * (dab / 255)) by (nonlinear_arith);
        lemma_div_pos_is_pos(dab, 255);
    }
    assert(8 * dab <= nbits) by {
        lemma_fundamental_div_mod(dap * (3 * bpc), 8);
        lemma_mod_bound(dap * (3 * bpc), 8);
        assert(dap * (3 * bpc) == nbits) by (nonlinear_arith)
            requires
                dap == lw * (lh - HEADER_ROWS as int) && nbits == 3 * ((lh - HEADER_ROWS as int)
                    * lw) * bpc,
        ;
    }
    assert(8 * data_out.len() >= nbits);
}

/// Unfold a clean premise into its first-frame part.
proof fn lemma_clean_carries(
    frames: Seq<RgbFrame>,
    orig: Seq<u8>,
    pw: Option<Seq<char>>,
    nonce: Seq<u8>,
    salt: Seq<u8>,
    payload: Seq<u8>,
    cfg: FrameConfig,
)
    requires
        clean_frames(frames, orig, pw, nonce, salt, payload, cfg),
    ensures
        first_frame_carries(frames, orig, nonce, salt, payload, cfg),
        frames.len() >= num_blocks(payload.len() as int, cfg.spec_max_raw_per_frame()),
        cfg.wf(),
        cfg.spec_max_raw_per_frame() > 0,
        payload.len() > 0,
{
    reveal(clean_frames);
    reveal(first_frame_carries);
}

/// Unfold a clean premise into its payload and cryptography part.
proof fn lemma_clean_crypto(
    frames: Seq<RgbFrame>,
    orig: Seq<u8>,
    pw: Option<Seq<char>>,
    nonce: Seq<u8>,
    salt: Seq<u8>,
    payload: Seq<u8>,
    cfg: FrameConfig,
)
    requires
        clean_frames(frames, orig, pw, nonce, salt, payload, cfg),
    ensures
        payload_rel(orig, pw, nonce, salt, payload),
        pw is Some ==> !(nonce == zero_bytes(12) && salt == zero_bytes(16)),
        pw matches Some(pc) ==> pc.len() <= ARGON2_MAX_PASSWORD_CHARS,
        orig.len() <= AES_GCM_MAX_PLAINTEXT,
{
    reveal(clean_frames);
}

/// Unfold a truncated premise.
proof fn lemma_truncated_carries(
    frames: Seq<RgbFrame>,
    orig: Seq<u8>,
    nonce: Seq<u8>,
    salt: Seq<u8>,
    payload: Seq<u8>,
    cfg: FrameConfig,
)
    requires
        truncated_frames(frames, orig, nonce, salt, payload, cfg),
    ensures
        first_frame_carries(frames, orig, nonce, salt, payload, cfg),
        frames.len() < num_blocks(payload.len() as int, cfg.spec_max_raw_per_frame()),
{
    reveal(truncated_frames);
}

/// Every decode premise has at least one frame, of 4K dimensions.
proof fn lemma_premise_basics(
    frames: Seq<RgbFrame>,
    orig: Seq<u8>,
    nonce: Seq<u8>,
    salt: Seq<u8>,
    payload: Seq<u8>,
    cfg: FrameConfig,
)
    requires
        first_frame_carries(frames, orig, nonce, salt, payload, cfg),
    ensures
        frames.len() >= 1,
        frames[0].wf(),
        frames[0].spec_width() == FRAME_WIDTH as int,
        frames[0].spec_height() == FRAME_HEIGHT as int,
{
    reveal(first_frame_carries);
    let h0 = lemma_premise_header(frames, orig, nonce, salt, payload, cfg);
}

/// Under every decode premise the encoder's own parameters are not rejected
/// by the detector.
proof fn lemma_premise_detects(
    frames: Seq<RgbFrame>,
    orig: Seq<u8>,
    nonce: Seq<u8>,
    salt: Seq<u8>,
    payload: Seq<u8>,
    cfg: FrameConfig,
)
    requires
        first_frame_carries(frames, orig, nonce, salt, payload, cfg),
    ensures
        frames.len() >= 1,
        is_candidate(cfg.block_size, cfg.levels),
        !candidate_rejected(frames[0], cfg.block_size, cfg.levels),
        !candidate_fails(frames[0], cfg.block_size, cfg.levels),
{
    reveal(first_frame_carries);
    let h0 = lemma_premise_header(frames, orig, nonce, salt, payload, cfg);
    lemma_clean_candidate_succeeds(frames[0], h0, cfg);
}

/// The skolem header of the first frame of a decode premise.
proof fn lemma_premise_header(
    frames: Seq<RgbFrame>,
    orig: Seq<u8>,
    nonce: Seq<u8>,
    salt: Seq<u8>,
    payload: Seq<u8>,
    cfg: FrameConfig,
) -> (h: FrameHeader)
    requires
        first_frame_carries(frames, orig, nonce, salt, payload, cfg),
    ensures
        frame_header_ok(
            h,
            payload,
            0,
            num_blocks(payload.len() as int, cfg.spec_max_raw_per_frame()),
            orig.len() as int,
            nonce,
            salt,
            cfg,
        ),
        frames[0].wf(),
        frames[0].spec_width() == FRAME_WIDTH as int,
        frames[0].spec_height() == FRAME_HEIGHT as int,
        rows_encoded(
            frames[0],
            spec_serialize(h) + spec_serialize(h) + spec_serialize(h),
            cfg,
            0,
            HEADER_ROWS as int,
        ),
        h.version == PROTOCOL_VERSION,
        h.block_size == cfg.block_size,
        h.levels == cfg.levels,
        1 <= h.ecc_len <= 170,
{
    reveal(first_frame_carries);
    let nb = num_blocks(payload.len() as int, cfg.spec_max_raw_per_frame());
    assert(frame_is_encoded(frames[0], payload, 0, nb, orig.len() as int, nonce, salt, cfg));
    let h = choose|h: FrameHeader|
        {
            &&& #[trigger] frame_header_ok(h, payload, 0, nb, orig.len() as int, nonce, salt, cfg)
            &&& frames[0].wf()
            &&& frames[0].spec_width() == FRAME_WIDTH as int
            &&& frames[0].spec_height() == FRAME_HEIGHT as int
            &&& rows_encoded(
                frames[0],
                spec_serialize(h) + spec_serialize(h) + spec_serialize(h),
                cfg,
                0,
                HEADER_ROWS as int,
            )
            &&& rows_encoded(
                frames[0],
                spec_rs_encode(
                    frame_slice(payload, cfg.spec_max_raw_per_frame(), 0),
                    cfg.ecc_len as int,
                    cfg.spec_rs_data_len(),
                ),
                cfg,
                HEADER_ROWS as int,
                cfg.spec_logical_height(),
            )
        };
    h
}

} // verus!
