//! Encode pipeline: optionally seal the input, split the payload into
//! per-frame slices, and paint each slice as one 4K frame behind a
//! triple-redundant header.

use vstd::prelude::*;
use sha2::Digest;
use crate::config::{FrameConfig, HEADER_ROWS, PROTOCOL_VERSION, FRAME_WIDTH, FRAME_HEIGHT,
    spec_bits_per_channel};
use crate::crypto::{aes_gcm_seal, argon2id_key, encrypt, AES_GCM_MAX_PLAINTEXT,
    ARGON2_MAX_PASSWORD_CHARS};
use crate::ecc::{spec_rs_encode, rs_encode, num_blocks};
use crate::error::VstorageError;
use crate::frame::{RgbFrame, rows_encoded, encode_frame_to_image};
use crate::header::{FrameHeader, spec_serialize, encode_header_triple, HEADER_SIZE};

verus! {

/// The SHA-256 digest of a byte string.
pub uninterp spec fn sha256_of(data: Seq<u8>) -> Seq<u8>;

/// Relies on `sha2::Sha256::digest`: the digest depends on the bytes alone.
#[verifier::external_body]
fn sha256(data: &Vec<u8>) -> (r: [u8; 32])
    ensures
        r@ == sha256_of(data@),
{
    let d: [u8; 32] = sha2::Sha256::digest(data.as_slice()).into();
    d
}

pub open spec fn zero_bytes(n: int) -> Seq<u8> {
    Seq::new(n as nat, |i: int| 0u8)
}

/// The header area of a frame has room for the 270 bytes of the triple
/// header: two logical rows of three channels of `bits_per_channel` bits.
pub open spec fn header_fits(cfg: FrameConfig) -> bool {
    3 * (HEADER_ROWS as int * cfg.spec_logical_width()) * spec_bits_per_channel(
        cfg.levels,
    ) as int >= 8 * 3 * HEADER_SIZE
}

/// The view of an optional password.
pub open spec fn pw_view(password: Option<&str>) -> Option<Seq<char>> {
    match password {
        Option::None => Option::None,
        Option::Some(p) => Option::Some(p@),
    }
}

/// The payload the frames carry for a given input: the input itself when no
/// password is given (with the all-zero sentinel nonce and salt), or its
/// AES-256-GCM sealing under the Argon2id key of the password and salt.
pub open spec fn payload_rel(
    data: Seq<u8>,
    pw: Option<Seq<char>>,
    nonce: Seq<u8>,
    salt: Seq<u8>,
    payload: Seq<u8>,
) -> bool {
    &&& nonce.len() == 12
    &&& salt.len() == 16
    &&& match pw {
        Option::None => payload == data && nonce == zero_bytes(12) && salt == zero_bytes(16),
        Option::Some(p) => payload == aes_gcm_seal(argon2id_key(p, salt), nonce, data)
            && payload.len() == data.len() + 16,
    }
}

/// The slice of the payload that frame `i` carries.
pub open spec fn frame_slice(payload: Seq<u8>, max_raw: int, i: int) -> Seq<u8> {
    payload.subrange(
        max_raw * i,
        if max_raw * (i + 1) <= payload.len() {
            max_raw * (i + 1)
        } else {
            payload.len() as int
        },
    )
}

/// The header contents every frame of one encoding carries.
pub open spec fn frame_header_ok(
    h: FrameHeader,
    payload: Seq<u8>,
    i: int,
    nframes: int,
    file_size: int,
    nonce: Seq<u8>,
    salt: Seq<u8>,
    cfg: FrameConfig,
) -> bool {
    &&& h.version == PROTOCOL_VERSION
    &&& h.frame_number == i
    &&& h.total_frames == nframes
    &&& h.block_size == cfg.block_size
    &&& h.levels == cfg.levels
    &&& h.file_size == file_size
    &&& h.data_length == frame_slice(payload, cfg.spec_max_raw_per_frame(), i).len()
    &&& h.ecc_len == cfg.ecc_len
    &&& h.rs_data_len == cfg.spec_rs_data_len()
    &&& h.nonce@ == nonce
    &&& h.salt@ == salt
    &&& h.data_sha256@ == sha256_of(
        spec_rs_encode(
            frame_slice(payload, cfg.spec_max_raw_per_frame(), i),
            cfg.ecc_len as int,
            cfg.spec_rs_data_len(),
        ),
    )
}

/// Frame `i` of an encoding: the header rows carry three copies of its
/// header, the data rows the RS encoding of its payload slice.
pub open spec fn frame_is_encoded(
    img: RgbFrame,
    payload: Seq<u8>,
    i: int,
    nframes: int,
    file_size: int,
    nonce: Seq<u8>,
    salt: Seq<u8>,
    cfg: FrameConfig,
) -> bool {
    exists|h: FrameHeader|
        {
            &&& #[trigger] frame_header_ok(h, payload, i, nframes, file_size, nonce, salt, cfg)
            &&& img.wf()
            &&& img.spec_width() == FRAME_WIDTH as int
            &&& img.spec_height() == FRAME_HEIGHT as int
            &&& rows_encoded(
                img,
                spec_serialize(h) + spec_serialize(h) + spec_serialize(h),
                cfg,
                0,
                HEADER_ROWS as int,
            )
            &&& rows_encoded(
                img,
                spec_rs_encode(
                    frame_slice(payload, cfg.spec_max_raw_per_frame(), i),
                    cfg.ecc_len as int,
                    cfg.spec_rs_data_len(),
                ),
                cfg,
                HEADER_ROWS as int,
                cfg.spec_logical_height(),
            )
        }
}

/// Copy a byte range out of a buffer.
fn copy_range(v: &Vec<u8>, a: usize, b: usize) -> (r: Vec<u8>)
    requires
        a <= b <= v@.len(),
    ensures
        r@ == v@.subrange(a as int, b as int),
{
    let mut r: Vec<u8> = Vec::new();
    let mut j = a;
    while j < b
        invariant
            a <= j <= b <= v@.len(),
            r@ == v@.subrange(a as int, j as int),
        decreases b - j,
    {
        r.push(v[j]);
        j = j + 1;
        proof {
            assert(r@ =~= v@.subrange(a as int, j as int));
        }
    }
    r
}

/// Encode a byte stream into a sequence of frames: seal it when a password
/// is given, split the payload into slices of at most the per-frame raw
/// capacity, and paint one frame per slice. A zero per-frame capacity, a
/// header area too small for the triple header, and a payload too large for
/// the header's frame counter each give a `Config` error; a failed seal
/// gives a `Crypto` error. Within those limits encoding succeeds.
pub fn encode_frames(data: &Vec<u8>, password: Option<&str>, config: &FrameConfig) -> (r: Result<
    Vec<RgbFrame>,
    VstorageError,
>)
    requires
        config.wf(),
        data@.len() + 316 + config.spec_max_raw_per_frame() <= usize::MAX as int,
        data@.len() + 16 <= u64::MAX as int,
    ensures
        r matches Ok(frames) ==> config.spec_max_raw_per_frame() > 0 && exists|
            nonce: Seq<u8>,
            salt: Seq<u8>,
            payload: Seq<u8>,
        |
            {
                &&& #[trigger] payload_rel(data@, pw_view(password), nonce, salt, payload)
                &&& frames@.len() == num_blocks(
                    payload.len() as int,
                    config.spec_max_raw_per_frame(),
                )
                &&& frames@.len() <= u32::MAX
                &&& forall|i: int|
                    0 <= i < frames@.len() ==> frame_is_encoded(
                        #[trigger] frames@[i],
                        payload,
                        i,
                        frames@.len() as int,
                        data@.len() as int,
                        nonce,
                        salt,
                        *config,
                    )
            },
        r matches Ok(frames) ==> header_fits(*config),
        r matches Err(e) ==> (e is Crypto || e is Config),
        config.spec_max_raw_per_frame() == 0 ==> (r matches Err(e) && e is Config),
        !header_fits(*config) ==> (r matches Err(e) && e is Config),
        pw_view(password) is None && config.spec_max_raw_per_frame() > 0 && header_fits(*config)
            && num_blocks(data@.len() as int, config.spec_max_raw_per_frame()) <= 0x7fffffff
            ==> r is Ok,
        pw_view(password) matches Some(pc) && pc.len() <= ARGON2_MAX_PASSWORD_CHARS && data@.len()
            <= AES_GCM_MAX_PLAINTEXT && config.spec_max_raw_per_frame() > 0 && header_fits(*config)
            && num_blocks(data@.len() as int + 16, config.spec_max_raw_per_frame()) <= 0x7fffffff
            ==> r is Ok,
{
    let ghost cfg = *config;
    let max_raw = config.max_raw_per_frame();
    if max_raw == 0 {
        return Err(VstorageError::Config("frame capacity is zero"));
    }
    let lw0 = config.logical_width();
    let bpc0 = config.bits_per_channel();
    proof {
        config.lemma_geometry_bounds();
        assert(3 * (HEADER_ROWS as int * cfg.spec_logical_width()) * spec_bits_per_channel(
            cfg.levels,
        ) as int == 6 * (cfg.spec_logical_width() * spec_bits_per_channel(cfg.levels) as int))
            by (nonlinear_arith);
        assert(lw0 as int * bpc0 as int == cfg.spec_logical_width() * spec_bits_per_channel(
            cfg.levels,
        ) as int);
    }
    if lw0 * (bpc0 as usize) < 360 {
        return Err(VstorageError::Config("header area cannot hold the triple header"));
    }
    let file_size: u64 = data.len() as u64;
    let (payload, nonce, salt): (Vec<u8>, [u8; 12], [u8; 16]) = match password {
        Option::Some(pw) => {
            match encrypt(data, pw) {
                Ok(t) => t,
                Err(e) => {
                    return Err(e);
                },
            }
        },
        Option::None => {
            let copy = copy_range(data, 0, data.len());
            proof {
                assert(copy@ =~= data@);
            }
            (copy, [0u8; 12], [0u8; 16])
        },
    };
    proof {
        assert(nonce@.len() == 12 && salt@.len() == 16);
        if password is None {
            assert(nonce@ =~= zero_bytes(12));
            assert(salt@ =~= zero_bytes(16));
        }
        assert(payload_rel(data@, pw_view(password), nonce@, salt@, payload@));
    }
    let plen = payload.len();
    let num_frames = (plen + max_raw - 1) / max_raw;
    proof {
        assert(num_frames as int == num_blocks(payload@.len() as int, cfg.spec_max_raw_per_frame()));
        vstd::arithmetic::div_mod::lemma_div_pos_is_pos(plen as int + max_raw as int - 1, max_raw as int);
    }
    if num_frames > 0xffffffffusize / 2 {
        return Err(VstorageError::Config("payload needs too many frames"));
    }
    let ecc_len = config.ecc_len as usize;
    let rs_data_len = config.rs_data_len();
    let mut frames: Vec<RgbFrame> = Vec::new();
    let mut i: usize = 0;
    while i < num_frames
        invariant
            i <= num_frames,
            num_frames <= 0xffffffffusize / 2,
            cfg == *config,
            cfg.wf(),
            plen == payload@.len(),
            plen + 300 + cfg.spec_max_raw_per_frame() <= usize::MAX as int,
            plen <= data@.len() + 16,
            max_raw as int == cfg.spec_max_raw_per_frame(),
            max_raw >= 1,
            ecc_len == cfg.ecc_len as usize,
            rs_data_len as int == cfg.spec_rs_data_len(),
            file_size == data@.len(),
            num_frames as int == num_blocks(payload@.len() as int, cfg.spec_max_raw_per_frame()),
            frames@.len() == i,
            forall|j: int|
                0 <= j < i ==> frame_is_encoded(
                    #[trigger] frames@[j],
                    payload@,
                    j,
                    num_frames as int,
                    data@.len() as int,
                    nonce@,
                    salt@,
                    cfg,
                ),
        decreases num_frames - i,
    {
        proof {
            assert(max_raw as int * (i as int) < plen && max_raw as int * (i as int) >= 0) by {
                crate::ecc::lemma_block_start_in_range(plen as int, max_raw as int, i as int);
            }
            assert(max_raw as int * (i as int + 1) == max_raw as int * (i as int) + max_raw as int)
                by (nonlinear_arith);
        }
        let start = max_raw * i;
        let end = if start + max_raw <= plen {
            start + max_raw
        } else {
            plen
        };
        let slice = copy_range(&payload, start, end);
        proof {
            cfg.lemma_geometry_bounds();
            assert(slice@ =~= frame_slice(payload@, cfg.spec_max_raw_per_frame(), i as int));
            assert(slice@ == frame_slice(payload@, cfg.spec_max_raw_per_frame(), i as int));
        }
        let rs_encoded = rs_encode(&slice, ecc_len, rs_data_len);
        let data_hash = sha256(&rs_encoded);
        let hdr = FrameHeader {
            version: PROTOCOL_VERSION,
            frame_number: i as u32,
            total_frames: num_frames as u32,
            block_size: config.block_size,
            levels: config.levels,
            file_size,
            data_length: (end - start) as u32,
            ecc_len: config.ecc_len,
            rs_data_len: rs_data_len as u16,
            nonce,
            salt,
            data_sha256: data_hash,
        };
        proof {
            assert(frame_header_ok(
                hdr,
                payload@,
                i as int,
                num_frames as int,
                data@.len() as int,
                nonce@,
                salt@,
                cfg,
            ));
        }
        let header_bytes = encode_header_triple(&hdr);
        let img = encode_frame_to_image(&header_bytes, &rs_encoded, config);
        frames.push(img);
        proof {
            assert(frame_is_encoded(
                frames@[i as int],
                payload@,
                i as int,
                num_frames as int,
                data@.len() as int,
                nonce@,
                salt@,
                cfg,
            ));
        }
        i = i + 1;
    }
    proof {
        assert(payload_rel(data@, pw_view(password), nonce@, salt@, payload@));
    }
    Ok(frames)
}

} // verus!
