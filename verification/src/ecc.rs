//! Reed-Solomon stage: the payload is cut into chunks of `255 - ecc_len`
//! bytes (the last chunk zero-padded), each extended with `ecc_len` parity
//! bytes to a 255-byte block; decoding corrects up to `ecc_len / 2` wrong
//! bytes per block.

use vstd::prelude::*;
use crate::error::VstorageError;

verus! {

/// Byte `i` of the parity the Reed-Solomon encoder computes for one chunk.
pub uninterp spec fn rs_parity_at(data: Seq<u8>, ecc_len: int, i: int) -> u8;

/// The `ecc_len` parity bytes the encoder appends to one data chunk.
pub open spec fn rs_parity(data: Seq<u8>, ecc_len: int) -> Seq<u8> {
    Seq::new(ecc_len as nat, |i: int| rs_parity_at(data, ecc_len, i))
}

/// One encoded block: the chunk followed by its parity.
pub open spec fn rs_block(chunk: Seq<u8>, ecc_len: int) -> Seq<u8> {
    chunk + rs_parity(chunk, ecc_len)
}

/// Number of positions at which two byte strings differ (compared up to the
/// shorter length).
pub open spec fn diff_count(a: Seq<u8>, b: Seq<u8>) -> int
    decreases a.len(),
{
    if a.len() == 0 || b.len() == 0 {
        0
    } else {
        diff_count(a.drop_last(), b.drop_last()) + if a.last() == b.last() {
            0int
        } else {
            1int
        }
    }
}

/// A string differs from itself nowhere.
pub proof fn lemma_diff_count_self(a: Seq<u8>)
    ensures
        diff_count(a, a) == 0,
    decreases a.len(),
{
    if a.len() > 0 {
        lemma_diff_count_self(a.drop_last());
    }
}

/// A chunk zero-padded to `k` bytes.
pub open spec fn pad_chunk(s: Seq<u8>, k: int) -> Seq<u8> {
    s + Seq::new((k - s.len()) as nat, |i: int| 0u8)
}

/// The `bi`-th chunk of a payload, zero-padded to `k` bytes.
pub open spec fn payload_chunk(data: Seq<u8>, k: int, bi: int) -> Seq<u8> {
    pad_chunk(
        data.subrange(
            k * bi,
            if k * (bi + 1) <= data.len() {
                k * (bi + 1)
            } else {
                data.len() as int
            },
        ),
        k,
    )
}

/// Blocks needed to carry `len` bytes in chunks of `k`.
pub open spec fn num_blocks(len: int, k: int) -> int {
    (len + k - 1) / k
}

/// The full encoding: one 255-byte block per chunk, in order.
pub open spec fn spec_rs_encode(data: Seq<u8>, ecc_len: int, k: int) -> Seq<u8>
    recommends
        1 <= k,
    decreases data.len(),
    when 1 <= k
{
    if data.len() == 0 {
        Seq::<u8>::empty()
    } else if data.len() <= k {
        rs_block(pad_chunk(data, k), ecc_len)
    } else {
        rs_block(data.take(k), ecc_len) + spec_rs_encode(data.skip(k), ecc_len, k)
    }
}

/// Every block of `data` is within correction distance of the encoding of
/// the corresponding chunk of `orig`.
pub open spec fn blocks_close(data: Seq<u8>, orig: Seq<u8>, ecc_len: int, k: int) -> bool {
    forall|bi: int|
        0 <= bi < num_blocks(orig.len() as int, k) ==> diff_count(
            #[trigger] data.subrange(255 * bi, 255 * bi + 255),
            rs_block(payload_chunk(orig, k, bi), ecc_len),
        ) <= ecc_len / 2
}

/// Relies on `reed_solomon::Encoder::encode`: the returned buffer is the
/// data chunk followed by `ecc_len` parity bytes computed from the chunk
/// alone.
#[verifier::external_body]
fn rs_encode_block(chunk: &Vec<u8>, ecc_len: usize) -> (r: Vec<u8>)
    requires
        1 <= ecc_len <= 254,
        1 <= chunk@.len(),
        chunk@.len() + ecc_len <= 255,
    ensures
        r@ == rs_block(chunk@, ecc_len as int),
        forall|i: int|
            0 <= i < ecc_len ==> r@[chunk@.len() + i] == rs_parity_at(chunk@, ecc_len as int, i),
{
    let enc = reed_solomon::Encoder::new(ecc_len);
    let encoded = enc.encode(chunk.as_slice());
    let mut out: Vec<u8> = Vec::new();
    out.extend_from_slice(&encoded[..]);
    out
}

/// Relies on `reed_solomon::Decoder::correct`: a 255-byte block within
/// `ecc_len / 2` byte errors of a valid encoding is repaired to that
/// encoding's data part; a block beyond repair gives an error. The parity
/// length is capped at 170: beyond that the decoder's fixed 256-byte
/// polynomials can overflow while locating errors and the call panics.
#[verifier::external_body]
fn rs_correct_block(block: &Vec<u8>, ecc_len: usize) -> (r: Result<Vec<u8>, ()>)
    requires
        1 <= ecc_len <= 170,
        block@.len() == 255,
    ensures
        r matches Ok(d) ==> d@.len() == 255 - ecc_len as int,
        forall|orig: Seq<u8>|
            orig.len() == 255 - ecc_len as int && diff_count(
                block@,
                #[trigger] rs_block(orig, ecc_len as int),
            ) <= ecc_len as int / 2 ==> (r is Ok && r->Ok_0@ == orig),
{
    let dec = reed_solomon::Decoder::new(ecc_len);
    match dec.correct(block.as_slice(), None) {
        Ok(buf) => Ok(buf.data().to_vec()),
        Err(_) => Err(()),
    }
}

/// Reed-Solomon encode a payload: chunks of `rs_data_len` bytes, the last
/// chunk zero-padded, each expanded to a 255-byte block.
pub fn rs_encode(data: &Vec<u8>, ecc_len: usize, rs_data_len: usize) -> (r: Vec<u8>)
    requires
        1 <= ecc_len <= 254,
        rs_data_len as int == 255 - ecc_len as int,
        data@.len() + 255 <= usize::MAX as int,
    ensures
        r@ == spec_rs_encode(data@, ecc_len as int, rs_data_len as int),
{
    let k = rs_data_len;
    let n = data.len();
    let mut result: Vec<u8> = Vec::new();
    let mut pos: usize = 0;
    proof {
        assert(data@.skip(0) =~= data@);
    }
    while pos < n
        invariant
            1 <= ecc_len <= 254,
            k as int == 255 - ecc_len as int,
            n == data@.len(),
            n + 255 <= usize::MAX as int,
            pos <= n,
            spec_rs_encode(data@, ecc_len as int, k as int) == result@ + spec_rs_encode(
                data@.skip(pos as int),
                ecc_len as int,
                k as int,
            ),
        decreases n - pos,
    {
        let end = if pos + k <= n {
            pos + k
        } else {
            n
        };
        let ghost target = pad_chunk(data@.subrange(pos as int, end as int), k as int);
        proof {
            assert(target.len() == k);
        }
        let chunk_end = pos + k;
        let mut chunk: Vec<u8> = Vec::new();
        let mut j = pos;
        while j < chunk_end
            invariant
                chunk_end == pos + k,
                pos <= j <= chunk_end,
                pos < n <= pos + k || pos + k <= n,
                end as int == if pos + k <= n {
                    (pos + k) as int
                } else {
                    n as int
                },
                n == data@.len(),
                target == pad_chunk(data@.subrange(pos as int, end as int), k as int),
                target.len() == k,
                chunk@ == target.take(j - pos),
            decreases chunk_end - j,
        {
            if j < end {
                chunk.push(data[j]);
            } else {
                chunk.push(0);
            }
            j = j + 1;
            proof {
                assert(chunk@ =~= target.take(j - pos));
            }
        }
        proof {
            assert(chunk@ =~= target);
        }
        let block = rs_encode_block(&chunk, ecc_len);
        let ghost old_result = result@;
        let ghost rest = data@.skip(pos as int);
        result.append(&mut { block });
        proof {
            if pos + k <= n && pos + k != n {
                assert(rest.take(k as int) =~= data@.subrange(pos as int, end as int));
                assert(rest.skip(k as int) =~= data@.skip(end as int));
                assert(spec_rs_encode(rest, ecc_len as int, k as int) == rs_block(
                    chunk@,
                    ecc_len as int,
                ) + spec_rs_encode(data@.skip(end as int), ecc_len as int, k as int));
            } else {
                assert(rest =~= data@.subrange(pos as int, end as int));
                assert(rest.len() <= k && rest.len() > 0);
                assert(spec_rs_encode(rest, ecc_len as int, k as int) == rs_block(
                    pad_chunk(rest, k as int),
                    ecc_len as int,
                ));
                assert(pad_chunk(rest, k as int) == chunk@);
                assert(data@.skip(end as int) =~= Seq::<u8>::empty());
            }
        }
        pos = end;
    }
    proof {
        assert(data@.skip(n as int) =~= Seq::<u8>::empty());
        assert(result@ =~= result@ + spec_rs_encode(Seq::<u8>::empty(), ecc_len as int, k as int));
    }
    result
}

/// Reed-Solomon decode: read `ceil(expected_data_len / rs_data_len)` blocks
/// of 255 bytes, correct each, concatenate the data parts and truncate to
/// `expected_data_len`. Too short an input gives an `Ecc` error, as does a
/// block beyond correction capacity. Whenever the input is blockwise within
/// correction distance of the encoding of a payload of the expected length,
/// that payload is returned.
pub fn rs_decode(data: &Vec<u8>, ecc_len: usize, rs_data_len: usize, expected_data_len: usize) -> (r:
    Result<Vec<u8>, VstorageError>)
    requires
        1 <= ecc_len <= 170,
        rs_data_len as int == 255 - ecc_len as int,
        expected_data_len + 255 <= usize::MAX as int,
    ensures
        data@.len() < 255 * num_blocks(expected_data_len as int, rs_data_len as int) ==> (
        r matches Err(e) && e is Ecc),
        r matches Err(e) ==> e is Ecc,
        r matches Ok(d) ==> d@.len() == expected_data_len,
        forall|orig: Seq<u8>|
            orig.len() == expected_data_len && data@.len() >= 255 * num_blocks(
                expected_data_len as int,
                rs_data_len as int,
            ) && #[trigger] blocks_close(data@, orig, ecc_len as int, rs_data_len as int)
                ==> (r is Ok && r->Ok_0@ == orig),
{
    let k = rs_data_len;
    let ghost e_i = ecc_len as int;
    let ghost k_i = k as int;
    let ghost nb_i = num_blocks(expected_data_len as int, k_i);
    let num = (expected_data_len + k - 1) / k;
    proof {
        assert(num as int == nb_i);
        assert(0 <= nb_i) by {
            vstd::arithmetic::div_mod::lemma_div_pos_is_pos(
                expected_data_len as int + k_i - 1,
                k_i,
            );
        }
    }
    let n = data.len();
    let mut result: Vec<u8> = Vec::new();
    let mut bi: usize = 0;
    while bi < num
        invariant
            bi <= num,
            num as int == nb_i,
            k == rs_data_len,
            ecc_len <= 170,
            nb_i == num_blocks(expected_data_len as int, k_i),
            nb_i == num_blocks(expected_data_len as int, rs_data_len as int),
            1 <= ecc_len <= 254,
            e_i == ecc_len as int,
            k_i == k as int,
            k_i == 255 - e_i,
            n == data@.len(),
            n >= 255 * bi,
            result@.len() == k_i * bi,
            forall|orig: Seq<u8>|
                orig.len() == expected_data_len && n >= 255 * nb_i && #[trigger] blocks_close(
                    data@,
                    orig,
                    e_i,
                    k_i,
                ) ==> result@ == (orig + Seq::new((k_i * nb_i - orig.len()) as nat, |i: int| 0u8)).take(
                    k_i * bi,
                ),
        decreases num - bi,
    {
        proof {
            assert(255 * (bi + 1) <= 255 * nb_i && 0 <= 255 * bi) by (nonlinear_arith)
                requires
                    bi + 1 <= nb_i && 0 <= bi,
            ;
        }
        let start = 255 * bi;
        if n < 255 || start > n - 255 {
            proof {
                assert(255 * (bi + 1) <= 255 * nb_i) by (nonlinear_arith)
                    requires
                        bi + 1 <= nb_i,
                ;
                assert(n < 255 * nb_i);
                assert forall|orig: Seq<u8>|
                    orig.len() == expected_data_len && data@.len() >= 255 * num_blocks(
                        expected_data_len as int,
                        rs_data_len as int,
                    ) && #[trigger] blocks_close(
                        data@,
                        orig,
                        ecc_len as int,
                        rs_data_len as int,
                    ) implies false by {
                    assert(data@.len() == n);
                    assert(num_blocks(expected_data_len as int, rs_data_len as int) == nb_i);
                }
            }
            return Err(VstorageError::Ecc("insufficient data for RS block"));
        }
        let end = start + 255;
        let mut block: Vec<u8> = Vec::new();
        let mut j = start;
        while j < end
            invariant
                start <= j <= end <= n,
                n == data@.len(),
                block@ == data@.subrange(start as int, j as int),
            decreases end - j,
        {
            block.push(data[j]);
            j = j + 1;
            proof {
                assert(block@ =~= data@.subrange(start as int, j as int));
            }
        }
        let corrected = rs_correct_block(&block, ecc_len);
        match corrected {
            Ok(part) => {
                let ghost old_result = result@;
                result.append(&mut { part });
                proof {
                    assert(result@.len() == k_i * bi + k_i);
                    assert(k_i * (bi + 1) == k_i * bi + k_i) by (nonlinear_arith);
                    assert forall|orig: Seq<u8>|
                        orig.len() == expected_data_len && n >= 255 * nb_i
                            && #[trigger] blocks_close(data@, orig, e_i, k_i) implies result@ == (
                    orig + Seq::new((k_i * nb_i - orig.len()) as nat, |i: int| 0u8)).take(
                        k_i * (bi + 1),
                    ) by {
                        let padded = orig + Seq::new(
                            (k_i * nb_i - orig.len()) as nat,
                            |i: int| 0u8,
                        );
                        assert(diff_count(
                            data@.subrange(255 * bi, 255 * bi + 255),
                            rs_block(payload_chunk(orig, k_i, bi as int), e_i),
                        ) <= e_i / 2);
                        assert(block@ == data@.subrange(255 * bi, 255 * bi + 255));
                        let ch = payload_chunk(orig, k_i, bi as int);
                        assert(ch.len() == k_i) by {
                            lemma_payload_chunk_len(orig, k_i, bi as int, nb_i);
                        }
                        assert(part@ == ch);
                        assert(old_result == padded.take(k_i * bi));
                        lemma_padded_chunk_is_take(orig, k_i, bi as int, nb_i);
                        assert(padded.take(k_i * (bi + 1)) =~= padded.take(k_i * bi) + ch);
                        assert(result@ == old_result + part@);
                    }
                }
                bi = bi + 1;
            },
            Err(_) => {
                proof {
                    assert forall|orig: Seq<u8>|
                        orig.len() == expected_data_len && data@.len() >= 255 * num_blocks(
                            expected_data_len as int,
                            rs_data_len as int,
                        ) && #[trigger] blocks_close(
                            data@,
                            orig,
                            ecc_len as int,
                            rs_data_len as int,
                        ) implies false by {
                        assert(num_blocks(orig.len() as int, k_i) == nb_i);
                        assert(blocks_close(data@, orig, e_i, k_i));
                        assert(diff_count(
                            data@.subrange(255 * bi, 255 * bi + 255),
                            rs_block(payload_chunk(orig, k_i, bi as int), e_i),
                        ) <= e_i / 2);
                        lemma_payload_chunk_len(orig, k_i, bi as int, nb_i);
                        assert(payload_chunk(orig, k_i, bi as int).len() == 255 - e_i);
                        assert(block@ == data@.subrange(255 * bi, 255 * bi + 255));
                        assert(corrected is Ok);
                    }
                }
                return Err(VstorageError::Ecc("RS correction failed"));
            },
        }
    }
    proof {
        assert(k_i * nb_i >= expected_data_len) by {
            lemma_num_blocks_covers(expected_data_len as int, k_i);
        }
    }
    result.truncate(expected_data_len);
    proof {
        assert forall|orig: Seq<u8>|
            orig.len() == expected_data_len && n >= 255 * nb_i && #[trigger] blocks_close(
                data@,
                orig,
                e_i,
                k_i,
            ) implies result@ == orig by {
            let padded = orig + Seq::new((k_i * nb_i - orig.len()) as nat, |i: int| 0u8);
            assert(padded.take(k_i * nb_i) =~= padded);
            assert(padded.take(expected_data_len as int) =~= orig);
        }
    }
    Ok(result)
}

/// Chunks cover the payload: `k * num_blocks(len, k) >= len`.
pub proof fn lemma_num_blocks_covers(len: int, k: int)
    requires
        1 <= k,
        0 <= len,
    ensures
        k * num_blocks(len, k) >= len,
        num_blocks(len, k) >= 0,
        len > 0 ==> num_blocks(len, k) >= 1,
{
    let nb = num_blocks(len, k);
    vstd::arithmetic::div_mod::lemma_fundamental_div_mod(len + k - 1, k);
    vstd::arithmetic::div_mod::lemma_mod_bound(len + k - 1, k);
    vstd::arithmetic::div_mod::lemma_div_pos_is_pos(len + k - 1, k);
    assert(k * nb == len + k - 1 - (len + k - 1) % k);
    if len > 0 {
        assert(nb >= 1) by (nonlinear_arith)
            requires
                k * nb >= len + k - 1 - (k - 1) && len > 0 && k >= 1 && nb >= 0,
        ;
    }
}

/// Each block's start offset lies inside the payload.
pub proof fn lemma_block_start_in_range(len: int, k: int, i: int)
    requires
        1 <= k,
        0 <= len,
        0 <= i < num_blocks(len, k),
    ensures
        0 <= k * i < len,
{
    vstd::arithmetic::div_mod::lemma_fundamental_div_mod(len + k - 1, k);
    vstd::arithmetic::div_mod::lemma_mod_bound(len + k - 1, k);
    let nb = num_blocks(len, k);
    assert(k * nb <= len + k - 1);
    assert(k * i <= k * (nb - 1) && k * (nb - 1) == k * nb - k && 0 <= k * i) by (nonlinear_arith)
        requires
            0 <= i <= nb - 1 && k >= 1,
    ;
}

/// Each padded chunk has exactly `k` bytes.
proof fn lemma_payload_chunk_len(orig: Seq<u8>, k: int, bi: int, nb: int)
    requires
        1 <= k,
        nb == num_blocks(orig.len() as int, k),
        0 <= bi < nb,
    ensures
        payload_chunk(orig, k, bi).len() == k,
        k * bi < orig.len(),
{
    let len = orig.len() as int;
    vstd::arithmetic::div_mod::lemma_fundamental_div_mod(len + k - 1, k);
    vstd::arithmetic::div_mod::lemma_mod_bound(len + k - 1, k);
    assert(k * nb <= len + k - 1);
    lemma_num_blocks_covers(len, k);
    assert(k * (bi + 1) <= k * nb && k * (bi + 1) == k * bi + k) by (nonlinear_arith)
        requires
            bi + 1 <= nb && k >= 1,
    ;
    assert(k * bi <= len - 1);
    if k * (bi + 1) <= len {
        assert(payload_chunk(orig, k, bi).len() == k);
    } else {
        assert(len - k * bi <= k);
        assert(payload_chunk(orig, k, bi).len() == k);
    }
}

/// The `bi`-th padded chunk of a payload is the corresponding `k`-byte slice
/// of the payload extended with zeros to a whole number of chunks.
proof fn lemma_padded_chunk_is_take(orig: Seq<u8>, k: int, bi: int, nb: int)
    requires
        1 <= k,
        nb == num_blocks(orig.len() as int, k),
        0 <= bi < nb,
    ensures
        (orig + Seq::new((k * nb - orig.len()) as nat, |i: int| 0u8)).take(k * (bi + 1)) == (orig
            + Seq::new((k * nb - orig.len()) as nat, |i: int| 0u8)).take(k * bi) + payload_chunk(
            orig,
            k,
            bi,
        ),
{
    lemma_payload_chunk_len(orig, k, bi, nb);
    lemma_num_blocks_covers(orig.len() as int, k);
    let padded = orig + Seq::new((k * nb - orig.len()) as nat, |i: int| 0u8);
    assert(k * (bi + 1) == k * bi + k) by (nonlinear_arith);
    assert(k * (bi + 1) <= k * nb) by (nonlinear_arith)
        requires
            bi + 1 <= nb && k >= 1,
    ;
    let ch = payload_chunk(orig, k, bi);
    assert forall|j: int| 0 <= j < k implies padded[k * bi + j] == ch[j] by {
        if k * bi + j < orig.len() {
            assert(ch[j] == orig[k * bi + j]);
        } else {
            assert(ch[j] == 0u8);
        }
    }
    assert(padded.take(k * (bi + 1)) =~= padded.take(k * bi) + ch);
}

/// The encoding of a payload is blockwise exactly its own blocks: feeding an
/// uncorrupted encoding back to the decoder is within correction distance
/// everywhere, with zero errors.
pub proof fn lemma_rs_encode_clean(data: Seq<u8>, ecc_len: int, k: int)
    requires
        1 <= ecc_len <= 254,
        k == 255 - ecc_len,
    ensures
        spec_rs_encode(data, ecc_len, k).len() == 255 * num_blocks(data.len() as int, k),
        blocks_close(spec_rs_encode(data, ecc_len, k), data, ecc_len, k),
{
    lemma_rs_encode_len(data, ecc_len, k);
    let enc = spec_rs_encode(data, ecc_len, k);
    assert forall|bi: int| 0 <= bi < num_blocks(data.len() as int, k) implies diff_count(
        #[trigger] enc.subrange(255 * bi, 255 * bi + 255),
        rs_block(payload_chunk(data, k, bi), ecc_len),
    ) <= ecc_len / 2 by {
        lemma_rs_encode_block_at(data, ecc_len, k, bi);
        lemma_diff_count_self(enc.subrange(255 * bi, 255 * bi + 255));
        vstd::arithmetic::div_mod::lemma_div_pos_is_pos(ecc_len, 2);
    }
}

/// The length of an encoding: 255 bytes per chunk.
proof fn lemma_rs_encode_len(data: Seq<u8>, ecc_len: int, k: int)
    requires
        1 <= ecc_len <= 254,
        k == 255 - ecc_len,
    ensures
        spec_rs_encode(data, ecc_len, k).len() == 255 * num_blocks(data.len() as int, k),
    decreases data.len(),
{
    let len = data.len() as int;
    if data.len() == 0 {
        assert(num_blocks(0, k) == 0) by {
            vstd::arithmetic::div_mod::lemma_fundamental_div_mod_converse(k - 1, k, 0, k - 1);
        }
    } else if data.len() <= k {
        assert(num_blocks(len, k) == 1) by {
            vstd::arithmetic::div_mod::lemma_fundamental_div_mod_converse(len + k - 1, k, 1, len - 1);
        }
    } else {
        lemma_rs_encode_len(data.skip(k), ecc_len, k);
        let nbr = num_blocks(len - k, k);
        assert(num_blocks(len, k) == nbr + 1) by {
            vstd::arithmetic::div_mod::lemma_fundamental_div_mod(len - k + k - 1, k);
            vstd::arithmetic::div_mod::lemma_mod_bound(len - k + k - 1, k);
            assert(len + k - 1 == k * (nbr + 1) + (len - 1) % k) by (nonlinear_arith)
                requires
                    len - 1 == k * nbr + (len - 1) % k,
            ;
            vstd::arithmetic::div_mod::lemma_fundamental_div_mod_converse(
                len + k - 1,
                k,
                nbr + 1,
                (len - 1) % k,
            );
        }
        assert(255 * (nbr + 1) == 255 * nbr + 255) by (nonlinear_arith);
    }
}

/// Block `bi` of an encoding is the encoding of chunk `bi`.
proof fn lemma_rs_encode_block_at(data: Seq<u8>, ecc_len: int, k: int, bi: int)
    requires
        1 <= ecc_len <= 254,
        k == 255 - ecc_len,
        0 <= bi < num_blocks(data.len() as int, k),
    ensures
        spec_rs_encode(data, ecc_len, k).subrange(255 * bi, 255 * bi + 255) == rs_block(
            payload_chunk(data, k, bi),
            ecc_len,
        ),
    decreases bi,
{
    let len = data.len() as int;
    let enc = spec_rs_encode(data, ecc_len, k);
    lemma_rs_encode_len(data, ecc_len, k);
    lemma_payload_chunk_len(data, k, bi, num_blocks(len, k));
    if bi == 0 {
        let sub0 = data.subrange(
            k * 0,
            if k * (0 + 1) <= data.len() {
                k * (0 + 1)
            } else {
                data.len() as int
            },
        );
        assert(payload_chunk(data, k, 0) == pad_chunk(sub0, k));
        if len <= k {
            assert(enc.subrange(0, 255) =~= rs_block(pad_chunk(data, k), ecc_len));
            assert(sub0 =~= data);
            assert(payload_chunk(data, k, 0) == pad_chunk(data, k));
        } else {
            assert(enc.subrange(0, 255) =~= rs_block(data.take(k), ecc_len));
            assert(sub0 =~= data.take(k));
            assert(pad_chunk(data.take(k), k) =~= data.take(k));
            assert(payload_chunk(data, k, 0) == data.take(k));
        }
    } else {
        assert(len > k) by {
            if data.len() == 0 {
                vstd::arithmetic::div_mod::lemma_fundamental_div_mod_converse(k - 1, k, 0, k - 1);
            } else if len <= k {
                vstd::arithmetic::div_mod::lemma_fundamental_div_mod_converse(
                    len + k - 1,
                    k,
                    1,
                    len - 1,
                );
            }
        }
        let rest = data.skip(k);
        assert(num_blocks(rest.len() as int, k) == num_blocks(len, k) - 1) by {
            vstd::arithmetic::div_mod::lemma_fundamental_div_mod(len - k + k - 1, k);
            vstd::arithmetic::div_mod::lemma_mod_bound(len - k + k - 1, k);
            let nbr = num_blocks(len - k, k);
            assert(len + k - 1 == k * (nbr + 1) + (len - 1) % k) by (nonlinear_arith)
                requires
                    len - 1 == k * nbr + (len - 1) % k,
            ;
            vstd::arithmetic::div_mod::lemma_fundamental_div_mod_converse(
                len + k - 1,
                k,
                nbr + 1,
                (len - 1) % k,
            );
        }
        lemma_rs_encode_block_at(rest, ecc_len, k, bi - 1);
        lemma_rs_encode_len(rest, ecc_len, k);
        assert(255 * bi == 255 * (bi - 1) + 255 && 255 * bi + 255 == 255 * (bi - 1) + 510)
            by (nonlinear_arith);
        assert(enc.subrange(255 * bi, 255 * bi + 255) =~= spec_rs_encode(
            rest,
            ecc_len,
            k,
        ).subrange(255 * (bi - 1), 255 * (bi - 1) + 255));
        assert(payload_chunk(data, k, bi) =~= payload_chunk(rest, k, bi - 1)) by {
            assert(k * bi == k * (bi - 1) + k && k * (bi + 1) == k * bi + k) by (nonlinear_arith);
        }
    }
}

} // verus!
