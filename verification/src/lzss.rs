use vstd::prelude::*;
use crate::bytes::be_i16_at;
use crate::error::DatError;

verus! {

/// Size of the sliding dictionary window.
pub const DICT_SIZE: usize = 4096;

/// Where the dictionary write cursor starts for every compressed block.
pub const DICT_START: usize = 4078;

/// The byte the dictionary is filled with at the start of every block.
pub const DICT_FILL: u8 = 0x20;

/// A dictionary window as it stands at the start of every compressed
/// block: `DICT_SIZE` fill bytes.
pub open spec fn fresh_dict() -> Seq<u8> {
    Seq::new(DICT_SIZE as nat, |i: int| DICT_FILL)
}

/// One step of a cursor over the circular dictionary.
pub open spec fn wrap(i: int) -> int {
    if i >= DICT_SIZE {
        0
    } else {
        i
    }
}

/// `block_end - pos`, clamped at zero; the number of input bytes a block
/// decoder still has in front of it.
pub open spec fn gap(pos: int, block_end: int) -> int {
    if block_end - pos >= 0 {
        block_end - pos
    } else {
        0
    }
}

/// Copies `cnt` bytes inside the circular dictionary, from the read
/// cursor `idx` to the write cursor `off`, both advancing with
/// wraparound. Returns the bytes emitted, the new dictionary, and the
/// new write cursor.
pub open spec fn lzss_copy(dict: Seq<u8>, idx: int, off: int, cnt: nat) -> (Seq<u8>, Seq<u8>, int)
    decreases cnt,
{
    if cnt == 0 {
        (Seq::empty(), dict, off)
    } else {
        let b = dict[idx];
        let step = lzss_copy(dict.update(off, b), wrap(idx + 1), wrap(off + 1), (cnt - 1) as nat);
        (seq![b] + step.0, step.1, step.2)
    }
}

/// Decodes flag groups from `pos` until the block boundary `block_end`,
/// returning the position after the block and the bytes the block
/// produced from here on.
pub open spec fn lzss_block(input: Seq<u8>, pos: int, block_end: int, dict: Seq<u8>, off: int) -> Result<
    (int, Seq<u8>),
    DatError,
>
    decreases gap(pos, block_end), 0int, 0int,
{
    if pos >= block_end {
        Ok((pos, Seq::empty()))
    } else if pos >= input.len() {
        Err(DatError::ReadError)
    } else {
        lzss_bits(input, pos + 1, block_end, input[pos], 8, dict, off)
    }
}

/// Decodes the remaining `i` bits of the flag byte `f` (least
/// significant first), then continues with the next flag group.
pub open spec fn lzss_bits(
    input: Seq<u8>,
    pos: int,
    block_end: int,
    f: u8,
    i: int,
    dict: Seq<u8>,
    off: int,
) -> Result<(int, Seq<u8>), DatError>
    decreases gap(pos, block_end), 1int, i,
{
    if i <= 0 || pos >= block_end {
        lzss_block(input, pos, block_end, dict, off)
    } else if f & 1 != 0 {
        // literal byte
        if pos >= input.len() {
            Err(DatError::ReadError)
        } else {
            let b = input[pos];
            with_prefix2(
                seq![b],
                lzss_bits(input, pos + 1, block_end, f >> 1, i - 1, dict.update(off, b), wrap(off + 1)),
            )
        }
    } else {
        // back-reference: an index byte and a length byte
        if pos + 2 > input.len() {
            Err(DatError::ReadError)
        } else {
            let idx = (input[pos] as u16) | (((input[pos + 1] as u16) & 0xF0) << 4);
            let cnt = (input[pos + 1] & 0x0F) + 3;
            let step = lzss_copy(dict, idx as int, off, cnt as nat);
            with_prefix2(
                step.0,
                lzss_bits(input, pos + 2, block_end, f >> 1, i - 1, step.1, step.2),
            )
        }
    }
}

/// Prepends `prefix` to the payload of a decode result.
pub open spec fn with_prefix(prefix: Seq<u8>, r: Result<Seq<u8>, DatError>) -> Result<
    Seq<u8>,
    DatError,
> {
    match r {
        Ok(rest) => Ok(prefix + rest),
        Err(e) => Err(e),
    }
}

/// Prepends `prefix` to the payload of a block decode result.
pub open spec fn with_prefix2(prefix: Seq<u8>, r: Result<(int, Seq<u8>), DatError>) -> Result<
    (int, Seq<u8>),
    DatError,
> {
    match r {
        Ok((p, rest)) => Ok((p, prefix + rest)),
        Err(e) => Err(e),
    }
}

/// The bytes produced by the record at `pos` and everything after it.
/// A record is a signed 16-bit token `n`: negative means `|n|` literal
/// bytes follow, positive means an `n`-byte compressed block follows,
/// and zero is a corrupt stream.
pub open spec fn lzss_records(input: Seq<u8>, pos: int) -> Result<Seq<u8>, DatError>
    decreases gap(pos, input.len() as int),
    via lzss_records_decreases
{
    if pos >= input.len() {
        Ok(Seq::empty())
    } else if pos + 2 > input.len() {
        Err(DatError::ReadError)
    } else {
        let n = be_i16_at(input, pos);
        if n == 0 {
            Err(DatError::LZSSError)
        } else if n < 0 {
            let cnt = -(n as int);
            if pos + 2 + cnt > input.len() {
                Err(DatError::ReadError)
            } else {
                with_prefix(
                    input.subrange(pos + 2, pos + 2 + cnt),
                    lzss_records(input, pos + 2 + cnt),
                )
            }
        } else {
            match lzss_block(input, pos + 2, pos + 2 + n, fresh_dict(), DICT_START as int) {
                Ok((p2, produced)) => with_prefix(produced, lzss_records(input, p2)),
                Err(e) => Err(e),
            }
        }
    }
}

#[via_fn]
proof fn lzss_records_decreases(input: Seq<u8>, pos: int) {
    if pos < input.len() && pos + 2 <= input.len() {
        let n = be_i16_at(input, pos);
        if n > 0 {
            lemma_block_bounds(input, pos + 2, pos + 2 + n, fresh_dict(), DICT_START as int);
        }
    }
}

/// What an LZSS stream decodes to, from its first byte to its declared
/// end.
pub open spec fn lzss_decode(input: Seq<u8>) -> Result<Seq<u8>, DatError> {
    lzss_records(input, 0)
}

/// On success, a block decoder always stops at or past the block
/// boundary, never runs past the input, and never moves backwards.
pub proof fn lemma_block_bounds(input: Seq<u8>, pos: int, block_end: int, dict: Seq<u8>, off: int)
    requires
        pos <= input.len(),
    ensures
        lzss_block(input, pos, block_end, dict, off) matches Ok((p, o)) ==> pos <= p <= input.len()
            && block_end <= p,
    decreases gap(pos, block_end), 0int, 0int,
{
    if pos >= block_end {
    } else if pos >= input.len() {
    } else {
        lemma_bits_bounds(input, pos + 1, block_end, input[pos], 8, dict, off);
    }
}

/// Composing prefixes on the outside is the same as composing them on
/// the inside.
proof fn lemma_wp_assoc(a: Seq<u8>, b: Seq<u8>, r: Result<Seq<u8>, DatError>)
    ensures
        with_prefix(a, with_prefix(b, r)) == with_prefix(a + b, r),
{
    match r {
        Ok(rest) => {
            assert(a + (b + rest) =~= (a + b) + rest);
        },
        Err(_) => {},
    }
}

/// The block-level counterpart of `lemma_wp_assoc`.
proof fn lemma_wp2_assoc(a: Seq<u8>, b: Seq<u8>, r: Result<(int, Seq<u8>), DatError>)
    ensures
        with_prefix2(a, with_prefix2(b, r)) == with_prefix2(a + b, r),
{
    match r {
        Ok((p, rest)) => {
            assert(a + (b + rest) =~= (a + b) + rest);
        },
        Err(_) => {},
    }
}

/// A dictionary copy emits exactly `cnt` bytes, keeps the dictionary
/// size, and leaves the write cursor inside the window.
proof fn lemma_copy_shape(dict: Seq<u8>, idx: int, off: int, cnt: nat)
    requires
        dict.len() == DICT_SIZE,
        0 <= off < DICT_SIZE,
    ensures
        lzss_copy(dict, idx, off, cnt).0.len() == cnt,
        lzss_copy(dict, idx, off, cnt).1.len() == DICT_SIZE,
        0 <= lzss_copy(dict, idx, off, cnt).2 < DICT_SIZE,
    decreases cnt,
{
    if cnt > 0 {
        let b = dict[idx];
        lemma_copy_shape(dict.update(off, b), wrap(idx + 1), wrap(off + 1), (cnt - 1) as nat);
    }
}

/// The 12-bit dictionary index assembled from a back-reference is always
/// inside the window, and the repeat count field is below 16.
proof fn lemma_backref_fields(ib: u8, l: u8)
    ensures
        ((ib as u16) | (((l as u16) & 0xF0) << 4)) < 4096,
        (l & 0x0F) < 16,
{
    assert(((ib as u16) | (((l as u16) & 0xF0) << 4)) < 4096) by (bit_vector);
    assert((l & 0x0F) < 16) by (bit_vector);
}

/// The same bounds for the middle of a flag group.
pub proof fn lemma_bits_bounds(
    input: Seq<u8>,
    pos: int,
    block_end: int,
    f: u8,
    i: int,
    dict: Seq<u8>,
    off: int,
)
    requires
        pos <= input.len(),
    ensures
        lzss_bits(input, pos, block_end, f, i, dict, off) matches Ok((p, o)) ==> pos <= p
            <= input.len() && block_end <= p,
    decreases gap(pos, block_end), 1int, i,
{
    if i <= 0 || pos >= block_end {
        lemma_block_bounds(input, pos, block_end, dict, off);
    } else if f & 1 != 0 {
        if pos < input.len() {
            lemma_bits_bounds(
                input,
                pos + 1,
                block_end,
                f >> 1,
                i - 1,
                dict.update(off, input[pos]),
                wrap(off + 1),
            );
        }
    } else {
        if pos + 2 <= input.len() {
            let idx = (input[pos] as u16) | (((input[pos + 1] as u16) & 0xF0) << 4);
            let cnt = (input[pos + 1] & 0x0F) + 3;
            let step = lzss_copy(dict, idx as int, off, cnt as nat);
            lemma_bits_bounds(input, pos + 2, block_end, f >> 1, i - 1, step.1, step.2);
        }
    }
}


/// A fresh dictionary window, ready for one compressed block.
fn make_dict() -> (d: Vec<u8>)
    ensures
        d@ == fresh_dict(),
{
    let mut d: Vec<u8> = Vec::new();
    let mut i: usize = 0;
    while i < DICT_SIZE
        invariant
            i <= DICT_SIZE,
            d@ =~= Seq::new(i as nat, |j: int| DICT_FILL),
        decreases DICT_SIZE - i,
    {
        d.push(DICT_FILL);
        i = i + 1;
    }
    proof {
        assert(d@ =~= fresh_dict());
    }
    d
}

/// Decodes one compressed block that spans `[start, block_end)` of the
/// input, appending the decoded bytes to `out`. Returns the input
/// position after the block.
#[verifier::loop_isolation(false)]
fn decode_block(data: &Vec<u8>, start: usize, block_end: usize, out: &mut Vec<u8>) -> (r: Result<
    usize,
    DatError,
>)
    requires
        start <= data@.len(),
    ensures
        (r matches Ok(p2) ==> lzss_block(
            data@,
            start as int,
            block_end as int,
            fresh_dict(),
            DICT_START as int,
        ) matches Ok((p, produced)) && p2 == p && final(out)@ == old(out)@ + produced),
        (r matches Err(e) ==> lzss_block(
            data@,
            start as int,
            block_end as int,
            fresh_dict(),
            DICT_START as int,
        ) == Err::<(int, Seq<u8>), DatError>(e)),
{
    let ghost res0 = lzss_block(
        data@,
        start as int,
        block_end as int,
        fresh_dict(),
        DICT_START as int,
    );
    let ghost out0 = out@;
    let ghost mut prod: Seq<u8> = Seq::empty();
    let mut dict = make_dict();
    let mut off: usize = DICT_START;
    let mut pos = start;
    while pos < block_end
        invariant
            start <= pos <= data@.len(),
            dict@.len() == DICT_SIZE,
            off < DICT_SIZE,
            out@ == out0 + prod,
            res0 == with_prefix2(
                prod,
                lzss_block(data@, pos as int, block_end as int, dict@, off as int),
            ),
        decreases gap(pos as int, block_end as int),
    {
        if pos >= data.len() {
            proof {
                assert(lzss_block(data@, pos as int, block_end as int, dict@, off as int)
                    == Err::<(int, Seq<u8>), DatError>(DatError::ReadError));
            }
            return Err(DatError::ReadError);
        }
        let ghost pos_flag = pos as int;
        let mut f = data[pos];
        pos = pos + 1;
        let mut i: u8 = 0;
        proof {
            assert(lzss_block(data@, pos as int - 1, block_end as int, dict@, off as int)
                == lzss_bits(data@, pos as int, block_end as int, f, 8int, dict@, off as int));
        }
        while i < 8 && pos < block_end
            invariant
                start <= pos <= data@.len(),
                pos > pos_flag,
                i <= 8,
                dict@.len() == DICT_SIZE,
                off < DICT_SIZE,
                out@ == out0 + prod,
                res0 == with_prefix2(
                    prod,
                    lzss_bits(
                        data@,
                        pos as int,
                        block_end as int,
                        f,
                        8 - i as int,
                        dict@,
                        off as int,
                    ),
                ),
            decreases gap(pos as int, block_end as int),
        {
            let ghost bits_pre = lzss_bits(
                data@,
                pos as int,
                block_end as int,
                f,
                8 - i as int,
                dict@,
                off as int,
            );
            if f & 1 != 0 {
                // literal byte
                if pos >= data.len() {
                    proof {
                        assert(bits_pre == Err::<(int, Seq<u8>), DatError>(DatError::ReadError));
                    }
                    return Err(DatError::ReadError);
                }
                let b = data[pos];
                pos = pos + 1;
                out.push(b);
                dict.set(off, b);
                off = if off + 1 >= DICT_SIZE {
                    0
                } else {
                    off + 1
                };
                proof {
                    let bits_post = lzss_bits(
                        data@,
                        pos as int,
                        block_end as int,
                        f >> 1,
                        8 - (i + 1) as int,
                        dict@,
                        off as int,
                    );
                    assert(bits_pre == with_prefix2(seq![b], bits_post));
                    lemma_wp2_assoc(prod, seq![b], bits_post);
                    prod = prod + seq![b];
                    assert(out@ =~= out0 + prod);
                }
            } else {
                // back-reference
                if pos >= data.len() || data.len() - pos < 2 {
                    proof {
                        assert(bits_pre == Err::<(int, Seq<u8>), DatError>(DatError::ReadError));
                    }
                    return Err(DatError::ReadError);
                }
                let ib = data[pos];
                let l = data[pos + 1];
                pos = pos + 2;
                proof {
                    lemma_backref_fields(ib, l);
                }
                let idx16: u16 = (ib as u16) | (((l as u16) & 0xF0) << 4);
                let cnt: u8 = (l & 0x0F) + 3;
                let mut idx: usize = idx16 as usize;
                let ghost dict_c0 = dict@;
                let ghost idx_c0 = idx as int;
                let ghost off_c0 = off as int;
                let ghost full = lzss_copy(dict_c0, idx_c0, off_c0, cnt as nat);
                proof {
                    lemma_copy_shape(dict_c0, idx_c0, off_c0, cnt as nat);
                }
                let ghost prod_c0 = prod;
                proof {
                    assert(full.0.skip(0) =~= full.0);
                    assert(prod_c0 + full.0.take(0) =~= prod_c0);
                }
                let mut k: u8 = 0;
                while k < cnt
                    invariant
                        k <= cnt,
                        idx < DICT_SIZE,
                        off < DICT_SIZE,
                        dict@.len() == DICT_SIZE,
                        full.0.len() == cnt,
                        out@ == out0 + prod,
                        prod == prod_c0 + full.0.take(k as int),
                        lzss_copy(dict@, idx as int, off as int, (cnt - k) as nat) == (
                            full.0.skip(k as int),
                            full.1,
                            full.2,
                        ),
                    decreases cnt - k,
                {
                    let b = dict[idx];
                    out.push(b);
                    dict.set(off, b);
                    proof {
                        let rest = lzss_copy(
                            dict@,
                            wrap(idx + 1),
                            wrap(off + 1),
                            (cnt - k - 1) as nat,
                        );
                        assert(full.0.skip(k as int) == seq![b] + rest.0);
                        assert(full.0.skip(k as int)[0] == b);
                        assert(full.0[k as int] == b);
                        assert(full.0.skip(k as int + 1) =~= rest.0) by {
                            assert(forall|j: int|
                                0 <= j < rest.0.len() ==> #[trigger] full.0.skip(k as int + 1)[j]
                                    == (seq![b] + rest.0)[j + 1]);
                        }
                        assert(full.0.take(k as int + 1) =~= full.0.take(k as int) + seq![b]);
                        prod = prod + seq![b];
                        assert(out@ =~= out0 + prod);
                        assert(prod =~= prod_c0 + full.0.take(k as int + 1));
                    }
                    idx = if idx + 1 >= DICT_SIZE {
                        0
                    } else {
                        idx + 1
                    };
                    off = if off + 1 >= DICT_SIZE {
                        0
                    } else {
                        off + 1
                    };
                    k = k + 1;
                }
                proof {
                    assert(full.0.take(cnt as int) =~= full.0);
                    assert(dict@ == full.1);
                    assert(off as int == full.2);
                    let bits_post = lzss_bits(
                        data@,
                        pos as int,
                        block_end as int,
                        f >> 1,
                        8 - (i + 1) as int,
                        dict@,
                        off as int,
                    );
                    assert(bits_pre == with_prefix2(full.0, bits_post));
                    lemma_wp2_assoc(prod_c0, full.0, bits_post);
                }
            }
            i = i + 1;
            f = f >> 1;
        }
    }
    proof {
        assert(lzss_block(data@, pos as int, block_end as int, dict@, off as int) == Ok::<
            (int, Seq<u8>),
            DatError,
        >((pos as int, Seq::empty())));
        assert(prod + Seq::<u8>::empty() =~= prod);
    }
    Ok(pos)
}

/// Decodes a whole LZSS-compressed entry. `output_size` is the entry's
/// declared decompressed length; a stream that decodes to any other
/// length is rejected as corrupt rather than silently truncated or
/// padded.
#[verifier::loop_isolation(false)]
pub fn decompress_lzss(input: &Vec<u8>, output_size: usize) -> (r: Result<Vec<u8>, DatError>)
    requires
        input@.len() + 0x10000 <= usize::MAX,
    ensures
        (match lzss_decode(input@) {
            Ok(o) => if o.len() == output_size {
                r matches Ok(v) && v@ == o
            } else {
                r == Err::<Vec<u8>, DatError>(DatError::LZSSError)
            },
            Err(e) => r == Err::<Vec<u8>, DatError>(e),
        }),
{
    let ghost res0 = lzss_decode(input@);
    let mut out: Vec<u8> = Vec::new();
    let mut pos: usize = 0;
    while pos < input.len()
        invariant
            pos <= input@.len(),
            input@.len() + 0x10000 <= usize::MAX,
            res0 == with_prefix(out@, lzss_records(input@, pos as int)),
        decreases input@.len() - pos,
    {
        let ghost rec_pre = lzss_records(input@, pos as int);
        let n = match crate::bytes::read_be_i16(input, pos) {
            Some(n) => n,
            None => {
                proof {
                    assert(rec_pre == Err::<Seq<u8>, DatError>(DatError::ReadError));
                }
                return Err(DatError::ReadError);
            },
        };
        if n == 0 {
            proof {
                assert(rec_pre == Err::<Seq<u8>, DatError>(DatError::LZSSError));
            }
            return Err(DatError::LZSSError);
        } else if n < 0 {
            let cnt = (-(n as i32)) as usize;
            let mut lit = match crate::bytes::read_slice(input, pos + 2, cnt) {
                Some(v) => v,
                None => {
                    proof {
                        assert(rec_pre == Err::<Seq<u8>, DatError>(DatError::ReadError));
                    }
                    return Err(DatError::ReadError);
                },
            };
            let ghost litview = lit@;
            let ghost out_l0 = out@;
            out.append(&mut lit);
            proof {
                let rec_post = lzss_records(input@, pos as int + 2 + cnt as int);
                assert(rec_pre == with_prefix(litview, rec_post));
                lemma_wp_assoc(out_l0, litview, rec_post);
            }
            pos = pos + 2 + cnt;
        } else {
            let block_end = pos + 2 + (n as usize);
            let ghost out_b0 = out@;
            let r = decode_block(input, pos + 2, block_end, &mut out);
            match r {
                Ok(p2) => {
                    proof {
                        lemma_block_bounds(
                            input@,
                            pos as int + 2,
                            block_end as int,
                            fresh_dict(),
                            DICT_START as int,
                        );
                        let blk = lzss_block(
                            input@,
                            pos as int + 2,
                            block_end as int,
                            fresh_dict(),
                            DICT_START as int,
                        );
                        let produced = blk->Ok_0.1;
                        let rec_post = lzss_records(input@, p2 as int);
                        assert(rec_pre == with_prefix(produced, rec_post));
                        lemma_wp_assoc(out_b0, produced, rec_post);
                    }
                    pos = p2;
                },
                Err(e) => {
                    return Err(e);
                },
            }
        }
    }
    proof {
        assert(lzss_records(input@, pos as int) == Ok::<Seq<u8>, DatError>(Seq::empty()));
        assert(out@ + Seq::<u8>::empty() =~= out@);
    }
    if out.len() == output_size {
        Ok(out)
    } else {
        Err(DatError::LZSSError)
    }
}

} // verus!
