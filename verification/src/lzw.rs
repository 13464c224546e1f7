//! The LZW decompressor: consumes an image block's data sub-blocks and
//! emits one palette index per pixel through a variable-code-width
//! dictionary algorithm. The dictionary is capped at 4096 entries and
//! codes never grow beyond 12 bits. A stream that ends early (even cut
//! mid-sub-block), an end-of-information code, or a code beyond the
//! next free slot all terminate decoding gracefully; the output is then
//! zero-padded. Image data never aborts the parse.

use vstd::arithmetic::power2::pow2;
use vstd::prelude::*;

use crate::parser::Decoder;

verus! {

/// The dictionary capacity: with 12-bit codes at most 4096 are usable.
pub const MAX_STACK_SIZE: usize = 4096;

/// Saturated count of unread bytes, the parser's termination measure.
pub open spec fn remaining_bytes(len: int, offset: int) -> int {
    if offset <= len {
        len - offset
    } else {
        0
    }
}

/// Where skipping image data sub-blocks from `o` ends: past each length
/// byte and as much of its block as the input still holds, stopping
/// after a zero length byte or at the end of input. Never fails.
pub open spec fn spec_skip_image_data(b: Seq<u8>, o: int) -> int
    decreases remaining_bytes(b.len() as int, o),
{
    if o < 0 || o >= b.len() {
        o
    } else if b[o] == 0 {
        o + 1
    } else {
        let take = if b[o] as int <= b.len() - (o + 1) {
            b[o] as int
        } else {
            b.len() - (o + 1)
        };
        spec_skip_image_data(b, o + 1 + take)
    }
}

/// The complete state of the LZW decoding machine: the input cursor,
/// the current sub-block, the bit accumulator, the code width, the
/// dictionary (predecessor code and last byte per slot), the previous
/// code, the pixel stack and the indices emitted so far.
pub struct LzwMachine {
    pub offset: int,
    pub block_pos: int,
    pub block_rem: int,
    pub datum: int,
    pub bits: int,
    pub code_size: int,
    pub available: int,
    pub prefix: Seq<u16>,
    pub suffix: Seq<u8>,
    pub old_code: Option<int>,
    pub first: u8,
    pub stack: Seq<u8>,
    pub out: Seq<u8>,
}

/// The emitted indices, zero-padded to `npix`.
pub open spec fn lzw_pad(out: Seq<u8>, npix: int) -> Seq<u8> {
    if out.len() >= npix {
        out
    } else {
        out + Seq::new((npix - out.len()) as nat, |j: int| 0u8)
    }
}

/// The view of the running previous code.
pub open spec fn opt_code(o: Option<usize>) -> Option<int> {
    match o {
        Option::Some(c) => Option::Some(c as int),
        Option::None => Option::None,
    }
}

/// The bytes a dictionary walk from `cur` pushes (each slot's last byte,
/// following predecessor codes down to a literal), and the literal code
/// the walk ends on. Slots outside the dictionary read as zero.
pub open spec fn lzw_chain(prefix: Seq<u16>, suffix: Seq<u8>, clear: int, cur: int) -> (
    Seq<u8>,
    int,
)
    decreases cur,
{
    if cur <= clear {
        (Seq::<u8>::empty(), cur)
    } else {
        let s = if cur < suffix.len() {
            suffix[cur]
        } else {
            0u8
        };
        let nxt = if cur < prefix.len() {
            prefix[cur] as int
        } else {
            0int
        };
        if 0 <= nxt < cur {
            let rest = lzw_chain(prefix, suffix, clear, nxt);
            (seq![s] + rest.0, rest.1)
        } else {
            (seq![s], nxt)
        }
    }
}

/// One complete run of the LZW machine: emits indices until `npix` are
/// out, the stream ends (end-of-information, a code beyond the next
/// free slot, a zero-length or missing sub-block), always zero-padding
/// the result. Returns the indices and where the cursor lands.
pub open spec fn lzw_run(b: Seq<u8>, min_cs: int, clear: int, npix: int, m: LzwMachine) -> (
    Seq<u8>,
    int,
)
    decreases npix - m.out.len(), remaining_bytes(b.len() as int, m.offset), m.block_rem, m.bits,
{
    if m.out.len() >= npix {
        (m.out, m.offset)
    } else if m.stack.len() > 0 {
        lzw_run(
            b,
            min_cs,
            clear,
            npix,
            LzwMachine { stack: m.stack.drop_last(), out: m.out.push(m.stack.last()), ..m },
        )
    } else if m.bits < m.code_size {
        if m.block_rem <= 0 {
            if m.offset < 0 || m.offset >= b.len() {
                (lzw_pad(m.out, npix), m.offset)
            } else if b[m.offset] == 0 {
                (lzw_pad(m.out, npix), m.offset + 1)
            } else {
                let count = b[m.offset] as int;
                let take = if count <= b.len() - (m.offset + 1) {
                    count
                } else {
                    b.len() - (m.offset + 1)
                };
                lzw_run(
                    b,
                    min_cs,
                    clear,
                    npix,
                    LzwMachine {
                        block_pos: m.offset + 1,
                        block_rem: take,
                        offset: m.offset + 1 + take,
                        ..m
                    },
                )
            }
        } else {
            let v = if 0 <= m.block_pos < b.len() {
                b[m.block_pos] as int
            } else {
                0int
            };
            lzw_run(
                b,
                min_cs,
                clear,
                npix,
                LzwMachine {
                    datum: m.datum + v * pow2(
                        (if m.bits >= 0 {
                            m.bits
                        } else {
                            0
                        }) as nat,
                    ),
                    bits: m.bits + 8,
                    block_pos: m.block_pos + 1,
                    block_rem: m.block_rem - 1,
                    ..m
                },
            )
        }
    } else if m.code_size <= 0 {
        (lzw_pad(m.out, npix), m.offset)
    } else {
        let w = pow2(m.code_size as nat) as int;
        let code = m.datum % w;
        let datum2 = m.datum / w;
        let bits2 = m.bits - m.code_size;
        if code > m.available || code == clear + 1 {
            (lzw_pad(m.out, npix), m.offset)
        } else if code == clear {
            lzw_run(
                b,
                min_cs,
                clear,
                npix,
                LzwMachine {
                    datum: datum2,
                    bits: bits2,
                    code_size: min_cs + 1,
                    available: clear + 2,
                    prefix: m.prefix.take(clear + 2),
                    suffix: m.suffix.take(clear + 2),
                    old_code: Option::None,
                    ..m
                },
            )
        } else if m.old_code is None {
            let s = if 0 <= code < m.suffix.len() {
                m.suffix[code]
            } else {
                0u8
            };
            lzw_run(
                b,
                min_cs,
                clear,
                npix,
                LzwMachine {
                    datum: datum2,
                    bits: bits2,
                    out: m.out.push(s),
                    first: s,
                    old_code: Option::Some(code),
                    ..m
                },
            )
        } else {
            let oc = m.old_code->0;
            let kw = code == m.available;
            let start = if kw {
                oc
            } else {
                code
            };
            let chain = lzw_chain(m.prefix, m.suffix, clear, start);
            let nf = if 0 <= chain.1 < m.suffix.len() {
                m.suffix[chain.1]
            } else {
                0u8
            };
            let stack2 = (if kw {
                seq![m.first]
            } else {
                Seq::<u8>::empty()
            }) + chain.0 + seq![nf];
            let install = m.available < 4096 && 0 <= oc < m.available;
            let av2 = if install {
                m.available + 1
            } else {
                m.available
            };
            let grow = install && av2 < 4096 && av2 % w == 0;
            lzw_run(
                b,
                min_cs,
                clear,
                npix,
                LzwMachine {
                    datum: datum2,
                    bits: bits2,
                    stack: stack2,
                    first: nf,
                    prefix: if install {
                        m.prefix.push(oc as u16)
                    } else {
                        m.prefix
                    },
                    suffix: if install {
                        m.suffix.push(nf)
                    } else {
                        m.suffix
                    },
                    available: av2,
                    code_size: if grow {
                        m.code_size + 1
                    } else {
                        m.code_size
                    },
                    old_code: Option::Some(code),
                    ..m
                },
            )
        }
    }
}

/// The machine as the decoder starts it: cursor on the first sub-block
/// length byte, empty accumulator, the dictionary seeded with one
/// literal slot per color code plus the clear and end slots.
pub open spec fn lzw_init(min_cs: int, clear: int, offset: int) -> LzwMachine {
    LzwMachine {
        offset,
        block_pos: 0,
        block_rem: 0,
        datum: 0,
        bits: 0,
        code_size: min_cs + 1,
        available: clear + 2,
        prefix: Seq::new((clear + 2) as nat, |i: int| 0u16),
        suffix: Seq::new(
            (clear + 2) as nat,
            |i: int|
                if i < clear {
                    (i % 256) as u8
                } else {
                    0u8
                },
        ),
        old_code: Option::None,
        first: 0,
        stack: Seq::<u8>::empty(),
        out: Seq::<u8>::empty(),
    }
}

/// What decoding the image data at `offset` yields: the `npix` indices
/// and the final cursor. A minimum code size at or above 12 marks the
/// stream as corrupt: all indices are zero and its sub-blocks are
/// skipped.
pub open spec fn spec_lzw_decode(b: Seq<u8>, offset: int, min_cs: u8, npix: int) -> (
    Seq<u8>,
    int,
) {
    if min_cs >= 12 {
        (lzw_pad(Seq::<u8>::empty(), npix), spec_skip_image_data(b, offset))
    } else {
        lzw_run(
            b,
            min_cs as int,
            pow2(min_cs as nat) as int,
            npix,
            lzw_init(min_cs as int, pow2(min_cs as nat) as int, offset),
        )
    }
}

/// The machine never moves its cursor backward.
pub proof fn lemma_lzw_run_offset_ge(b: Seq<u8>, min_cs: int, clear: int, npix: int, m: LzwMachine)
    ensures
        lzw_run(b, min_cs, clear, npix, m).1 >= m.offset,
    decreases npix - m.out.len(), remaining_bytes(b.len() as int, m.offset), m.block_rem, m.bits,
{
    if m.out.len() >= npix {
    } else if m.stack.len() > 0 {
        lemma_lzw_run_offset_ge(
            b,
            min_cs,
            clear,
            npix,
            LzwMachine { stack: m.stack.drop_last(), out: m.out.push(m.stack.last()), ..m },
        );
    } else if m.bits < m.code_size {
        if m.block_rem <= 0 {
            if m.offset < 0 || m.offset >= b.len() {
            } else if b[m.offset] == 0 {
            } else {
                let count = b[m.offset] as int;
                let take = if count <= b.len() - (m.offset + 1) {
                    count
                } else {
                    b.len() - (m.offset + 1)
                };
                lemma_lzw_run_offset_ge(
                    b,
                    min_cs,
                    clear,
                    npix,
                    LzwMachine {
                        block_pos: m.offset + 1,
                        block_rem: take,
                        offset: m.offset + 1 + take,
                        ..m
                    },
                );
            }
        } else {
            let v = if 0 <= m.block_pos < b.len() {
                b[m.block_pos] as int
            } else {
                0int
            };
            lemma_lzw_run_offset_ge(
                b,
                min_cs,
                clear,
                npix,
                LzwMachine {
                    datum: m.datum + v * pow2(
                        (if m.bits >= 0 {
                            m.bits
                        } else {
                            0
                        }) as nat,
                    ),
                    bits: m.bits + 8,
                    block_pos: m.block_pos + 1,
                    block_rem: m.block_rem - 1,
                    ..m
                },
            );
        }
    } else if m.code_size <= 0 {
    } else {
        let w = pow2(m.code_size as nat) as int;
        let code = m.datum % w;
        let datum2 = m.datum / w;
        let bits2 = m.bits - m.code_size;
        if code > m.available || code == clear + 1 {
        } else if code == clear {
            lemma_lzw_run_offset_ge(
                b,
                min_cs,
                clear,
                npix,
                LzwMachine {
                    datum: datum2,
                    bits: bits2,
                    code_size: min_cs + 1,
                    available: clear + 2,
                    prefix: m.prefix.take(clear + 2),
                    suffix: m.suffix.take(clear + 2),
                    old_code: Option::None,
                    ..m
                },
            );
        } else if m.old_code is None {
            let s = if 0 <= code < m.suffix.len() {
                m.suffix[code]
            } else {
                0u8
            };
            lemma_lzw_run_offset_ge(
                b,
                min_cs,
                clear,
                npix,
                LzwMachine {
                    datum: datum2,
                    bits: bits2,
                    out: m.out.push(s),
                    first: s,
                    old_code: Option::Some(code),
                    ..m
                },
            );
        } else {
            let oc = m.old_code->0;
            let kw = code == m.available;
            let start = if kw {
                oc
            } else {
                code
            };
            let chain = lzw_chain(m.prefix, m.suffix, clear, start);
            let nf = if 0 <= chain.1 < m.suffix.len() {
                m.suffix[chain.1]
            } else {
                0u8
            };
            let stack2 = (if kw {
                seq![m.first]
            } else {
                Seq::<u8>::empty()
            }) + chain.0 + seq![nf];
            let install = m.available < 4096 && 0 <= oc < m.available;
            let av2 = if install {
                m.available + 1
            } else {
                m.available
            };
            let grow = install && av2 < 4096 && av2 % w == 0;
            lemma_lzw_run_offset_ge(
                b,
                min_cs,
                clear,
                npix,
                LzwMachine {
                    datum: datum2,
                    bits: bits2,
                    stack: stack2,
                    first: nf,
                    prefix: if install {
                        m.prefix.push(oc as u16)
                    } else {
                        m.prefix
                    },
                    suffix: if install {
                        m.suffix.push(nf)
                    } else {
                        m.suffix
                    },
                    available: av2,
                    code_size: if grow {
                        m.code_size + 1
                    } else {
                        m.code_size
                    },
                    old_code: Option::Some(code),
                    ..m
                },
            );
        }
    }
}

/// Skipping image data never moves the cursor backward.
pub proof fn lemma_skip_image_data_ge(b: Seq<u8>, o: int)
    ensures
        spec_skip_image_data(b, o) >= o,
    decreases remaining_bytes(b.len() as int, o),
{
    if o < 0 || o >= b.len() {
    } else if b[o] == 0 {
    } else {
        let take = if b[o] as int <= b.len() - (o + 1) {
            b[o] as int
        } else {
            b.len() - (o + 1)
        };
        lemma_skip_image_data_ge(b, o + 1 + take);
    }
}

/// Decoding image data moves the cursor only forward.
pub proof fn lemma_spec_lzw_decode_ge(b: Seq<u8>, offset: int, min_cs: u8, npix: int)
    ensures
        spec_lzw_decode(b, offset, min_cs, npix).1 >= offset,
{
    if min_cs >= 12 {
        lemma_skip_image_data_ge(b, offset);
    } else {
        lemma_lzw_run_offset_ge(
            b,
            min_cs as int,
            pow2(min_cs as nat) as int,
            npix,
            lzw_init(min_cs as int, pow2(min_cs as nat) as int, offset),
        );
    }
}

impl Decoder {
    /// Decode the LZW-compressed data sub-blocks at `*offset` into
    /// exactly `npix` palette indices: precisely what `spec_lzw_decode`
    /// says, with the cursor landing where it says.
    pub(crate) fn decode_index_stream(
        contents: &Vec<u8>,
        offset: &mut usize,
        lzw_minimum_code_size: u8,
        npix: usize,
    ) -> (r: Vec<u8>)
        ensures
            *final(offset) >= *old(offset),
            r@.len() == npix,
            r@ == spec_lzw_decode(
                contents@,
                *old(offset) as int,
                lzw_minimum_code_size,
                npix as int,
            ).0,
            *final(offset) as int == spec_lzw_decode(
                contents@,
                *old(offset) as int,
                lzw_minimum_code_size,
                npix as int,
            ).1,
    {
        let ghost b = contents@;
        let ghost off0 = *offset as int;
        let mut index_stream: Vec<u8> = Vec::new();
        if lzw_minimum_code_size >= 12 {
            Decoder::skip_image_data(offset, contents);
            while index_stream.len() < npix
                invariant
                    index_stream@.len() <= npix,
                    forall|k: int| 0 <= k < index_stream@.len() ==> index_stream@[k] == 0u8,
                decreases npix - index_stream@.len(),
            {
                index_stream.push(0);
            }
            proof {
                assert(index_stream@ =~= lzw_pad(Seq::<u8>::empty(), npix as int));
            }
            return index_stream;
        }

        let clear_code: usize = 1usize << (lzw_minimum_code_size as usize);
        proof {
            vstd::arithmetic::power2::lemma2_to64();
            if (lzw_minimum_code_size as nat) < 12 {
                vstd::arithmetic::power2::lemma_pow2_strictly_increases(
                    lzw_minimum_code_size as nat,
                    12,
                );
            }
            vstd::bits::lemma_usize_shl_is_mul(1, lzw_minimum_code_size as usize);
        }
        let ghost min_i = lzw_minimum_code_size as int;
        let ghost clear_i = clear_code as int;
        let ghost npix_i = npix as int;
        proof {
            assert(clear_i == pow2(lzw_minimum_code_size as nat) as int);
            assert(1 <= clear_i <= 2048);
        }
        let eoi_code: usize = clear_code + 1;
        let mut available: usize = clear_code + 2;
        let mut old_code: Option<usize> = None;
        let mut code_size: u32 = lzw_minimum_code_size as u32 + 1;
        assert((1u32 << code_size) >= 2 && 0u32 < (1u32 << 0u32)) by (bit_vector)
            requires
                1 <= code_size <= 12,
        ;
        let mut code_mask: u32 = (1u32 << code_size) - 1;

        let mut prefix: Vec<u16> = Vec::new();
        let mut suffix: Vec<u8> = Vec::new();
        let mut seed: usize = 0;
        while seed < clear_code
            invariant
                seed <= clear_code,
                clear_code <= 2048,
                prefix@.len() == seed,
                suffix@.len() == seed,
                forall|k: int| 0 <= k < seed ==> (#[trigger] prefix@[k]) == 0u16,
                forall|k: int| 0 <= k < seed ==> (#[trigger] suffix@[k]) == (k % 256) as u8,
            decreases clear_code - seed,
        {
            prefix.push(0);
            suffix.push((seed % 256) as u8);
            seed = seed + 1;
        }
        prefix.push(0);
        prefix.push(0);
        suffix.push(0);
        suffix.push(0);

        let mut pixel_stack: Vec<u8> = Vec::new();
        let mut first: u8 = 0;
        let mut datum: u32 = 0;
        let mut bits: u32 = 0;
        let mut block_pos: usize = 0;
        let mut block_rem: usize = 0;

        let ghost m0 = lzw_init(min_i, clear_i, off0);
        let ghost result = lzw_run(b, min_i, clear_i, npix_i, m0);
        proof {
            assert(prefix@ =~= m0.prefix);
            assert(suffix@ =~= m0.suffix);
        }
        while index_stream.len() < npix
            invariant_except_break
                lzw_run(
                    b,
                    min_i,
                    clear_i,
                    npix_i,
                    (LzwMachine {
                        offset: *offset as int,
                        block_pos: block_pos as int,
                        block_rem: block_rem as int,
                        datum: datum as int,
                        bits: bits as int,
                        code_size: code_size as int,
                        available: available as int,
                        prefix: prefix@,
                        suffix: suffix@,
                        old_code: opt_code(old_code),
                        first: first,
                        stack: pixel_stack@,
                        out: index_stream@,
                    }),
                ) == result,
            invariant
                lzw_minimum_code_size < 12,
                b == contents@,
                min_i == lzw_minimum_code_size as int,
                clear_i == clear_code as int,
                npix_i == npix as int,
                clear_code == 1usize << (lzw_minimum_code_size as usize),
                1 <= clear_code <= 2048,
                eoi_code == clear_code + 1,
                clear_code + 2 <= available <= MAX_STACK_SIZE,
                prefix@.len() == available,
                suffix@.len() == available,
                lzw_minimum_code_size as u32 + 1 <= code_size <= 12,
                code_mask == (1u32 << code_size) - 1,
                bits <= 19,
                datum < (1u32 << bits),
                forall|i: int|
                    clear_code + 2 <= i < available ==> (#[trigger] prefix@[i]) < i
                        && prefix@[i] != clear_code && prefix@[i] != eoi_code,
                old_code matches Some(oc) ==> oc <= available && oc != clear_code && oc
                    != eoi_code,
                block_rem > 0 ==> block_pos + block_rem <= contents@.len() && block_pos
                    + block_rem <= usize::MAX,
                index_stream@.len() <= npix,
                *offset >= *old(offset),
            ensures
                index_stream@.len() <= npix,
                *offset >= *old(offset),
                lzw_pad(index_stream@, npix_i) == result.0,
                *offset as int == result.1,
            decreases
                    npix - index_stream@.len(),
                    remaining_bytes(contents@.len() as int, *offset as int),
                    block_rem,
                    bits,
        {
            let ghost mst = LzwMachine {
                offset: *offset as int,
                block_pos: block_pos as int,
                block_rem: block_rem as int,
                datum: datum as int,
                bits: bits as int,
                code_size: code_size as int,
                available: available as int,
                prefix: prefix@,
                suffix: suffix@,
                old_code: opt_code(old_code),
                first: first,
                stack: pixel_stack@,
                out: index_stream@,
            };
            proof {
                assert(lzw_run(b, min_i, clear_i, npix_i, mst) == result);
            }
            if pixel_stack.len() > 0 {
                let v: u8 = pixel_stack.pop().unwrap();
                index_stream.push(v);
                proof {
                    assert(lzw_run(
                        b,
                        min_i,
                        clear_i,
                        npix_i,
                        LzwMachine {
                            stack: mst.stack.drop_last(),
                            out: mst.out.push(mst.stack.last()),
                            ..mst
                        },
                    ) == result);
                }
                continue;
            }
            if bits < code_size {
                if block_rem == 0 {
                    if *offset >= contents.len() {
                        proof {
                            assert(result == (lzw_pad(mst.out, npix_i), mst.offset));
                        }
                        break;
                    }
                    let count: u8 = contents[*offset];
                    *offset = *offset + 1;
                    if count == 0 {
                        proof {
                            assert(result == (lzw_pad(mst.out, npix_i), mst.offset + 1));
                        }
                        break;
                    }
                    let take: usize = if (count as usize) <= contents.len() - *offset {
                        count as usize
                    } else {
                        contents.len() - *offset
                    };
                    block_pos = *offset;
                    block_rem = take;
                    *offset = *offset + take;
                    proof {
                        assert(lzw_run(
                            b,
                            min_i,
                            clear_i,
                            npix_i,
                            LzwMachine {
                                block_pos: mst.offset + 1,
                                block_rem: take as int,
                                offset: mst.offset + 1 + take,
                                ..mst
                            },
                        ) == result);
                    }
                    continue;
                }
                proof {
                    assert(block_rem >= 1);
                    assert(block_pos + block_rem <= contents@.len());
                }
                let by_val: u8 = contents[block_pos];
                block_pos = block_pos + 1;
                block_rem = block_rem - 1;
                assert(datum + ((by_val as u32) << bits) < (1u32 << (bits + 8)) && ((by_val
                    as u32) << bits) <= u32::MAX - datum) by (bit_vector)
                    requires
                        datum < (1u32 << bits),
                        bits <= 19,
                ;
                proof {
                    vstd::arithmetic::power2::lemma2_to64();
                    vstd::arithmetic::power2::lemma_pow2_strictly_increases(bits as nat, 12);
                    assert((by_val as int) * pow2(bits as nat) <= 255 * 4095) by (nonlinear_arith)
                        requires
                            by_val <= 255 && pow2(bits as nat) <= 4095,
                    ;
                    vstd::bits::lemma_u32_shl_is_mul(by_val as u32, bits);
                }
                datum = datum + ((by_val as u32) << bits);
                bits = bits + 8;
                proof {
                    assert(lzw_run(
                        b,
                        min_i,
                        clear_i,
                        npix_i,
                        LzwMachine {
                            datum: mst.datum + (by_val as int) * pow2(mst.bits as nat),
                            bits: mst.bits + 8,
                            block_pos: mst.block_pos + 1,
                            block_rem: mst.block_rem - 1,
                            ..mst
                        },
                    ) == result);
                }
                continue;
            }
            proof {
                vstd::arithmetic::power2::lemma2_to64();
                if (code_size as nat) < 12 {
                    vstd::arithmetic::power2::lemma_pow2_strictly_increases(code_size as nat, 12);
                }
                vstd::bits::lemma_u32_shl_is_mul(1u32, code_size);
                vstd::bits::lemma_u32_low_bits_mask_is_mod(datum, code_size as nat);
                vstd::bits::lemma_u32_shr_is_div(datum, code_size);
                assert(code_mask == vstd::bits::low_bits_mask(code_size as nat) as u32);
            }
            let ghost w = pow2(mst.code_size as nat) as int;
            let code_bits: u32 = datum & code_mask;
            assert(code_bits <= 4095 && (datum >> code_size) < (1u32 << ((bits - code_size)
                as u32))) by (bit_vector)
                requires
                    code_bits == datum & code_mask,
                    code_mask == (1u32 << code_size) - 1,
                    1 <= code_size <= 12,
                    code_size <= bits <= 19,
                    datum < (1u32 << bits),
            ;
            proof {
                assert(code_bits as int == mst.datum % w);
                assert((datum >> code_size) as int == mst.datum / w);
            }
            datum = datum >> code_size;
            bits = bits - code_size;
            let code: usize = code_bits as usize;

            if code > available || code == eoi_code {
                proof {
                    assert(result == (lzw_pad(mst.out, npix_i), mst.offset));
                }
                break;
            }
            if code == clear_code {
                code_size = lzw_minimum_code_size as u32 + 1;
                assert((1u32 << code_size) >= 2) by (bit_vector)
                    requires
                        1 <= code_size <= 12,
                ;
                code_mask = (1u32 << code_size) - 1;
                available = clear_code + 2;
                prefix.truncate(available);
                suffix.truncate(available);
                old_code = None;
                proof {
                    assert(prefix@ =~= mst.prefix.take(clear_i + 2));
                    assert(suffix@ =~= mst.suffix.take(clear_i + 2));
                    assert(lzw_run(
                        b,
                        min_i,
                        clear_i,
                        npix_i,
                        LzwMachine {
                            datum: datum as int,
                            bits: bits as int,
                            code_size: min_i + 1,
                            available: clear_i + 2,
                            prefix: mst.prefix.take(clear_i + 2),
                            suffix: mst.suffix.take(clear_i + 2),
                            old_code: Option::None,
                            ..mst
                        },
                    ) == result);
                }
                continue;
            }
            match old_code {
                None => {
                    let s: u8 = if code < suffix.len() {
                        suffix[code]
                    } else {
                        0
                    };
                    index_stream.push(s);
                    first = s;
                    old_code = Some(code);
                    proof {
                        assert(lzw_run(
                            b,
                            min_i,
                            clear_i,
                            npix_i,
                            LzwMachine {
                                datum: datum as int,
                                bits: bits as int,
                                out: mst.out.push(s),
                                first: s,
                                old_code: Option::Some(code as int),
                                ..mst
                            },
                        ) == result);
                    }
                },
                Some(oc) => {
                    let in_code: usize = code;
                    let mut cur: usize = code;
                    if cur == available {
                        // the KwKwK case: the code names the entry about
                        // to be added, whose last byte is its first
                        pixel_stack.push(first);
                        cur = oc;
                    }
                    let ghost start = cur as int;
                    let ghost chain = lzw_chain(mst.prefix, mst.suffix, clear_i, start);
                    let ghost stack0 = pixel_stack@;
                    while cur > clear_code
                        invariant
                            1 <= clear_code,
                            clear_i == clear_code as int,
                            clear_code + 2 <= available,
                            prefix@.len() == available,
                            suffix@.len() == available,
                            prefix@ == mst.prefix,
                            suffix@ == mst.suffix,
                            eoi_code == clear_code + 1,
                            cur <= available,
                            cur != eoi_code,
                            forall|i: int|
                                clear_code + 2 <= i < available ==> (#[trigger] prefix@[i]) < i
                                    && prefix@[i] != clear_code && prefix@[i] != eoi_code,
                            pixel_stack@.len() >= stack0.len(),
                            pixel_stack@.subrange(0, stack0.len() as int) == stack0,
                            chain.0 == pixel_stack@.skip(stack0.len() as int) + lzw_chain(
                                mst.prefix,
                                mst.suffix,
                                clear_i,
                                cur as int,
                            ).0,
                            chain.1 == lzw_chain(mst.prefix, mst.suffix, clear_i, cur as int).1,
                        decreases cur,
                    {
                        // slots at or past the next free one read as
                        // zero, like a zero-seeded dictionary
                        let s: u8 = if cur < suffix.len() {
                            suffix[cur]
                        } else {
                            0
                        };
                        let ghost stack_pre = pixel_stack@;
                        pixel_stack.push(s);
                        let nxt: usize = if cur < prefix.len() {
                            prefix[cur] as usize
                        } else {
                            0
                        };
                        proof {
                            assert(nxt < cur);
                            assert(pixel_stack@.subrange(0, stack0.len() as int) =~= stack0);
                            assert(pixel_stack@.skip(stack0.len() as int) =~= stack_pre.skip(
                                stack0.len() as int,
                            ) + seq![s]);
                            assert(lzw_chain(mst.prefix, mst.suffix, clear_i, cur as int).0
                                =~= seq![s] + lzw_chain(
                                mst.prefix,
                                mst.suffix,
                                clear_i,
                                nxt as int,
                            ).0);
                            assert(chain.0 =~= pixel_stack@.skip(stack0.len() as int)
                                + lzw_chain(mst.prefix, mst.suffix, clear_i, nxt as int).0);
                        }
                        cur = nxt;
                    }
                    first = suffix[cur];
                    let ghost stack_pre = pixel_stack@;
                    pixel_stack.push(first);
                    proof {
                        assert(chain.1 == cur as int);
                        assert(chain.0 =~= stack_pre.skip(stack0.len() as int));
                        let kw = in_code == available;
                        assert(stack0 =~= (if kw {
                            seq![mst.first]
                        } else {
                            Seq::<u8>::empty()
                        }));
                        assert(pixel_stack@ =~= stack0 + chain.0 + seq![first]);
                    }
                    if available < MAX_STACK_SIZE && oc < available {
                        prefix.push(oc as u16);
                        suffix.push(first);
                        available = available + 1;
                        if available < MAX_STACK_SIZE && (available as u32 & code_mask) == 0 {
                            assert(code_size < 12) by (bit_vector)
                                requires
                                    code_mask == (1u32 << code_size) - 1,
                                    code_size <= 12,
                                    (available as u32) & code_mask == 0,
                                    0 < (available as u32) && (available as u32) < 4096,
                            ;
                            code_size = code_size + 1;
                            assert((1u32 << code_size) >= 2) by (bit_vector)
                                requires
                                    1 <= code_size <= 12,
                            ;
                            code_mask = (1u32 << code_size) - 1;
                        }
                    }
                    proof {
                        vstd::bits::lemma_u32_low_bits_mask_is_mod(
                            available as u32,
                            mst.code_size as nat,
                        );
                    }
                    old_code = Some(in_code);
                    proof {
                        let kw = in_code as int == mst.available;
                        let install = mst.available < 4096 && (oc as int) < mst.available;
                        let av2 = if install {
                            mst.available + 1
                        } else {
                            mst.available
                        };
                        let grow = install && av2 < 4096 && av2 % w == 0;
                        assert(pixel_stack@ =~= (if kw {
                            seq![mst.first]
                        } else {
                            Seq::<u8>::empty()
                        }) + chain.0 + seq![first]);
                        assert(lzw_run(
                            b,
                            min_i,
                            clear_i,
                            npix_i,
                            LzwMachine {
                                datum: datum as int,
                                bits: bits as int,
                                stack: pixel_stack@,
                                first: first,
                                prefix: prefix@,
                                suffix: suffix@,
                                available: av2,
                                code_size: if grow {
                                    mst.code_size + 1
                                } else {
                                    mst.code_size
                                },
                                old_code: Option::Some(in_code as int),
                                ..mst
                            },
                        ) == result);
                    }
                },
            }
        }
        while index_stream.len() < npix
            invariant
                index_stream@.len() <= npix,
                lzw_pad(index_stream@, npix_i) == result.0,
                npix_i == npix as int,
                *offset as int == result.1,
                *offset >= *old(offset),
            decreases npix - index_stream@.len(),
        {
            let ghost pre = index_stream@;
            index_stream.push(0);
            proof {
                assert(lzw_pad(index_stream@, npix_i) =~= lzw_pad(pre, npix_i));
            }
        }
        proof {
            assert(index_stream@ == lzw_pad(index_stream@, npix_i));
        }
        index_stream
    }

    /// Skip image data sub-blocks without ever failing: a missing length
    /// byte or a cut sub-block body simply ends the stream.
    pub(crate) fn skip_image_data(offset: &mut usize, contents: &Vec<u8>)
        ensures
            *final(offset) >= *old(offset),
            *final(offset) as int == spec_skip_image_data(contents@, *old(offset) as int),
    {
        loop
            invariant
                *offset >= *old(offset),
                spec_skip_image_data(contents@, *old(offset) as int) == spec_skip_image_data(
                    contents@,
                    *offset as int,
                ),
            decreases remaining_bytes(contents@.len() as int, *offset as int),
        {
            if *offset >= contents.len() {
                return;
            }
            let count: u8 = contents[*offset];
            *offset = *offset + 1;
            if count == 0 {
                return;
            }
            let take: usize = if (count as usize) <= contents.len() - *offset {
                count as usize
            } else {
                contents.len() - *offset
            };
            *offset = *offset + take;
        }
    }
}

} // verus!
