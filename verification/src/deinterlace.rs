//! The de-interlacer. An interlaced frame's rows arrive in four passes:
//! rows 0, 8, 16, ... first, then 4, 12, 20, ..., then 2, 6, 10, ...,
//! then 1, 3, 5, .... Row `r` of the restored image therefore comes from
//! stream row `interlace_source_row(rows, r)`: the number of pass rows
//! that precede `r`'s pass plus `r`'s position within its own pass.

use vstd::prelude::*;

use crate::parser::Decoder;

verus! {

/// Byte `c` of row `row` of an image stored row-major with `width`
/// bytes per row.
pub open spec fn row_col(s: Seq<u8>, width: int, row: int, c: int) -> u8 {
    s[row * width + c]
}

/// The stream row that holds restored row `r` of an interlaced image
/// with `rows` rows: rows of earlier passes come first, and within a
/// pass every `step`-th row appears in order.
pub open spec fn interlace_source_row(rows: int, r: int) -> int {
    if r % 8 == 0 {
        r / 8
    } else if r % 8 == 4 {
        (rows + 7) / 8 + (r - 4) / 8
    } else if r % 4 == 2 {
        (rows + 7) / 8 + (rows + 3) / 8 + (r - 2) / 4
    } else {
        (rows + 7) / 8 + (rows + 3) / 8 + (rows + 1) / 4 + (r - 1) / 2
    }
}

/// The de-interlaced index stream: byte `j` of the result is the byte at
/// the same column of the stream row that carries row `j / width`.
pub open spec fn spec_deinterlace(s: Seq<u8>, width: int) -> Seq<u8> {
    Seq::new(
        s.len(),
        |j: int| s[interlace_source_row(s.len() as int / width, j / width) * width + j % width],
    )
}

impl Decoder {
    /// Reorder the rows of a decoded interlaced index stream into their
    /// true positions. Every restored row is a row of the input stream.
    pub(crate) fn deinterlace(index_stream: &Vec<u8>, width: usize) -> (r: Vec<u8>)
        requires
            1 <= width <= 65535,
            index_stream@.len() == width * (index_stream@.len() as int / width as int),
            index_stream@.len() as int / width as int <= 65535,
        ensures
            r@.len() == index_stream@.len(),
            forall|row: int, c: int|
                0 <= row < index_stream@.len() as int / width as int && 0 <= c < width
                    ==> #[trigger] row_col(r@, width as int, row, c) == row_col(
                    index_stream@,
                    width as int,
                    interlace_source_row(index_stream@.len() as int / width as int, row),
                    c,
                ),
            r@ == spec_deinterlace(index_stream@, width as int),
    {
        let ghost len = index_stream@.len() as int;
        let rows: usize = index_stream.len() / width;
        let n0: usize = (rows + 7) / 8;
        let n1: usize = (rows + 3) / 8;
        let n2: usize = (rows + 1) / 4;
        let mut out: Vec<u8> = Vec::new();
        let mut to_row: usize = 0;
        while to_row < rows
            invariant
                1 <= width <= 65535,
                rows <= 65535,
                len == index_stream@.len(),
                len <= usize::MAX,
                len == width * rows,
                rows == len / width as int,
                n0 == (rows + 7) / 8,
                n1 == (rows + 3) / 8,
                n2 == (rows + 1) / 4,
                to_row <= rows,
                out@.len() == to_row * width,
                forall|rr: int, cc: int|
                    0 <= rr < to_row && 0 <= cc < width ==> #[trigger] row_col(
                        out@,
                        width as int,
                        rr,
                        cc,
                    ) == row_col(
                        index_stream@,
                        width as int,
                        interlace_source_row(rows as int, rr),
                        cc,
                    ),
            decreases rows - to_row,
        {
            let t32: u32 = to_row as u32;
            let r32: u32 = rows as u32;
            let m8: usize = to_row % 8;
            let src: usize = if m8 == 0 {
                assert(t32 % 8 == 0 ==> t32 / 8 < r32) by (bit_vector)
                    requires
                        t32 < r32 <= 65535,
                ;
                to_row / 8
            } else if m8 == 4 {
                assert(t32 % 8 == 4 ==> 4 <= t32 && (r32 + 7) / 8 + (t32 - 4) / 8 < r32)
                    by (bit_vector)
                    requires
                        t32 < r32 <= 65535,
                ;
                n0 + (to_row - 4) / 8
            } else if to_row % 4 == 2 {
                assert(t32 % 4 == 2 ==> 2 <= t32 && (r32 + 7) / 8 + (r32 + 3) / 8 + (t32 - 2) / 4
                    < r32) by (bit_vector)
                    requires
                        t32 < r32 <= 65535,
                ;
                n0 + n1 + (to_row - 2) / 4
            } else {
                assert(t32 % 8 != 0 && t32 % 8 != 4 && t32 % 4 != 2 ==> 1 <= t32 && t32 % 2 == 1
                    && (r32 + 7) / 8 + (r32 + 3) / 8 + (r32 + 1) / 4 + (t32 - 1) / 2 < r32)
                    by (bit_vector)
                    requires
                        t32 < r32 <= 65535,
                ;
                n0 + n1 + n2 + (to_row - 1) / 2
            };
            proof {
                assert(src == interlace_source_row(rows as int, to_row as int));
                assert(src < rows);
                assert((src + 1) * width <= rows * width && (to_row + 1) * width <= rows * width
                    && (src + 1) * width == src * width + width && (to_row + 1) * width == to_row
                    * width + width && rows * width == width * rows) by (nonlinear_arith)
                    requires
                        0 <= src + 1 <= rows && 0 <= to_row + 1 <= rows && width >= 1,
                ;
            }
            let base: usize = src * width;
            let out_base: usize = to_row * width;
            let mut c: usize = 0;
            while c < width
                invariant
                    1 <= width,
                    index_stream@.len() <= usize::MAX,
                    base + width <= index_stream@.len(),
                    out_base + width <= index_stream@.len(),
                    c <= width,
                    out@.len() == out_base + c,
                    to_row * width == out_base,
                    forall|rr: int, cc: int|
                        0 <= rr < to_row && 0 <= cc < width ==> #[trigger] row_col(
                            out@,
                            width as int,
                            rr,
                            cc,
                        ) == row_col(
                            index_stream@,
                            width as int,
                            interlace_source_row(rows as int, rr),
                            cc,
                        ),
                    out@.subrange(out_base as int, out_base + c) == index_stream@.subrange(
                        base as int,
                        base + c,
                    ),
                decreases width - c,
            {
                let ghost out_pre = out@;
                out.push(index_stream[base + c]);
                c = c + 1;
                proof {
                    assert(out@.subrange(out_base as int, out_base + c)
                        =~= index_stream@.subrange(base as int, base + c));
                    assert forall|rr: int, cc: int|
                        0 <= rr < to_row && 0 <= cc < width implies #[trigger] row_col(
                        out@,
                        width as int,
                        rr,
                        cc,
                    ) == row_col(
                        index_stream@,
                        width as int,
                        interlace_source_row(rows as int, rr),
                        cc,
                    ) by {
                        assert(0 <= rr * width + cc && rr * width + cc < to_row * width)
                            by (nonlinear_arith)
                            requires
                                0 <= rr < to_row && 0 <= cc < width,
                        ;
                        assert(row_col(out_pre, width as int, rr, cc) == row_col(
                            index_stream@,
                            width as int,
                            interlace_source_row(rows as int, rr),
                            cc,
                        ));
                        assert(out@[rr * width + cc] == out_pre[rr * width + cc]);
                    }
                }
            }
            to_row = to_row + 1;
            proof {
                assert forall|rr: int, cc: int|
                    0 <= rr < to_row && 0 <= cc < width implies #[trigger] row_col(
                    out@,
                    width as int,
                    rr,
                    cc,
                ) == row_col(
                    index_stream@,
                    width as int,
                    interlace_source_row(rows as int, rr),
                    cc,
                ) by {
                    if rr < to_row - 1 {
                    } else {
                        assert(rr * width + cc == out_base + cc);
                        assert(out@[out_base + cc] == out@.subrange(
                            out_base as int,
                            out_base + width as int,
                        )[cc]);
                        assert(index_stream@[base + cc] == index_stream@.subrange(
                            base as int,
                            base + width as int,
                        )[cc]);
                        assert(row_col(out@, width as int, rr, cc) == out@[out_base + cc]);
                        assert(row_col(
                            index_stream@,
                            width as int,
                            interlace_source_row(rows as int, rr),
                            cc,
                        ) == index_stream@[base + cc]);
                    }
                }
            }
        }
        proof {
            assert(rows * width == width * rows) by (nonlinear_arith);
            assert forall|j: int| 0 <= j < len implies out@[j] == index_stream@[interlace_source_row(
                len / (width as int),
                j / (width as int),
            ) * (width as int) + j % (width as int)] by {
                vstd::arithmetic::div_mod::lemma_fundamental_div_mod(j, width as int);
                let row = j / width as int;
                let c = j % width as int;
                assert(0 <= row && row < rows && 0 <= c < width) by (nonlinear_arith)
                    requires
                        0 <= j < len && len == (rows as int) * (width as int) && width >= 1 && j
                            == (width as int) * row + c && 0 <= c < width,
                ;
                assert(row * width + c == j) by (nonlinear_arith)
                    requires
                        j == (width as int) * row + c,
                ;
                assert(row_col(out@, width as int, row, c) == out@[j]);
            }
            assert(out@ =~= spec_deinterlace(index_stream@, width as int));
        }
        out
    }
}

} // verus!
