//! The container parser: a block-driven walk over GIF's tagged block
//! stream. It validates the signature, parses the logical screen
//! descriptor and the global color table, then dispatches on block
//! introducers, building one frame per graphics-control extension /
//! image-descriptor pair. The trailer or the end of input closes the
//! file, and an extension slot no image descriptor filled yields no
//! frame. `spec_block_walk` is the byte-level model the decoder is
//! proved against.

use vstd::arithmetic::power2::{lemma2_to64, pow2};
use vstd::bits::lemma_usize_shl_is_mul;
use vstd::prelude::*;

use crate::types::{
    color_table_wf, frame_wf, gce_wf, gif_wf, im_wf, lsd_wf, pristine, Color, Frame, GifError,
    GraphicsControlExtension, Gif, ImageDescriptor, LogicalScreenDescriptor,
};

verus! {

/// Addition on offsets that stops at the largest representable position
/// instead of wrapping, as the running offset does.
pub open spec fn sat_add(a: int, b: int) -> int {
    if a + b <= usize::MAX {
        a + b
    } else {
        usize::MAX as int
    }
}

/// Where skipping data sub-blocks from `o` ends: past each length byte
/// and its block, stopping after a zero length byte or once the offset
/// reaches the penultimate input byte; `None` when a length byte is
/// missing.
pub open spec fn spec_skip(b: Seq<u8>, o: int) -> Option<int>
    decreases crate::lzw::remaining_bytes(b.len() as int, o),
{
    if o < 0 || o >= b.len() || b.len() > usize::MAX {
        Option::None
    } else if b[o] == 0 {
        Option::Some(o + 1)
    } else {
        let o2 = sat_add(o + 1, b[o] as int);
        if o2 >= b.len() - 1 {
            Option::Some(o2)
        } else {
            spec_skip(b, o2)
        }
    }
}

/// The 16-bit little-endian value stored at bytes `i` and `i + 1`.
pub open spec fn u16_le(b: Seq<u8>, i: int) -> int {
    b[i] + 256 * b[i + 1]
}

/// The input starts with the ASCII bytes `GIF`.
pub open spec fn sig_ok(b: Seq<u8>) -> bool {
    b.len() >= 3 && b[0] == 0x47 && b[1] == 0x49 && b[2] == 0x46
}

/// The three signature bytes are ASCII.
pub open spec fn sig_ascii(b: Seq<u8>) -> bool {
    b.len() >= 3 && b[0] < 0x80 && b[1] < 0x80 && b[2] < 0x80
}

/// The three version bytes are ASCII.
pub open spec fn version_ascii(b: Seq<u8>) -> bool {
    b.len() >= 6 && b[3] < 0x80 && b[4] < 0x80 && b[5] < 0x80
}

/// The logical screen descriptor encoded at bytes 6..13.
pub open spec fn spec_lsd(b: Seq<u8>) -> LogicalScreenDescriptor {
    LogicalScreenDescriptor {
        width: u16_le(b, 6) as u32,
        height: u16_le(b, 8) as u32,
        global_color_flag: b[10] & 0x80 != 0,
        color_resolution: (b[10] & 0x70) as u32,
        sorted_flag: b[10] & 0x08 != 0,
        global_color_size: (b[10] & 0x07) as u32,
        background_color_index: b[11] as u32,
        pixel_aspect_ratio: b[12] as u32,
    }
}

/// The color stored as an RGB byte triple at position `i`.
pub open spec fn spec_color(b: Seq<u8>, i: int) -> Color {
    Color { red: b[i] as u32, green: b[i + 1] as u32, blue: b[i + 2] as u32 }
}

/// `count` RGB triples read from position `start` on.
pub open spec fn spec_color_table(b: Seq<u8>, start: int, count: int) -> Seq<Color> {
    Seq::new(count as nat, |j: int| spec_color(b, start + 3 * j))
}

/// The number of colors in the global table: `2^(size + 1)`.
pub open spec fn spec_global_count(b: Seq<u8>) -> int {
    pow2((spec_lsd(b).global_color_size + 1) as nat) as int
}

/// The number of bytes the fixed header occupies: screen descriptor plus
/// the global color table when its flag is set.
pub open spec fn spec_header_len(b: Seq<u8>) -> int {
    13 + if spec_lsd(b).global_color_flag {
        3 * spec_global_count(b)
    } else {
        0
    }
}

/// The graphics control extension whose byte-size byte sits at `o`.
pub open spec fn spec_gce(b: Seq<u8>, o: int) -> GraphicsControlExtension {
    GraphicsControlExtension {
        disposal_method: ((b[o + 1] & 0x1c) >> 2) as u32,
        user_input_flag: b[o + 1] & 0x02 != 0,
        transparent_color_flag: b[o + 1] & 0x01 != 0,
        delay_time: u16_le(b, o + 2) as u32,
        transparent_color_index: b[o + 4] as u32,
    }
}

/// The image descriptor whose first byte sits at `o` (after the `0x2C`
/// introducer).
pub open spec fn spec_im(b: Seq<u8>, o: int) -> ImageDescriptor {
    ImageDescriptor {
        left: u16_le(b, o) as u32,
        top: u16_le(b, o + 2) as u32,
        width: u16_le(b, o + 4) as u32,
        height: u16_le(b, o + 6) as u32,
        interlace_flag: b[o + 8] & 0x40 != 0,
        sort_flag: b[o + 8] & 0x20 != 0,
    }
}

/// The local-color-table flag of the image descriptor at `o`.
pub open spec fn spec_local_flag(b: Seq<u8>, o: int) -> bool {
    b[o + 8] & 0x80 != 0
}

/// The number of colors in the local table of the image descriptor at
/// `o`: `2^(size + 1)`.
pub open spec fn spec_local_count(b: Seq<u8>, o: int) -> int {
    pow2(((b[o + 8] & 0x07) + 1) as nat) as int
}

/// Where an image block's pixel data begins: past the nine descriptor
/// bytes and the local color table when its flag is set. The byte there
/// is the minimum LZW code size; the data sub-blocks follow it.
pub open spec fn spec_im_data_start(b: Seq<u8>, o: int) -> int {
    o + 9 + if spec_local_flag(b, o) {
        3 * spec_local_count(b, o)
    } else {
        0
    }
}

/// A successful sub-block skip lands strictly past its start.
pub proof fn lemma_spec_skip_gt(b: Seq<u8>, o: int)
    ensures
        spec_skip(b, o) matches Option::Some(o2) ==> o2 > o,
    decreases crate::lzw::remaining_bytes(b.len() as int, o),
{
    if o < 0 || o >= b.len() || b.len() > usize::MAX {
    } else if b[o] == 0 {
    } else {
        let o2 = sat_add(o + 1, b[o] as int);
        if o2 >= b.len() - 1 {
        } else {
            lemma_spec_skip_gt(b, o2);
        }
    }
}

/// One frame as the block walk produces it.
#[verifier::ext_equal]
pub struct FrameData {
    pub gcd: GraphicsControlExtension,
    pub im: ImageDescriptor,
    pub color_table: Seq<Color>,
    pub index_stream: Seq<u8>,
}

/// The frame slot a graphics control extension opens: the extension's
/// fields with everything else still empty.
pub open spec fn gce_frame_data(b: Seq<u8>, o: int) -> FrameData {
    FrameData {
        gcd: spec_gce(b, o),
        im: ImageDescriptor {
            left: 0,
            top: 0,
            width: 0,
            height: 0,
            interlace_flag: false,
            sort_flag: false,
        },
        color_table: Seq::<Color>::empty(),
        index_stream: Seq::<u8>::empty(),
    }
}

/// A default frame slot, as a bare image descriptor fabricates it.
pub open spec fn default_frame_data() -> FrameData {
    FrameData {
        gcd: GraphicsControlExtension {
            disposal_method: 0,
            user_input_flag: false,
            transparent_color_flag: false,
            delay_time: 0,
            transparent_color_index: 0,
        },
        im: ImageDescriptor {
            left: 0,
            top: 0,
            width: 0,
            height: 0,
            interlace_flag: false,
            sort_flag: false,
        },
        color_table: Seq::<Color>::empty(),
        index_stream: Seq::<u8>::empty(),
    }
}

/// What one image block at `o` (past its introducer) does to the frame
/// list: fill the pending slot (or a fresh default one) with the
/// descriptor, its color table (local or the global one), and the
/// decoded, de-interlaced index stream; `None` when the descriptor,
/// table or minimum-code-size byte lie past the input.
pub open spec fn spec_image_block(
    b: Seq<u8>,
    o: int,
    frames: Seq<FrameData>,
    pending: bool,
    global: Seq<Color>,
) -> Option<(Seq<FrameData>, int)> {
    if spec_im_data_start(b, o) >= b.len() {
        Option::None
    } else {
        let base = if pending {
            frames
        } else {
            frames.push(default_frame_data())
        };
        let im = spec_im(b, o);
        let table = if spec_local_flag(b, o) {
            spec_color_table(b, o + 9, spec_local_count(b, o))
        } else {
            global
        };
        let pos = spec_im_data_start(b, o);
        let lz = crate::lzw::spec_lzw_decode(b, pos + 1, b[pos], im.width * im.height);
        let stream = if im.interlace_flag && im.width > 0 {
            crate::deinterlace::spec_deinterlace(lz.0, im.width as int)
        } else {
            lz.0
        };
        let fd = FrameData { gcd: base.last().gcd, im, color_table: table, index_stream: stream };
        Option::Some((base.update(base.len() - 1, fd), lz.1))
    }
}

/// The block walk of the container: from `o` on, one step per tagged
/// block, building the frame list. The trailer and the end of input
/// both close the file, dropping a pending extension slot that no image
/// descriptor filled. `Truncated` marks a required field past the end.
#[verifier::opaque]
pub open spec fn spec_block_walk(
    b: Seq<u8>,
    o: int,
    frames: Seq<FrameData>,
    pending: bool,
    global: Seq<Color>,
) -> Result<Seq<FrameData>, GifError>
    decreases crate::lzw::remaining_bytes(b.len() as int, o),
    via spec_block_walk_decreases
{
    if o < 0 || b.len() > usize::MAX {
        Result::Err(GifError::Truncated)
    } else if o >= b.len() {
        Result::Ok(
            if pending {
                frames.drop_last()
            } else {
                frames
            },
        )
    } else {
        let intro = b[o];
        let o1 = o + 1;
        if intro == 0x2C {
            match spec_image_block(b, o1, frames, pending, global) {
                Option::None => Result::Err(GifError::Truncated),
                Option::Some(st) => spec_block_walk(b, st.1, st.0, false, global),
            }
        } else if intro == 0x21 {
            if o1 >= b.len() {
                Result::Err(GifError::Truncated)
            } else {
                let label = b[o1];
                let o2 = o1 + 1;
                if label == 0xF9 {
                    if o2 + 6 > b.len() {
                        Result::Err(GifError::Truncated)
                    } else {
                        let fr2 = if pending {
                            frames.update(frames.len() - 1, gce_frame_data(b, o2))
                        } else {
                            frames.push(gce_frame_data(b, o2))
                        };
                        spec_block_walk(b, o2 + 6, fr2, true, global)
                    }
                } else if label == 0x01 {
                    if o2 >= b.len() {
                        Result::Err(GifError::Truncated)
                    } else {
                        match spec_skip(b, sat_add(o2 + 1, b[o2] as int)) {
                            Option::None => Result::Err(GifError::Truncated),
                            Option::Some(o3) => spec_block_walk(b, o3, frames, pending, global),
                        }
                    }
                } else if label == 0xFF {
                    if o2 >= b.len() || o2 + 1 + b[o2] > b.len() {
                        Result::Err(GifError::Truncated)
                    } else {
                        match spec_skip(b, o2 + 1 + b[o2]) {
                            Option::None => Result::Err(GifError::Truncated),
                            Option::Some(o3) => spec_block_walk(b, o3, frames, pending, global),
                        }
                    }
                } else if label == 0xFE {
                    match spec_skip(b, o2) {
                        Option::None => Result::Err(GifError::Truncated),
                        Option::Some(o3) => spec_block_walk(b, o3, frames, pending, global),
                    }
                } else {
                    spec_block_walk(b, o2, frames, pending, global)
                }
            }
        } else if intro == 0x3B {
            Result::Ok(
                if pending {
                    frames.drop_last()
                } else {
                    frames
                },
            )
        } else {
            spec_block_walk(b, o1, frames, pending, global)
        }
    }
}

#[via_fn]
proof fn spec_block_walk_decreases(
    b: Seq<u8>,
    o: int,
    frames: Seq<FrameData>,
    pending: bool,
    global: Seq<Color>,
) {
    if 0 <= o < b.len() && b.len() <= usize::MAX {
        let o1 = o + 1;
        if b[o] == 0x2C {
            if spec_im_data_start(b, o1) < b.len() {
                let pos = spec_im_data_start(b, o1);
                let im = spec_im(b, o1);
                vstd::arithmetic::power2::lemma_pow2_pos(((b[o1 + 8] & 0x07) + 1) as nat);
                crate::lzw::lemma_spec_lzw_decode_ge(b, pos + 1, b[pos], im.width * im.height);
            }
        } else if b[o] == 0x21 && o1 < b.len() {
            let label = b[o1];
            let o2 = o1 + 1;
            if label == 0x01 && o2 < b.len() {
                lemma_spec_skip_gt(b, sat_add(o2 + 1, b[o2] as int));
            } else if label == 0xFF && o2 < b.len() && o2 + 1 + b[o2] <= b.len() {
                lemma_spec_skip_gt(b, o2 + 1 + b[o2]);
            } else if label == 0xFE {
                lemma_spec_skip_gt(b, o2);
            }
        }
    }
}

/// One unfolding of the block walk, stated per introducer so callers
/// need not unfold the recursive definition themselves.
proof fn lemma_walk_step(b: Seq<u8>, o: int, frames: Seq<FrameData>, pending: bool, global: Seq<Color>)
    requires
        0 <= o < b.len(),
        b.len() <= usize::MAX,
    ensures
        b[o] == 0x2C ==> spec_block_walk(b, o, frames, pending, global) == (match spec_image_block(
            b,
            o + 1,
            frames,
            pending,
            global,
        ) {
            Option::None => Result::<Seq<FrameData>, GifError>::Err(GifError::Truncated),
            Option::Some(st) => spec_block_walk(b, st.1, st.0, false, global),
        }),
        b[o] == 0x21 && o + 1 >= b.len() ==> spec_block_walk(b, o, frames, pending, global)
            == Result::<Seq<FrameData>, GifError>::Err(GifError::Truncated),
        b[o] == 0x21 && o + 1 < b.len() && b[o + 1] == 0xF9 ==> spec_block_walk(
            b,
            o,
            frames,
            pending,
            global,
        ) == (if o + 8 > b.len() {
            Result::<Seq<FrameData>, GifError>::Err(GifError::Truncated)
        } else {
            spec_block_walk(
                b,
                o + 8,
                if pending {
                    frames.update(frames.len() - 1, gce_frame_data(b, o + 2))
                } else {
                    frames.push(gce_frame_data(b, o + 2))
                },
                true,
                global,
            )
        }),
        b[o] == 0x21 && o + 1 < b.len() && b[o + 1] == 0x01 ==> spec_block_walk(
            b,
            o,
            frames,
            pending,
            global,
        ) == (if o + 2 >= b.len() {
            Result::<Seq<FrameData>, GifError>::Err(GifError::Truncated)
        } else {
            match spec_skip(b, sat_add(o + 3, b[o + 2] as int)) {
                Option::None => Result::<Seq<FrameData>, GifError>::Err(GifError::Truncated),
                Option::Some(o3) => spec_block_walk(b, o3, frames, pending, global),
            }
        }),
        b[o] == 0x21 && o + 1 < b.len() && b[o + 1] == 0xFF ==> spec_block_walk(
            b,
            o,
            frames,
            pending,
            global,
        ) == (if o + 2 >= b.len() || o + 3 + b[o + 2] > b.len() {
            Result::<Seq<FrameData>, GifError>::Err(GifError::Truncated)
        } else {
            match spec_skip(b, o + 3 + b[o + 2]) {
                Option::None => Result::<Seq<FrameData>, GifError>::Err(GifError::Truncated),
                Option::Some(o3) => spec_block_walk(b, o3, frames, pending, global),
            }
        }),
        b[o] == 0x21 && o + 1 < b.len() && b[o + 1] == 0xFE ==> spec_block_walk(
            b,
            o,
            frames,
            pending,
            global,
        ) == (match spec_skip(b, o + 2) {
            Option::None => Result::<Seq<FrameData>, GifError>::Err(GifError::Truncated),
            Option::Some(o3) => spec_block_walk(b, o3, frames, pending, global),
        }),
        b[o] == 0x21 && o + 1 < b.len() && b[o + 1] != 0xF9 && b[o + 1] != 0x01 && b[o + 1]
            != 0xFF && b[o + 1] != 0xFE ==> spec_block_walk(b, o, frames, pending, global)
            == spec_block_walk(b, o + 2, frames, pending, global),
        b[o] == 0x3B ==> spec_block_walk(b, o, frames, pending, global) == Result::<
            Seq<FrameData>,
            GifError,
        >::Ok(
            if pending {
                frames.drop_last()
            } else {
                frames
            },
        ),
        b[o] != 0x2C && b[o] != 0x21 && b[o] != 0x3B ==> spec_block_walk(
            b,
            o,
            frames,
            pending,
            global,
        ) == spec_block_walk(b, o + 1, frames, pending, global),
{
    reveal(spec_block_walk);
}

/// Past the last input byte the walk closes the file like a trailer.
proof fn lemma_walk_end(b: Seq<u8>, o: int, frames: Seq<FrameData>, pending: bool, global: Seq<Color>)
    requires
        o >= b.len(),
        0 <= o,
        b.len() <= usize::MAX,
    ensures
        spec_block_walk(b, o, frames, pending, global) == Result::<Seq<FrameData>, GifError>::Ok(
            if pending {
                frames.drop_last()
            } else {
                frames
            },
        ),
{
    reveal(spec_block_walk);
}

/// The frame carries exactly what the walk's frame record holds, with
/// no compositor buffers yet.
pub open spec fn frame_matches(f: Frame, d: FrameData) -> bool {
    &&& f.gcd == d.gcd
    &&& f.im == d.im
    &&& f.color_table@ == d.color_table
    &&& f.index_stream@ == d.index_stream
    &&& f.cached_frame is None
    &&& f.previous_pixels is None
}

/// The decoded frame list carries exactly the walk's frame records.
pub open spec fn frames_match(fs: Seq<Frame>, ds: Seq<FrameData>) -> bool {
    &&& fs.len() == ds.len()
    &&& forall|i: int| 0 <= i < fs.len() ==> frame_matches(#[trigger] fs[i], ds[i])
}

/// The walk's view of a decoded frame list.
pub open spec fn frames_data(fs: Seq<Frame>) -> Seq<FrameData> {
    Seq::new(
        fs.len(),
        |i: int|
            FrameData {
                gcd: fs[i].gcd,
                im: fs[i].im,
                color_table: fs[i].color_table@,
                index_stream: fs[i].index_stream@,
            },
    )
}

/// The global color table as the header declares it.
pub open spec fn spec_global_colors(b: Seq<u8>) -> Seq<Color> {
    if spec_lsd(b).global_color_flag {
        spec_color_table(b, 13, spec_global_count(b))
    } else {
        Seq::<Color>::empty()
    }
}

/// What `decode_buffer` promises of its result: the decoded value is
/// well formed with its header fields read exactly from the bytes, and
/// each header-level rejection happens on exactly the stated inputs.
pub open spec fn decode_result_props(b: Seq<u8>, r: Result<Gif, GifError>) -> bool {
    &&& r is Ok ==> {
        let g = r->Ok_0;
        &&& gif_wf(g)
        &&& pristine(g)
        &&& sig_ok(b)
        &&& version_ascii(b)
        &&& b.len() >= spec_header_len(b)
        &&& g.version@ == b.subrange(3, 6)
        &&& g.lsd == spec_lsd(b)
        &&& g.lsd.global_color_flag ==> g.global_table@ == spec_color_table(
            b,
            13,
            spec_global_count(b),
        )
        &&& !g.lsd.global_color_flag ==> g.global_table@.len() == 0
    }
    &&& b.len() < 3 ==> r == Result::<Gif, GifError>::Err(GifError::Truncated)
    &&& b.len() >= 3 && !sig_ascii(b) ==> r == Result::<Gif, GifError>::Err(
        GifError::BadEncoding,
    )
    &&& sig_ascii(b) && !sig_ok(b) ==> r == Result::<Gif, GifError>::Err(GifError::BadSignature)
    &&& sig_ok(b) && b.len() < 6 ==> r == Result::<Gif, GifError>::Err(GifError::Truncated)
    &&& sig_ok(b) && b.len() >= 6 && !version_ascii(b) ==> r == Result::<Gif, GifError>::Err(
        GifError::BadEncoding,
    )
    &&& sig_ok(b) && version_ascii(b) && b.len() < spec_header_len(b) ==> r == Result::<
        Gif,
        GifError,
    >::Err(GifError::Truncated)
    &&& (sig_ok(b) && version_ascii(b) && b.len() >= spec_header_len(b)) ==> {
        let walk = spec_block_walk(
            b,
            spec_header_len(b),
            Seq::<FrameData>::empty(),
            false,
            spec_global_colors(b),
        );
        &&& (r is Ok <==> walk is Ok)
        &&& (r is Ok ==> frames_match((r->Ok_0).frames@, walk->Ok_0))
        &&& (r is Err ==> r->Err_0 == walk->Err_0)
    }
}

/// The decoder: consumes a byte buffer and produces a `Gif`.
pub struct Decoder {}

impl Decoder {
    /// Decode an in-memory GIF byte buffer.
    pub fn decode_buffer(buffer: Vec<u8>) -> (r: Result<Gif, GifError>)
        ensures
            decode_result_props(buffer@, r),
    {
        Decoder::decode_internal(&buffer)
    }

    /// The byte at `i`, when the input is long enough.
    fn get_byte(contents: &Vec<u8>, i: usize) -> (r: Option<u8>)
        ensures
            r is Some <==> i < contents@.len(),
            r is Some ==> r->0 == contents@[i as int],
    {
        if i < contents.len() {
            Some(contents[i])
        } else {
            None
        }
    }

    /// The 16-bit little-endian value at `i`, when the input is long
    /// enough.
    fn read_u16_le(contents: &Vec<u8>, i: usize) -> (r: Option<u16>)
        ensures
            r is Some <==> i + 2 <= contents@.len(),
            r is Some ==> r->0 == u16_le(contents@, i as int),
    {
        if i < contents.len() && i + 1 < contents.len() {
            Some(contents[i] as u16 + 256 * (contents[i + 1] as u16))
        } else {
            None
        }
    }

    /// Advance the running offset, stopping at the largest representable
    /// position instead of wrapping.
    fn increment_offset(offset: &mut usize, amount: usize)
        ensures
            *old(offset) + amount <= usize::MAX ==> *final(offset) == *old(offset) + amount,
            *old(offset) + amount > usize::MAX ==> *final(offset) == usize::MAX,
    {
        if amount <= usize::MAX - *offset {
            *offset = *offset + amount;
        } else {
            *offset = usize::MAX;
        }
    }

    /// Skip data sub-blocks: repeatedly read a length byte and jump over
    /// that many bytes until a zero length or the end of input. The
    /// offset lands exactly where `spec_skip` says; a missing length
    /// byte is `Truncated`.
    pub(crate) fn skip(offset: &mut usize, contents: &Vec<u8>) -> (r: Result<(), GifError>)
        ensures
            *final(offset) >= *old(offset),
            r is Ok <==> spec_skip(contents@, *old(offset) as int) is Some,
            r is Ok ==> *final(offset) as int == spec_skip(contents@, *old(offset) as int)->0,
            r is Err ==> r->Err_0 == GifError::Truncated,
    {
        let n: usize = contents.len();
        loop
            invariant
                contents@.len() == n,
                *offset >= *old(offset),
                spec_skip(contents@, *old(offset) as int) == spec_skip(
                    contents@,
                    *offset as int,
                ),
            decreases crate::lzw::remaining_bytes(contents@.len() as int, *offset as int),
        {
            let data_sub_blocks_count: u8 = match Decoder::get_byte(contents, *offset) {
                Some(b) => b,
                None => {
                    return Err(GifError::Truncated);
                },
            };
            Decoder::increment_offset(offset, 1);
            if data_sub_blocks_count > 0 {
                Decoder::increment_offset(offset, data_sub_blocks_count as usize);
            } else {
                return Ok(());
            }
            if *offset >= contents.len() - 1 {
                return Ok(());
            }
        }
    }

    /// Copy a color table; used to give a frame the global table.
    fn copy_color_table(t: &Vec<Color>) -> (r: Vec<Color>)
        ensures
            r@ == t@,
    {
        let mut r: Vec<Color> = Vec::new();
        let mut i: usize = 0;
        while i < t.len()
            invariant
                i <= t@.len(),
                r@ == t@.subrange(0, i as int),
            decreases t@.len() - i,
        {
            r.push(t[i]);
            i = i + 1;
        }
        proof {
            assert(t@.subrange(0, t@.len() as int) == t@);
        }
        r
    }

    /// Read `count` RGB triples starting at `start`.
    fn parse_color_table(contents: &Vec<u8>, start: usize, count: usize) -> (r: Result<
        Vec<Color>,
        GifError,
    >)
        requires
            start <= contents@.len(),
            count <= 256,
        ensures
            r is Ok <==> start + 3 * count <= contents@.len(),
            r is Ok ==> (r->Ok_0)@ == spec_color_table(contents@, start as int, count as int),
            r is Err ==> r->Err_0 == GifError::Truncated,
    {
        let remaining: usize = contents.len() - start;
        if count > remaining / 3 {
            proof {
                assert(3 * count > remaining) by (nonlinear_arith)
                    requires
                        count > remaining / 3 && remaining >= 0 && count >= 0,
                ;
            }
            return Err(GifError::Truncated);
        }
        proof {
            assert(3 * count <= remaining) by (nonlinear_arith)
                requires
                    count <= remaining / 3 && remaining >= 0 && count >= 0,
            ;
            assert(start + 3 * count <= contents@.len());
            assert(contents@.len() <= usize::MAX);
        }
        let mut table: Vec<Color> = Vec::new();
        let mut j: usize = 0;
        while j < count
            invariant
                j <= count,
                count <= 256,
                start + 3 * count <= contents@.len(),
                start + 3 * count <= usize::MAX,
                table@.len() == j,
                forall|jj: int|
                    0 <= jj < j ==> table@[jj] == spec_color(contents@, start + 3 * jj),
            decreases count - j,
        {
            let i: usize = start + 3 * j;
            table.push(
                Color {
                    red: contents[i] as u32,
                    green: contents[i + 1] as u32,
                    blue: contents[i + 2] as u32,
                },
            );
            j = j + 1;
        }
        proof {
            assert(table@ =~= spec_color_table(contents@, start as int, count as int));
        }
        Ok(table)
    }

    /// Parse the logical screen descriptor at bytes 6..13 into `gif.lsd`.
    fn handle_logical_screen_descriptor(gif: &mut Gif, contents: &Vec<u8>) -> (r: Result<
        (),
        GifError,
    >)
        ensures
            r is Ok <==> contents@.len() >= 13,
            r is Ok ==> final(gif).lsd == spec_lsd(contents@) && lsd_wf(final(gif).lsd),
            r is Err ==> r->Err_0 == GifError::Truncated,
            final(gif).version == old(gif).version,
            final(gif).global_table == old(gif).global_table,
            final(gif).frames == old(gif).frames,
    {
        let width: u16 = match Decoder::read_u16_le(contents, 6) {
            Some(v) => v,
            None => {
                return Err(GifError::Truncated);
            },
        };
        gif.lsd.width = width as u32;
        let height: u16 = match Decoder::read_u16_le(contents, 8) {
            Some(v) => v,
            None => {
                return Err(GifError::Truncated);
            },
        };
        gif.lsd.height = height as u32;
        let packed_field: u8 = match Decoder::get_byte(contents, 10) {
            Some(v) => v,
            None => {
                return Err(GifError::Truncated);
            },
        };
        gif.lsd.global_color_flag = (packed_field & 0b1000_0000) != 0;
        gif.lsd.color_resolution = (packed_field & 0b0111_0000) as u32;
        gif.lsd.sorted_flag = (packed_field & 0b0000_1000) != 0;
        gif.lsd.global_color_size = (packed_field & 0b0000_0111) as u32;
        assert(packed_field & 0b0000_0111 < 8 && packed_field & 0b0111_0000 < 256)
            by (bit_vector);
        let background_color_index: u8 = match Decoder::get_byte(contents, 11) {
            Some(v) => v,
            None => {
                return Err(GifError::Truncated);
            },
        };
        gif.lsd.background_color_index = background_color_index as u32;
        let pixel_aspect_ratio: u8 = match Decoder::get_byte(contents, 12) {
            Some(v) => v,
            None => {
                return Err(GifError::Truncated);
            },
        };
        gif.lsd.pixel_aspect_ratio = pixel_aspect_ratio as u32;
        Ok(())
    }

    /// Parse a graphics control extension at `*offset` and open a new
    /// frame slot carrying it (or overwrite a still-unfilled slot, so a
    /// later extension overrides an earlier one).
    fn handle_graphic_control_extension(
        offset: &mut usize,
        gif: &mut Gif,
        contents: &Vec<u8>,
        gce_pending: &mut bool,
    ) -> (r: Result<(), GifError>)
        requires
            *old(gce_pending) ==> old(gif).frames@.len() >= 1,
        ensures
            r is Ok <==> *old(offset) + 6 <= contents@.len(),
            r is Ok ==> {
                let n = final(gif).frames@.len();
                &&& n == old(gif).frames@.len() + (if *old(gce_pending) {
                    0int
                } else {
                    1int
                })
                &&& forall|i: int| 0 <= i < n - 1 ==> final(gif).frames@[i] == old(gif).frames@[i]
                &&& final(gif).frames@[n - 1].gcd == spec_gce(contents@, *old(offset) as int)
                &&& gce_wf(final(gif).frames@[n - 1].gcd)
                &&& final(gif).frames@[n - 1].im == (ImageDescriptor {
                    left: 0,
                    top: 0,
                    width: 0,
                    height: 0,
                    interlace_flag: false,
                    sort_flag: false,
                })
                &&& final(gif).frames@[n - 1].color_table@.len() == 0
                &&& final(gif).frames@[n - 1].index_stream@.len() == 0
                &&& final(gif).frames@[n - 1].cached_frame is None
                &&& final(gif).frames@[n - 1].previous_pixels is None
                &&& *final(offset) == *old(offset) + 6
                &&& *final(gce_pending)
            },
            r is Err ==> r->Err_0 == GifError::Truncated,
            *final(offset) >= *old(offset),
            final(gif).version == old(gif).version,
            final(gif).lsd == old(gif).lsd,
            final(gif).global_table == old(gif).global_table,
    {
        let content_len: usize = contents.len();
        assert(contents@.len() == content_len);
        let mut parsed_frame = Frame::default();

        match Decoder::get_byte(contents, *offset) {
            Some(_) => {},
            None => {
                return Err(GifError::Truncated);
            },
        }
        Decoder::increment_offset(offset, 1);

        let packed_field: u8 = match Decoder::get_byte(contents, *offset) {
            Some(v) => v,
            None => {
                return Err(GifError::Truncated);
            },
        };
        assert((packed_field & 0b0001_1100) >> 2 < 8) by (bit_vector);
        parsed_frame.gcd.disposal_method = ((packed_field & 0b0001_1100) >> 2) as u32;
        parsed_frame.gcd.user_input_flag = (packed_field & 0b0000_0010) != 0;
        parsed_frame.gcd.transparent_color_flag = (packed_field & 0b0000_0001) != 0;
        Decoder::increment_offset(offset, 1);

        let delay_time: u16 = match Decoder::read_u16_le(contents, *offset) {
            Some(v) => v,
            None => {
                return Err(GifError::Truncated);
            },
        };
        parsed_frame.gcd.delay_time = delay_time as u32;
        Decoder::increment_offset(offset, 2);

        let transparent_color_index: u8 = match Decoder::get_byte(contents, *offset) {
            Some(v) => v,
            None => {
                return Err(GifError::Truncated);
            },
        };
        parsed_frame.gcd.transparent_color_index = transparent_color_index as u32;
        Decoder::increment_offset(offset, 1);

        match Decoder::get_byte(contents, *offset) {
            Some(_) => {},
            None => {
                return Err(GifError::Truncated);
            },
        }
        Decoder::increment_offset(offset, 1);

        if *gce_pending {
            let n = gif.frames.len();
            gif.frames.set(n - 1, parsed_frame);
        } else {
            gif.frames.push(parsed_frame);
        }
        *gce_pending = true;
        Ok(())
    }

    /// Skip a plain text extension: its size byte, the fixed header it
    /// announces, then its data sub-blocks.
    fn handle_plain_text_extension(offset: &mut usize, contents: &Vec<u8>) -> (r: Result<
        (),
        GifError,
    >)
        ensures
            *final(offset) >= *old(offset),
            r is Ok <==> (*old(offset) as int) < contents@.len() && spec_skip(
                contents@,
                sat_add(*old(offset) + 1, contents@[*old(offset) as int] as int),
            ) is Some,
            r is Ok ==> *final(offset) as int == spec_skip(
                contents@,
                sat_add(*old(offset) + 1, contents@[*old(offset) as int] as int),
            )->0,
            r is Err ==> r->Err_0 == GifError::Truncated,
    {
        let block_size: u8 = match Decoder::get_byte(contents, *offset) {
            Some(v) => v,
            None => {
                return Err(GifError::Truncated);
            },
        };
        Decoder::increment_offset(offset, 1 + block_size as usize);
        Decoder::skip(offset, contents)
    }

    /// Skip an application extension: its size byte, the header bytes it
    /// announces (which must lie within the input), then its data
    /// sub-blocks.
    fn handle_application_extension(offset: &mut usize, contents: &Vec<u8>) -> (r: Result<
        (),
        GifError,
    >)
        ensures
            *final(offset) >= *old(offset),
            r is Ok <==> (*old(offset) as int) < contents@.len() && *old(offset) + 1
                + contents@[*old(offset) as int] <= contents@.len() && spec_skip(
                contents@,
                *old(offset) + 1 + contents@[*old(offset) as int],
            ) is Some,
            r is Ok ==> *final(offset) as int == spec_skip(
                contents@,
                *old(offset) + 1 + contents@[*old(offset) as int],
            )->0,
            r is Err ==> r->Err_0 == GifError::Truncated,
    {
        let content_len: usize = contents.len();
        assert(contents@.len() == content_len);
        let block_size: u8 = match Decoder::get_byte(contents, *offset) {
            Some(v) => v,
            None => {
                return Err(GifError::Truncated);
            },
        };
        Decoder::increment_offset(offset, 1);
        if (block_size as usize) > contents.len() - *offset {
            return Err(GifError::Truncated);
        }
        Decoder::increment_offset(offset, block_size as usize);
        Decoder::skip(offset, contents)
    }

    /// Skip a comment extension: only data sub-blocks.
    fn handle_comment_extension(offset: &mut usize, contents: &Vec<u8>) -> (r: Result<
        (),
        GifError,
    >)
        ensures
            *final(offset) >= *old(offset),
            r is Ok <==> spec_skip(contents@, *old(offset) as int) is Some,
            r is Ok ==> *final(offset) as int == spec_skip(contents@, *old(offset) as int)->0,
            r is Err ==> r->Err_0 == GifError::Truncated,
    {
        Decoder::skip(offset, contents)
    }

    /// Parse an image descriptor at `*offset`, read its color table (or
    /// inherit the global one), run the LZW decoder for its pixels and
    /// de-interlace them when flagged, filling the pending frame slot
    /// (or a fresh default slot when no extension preceded).
    fn handle_image_descriptor(
        offset: &mut usize,
        gif: &mut Gif,
        contents: &Vec<u8>,
        gce_pending: &mut bool,
    ) -> (r: Result<(), GifError>)
        requires
            *old(gce_pending) ==> old(gif).frames@.len() >= 1 && old(gif).frames@[old(
                gif,
            ).frames@.len() - 1].cached_frame is None && old(gif).frames@[old(gif).frames@.len()
                - 1].previous_pixels is None && gce_wf(
                old(gif).frames@[old(gif).frames@.len() - 1].gcd,
            ),
            color_table_wf(old(gif).global_table@),
        ensures
            r is Ok ==> {
                let n = final(gif).frames@.len();
                let o = *old(offset) as int;
                let f = final(gif).frames@[n - 1];
                &&& n == old(gif).frames@.len() + (if *old(gce_pending) {
                    0int
                } else {
                    1int
                })
                &&& forall|i: int| 0 <= i < n - 1 ==> final(gif).frames@[i] == old(gif).frames@[i]
                &&& f.gcd == (if *old(gce_pending) {
                    old(gif).frames@[n - 1].gcd
                } else {
                    GraphicsControlExtension {
                        disposal_method: 0,
                        user_input_flag: false,
                        transparent_color_flag: false,
                        delay_time: 0,
                        transparent_color_index: 0,
                    }
                })
                &&& gce_wf(f.gcd)
                &&& f.im == spec_im(contents@, o)
                &&& im_wf(f.im)
                &&& (spec_local_flag(contents@, o) ==> f.color_table@ == spec_color_table(
                    contents@,
                    o + 9,
                    spec_local_count(contents@, o),
                ))
                &&& (!spec_local_flag(contents@, o) ==> f.color_table@ == old(
                    gif,
                ).global_table@)
                &&& color_table_wf(f.color_table@)
                &&& f.index_stream@.len() == f.im.width * f.im.height
                &&& f.cached_frame is None
                &&& f.previous_pixels is None
                &&& !*final(gce_pending)
                &&& ({
                    let pos = spec_im_data_start(contents@, o);
                    let lz = crate::lzw::spec_lzw_decode(
                        contents@,
                        pos + 1,
                        contents@[pos],
                        f.im.width * f.im.height,
                    );
                    &&& (f.im.interlace_flag && f.im.width > 0 ==> f.index_stream@
                        == crate::deinterlace::spec_deinterlace(lz.0, f.im.width as int))
                    &&& (!(f.im.interlace_flag && f.im.width > 0) ==> f.index_stream@ == lz.0)
                    &&& *final(offset) as int == lz.1
                })
            },
            r is Ok <==> spec_im_data_start(contents@, *old(offset) as int) < contents@.len(),
            r is Err ==> r->Err_0 == GifError::Truncated,
            *final(offset) >= *old(offset),
            final(gif).version == old(gif).version,
            final(gif).lsd == old(gif).lsd,
            final(gif).global_table == old(gif).global_table,
    {
        let content_len: usize = contents.len();
        assert(contents@.len() == content_len);
        let ghost o = *offset as int;
        if !*gce_pending {
            gif.frames.push(Frame::default());
        }
        let n = gif.frames.len();

        let left: u16 = match Decoder::read_u16_le(contents, *offset) {
            Some(v) => v,
            None => {
                return Err(GifError::Truncated);
            },
        };
        Decoder::increment_offset(offset, 2);
        let top: u16 = match Decoder::read_u16_le(contents, *offset) {
            Some(v) => v,
            None => {
                return Err(GifError::Truncated);
            },
        };
        Decoder::increment_offset(offset, 2);
        let width: u16 = match Decoder::read_u16_le(contents, *offset) {
            Some(v) => v,
            None => {
                return Err(GifError::Truncated);
            },
        };
        Decoder::increment_offset(offset, 2);
        let height: u16 = match Decoder::read_u16_le(contents, *offset) {
            Some(v) => v,
            None => {
                return Err(GifError::Truncated);
            },
        };
        Decoder::increment_offset(offset, 2);
        let packed_field: u8 = match Decoder::get_byte(contents, *offset) {
            Some(v) => v,
            None => {
                return Err(GifError::Truncated);
            },
        };
        Decoder::increment_offset(offset, 1);

        let im = ImageDescriptor {
            left: left as u32,
            top: top as u32,
            width: width as u32,
            height: height as u32,
            interlace_flag: (packed_field & 0b0100_0000) != 0,
            sort_flag: (packed_field & 0b0010_0000) != 0,
        };
        assert(im == spec_im(contents@, o));

        let color_table: Vec<Color> = if (packed_field & 0b1000_0000) != 0 {
            let size_field: u32 = (packed_field & 0b0000_0111) as u32;
            assert(packed_field & 0b0000_0111 < 8) by (bit_vector);
            let count: usize = 1usize << ((size_field + 1) as usize);
            proof {
                lemma2_to64();
                lemma_usize_shl_is_mul(1, (size_field + 1) as usize);
                assert(count == spec_local_count(contents@, o));
                assert(count <= 256);
            }
            let t = match Decoder::parse_color_table(contents, *offset, count) {
                Ok(t) => t,
                Err(e) => {
                    return Err(e);
                },
            };
            let amount: usize = 3 * count;
            Decoder::increment_offset(offset, amount);
            t
        } else {
            Decoder::copy_color_table(&gif.global_table)
        };

        let lzw_minimum_code_size: u8 = match Decoder::get_byte(contents, *offset) {
            Some(v) => v,
            None => {
                return Err(GifError::Truncated);
            },
        };
        Decoder::increment_offset(offset, 1);

        proof {
            assert((width as usize) * (height as usize) <= 65535 * 65535) by (nonlinear_arith)
                requires
                    width <= 65535 && height <= 65535,
            ;
        }
        let npix: usize = (width as usize) * (height as usize);
        let mut index_stream: Vec<u8> = Decoder::decode_index_stream(
            contents,
            offset,
            lzw_minimum_code_size,
            npix,
        );
        if im.interlace_flag && width > 0 {
            proof {
                assert(npix as int / width as int == height as int && npix == (width as usize)
                    * (npix as int / width as int)) by (nonlinear_arith)
                    requires
                        npix == (width as usize) * (height as usize) && width >= 1,
                ;
            }
            index_stream = Decoder::deinterlace(&index_stream, width as usize);
        }

        let new_frame = Frame {
            gcd: if *gce_pending {
                let fr = &gif.frames[n - 1];
                fr.gcd
            } else {
                GraphicsControlExtension {
                    disposal_method: 0,
                    user_input_flag: false,
                    transparent_color_flag: false,
                    delay_time: 0,
                    transparent_color_index: 0,
                }
            },
            im,
            color_table,
            index_stream,
            cached_frame: None,
            previous_pixels: None,
        };
        gif.frames.set(n - 1, new_frame);
        *gce_pending = false;
        Ok(())
    }

    /// Decode a byte buffer held behind a reference; `decode_buffer` is
    /// the public entry.
    #[verifier::rlimit(100)]
    fn decode_internal(contents: &Vec<u8>) -> (r: Result<Gif, GifError>)
        ensures
            decode_result_props(contents@, r),
    {
        if contents.len() < 3 {
            return Err(GifError::Truncated);
        }
        let b0: u8 = contents[0];
        let b1: u8 = contents[1];
        let b2: u8 = contents[2];
        if b0 >= 0x80 || b1 >= 0x80 || b2 >= 0x80 {
            return Err(GifError::BadEncoding);
        }
        if !(b0 == 0x47 && b1 == 0x49 && b2 == 0x46) {
            return Err(GifError::BadSignature);
        }

        let mut gif = Gif::default();
        if contents.len() < 6 {
            return Err(GifError::Truncated);
        }
        let v0: u8 = contents[3];
        let v1: u8 = contents[4];
        let v2: u8 = contents[5];
        if v0 >= 0x80 || v1 >= 0x80 || v2 >= 0x80 {
            return Err(GifError::BadEncoding);
        }
        let mut version: Vec<u8> = Vec::new();
        version.push(v0);
        version.push(v1);
        version.push(v2);
        proof {
            assert(version@ =~= contents@.subrange(3, 6));
        }
        gif.version = version;

        match Decoder::handle_logical_screen_descriptor(&mut gif, contents) {
            Ok(_) => {},
            Err(error) => {
                return Err(error);
            },
        }

        let mut offset: usize = 13;

        if gif.lsd.global_color_flag {
            let size_field: u32 = gif.lsd.global_color_size;
            let count: usize = 1usize << ((size_field + 1) as usize);
            proof {
                lemma2_to64();
                lemma_usize_shl_is_mul(1, (size_field + 1) as usize);
                assert(count == spec_global_count(contents@));
                assert(count <= 256);
            }
            let global_color_vector: Vec<Color> = match Decoder::parse_color_table(
                contents,
                13,
                count,
            ) {
                Ok(t) => t,
                Err(e) => {
                    return Err(e);
                },
            };
            let amount: usize = 3 * count;
            Decoder::increment_offset(&mut offset, amount);
            gif.global_table = global_color_vector;
        }

        let mut gce_pending: bool = false;
        let ghost b = contents@;
        let ghost glob = gif.global_table@;
        let ghost walk0 = spec_block_walk(b, spec_header_len(b), Seq::<FrameData>::empty(), false, glob);
        proof {
            assert(contents@.len() <= usize::MAX);
            assert(offset == spec_header_len(b));
            assert(glob == spec_global_colors(b));
            assert(frames_data(gif.frames@) =~= Seq::<FrameData>::empty());
        }
        loop
            invariant
                contents@ == b,
                b.len() <= usize::MAX,
                sig_ok(b),
                version_ascii(b),
                13 <= b.len(),
                b.len() >= spec_header_len(b),
                offset >= spec_header_len(b),
                glob == gif.global_table@,
                glob == spec_global_colors(b),
                walk0 == spec_block_walk(b, spec_header_len(b), Seq::<FrameData>::empty(), false, glob),
                spec_block_walk(b, offset as int, frames_data(gif.frames@), gce_pending, glob)
                    == walk0,
                gif.version@ == b.subrange(3, 6),
                gif.lsd == spec_lsd(b),
                lsd_wf(gif.lsd),
                color_table_wf(gif.global_table@),
                gif.lsd.global_color_flag ==> gif.global_table@ == spec_color_table(
                    b,
                    13,
                    spec_global_count(b),
                ),
                !gif.lsd.global_color_flag ==> gif.global_table@.len() == 0,
                forall|i: int|
                    0 <= i < gif.frames@.len() ==> frame_wf(#[trigger] gif.frames@[i], gif.lsd),
                forall|i: int|
                    0 <= i < gif.frames@.len() ==> (#[trigger] gif.frames@[i]).cached_frame
                        is None && gif.frames@[i].previous_pixels is None,
                gce_pending ==> gif.frames@.len() >= 1 && gif.frames@[gif.frames@.len()
                    - 1].cached_frame is None && gif.frames@[gif.frames@.len()
                    - 1].previous_pixels is None,
            decreases crate::lzw::remaining_bytes(contents@.len() as int, offset as int),
        {
            let ghost o_entry = offset as int;
            let ghost fd_entry = frames_data(gif.frames@);
            let ghost pending_entry = gce_pending;
            let introducer: u8 = match Decoder::get_byte(contents, offset) {
                Some(v) => v,
                None => {
                    // the input ends between blocks: treat it as the
                    // trailer; a pending extension slot yields no frame
                    if gce_pending {
                        gif.frames.pop();
                    }
                    proof {
                        lemma_walk_end(b, o_entry, fd_entry, pending_entry, glob);
                        assert(walk0 == Result::<Seq<FrameData>, GifError>::Ok(
                            if pending_entry {
                                fd_entry.drop_last()
                            } else {
                                fd_entry
                            },
                        ));
                        if pending_entry {
                            assert(frames_data(gif.frames@) =~= fd_entry.drop_last());
                        }
                        assert(frames_match(gif.frames@, walk0->Ok_0));
                    }
                    return Ok(gif);
                },
            };
            Decoder::increment_offset(&mut offset, 1);
            proof {
                lemma_walk_step(b, o_entry, fd_entry, pending_entry, glob);
            }
            if introducer == 0x2C {
                let ghost pre_frames = gif.frames@;
                let ghost pre_pending = gce_pending;
                let ghost pre_offset = offset as int;
                match Decoder::handle_image_descriptor(
                    &mut offset,
                    &mut gif,
                    contents,
                    &mut gce_pending,
                ) {
                    Ok(_) => {},
                    Err(error) => {
                        proof {
                            assert(spec_image_block(
                                b,
                                pre_offset,
                                frames_data(pre_frames),
                                pre_pending,
                                glob,
                            ) is None);
                            assert(walk0 == Result::<Seq<FrameData>, GifError>::Err(
                                GifError::Truncated,
                            ));
                        }
                        return Err(error);
                    },
                }
                proof {
                    let st = spec_image_block(
                        b,
                        pre_offset,
                        frames_data(pre_frames),
                        pre_pending,
                        glob,
                    )->0;
                    assert(frames_data(gif.frames@) =~= st.0);
                    assert(offset as int == st.1);
                    assert(spec_block_walk(b, offset as int, frames_data(gif.frames@), false, glob)
                        == walk0);
                }
                proof {
                    assert forall|fi: int|
                        0 <= fi < gif.frames@.len() implies frame_wf(
                        #[trigger] gif.frames@[fi],
                        gif.lsd,
                    ) by {
                        if fi < gif.frames@.len() - 1 {
                            assert(gif.frames@[fi] == pre_frames[fi]);
                            assert(frame_wf(pre_frames[fi], gif.lsd));
                        }
                    }
                }
            } else if introducer == 0x21 {
                let label: u8 = match Decoder::get_byte(contents, offset) {
                    Some(v) => v,
                    None => {
                        proof {
                            assert(walk0 == Result::<Seq<FrameData>, GifError>::Err(
                                GifError::Truncated,
                            ));
                        }
                        return Err(GifError::Truncated);
                    },
                };
                Decoder::increment_offset(&mut offset, 1);
                if label == 0xF9 {
                    let ghost pre_frames = gif.frames@;
                    let ghost pre_pending = gce_pending;
                    let ghost pre_offset = offset as int;
                    match Decoder::handle_graphic_control_extension(
                        &mut offset,
                        &mut gif,
                        contents,
                        &mut gce_pending,
                    ) {
                        Ok(_) => {},
                        Err(error) => {
                            proof {
                                assert(pre_offset + 6 > b.len());
                                assert(walk0 == Result::<Seq<FrameData>, GifError>::Err(
                                    GifError::Truncated,
                                ));
                            }
                            return Err(error);
                        },
                    }
                    proof {
                        let fr2 = if pre_pending {
                            frames_data(pre_frames).update(
                                frames_data(pre_frames).len() - 1,
                                gce_frame_data(b, pre_offset),
                            )
                        } else {
                            frames_data(pre_frames).push(gce_frame_data(b, pre_offset))
                        };
                        let n = gif.frames@.len() as int;
                        assert(gif.frames@[n - 1].color_table@ =~= Seq::<Color>::empty());
                        assert(gif.frames@[n - 1].index_stream@ =~= Seq::<u8>::empty());
                        assert(frames_data(gif.frames@) =~~= fr2);
                        assert(pre_offset == o_entry + 2);
                        assert(o_entry + 8 <= b.len() as int);
                        assert(fd_entry == frames_data(pre_frames));
                        assert(fr2 == (if pending_entry {
                            fd_entry.update(fd_entry.len() - 1, gce_frame_data(b, o_entry + 2))
                        } else {
                            fd_entry.push(gce_frame_data(b, o_entry + 2))
                        }));
                        assert(walk0 == spec_block_walk(b, o_entry + 8, fr2, true, glob));
                        assert(offset as int == o_entry + 8);
                        assert(spec_block_walk(
                            b,
                            offset as int,
                            frames_data(gif.frames@),
                            true,
                            glob,
                        ) == walk0);
                    }
                    proof {
                        assert forall|fi: int|
                            0 <= fi < gif.frames@.len() implies frame_wf(
                            #[trigger] gif.frames@[fi],
                            gif.lsd,
                        ) by {
                            if fi < gif.frames@.len() - 1 {
                                assert(gif.frames@[fi] == pre_frames[fi]);
                                assert(frame_wf(pre_frames[fi], gif.lsd));
                            } else {
                                assert(gce_wf(gif.frames@[fi].gcd));
                                assert(gif.frames@[fi].im.width == 0);
                                assert(gif.frames@[fi].index_stream@.len() == 0);
                                assert(gif.frames@[fi].im.width * gif.frames@[fi].im.height
                                    == 0) by (nonlinear_arith)
                                    requires
                                        gif.frames@[fi].im.width == 0,
                                ;
                            }
                        }
                    }
                } else if label == 0x01 {
                    let ghost pre_offset = offset as int;
                    match Decoder::handle_plain_text_extension(&mut offset, contents) {
                        Ok(_) => {},
                        Err(error) => {
                            proof {
                                assert(walk0 == Result::<Seq<FrameData>, GifError>::Err(
                                    GifError::Truncated,
                                ));
                            }
                            return Err(error);
                        },
                    }
                    proof {
                        assert(offset as int == spec_skip(
                            b,
                            sat_add(pre_offset + 1, b[pre_offset] as int),
                        )->0);
                        assert(spec_block_walk(
                            b,
                            offset as int,
                            frames_data(gif.frames@),
                            gce_pending,
                            glob,
                        ) == walk0);
                    }
                } else if label == 0xFF {
                    let ghost pre_offset = offset as int;
                    match Decoder::handle_application_extension(&mut offset, contents) {
                        Ok(_) => {},
                        Err(error) => {
                            proof {
                                assert(walk0 == Result::<Seq<FrameData>, GifError>::Err(
                                    GifError::Truncated,
                                ));
                            }
                            return Err(error);
                        },
                    }
                    proof {
                        assert(offset as int == spec_skip(b, pre_offset + 1 + b[pre_offset])->0);
                        assert(spec_block_walk(
                            b,
                            offset as int,
                            frames_data(gif.frames@),
                            gce_pending,
                            glob,
                        ) == walk0);
                    }
                } else if label == 0xFE {
                    let ghost pre_offset = offset as int;
                    match Decoder::handle_comment_extension(&mut offset, contents) {
                        Ok(_) => {},
                        Err(error) => {
                            proof {
                                assert(walk0 == Result::<Seq<FrameData>, GifError>::Err(
                                    GifError::Truncated,
                                ));
                            }
                            return Err(error);
                        },
                    }
                    proof {
                        assert(offset as int == spec_skip(b, pre_offset)->0);
                        assert(spec_block_walk(
                            b,
                            offset as int,
                            frames_data(gif.frames@),
                            gce_pending,
                            glob,
                        ) == walk0);
                    }
                }
            } else if introducer == 0x3B {
                // a pending extension slot with no image yields no frame
                if gce_pending {
                    gif.frames.pop();
                }
                proof {
                    assert(walk0 == Result::<Seq<FrameData>, GifError>::Ok(
                        if pending_entry {
                            fd_entry.drop_last()
                        } else {
                            fd_entry
                        },
                    ));
                    if pending_entry {
                        assert(frames_data(gif.frames@) =~= fd_entry.drop_last());
                    }
                    assert(frames_match(gif.frames@, walk0->Ok_0));
                }
                return Ok(gif);
            }
        }
    }
}

} // verus!
