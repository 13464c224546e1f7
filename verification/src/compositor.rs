//! The frame compositor: renders a logical-screen-sized RGBA buffer for
//! a frame, building the base canvas that the previous frame's disposal
//! method prescribes (keep, restore to background, or restore to
//! previous) and painting the frame's rectangle onto it. A raw mode
//! instead emits only the frame rectangle's pixels.

use vstd::arithmetic::div_mod::lemma_fundamental_div_mod;
use vstd::prelude::*;

use crate::types::{
    canvas_len, frame_wf, gif_wf, im_wf, lsd_wf, pristine, Color, DecoderOptions, Frame, Gif,
    GifError, ImageDescriptor, LogicalScreenDescriptor,
};

verus! {

/// Byte `ch` of the pixel at `(x, y)` of an RGBA canvas `w` pixels wide.
pub open spec fn pix(s: Seq<u8>, w: int, x: int, y: int, ch: int) -> u8 {
    s[4 * (y * w + x) + ch]
}

/// Whether some frame of the file restores to previous (disposal 3).
pub open spec fn has_restore_previous(frames: Seq<Frame>) -> bool {
    exists|i: int| 0 <= i < frames.len() && (#[trigger] frames[i]).gcd.disposal_method == 3
}

/// The disposal method that governs frame `k`'s base canvas: the one of
/// the frame before it, or 0 for the first frame.
pub open spec fn prev_disposal(g: Gif, k: int) -> int {
    if k == 0 {
        0
    } else {
        g.frames@[k - 1].gcd.disposal_method as int
    }
}

/// An all-transparent canvas for the logical screen.
pub open spec fn zero_canvas(l: LogicalScreenDescriptor) -> Seq<u8> {
    Seq::new(canvas_len(l) as nat, |j: int| 0u8)
}

/// Whether `(x, y)` lies inside the frame rectangle `im`.
pub open spec fn in_rect(im: ImageDescriptor, x: int, y: int) -> bool {
    im.left <= x < im.left + im.width && im.top <= y < im.top + im.height
}

/// One byte of a raw-decoded frame: the frame rectangle's pixels in scan
/// order, four bytes each, transparent index honored, missing palette
/// entries emitted as transparent black.
pub open spec fn raw_byte(f: Frame, j: int) -> u8 {
    let p = j / 4;
    let ch = j % 4;
    let idx = f.index_stream@[p] as int;
    if idx < f.color_table@.len() {
        let col = f.color_table@[idx];
        if ch == 0 {
            col.red as u8
        } else if ch == 1 {
            col.green as u8
        } else if ch == 2 {
            col.blue as u8
        } else if f.gcd.transparent_color_flag && idx == f.gcd.transparent_color_index {
            0u8
        } else {
            255u8
        }
    } else {
        0u8
    }
}

/// A raw-decoded frame: `4 * width * height` bytes.
pub open spec fn spec_raw_frame(f: Frame) -> Seq<u8> {
    Seq::new((4 * f.im.width * f.im.height) as nat, |j: int| raw_byte(f, j))
}

/// One byte of the canvas after frame `f` is painted over `base`. Inside
/// the frame rectangle the palette color is written; under disposal 0
/// or 1 a transparent pixel leaves the base untouched, otherwise it is
/// written with alpha 0. Missing palette entries leave the base.
pub open spec fn painted_byte(
    base: Seq<u8>,
    f: Frame,
    l: LogicalScreenDescriptor,
    prev_disp: int,
    j: int,
) -> u8 {
    let w = l.width as int;
    let p = j / 4;
    let ch = j % 4;
    let x = p % w;
    let y = p / w;
    if in_rect(f.im, x, y) {
        let i = (y - f.im.top) * f.im.width + (x - f.im.left);
        let idx = f.index_stream@[i] as int;
        if idx < f.color_table@.len() {
            let col = f.color_table@[idx];
            let transparent = f.gcd.transparent_color_flag && idx
                == f.gcd.transparent_color_index;
            if prev_disp == 0 || prev_disp == 1 {
                if transparent {
                    base[j]
                } else if ch == 0 {
                    col.red as u8
                } else if ch == 1 {
                    col.green as u8
                } else if ch == 2 {
                    col.blue as u8
                } else {
                    255u8
                }
            } else {
                if ch == 0 {
                    col.red as u8
                } else if ch == 1 {
                    col.green as u8
                } else if ch == 2 {
                    col.blue as u8
                } else if transparent {
                    0u8
                } else {
                    255u8
                }
            }
        } else {
            base[j]
        }
    } else {
        base[j]
    }
}

/// The canvas after painting `f` over `base`.
pub open spec fn spec_painted(
    base: Seq<u8>,
    f: Frame,
    l: LogicalScreenDescriptor,
    prev_disp: int,
) -> Seq<u8> {
    Seq::new(canvas_len(l) as nat, |j: int| painted_byte(base, f, l, prev_disp, j))
}

/// One byte of a canvas holding `color` with alpha `alpha` inside the
/// rectangle `im` and `base`'s value outside it.
pub open spec fn bg_painted_byte(
    base: Seq<u8>,
    l: LogicalScreenDescriptor,
    im: ImageDescriptor,
    color: Color,
    alpha: u8,
    j: int,
) -> u8 {
    let w = l.width as int;
    let p = j / 4;
    let ch = j % 4;
    let x = p % w;
    let y = p / w;
    if in_rect(im, x, y) {
        if ch == 0 {
            color.red as u8
        } else if ch == 1 {
            color.green as u8
        } else if ch == 2 {
            color.blue as u8
        } else {
            alpha
        }
    } else {
        base[j]
    }
}

/// The canvas `base` with `color`/`alpha` written over the rectangle
/// `im`.
pub open spec fn spec_bg_painted(
    base: Seq<u8>,
    l: LogicalScreenDescriptor,
    im: ImageDescriptor,
    color: Color,
    alpha: u8,
) -> Seq<u8> {
    Seq::new(canvas_len(l) as nat, |j: int| bg_painted_byte(base, l, im, color, alpha, j))
}

/// The global background color, or black when the background index has
/// no entry in the global table.
pub open spec fn bg_color(g: Gif) -> Color {
    if g.lsd.background_color_index < g.global_table@.len() {
        g.global_table@[g.lsd.background_color_index as int]
    } else {
        Color { red: 0, green: 0, blue: 0 }
    }
}

/// Whether the restored background is transparent for frame `k`: its
/// transparent index names the background, or is out of range while the
/// background index is zero.
pub open spec fn bg_is_transparent(g: Gif, k: int) -> bool {
    let f = g.frames@[k];
    f.gcd.transparent_color_flag && (f.gcd.transparent_color_index
        == g.lsd.background_color_index || (f.gcd.transparent_color_index
        >= f.color_table@.len() && g.lsd.background_color_index == 0))
}

/// The restore-to-background base canvas for frame `k`: transparent
/// everywhere except the previous frame's rectangle, which holds the
/// background color.
pub open spec fn spec_bg_canvas(g: Gif, k: int) -> Seq<u8> {
    spec_bg_painted(
        zero_canvas(g.lsd),
        g.lsd,
        g.frames@[k - 1].im,
        bg_color(g),
        if bg_is_transparent(g, k) {
            0u8
        } else {
            255u8
        },
    )
}

/// The most recent `previous_pixels` snapshot at or before frame `i`.
pub open spec fn stored_previous(frames: Seq<Frame>, i: int) -> Option<Seq<u8>>
    decreases i + 1,
{
    if i < 0 {
        Option::None
    } else if frames[i].previous_pixels is Some {
        Option::Some((frames[i].previous_pixels->0)@)
    } else {
        stored_previous(frames, i - 1)
    }
}

/// The view of an optional borrowed byte buffer.
pub open spec fn rolling_view(maybe: Option<&Vec<u8>>) -> Option<Seq<u8>> {
    match maybe {
        Option::Some(p) => Option::Some(p@),
        Option::None => Option::None,
    }
}

/// The base canvas onto which frame `k` is painted, as prescribed by
/// the previous frame's disposal method and the options. `rolling` is
/// the sequential renderer's running restore-to-previous snapshot; the
/// single-frame path passes none and the stored snapshots are searched.
pub open spec fn spec_base_canvas(
    g: Gif,
    k: int,
    opts: DecoderOptions,
    rolling: Option<Seq<u8>>,
) -> Seq<u8>
    decreases k, 0int,
{
    let pd = prev_disposal(g, k);
    if opts.disable_disposal_methods {
        zero_canvas(g.lsd)
    } else if opts.implement_disposal_previous && pd == 3 {
        match rolling {
            Option::Some(p) => p,
            Option::None => match stored_previous(g.frames@, k - 1) {
                Option::Some(p) => p,
                Option::None => zero_canvas(g.lsd),
            },
        }
    } else if pd == 2 {
        spec_bg_canvas(g, k)
    } else if k <= 0 {
        zero_canvas(g.lsd)
    } else if g.frames@[k - 1].cached_frame is Some {
        (g.frames@[k - 1].cached_frame->0)@
    } else {
        spec_composed_frame(g, k - 1, opts, Option::None)
    }
}

/// The fully composed RGBA buffer for frame `k` in state `g` (raw mode:
/// only the frame rectangle's pixels).
pub open spec fn spec_composed_frame(
    g: Gif,
    k: int,
    opts: DecoderOptions,
    rolling: Option<Seq<u8>>,
) -> Seq<u8>
    decreases k, 1int,
{
    if opts.raw_decode {
        spec_raw_frame(g.frames@[k])
    } else {
        spec_painted(
            spec_base_canvas(g, k, opts, rolling),
            g.frames@[k],
            g.lsd,
            prev_disposal(g, k),
        )
    }
}

/// Whether composing frame `k` must snapshot the result into the frame
/// for a later restore-to-previous; with caching off nothing is stored
/// on the frames.
pub open spec fn snapshot_cond(g: Gif, k: int, opts: DecoderOptions) -> bool {
    &&& opts.store_cache
    &&& !opts.raw_decode
    &&& !opts.disable_disposal_methods
    &&& opts.implement_disposal_previous
    &&& has_restore_previous(g.frames@)
    &&& g.frames@[k].gcd.disposal_method != 0
    &&& g.frames@[k].gcd.disposal_method != 3
}

/// Every frame's restore-to-previous snapshot is the same in the two
/// states.
pub open spec fn previous_unchanged(g0: Gif, g1: Gif) -> bool {
    forall|i: int|
        0 <= i < g0.frames@.len() ==> (#[trigger] g1.frames@[i]).previous_pixels
            == g0.frames@[i].previous_pixels
}

/// Every frame's cached buffer is the same in the two states.
pub open spec fn caches_unchanged(g0: Gif, g1: Gif) -> bool {
    forall|i: int|
        0 <= i < g0.frames@.len() ==> (#[trigger] g1.frames@[i]).cached_frame
            == g0.frames@[i].cached_frame
}

/// Whether the sequential renderer refreshes its rolling
/// restore-to-previous snapshot after frame `i`: the frame was actually
/// composed (not served from the cache) and is kept or disposed to the
/// background while some frame of the file restores to previous.
pub open spec fn rolling_update_cond(g0: Gif, opts: DecoderOptions, i: int) -> bool {
    &&& !(opts.store_cache && g0.frames@[i].cached_frame is Some)
    &&& !opts.raw_decode
    &&& !opts.disable_disposal_methods
    &&& opts.implement_disposal_previous
    &&& has_restore_previous(g0.frames@)
    &&& g0.frames@[i].gcd.disposal_method != 0
    &&& g0.frames@[i].gcd.disposal_method != 3
}

/// The rolling restore-to-previous snapshot the sequential renderer
/// holds just before composing frame `i`: the last refreshed buffer, or
/// an all-transparent canvas.
pub open spec fn seq_rolling(g0: Gif, opts: DecoderOptions, i: int) -> Seq<u8>
    decreases i, 0int,
{
    if i <= 0 {
        zero_canvas(g0.lsd)
    } else if rolling_update_cond(g0, opts, i - 1) {
        seq_frame_buffer(g0, opts, i - 1)
    } else {
        seq_rolling(g0, opts, i - 1)
    }
}

/// The base canvas for frame `i` during a sequential render over the
/// starting state `g0`: the previous frame's disposal rules, with the
/// rolling snapshot for restore-to-previous. With caching on, the
/// do-not-dispose base is the previous frame's sequential buffer (by
/// then cached); with caching off, the state never changes, so it is
/// the stored cache or the single-frame composition.
pub open spec fn seq_frame_base(g0: Gif, opts: DecoderOptions, i: int) -> Seq<u8>
    decreases i, 1int,
{
    let pd = prev_disposal(g0, i);
    if opts.disable_disposal_methods {
        zero_canvas(g0.lsd)
    } else if opts.implement_disposal_previous && pd == 3 {
        seq_rolling(g0, opts, i)
    } else if pd == 2 {
        spec_bg_canvas(g0, i)
    } else if i <= 0 {
        zero_canvas(g0.lsd)
    } else if opts.store_cache {
        seq_frame_buffer(g0, opts, i - 1)
    } else if g0.frames@[i - 1].cached_frame is Some {
        (g0.frames@[i - 1].cached_frame->0)@
    } else {
        spec_composed_frame(g0, i - 1, opts, Option::None)
    }
}

/// The buffer the sequential renderer returns for frame `i`: the stored
/// cache when caching is on and one exists, the raw rectangle in raw
/// mode, and otherwise the frame painted over its sequential base.
pub open spec fn seq_frame_buffer(g0: Gif, opts: DecoderOptions, i: int) -> Seq<u8>
    decreases i, 2int,
{
    if opts.store_cache && g0.frames@[i].cached_frame is Some {
        (g0.frames@[i].cached_frame->0)@
    } else if opts.raw_decode {
        spec_raw_frame(g0.frames@[i])
    } else {
        spec_painted(seq_frame_base(g0, opts, i), g0.frames@[i], g0.lsd, prev_disposal(g0, i))
    }
}

/// The fields the parser froze are identical in the two states; only
/// the lazily-filled compositor buffers may differ.
pub open spec fn frame_parsed_eq(a: Frame, b: Frame) -> bool {
    &&& b.gcd == a.gcd
    &&& b.im == a.im
    &&& b.color_table@ == a.color_table@
    &&& b.index_stream@ == a.index_stream@
}

/// Rendering never changes what was parsed: the screen, the tables and
/// every frame's pixel data stay as decoded.
pub open spec fn parsed_preserved(g0: Gif, g1: Gif) -> bool {
    &&& g1.version@ == g0.version@
    &&& g1.lsd == g0.lsd
    &&& g1.global_table@ == g0.global_table@
    &&& g1.frames@.len() == g0.frames@.len()
    &&& forall|i: int|
        0 <= i < g0.frames@.len() ==> frame_parsed_eq(g0.frames@[i], #[trigger] g1.frames@[i])
}

/// A byte index of a canvas decomposes into pixel coordinates and a
/// channel, and the composition maps back to the same index.
proof fn lemma_byte_decomp(w: int, h: int, j: int)
    requires
        1 <= w,
        0 <= j < 4 * w * h,
    ensures
        ({
            let p = j / 4;
            let x = p % w;
            let y = p / w;
            let ch = j % 4;
            0 <= x < w && 0 <= y < h && 0 <= ch < 4 && 4 * (y * w + x) + ch == j && p == y * w
                + x
        }),
{
    lemma_fundamental_div_mod(j, 4);
    lemma_fundamental_div_mod(j / 4, w);
    assert(({
        let p = j / 4;
        let x = p % w;
        let y = p / w;
        0 <= x < w && 0 <= y < h && p == y * w + x
    })) by (nonlinear_arith)
        requires
            1 <= w && 0 <= j < 4 * w * h && j == 4 * (j / 4) + j % 4 && 0 <= j % 4 < 4 && j / 4
                == w * ((j / 4) / w) + (j / 4) % w && 0 <= (j / 4) % w < w,
    ;
}

/// Pixel coordinates and a channel give a canvas byte index in range,
/// and that index decomposes back to them.
proof fn lemma_pix_compose(w: int, h: int, x: int, y: int, ch: int)
    requires
        1 <= w,
        0 <= x < w,
        0 <= y < h,
        0 <= ch < 4,
    ensures
        ({
            let j = 4 * (y * w + x) + ch;
            0 <= j < 4 * w * h && j / 4 == y * w + x && (j / 4) % w == x && (j / 4) / w == y && j
                % 4 == ch
        }),
{
    let q = y * w + x;
    assert(0 <= q && q < w * h) by (nonlinear_arith)
        requires
            1 <= w && 0 <= x < w && 0 <= y < h && q == y * w + x,
    ;
    vstd::arithmetic::div_mod::lemma_fundamental_div_mod_converse(q, w, y, x);
    let j = 4 * q + ch;
    vstd::arithmetic::div_mod::lemma_fundamental_div_mod_converse(j, 4, q, ch);
    assert(0 <= j && j < 4 * w * h) by (nonlinear_arith)
        requires
            0 <= q && q < w * h && j == 4 * q + ch && 0 <= ch < 4,
    ;
}

/// Copy a byte buffer.
fn clone_bytes(v: &Vec<u8>) -> (r: Vec<u8>)
    ensures
        r@ == v@,
{
    let mut r: Vec<u8> = Vec::new();
    let mut i: usize = 0;
    while i < v.len()
        invariant
            i <= v@.len(),
            r@ == v@.subrange(0, i as int),
        decreases v@.len() - i,
    {
        r.push(v[i]);
        i = i + 1;
    }
    proof {
        assert(v@.subrange(0, v@.len() as int) == v@);
    }
    r
}

/// A mutable reference to one frame of the sequence.
fn frame_mut(frames: &mut Vec<Frame>, i: usize) -> (r: &mut Frame)
    requires
        i < old(frames).len(),
    ensures
        *r == old(frames)@[i as int],
        final(frames)@ == old(frames)@.update(i as int, *final(r)),
{
    &mut frames[i]
}

/// Paint frame `f` onto the canvas `buffer` as `spec_painted` describes,
/// clamping the frame rectangle to the logical screen.
fn paint_frame(buffer: &mut Vec<u8>, f: &Frame, l: &LogicalScreenDescriptor, prev_disp: u32)
    requires
        lsd_wf(*l),
        frame_wf(*f, *l),
        old(buffer)@.len() == canvas_len(*l),
    ensures
        final(buffer)@ == spec_painted(old(buffer)@, *f, *l, prev_disp as int),
{
    let ghost base = old(buffer)@;
    let w: usize = l.width as usize;
    let h: usize = l.height as usize;
    let top: usize = f.im.top as usize;
    let left: usize = f.im.left as usize;
    let fw: usize = f.im.width as usize;
    let fh: usize = f.im.height as usize;
    let bottom: usize = if top + fh < h {
        top + fh
    } else {
        h
    };
    let right: usize = if left + fw < w {
        left + fw
    } else {
        w
    };
    let stream_len: usize = f.index_stream.len();
    let table_len: usize = f.color_table.len();
    let buf_len: usize = buffer.len();
    let mut y: usize = top;
    proof {
        assert forall|px: int, py: int, ch: int|
            0 <= px < w && 0 <= py < h && 0 <= ch < 4 implies #[trigger] pix(
            buffer@,
            w as int,
            px,
            py,
            ch,
        ) == (if py < y {
            painted_byte(base, *f, *l, prev_disp as int, 4 * (py * (w as int) + px) + ch)
        } else {
            pix(base, w as int, px, py, ch)
        }) by {
            lemma_pix_compose(w as int, h as int, px, py, ch);
            if py < y {
                assert(!in_rect(f.im, px, py));
            }
        }
    }
    while y < bottom
        invariant
            lsd_wf(*l),
            frame_wf(*f, *l),
            w == l.width && h == l.height,
            top == f.im.top && left == f.im.left && fw == f.im.width && fh == f.im.height,
            bottom == (if top + fh < h {
                top + fh
            } else {
                h as int
            }),
            right == (if left + fw < w {
                left + fw
            } else {
                w as int
            }),
            stream_len == f.index_stream@.len(),
            table_len == f.color_table@.len(),
            top <= y,
            y <= h || y == top,
            buffer@.len() == canvas_len(*l),
            buf_len == canvas_len(*l),
            base.len() == canvas_len(*l),
            forall|px: int, py: int, ch: int|
                0 <= px < w && 0 <= py < h && 0 <= ch < 4 ==> #[trigger] pix(
                    buffer@,
                    w as int,
                    px,
                    py,
                    ch,
                ) == (if py < y {
                    painted_byte(base, *f, *l, prev_disp as int, 4 * (py * (w as int) + px) + ch)
                } else {
                    pix(base, w as int, px, py, ch)
                }),
        decreases bottom - y,
    {
        proof {
            assert forall|px: int, py: int, ch: int|
                0 <= px < w && 0 <= py < h && 0 <= ch < 4 implies #[trigger] pix(
                buffer@,
                w as int,
                px,
                py,
                ch,
            ) == (if py < y || (py == y && px < left) {
                painted_byte(base, *f, *l, prev_disp as int, 4 * (py * (w as int) + px) + ch)
            } else {
                pix(base, w as int, px, py, ch)
            }) by {
                lemma_pix_compose(w as int, h as int, px, py, ch);
                if py == y && px < left {
                    assert(!in_rect(f.im, px, py));
                }
            }
        }
        let mut x: usize = left;
        while x < right
            invariant
                lsd_wf(*l),
                frame_wf(*f, *l),
                w == l.width && h == l.height,
                top == f.im.top && left == f.im.left && fw == f.im.width && fh == f.im.height,
                bottom == (if top + fh < h {
                    top + fh
                } else {
                    h as int
                }),
                right == (if left + fw < w {
                    left + fw
                } else {
                    w as int
                }),
                stream_len == f.index_stream@.len(),
                table_len == f.color_table@.len(),
                top <= y < bottom,
                left <= x,
                x <= right || x == left,
                buffer@.len() == canvas_len(*l),
                buf_len == canvas_len(*l),
                base.len() == canvas_len(*l),
                forall|px: int, py: int, ch: int|
                    0 <= px < w && 0 <= py < h && 0 <= ch < 4 ==> #[trigger] pix(
                        buffer@,
                        w as int,
                        px,
                        py,
                        ch,
                    ) == (if py < y || (py == y && px < x) {
                        painted_byte(
                            base,
                            *f,
                            *l,
                            prev_disp as int,
                            4 * (py * (w as int) + px) + ch,
                        )
                    } else {
                        pix(base, w as int, px, py, ch)
                    }),
            decreases right - x,
        {
            let ghost pre = buffer@;
            proof {
                lemma_pix_compose(w as int, h as int, x as int, y as int, 0);
                lemma_pix_compose(w as int, h as int, x as int, y as int, 3);
                assert((y - top) * (fw as int) + (x - left) < (fh as int) * (fw as int)
                    && (fh as int) * (fw as int) == (fw as int) * (fh as int) && 0 <= (y - top)
                    * (fw as int) + (x - left)) by (nonlinear_arith)
                    requires
                        0 <= y - top < fh && 0 <= x - left < fw,
                ;
                assert(0 <= (y as int) * (w as int) + x && ((y as int) * (w as int) + x) * 4 + 3
                    < 4 * (w as int) * (h as int)) by (nonlinear_arith)
                    requires
                        0 <= x < w && 0 <= y < h,
                ;
            }
            let i: usize = (y - top) * fw + (x - left);
            let idx: usize = f.index_stream[i] as usize;
            if idx < table_len {
                let col: Color = f.color_table[idx];
                let transparent: bool = f.gcd.transparent_color_flag && (idx as u32)
                    == f.gcd.transparent_color_index;
                let bi: usize = (y * w + x) * 4;
                if prev_disp == 0 || prev_disp == 1 {
                    if !transparent {
                        buffer.set(bi, col.red as u8);
                        buffer.set(bi + 1, col.green as u8);
                        buffer.set(bi + 2, col.blue as u8);
                        buffer.set(bi + 3, 255);
                    }
                } else {
                    buffer.set(bi, col.red as u8);
                    buffer.set(bi + 1, col.green as u8);
                    buffer.set(bi + 2, col.blue as u8);
                    buffer.set(bi + 3, if transparent {
                        0
                    } else {
                        255
                    });
                }
            }
            proof {
                assert forall|px: int, py: int, ch: int|
                    0 <= px < w && 0 <= py < h && 0 <= ch < 4 implies #[trigger] pix(
                    buffer@,
                    w as int,
                    px,
                    py,
                    ch,
                ) == (if py < y || (py == y && px < x + 1) {
                    painted_byte(base, *f, *l, prev_disp as int, 4 * (py * (w as int) + px) + ch)
                } else {
                    pix(base, w as int, px, py, ch)
                }) by {
                    lemma_pix_compose(w as int, h as int, px, py, ch);
                    lemma_pix_compose(w as int, h as int, x as int, y as int, ch);
                    let j = 4 * (py * (w as int) + px) + ch;
                    if px == x && py == y {
                        assert(in_rect(f.im, px, py));
                        assert(pix(pre, w as int, px, py, ch) == pix(base, w as int, px, py, ch));
                    } else {
                        assert(pix(buffer@, w as int, px, py, ch) == pix(pre, w as int, px, py, ch));
                    }
                }
            }
            x = x + 1;
        }
        y = y + 1;
        proof {
            assert forall|px: int, py: int, ch: int|
                0 <= px < w && 0 <= py < h && 0 <= ch < 4 implies #[trigger] pix(
                buffer@,
                w as int,
                px,
                py,
                ch,
            ) == (if py < y {
                painted_byte(base, *f, *l, prev_disp as int, 4 * (py * (w as int) + px) + ch)
            } else {
                pix(base, w as int, px, py, ch)
            }) by {
                lemma_pix_compose(w as int, h as int, px, py, ch);
                if py == y - 1 && !(px < right) {
                    assert(!in_rect(f.im, px, py));
                }
            }
        }
    }
    proof {
        assert forall|j: int| 0 <= j < canvas_len(*l) implies buffer@[j] == painted_byte(
            base,
            *f,
            *l,
            prev_disp as int,
            j,
        ) by {
            assert(w >= 1) by (nonlinear_arith)
                requires
                    0 <= j && j < 4 * (w as int) * (h as int),
            ;
            lemma_byte_decomp(w as int, h as int, j);
            let p = j / 4;
            let x = p % (w as int);
            let y2 = p / (w as int);
            let ch = j % 4;
            assert(pix(buffer@, w as int, x, y2, ch) == buffer@[j]);
            if y2 >= bottom || !(in_rect(f.im, x, y2)) {
                assert(!in_rect(f.im, x, y2));
            }
        }
        assert(buffer@ =~= spec_painted(base, *f, *l, prev_disp as int));
    }
}

/// Write `color` with alpha `alpha` over the rectangle `im` of the
/// canvas `buffer`, clamped to the logical screen.
fn paint_background(
    buffer: &mut Vec<u8>,
    l: &LogicalScreenDescriptor,
    im: &ImageDescriptor,
    color: Color,
    alpha: u8,
)
    requires
        lsd_wf(*l),
        im_wf(*im),
        color.red < 256 && color.green < 256 && color.blue < 256,
        old(buffer)@.len() == canvas_len(*l),
    ensures
        final(buffer)@ == spec_bg_painted(old(buffer)@, *l, *im, color, alpha),
{
    let ghost base = old(buffer)@;
    let w: usize = l.width as usize;
    let h: usize = l.height as usize;
    let top: usize = im.top as usize;
    let left: usize = im.left as usize;
    let fw: usize = im.width as usize;
    let fh: usize = im.height as usize;
    let bottom: usize = if top + fh < h {
        top + fh
    } else {
        h
    };
    let right: usize = if left + fw < w {
        left + fw
    } else {
        w
    };
    let buf_len: usize = buffer.len();
    let mut y: usize = top;
    proof {
        assert forall|px: int, py: int, ch: int|
            0 <= px < w && 0 <= py < h && 0 <= ch < 4 implies #[trigger] pix(
            buffer@,
            w as int,
            px,
            py,
            ch,
        ) == (if py < y {
            bg_painted_byte(base, *l, *im, color, alpha, 4 * (py * (w as int) + px) + ch)
        } else {
            pix(base, w as int, px, py, ch)
        }) by {
            lemma_pix_compose(w as int, h as int, px, py, ch);
            if py < y {
                assert(!in_rect(*im, px, py));
            }
        }
    }
    while y < bottom
        invariant
            lsd_wf(*l),
            im_wf(*im),
            w == l.width && h == l.height,
            top == im.top && left == im.left && fw == im.width && fh == im.height,
            bottom == (if top + fh < h {
                top + fh
            } else {
                h as int
            }),
            right == (if left + fw < w {
                left + fw
            } else {
                w as int
            }),
            top <= y,
            buffer@.len() == canvas_len(*l),
            buf_len == canvas_len(*l),
            base.len() == canvas_len(*l),
            forall|px: int, py: int, ch: int|
                0 <= px < w && 0 <= py < h && 0 <= ch < 4 ==> #[trigger] pix(
                    buffer@,
                    w as int,
                    px,
                    py,
                    ch,
                ) == (if py < y {
                    bg_painted_byte(base, *l, *im, color, alpha, 4 * (py * (w as int) + px) + ch)
                } else {
                    pix(base, w as int, px, py, ch)
                }),
        decreases bottom - y,
    {
        proof {
            assert forall|px: int, py: int, ch: int|
                0 <= px < w && 0 <= py < h && 0 <= ch < 4 implies #[trigger] pix(
                buffer@,
                w as int,
                px,
                py,
                ch,
            ) == (if py < y || (py == y && px < left) {
                bg_painted_byte(base, *l, *im, color, alpha, 4 * (py * (w as int) + px) + ch)
            } else {
                pix(base, w as int, px, py, ch)
            }) by {
                lemma_pix_compose(w as int, h as int, px, py, ch);
                if py == y && px < left {
                    assert(!in_rect(*im, px, py));
                }
            }
        }
        let mut x: usize = left;
        while x < right
            invariant
                lsd_wf(*l),
                im_wf(*im),
                w == l.width && h == l.height,
                top == im.top && left == im.left && fw == im.width && fh == im.height,
                bottom == (if top + fh < h {
                    top + fh
                } else {
                    h as int
                }),
                right == (if left + fw < w {
                    left + fw
                } else {
                    w as int
                }),
                top <= y < bottom,
                left <= x,
                x <= right || x == left,
                buffer@.len() == canvas_len(*l),
                buf_len == canvas_len(*l),
                base.len() == canvas_len(*l),
                forall|px: int, py: int, ch: int|
                    0 <= px < w && 0 <= py < h && 0 <= ch < 4 ==> #[trigger] pix(
                        buffer@,
                        w as int,
                        px,
                        py,
                        ch,
                    ) == (if py < y || (py == y && px < x) {
                        bg_painted_byte(
                            base,
                            *l,
                            *im,
                            color,
                            alpha,
                            4 * (py * (w as int) + px) + ch,
                        )
                    } else {
                        pix(base, w as int, px, py, ch)
                    }),
            decreases right - x,
        {
            let ghost pre = buffer@;
            proof {
                lemma_pix_compose(w as int, h as int, x as int, y as int, 0);
                lemma_pix_compose(w as int, h as int, x as int, y as int, 3);
                assert(0 <= (y as int) * (w as int) + x && ((y as int) * (w as int) + x) * 4 + 3
                    < 4 * (w as int) * (h as int)) by (nonlinear_arith)
                    requires
                        0 <= x < w && 0 <= y < h,
                ;
            }
            let bi: usize = (y * w + x) * 4;
            buffer.set(bi, color.red as u8);
            buffer.set(bi + 1, color.green as u8);
            buffer.set(bi + 2, color.blue as u8);
            buffer.set(bi + 3, alpha);
            proof {
                assert forall|px: int, py: int, ch: int|
                    0 <= px < w && 0 <= py < h && 0 <= ch < 4 implies #[trigger] pix(
                    buffer@,
                    w as int,
                    px,
                    py,
                    ch,
                ) == (if py < y || (py == y && px < x + 1) {
                    bg_painted_byte(base, *l, *im, color, alpha, 4 * (py * (w as int) + px) + ch)
                } else {
                    pix(base, w as int, px, py, ch)
                }) by {
                    lemma_pix_compose(w as int, h as int, px, py, ch);
                    lemma_pix_compose(w as int, h as int, x as int, y as int, ch);
                    if px == x && py == y {
                        assert(in_rect(*im, px, py));
                        assert(pix(pre, w as int, px, py, ch) == pix(base, w as int, px, py, ch));
                    } else {
                        assert(pix(buffer@, w as int, px, py, ch) == pix(pre, w as int, px, py, ch));
                    }
                }
            }
            x = x + 1;
        }
        y = y + 1;
        proof {
            assert forall|px: int, py: int, ch: int|
                0 <= px < w && 0 <= py < h && 0 <= ch < 4 implies #[trigger] pix(
                buffer@,
                w as int,
                px,
                py,
                ch,
            ) == (if py < y {
                bg_painted_byte(base, *l, *im, color, alpha, 4 * (py * (w as int) + px) + ch)
            } else {
                pix(base, w as int, px, py, ch)
            }) by {
                lemma_pix_compose(w as int, h as int, px, py, ch);
                if py == y - 1 && !(px < right) {
                    assert(!in_rect(*im, px, py));
                }
            }
        }
    }
    proof {
        assert forall|j: int| 0 <= j < canvas_len(*l) implies buffer@[j] == bg_painted_byte(
            base,
            *l,
            *im,
            color,
            alpha,
            j,
        ) by {
            assert(w >= 1) by (nonlinear_arith)
                requires
                    0 <= j && j < 4 * (w as int) * (h as int),
            ;
            lemma_byte_decomp(w as int, h as int, j);
            let p = j / 4;
            let x = p % (w as int);
            let y2 = p / (w as int);
            let ch = j % 4;
            assert(pix(buffer@, w as int, x, y2, ch) == buffer@[j]);
            if y2 >= bottom || !(in_rect(*im, x, y2)) {
                assert(!in_rect(*im, x, y2));
            }
        }
        assert(buffer@ =~= spec_bg_painted(base, *l, *im, color, alpha));
    }
}

/// Emit only the frame rectangle's RGBA pixels in scan order.
fn raw_decode_frame(f: &Frame, l: &LogicalScreenDescriptor) -> (r: Vec<u8>)
    requires
        lsd_wf(*l),
        frame_wf(*f, *l),
    ensures
        r@ == spec_raw_frame(*f),
{
    let npix: usize = f.index_stream.len();
    let table_len: usize = f.color_table.len();
    let mut buffer: Vec<u8> = Vec::new();
    let mut p: usize = 0;
    while p < npix
        invariant
            frame_wf(*f, *l),
            npix == f.index_stream@.len(),
            table_len == f.color_table@.len(),
            p <= npix,
            buffer@.len() == 4 * p,
            forall|j: int| 0 <= j < 4 * p ==> buffer@[j] == raw_byte(*f, j),
        decreases npix - p,
    {
        let ghost pre = buffer@;
        let idx: usize = f.index_stream[p] as usize;
        if idx < table_len {
            let col: Color = f.color_table[idx];
            let transparent: bool = f.gcd.transparent_color_flag && (idx as u32)
                == f.gcd.transparent_color_index;
            buffer.push(col.red as u8);
            buffer.push(col.green as u8);
            buffer.push(col.blue as u8);
            buffer.push(if transparent {
                0
            } else {
                255
            });
        } else {
            buffer.push(0);
            buffer.push(0);
            buffer.push(0);
            buffer.push(0);
        }
        p = p + 1;
        proof {
            assert forall|j: int| 0 <= j < 4 * p implies buffer@[j] == raw_byte(*f, j) by {
                assert(j / 4 == (j - j % 4) / 4 && 0 <= j % 4 < 4 && j == 4 * (j / 4) + j % 4) by {
                    lemma_fundamental_div_mod(j, 4);
                }
                if j < 4 * (p - 1) {
                    assert(buffer@[j] == pre[j]);
                } else {
                    assert(j / 4 == p - 1) by (nonlinear_arith)
                        requires
                            4 * (p - 1) <= j < 4 * p && j == 4 * (j / 4) + j % 4 && 0 <= j % 4
                                < 4,
                    ;
                }
            }
        }
    }
    proof {
        assert(4 * (f.im.width as int) * (f.im.height as int) == 4 * ((f.im.width as int)
            * (f.im.height as int))) by (nonlinear_arith);
        assert(buffer@ =~= spec_raw_frame(*f));
    }
    buffer
}

/// Painting reads only the fields the parser froze, so two states of a
/// frame that differ only in their cached buffers paint alike.
proof fn lemma_painted_parsed_eq(
    base: Seq<u8>,
    a: Frame,
    b: Frame,
    l: LogicalScreenDescriptor,
    prev_disp: int,
)
    requires
        frame_parsed_eq(a, b),
    ensures
        spec_painted(base, a, l, prev_disp) == spec_painted(base, b, l, prev_disp),
{
    assert forall|j: int| 0 <= j < canvas_len(l) implies painted_byte(base, a, l, prev_disp, j)
        == painted_byte(base, b, l, prev_disp, j) by {}
    assert(spec_painted(base, a, l, prev_disp) =~= spec_painted(base, b, l, prev_disp));
}

/// The restore-to-background canvas reads only parsed data.
proof fn lemma_bg_canvas_parsed_eq(a: Gif, b: Gif, k: int)
    requires
        parsed_preserved(a, b),
        1 <= k < a.frames@.len(),
    ensures
        spec_bg_canvas(b, k) == spec_bg_canvas(a, k),
{
    assert(bg_color(b) == bg_color(a));
    assert(bg_is_transparent(b, k) == bg_is_transparent(a, k));
    assert(b.frames@[k - 1].im == a.frames@[k - 1].im);
}

/// A stored restore-to-previous snapshot spans the logical screen.
proof fn lemma_stored_previous_len(frames: Seq<Frame>, i: int, l: LogicalScreenDescriptor)
    requires
        forall|k: int| 0 <= k < frames.len() ==> frame_wf(#[trigger] frames[k], l),
        i < frames.len(),
    ensures
        stored_previous(frames, i) matches Option::Some(p) ==> p.len() == canvas_len(l),
    decreases i + 1,
{
    if i >= 0 && !(frames[i].previous_pixels is Some) {
        lemma_stored_previous_len(frames, i - 1, l);
    }
}

impl Gif {
    /// The most recent stored restore-to-previous snapshot at or before
    /// frame `from`, or an all-transparent canvas when none exists.
    fn find_stored_previous(&self, from: usize) -> (r: Vec<u8>)
        requires
            gif_wf(*self),
            from < self.frames@.len(),
        ensures
            r@ == (match stored_previous(self.frames@, from as int) {
                Option::Some(p) => p,
                Option::None => zero_canvas(self.lsd),
            }),
    {
        let mut i: usize = from;
        loop
            invariant
                gif_wf(*self),
                i < self.frames@.len(),
                stored_previous(self.frames@, from as int) == stored_previous(
                    self.frames@,
                    i as int,
                ),
            decreases i,
        {
            let fr = &self.frames[i];
            match &fr.previous_pixels {
                Some(p) => {
                    return clone_bytes(p);
                },
                None => {},
            }
            if i == 0 {
                let mut buf: Vec<u8> = Vec::new();
                self.fill_with_empty_color(&mut buf);
                proof {
                    assert(buf@ =~= zero_canvas(self.lsd));
                }
                return buf;
            }
            i = i - 1;
        }
    }

    /// Compose one frame: build the base canvas that the previous
    /// frame's disposal method prescribes, paint the frame onto it (or
    /// emit the raw rectangle), and store the cache and
    /// restore-to-previous snapshot the options call for.
    fn decode_frame_internal(
        &mut self,
        frame_index: usize,
        decoder_options: &DecoderOptions,
        maybe_previous_frame_index: Option<usize>,
        previous_disposal_method: u32,
        has_disposal_3: bool,
        maybe_previous_pixels: Option<&Vec<u8>>,
    ) -> (r: Vec<u8>)
        requires
            gif_wf(*old(self)),
            frame_index < old(self).frames@.len(),
            decoder_options.store_cache && !decoder_options.raw_decode ==> old(self).frames@[frame_index as int].cached_frame is None,
            maybe_previous_frame_index == (if frame_index == 0 {
                Option::<usize>::None
            } else {
                Option::<usize>::Some((frame_index - 1) as usize)
            }),
            previous_disposal_method as int == prev_disposal(*old(self), frame_index as int),
            has_disposal_3 == has_restore_previous(old(self).frames@),
            maybe_previous_pixels matches Option::Some(p) ==> p@.len() == canvas_len(
                old(self).lsd,
            ),
        ensures
            gif_wf(*final(self)),
            parsed_preserved(*old(self), *final(self)),
            r@ == spec_composed_frame(
                *old(self),
                frame_index as int,
                *decoder_options,
                rolling_view(maybe_previous_pixels),
            ),
            decoder_options.raw_decode ==> r@.len() == 4 * old(self).frames@[frame_index as int].im.width
                * old(self).frames@[frame_index as int].im.height,
            !decoder_options.raw_decode ==> r@.len() == canvas_len(old(self).lsd),
            forall|i: int|
                0 <= i < old(self).frames@.len() && old(self).frames@[i].cached_frame is Some
                    ==> (#[trigger] final(self).frames@[i]).cached_frame == old(self).frames@[i].cached_frame,
            decoder_options.store_cache && !decoder_options.raw_decode ==> {
                &&& final(self).frames@[frame_index as int].cached_frame is Some
                &&& (final(self).frames@[frame_index as int].cached_frame->0)@ == r@
            },
            !(decoder_options.store_cache && !decoder_options.raw_decode) ==> caches_unchanged(
                *old(self),
                *final(self),
            ),
            forall|i: int|
                frame_index < i < old(self).frames@.len() ==> {
                    &&& (#[trigger] final(self).frames@[i]).cached_frame == old(self).frames@[i].cached_frame
                    &&& final(self).frames@[i].previous_pixels == old(self).frames@[i].previous_pixels
                },
            (maybe_previous_pixels is None && snapshot_cond(
                *old(self),
                frame_index as int,
                *decoder_options,
            )) ==> {
                &&& final(self).frames@[frame_index as int].previous_pixels is Some
                &&& (final(self).frames@[frame_index as int].previous_pixels->0)@ == r@
            },
            (maybe_previous_pixels is None && !snapshot_cond(
                *old(self),
                frame_index as int,
                *decoder_options,
            )) ==> final(self).frames@[frame_index as int].previous_pixels == old(self).frames@[frame_index as int].previous_pixels,
            maybe_previous_pixels is Some ==> final(self).frames@[frame_index as int].previous_pixels == old(self).frames@[frame_index as int].previous_pixels,
            (!decoder_options.store_cache || decoder_options.raw_decode) ==> *final(self)
                == *old(self),
            (maybe_previous_pixels is Some && (frame_index == 0 || old(self).frames@[frame_index as int - 1].cached_frame is Some)) ==> previous_unchanged(
                *old(self),
                *final(self),
            ),
        decreases frame_index,
    {
        let ghost g0 = *self;
        let mut buffer: Vec<u8> = Vec::new();
        if !decoder_options.raw_decode {
            if !decoder_options.disable_disposal_methods {
                if decoder_options.implement_disposal_previous && previous_disposal_method == 3 {
                    match maybe_previous_pixels {
                        Some(previous_pixels) => {
                            buffer = clone_bytes(previous_pixels);
                        },
                        None => {
                            match maybe_previous_frame_index {
                                None => {
                                    self.fill_with_empty_color(&mut buffer);
                                    proof {
                                        assert(buffer@ =~= zero_canvas(g0.lsd));
                                    }
                                },
                                Some(previous_frame_index) => {
                                    buffer = self.find_stored_previous(previous_frame_index);
                                    proof {
                                        lemma_stored_previous_len(
                                            g0.frames@,
                                            previous_frame_index as int,
                                            g0.lsd,
                                        );
                                    }
                                },
                            }
                        },
                    }
                } else if previous_disposal_method == 2 {
                    let previous_frame_index: usize = frame_index - 1;
                    self.fill_with_empty_color(&mut buffer);
                    proof {
                        assert(buffer@ =~= zero_canvas(g0.lsd));
                    }
                    let bg_idx: usize = self.lsd.background_color_index as usize;
                    let color: Color = if bg_idx < self.global_table.len() {
                        self.global_table[bg_idx]
                    } else {
                        Color { red: 0, green: 0, blue: 0 }
                    };
                    let fr = &self.frames[frame_index];
                    let tci: u32 = fr.gcd.transparent_color_index;
                    let overflow_t: bool = tci >= fr.color_table.len() as u32;
                    let mut is_bg_transparent: bool = false;
                    if fr.gcd.transparent_color_flag {
                        is_bg_transparent = tci == self.lsd.background_color_index || (overflow_t
                            && self.lsd.background_color_index == 0);
                    }
                    let alpha: u8 = if is_bg_transparent {
                        0
                    } else {
                        255
                    };
                    let prev_im: ImageDescriptor = self.frames[previous_frame_index].im;
                    paint_background(&mut buffer, &self.lsd, &prev_im, color, alpha);
                    proof {
                        assert(color == bg_color(g0));
                        assert(is_bg_transparent == bg_is_transparent(g0, frame_index as int));
                        assert(buffer@ == spec_bg_canvas(g0, frame_index as int));
                    }
                } else {
                    match maybe_previous_frame_index {
                        None => {
                            self.fill_with_empty_color(&mut buffer);
                            proof {
                                assert(buffer@ =~= zero_canvas(g0.lsd));
                            }
                        },
                        Some(previous_frame_index) => {
                            let mut cached: Option<Vec<u8>> = None;
                            match &self.frames[previous_frame_index].cached_frame {
                                Some(cached_frame) => {
                                    cached = Some(clone_bytes(cached_frame));
                                },
                                None => {},
                            }
                            match cached {
                                Some(c) => {
                                    buffer = c;
                                },
                                None => {
                                    let maybe_pp_frame_index: Option<usize> = if
                                        previous_frame_index == 0 {
                                        None
                                    } else {
                                        Some(previous_frame_index - 1)
                                    };
                                    let pp_disposal: u32 = match maybe_pp_frame_index {
                                        Some(pp_frame_index) => {
                                            let fr2 = &self.frames[pp_frame_index];
                                            fr2.gcd.disposal_method
                                        },
                                        None => 0,
                                    };
                                    buffer = self.decode_frame_internal(
                                        previous_frame_index,
                                        decoder_options,
                                        maybe_pp_frame_index,
                                        pp_disposal,
                                        has_disposal_3,
                                        None,
                                    );
                                },
                            }
                        },
                    }
                }
            } else {
                self.fill_with_empty_color(&mut buffer);
                proof {
                    assert(buffer@ =~= zero_canvas(g0.lsd));
                }
            }
            let ghost base = buffer@;
            proof {
                assert(base == spec_base_canvas(
                    g0,
                    frame_index as int,
                    *decoder_options,
                    rolling_view(maybe_previous_pixels),
                ));
            }
            let l: LogicalScreenDescriptor = self.lsd;
            paint_frame(
                &mut buffer,
                &self.frames[frame_index],
                &l,
                previous_disposal_method,
            );
            proof {
                lemma_painted_parsed_eq(
                    base,
                    self.frames@[frame_index as int],
                    g0.frames@[frame_index as int],
                    g0.lsd,
                    previous_disposal_method as int,
                );
            }
        } else {
            let l: LogicalScreenDescriptor = self.lsd;
            buffer = raw_decode_frame(&self.frames[frame_index], &l);
        }

        if decoder_options.store_cache && !decoder_options.raw_decode {
            let copy = clone_bytes(&buffer);
            let fr = frame_mut(&mut self.frames, frame_index);
            fr.cached_frame = Some(copy);
        }
        if decoder_options.store_cache && !decoder_options.raw_decode
            && !decoder_options.disable_disposal_methods
            && decoder_options.implement_disposal_previous {
            let disposal_method: u32 = {
                let fr = &self.frames[frame_index];
                fr.gcd.disposal_method
            };
            if has_disposal_3 && disposal_method != 0 && disposal_method != 3 {
                match maybe_previous_pixels {
                    Some(_) => {},
                    None => {
                        let copy = clone_bytes(&buffer);
                        let fr = frame_mut(&mut self.frames, frame_index);
                        fr.previous_pixels = Some(copy);
                    },
                }
            }
        }
        buffer
    }

    /// Render every frame in decode order, reusing cached buffers and
    /// carrying the rolling restore-to-previous snapshot across frames.
    pub fn decode_frames(&mut self, decoder_options: DecoderOptions) -> (r: Vec<Vec<u8>>)
        requires
            gif_wf(*old(self)),
        ensures
            gif_wf(*final(self)),
            parsed_preserved(*old(self), *final(self)),
            r@.len() == old(self).frames@.len(),
            forall|i: int|
                0 <= i < r@.len() && decoder_options.store_cache && old(self).frames@[i].cached_frame is Some ==> (#[trigger] r@[i])@ == (old(self).frames@[i].cached_frame->0)@,
            forall|i: int|
                0 <= i < r@.len() && (!decoder_options.store_cache || old(self).frames@[i].cached_frame is None) && !decoder_options.raw_decode
                    ==> (#[trigger] r@[i])@.len() == canvas_len(old(self).lsd),
            forall|i: int|
                0 <= i < r@.len() && (!decoder_options.store_cache || old(self).frames@[i].cached_frame is None) && decoder_options.raw_decode
                    ==> (#[trigger] r@[i])@.len() == 4 * old(self).frames@[i].im.width * old(self).frames@[i].im.height,
            decoder_options.store_cache && !decoder_options.raw_decode ==> forall|i: int|
                0 <= i < r@.len() ==> (#[trigger] final(self).frames@[i]).cached_frame is Some
                    && ((final(self).frames@[i]).cached_frame->0)@ == r@[i]@,
            forall|i: int|
                0 <= i < old(self).frames@.len() && old(self).frames@[i].cached_frame is Some
                    ==> (#[trigger] final(self).frames@[i]).cached_frame == old(self).frames@[i].cached_frame,
            forall|i: int|
                0 <= i < r@.len() ==> (#[trigger] r@[i])@ == seq_frame_buffer(
                    *old(self),
                    decoder_options,
                    i,
                ),
            previous_unchanged(*old(self), *final(self)),
            (!decoder_options.store_cache || decoder_options.raw_decode) ==> *final(self)
                == *old(self),
    {
        let ghost g0 = *self;
        let mut buffers: Vec<Vec<u8>> = Vec::new();

        let has_disposal_3: bool = self.compute_has_disposal_3();

        let mut previous_pixels: Vec<u8> = Vec::new();
        self.fill_with_empty_color(&mut previous_pixels);

        let mut previous_disposal_method: u32 = 0;
        let n: usize = self.frames.len();
        let mut i: usize = 0;
        while i < n
            invariant
                gif_wf(*self),
                parsed_preserved(g0, *self),
                n == g0.frames@.len(),
                i <= n,
                has_disposal_3 == has_restore_previous(g0.frames@),
                previous_pixels@.len() == canvas_len(g0.lsd),
                previous_disposal_method as int == prev_disposal(g0, i as int),
                buffers@.len() == i,
                forall|j: int|
                    0 <= j < g0.frames@.len() && g0.frames@[j].cached_frame is Some
                        ==> (#[trigger] self.frames@[j]).cached_frame
                        == g0.frames@[j].cached_frame,
                forall|j: int|
                    i <= j < g0.frames@.len() ==> (#[trigger] self.frames@[j]).cached_frame
                        == g0.frames@[j].cached_frame,
                forall|j: int|
                    0 <= j < i && decoder_options.store_cache && g0.frames@[j].cached_frame
                        is Some ==> (#[trigger] buffers@[j])@ == (g0.frames@[j].cached_frame->0)@,
                forall|j: int|
                    0 <= j < i && (!decoder_options.store_cache || g0.frames@[j].cached_frame
                        is None) && !decoder_options.raw_decode ==> (#[trigger] buffers@[j])@.len()
                        == canvas_len(g0.lsd),
                forall|j: int|
                    0 <= j < i && (!decoder_options.store_cache || g0.frames@[j].cached_frame
                        is None) && decoder_options.raw_decode ==> (#[trigger] buffers@[j])@.len()
                        == 4 * g0.frames@[j].im.width * g0.frames@[j].im.height,
                decoder_options.store_cache && !decoder_options.raw_decode ==> forall|j: int|
                    0 <= j < i ==> (#[trigger] self.frames@[j]).cached_frame is Some
                        && ((self.frames@[j]).cached_frame->0)@ == buffers@[j]@,
                (!decoder_options.store_cache || decoder_options.raw_decode) ==> *self == g0,
                previous_unchanged(g0, *self),
                previous_pixels@ == seq_rolling(g0, decoder_options, i as int),
                forall|j: int|
                    0 <= j < i ==> (#[trigger] buffers@[j])@ == seq_frame_buffer(
                        g0,
                        decoder_options,
                        j,
                    ),
            decreases n - i,
        {
            let ghost pre = *self;
            let mut cached: Option<Vec<u8>> = None;
            if decoder_options.store_cache {
                match &self.frames[i].cached_frame {
                    Some(cached_frame) => {
                        cached = Some(clone_bytes(cached_frame));
                    },
                    None => {},
                }
            }
            let ghost ran_internal = cached is None;
            let buffer: Vec<u8> = match cached {
                Some(c) => c,
                None => {
                    let maybe_previous_frame_index: Option<usize> = if i == 0 {
                        None
                    } else {
                        Some(i - 1)
                    };
                    proof {
                        assert(prev_disposal(pre, i as int) == prev_disposal(g0, i as int));
                        assert(has_restore_previous(pre.frames@) == has_restore_previous(
                            g0.frames@,
                        )) by {
                            if has_restore_previous(pre.frames@) {
                                let w = choose|j: int|
                                    0 <= j < pre.frames@.len() && (#[trigger] pre.frames@[j]).gcd.disposal_method
                                        == 3;
                                assert(g0.frames@[w].gcd.disposal_method == 3);
                            }
                            if has_restore_previous(g0.frames@) {
                                let w = choose|j: int|
                                    0 <= j < g0.frames@.len() && (#[trigger] g0.frames@[j]).gcd.disposal_method
                                        == 3;
                                assert(pre.frames@[w].gcd.disposal_method == 3);
                            }
                        }
                    }
                    let b = self.decode_frame_internal(
                        i,
                        &decoder_options,
                        maybe_previous_frame_index,
                        previous_disposal_method,
                        has_disposal_3,
                        Some(&previous_pixels),
                    );
                    proof {
                        let gi = i as int;
                        assert(!(decoder_options.store_cache && g0.frames@[gi].cached_frame
                            is Some));
                        if decoder_options.raw_decode {
                            lemma_raw_parsed_eq(pre.frames@[gi], g0.frames@[gi]);
                        } else {
                            let pd = prev_disposal(g0, gi);
                            assert(spec_base_canvas(
                                pre,
                                gi,
                                decoder_options,
                                Option::Some(previous_pixels@),
                            ) == seq_frame_base(g0, decoder_options, gi)) by {
                                if decoder_options.disable_disposal_methods {
                                    assert(zero_canvas(pre.lsd) == zero_canvas(g0.lsd));
                                } else if decoder_options.implement_disposal_previous && pd == 3 {
                                } else if pd == 2 {
                                    lemma_bg_canvas_parsed_eq(g0, pre, gi);
                                } else if gi == 0 {
                                    assert(zero_canvas(pre.lsd) == zero_canvas(g0.lsd));
                                } else if decoder_options.store_cache {
                                    assert(pre.frames@[gi - 1].cached_frame is Some);
                                    assert((pre.frames@[gi - 1].cached_frame->0)@
                                        == seq_frame_buffer(g0, decoder_options, gi - 1));
                                } else {
                                    assert(pre == g0);
                                }
                            }
                            lemma_painted_parsed_eq(
                                seq_frame_base(g0, decoder_options, gi),
                                pre.frames@[gi],
                                g0.frames@[gi],
                                g0.lsd,
                                pd,
                            );
                        }
                        assert(b@ == seq_frame_buffer(g0, decoder_options, gi));
                    }
                    if !decoder_options.raw_decode && !decoder_options.disable_disposal_methods
                        && decoder_options.implement_disposal_previous {
                        let disposal_method: u32 = {
                            let fr = &self.frames[i];
                            fr.gcd.disposal_method
                        };
                        if has_disposal_3 && disposal_method != 0 && disposal_method != 3 {
                            previous_pixels = clone_bytes(&b);
                        }
                    }
                    b
                },
            };
            proof {
                assert(buffer@ == seq_frame_buffer(g0, decoder_options, i as int));
                assert(rolling_update_cond(g0, decoder_options, i as int) <==> (ran_internal
                    && !decoder_options.raw_decode && !decoder_options.disable_disposal_methods
                    && decoder_options.implement_disposal_previous && has_restore_previous(
                    g0.frames@,
                ) && g0.frames@[i as int].gcd.disposal_method != 0
                    && g0.frames@[i as int].gcd.disposal_method != 3));
                assert(previous_pixels@ == (if rolling_update_cond(g0, decoder_options, i as int) {
                    seq_frame_buffer(g0, decoder_options, i as int)
                } else {
                    seq_rolling(g0, decoder_options, i as int)
                }));
            }
            buffers.push(buffer);
            previous_disposal_method = {
                let fr = &self.frames[i];
                fr.gcd.disposal_method
            };
            i = i + 1;
        }
        buffers
    }

    /// Whether any frame of the file uses disposal method 3.
    fn compute_has_disposal_3(&self) -> (r: bool)
        ensures
            r == has_restore_previous(self.frames@),
    {
        let mut found: bool = false;
        let mut i: usize = 0;
        while i < self.frames.len()
            invariant
                i <= self.frames@.len(),
                found <==> exists|j: int|
                    0 <= j < i && (#[trigger] self.frames@[j]).gcd.disposal_method == 3,
            decreases self.frames@.len() - i,
        {
            let fr = &self.frames[i];
            if fr.gcd.disposal_method == 3 {
                found = true;
            }
            i = i + 1;
        }
        found
    }

    /// Render one frame as a composed RGBA buffer, returning the cached
    /// buffer when one is stored and caching the result when asked to.
    /// A frame index at or beyond the frame count is rejected.
    pub fn decode_frame(&mut self, frame_index: u32, decoder_options: DecoderOptions) -> (r:
        Result<Vec<u8>, GifError>)
        requires
            gif_wf(*old(self)),
        ensures
            gif_wf(*final(self)),
            parsed_preserved(*old(self), *final(self)),
            r is Err <==> frame_index >= old(self).frames@.len(),
            r is Err ==> r->Err_0 == GifError::OutOfRangeFrameIndex && *final(self) == *old(self),
            (r is Ok && decoder_options.store_cache && old(self).frames@[frame_index as int].cached_frame is Some) ==> {
                &&& (r->Ok_0)@ == (old(self).frames@[frame_index as int].cached_frame->0)@
                &&& *final(self) == *old(self)
            },
            (r is Ok && (!decoder_options.store_cache || old(self).frames@[frame_index as int].cached_frame is None)) ==> {
                &&& (r->Ok_0)@ == spec_composed_frame(
                    *old(self),
                    frame_index as int,
                    decoder_options,
                    Option::None,
                )
                &&& (decoder_options.store_cache && !decoder_options.raw_decode ==> {
                    &&& final(self).frames@[frame_index as int].cached_frame is Some
                    &&& (final(self).frames@[frame_index as int].cached_frame->0)@ == (r->Ok_0)@
                })
                &&& (!(decoder_options.store_cache && !decoder_options.raw_decode)
                    ==> caches_unchanged(*old(self), *final(self)))
                &&& (!decoder_options.raw_decode ==> (r->Ok_0)@.len() == canvas_len(
                    old(self).lsd,
                ))
                &&& (decoder_options.raw_decode ==> (r->Ok_0)@.len() == 4 * old(self).frames@[frame_index as int].im.width * old(self).frames@[frame_index as int].im.height)
                &&& (snapshot_cond(*old(self), frame_index as int, decoder_options) ==> {
                    &&& final(self).frames@[frame_index as int].previous_pixels is Some
                    &&& (final(self).frames@[frame_index as int].previous_pixels->0)@ == (
                    r->Ok_0)@
                })
                &&& (!snapshot_cond(*old(self), frame_index as int, decoder_options) ==> final(self).frames@[frame_index as int].previous_pixels == old(self).frames@[frame_index as int].previous_pixels)
            },
            forall|i: int|
                0 <= i < old(self).frames@.len() && old(self).frames@[i].cached_frame is Some
                    ==> (#[trigger] final(self).frames@[i]).cached_frame == old(self).frames@[i].cached_frame,
            (!decoder_options.store_cache || decoder_options.raw_decode) ==> *final(self)
                == *old(self),
    {
        let k: usize = frame_index as usize;
        if k >= self.frames.len() {
            return Err(GifError::OutOfRangeFrameIndex);
        }

        if decoder_options.store_cache {
            let mut cached: Option<Vec<u8>> = None;
            match &self.frames[k].cached_frame {
                Some(cached_frame) => {
                    cached = Some(clone_bytes(cached_frame));
                },
                None => {},
            }
            match cached {
                Some(c) => {
                    return Ok(c);
                },
                None => {},
            }
        }

        let has_disposal_3: bool = self.compute_has_disposal_3();

        let maybe_previous_frame_index: Option<usize> = if k == 0 {
            None
        } else {
            Some(k - 1)
        };
        let previous_disposal_method: u32 = match maybe_previous_frame_index {
            Some(previous_frame_index) => {
                let fr = &self.frames[previous_frame_index];
                fr.gcd.disposal_method
            },
            None => 0,
        };

        Ok(
            self.decode_frame_internal(
                k,
                &decoder_options,
                maybe_previous_frame_index,
                previous_disposal_method,
                has_disposal_3,
                None,
            ),
        )
    }

    /// Append one transparent black RGBA pixel per screen pixel.
    pub(crate) fn fill_with_empty_color(&self, buffer: &mut Vec<u8>)
        requires
            lsd_wf(self.lsd),
        ensures
            final(buffer)@ == old(buffer)@ + zero_canvas(self.lsd),
    {
        proof {
            assert((self.lsd.width as int) * (self.lsd.height as int) <= 65535 * 65535)
                by (nonlinear_arith)
                requires
                    self.lsd.width < 65536 && self.lsd.height < 65536,
            ;
        }
        let npix: usize = (self.lsd.width as usize) * (self.lsd.height as usize);
        let ghost base = buffer@;
        let mut i: usize = 0;
        while i < npix
            invariant
                i <= npix,
                npix == (self.lsd.width as int) * (self.lsd.height as int),
                buffer@.len() == base.len() + 4 * i,
                base == buffer@.subrange(0, base.len() as int),
                forall|j: int| base.len() <= j < buffer@.len() ==> buffer@[j] == 0u8,
            decreases npix - i,
        {
            buffer.push(0);
            buffer.push(0);
            buffer.push(0);
            buffer.push(0);
            i = i + 1;
            proof {
                assert(base =~= buffer@.subrange(0, base.len() as int));
            }
        }
        proof {
            assert(canvas_len(self.lsd) == 4 * npix) by (nonlinear_arith)
                requires
                    npix == (self.lsd.width as int) * (self.lsd.height as int) && canvas_len(
                        self.lsd,
                    ) == 4 * self.lsd.width * self.lsd.height,
            ;
            assert(buffer@ =~= base + zero_canvas(self.lsd));
        }
    }
}

/// Raw decoding reads only the fields the parser froze.
proof fn lemma_raw_parsed_eq(a: Frame, b: Frame)
    requires
        frame_parsed_eq(a, b),
    ensures
        spec_raw_frame(a) == spec_raw_frame(b),
{
    assert forall|j: int| 0 <= j < 4 * a.im.width * a.im.height implies raw_byte(a, j)
        == raw_byte(b, j) by {}
    assert(spec_raw_frame(a) =~= spec_raw_frame(b));
}

/// Before any frame is rendered there is no snapshot to restore.
proof fn lemma_stored_previous_pristine(frames: Seq<Frame>, i: int)
    requires
        forall|j: int| 0 <= j < frames.len() ==> (#[trigger] frames[j]).previous_pixels is None,
        i < frames.len(),
    ensures
        stored_previous(frames, i) is None,
    decreases i + 1,
{
    if i >= 0 {
        lemma_stored_previous_pristine(frames, i - 1);
    }
}

/// Composition reads only what the parser produced: two images with the
/// same screen, tables and index streams, neither holding any cached or
/// snapshot buffers yet, render every frame to the same bytes. Since
/// decoding the same input twice yields equal parsed fields and fresh
/// buffers, re-decoded frames render bit-identically.
pub proof fn lemma_composition_reads_only_parsed_data(
    g1: Gif,
    g2: Gif,
    k: int,
    opts: DecoderOptions,
)
    requires
        parsed_preserved(g1, g2),
        pristine(g1),
        pristine(g2),
        0 <= k < g1.frames@.len(),
    ensures
        spec_composed_frame(g1, k, opts, Option::None) == spec_composed_frame(
            g2,
            k,
            opts,
            Option::None,
        ),
    decreases k,
{
    if opts.raw_decode {
        lemma_raw_parsed_eq(g1.frames@[k], g2.frames@[k]);
    } else {
        let pd = prev_disposal(g1, k);
        assert(prev_disposal(g2, k) == pd);
        if opts.disable_disposal_methods {
        } else if opts.implement_disposal_previous && pd == 3 {
            lemma_stored_previous_pristine(g1.frames@, k - 1);
            lemma_stored_previous_pristine(g2.frames@, k - 1);
        } else if pd == 2 {
            assert(bg_color(g1) == bg_color(g2));
            assert(bg_is_transparent(g1, k) == bg_is_transparent(g2, k));
            assert(g1.frames@[k - 1].im == g2.frames@[k - 1].im);
            assert(spec_bg_canvas(g1, k) == spec_bg_canvas(g2, k));
        } else if k >= 1 {
            lemma_composition_reads_only_parsed_data(g1, g2, k - 1, opts);
        }
        let base = spec_base_canvas(g1, k, opts, Option::None);
        assert(spec_base_canvas(g2, k, opts, Option::None) == base);
        lemma_painted_parsed_eq(base, g1.frames@[k], g2.frames@[k], g1.lsd, pd);
        assert(g2.lsd == g1.lsd);
    }
}

/// The sequential renderer, too, reads only parsed data on fresh
/// decodes: equal parses give equal rolling snapshots, bases and
/// buffers for every frame.
proof fn lemma_seq_buffer_parsed_eq(g1: Gif, g2: Gif, opts: DecoderOptions, i: int)
    requires
        parsed_preserved(g1, g2),
        pristine(g1),
        pristine(g2),
        i < g1.frames@.len(),
    ensures
        seq_rolling(g1, opts, i) == seq_rolling(g2, opts, i),
        0 <= i ==> seq_frame_base(g1, opts, i) == seq_frame_base(g2, opts, i),
        0 <= i ==> seq_frame_buffer(g1, opts, i) == seq_frame_buffer(g2, opts, i),
    decreases i, 2int,
{
    assert(has_restore_previous(g1.frames@) == has_restore_previous(g2.frames@)) by {
        if has_restore_previous(g1.frames@) {
            let w = choose|j: int|
                0 <= j < g1.frames@.len() && (#[trigger] g1.frames@[j]).gcd.disposal_method == 3;
            assert(g2.frames@[w].gcd.disposal_method == 3);
        }
        if has_restore_previous(g2.frames@) {
            let w = choose|j: int|
                0 <= j < g2.frames@.len() && (#[trigger] g2.frames@[j]).gcd.disposal_method == 3;
            assert(g1.frames@[w].gcd.disposal_method == 3);
        }
    }
    if i <= 0 {
        assert(zero_canvas(g1.lsd) == zero_canvas(g2.lsd));
    } else {
        lemma_seq_buffer_parsed_eq(g1, g2, opts, i - 1);
        assert(g1.frames@[i - 1].cached_frame is None);
        assert(g2.frames@[i - 1].cached_frame is None);
        assert(rolling_update_cond(g1, opts, i - 1) == rolling_update_cond(g2, opts, i - 1));
    }
    if 0 <= i {
        assert(g1.frames@[i].cached_frame is None);
        assert(g2.frames@[i].cached_frame is None);
        let pd = prev_disposal(g1, i);
        assert(prev_disposal(g2, i) == pd);
        if !opts.disable_disposal_methods && !(opts.implement_disposal_previous && pd == 3) && pd
            == 2 {
            lemma_bg_canvas_parsed_eq(g1, g2, i);
        }
        if !opts.disable_disposal_methods && !(opts.implement_disposal_previous && pd == 3) && pd
            != 2 && i >= 1 && !opts.store_cache {
            lemma_composition_reads_only_parsed_data(g1, g2, i - 1, opts);
        }
        if opts.raw_decode {
            lemma_raw_parsed_eq(g1.frames@[i], g2.frames@[i]);
        } else {
            lemma_painted_parsed_eq(
                seq_frame_base(g1, opts, i),
                g1.frames@[i],
                g2.frames@[i],
                g1.lsd,
                pd,
            );
        }
    }
}

/// Re-decoding the same input renders bit-identical frame buffers under
/// the same options: two values that `decode_buffer` accepts for the
/// same bytes carry the same parsed data and no buffers, so every
/// sequentially rendered frame and every singly composed frame come out
/// byte-for-byte equal.
pub proof fn lemma_redecoding_renders_identically(
    b: Seq<u8>,
    g1: Gif,
    g2: Gif,
    opts: DecoderOptions,
)
    requires
        crate::parser::decode_result_props(b, Result::Ok(g1)),
        crate::parser::decode_result_props(b, Result::Ok(g2)),
    ensures
        g1.frames@.len() == g2.frames@.len(),
        forall|i: int|
            0 <= i < g1.frames@.len() ==> #[trigger] seq_frame_buffer(g1, opts, i)
                == seq_frame_buffer(g2, opts, i),
        forall|i: int|
            0 <= i < g1.frames@.len() ==> #[trigger] spec_composed_frame(
                g1,
                i,
                opts,
                Option::None,
            ) == spec_composed_frame(g2, i, opts, Option::None),
{
    let walk = crate::parser::spec_block_walk(
        b,
        crate::parser::spec_header_len(b),
        Seq::<crate::parser::FrameData>::empty(),
        false,
        crate::parser::spec_global_colors(b),
    );
    assert(crate::parser::frames_match(g1.frames@, walk->Ok_0));
    assert(crate::parser::frames_match(g2.frames@, walk->Ok_0));
    assert(g1.global_table@ == g2.global_table@);
    assert(parsed_preserved(g1, g2)) by {
        assert forall|i: int|
            0 <= i < g1.frames@.len() implies frame_parsed_eq(
            g1.frames@[i],
            #[trigger] g2.frames@[i],
        ) by {
            assert(crate::parser::frame_matches(g1.frames@[i], walk->Ok_0[i]));
            assert(crate::parser::frame_matches(g2.frames@[i], walk->Ok_0[i]));
        }
    }
    assert forall|i: int| 0 <= i < g1.frames@.len() implies #[trigger] seq_frame_buffer(
        g1,
        opts,
        i,
    ) == seq_frame_buffer(g2, opts, i) by {
        lemma_seq_buffer_parsed_eq(g1, g2, opts, i);
    }
    assert forall|i: int| 0 <= i < g1.frames@.len() implies #[trigger] spec_composed_frame(
        g1,
        i,
        opts,
        Option::None,
    ) == spec_composed_frame(g2, i, opts, Option::None) by {
        lemma_composition_reads_only_parsed_data(g1, g2, i, opts);
    }
}

/// With caching on, rendering the same frame twice gives byte-identical
/// buffers: composing it leaves the result in its cache, and a later
/// call for a cached frame returns that cache verbatim. The hypotheses
/// are exactly what `decode_frame`'s contract gives for the first call
/// (it stores its result) and for the second (a cache hit returns the
/// stored bytes unchanged).
pub proof fn lemma_decode_frame_twice_stable(
    g1: Gif,
    r1: Seq<u8>,
    r2: Seq<u8>,
    k: int,
    opts: DecoderOptions,
)
    requires
        opts.store_cache && !opts.raw_decode,
        0 <= k < g1.frames@.len(),
        g1.frames@[k].cached_frame is Some,
        (g1.frames@[k].cached_frame->0)@ == r1,
        r2 == (g1.frames@[k].cached_frame->0)@,
    ensures
        r2 == r1,
{
}

} // verus!
