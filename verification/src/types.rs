//! The decoded data model: `Gif`, its logical screen descriptor, frames,
//! graphics-control and image-descriptor records, colors, decoder options,
//! and the error kinds, together with the well-formedness predicates that
//! every decoded value satisfies.

use vstd::prelude::*;

verus! {

/// One entry of a color table: three 8-bit channels, held in `u32` fields.
#[derive(Clone, Copy, Debug, PartialEq, Eq, Structural)]
pub struct Color {
    pub red: u32,
    pub green: u32,
    pub blue: u32,
}

/// The logical screen descriptor parsed from bytes 6..13 of the file.
/// `color_resolution` keeps the raw packed bits 6..4 unshifted.
#[derive(Clone, Copy, Debug, PartialEq, Eq, Structural)]
pub struct LogicalScreenDescriptor {
    pub width: u32,
    pub height: u32,
    pub global_color_flag: bool,
    pub color_resolution: u32,
    pub sorted_flag: bool,
    pub global_color_size: u32,
    pub background_color_index: u32,
    pub pixel_aspect_ratio: u32,
}

/// A graphics control extension; `disposal_method` holds packed bits 4..2
/// shifted right by 2.
#[derive(Clone, Copy, Debug, PartialEq, Eq, Structural)]
pub struct GraphicsControlExtension {
    pub disposal_method: u32,
    pub user_input_flag: bool,
    pub transparent_color_flag: bool,
    pub delay_time: u32,
    pub transparent_color_index: u32,
}

/// An image descriptor. The local-color-table flag and size are consumed
/// during parsing; their effect is materialized in `Frame::color_table`.
#[derive(Clone, Copy, Debug, PartialEq, Eq, Structural)]
pub struct ImageDescriptor {
    pub left: u32,
    pub top: u32,
    pub width: u32,
    pub height: u32,
    pub interlace_flag: bool,
    pub sort_flag: bool,
}

/// One animation frame: its control extension, image descriptor, color
/// table (local, or a copy of the global table), the palette index per
/// pixel, and the two lazily-filled compositor buffers.
#[derive(Clone, Debug)]
pub struct Frame {
    pub gcd: GraphicsControlExtension,
    pub im: ImageDescriptor,
    pub color_table: Vec<Color>,
    pub index_stream: Vec<u8>,
    /// Composed RGBA buffer, stored after rendering when caching is enabled.
    pub cached_frame: Option<Vec<u8>>,
    /// Snapshot used by "restore to previous" disposal, stored while
    /// rendering single frames when caching is enabled and some frame of
    /// the file uses that disposal.
    pub previous_pixels: Option<Vec<u8>>,
}

/// A fully decoded GIF.
#[derive(Clone, Debug)]
pub struct Gif {
    /// The three version bytes (bytes 3..6 of the file), verbatim: the
    /// raw bytes rather than text, so the contracts can pin them to the
    /// input directly.
    pub version: Vec<u8>,
    pub lsd: LogicalScreenDescriptor,
    pub global_table: Vec<Color>,
    pub frames: Vec<Frame>,
}

/// Rendering options for the frame compositor.
#[derive(Clone, Copy, Debug, PartialEq, Eq, Structural)]
pub struct DecoderOptions {
    /// Honor disposal method 3; when false, treat it as "do not dispose".
    pub implement_disposal_previous: bool,
    /// Retain composed RGBA buffers per frame after rendering.
    pub store_cache: bool,
    /// Skip base-canvas setup; render onto an all-transparent canvas.
    pub disable_disposal_methods: bool,
    /// Emit only the frame rectangle's pixels; disables disposal handling.
    pub raw_decode: bool,
}

/// The error kinds surfaced to the caller.
#[derive(Clone, Copy, Debug, PartialEq, Eq, Structural)]
pub enum GifError {
    /// A read crossed end-of-input during a required field.
    Truncated,
    /// The first three bytes are not `GIF`.
    BadSignature,
    /// Signature or version bytes are not ASCII text.
    BadEncoding,
    /// A bit-reader read requested more bits than available.
    InsufficientBits,
    /// A frame index at or beyond the number of frames was requested.
    OutOfRangeFrameIndex,
}

/// Each channel of a parsed color came from one byte.
pub open spec fn color_wf(c: Color) -> bool {
    c.red < 256 && c.green < 256 && c.blue < 256
}

/// A color table holds at most 256 well-formed colors and, unless it is
/// empty, its length is the power of two that the size field encodes.
pub open spec fn color_table_wf(t: Seq<Color>) -> bool {
    &&& t.len() <= 256
    &&& t.len() == 0 || valid_color_count(t.len() as int)
    &&& forall|i: int| 0 <= i < t.len() ==> color_wf(#[trigger] t[i])
}

/// The lengths a parsed color table can have: `2^(size + 1)` for a
/// three-bit size field.
pub open spec fn valid_color_count(n: int) -> bool {
    n == 2 || n == 4 || n == 8 || n == 16 || n == 32 || n == 64 || n == 128 || n == 256
}

/// Field bounds forced by the byte-level encoding of the descriptor.
pub open spec fn lsd_wf(l: LogicalScreenDescriptor) -> bool {
    &&& l.width < 65536
    &&& l.height < 65536
    &&& l.color_resolution < 256
    &&& l.global_color_size < 8
    &&& l.background_color_index < 256
    &&& l.pixel_aspect_ratio < 256
}

/// Field bounds forced by the byte-level encoding of the extension.
pub open spec fn gce_wf(g: GraphicsControlExtension) -> bool {
    &&& g.disposal_method < 8
    &&& g.delay_time < 65536
    &&& g.transparent_color_index < 256
}

/// Field bounds forced by the byte-level encoding of the descriptor.
pub open spec fn im_wf(im: ImageDescriptor) -> bool {
    &&& im.left < 65536
    &&& im.top < 65536
    &&& im.width < 65536
    &&& im.height < 65536
}

/// The byte length of a composed RGBA canvas: four bytes per screen pixel.
pub open spec fn canvas_len(l: LogicalScreenDescriptor) -> int {
    4 * l.width * l.height
}

/// A frame is well formed when its records are in range, its color table
/// is a valid table, its index stream holds exactly one byte per pixel of
/// its rectangle, and any compositor buffers span the logical screen.
pub open spec fn frame_wf(f: Frame, l: LogicalScreenDescriptor) -> bool {
    &&& gce_wf(f.gcd)
    &&& im_wf(f.im)
    &&& color_table_wf(f.color_table@)
    &&& f.index_stream@.len() == f.im.width * f.im.height
    &&& f.cached_frame is Some ==> (f.cached_frame->0)@.len() == canvas_len(l)
    &&& f.previous_pixels is Some ==> (f.previous_pixels->0)@.len() == canvas_len(l)
}

/// The invariant of every decoded `Gif`.
pub open spec fn gif_wf(g: Gif) -> bool {
    &&& g.version@.len() == 3
    &&& lsd_wf(g.lsd)
    &&& color_table_wf(g.global_table@)
    &&& forall|i: int| 0 <= i < g.frames@.len() ==> frame_wf(#[trigger] g.frames@[i], g.lsd)
}

/// No frame holds a lazily-filled compositor buffer yet, as right after
/// decoding.
pub open spec fn pristine(g: Gif) -> bool {
    forall|i: int|
        0 <= i < g.frames@.len() ==> (#[trigger] g.frames@[i]).cached_frame is None
            && g.frames@[i].previous_pixels is None
}

/// Every frame of a well-formed image holds exactly one palette index
/// per pixel of its rectangle, and its color table is either empty or a
/// power of two of at most 256 entries.
pub proof fn lemma_decoded_frame_invariants(g: Gif, i: int)
    requires
        gif_wf(g),
        0 <= i < g.frames@.len(),
    ensures
        g.frames@[i].index_stream@.len() == g.frames@[i].im.width * g.frames@[i].im.height,
        g.frames@[i].color_table@.len() <= 256,
        g.frames@[i].color_table@.len() == 0 || valid_color_count(
            g.frames@[i].color_table@.len() as int,
        ),
{
}

impl Default for Color {
    /// All channels zero.
    fn default() -> (r: Color)
        ensures
            r.red == 0 && r.green == 0 && r.blue == 0,
    {
        Color { red: 0, green: 0, blue: 0 }
    }
}

impl Default for LogicalScreenDescriptor {
    /// A zero screen with every flag clear.
    fn default() -> (r: LogicalScreenDescriptor)
        ensures
            r == (LogicalScreenDescriptor {
                width: 0,
                height: 0,
                global_color_flag: false,
                color_resolution: 0,
                sorted_flag: false,
                global_color_size: 0,
                background_color_index: 0,
                pixel_aspect_ratio: 0,
            }),
    {
        LogicalScreenDescriptor {
            width: 0,
            height: 0,
            global_color_flag: false,
            color_resolution: 0,
            sorted_flag: false,
            global_color_size: 0,
            background_color_index: 0,
            pixel_aspect_ratio: 0,
        }
    }
}

impl Default for GraphicsControlExtension {
    /// Disposal unspecified, no transparency, no delay.
    fn default() -> (r: GraphicsControlExtension)
        ensures
            r == (GraphicsControlExtension {
                disposal_method: 0,
                user_input_flag: false,
                transparent_color_flag: false,
                delay_time: 0,
                transparent_color_index: 0,
            }),
    {
        GraphicsControlExtension {
            disposal_method: 0,
            user_input_flag: false,
            transparent_color_flag: false,
            delay_time: 0,
            transparent_color_index: 0,
        }
    }
}

impl Default for ImageDescriptor {
    /// An empty rectangle at the origin.
    fn default() -> (r: ImageDescriptor)
        ensures
            r == (ImageDescriptor {
                left: 0,
                top: 0,
                width: 0,
                height: 0,
                interlace_flag: false,
                sort_flag: false,
            }),
    {
        ImageDescriptor {
            left: 0,
            top: 0,
            width: 0,
            height: 0,
            interlace_flag: false,
            sort_flag: false,
        }
    }
}

impl Default for Frame {
    /// Default records, no color table, no pixels, no cached buffers.
    fn default() -> (r: Frame)
        ensures
            r.gcd == (GraphicsControlExtension {
                disposal_method: 0,
                user_input_flag: false,
                transparent_color_flag: false,
                delay_time: 0,
                transparent_color_index: 0,
            }),
            r.im == (ImageDescriptor {
                left: 0,
                top: 0,
                width: 0,
                height: 0,
                interlace_flag: false,
                sort_flag: false,
            }),
            r.color_table@ == Seq::<Color>::empty(),
            r.index_stream@ == Seq::<u8>::empty(),
            r.cached_frame is None,
            r.previous_pixels is None,
    {
        Frame {
            gcd: GraphicsControlExtension::default(),
            im: ImageDescriptor::default(),
            color_table: Vec::new(),
            index_stream: Vec::new(),
            cached_frame: None,
            previous_pixels: None,
        }
    }
}

impl Default for Gif {
    /// An empty image: no version bytes yet, no tables, no frames.
    fn default() -> (r: Gif)
        ensures
            r.version@ == Seq::<u8>::empty(),
            r.lsd == (LogicalScreenDescriptor {
                width: 0,
                height: 0,
                global_color_flag: false,
                color_resolution: 0,
                sorted_flag: false,
                global_color_size: 0,
                background_color_index: 0,
                pixel_aspect_ratio: 0,
            }),
            r.global_table@ == Seq::<Color>::empty(),
            r.frames@ == Seq::<Frame>::empty(),
    {
        Gif {
            version: Vec::new(),
            lsd: LogicalScreenDescriptor::default(),
            global_table: Vec::new(),
            frames: Vec::new(),
        }
    }
}

impl Default for DecoderOptions {
    /// Disposal honored and caching on; raw decode off.
    fn default() -> (r: DecoderOptions)
        ensures
            r == (DecoderOptions {
                implement_disposal_previous: true,
                store_cache: true,
                disable_disposal_methods: false,
                raw_decode: false,
            }),
    {
        DecoderOptions {
            implement_disposal_previous: true,
            store_cache: true,
            disable_disposal_methods: false,
            raw_decode: false,
        }
    }
}

} // verus!
