use gif_decoder::parser::Decoder;
use gif_decoder::types::{DecoderOptions, Gif, GifError};

// A 1x1 GIF with a two-entry global table whose first color is black.
fn minimal_gif() -> Vec<u8> {
    vec![
        0x47, 0x49, 0x46, 0x38, 0x39, 0x61, // GIF89a
        0x01, 0x00, 0x01, 0x00, 0x80, 0x00, 0x00, // LSD: 1x1, global table of 2
        0x00, 0x00, 0x00, 0xFF, 0xFF, 0xFF, // global table: black, white
        0x2C, 0x00, 0x00, 0x00, 0x00, 0x01, 0x00, 0x01, 0x00, 0x00, // image descriptor
        0x02, 0x02, 0x44, 0x01, 0x00, // LZW: min code 2, [clear, 0, eoi]
        0x3B, // trailer
    ]
}

// A 2x2 GIF: global table [red, blue], a GCE with transparency on index
// 1, and index stream [0, 1, 0, 1].
fn transparent_2x2_gif() -> Vec<u8> {
    vec![
        0x47, 0x49, 0x46, 0x38, 0x39, 0x61, //
        0x02, 0x00, 0x02, 0x00, 0x80, 0x00, 0x00, //
        0xFF, 0x00, 0x00, 0x00, 0x00, 0xFF, // red, blue
        0x21, 0xF9, 0x04, 0x01, 0x00, 0x00, 0x01, 0x00, // GCE: transparent index 1
        0x2C, 0x00, 0x00, 0x00, 0x00, 0x02, 0x00, 0x02, 0x00, 0x00, //
        0x02, 0x03, 0x44, 0x10, 0x05, 0x00, // LZW: [clear, 0, 1, 0, 1, eoi]
        0x3B,
    ]
}

// Two frames on a 2x2 canvas with background index 1 (blue). Frame 0
// paints everything red and is disposed to the background; frame 1
// paints one red pixel at the origin.
fn disposal_background_gif() -> Vec<u8> {
    vec![
        0x47, 0x49, 0x46, 0x38, 0x39, 0x61, //
        0x02, 0x00, 0x02, 0x00, 0x80, 0x01, 0x00, // background index 1
        0xFF, 0x00, 0x00, 0x00, 0x00, 0xFF, // red, blue
        0x21, 0xF9, 0x04, 0x08, 0x00, 0x00, 0x00, 0x00, // GCE: disposal 2
        0x2C, 0x00, 0x00, 0x00, 0x00, 0x02, 0x00, 0x02, 0x00, 0x00, //
        0x02, 0x03, 0x04, 0x00, 0x05, 0x00, // LZW: [clear, 0, 0, 0, 0, eoi]
        0x21, 0xF9, 0x04, 0x00, 0x00, 0x00, 0x00, 0x00, // GCE: disposal 0
        0x2C, 0x00, 0x00, 0x00, 0x00, 0x01, 0x00, 0x01, 0x00, 0x00, // 1x1 at origin
        0x02, 0x02, 0x44, 0x01, 0x00, // LZW: [clear, 0, eoi]
        0x3B,
    ]
}

// Three frames on a 2x2 canvas: a red canvas kept with disposal 1, a
// blue pixel at the origin restored with disposal 3, and a blue pixel
// at (1, 1).
fn disposal_previous_gif() -> Vec<u8> {
    vec![
        0x47, 0x49, 0x46, 0x38, 0x39, 0x61, //
        0x02, 0x00, 0x02, 0x00, 0x80, 0x00, 0x00, //
        0xFF, 0x00, 0x00, 0x00, 0x00, 0xFF, // red, blue
        0x21, 0xF9, 0x04, 0x04, 0x00, 0x00, 0x00, 0x00, // GCE: disposal 1
        0x2C, 0x00, 0x00, 0x00, 0x00, 0x02, 0x00, 0x02, 0x00, 0x00, //
        0x02, 0x03, 0x04, 0x00, 0x05, 0x00, // all red
        0x21, 0xF9, 0x04, 0x0C, 0x00, 0x00, 0x00, 0x00, // GCE: disposal 3
        0x2C, 0x00, 0x00, 0x00, 0x00, 0x01, 0x00, 0x01, 0x00, 0x00, // 1x1 at origin
        0x02, 0x02, 0x4C, 0x01, 0x00, // LZW: [clear, 1, eoi]
        0x21, 0xF9, 0x04, 0x00, 0x00, 0x00, 0x00, 0x00, // GCE: disposal 0
        0x2C, 0x01, 0x00, 0x01, 0x00, 0x01, 0x00, 0x01, 0x00, 0x00, // 1x1 at (1, 1)
        0x02, 0x02, 0x4C, 0x01, 0x00, // LZW: [clear, 1, eoi]
        0x3B,
    ]
}

// A 1x8 image with eight colors, one per row, stored in scan order.
fn column_gif(interlaced: bool, data: &[u8]) -> Vec<u8> {
    let mut bytes: Vec<u8> = vec![
        0x47, 0x49, 0x46, 0x38, 0x39, 0x61, //
        0x01, 0x00, 0x08, 0x00, 0x82, 0x00, 0x00, // 1x8, global table of 8
    ];
    let mut i: u8 = 0;
    while i < 8 {
        bytes.push(i * 30);
        bytes.push(255 - i * 30);
        bytes.push(i);
        i += 1;
    }
    bytes.extend_from_slice(&[
        0x2C, 0x00, 0x00, 0x00, 0x00, 0x01, 0x00, 0x08, 0x00,
        if interlaced { 0x40 } else { 0x00 },
        0x03, // min code size
    ]);
    bytes.push(data.len() as u8);
    bytes.extend_from_slice(data);
    bytes.push(0x00);
    bytes.push(0x3B);
    bytes
}

fn decode(bytes: Vec<u8>) -> Gif {
    Decoder::decode_buffer(bytes).expect("decode failed")
}

#[test]
fn minimal_1x1() {
    let mut gif = decode(minimal_gif());
    assert_eq!(gif.version, vec![0x38, 0x39, 0x61]);
    assert_eq!(gif.lsd.width, 1);
    assert_eq!(gif.lsd.height, 1);
    assert_eq!(gif.global_table.len(), 2);
    assert_eq!(gif.frames.len(), 1);
    assert_eq!(gif.frames[0].index_stream, vec![0]);
    let buffer = gif.decode_frame(0, DecoderOptions::default()).unwrap();
    assert_eq!(buffer, vec![0x00, 0x00, 0x00, 0xFF]);
}

#[test]
fn transparent_pixel_alpha_pattern() {
    let mut gif = decode(transparent_2x2_gif());
    assert_eq!(gif.frames.len(), 1);
    assert_eq!(gif.frames[0].index_stream, vec![0, 1, 0, 1]);
    let buffer = gif.decode_frame(0, DecoderOptions::default()).unwrap();
    assert_eq!(buffer.len(), 16);
    assert_eq!(buffer[3], 255);
    assert_eq!(buffer[7], 0);
    assert_eq!(buffer[11], 255);
    assert_eq!(buffer[15], 0);
    // the transparent pixels leave the transparent base canvas intact
    assert_eq!(&buffer[4..8], &[0, 0, 0, 0]);
    assert_eq!(&buffer[0..4], &[0xFF, 0x00, 0x00, 0xFF]);
}

#[test]
fn disposal_background_restores_background() {
    let mut gif = decode(disposal_background_gif());
    assert_eq!(gif.frames.len(), 2);
    let buffers = gif.decode_frames(DecoderOptions::default());
    assert_eq!(buffers.len(), 2);
    // frame 0 is red everywhere
    assert_eq!(&buffers[0][0..4], &[0xFF, 0x00, 0x00, 0xFF]);
    assert_eq!(&buffers[0][12..16], &[0xFF, 0x00, 0x00, 0xFF]);
    // frame 1: its own pixel is red, the rest restored to blue background
    assert_eq!(&buffers[1][0..4], &[0xFF, 0x00, 0x00, 0xFF]);
    assert_eq!(&buffers[1][4..8], &[0x00, 0x00, 0xFF, 0xFF]);
    assert_eq!(&buffers[1][12..16], &[0x00, 0x00, 0xFF, 0xFF]);
}

#[test]
fn disposal_previous_restores_snapshot() {
    let mut gif = decode(disposal_previous_gif());
    assert_eq!(gif.frames.len(), 3);
    let buffers = gif.decode_frames(DecoderOptions::default());
    assert_eq!(buffers.len(), 3);
    // frame 1 painted blue over the red canvas at the origin
    assert_eq!(&buffers[1][0..4], &[0x00, 0x00, 0xFF, 0xFF]);
    // frame 2 composes atop the pre-frame-1 state: the origin is red again
    assert_eq!(&buffers[2][0..4], &[0xFF, 0x00, 0x00, 0xFF]);
    // and frame 2's own pixel at (1, 1) is blue
    assert_eq!(&buffers[2][12..16], &[0x00, 0x00, 0xFF, 0xFF]);
}

#[test]
fn interlaced_matches_sequential() {
    // the same eight rows, encoded in scan order and in interlace order
    let sequential = column_gif(false, &[0x08, 0x21, 0x83, 0x54, 0x76, 0x09]);
    let interlaced = column_gif(true, &[0x08, 0x24, 0x86, 0x31, 0x75, 0x09]);
    let mut a = decode(sequential);
    let mut b = decode(interlaced);
    assert_eq!(a.frames[0].index_stream, vec![0, 1, 2, 3, 4, 5, 6, 7]);
    assert_eq!(a.frames[0].index_stream, b.frames[0].index_stream);
    let ba = a.decode_frame(0, DecoderOptions::default()).unwrap();
    let bb = b.decode_frame(0, DecoderOptions::default()).unwrap();
    assert_eq!(ba, bb);
}

#[test]
fn truncated_stream_is_zero_padded() {
    // the LZW stream stops after one pixel; decoding still succeeds and
    // the index stream is padded to the pixel count
    let bytes = vec![
        0x47, 0x49, 0x46, 0x38, 0x39, 0x61, //
        0x02, 0x00, 0x02, 0x00, 0x80, 0x00, 0x00, //
        0xFF, 0x00, 0x00, 0x00, 0x00, 0xFF, //
        0x2C, 0x00, 0x00, 0x00, 0x00, 0x02, 0x00, 0x02, 0x00, 0x00, //
        0x02, 0x01, 0x04, 0x00, // LZW: [clear, 0] then end of sub-blocks
        0x3B,
    ];
    let gif = decode(bytes);
    assert_eq!(gif.frames.len(), 1);
    assert_eq!(gif.frames[0].index_stream, vec![0, 0, 0, 0]);
}

#[test]
fn cut_mid_stream_still_decodes() {
    // the file ends inside a declared sub-block, with no terminator and
    // no trailer: the frame decodes and is zero-padded
    let bytes = vec![
        0x47, 0x49, 0x46, 0x38, 0x39, 0x61, //
        0x02, 0x00, 0x02, 0x00, 0x80, 0x00, 0x00, //
        0xFF, 0x00, 0x00, 0x00, 0x00, 0xFF, //
        0x2C, 0x00, 0x00, 0x00, 0x00, 0x02, 0x00, 0x02, 0x00, 0x00, //
        0x02, 0x03, 0x44, // sub-block claims 3 bytes, only 1 present
    ];
    let gif = decode(bytes);
    assert_eq!(gif.frames.len(), 1);
    assert_eq!(gif.frames[0].index_stream, vec![0, 0, 0, 0]);
}

#[test]
fn truncated_header_is_rejected() {
    assert_eq!(
        Decoder::decode_buffer(vec![0x47, 0x49, 0x46]).unwrap_err(),
        GifError::Truncated
    );
    assert_eq!(
        Decoder::decode_buffer(vec![0x47, 0x49, 0x46, 0x38, 0x39, 0x61]).unwrap_err(),
        GifError::Truncated
    );
    // cut inside a required image-descriptor field
    let mut bytes = minimal_gif();
    bytes.truncate(24);
    assert_eq!(Decoder::decode_buffer(bytes).unwrap_err(), GifError::Truncated);
}

#[test]
fn bad_signature_is_rejected() {
    assert_eq!(
        Decoder::decode_buffer(vec![0x58, 0x49, 0x46, 0x38, 0x39, 0x61]).unwrap_err(),
        GifError::BadSignature
    );
}

#[test]
fn non_ascii_signature_is_rejected() {
    assert_eq!(
        Decoder::decode_buffer(vec![0xC3, 0x49, 0x46, 0x38, 0x39, 0x61]).unwrap_err(),
        GifError::BadEncoding
    );
    let mut bytes = minimal_gif();
    bytes[4] = 0xC3;
    assert_eq!(Decoder::decode_buffer(bytes).unwrap_err(), GifError::BadEncoding);
}

#[test]
fn out_of_range_frame_index() {
    let mut gif = decode(minimal_gif());
    assert_eq!(
        gif.decode_frame(5, DecoderOptions::default()).unwrap_err(),
        GifError::OutOfRangeFrameIndex
    );
}

#[test]
fn redecoding_is_bit_identical() {
    let mut a = decode(disposal_previous_gif());
    let mut b = decode(disposal_previous_gif());
    assert_eq!(a.frames.len(), b.frames.len());
    let mut i: usize = 0;
    while i < a.frames.len() {
        assert_eq!(a.frames[i].index_stream, b.frames[i].index_stream);
        i += 1;
    }
    let ba = a.decode_frames(DecoderOptions::default());
    let bb = b.decode_frames(DecoderOptions::default());
    assert_eq!(ba, bb);
}

#[test]
fn cached_frame_is_stable() {
    let mut gif = decode(transparent_2x2_gif());
    let first = gif.decode_frame(0, DecoderOptions::default()).unwrap();
    let second = gif.decode_frame(0, DecoderOptions::default()).unwrap();
    assert_eq!(first, second);
    assert!(gif.frames[0].cached_frame.is_some());
}

#[test]
fn uncached_decode_is_stable_too() {
    let opts = DecoderOptions {
        implement_disposal_previous: true,
        store_cache: false,
        disable_disposal_methods: false,
        raw_decode: false,
    };
    let mut gif = decode(transparent_2x2_gif());
    let first = gif.decode_frame(0, opts).unwrap();
    let second = gif.decode_frame(0, opts).unwrap();
    assert_eq!(first, second);
    assert!(gif.frames[0].cached_frame.is_none());
}

#[test]
fn disabled_cache_ignores_stored_buffer() {
    let mut gif = decode(minimal_gif());
    gif.frames[0].cached_frame = Some(vec![9, 9, 9, 9]);
    let opts = DecoderOptions {
        implement_disposal_previous: true,
        store_cache: false,
        disable_disposal_methods: false,
        raw_decode: false,
    };
    // with caching off the stored buffer is ignored and recomputed
    assert_eq!(gif.decode_frame(0, opts).unwrap(), vec![0, 0, 0, 255]);
    // with caching on it is returned as stored
    assert_eq!(
        gif.decode_frame(0, DecoderOptions::default()).unwrap(),
        vec![9, 9, 9, 9]
    );
}

#[test]
fn disabled_cache_stores_nothing() {
    let opts = DecoderOptions {
        implement_disposal_previous: true,
        store_cache: false,
        disable_disposal_methods: false,
        raw_decode: false,
    };
    let mut gif = decode(disposal_previous_gif());
    let buffers = gif.decode_frames(opts);
    // restore-to-previous still works through the rolling snapshot
    assert_eq!(&buffers[2][0..4], &[0xFF, 0x00, 0x00, 0xFF]);
    // but nothing is retained on the frames
    let mut i: usize = 0;
    while i < gif.frames.len() {
        assert!(gif.frames[i].cached_frame.is_none());
        assert!(gif.frames[i].previous_pixels.is_none());
        i += 1;
    }
}

#[test]
fn raw_decode_emits_frame_rectangle() {
    let opts = DecoderOptions {
        implement_disposal_previous: true,
        store_cache: false,
        disable_disposal_methods: false,
        raw_decode: true,
    };
    let mut gif = decode(disposal_background_gif());
    let raw1 = gif.decode_frame(1, opts).unwrap();
    // frame 1 is a 1x1 rectangle: four bytes, red and opaque
    assert_eq!(raw1, vec![0xFF, 0x00, 0x00, 0xFF]);
    let raw0 = gif.decode_frame(0, opts).unwrap();
    assert_eq!(raw0.len(), 16);
}

#[test]
fn raw_decode_honors_transparent_index() {
    let opts = DecoderOptions {
        implement_disposal_previous: true,
        store_cache: false,
        disable_disposal_methods: false,
        raw_decode: true,
    };
    let mut gif = decode(transparent_2x2_gif());
    let raw = gif.decode_frame(0, opts).unwrap();
    assert_eq!(raw.len(), 16);
    assert_eq!(&raw[0..4], &[0xFF, 0x00, 0x00, 0xFF]);
    // the transparent index still carries its color, with alpha 0
    assert_eq!(&raw[4..8], &[0x00, 0x00, 0xFF, 0x00]);
}

#[test]
fn disable_disposal_renders_on_transparent_canvas() {
    let opts = DecoderOptions {
        implement_disposal_previous: true,
        store_cache: false,
        disable_disposal_methods: true,
        raw_decode: false,
    };
    let mut gif = decode(disposal_previous_gif());
    let buffer = gif.decode_frame(2, opts).unwrap();
    // no base canvas: only frame 2's own pixel at (1, 1) is set
    assert_eq!(&buffer[0..4], &[0x00, 0x00, 0x00, 0x00]);
    assert_eq!(&buffer[12..16], &[0x00, 0x00, 0xFF, 0xFF]);
}

#[test]
fn disposal_previous_can_be_ignored() {
    let opts = DecoderOptions {
        implement_disposal_previous: false,
        store_cache: false,
        disable_disposal_methods: false,
        raw_decode: false,
    };
    let mut gif = decode(disposal_previous_gif());
    let buffers = gif.decode_frames(opts);
    // frame 1's disposal 3 is treated as keep: the origin stays blue
    assert_eq!(&buffers[2][0..4], &[0x00, 0x00, 0xFF, 0xFF]);
}

#[test]
fn color_table_lengths_are_powers_of_two() {
    let gif = decode(minimal_gif());
    assert_eq!(gif.global_table.len(), 2);
    assert_eq!(gif.frames[0].color_table.len(), 2);
    let gif8 = decode(column_gif(false, &[0x08, 0x21, 0x83, 0x54, 0x76, 0x09]));
    assert_eq!(gif8.global_table.len(), 8);
    assert_eq!(gif8.frames[0].color_table.len(), 8);
}

#[test]
fn index_stream_spans_frame_rectangle() {
    let gif = decode(disposal_background_gif());
    let mut i: usize = 0;
    while i < gif.frames.len() {
        let f = &gif.frames[i];
        assert_eq!(
            f.index_stream.len(),
            (f.im.width * f.im.height) as usize
        );
        i += 1;
    }
}

#[test]
fn stray_bytes_and_extensions_are_skipped() {
    // a comment extension, an application extension, a plain text
    // extension and stray zero bytes around the image block
    let bytes = vec![
        0x47, 0x49, 0x46, 0x38, 0x37, 0x61, // GIF87a
        0x01, 0x00, 0x01, 0x00, 0x80, 0x00, 0x00, //
        0x00, 0x00, 0x00, 0xFF, 0xFF, 0xFF, //
        0x00, 0x00, // stray padding
        0x21, 0xFE, 0x02, 0x68, 0x69, 0x00, // comment: "hi"
        0x21, 0xFF, 0x03, 0x61, 0x62, 0x63, 0x01, 0x7A, 0x00, // application ext
        0x21, 0x01, 0x0C, 0, 0, 0, 0, 0, 0, 0, 0, 0, 0, 0, 0, 0x00, // plain text ext
        0x2C, 0x00, 0x00, 0x00, 0x00, 0x01, 0x00, 0x01, 0x00, 0x00, //
        0x02, 0x02, 0x44, 0x01, 0x00, //
        0x3B,
    ];
    let gif = decode(bytes);
    assert_eq!(gif.version, vec![0x38, 0x37, 0x61]);
    assert_eq!(gif.frames.len(), 1);
    assert_eq!(gif.frames[0].index_stream, vec![0]);
}

#[test]
fn kwkwk_code_uses_first_byte() {
    // the stream emits the code about to be defined: [clear, 1, 6] on a
    // 3x1 image decodes to [1, 1, 1]
    let bytes = vec![
        0x47, 0x49, 0x46, 0x38, 0x39, 0x61, //
        0x03, 0x00, 0x01, 0x00, 0x80, 0x00, 0x00, //
        0xFF, 0x00, 0x00, 0x00, 0x00, 0xFF, //
        0x2C, 0x00, 0x00, 0x00, 0x00, 0x03, 0x00, 0x01, 0x00, 0x00, //
        0x02, 0x02, 0x8C, 0x0B, 0x00, // LZW: [clear, 1, 6, eoi]
        0x3B,
    ];
    let gif = decode(bytes);
    assert_eq!(gif.frames[0].index_stream, vec![1, 1, 1]);
}

#[test]
fn code_beyond_next_slot_stops_decode() {
    // a code above the next free dictionary slot ends the stream; the
    // remaining pixels are zero-padded
    let bytes = vec![
        0x47, 0x49, 0x46, 0x38, 0x39, 0x61, //
        0x03, 0x00, 0x01, 0x00, 0x80, 0x00, 0x00, //
        0xFF, 0x00, 0x00, 0x00, 0x00, 0xFF, //
        0x2C, 0x00, 0x00, 0x00, 0x00, 0x03, 0x00, 0x01, 0x00, 0x00, //
        0x02, 0x02, 0xCC, 0x01, 0x00, // LZW: [clear, 1, 7]; 7 > available
        0x3B,
    ];
    let gif = decode(bytes);
    assert_eq!(gif.frames[0].index_stream, vec![1, 0, 0]);
}

#[test]
fn trailing_gce_yields_no_frame() {
    // a GCE with no following image descriptor yields no frame
    let mut bytes = minimal_gif();
    let trailer = bytes.pop().unwrap();
    bytes.extend_from_slice(&[0x21, 0xF9, 0x04, 0x00, 0x00, 0x00, 0x00, 0x00]);
    bytes.push(trailer);
    let gif = decode(bytes);
    assert_eq!(gif.frames.len(), 1);
    assert_eq!(gif.frames[0].index_stream, vec![0]);
}

#[test]
fn successive_gces_reuse_the_slot() {
    // two extensions in a row: the later one (with transparency) wins
    let bytes = vec![
        0x47, 0x49, 0x46, 0x38, 0x39, 0x61, //
        0x01, 0x00, 0x01, 0x00, 0x80, 0x00, 0x00, //
        0x00, 0x00, 0x00, 0xFF, 0xFF, 0xFF, //
        0x21, 0xF9, 0x04, 0x04, 0x00, 0x00, 0x00, 0x00, // disposal 1
        0x21, 0xF9, 0x04, 0x09, 0x00, 0x00, 0x00, 0x00, // disposal 2 + transparency
        0x2C, 0x00, 0x00, 0x00, 0x00, 0x01, 0x00, 0x01, 0x00, 0x00, //
        0x02, 0x02, 0x44, 0x01, 0x00, //
        0x3B,
    ];
    let gif = decode(bytes);
    assert_eq!(gif.frames.len(), 1);
    assert_eq!(gif.frames[0].gcd.disposal_method, 2);
    assert!(gif.frames[0].gcd.transparent_color_flag);
}
