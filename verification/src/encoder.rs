//! The GIF encoder: a state machine that consumes high-level events and
//! emits a conformant GIF89a byte stream, and the writer that produces each
//! block of that stream.

use crate::bitstream::{bytes_bits, padded_bits};
use crate::bytes::{append_bytes, push_le16, u16_le_bytes};
use crate::lzw::{codes_bits, lzw_final_codes, lzw_run, LzwEncoder};
use crate::subblocks::{append_sub_block_chain, sub_block_chain};
use vstd::prelude::*;

verus! {

/// How a frame is disposed of before the next one is drawn.
#[derive(Debug, PartialEq, Eq, Structural, Clone, Copy)]
pub enum DisposalMethod {
    Unspecified,
    Keep,
    Background,
    Previous,
}

/// One event of the encoder protocol.
#[derive(Debug)]
pub enum GifEvent {
    StartGif {
        width: u16,
        height: u16,
        global_palette: Option<Vec<[u8; 3]>>,
        background_color_index: u8,
        loop_count: Option<u16>,
    },
    StartFrame {
        delay: u16,
        disposal_method: DisposalMethod,
        local_palette: Option<Vec<[u8; 3]>>,
        transparent_color_index: Option<u8>,
        is_interlaced: bool,
    },
    WriteImageChunk { data: Vec<u8> },
    FlushFrame,
    EndFrame,
    EndGif,
}

/// The six bytes of the emitted signature: ASCII "GIF89a".
pub open spec fn gif_signature() -> Seq<u8> {
    seq![0x47u8, 0x49u8, 0x46u8, 0x38u8, 0x39u8, 0x61u8]
}

/// The "size" bits stored in a packed field for a color table of `len`
/// entries: the exponent N such that 2^(N+1) is the next power of two that
/// holds the table, capped at 7 (256 entries).
pub open spec fn palette_size_field(len: nat) -> u8 {
    if len <= 2 {
        0u8
    } else if len <= 4 {
        1u8
    } else if len <= 8 {
        2u8
    } else if len <= 16 {
        3u8
    } else if len <= 32 {
        4u8
    } else if len <= 64 {
        5u8
    } else if len <= 128 {
        6u8
    } else {
        7u8
    }
}

/// The LZW minimum code size stored for a frame whose palette has `size`
/// entries: the smallest k with 2^k >= size, floored at 2.
pub open spec fn min_code_size_for(size: nat) -> u8 {
    if size <= 4 {
        2u8
    } else if size <= 8 {
        3u8
    } else if size <= 16 {
        4u8
    } else if size <= 32 {
        5u8
    } else if size <= 64 {
        6u8
    } else if size <= 128 {
        7u8
    } else {
        8u8
    }
}

/// The minimum code size for a frame: from its local palette, or 8 when the
/// frame relies on a global palette of up to 256 colors.
pub open spec fn frame_min_code_size(palette: Option<Seq<[u8; 3]>>) -> u8 {
    match palette {
        Some(p) => min_code_size_for(p.len()),
        None => 8u8,
    }
}

/// A palette flattened to its wire form: three bytes per color.
pub open spec fn flat_palette(p: Seq<[u8; 3]>) -> Seq<u8>
    decreases p.len(),
{
    if p.len() == 0 {
        Seq::<u8>::empty()
    } else {
        seq![p[0]@[0], p[0]@[1], p[0]@[2]] + flat_palette(p.skip(1))
    }
}

/// A flattened palette is three bytes per color.
pub proof fn lemma_flat_palette_len(p: Seq<[u8; 3]>)
    ensures
        flat_palette(p).len() == 3 * p.len(),
    decreases p.len(),
{
    if p.len() > 0 {
        lemma_flat_palette_len(p.skip(1));
    }
}

/// The packed byte of the logical screen descriptor: bit 7 set when a global
/// color table follows, bits 0-2 its size exponent.
pub open spec fn lsd_packed_field(palette: Option<Seq<[u8; 3]>>) -> u8 {
    match palette {
        Some(p) => (0x80u8 + palette_size_field(p.len())) as u8,
        None => 0u8,
    }
}

/// The NETSCAPE 2.0 application extension block that stores the loop count.
pub open spec fn netscape_loop_bytes(loop_count: u16) -> Seq<u8> {
    seq![
        0x21u8,
        0xFFu8,
        0x0Bu8,
        0x4Eu8,
        0x45u8,
        0x54u8,
        0x53u8,
        0x43u8,
        0x41u8,
        0x50u8,
        0x45u8,
        0x32u8,
        0x2Eu8,
        0x30u8,
        0x03u8,
        0x01u8,
    ] + u16_le_bytes(loop_count) + seq![0x00u8]
}

/// Everything emitted for StartGif: signature, logical screen descriptor,
/// optional global color table, optional NETSCAPE 2.0 loop block.
pub open spec fn header_bytes(
    width: u16,
    height: u16,
    background_index: u8,
    palette: Option<Seq<[u8; 3]>>,
    loop_count: Option<u16>,
) -> Seq<u8> {
    gif_signature() + u16_le_bytes(width) + u16_le_bytes(height) + seq![
        lsd_packed_field(palette),
        background_index,
        0u8,
    ] + (match palette {
        Some(p) => flat_palette(p),
        None => Seq::<u8>::empty(),
    }) + (match loop_count {
        Some(c) => netscape_loop_bytes(c),
        None => Seq::<u8>::empty(),
    })
}

/// The three bits that encode a disposal method.
pub open spec fn disposal_field(d: DisposalMethod) -> u8 {
    match d {
        DisposalMethod::Unspecified => 0u8,
        DisposalMethod::Keep => 1u8,
        DisposalMethod::Background => 2u8,
        DisposalMethod::Previous => 3u8,
    }
}

/// The packed byte of a graphics control extension: disposal method in bits
/// 2-4, transparency flag in bit 0.
pub open spec fn gce_packed_field(disposal: DisposalMethod, transparent: Option<u8>) -> u8 {
    (disposal_field(disposal) * 4 + (if transparent is Some {
        1u8
    } else {
        0u8
    })) as u8
}

/// The eight bytes emitted for a graphics control extension.
pub open spec fn gce_bytes(disposal: DisposalMethod, delay: u16, transparent: Option<u8>) -> Seq<
    u8,
> {
    seq![0x21u8, 0xF9u8, 0x04u8, gce_packed_field(disposal, transparent)] + u16_le_bytes(delay)
        + seq![
        (match transparent {
            Some(i) => i,
            None => 0u8,
        }),
        0x00u8,
    ]
}

/// The packed byte of an image descriptor: local color table flag in bit 7,
/// interlace flag in bit 6, table size exponent in bits 0-2.
pub open spec fn descriptor_packed_field(palette: Option<Seq<[u8; 3]>>, interlaced: bool) -> u8 {
    ((match palette {
        Some(p) => (0x80u8 + palette_size_field(p.len())) as int,
        None => 0int,
    }) + (if interlaced {
        0x40int
    } else {
        0int
    })) as u8
}

/// Everything emitted for an image descriptor: separator, geometry, packed
/// byte, optional local color table, and the LZW minimum code size.
pub open spec fn image_descriptor_bytes(
    left: u16,
    top: u16,
    width: u16,
    height: u16,
    palette: Option<Seq<[u8; 3]>>,
    interlaced: bool,
) -> Seq<u8> {
    seq![0x2Cu8] + u16_le_bytes(left) + u16_le_bytes(top) + u16_le_bytes(width) + u16_le_bytes(
        height,
    ) + seq![descriptor_packed_field(palette, interlaced)] + (match palette {
        Some(p) => flat_palette(p),
        None => Seq::<u8>::empty(),
    }) + seq![frame_min_code_size(palette)]
}

/// The view of an optional borrowed palette.
pub open spec fn opt_palette_view(palette: Option<&[[u8; 3]]>) -> Option<Seq<[u8; 3]>> {
    match palette {
        Some(p) => Some(p@),
        None => None,
    }
}

/// Accumulates the emitted GIF byte stream, one block at a time.
pub struct GifWriter {
    buffer: Vec<u8>,
}

impl View for GifWriter {
    type V = Seq<u8>;

    closed spec fn view(&self) -> Seq<u8> {
        self.buffer@
    }
}

impl GifWriter {
    pub fn new() -> (w: Self)
        ensures
            w@ == Seq::<u8>::empty(),
    {
        GifWriter { buffer: Vec::new() }
    }

    /// The bytes emitted so far.
    pub fn get_encoded_data(&self) -> (r: &[u8])
        ensures
            r@ == self@,
    {
        self.buffer.as_slice()
    }

    /// The "size" bits for a palette of `len` entries.
    fn size_field_of(len: usize) -> (r: u8)
        ensures
            r == palette_size_field(len as nat),
    {
        if len <= 2 {
            0
        } else if len <= 4 {
            1
        } else if len <= 8 {
            2
        } else if len <= 16 {
            3
        } else if len <= 32 {
            4
        } else if len <= 64 {
            5
        } else if len <= 128 {
            6
        } else {
            7
        }
    }

    /// The LZW minimum code size for a frame with this local palette; with
    /// none, a global palette of up to 256 colors is assumed.
    fn calculate_min_code_size(palette: Option<&[[u8; 3]]>) -> (r: u8)
        ensures
            r == frame_min_code_size(opt_palette_view(palette)),
    {
        let size: usize = match palette {
            Some(p) => p.len(),
            None => 256,
        };
        if size <= 4 {
            2
        } else if size <= 8 {
            3
        } else if size <= 16 {
            4
        } else if size <= 32 {
            5
        } else if size <= 64 {
            6
        } else if size <= 128 {
            7
        } else {
            8
        }
    }

    /// Append the wire form of a palette: three bytes per color.
    fn push_palette(out: &mut Vec<u8>, palette: &[[u8; 3]])
        ensures
            final(out)@ == old(out)@ + flat_palette(palette@),
    {
        let ghost out0 = old(out)@;
        proof {
            assert(palette@.skip(0) =~= palette@);
        }
        let mut i: usize = 0;
        while i < palette.len()
            invariant
                i <= palette@.len(),
                out@ + flat_palette(palette@.skip(i as int)) == out0 + flat_palette(palette@),
            decreases palette@.len() - i,
        {
            let ghost tail = palette@.skip(i as int);
            let color = palette[i];
            out.push(color[0]);
            out.push(color[1]);
            out.push(color[2]);
            proof {
                assert(tail[0] == palette@[i as int]);
                assert(tail.skip(1) =~= palette@.skip(i + 1));
                assert(out@ + flat_palette(palette@.skip(i + 1)) =~= out0 + flat_palette(
                    palette@,
                ));
            }
            i = i + 1;
        }
        assert(flat_palette(palette@.skip(i as int)) =~= Seq::<u8>::empty());
        assert(out@ =~= out@ + flat_palette(palette@.skip(i as int)));
    }

    /// Emit the signature, the logical screen descriptor, the optional
    /// global color table, and the optional NETSCAPE 2.0 loop block.
    #[verifier::rlimit(100)]
    pub fn write_gif_header(
        &mut self,
        width: u16,
        height: u16,
        background_index: u8,
        global_palette: Option<&[[u8; 3]]>,
        loop_count: Option<u16>,
    )
        ensures
            final(self)@ == old(self)@ + header_bytes(
                width,
                height,
                background_index,
                opt_palette_view(global_palette),
                loop_count,
            ),
    {
        let ghost buf0 = self.buffer@;
        self.buffer.push(0x47);
        self.buffer.push(0x49);
        self.buffer.push(0x46);
        self.buffer.push(0x38);
        self.buffer.push(0x39);
        self.buffer.push(0x61);
        push_le16(&mut self.buffer, width);
        push_le16(&mut self.buffer, height);
        assert(self.buffer@ =~= buf0 + gif_signature() + u16_le_bytes(width) + u16_le_bytes(
            height,
        ));
        let ghost buf1 = self.buffer@;
        let packed_fields: u8 = match global_palette {
            Some(p) => 0x80u8 + Self::size_field_of(p.len()),
            None => 0u8,
        };
        self.buffer.push(packed_fields);
        self.buffer.push(background_index);
        self.buffer.push(0);
        assert(self.buffer@ =~= buf1 + seq![
            lsd_packed_field(opt_palette_view(global_palette)),
            background_index,
            0u8,
        ]);
        let ghost buf2 = self.buffer@;
        if let Some(p) = global_palette {
            Self::push_palette(&mut self.buffer, p);
        }
        let ghost buf3 = self.buffer@;
        assert(buf3 == buf2 + (match opt_palette_view(global_palette) {
            Some(p) => flat_palette(p),
            None => Seq::<u8>::empty(),
        })) by {
            if global_palette is None {
                assert(buf3 =~= buf2 + Seq::<u8>::empty());
            }
        }
        if let Some(c) = loop_count {
            let ghost buf4 = self.buffer@;
            self.buffer.push(0x21);
            self.buffer.push(0xFF);
            self.buffer.push(0x0B);
            self.buffer.push(0x4E);
            self.buffer.push(0x45);
            self.buffer.push(0x54);
            self.buffer.push(0x53);
            self.buffer.push(0x43);
            self.buffer.push(0x41);
            self.buffer.push(0x50);
            self.buffer.push(0x45);
            self.buffer.push(0x32);
            self.buffer.push(0x2E);
            self.buffer.push(0x30);
            self.buffer.push(0x03);
            self.buffer.push(0x01);
            push_le16(&mut self.buffer, c);
            self.buffer.push(0x00);
            assert(self.buffer@ =~= buf4 + netscape_loop_bytes(c));
        }
        assert(self.buffer@ == buf3 + (match loop_count {
            Some(c) => netscape_loop_bytes(c),
            None => Seq::<u8>::empty(),
        })) by {
            if loop_count is None {
                assert(self.buffer@ =~= buf3 + Seq::<u8>::empty());
            }
        }
        assert(self.buffer@ =~= buf0 + header_bytes(
            width,
            height,
            background_index,
            opt_palette_view(global_palette),
            loop_count,
        ));
    }

    /// Emit a graphics control extension recording disposal, delay, and
    /// transparency for the frame that follows.
    pub fn write_graphic_control_exension(
        &mut self,
        disposal_method: DisposalMethod,
        delay: u16,
        transparent_color_index: Option<u8>,
    )
        ensures
            final(self)@ == old(self)@ + gce_bytes(
                disposal_method,
                delay,
                transparent_color_index,
            ),
    {
        let ghost buf0 = self.buffer@;
        self.buffer.push(0x21);
        self.buffer.push(0xF9);
        self.buffer.push(0x04);
        let disposal_bits: u8 = match disposal_method {
            DisposalMethod::Unspecified => 0,
            DisposalMethod::Keep => 1,
            DisposalMethod::Background => 2,
            DisposalMethod::Previous => 3,
        };
        let packed_fields: u8 = disposal_bits * 4 + (if transparent_color_index.is_some() {
            1
        } else {
            0
        });
        self.buffer.push(packed_fields);
        push_le16(&mut self.buffer, delay);
        self.buffer.push(match transparent_color_index {
            Some(i) => i,
            None => 0,
        });
        self.buffer.push(0x00);
        assert(self.buffer@ =~= buf0 + gce_bytes(disposal_method, delay, transparent_color_index));
    }

    /// Emit an image descriptor: separator, geometry, packed byte, optional
    /// local color table, and the computed LZW minimum code size.
    pub fn write_image_descriptor(
        &mut self,
        left: u16,
        top: u16,
        width: u16,
        height: u16,
        local_palette: Option<&[[u8; 3]]>,
        is_interlaced: bool,
    )
        ensures
            final(self)@ == old(self)@ + image_descriptor_bytes(
                left,
                top,
                width,
                height,
                opt_palette_view(local_palette),
                is_interlaced,
            ),
    {
        let ghost buf0 = self.buffer@;
        self.buffer.push(0x2C);
        push_le16(&mut self.buffer, left);
        push_le16(&mut self.buffer, top);
        push_le16(&mut self.buffer, width);
        push_le16(&mut self.buffer, height);
        let mut packed_fields: u8 = match local_palette {
            Some(p) => 0x80u8 + Self::size_field_of(p.len()),
            None => 0u8,
        };
        if is_interlaced {
            packed_fields = packed_fields + 0x40;
        }
        self.buffer.push(packed_fields);
        if let Some(p) = local_palette {
            Self::push_palette(&mut self.buffer, p);
        }
        let min_code_size = Self::calculate_min_code_size(local_palette);
        self.buffer.push(min_code_size);
        assert(self.buffer@ =~= buf0 + image_descriptor_bytes(
            left,
            top,
            width,
            height,
            opt_palette_view(local_palette),
            is_interlaced,
        ));
    }

    /// Emit the terminator that closes a frame's data when no sub-block
    /// chain was flushed for it.
    pub fn write_frame_trailer(&mut self)
        ensures
            final(self)@ == old(self)@ + seq![0x00u8],
    {
        self.buffer.push(0x00);
        assert(self.buffer@ =~= old(self)@ + seq![0x00u8]);
    }

    /// Emit the trailer byte that ends the GIF stream.
    pub fn write_gif_trailer(&mut self)
        ensures
            final(self)@ == old(self)@ + seq![0x3Bu8],
    {
        self.buffer.push(0x3B);
        assert(self.buffer@ =~= old(self)@ + seq![0x3Bu8]);
    }

    /// Append the pixels of one interlace pass to `out`.
    fn push_pass(out: &mut Vec<u8>, data: &[u8], width: u16, height: u16, start: u16, step: u16)
        requires
            data@.len() == width as int * height as int,
            step >= 1,
        ensures
            final(out)@ == old(out)@ + rows_bytes(
                data@,
                width as int,
                pass_rows(start as int, step as int, height as int),
            ),
    {
        let ghost out0 = old(out)@;
        let ghost w = width as int;
        let ghost h = height as int;
        let ghost stp = step as int;
        let mut row: u32 = start as u32;
        while row < height as u32
            invariant
                data@.len() == w * h,
                w == width as int,
                h == height as int,
                stp == step as int,
                1 <= stp,
                out@ + rows_bytes(data@, w, pass_rows(row as int, stp, h)) == out0 + rows_bytes(
                    data@,
                    w,
                    pass_rows(start as int, stp, h),
                ),
            decreases (if h > row as int {
                h - row as int
            } else {
                0int
            }),
        {
            let dlen = data.len();
            proof {
                assert(row as int * w + w == (row as int + 1) * w) by (nonlinear_arith);
                assert((row as int + 1) * w <= h * w) by (nonlinear_arith)
                    requires
                        row as int + 1 <= h,
                        w >= 0,
                ;
                assert(row as int * w >= 0) by (nonlinear_arith)
                    requires
                        row as int >= 0,
                        w >= 0,
                ;
                assert(row as int * w + w <= dlen);
            }
            let row_start: usize = (row as usize) * (width as usize);
            let ghost mid = out@;
            let mut j: usize = 0;
            while j < width as usize
                invariant
                    j <= width as usize,
                    row_start == row as int * w,
                    row_start + width as int <= data@.len(),
                    dlen == data@.len(),
                    w == width as int,
                    out@ == mid + data@.subrange(row_start as int, row_start + j),
                decreases width as usize - j,
            {
                out.push(data[row_start + j]);
                assert(out@ =~= mid + data@.subrange(row_start as int, row_start + j + 1));
                j = j + 1;
            }
            proof {
                let rows = pass_rows(row as int, stp, h);
                assert(rows == seq![row as int] + pass_rows(row as int + stp, stp, h));
                assert(rows[0] == row as int);
                assert(rows.skip(1) =~= pass_rows(row as int + stp, stp, h));
                assert(rows_bytes(data@, w, rows) == data@.subrange(
                    row as int * w,
                    row as int * w + w,
                ) + rows_bytes(data@, w, pass_rows(row as int + stp, stp, h)));
                assert(out@ + rows_bytes(data@, w, pass_rows(row as int + stp, stp, h)) =~= out0
                    + rows_bytes(data@, w, pass_rows(start as int, stp, h)));
            }
            row = row + step as u32;
        }
        proof {
            assert(rows_bytes(data@, w, pass_rows(row as int, stp, h)) =~= Seq::<u8>::empty());
            assert(out@ =~= out0 + rows_bytes(data@, w, pass_rows(start as int, stp, h)));
        }
    }

    /// Reorder a full frame of pixel rows into the GIF89a four-pass
    /// interlace sequence.
    pub fn encode_interlaced_data(&mut self, data: &[u8], width: u16, height: u16) -> (r: Vec<
        u8,
    >)
        requires
            data@.len() == width as int * height as int,
        ensures
            *final(self) == *old(self),
            r@ == interlaced_bytes(data@, width as int, height as int),
    {
        let mut out: Vec<u8> = Vec::new();
        Self::push_pass(&mut out, data, width, height, 0, 8);
        Self::push_pass(&mut out, data, width, height, 4, 8);
        Self::push_pass(&mut out, data, width, height, 2, 4);
        Self::push_pass(&mut out, data, width, height, 1, 2);
        proof {
            assert(out@ =~= interlaced_bytes(data@, width as int, height as int));
        }
        out
    }
}

/// The rows of one interlace pass: `start`, `start + step`, and so on below
/// `height`.
pub open spec fn pass_rows(start: int, step: int, height: int) -> Seq<int>
    decreases (if height > start {
        height - start
    } else {
        0int
    })
        when step >= 1
{
    if start >= height {
        Seq::<int>::empty()
    } else {
        seq![start] + pass_rows(start + step, step, height)
    }
}

/// The pixel bytes of the listed rows, in order.
pub open spec fn rows_bytes(data: Seq<u8>, width: int, rows: Seq<int>) -> Seq<u8>
    decreases rows.len(),
{
    if rows.len() == 0 {
        Seq::<u8>::empty()
    } else {
        data.subrange(rows[0] * width, rows[0] * width + width) + rows_bytes(
            data,
            width,
            rows.skip(1),
        )
    }
}

/// A full frame reordered into the canonical GIF89a interlace sequence:
/// rows 0, 8, 16, ...; then 4, 12, 20, ...; then 2, 6, 10, ...; then the
/// odd rows.
pub open spec fn interlaced_bytes(data: Seq<u8>, width: int, height: int) -> Seq<u8> {
    rows_bytes(data, width, pass_rows(0, 8, height)) + rows_bytes(
        data,
        width,
        pass_rows(4, 8, height),
    ) + rows_bytes(data, width, pass_rows(2, 4, height)) + rows_bytes(
        data,
        width,
        pass_rows(1, 2, height),
    )
}

/// Names of the encoder's protocol states.
#[derive(Debug, PartialEq, Eq, Structural, Clone, Copy)]
pub enum EncoderState {
    Idle,
    WritingHeader,
    WritingFrame,
    FlushingFrame,
    Finalizing,
    Done,
}

/// The observable state of an encoder: protocol state, bytes emitted so
/// far, screen geometry, the current frame's interlace flag and LZW
/// parameters, the flushed frame bytes, frames completed, and the recorded
/// loop count.
pub struct EncView {
    pub state: EncoderState,
    pub out: Seq<u8>,
    pub width: u16,
    pub height: u16,
    pub interlaced: bool,
    pub mcs: u8,
    pub fed: Seq<u8>,
    pub frame_bytes: Seq<u8>,
    pub frame_count: u16,
    pub loop_count: Option<u16>,
}

/// The view of an optional owned palette.
pub open spec fn opt_owned_palette_view(palette: Option<Vec<[u8; 3]>>) -> Option<Seq<[u8; 3]>> {
    match palette {
        Some(p) => Some(p@),
        None => None,
    }
}

/// Whether the encoder accepts `event` in observable state `v`: the legal
/// protocol transitions, and for an interlaced frame a chunk that carries
/// exactly one full frame of pixels.
pub open spec fn accepts(v: EncView, e: GifEvent) -> bool {
    match e {
        GifEvent::StartGif { .. } => v.state == EncoderState::Idle,
        GifEvent::StartFrame { .. } => v.state == EncoderState::WritingHeader,
        GifEvent::WriteImageChunk { data } => v.state == EncoderState::WritingFrame && (
        v.interlaced ==> data@.len() == v.width as int * v.height as int),
        GifEvent::FlushFrame => v.state == EncoderState::WritingFrame,
        GifEvent::EndFrame => v.state == EncoderState::WritingFrame || v.state
            == EncoderState::FlushingFrame,
        GifEvent::EndGif => v.state == EncoderState::WritingHeader,
    }
}

/// How one accepted event transforms the observable state.
pub open spec fn transition(pre: EncView, post: EncView, e: GifEvent) -> bool {
    match e {
        GifEvent::StartGif {
            width,
            height,
            global_palette,
            background_color_index,
            loop_count,
        } => {
            &&& post.state == EncoderState::WritingHeader
            &&& post.out == pre.out + header_bytes(
                width,
                height,
                background_color_index,
                opt_owned_palette_view(global_palette),
                loop_count,
            )
            &&& post.width == width
            &&& post.height == height
            &&& post.loop_count == loop_count
            &&& post.frame_count == pre.frame_count
            &&& post.frame_bytes == pre.frame_bytes
        },
        GifEvent::StartFrame {
            delay,
            disposal_method,
            local_palette,
            transparent_color_index,
            is_interlaced,
        } => {
            &&& post.state == EncoderState::WritingFrame
            &&& post.out == pre.out + gce_bytes(disposal_method, delay, transparent_color_index)
                + image_descriptor_bytes(
                0,
                0,
                pre.width,
                pre.height,
                opt_owned_palette_view(local_palette),
                is_interlaced,
            )
            &&& post.mcs == frame_min_code_size(opt_owned_palette_view(local_palette))
            &&& post.fed == Seq::<u8>::empty()
            &&& post.frame_bytes == Seq::<u8>::empty()
            &&& post.interlaced == is_interlaced
            &&& post.width == pre.width
            &&& post.height == pre.height
            &&& post.loop_count == pre.loop_count
            &&& post.frame_count == pre.frame_count
        },
        GifEvent::WriteImageChunk { data } => {
            post == EncView {
                fed: pre.fed + (if pre.interlaced {
                    interlaced_bytes(data@, pre.width as int, pre.height as int)
                } else {
                    data@
                }),
                ..pre
            }
        },
        GifEvent::FlushFrame => {
            &&& post.state == EncoderState::FlushingFrame
            &&& bytes_bits(post.frame_bytes) == padded_bits(
                codes_bits(lzw_final_codes(pre.mcs, lzw_run(pre.mcs, pre.fed))),
            )
            &&& post.out == pre.out + sub_block_chain(post.frame_bytes)
            &&& post.width == pre.width
            &&& post.height == pre.height
            &&& post.interlaced == pre.interlaced
            &&& post.mcs == pre.mcs
            &&& post.fed == pre.fed
            &&& post.frame_count == pre.frame_count
            &&& post.loop_count == pre.loop_count
        },
        GifEvent::EndFrame => {
            &&& post.state == EncoderState::WritingHeader
            &&& post.out == pre.out + (if pre.state == EncoderState::WritingFrame {
                seq![0x00u8]
            } else {
                Seq::<u8>::empty()
            })
            &&& post.fed == Seq::<u8>::empty()
            &&& post.frame_bytes == Seq::<u8>::empty()
            &&& post.frame_count == (if pre.frame_count < 0xFFFF {
                (pre.frame_count + 1) as u16
            } else {
                pre.frame_count
            })
            &&& post.width == pre.width
            &&& post.height == pre.height
            &&& post.interlaced == pre.interlaced
            &&& post.loop_count == pre.loop_count
        },
        GifEvent::EndGif => {
            &&& post.state == EncoderState::Done
            &&& post.out == pre.out + seq![0x3Bu8]
            &&& post.width == pre.width
            &&& post.height == pre.height
            &&& post.interlaced == pre.interlaced
            &&& post.mcs == pre.mcs
            &&& post.fed == pre.fed
            &&& post.frame_bytes == pre.frame_bytes
            &&& post.frame_count == pre.frame_count
            &&& post.loop_count == pre.loop_count
        },
    }
}

/// The encoder protocol: a single entry point that validates each event
/// against the current state before performing its effect.
pub trait GifEncoder {
    /// Well-formedness carried across events.
    spec fn wf(&self) -> bool;

    /// The observable state of the encoder.
    spec fn ev(&self) -> EncView;

    /// Perform `event` if it is legal in the current state; otherwise
    /// return an error and leave the encoder unchanged.
    fn process_event(&mut self, event: GifEvent) -> (r: Result<(), String>)
        requires
            old(self).wf(),
        ensures
            final(self).wf(),
            r is Ok <==> accepts(old(self).ev(), event),
            r is Ok ==> transition(old(self).ev(), final(self).ev(), event),
            r is Err ==> final(self).ev() == old(self).ev(),
    ;
}

/// The encoder state machine: validates event order, writes header and
/// frame blocks, and drives the LZW codec.
pub struct GifEncoderState {
    state: EncoderState,
    writer: GifWriter,
    lzw_encoder: LzwEncoder,
    frame_count: u16,
    width: u16,
    height: u16,
    loop_count: Option<u16>,
    is_interlaced: bool,
    compressed_buffer: Vec<u8>,
}

impl GifEncoderState {
    /// A fresh encoder, idle, with an empty output buffer.
    pub fn new() -> (r: Self)
        ensures
            r.wf(),
            r.ev().state == EncoderState::Idle,
            r.ev().out == Seq::<u8>::empty(),
    {
        GifEncoderState {
            state: EncoderState::Idle,
            writer: GifWriter::new(),
            lzw_encoder: LzwEncoder::new(8),
            frame_count: 0,
            width: 0,
            height: 0,
            loop_count: None,
            is_interlaced: false,
            compressed_buffer: Vec::new(),
        }
    }

    /// The bytes emitted so far.
    pub fn encoded_data(&self) -> (r: &[u8])
        ensures
            r@ == self.ev().out,
    {
        self.writer.get_encoded_data()
    }
}

impl GifEncoder for GifEncoderState {
    closed spec fn wf(&self) -> bool {
        &&& 2 <= self.lzw_encoder.spec_min_code_size() <= 8
        &&& (self.state == EncoderState::WritingFrame ==> self.lzw_encoder.inv()
            && self.compressed_buffer@ == Seq::<u8>::empty())
        &&& (self.state == EncoderState::Idle ==> self.writer@ == Seq::<u8>::empty())
        &&& (self.state != EncoderState::Idle ==> self.writer@.len() >= 6 && self.writer@.take(6)
            == gif_signature())
        &&& (self.state == EncoderState::Done ==> self.writer@.len() >= 7 && self.writer@.last()
            == 0x3Bu8)
    }

    closed spec fn ev(&self) -> EncView {
        EncView {
            state: self.state,
            out: self.writer@,
            width: self.width,
            height: self.height,
            interlaced: self.is_interlaced,
            mcs: self.lzw_encoder.spec_min_code_size(),
            fed: self.lzw_encoder.fed_bytes(),
            frame_bytes: self.compressed_buffer@,
            frame_count: self.frame_count,
            loop_count: self.loop_count,
        }
    }

    fn process_event(&mut self, event: GifEvent) -> (r: Result<(), String>) {
        let ghost pre = self.ev();
        match (self.state, event) {
            (
                EncoderState::Idle,
                GifEvent::StartGif {
                    width,
                    height,
                    global_palette,
                    background_color_index,
                    loop_count,
                },
            ) => {
                let pal: Option<&[[u8; 3]]> = match &global_palette {
                    Some(p) => Some(p.as_slice()),
                    None => None,
                };
                self.writer.write_gif_header(
                    width,
                    height,
                    background_color_index,
                    pal,
                    loop_count,
                );
                self.width = width;
                self.height = height;
                self.loop_count = loop_count;
                self.state = EncoderState::WritingHeader;
                proof {
                    assert(opt_palette_view(pal) == opt_owned_palette_view(global_palette));
                    assert(self.writer@.take(6) =~= gif_signature());
                }
                Ok(())
            },
            (
                EncoderState::WritingHeader,
                GifEvent::StartFrame {
                    delay,
                    disposal_method,
                    local_palette,
                    transparent_color_index,
                    is_interlaced,
                },
            ) => {
                self.writer.write_graphic_control_exension(
                    disposal_method,
                    delay,
                    transparent_color_index,
                );
                let pal: Option<&[[u8; 3]]> = match &local_palette {
                    Some(p) => Some(p.as_slice()),
                    None => None,
                };
                let w = self.width;
                let h = self.height;
                self.writer.write_image_descriptor(0, 0, w, h, pal, is_interlaced);
                let mcs = GifWriter::calculate_min_code_size(pal);
                self.lzw_encoder = LzwEncoder::new(mcs);
                self.is_interlaced = is_interlaced;
                self.compressed_buffer = Vec::new();
                self.state = EncoderState::WritingFrame;
                proof {
                    assert(opt_palette_view(pal) == opt_owned_palette_view(local_palette));
                    assert(self.writer@ == pre.out + gce_bytes(
                        disposal_method,
                        delay,
                        transparent_color_index,
                    ) + image_descriptor_bytes(
                        0,
                        0,
                        pre.width,
                        pre.height,
                        opt_owned_palette_view(local_palette),
                        is_interlaced,
                    ));
                    assert(self.writer@.take(6) =~= pre.out.take(6));
                }
                Ok(())
            },
            (EncoderState::WritingFrame, GifEvent::WriteImageChunk { data }) => {
                if self.is_interlaced {
                    let w = self.width;
                    let h = self.height;
                    proof {
                        assert((w as int) * (h as int) <= 0xFFFF * 0xFFFF) by (nonlinear_arith)
                            requires
                                w <= 0xFFFF,
                                h <= 0xFFFF,
                        ;
                    }
                    if (data.len() as u64) != (w as u64) * (h as u64) {
                        return Err("Invalid event for current state".to_owned());
                    }
                    let reordered = self.writer.encode_interlaced_data(data.as_slice(), w, h);
                    self.lzw_encoder.encode_chunk(reordered.as_slice());
                } else {
                    self.lzw_encoder.encode_chunk(data.as_slice());
                }
                Ok(())
            },
            (EncoderState::WritingFrame, GifEvent::FlushFrame) => {
                self.lzw_encoder.finalize();
                let stream = self.lzw_encoder.get_encoded_data();
                append_bytes(&mut self.compressed_buffer, stream);
                append_sub_block_chain(&mut self.writer.buffer, &self.compressed_buffer);
                self.state = EncoderState::FlushingFrame;
                proof {
                    assert(self.compressed_buffer@ =~= self.lzw_encoder.out_bytes());
                    assert(self.writer@.take(6) =~= pre.out.take(6));
                }
                Ok(())
            },
            (EncoderState::WritingFrame, GifEvent::EndFrame) => {
                self.writer.write_frame_trailer();
                self.compressed_buffer = Vec::new();
                self.lzw_encoder.reset();
                if self.frame_count < 0xFFFF {
                    self.frame_count = self.frame_count + 1;
                }
                self.state = EncoderState::WritingHeader;
                proof {
                    assert(self.writer@.take(6) =~= pre.out.take(6));
                }
                Ok(())
            },
            (EncoderState::FlushingFrame, GifEvent::EndFrame) => {
                self.compressed_buffer = Vec::new();
                self.lzw_encoder.reset();
                if self.frame_count < 0xFFFF {
                    self.frame_count = self.frame_count + 1;
                }
                self.state = EncoderState::WritingHeader;
                proof {
                    assert(self.writer@ =~= pre.out + Seq::<u8>::empty());
                }
                Ok(())
            },
            (EncoderState::WritingHeader, GifEvent::EndGif) => {
                self.state = EncoderState::Finalizing;
                self.writer.write_gif_trailer();
                self.state = EncoderState::Done;
                proof {
                    assert(self.writer@.take(6) =~= pre.out.take(6));
                    assert(self.writer@.last() == 0x3Bu8);
                }
                Ok(())
            },
            (_, _) => Err("Invalid event for current state".to_owned()),
        }
    }
}

/// Law: an encoder that has reached Done emitted a stream whose first six
/// bytes are the ASCII signature "GIF89a" and whose last byte is the
/// trailer 0x3B.
pub proof fn lemma_emitted_gif_framing(e: &GifEncoderState)
    requires
        e.wf(),
        e.ev().state == EncoderState::Done,
    ensures
        e.ev().out.len() >= 7,
        e.ev().out.take(6) == gif_signature(),
        e.ev().out.last() == 0x3Bu8,
{
}

} // verus!
