//! The GIF container parser: signature, logical screen descriptor, global
//! color table, then a loop over extension and image blocks until the
//! trailer.
//!
//! Parsing is specified block by block over the raw byte sequence:
//! `parse_block_at` gives the meaning of one block, `parse_blocks` folds the
//! block loop with its pending graphics-control slot, and each executable
//! parser is proved to return exactly what the specification says.

use crate::bytes::{append_bytes, le16, push_le16, read_le16, u16_le_bytes};
use crate::encoder::{
    disposal_field,
    flat_palette,
    gce_bytes,
    gce_packed_field,
    gif_signature,
    header_bytes,
    lemma_flat_palette_len,
    lsd_packed_field,
    palette_size_field,
    DisposalMethod,
};
use crate::subblocks::{read_sub_blocks, sub_blocks_data, sub_blocks_end};
use crate::text::{lossy_string, lossy_utf8};
use vstd::arithmetic::power2::{lemma2_to64, pow2};
use vstd::prelude::*;
use vstd::slice::{slice_subrange, slice_to_vec};

verus! {

/// Why a parse failed.
#[derive(Debug, PartialEq, Eq, Structural, Clone, Copy)]
pub enum ParseError {
    /// The first six bytes are not an ASCII "GIF87a" or "GIF89a" signature.
    InvalidSignature,
    /// A fixed-size block has the wrong length, a sub-block is cut short,
    /// or a required terminator is missing.
    Malformed,
    /// The input ended in the middle of a structured read.
    Truncated,
}

/// Per-frame metadata carried by a graphics control extension.
#[derive(Debug, Clone, Copy, PartialEq, Eq, Structural)]
pub struct GraphicsControlExtension {
    pub disposal_method: u8,
    pub user_input_flag: bool,
    pub transparent_color_flag: bool,
    pub delay_time: u16,
    pub transparent_color_index: u8,
}

/// A comment extension: its sub-block payload decoded leniently.
#[derive(Debug, Clone)]
pub struct CommentExtension {
    pub text: String,
}

/// A plain-text extension: grid geometry, cell size, colors, and the
/// sub-block assembled text.
#[derive(Debug, Clone)]
pub struct PlainTextExtension {
    pub text_grid_left: u16,
    pub text_grid_top: u16,
    pub text_grid_width: u16,
    pub text_grid_height: u16,
    pub char_cell_width: u8,
    pub char_cell_height: u8,
    pub text_foreground_color_index: u8,
    pub text_background_color_index: u8,
    pub text: String,
}

/// An application extension: 8-byte identifier, 3-byte auth code, and the
/// sub-block assembled data.
#[derive(Debug, Clone)]
pub struct ApplicationExtension {
    pub identifier: String,
    pub auth_code: [u8; 3],
    pub data: Vec<u8>,
}

/// Any extension block the parser recognizes.
#[derive(Debug, Clone)]
pub enum Extension {
    GraphicsControl(GraphicsControlExtension),
    Comment(CommentExtension),
    PlainText(PlainTextExtension),
    Application(ApplicationExtension),
}

/// One image of the file: position, geometry, packed flags, optional local
/// color table, the LZW minimum code size, the still-compressed image data,
/// and the attached graphics control extension, if any.
pub struct GifFrame {
    pub left: u16,
    pub top: u16,
    pub width: u16,
    pub height: u16,
    pub packed_fields: u8,
    pub local_color_table: Vec<u8>,
    pub min_code_size: u8,
    pub data: Vec<u8>,
    pub gce: Option<GraphicsControlExtension>,
}

impl GifFrame {
    pub fn new() -> (r: Self)
        ensures
            r.left == 0,
            r.top == 0,
            r.width == 0,
            r.height == 0,
            r.packed_fields == 0,
            r.local_color_table@ == Seq::<u8>::empty(),
            r.min_code_size == 0,
            r.data@ == Seq::<u8>::empty(),
            r.gce is None,
    {
        GifFrame {
            left: 0,
            top: 0,
            width: 0,
            height: 0,
            packed_fields: 0,
            local_color_table: Vec::new(),
            min_code_size: 0,
            data: Vec::new(),
            gce: None,
        }
    }
}

/// The abstract content of a comment extension.
pub struct CommentData {
    pub text: Seq<char>,
}

/// The abstract content of a plain-text extension.
pub struct PlainTextData {
    pub text_grid_left: u16,
    pub text_grid_top: u16,
    pub text_grid_width: u16,
    pub text_grid_height: u16,
    pub char_cell_width: u8,
    pub char_cell_height: u8,
    pub text_foreground_color_index: u8,
    pub text_background_color_index: u8,
    pub text: Seq<char>,
}

/// The abstract content of an application extension.
pub struct ApplicationData {
    pub identifier: Seq<char>,
    pub auth_code: Seq<u8>,
    pub data: Seq<u8>,
}

/// The abstract content of one frame.
pub struct FrameData {
    pub left: u16,
    pub top: u16,
    pub width: u16,
    pub height: u16,
    pub packed_fields: u8,
    pub local_color_table: Seq<u8>,
    pub min_code_size: u8,
    pub data: Seq<u8>,
    pub gce: Option<GraphicsControlExtension>,
}

/// The abstract content of a comment extension value.
pub open spec fn comment_dv(c: CommentExtension) -> CommentData {
    CommentData { text: c.text@ }
}

/// The abstract content of a plain-text extension value.
pub open spec fn plain_text_dv(p: PlainTextExtension) -> PlainTextData {
    PlainTextData {
        text_grid_left: p.text_grid_left,
        text_grid_top: p.text_grid_top,
        text_grid_width: p.text_grid_width,
        text_grid_height: p.text_grid_height,
        char_cell_width: p.char_cell_width,
        char_cell_height: p.char_cell_height,
        text_foreground_color_index: p.text_foreground_color_index,
        text_background_color_index: p.text_background_color_index,
        text: p.text@,
    }
}

/// The abstract content of an application extension value.
pub open spec fn application_dv(a: ApplicationExtension) -> ApplicationData {
    ApplicationData { identifier: a.identifier@, auth_code: a.auth_code@, data: a.data@ }
}

/// The abstract content of a frame value.
pub open spec fn frame_dv(f: GifFrame) -> FrameData {
    FrameData {
        left: f.left,
        top: f.top,
        width: f.width,
        height: f.height,
        packed_fields: f.packed_fields,
        local_color_table: f.local_color_table@,
        min_code_size: f.min_code_size,
        data: f.data@,
        gce: f.gce,
    }
}

pub open spec fn comments_dv(v: Seq<CommentExtension>) -> Seq<CommentData> {
    Seq::new(v.len(), |i: int| comment_dv(v[i]))
}

pub open spec fn plain_texts_dv(v: Seq<PlainTextExtension>) -> Seq<PlainTextData> {
    Seq::new(v.len(), |i: int| plain_text_dv(v[i]))
}

pub open spec fn applications_dv(v: Seq<ApplicationExtension>) -> Seq<ApplicationData> {
    Seq::new(v.len(), |i: int| application_dv(v[i]))
}

pub open spec fn frames_dv(v: Seq<GifFrame>) -> Seq<FrameData> {
    Seq::new(v.len(), |i: int| frame_dv(v[i]))
}

/// Whether `s` starts with a valid signature: ASCII "GIF" then "87a" or
/// "89a".
pub open spec fn signature_ok(s: Seq<u8>) -> bool {
    &&& s.len() >= 6
    &&& s[0] == 0x47u8
    &&& s[1] == 0x49u8
    &&& s[2] == 0x46u8
    &&& s[3] == 0x38u8
    &&& (s[4] == 0x37u8 || s[4] == 0x39u8)
    &&& s[5] == 0x61u8
}

/// The byte length of the color table a packed byte announces: bit 7 says
/// whether one follows, bits 0-2 give N with length 3 * 2^(N+1).
pub open spec fn color_table_len(packed: u8) -> nat {
    if packed & 0x80 != 0 {
        (3 * pow2(((packed & 0x07) + 1) as nat)) as nat
    } else {
        0
    }
}

/// Whether a graphics control extension body sits at `pos` (the block-size
/// byte): size 4, six bytes available, zero terminator.
pub open spec fn gce_block_ok(s: Seq<u8>, pos: int) -> bool {
    &&& 0 <= pos
    &&& pos + 6 <= s.len()
    &&& s[pos] == 4
    &&& s[pos + 5] == 0
}

/// The graphics control extension stored at `pos`.
pub open spec fn gce_at(s: Seq<u8>, pos: int) -> GraphicsControlExtension {
    GraphicsControlExtension {
        disposal_method: (s[pos + 1] >> 2) & 0x07,
        user_input_flag: s[pos + 1] & 0x02 != 0,
        transparent_color_flag: s[pos + 1] & 0x01 != 0,
        delay_time: le16(s[pos + 2], s[pos + 3]),
        transparent_color_index: s[pos + 4],
    }
}

/// Whether a plain-text extension body sits at `pos`: block size 12, the
/// fixed fields available, and a whole sub-block chain after them.
pub open spec fn plain_text_block_ok(s: Seq<u8>, pos: int) -> bool {
    &&& 0 <= pos < s.len()
    &&& s[pos] == 12
    &&& pos + 13 <= s.len()
    &&& sub_blocks_end(s, pos + 13) is Some
}

/// The plain-text extension stored at `pos`.
pub open spec fn plain_text_at(s: Seq<u8>, pos: int) -> PlainTextData {
    PlainTextData {
        text_grid_left: le16(s[pos + 1], s[pos + 2]),
        text_grid_top: le16(s[pos + 3], s[pos + 4]),
        text_grid_width: le16(s[pos + 5], s[pos + 6]),
        text_grid_height: le16(s[pos + 7], s[pos + 8]),
        char_cell_width: s[pos + 9],
        char_cell_height: s[pos + 10],
        text_foreground_color_index: s[pos + 11],
        text_background_color_index: s[pos + 12],
        text: lossy_utf8(sub_blocks_data(s, pos + 13)),
    }
}

/// Whether an application extension body sits at `pos`: block size 11, the
/// identifier and auth code available, and a whole sub-block chain after
/// them.
pub open spec fn application_block_ok(s: Seq<u8>, pos: int) -> bool {
    &&& 0 <= pos < s.len()
    &&& s[pos] == 11
    &&& pos + 12 <= s.len()
    &&& sub_blocks_end(s, pos + 12) is Some
}

/// The application extension stored at `pos`.
pub open spec fn application_at(s: Seq<u8>, pos: int) -> ApplicationData {
    ApplicationData {
        identifier: lossy_utf8(s.subrange(pos + 1, pos + 9)),
        auth_code: s.subrange(pos + 9, pos + 12),
        data: sub_blocks_data(s, pos + 12),
    }
}

/// Whether an image descriptor sits at `pos` (the 0x2C byte): the fixed
/// fields, the announced local color table, the minimum code size byte, and
/// a whole sub-block chain are all available.
pub open spec fn image_block_ok(s: Seq<u8>, pos: int) -> bool {
    &&& 0 <= pos < s.len()
    &&& s[pos] == 0x2C
    &&& pos + 10 <= s.len()
    &&& pos + 11 + color_table_len(s[pos + 9]) <= s.len()
    &&& sub_blocks_end(s, pos + 11 + color_table_len(s[pos + 9])) is Some
}

/// The frame stored at `pos`, before any graphics control extension is
/// attached.
pub open spec fn frame_at(s: Seq<u8>, pos: int) -> FrameData {
    let lct = color_table_len(s[pos + 9]) as int;
    FrameData {
        left: le16(s[pos + 1], s[pos + 2]),
        top: le16(s[pos + 3], s[pos + 4]),
        width: le16(s[pos + 5], s[pos + 6]),
        height: le16(s[pos + 7], s[pos + 8]),
        packed_fields: s[pos + 9],
        local_color_table: s.subrange(pos + 10, pos + 10 + lct),
        min_code_size: s[pos + 10 + lct],
        data: sub_blocks_data(s, pos + 11 + lct),
        gce: None,
    }
}

/// The meaning of the block that starts at `pos`: what it parses to and
/// where the next block starts, or that the loop stops (trailer, unknown
/// introducer, end of input) or fails (structural error).
pub enum BlockStep {
    Gce(int, GraphicsControlExtension),
    Comment(int, CommentData),
    PlainText(int, PlainTextData),
    Application(int, ApplicationData),
    Image(int, FrameData),
    Skip(int),
    Stop,
    Fail,
}

pub open spec fn parse_block_at(s: Seq<u8>, pos: int) -> BlockStep {
    if pos < 0 || pos >= s.len() {
        BlockStep::Stop
    } else if s[pos] == 0x21 {
        if pos + 1 >= s.len() {
            BlockStep::Fail
        } else {
            let label = s[pos + 1];
            let body = pos + 2;
            if label == 0xF9 {
                if gce_block_ok(s, body) {
                    BlockStep::Gce(body + 6, gce_at(s, body))
                } else {
                    BlockStep::Fail
                }
            } else if label == 0xFE {
                match sub_blocks_end(s, body) {
                    Some(e) => BlockStep::Comment(
                        e,
                        CommentData { text: lossy_utf8(sub_blocks_data(s, body)) },
                    ),
                    None => BlockStep::Fail,
                }
            } else if label == 0x01 {
                if plain_text_block_ok(s, body) {
                    BlockStep::PlainText(
                        sub_blocks_end(s, body + 13)->Some_0,
                        plain_text_at(s, body),
                    )
                } else {
                    BlockStep::Fail
                }
            } else if label == 0xFF {
                if application_block_ok(s, body) {
                    BlockStep::Application(
                        sub_blocks_end(s, body + 12)->Some_0,
                        application_at(s, body),
                    )
                } else {
                    BlockStep::Fail
                }
            } else {
                match sub_blocks_end(s, body) {
                    Some(e) => BlockStep::Skip(e),
                    None => BlockStep::Fail,
                }
            }
        }
    } else if s[pos] == 0x2C {
        if image_block_ok(s, pos) {
            BlockStep::Image(
                sub_blocks_end(s, pos + 11 + color_table_len(s[pos + 9]))->Some_0,
                frame_at(s, pos),
            )
        } else {
            BlockStep::Fail
        }
    } else {
        BlockStep::Stop
    }
}

/// Everything the block loop accumulates.
pub struct BlocksOut {
    pub frames: Seq<FrameData>,
    pub comments: Seq<CommentData>,
    pub plain_texts: Seq<PlainTextData>,
    pub applications: Seq<ApplicationData>,
}

pub open spec fn empty_blocks() -> BlocksOut {
    BlocksOut {
        frames: Seq::<FrameData>::empty(),
        comments: Seq::<CommentData>::empty(),
        plain_texts: Seq::<PlainTextData>::empty(),
        applications: Seq::<ApplicationData>::empty(),
    }
}

/// The block loop from `pos` with `pending` in the graphics-control slot: a
/// new GCE replaces the pending one, an image descriptor consumes it, the
/// loop stops at the trailer, at an unknown introducer, at the end of the
/// input, or at the first structural error, keeping what was parsed so far.
pub open spec fn parse_blocks(
    s: Seq<u8>,
    pos: int,
    pending: Option<GraphicsControlExtension>,
) -> BlocksOut
    decreases (if s.len() > pos {
        s.len() - pos
    } else {
        0int
    }),
{
    if pos < 0 || pos >= s.len() {
        empty_blocks()
    } else {
        match parse_block_at(s, pos) {
            BlockStep::Stop => empty_blocks(),
            BlockStep::Fail => empty_blocks(),
            BlockStep::Gce(p2, g) => {
                if pos < p2 <= s.len() {
                    parse_blocks(s, p2, Some(g))
                } else {
                    empty_blocks()
                }
            },
            BlockStep::Comment(p2, c) => {
                if pos < p2 <= s.len() {
                    let rest = parse_blocks(s, p2, pending);
                    BlocksOut { comments: seq![c] + rest.comments, ..rest }
                } else {
                    empty_blocks()
                }
            },
            BlockStep::PlainText(p2, t) => {
                if pos < p2 <= s.len() {
                    let rest = parse_blocks(s, p2, pending);
                    BlocksOut { plain_texts: seq![t] + rest.plain_texts, ..rest }
                } else {
                    empty_blocks()
                }
            },
            BlockStep::Application(p2, a) => {
                if pos < p2 <= s.len() {
                    let rest = parse_blocks(s, p2, pending);
                    BlocksOut { applications: seq![a] + rest.applications, ..rest }
                } else {
                    empty_blocks()
                }
            },
            BlockStep::Image(p2, f) => {
                if pos < p2 <= s.len() {
                    let rest = parse_blocks(s, p2, None);
                    BlocksOut { frames: seq![FrameData { gce: pending, ..f }] + rest.frames, ..rest }
                } else {
                    empty_blocks()
                }
            },
            BlockStep::Skip(p2) => {
                if pos < p2 <= s.len() {
                    parse_blocks(s, p2, pending)
                } else {
                    empty_blocks()
                }
            },
        }
    }
}

/// Where the block loop starts: just past the screen descriptor and the
/// global color table.
pub open spec fn blocks_start(s: Seq<u8>) -> int {
    13 + color_table_len(s[10]) as int
}

/// Whether the fixed head of the file parses: signature, full screen
/// descriptor, and full global color table.
pub open spec fn gif_parse_ok(s: Seq<u8>) -> bool {
    &&& signature_ok(s)
    &&& s.len() >= 13
    &&& blocks_start(s) <= s.len()
}

/// The byte length of the color table a packed byte announces.
fn color_table_size(packed: u8) -> (r: usize)
    ensures
        r == color_table_len(packed),
{
    if packed & 0x80 != 0 {
        proof {
            assert(packed & 0x07 < 8) by (bit_vector);
            lemma2_to64();
            if ((packed & 0x07) + 1) < 8 {
                vstd::arithmetic::power2::lemma_pow2_strictly_increases(
                    ((packed & 0x07) + 1) as nat,
                    8,
                );
            }
        }
        let e = (packed & 0x07) + 1;
        3 * (crate::bitstream::pow2_u32(e as u32) as usize)
    } else {
        0
    }
}

/// The container parser and everything it produced.
pub struct GifDemuxer {
    pub screen_width: u16,
    pub screen_height: u16,
    pub packed_fields: u8,
    pub background_color_index: u8,
    pub pixel_aspect_ratio: u8,
    pub global_color_table: Vec<u8>,
    pub frames: Vec<GifFrame>,
    pub current_frame: u64,
    pub comments: Vec<CommentExtension>,
    pub plain_texts: Vec<PlainTextExtension>,
    pub applications: Vec<ApplicationExtension>,
}

impl GifDemuxer {
    pub fn new() -> (r: Self)
        ensures
            r.screen_width == 0,
            r.screen_height == 0,
            r.packed_fields == 0,
            r.background_color_index == 0,
            r.pixel_aspect_ratio == 0,
            r.global_color_table@ == Seq::<u8>::empty(),
            r.frames@ == Seq::<GifFrame>::empty(),
            r.current_frame == 0,
            r.comments@ == Seq::<CommentExtension>::empty(),
            r.plain_texts@ == Seq::<PlainTextExtension>::empty(),
            r.applications@ == Seq::<ApplicationExtension>::empty(),
    {
        GifDemuxer {
            screen_width: 0,
            screen_height: 0,
            packed_fields: 0,
            background_color_index: 0,
            pixel_aspect_ratio: 0,
            global_color_table: Vec::new(),
            frames: Vec::new(),
            current_frame: 0,
            comments: Vec::new(),
            plain_texts: Vec::new(),
            applications: Vec::new(),
        }
    }

    /// The comment extensions parsed so far, in file order.
    pub fn get_comments(&self) -> (r: &[CommentExtension])
        ensures
            r@ == self.comments@,
    {
        self.comments.as_slice()
    }

    /// The plain-text extensions parsed so far, in file order.
    pub fn get_plain_texts(&self) -> (r: &[PlainTextExtension])
        ensures
            r@ == self.plain_texts@,
    {
        self.plain_texts.as_slice()
    }

    /// The application extensions parsed so far, in file order.
    pub fn get_applications(&self) -> (r: &[ApplicationExtension])
        ensures
            r@ == self.applications@,
    {
        self.applications.as_slice()
    }

    /// Match the six signature bytes: ASCII "GIF" then "87a" or "89a".
    pub fn parse_header(input: &[u8]) -> (r: Result<usize, ParseError>)
        ensures
            match r {
                Ok(n) => n == 6 && signature_ok(input@),
                Err(e) => {
                    &&& !signature_ok(input@)
                    &&& (e == ParseError::Truncated <==> input@.len() < 6)
                    &&& (e == ParseError::InvalidSignature <==> input@.len() >= 6)
                },
            },
    {
        if input.len() < 6 {
            return Err(ParseError::Truncated);
        }
        if input[0] == 0x47 && input[1] == 0x49 && input[2] == 0x46 && input[3] == 0x38 && (
        input[4] == 0x37 || input[4] == 0x39) && input[5] == 0x61 {
            Ok(6)
        } else {
            Err(ParseError::InvalidSignature)
        }
    }

    /// Read the seven bytes of the logical screen descriptor at `pos`:
    /// width, height, packed fields, background index, pixel aspect ratio.
    pub fn parse_logical_screen_descriptor(input: &[u8], pos: usize) -> (r: Result<
        (usize, (u16, u16, u8, u8, u8)),
        ParseError,
    >)
        requires
            pos <= input@.len(),
        ensures
            match r {
                Ok(v) => {
                    &&& pos + 7 <= input@.len()
                    &&& v.0 == pos + 7
                    &&& v.1.0 == le16(input@[pos as int], input@[pos + 1])
                    &&& v.1.1 == le16(input@[pos + 2], input@[pos + 3])
                    &&& v.1.2 == input@[pos + 4]
                    &&& v.1.3 == input@[pos + 5]
                    &&& v.1.4 == input@[pos + 6]
                },
                Err(e) => e == ParseError::Truncated && pos + 7 > input@.len(),
            },
    {
        if input.len() - pos < 7 {
            return Err(ParseError::Truncated);
        }
        let width = read_le16(input, pos);
        let height = read_le16(input, pos + 2);
        Ok((pos + 7, (width, height, input[pos + 4], input[pos + 5], input[pos + 6])))
    }

    /// Read the color table that `packed_fields` announces, starting at
    /// `pos`: empty when bit 7 is clear, 3 * 2^(N+1) bytes otherwise.
    pub fn parse_global_color_table(input: &[u8], pos: usize, packed_fields: u8) -> (r: Result<
        (usize, Vec<u8>),
        ParseError,
    >)
        requires
            pos <= input@.len(),
        ensures
            match r {
                Ok(v) => {
                    &&& pos + color_table_len(packed_fields) <= input@.len()
                    &&& v.0 == pos + color_table_len(packed_fields)
                    &&& v.1@ == input@.subrange(
                        pos as int,
                        pos + color_table_len(packed_fields) as int,
                    )
                },
                Err(e) => e == ParseError::Truncated && pos + color_table_len(packed_fields)
                    > input@.len(),
            },
    {
        let size = color_table_size(packed_fields);
        if input.len() - pos < size {
            return Err(ParseError::Truncated);
        }
        let table = slice_to_vec(slice_subrange(input, pos, pos + size));
        Ok((pos + size, table))
    }

    /// Read a graphics control extension body at `pos` (the block-size
    /// byte): size must be 4 and the terminator must be zero.
    pub fn parse_graphics_control_extension(input: &[u8], pos: usize) -> (r: Result<
        (usize, GraphicsControlExtension),
        ParseError,
    >)
        requires
            pos <= input@.len(),
        ensures
            match r {
                Ok(v) => {
                    &&& gce_block_ok(input@, pos as int)
                    &&& v.0 == pos + 6
                    &&& v.1 == gce_at(input@, pos as int)
                },
                Err(e) => {
                    &&& !gce_block_ok(input@, pos as int)
                    &&& (e == ParseError::Truncated <==> pos + 6 > input@.len())
                    &&& (e == ParseError::Malformed <==> pos + 6 <= input@.len() && (input@[
                        pos as int] != 4 || input@[pos + 5] != 0))
                },
            },
    {
        if input.len() - pos < 6 {
            return Err(ParseError::Truncated);
        }
        if input[pos] != 4 {
            return Err(ParseError::Malformed);
        }
        let packed = input[pos + 1];
        let delay = read_le16(input, pos + 2);
        let tci = input[pos + 4];
        if input[pos + 5] != 0 {
            return Err(ParseError::Malformed);
        }
        Ok(
            (
                pos + 6,
                GraphicsControlExtension {
                    disposal_method: (packed >> 2) & 0x07,
                    user_input_flag: (packed & 0x02) != 0,
                    transparent_color_flag: (packed & 0x01) != 0,
                    delay_time: delay,
                    transparent_color_index: tci,
                },
            ),
        )
    }

    /// Read a comment extension body at `pos`: its sub-block chain,
    /// decoded leniently.
    pub fn parse_comment_extension(input: &[u8], pos: usize) -> (r: Result<
        (usize, CommentExtension),
        ParseError,
    >)
        requires
            pos <= input@.len(),
        ensures
            match r {
                Ok(v) => {
                    &&& sub_blocks_end(input@, pos as int) == Some(v.0 as int)
                    &&& pos < v.0 <= input@.len()
                    &&& v.1.text@ == lossy_utf8(sub_blocks_data(input@, pos as int))
                },
                Err(e) => e == ParseError::Malformed && sub_blocks_end(input@, pos as int)
                    is None,
            },
    {
        match read_sub_blocks(input, pos) {
            Some(v) => {
                let text = lossy_string(&v.1);
                Ok((v.0, CommentExtension { text }))
            },
            None => Err(ParseError::Malformed),
        }
    }

    /// Read a plain-text extension body at `pos`: block size must be 12,
    /// then the fixed fields, then the sub-block assembled text.
    pub fn parse_plain_text_extension(input: &[u8], pos: usize) -> (r: Result<
        (usize, PlainTextExtension),
        ParseError,
    >)
        requires
            pos <= input@.len(),
        ensures
            match r {
                Ok(v) => {
                    &&& plain_text_block_ok(input@, pos as int)
                    &&& sub_blocks_end(input@, pos + 13) == Some(v.0 as int)
                    &&& pos < v.0 <= input@.len()
                    &&& plain_text_dv(v.1) == plain_text_at(input@, pos as int)
                },
                Err(e) => {
                    &&& !plain_text_block_ok(input@, pos as int)
                    &&& (e == ParseError::Truncated <==> (pos >= input@.len() || (input@[
                        pos as int] == 12 && pos + 13 > input@.len())))
                    &&& (e == ParseError::Malformed <==> (pos < input@.len() && (input@[pos as int]
                        != 12 || (pos + 13 <= input@.len() && sub_blocks_end(input@, pos + 13)
                        is None))))
                },
            },
    {
        if pos >= input.len() {
            return Err(ParseError::Truncated);
        }
        if input[pos] != 12 {
            return Err(ParseError::Malformed);
        }
        if input.len() - pos < 13 {
            return Err(ParseError::Truncated);
        }
        let text_grid_left = read_le16(input, pos + 1);
        let text_grid_top = read_le16(input, pos + 3);
        let text_grid_width = read_le16(input, pos + 5);
        let text_grid_height = read_le16(input, pos + 7);
        let char_cell_width = input[pos + 9];
        let char_cell_height = input[pos + 10];
        let text_foreground_color_index = input[pos + 11];
        let text_background_color_index = input[pos + 12];
        match read_sub_blocks(input, pos + 13) {
            Some(v) => {
                let text = lossy_string(&v.1);
                Ok(
                    (
                        v.0,
                        PlainTextExtension {
                            text_grid_left,
                            text_grid_top,
                            text_grid_width,
                            text_grid_height,
                            char_cell_width,
                            char_cell_height,
                            text_foreground_color_index,
                            text_background_color_index,
                            text,
                        },
                    ),
                )
            },
            None => Err(ParseError::Malformed),
        }
    }

    /// Read an application extension body at `pos`: block size must be 11,
    /// then the 8-byte identifier, 3-byte auth code, and sub-block data.
    pub fn parse_application_extension(input: &[u8], pos: usize) -> (r: Result<
        (usize, ApplicationExtension),
        ParseError,
    >)
        requires
            pos <= input@.len(),
        ensures
            match r {
                Ok(v) => {
                    &&& application_block_ok(input@, pos as int)
                    &&& sub_blocks_end(input@, pos + 12) == Some(v.0 as int)
                    &&& pos < v.0 <= input@.len()
                    &&& application_dv(v.1) == application_at(input@, pos as int)
                },
                Err(e) => {
                    &&& !application_block_ok(input@, pos as int)
                    &&& (e == ParseError::Truncated <==> (pos >= input@.len() || (input@[
                        pos as int] == 11 && pos + 12 > input@.len())))
                    &&& (e == ParseError::Malformed <==> (pos < input@.len() && (input@[pos as int]
                        != 11 || (pos + 12 <= input@.len() && sub_blocks_end(input@, pos + 12)
                        is None))))
                },
            },
    {
        if pos >= input.len() {
            return Err(ParseError::Truncated);
        }
        if input[pos] != 11 {
            return Err(ParseError::Malformed);
        }
        if input.len() - pos < 12 {
            return Err(ParseError::Truncated);
        }
        let ident_bytes = slice_to_vec(slice_subrange(input, pos + 1, pos + 9));
        let identifier = lossy_string(&ident_bytes);
        let auth_code: [u8; 3] = [input[pos + 9], input[pos + 10], input[pos + 11]];
        proof {
            assert(auth_code@ =~= input@.subrange(pos + 9, pos + 12));
        }
        match read_sub_blocks(input, pos + 12) {
            Some(v) => Ok((v.0, ApplicationExtension { identifier, auth_code, data: v.1 })),
            None => Err(ParseError::Malformed),
        }
    }

    /// Read an image descriptor at `pos` (the 0x2C separator): geometry,
    /// packed fields, optional local color table, minimum code size, and
    /// the sub-block assembled compressed data. No graphics control
    /// extension is attached here.
    pub fn parse_image_descriptor(input: &[u8], pos: usize) -> (r: Result<
        (usize, GifFrame),
        ParseError,
    >)
        requires
            pos <= input@.len(),
        ensures
            match r {
                Ok(v) => {
                    &&& image_block_ok(input@, pos as int)
                    &&& sub_blocks_end(input@, pos + 11 + color_table_len(input@[pos + 9]))
                        == Some(v.0 as int)
                    &&& pos < v.0 <= input@.len()
                    &&& frame_dv(v.1) == frame_at(input@, pos as int)
                },
                Err(e) => {
                    &&& !image_block_ok(input@, pos as int)
                    &&& (e == ParseError::Truncated <==> (pos < input@.len() && input@[pos as int]
                        == 0x2C && (pos + 10 > input@.len() || pos + 11 + color_table_len(
                        input@[pos + 9],
                    ) > input@.len())))
                    &&& (e == ParseError::Malformed <==> (pos >= input@.len() || input@[pos as int]
                        != 0x2C || (pos + 10 <= input@.len() && pos + 11 + color_table_len(
                        input@[pos + 9],
                    ) <= input@.len() && sub_blocks_end(
                        input@,
                        pos + 11 + color_table_len(input@[pos + 9]),
                    ) is None)))
                },
            },
    {
        if pos >= input.len() {
            return Err(ParseError::Malformed);
        }
        if input[pos] != 0x2C {
            return Err(ParseError::Malformed);
        }
        if input.len() - pos < 10 {
            return Err(ParseError::Truncated);
        }
        let left = read_le16(input, pos + 1);
        let top = read_le16(input, pos + 3);
        let width = read_le16(input, pos + 5);
        let height = read_le16(input, pos + 7);
        let packed = input[pos + 9];
        let lct_size = color_table_size(packed);
        if input.len() - (pos + 10) <= lct_size {
            return Err(ParseError::Truncated);
        }
        let local_color_table = slice_to_vec(slice_subrange(input, pos + 10, pos + 10 + lct_size));
        let min_code_size = input[pos + 10 + lct_size];
        match read_sub_blocks(input, pos + 11 + lct_size) {
            Some(v) => Ok(
                (
                    v.0,
                    GifFrame {
                        left,
                        top,
                        width,
                        height,
                        packed_fields: packed,
                        local_color_table,
                        min_code_size,
                        data: v.1,
                        gce: None,
                    },
                ),
            ),
            None => Err(ParseError::Malformed),
        }
    }

    /// Read the block that starts at `pos` and classify it: an extension,
    /// a frame, an unknown extension drained and skipped, or the end of the
    /// block loop (trailer, unknown introducer, or end of input).
    pub fn parse_block(input: &[u8], pos: usize) -> (r: Result<BlockOutcome, ParseError>)
        requires
            pos <= input@.len(),
        ensures
            match r {
                Ok(BlockOutcome::Extension(end, ext)) => {
                    &&& pos < end <= input@.len()
                    &&& match ext {
                        Extension::GraphicsControl(g) => parse_block_at(input@, pos as int)
                            == BlockStep::Gce(end as int, g),
                        Extension::Comment(c) => parse_block_at(input@, pos as int)
                            == BlockStep::Comment(end as int, comment_dv(c)),
                        Extension::PlainText(t) => parse_block_at(input@, pos as int)
                            == BlockStep::PlainText(end as int, plain_text_dv(t)),
                        Extension::Application(a) => parse_block_at(input@, pos as int)
                            == BlockStep::Application(end as int, application_dv(a)),
                    }
                },
                Ok(BlockOutcome::Frame(end, f)) => {
                    &&& pos < end <= input@.len()
                    &&& parse_block_at(input@, pos as int) == BlockStep::Image(
                        end as int,
                        frame_dv(f),
                    )
                },
                Ok(BlockOutcome::Skipped(end)) => {
                    &&& pos < end <= input@.len()
                    &&& parse_block_at(input@, pos as int) == BlockStep::Skip(end as int)
                },
                Ok(BlockOutcome::Done) => parse_block_at(input@, pos as int) == BlockStep::Stop,
                Err(_) => parse_block_at(input@, pos as int) == BlockStep::Fail,
            },
    {
        if pos >= input.len() {
            return Ok(BlockOutcome::Done);
        }
        let introducer = input[pos];
        if introducer == 0x21 {
            if pos + 1 >= input.len() {
                return Err(ParseError::Truncated);
            }
            let label = input[pos + 1];
            let body = pos + 2;
            if label == 0xF9 {
                match Self::parse_graphics_control_extension(input, body) {
                    Ok(v) => Ok(BlockOutcome::Extension(v.0, Extension::GraphicsControl(v.1))),
                    Err(e) => Err(e),
                }
            } else if label == 0xFE {
                match Self::parse_comment_extension(input, body) {
                    Ok(v) => Ok(BlockOutcome::Extension(v.0, Extension::Comment(v.1))),
                    Err(e) => Err(e),
                }
            } else if label == 0x01 {
                match Self::parse_plain_text_extension(input, body) {
                    Ok(v) => Ok(BlockOutcome::Extension(v.0, Extension::PlainText(v.1))),
                    Err(e) => Err(e),
                }
            } else if label == 0xFF {
                match Self::parse_application_extension(input, body) {
                    Ok(v) => Ok(BlockOutcome::Extension(v.0, Extension::Application(v.1))),
                    Err(e) => Err(e),
                }
            } else {
                match read_sub_blocks(input, body) {
                    Some(v) => Ok(BlockOutcome::Skipped(v.0)),
                    None => Err(ParseError::Malformed),
                }
            }
        } else if introducer == 0x2C {
            match Self::parse_image_descriptor(input, pos) {
                Ok(v) => Ok(BlockOutcome::Frame(v.0, v.1)),
                Err(e) => Err(e),
            }
        } else {
            Ok(BlockOutcome::Done)
        }
    }

    /// Parse a whole GIF byte stream: signature, logical screen descriptor,
    /// global color table, then the block loop. The loop stops at the
    /// trailer, at an unknown byte, or at the first structural error,
    /// keeping everything parsed cleanly before it. Frames, comments, plain
    /// texts, and applications accumulate in file order; a pending graphics
    /// control extension attaches to the next frame.
    pub fn parse_gif(&mut self, input: &[u8]) -> (r: Result<(), ParseError>)
        ensures
            match r {
                Ok(()) => ({
                    let s = input@;
                    let blocks = parse_blocks(s, blocks_start(s), None);
                    &&& gif_parse_ok(s)
                    &&& final(self).screen_width == le16(s[6], s[7])
                    &&& final(self).screen_height == le16(s[8], s[9])
                    &&& final(self).packed_fields == s[10]
                    &&& final(self).background_color_index == s[11]
                    &&& final(self).pixel_aspect_ratio == s[12]
                    &&& final(self).global_color_table@ == s.subrange(13, blocks_start(s))
                    &&& frames_dv(final(self).frames@) == frames_dv(old(self).frames@)
                        + blocks.frames
                    &&& comments_dv(final(self).comments@) == comments_dv(old(self).comments@)
                        + blocks.comments
                    &&& plain_texts_dv(final(self).plain_texts@) == plain_texts_dv(
                        old(self).plain_texts@,
                    ) + blocks.plain_texts
                    &&& applications_dv(final(self).applications@) == applications_dv(
                        old(self).applications@,
                    ) + blocks.applications
                    &&& final(self).current_frame == old(self).current_frame
                }),
                Err(e) => {
                    &&& *final(self) == *old(self)
                    &&& !gif_parse_ok(input@)
                    &&& (e == ParseError::InvalidSignature <==> input@.len() >= 6
                        && !signature_ok(input@))
                    &&& (e == ParseError::Truncated <==> input@.len() < 6 || (signature_ok(input@)
                        && (input@.len() < 13 || blocks_start(input@) > input@.len())))
                },
            },
    {
        let n = match Self::parse_header(input) {
            Ok(n) => n,
            Err(e) => {
                return Err(e);
            },
        };
        let v_lsd = match Self::parse_logical_screen_descriptor(input, n) {
            Ok(v) => v,
            Err(e) => {
                return Err(e);
            },
        };
        let lsd = v_lsd.1;
        let v_gct = match Self::parse_global_color_table(input, v_lsd.0, lsd.2) {
            Ok(v) => v,
            Err(e) => {
                return Err(e);
            },
        };
        self.screen_width = lsd.0;
        self.screen_height = lsd.1;
        self.packed_fields = lsd.2;
        self.background_color_index = lsd.3;
        self.pixel_aspect_ratio = lsd.4;
        self.global_color_table = v_gct.1;
        let mut pos: usize = v_gct.0;
        let ghost s = input@;
        let ghost target = parse_blocks(s, pos as int, None);
        let ghost frames0 = frames_dv(self.frames@);
        let ghost comments0 = comments_dv(self.comments@);
        let ghost plain0 = plain_texts_dv(self.plain_texts@);
        let ghost apps0 = applications_dv(self.applications@);
        let ghost cf0 = self.current_frame;
        let mut pending_gce: Option<GraphicsControlExtension> = None;
        proof {
            assert(pos as int == blocks_start(s));
        }
        loop
            invariant
                pos <= input@.len(),
                frames_dv(self.frames@) + parse_blocks(input@, pos as int, pending_gce).frames
                    == frames0 + target.frames,
                comments_dv(self.comments@) + parse_blocks(
                    input@,
                    pos as int,
                    pending_gce,
                ).comments == comments0 + target.comments,
                plain_texts_dv(self.plain_texts@) + parse_blocks(
                    input@,
                    pos as int,
                    pending_gce,
                ).plain_texts == plain0 + target.plain_texts,
                applications_dv(self.applications@) + parse_blocks(
                    input@,
                    pos as int,
                    pending_gce,
                ).applications == apps0 + target.applications,
                self.screen_width == lsd.0,
                self.screen_height == lsd.1,
                self.packed_fields == lsd.2,
                self.background_color_index == lsd.3,
                self.pixel_aspect_ratio == lsd.4,
                self.global_color_table@ == v_gct.1@,
                self.current_frame == cf0,
            ensures
                frames_dv(self.frames@) == frames0 + target.frames,
                comments_dv(self.comments@) == comments0 + target.comments,
                plain_texts_dv(self.plain_texts@) == plain0 + target.plain_texts,
                applications_dv(self.applications@) == apps0 + target.applications,
                self.screen_width == lsd.0,
                self.screen_height == lsd.1,
                self.packed_fields == lsd.2,
                self.background_color_index == lsd.3,
                self.pixel_aspect_ratio == lsd.4,
                self.global_color_table@ == v_gct.1@,
                self.current_frame == cf0,
            decreases input@.len() - pos,
        {
            let ghost remaining = parse_blocks(input@, pos as int, pending_gce);
            if pos >= input.len() {
                assert(remaining =~= empty_blocks());
                assert(frames_dv(self.frames@) + remaining.frames =~= frames_dv(self.frames@));
                assert(comments_dv(self.comments@) + remaining.comments =~= comments_dv(
                    self.comments@,
                ));
                assert(plain_texts_dv(self.plain_texts@) + remaining.plain_texts
                    =~= plain_texts_dv(self.plain_texts@));
                assert(applications_dv(self.applications@) + remaining.applications
                    =~= applications_dv(self.applications@));
                break;
            }
            match Self::parse_block(input, pos) {
                Ok(BlockOutcome::Extension(end, ext)) => {
                    match ext {
                        Extension::GraphicsControl(g) => {
                            proof {
                                assert(remaining == parse_blocks(input@, end as int, Some(g)));
                            }
                            pending_gce = Some(g);
                        },
                        Extension::Comment(c) => {
                            let ghost rest = parse_blocks(input@, end as int, pending_gce);
                            proof {
                                assert(remaining.comments == seq![comment_dv(c)] + rest.comments);
                                assert(remaining.frames == rest.frames);
                                assert(remaining.plain_texts == rest.plain_texts);
                                assert(remaining.applications == rest.applications);
                            }
                            let ghost cs0 = comments_dv(self.comments@);
                            self.comments.push(c);
                            proof {
                                assert(comments_dv(self.comments@) =~= cs0.push(comment_dv(c)));
                                assert(cs0.push(comment_dv(c)) + rest.comments =~= cs0 + (seq![
                                    comment_dv(c),
                                ] + rest.comments));
                            }
                        },
                        Extension::PlainText(t) => {
                            let ghost rest = parse_blocks(input@, end as int, pending_gce);
                            proof {
                                assert(remaining.plain_texts == seq![plain_text_dv(t)]
                                    + rest.plain_texts);
                                assert(remaining.frames == rest.frames);
                                assert(remaining.comments == rest.comments);
                                assert(remaining.applications == rest.applications);
                            }
                            let ghost ts0 = plain_texts_dv(self.plain_texts@);
                            self.plain_texts.push(t);
                            proof {
                                assert(plain_texts_dv(self.plain_texts@) =~= ts0.push(
                                    plain_text_dv(t),
                                ));
                                assert(ts0.push(plain_text_dv(t)) + rest.plain_texts =~= ts0 + (
                                seq![plain_text_dv(t)] + rest.plain_texts));
                            }
                        },
                        Extension::Application(a) => {
                            let ghost rest = parse_blocks(input@, end as int, pending_gce);
                            proof {
                                assert(remaining.applications == seq![application_dv(a)]
                                    + rest.applications);
                                assert(remaining.frames == rest.frames);
                                assert(remaining.comments == rest.comments);
                                assert(remaining.plain_texts == rest.plain_texts);
                            }
                            let ghost as0 = applications_dv(self.applications@);
                            self.applications.push(a);
                            proof {
                                assert(applications_dv(self.applications@) =~= as0.push(
                                    application_dv(a),
                                ));
                                assert(as0.push(application_dv(a)) + rest.applications =~= as0 + (
                                seq![application_dv(a)] + rest.applications));
                            }
                        },
                    }
                    pos = end;
                },
                Ok(BlockOutcome::Frame(end, f)) => {
                    let ghost rest = parse_blocks(input@, end as int, None);
                    let ghost attached = FrameData { gce: pending_gce, ..frame_dv(f) };
                    proof {
                        assert(remaining.frames == seq![attached] + rest.frames);
                        assert(remaining.comments == rest.comments);
                        assert(remaining.plain_texts == rest.plain_texts);
                        assert(remaining.applications == rest.applications);
                    }
                    let mut frame = f;
                    frame.gce = pending_gce;
                    pending_gce = None;
                    let ghost fs0 = frames_dv(self.frames@);
                    proof {
                        assert(frame_dv(frame) == attached);
                    }
                    self.frames.push(frame);
                    proof {
                        assert(frames_dv(self.frames@) =~= fs0.push(attached));
                        assert(fs0.push(attached) + rest.frames =~= fs0 + (seq![attached]
                            + rest.frames));
                    }
                    pos = end;
                },
                Ok(BlockOutcome::Skipped(end)) => {
                    proof {
                        assert(remaining == parse_blocks(input@, end as int, pending_gce));
                    }
                    pos = end;
                },
                Ok(BlockOutcome::Done) => {
                    proof {
                        assert(remaining =~= empty_blocks());
                        assert(frames_dv(self.frames@) + remaining.frames =~= frames_dv(
                            self.frames@,
                        ));
                        assert(comments_dv(self.comments@) + remaining.comments =~= comments_dv(
                            self.comments@,
                        ));
                        assert(plain_texts_dv(self.plain_texts@) + remaining.plain_texts
                            =~= plain_texts_dv(self.plain_texts@));
                        assert(applications_dv(self.applications@) + remaining.applications
                            =~= applications_dv(self.applications@));
                    }
                    break;
                },
                Err(_) => {
                    proof {
                        assert(remaining =~= empty_blocks());
                        assert(frames_dv(self.frames@) + remaining.frames =~= frames_dv(
                            self.frames@,
                        ));
                        assert(comments_dv(self.comments@) + remaining.comments =~= comments_dv(
                            self.comments@,
                        ));
                        assert(plain_texts_dv(self.plain_texts@) + remaining.plain_texts
                            =~= plain_texts_dv(self.plain_texts@));
                        assert(applications_dv(self.applications@) + remaining.applications
                            =~= applications_dv(self.applications@));
                    }
                    break;
                },
            }
        }
        Ok(())
    }
}

/// What one call of `parse_block` produced.
pub enum BlockOutcome {
    Extension(usize, Extension),
    Frame(usize, GifFrame),
    Skipped(usize),
    Done,
}

/// Whether an application extension is the NETSCAPE 2.0 looping block.
pub open spec fn is_netscape(a: ApplicationData) -> bool {
    &&& a.identifier == "NETSCAPE"@
    &&& a.auth_code == seq![0x32u8, 0x2Eu8, 0x30u8]
}

/// The animation loop count stored in the first NETSCAPE 2.0 application
/// extension, if that extension exists and its data starts with sub-block
/// id 1 followed by a 16-bit little-endian count.
pub open spec fn loop_count_of(apps: Seq<ApplicationData>) -> Option<u16>
    decreases apps.len(),
{
    if apps.len() == 0 {
        None::<u16>
    } else if is_netscape(apps[0]) {
        if apps[0].data.len() >= 3 && apps[0].data[0] == 1 {
            Some(le16(apps[0].data[1], apps[0].data[2]))
        } else {
            None
        }
    } else {
        loop_count_of(apps.skip(1))
    }
}

/// The packed byte a frame's graphics control extension contributes to a
/// packet payload: disposal method in bits 2-4, user input in bit 1,
/// transparency in bit 0.
pub open spec fn gce_packed_byte(g: GraphicsControlExtension) -> u8 {
    ((g.disposal_method & 0x07) as int * 4 + (if g.user_input_flag {
        2int
    } else {
        0int
    }) + (if g.transparent_color_flag {
        1int
    } else {
        0int
    })) as u8
}

/// The packet payload handed to the media framework for one frame: left,
/// top, width, packed fields, the four GCE bytes or a single zero, the
/// local color table, the minimum code size, and the compressed data.
pub open spec fn packet_payload_bytes(f: FrameData) -> Seq<u8> {
    u16_le_bytes(f.left) + u16_le_bytes(f.top) + u16_le_bytes(f.width) + seq![f.packed_fields]
        + (match f.gce {
        Some(g) => seq![gce_packed_byte(g)] + u16_le_bytes(g.delay_time) + seq![
            g.transparent_color_index,
        ],
        None => seq![0x00u8],
    }) + f.local_color_table + seq![f.min_code_size] + f.data
}

impl GifDemuxer {
    /// The loop count of the first NETSCAPE 2.0 application extension, if
    /// any: 0 means the animation loops forever.
    pub fn get_loop_count(&self) -> (r: Option<u16>)
        ensures
            r == loop_count_of(applications_dv(self.applications@)),
    {
        let ghost apps = applications_dv(self.applications@);
        let netscape = "NETSCAPE".to_owned();
        proof {
            assert(apps.skip(0) =~= apps);
        }
        let mut i: usize = 0;
        loop
            invariant
                i <= self.applications@.len(),
                apps == applications_dv(self.applications@),
                netscape@ == "NETSCAPE"@,
                loop_count_of(apps) == loop_count_of(apps.skip(i as int)),
            decreases self.applications@.len() - i,
        {
            if i >= self.applications.len() {
                assert(apps.skip(i as int) =~= Seq::<ApplicationData>::empty());
                return None;
            }
            let app = &self.applications[i];
            let ghost a = apps.skip(i as int);
            proof {
                assert(a[0] == apps[i as int]);
                assert(a.skip(1) =~= apps.skip(i + 1));
            }
            let is_ns = app.identifier == netscape && app.auth_code[0] == 0x32
                && app.auth_code[1] == 0x2E && app.auth_code[2] == 0x30;
            proof {
                assert(app.auth_code@.len() == 3);
                if app.auth_code@[0] == 0x32u8 && app.auth_code@[1] == 0x2Eu8 && app.auth_code@[2]
                    == 0x30u8 {
                    assert(app.auth_code@ =~= seq![0x32u8, 0x2Eu8, 0x30u8]);
                }
                assert(is_ns == is_netscape(apps[i as int]));
            }
            if is_ns {
                if app.data.len() >= 3 && app.data[0] == 1 {
                    let lo = app.data[1];
                    let hi = app.data[2];
                    return Some(lo as u16 + 256 * (hi as u16));
                } else {
                    return None;
                }
            }
            i = i + 1;
        }
    }

    /// The codec extradata handed to the media framework: screen geometry,
    /// packed fields, background index, aspect ratio, then the global color
    /// table.
    pub fn extradata_bytes(&self) -> (r: Vec<u8>)
        ensures
            r@ == u16_le_bytes(self.screen_width) + u16_le_bytes(self.screen_height) + seq![
                self.packed_fields,
                self.background_color_index,
                self.pixel_aspect_ratio,
            ] + self.global_color_table@,
    {
        let mut out: Vec<u8> = Vec::new();
        push_le16(&mut out, self.screen_width);
        push_le16(&mut out, self.screen_height);
        out.push(self.packed_fields);
        out.push(self.background_color_index);
        out.push(self.pixel_aspect_ratio);
        append_bytes(&mut out, self.global_color_table.as_slice());
        proof {
            assert(out@ =~= u16_le_bytes(self.screen_width) + u16_le_bytes(self.screen_height)
                + seq![
                self.packed_fields,
                self.background_color_index,
                self.pixel_aspect_ratio,
            ] + self.global_color_table@);
        }
        out
    }

    /// The packet payload for one frame.
    pub fn packet_payload(frame: &GifFrame) -> (r: Vec<u8>)
        ensures
            r@ == packet_payload_bytes(frame_dv(*frame)),
    {
        let mut out: Vec<u8> = Vec::new();
        push_le16(&mut out, frame.left);
        push_le16(&mut out, frame.top);
        push_le16(&mut out, frame.width);
        out.push(frame.packed_fields);
        match &frame.gce {
            Some(g) => {
                let d = g.disposal_method;
                proof {
                    assert(d & 0x07 <= 7) by (bit_vector);
                }
                let mut packed: u8 = (d & 0x07) * 4;
                if g.user_input_flag {
                    packed = packed + 2;
                }
                if g.transparent_color_flag {
                    packed = packed + 1;
                }
                out.push(packed);
                push_le16(&mut out, g.delay_time);
                out.push(g.transparent_color_index);
            },
            None => {
                out.push(0x00);
            },
        }
        append_bytes(&mut out, frame.local_color_table.as_slice());
        out.push(frame.min_code_size);
        append_bytes(&mut out, frame.data.as_slice());
        proof {
            assert(out@ =~= packet_payload_bytes(frame_dv(*frame)));
        }
        out
    }

    /// The presentation duration of a frame in hundredths of a second: the
    /// GCE delay, or 1 when the frame has none.
    pub fn frame_duration(frame: &GifFrame) -> (r: u64)
        ensures
            r == (match frame.gce {
                Some(g) => g.delay_time as u64,
                None => 1u64,
            }),
    {
        match &frame.gce {
            Some(g) => g.delay_time as u64,
            None => 1,
        }
    }

    /// Advance the frame cursor: the payload, timestamp, and duration of
    /// the next packet, or None once every frame has been handed out.
    pub fn next_packet(&mut self) -> (r: Option<(Vec<u8>, u64, u64)>)
        ensures
            match r {
                Some(p) => {
                    &&& old(self).current_frame < old(self).frames@.len()
                    &&& final(self).current_frame == old(self).current_frame + 1
                    &&& p.0@ == packet_payload_bytes(
                        frame_dv(old(self).frames@[old(self).current_frame as int]),
                    )
                    &&& p.1 == old(self).current_frame
                    &&& p.2 == (match old(self).frames@[old(self).current_frame as int].gce {
                        Some(g) => g.delay_time as u64,
                        None => 1u64,
                    })
                    &&& final(self).frames@ == old(self).frames@
                    &&& final(self).screen_width == old(self).screen_width
                    &&& final(self).screen_height == old(self).screen_height
                },
                None => old(self).current_frame >= old(self).frames@.len() && *final(self)
                    == *old(self),
            },
    {
        if self.current_frame >= self.frames.len() as u64 {
            return None;
        }
        let idx = self.current_frame as usize;
        let frame = &self.frames[idx];
        let payload = Self::packet_payload(frame);
        let duration = Self::frame_duration(frame);
        let pts = self.current_frame;
        self.current_frame = self.current_frame + 1;
        Some((payload, pts, duration))
    }
}

/// The number of image-descriptor blocks the block loop passes over,
/// starting at `pos`.
pub open spec fn image_block_count(s: Seq<u8>, pos: int) -> nat
    decreases (if s.len() > pos {
        s.len() - pos
    } else {
        0int
    }),
{
    if pos < 0 || pos >= s.len() {
        0
    } else {
        match parse_block_at(s, pos) {
            BlockStep::Stop => 0,
            BlockStep::Fail => 0,
            BlockStep::Gce(p2, g) => {
                if pos < p2 <= s.len() {
                    image_block_count(s, p2)
                } else {
                    0
                }
            },
            BlockStep::Comment(p2, c) => {
                if pos < p2 <= s.len() {
                    image_block_count(s, p2)
                } else {
                    0
                }
            },
            BlockStep::PlainText(p2, t) => {
                if pos < p2 <= s.len() {
                    image_block_count(s, p2)
                } else {
                    0
                }
            },
            BlockStep::Application(p2, a) => {
                if pos < p2 <= s.len() {
                    image_block_count(s, p2)
                } else {
                    0
                }
            },
            BlockStep::Image(p2, f) => {
                if pos < p2 <= s.len() {
                    1 + image_block_count(s, p2)
                } else {
                    0
                }
            },
            BlockStep::Skip(p2) => {
                if pos < p2 <= s.len() {
                    image_block_count(s, p2)
                } else {
                    0
                }
            },
        }
    }
}

/// Palette lengths the packed "size" field represents exactly: the powers
/// of two from 2 to 256.
pub open spec fn palette_size_ok(len: nat) -> bool {
    ||| len == 2
    ||| len == 4
    ||| len == 8
    ||| len == 16
    ||| len == 32
    ||| len == 64
    ||| len == 128
    ||| len == 256
}

/// Law: palette sizes that are powers of two between 2 and 256 round-trip
/// through the packed "size" field: the color table length the parser reads
/// back from the packed byte is exactly three bytes per color.
pub proof fn lemma_palette_size_round_trip(len: nat)
    requires
        palette_size_ok(len),
    ensures
        color_table_len((0x80u8 + palette_size_field(len)) as u8) == 3 * len,
{
    lemma2_to64();
    let f = palette_size_field(len);
    assert(f < 8);
    assert(((0x80u8 + f) as u8) & 0x80 != 0 && ((0x80u8 + f) as u8) & 0x07 == f) by (bit_vector)
        requires
            f < 8,
    ;
}

/// Law: the block loop yields exactly one frame per image-descriptor block
/// in the input, whatever GCE is pending.
pub proof fn lemma_one_frame_per_image_block(
    s: Seq<u8>,
    pos: int,
    pending: Option<GraphicsControlExtension>,
)
    ensures
        parse_blocks(s, pos, pending).frames.len() == image_block_count(s, pos),
    decreases (if s.len() > pos {
        s.len() - pos
    } else {
        0int
    }),
{
    if pos < 0 || pos >= s.len() {
    } else {
        match parse_block_at(s, pos) {
            BlockStep::Stop => {},
            BlockStep::Fail => {},
            BlockStep::Gce(p2, g) => {
                if pos < p2 <= s.len() {
                    lemma_one_frame_per_image_block(s, p2, Some(g));
                }
            },
            BlockStep::Comment(p2, c) => {
                if pos < p2 <= s.len() {
                    lemma_one_frame_per_image_block(s, p2, pending);
                }
            },
            BlockStep::PlainText(p2, t) => {
                if pos < p2 <= s.len() {
                    lemma_one_frame_per_image_block(s, p2, pending);
                }
            },
            BlockStep::Application(p2, a) => {
                if pos < p2 <= s.len() {
                    lemma_one_frame_per_image_block(s, p2, pending);
                }
            },
            BlockStep::Image(p2, f) => {
                if pos < p2 <= s.len() {
                    lemma_one_frame_per_image_block(s, p2, None);
                }
            },
            BlockStep::Skip(p2) => {
                if pos < p2 <= s.len() {
                    lemma_one_frame_per_image_block(s, p2, pending);
                }
            },
        }
    }
}

/// The byte positions where the block loop's image descriptors start.
pub open spec fn image_positions(s: Seq<u8>, pos: int) -> Seq<int>
    decreases (if s.len() > pos {
        s.len() - pos
    } else {
        0int
    }),
{
    if pos < 0 || pos >= s.len() {
        Seq::<int>::empty()
    } else {
        match parse_block_at(s, pos) {
            BlockStep::Stop => Seq::<int>::empty(),
            BlockStep::Fail => Seq::<int>::empty(),
            BlockStep::Gce(p2, g) => {
                if pos < p2 <= s.len() {
                    image_positions(s, p2)
                } else {
                    Seq::<int>::empty()
                }
            },
            BlockStep::Comment(p2, c) => {
                if pos < p2 <= s.len() {
                    image_positions(s, p2)
                } else {
                    Seq::<int>::empty()
                }
            },
            BlockStep::PlainText(p2, t) => {
                if pos < p2 <= s.len() {
                    image_positions(s, p2)
                } else {
                    Seq::<int>::empty()
                }
            },
            BlockStep::Application(p2, a) => {
                if pos < p2 <= s.len() {
                    image_positions(s, p2)
                } else {
                    Seq::<int>::empty()
                }
            },
            BlockStep::Image(p2, f) => {
                if pos < p2 <= s.len() {
                    seq![pos] + image_positions(s, p2)
                } else {
                    Seq::<int>::empty()
                }
            },
            BlockStep::Skip(p2) => {
                if pos < p2 <= s.len() {
                    image_positions(s, p2)
                } else {
                    Seq::<int>::empty()
                }
            },
        }
    }
}

/// The byte positions where the block loop's blocks start, in order, up to
/// where the loop stops.
pub open spec fn block_positions(s: Seq<u8>, pos: int) -> Seq<int>
    decreases (if s.len() > pos {
        s.len() - pos
    } else {
        0int
    }),
{
    if pos < 0 || pos >= s.len() {
        Seq::<int>::empty()
    } else {
        match parse_block_at(s, pos) {
            BlockStep::Stop => Seq::<int>::empty(),
            BlockStep::Fail => Seq::<int>::empty(),
            BlockStep::Gce(p2, g) => {
                if pos < p2 <= s.len() {
                    seq![pos] + block_positions(s, p2)
                } else {
                    Seq::<int>::empty()
                }
            },
            BlockStep::Comment(p2, c) => {
                if pos < p2 <= s.len() {
                    seq![pos] + block_positions(s, p2)
                } else {
                    Seq::<int>::empty()
                }
            },
            BlockStep::PlainText(p2, t) => {
                if pos < p2 <= s.len() {
                    seq![pos] + block_positions(s, p2)
                } else {
                    Seq::<int>::empty()
                }
            },
            BlockStep::Application(p2, a) => {
                if pos < p2 <= s.len() {
                    seq![pos] + block_positions(s, p2)
                } else {
                    Seq::<int>::empty()
                }
            },
            BlockStep::Image(p2, f) => {
                if pos < p2 <= s.len() {
                    seq![pos] + block_positions(s, p2)
                } else {
                    Seq::<int>::empty()
                }
            },
            BlockStep::Skip(p2) => {
                if pos < p2 <= s.len() {
                    seq![pos] + block_positions(s, p2)
                } else {
                    Seq::<int>::empty()
                }
            },
        }
    }
}

/// Whether `q` is the start of one of the blocks the loop from `start`
/// passes over.
pub open spec fn is_block_start(s: Seq<u8>, start: int, q: int) -> bool {
    block_positions(s, start).contains(q)
}

/// Whether the block at `p` is a graphics control extension carrying `g`.
pub open spec fn step_is_gce_with(s: Seq<u8>, p: int, g: GraphicsControlExtension) -> bool {
    match parse_block_at(s, p) {
        BlockStep::Gce(p2, g2) => g2 == g,
        _ => false,
    }
}

/// No block starting strictly between `lo` and `hi` is an image descriptor
/// or a graphics control extension.
pub open spec fn no_image_or_gce_between(s: Seq<u8>, start: int, lo: int, hi: int) -> bool {
    forall|q: int| #![trigger is_block_start(s, start, q)]
        is_block_start(s, start, q) && lo < q < hi ==> !(parse_block_at(s, q) is Image) && !(
        parse_block_at(s, q) is Gce)
}

/// A graphics-control block carrying `g` starts before `fp`, and between it
/// and `fp` no image descriptor and no other GCE intervenes.
pub open spec fn gce_precedes_at(s: Seq<u8>, start: int, fp: int, g: GraphicsControlExtension) -> bool {
    exists|p: int| #![trigger step_is_gce_with(s, p, g)]
        start <= p < fp && is_block_start(s, start, p) && step_is_gce_with(s, p, g)
            && no_image_or_gce_between(s, start, p, fp)
}

/// An element of a one-element prefix concatenation is the head or a tail
/// element.
proof fn lemma_cons_contains(x: int, rest: Seq<int>, q: int)
    ensures
        (seq![x] + rest).contains(q) <==> (q == x || rest.contains(q)),
{
    if (seq![x] + rest).contains(q) {
        let idx = choose|idx: int| 0 <= idx < (seq![x] + rest).len() && (seq![x] + rest)[idx] == q;
        if idx > 0 {
            assert(rest[idx - 1] == q);
            assert(rest.contains(q));
        }
    }
    if q == x {
        assert((seq![x] + rest)[0] == q);
        assert((seq![x] + rest).contains(q));
    }
    if rest.contains(q) {
        let idx = choose|idx: int| 0 <= idx < rest.len() && rest[idx] == q;
        assert((seq![x] + rest)[idx + 1] == q);
        assert((seq![x] + rest).contains(q));
    }
}

/// Every block position lies between the loop's start and the end of the
/// input.
proof fn lemma_block_positions_bounds(s: Seq<u8>, pos: int)
    ensures
        forall|q: int| #[trigger] block_positions(s, pos).contains(q) ==> pos <= q < s.len(),
    decreases (if s.len() > pos {
        s.len() - pos
    } else {
        0int
    }), 1int,
{
    if pos < 0 || pos >= s.len() {
    } else {
        let step = parse_block_at(s, pos);
        match step {
            BlockStep::Stop => {},
            BlockStep::Fail => {},
            BlockStep::Gce(p2, g) => {
                lemma_block_positions_step(s, pos, p2);
            },
            BlockStep::Comment(p2, c) => {
                lemma_block_positions_step(s, pos, p2);
            },
            BlockStep::PlainText(p2, t) => {
                lemma_block_positions_step(s, pos, p2);
            },
            BlockStep::Application(p2, a) => {
                lemma_block_positions_step(s, pos, p2);
            },
            BlockStep::Image(p2, f) => {
                lemma_block_positions_step(s, pos, p2);
            },
            BlockStep::Skip(p2) => {
                lemma_block_positions_step(s, pos, p2);
            },
        }
    }
}

/// Helper for the bounds induction: one continuing step.
proof fn lemma_block_positions_step(s: Seq<u8>, pos: int, p2: int)
    requires
        0 <= pos < s.len(),
        block_positions(s, pos) == (if pos < p2 <= s.len() {
            seq![pos] + block_positions(s, p2)
        } else {
            Seq::<int>::empty()
        }),
    ensures
        forall|q: int| #[trigger] block_positions(s, pos).contains(q) ==> pos <= q < s.len(),
    decreases (if s.len() > pos {
        s.len() - pos
    } else {
        0int
    }), 0int,
{
    if pos < p2 <= s.len() {
        lemma_block_positions_bounds(s, p2);
        assert forall|q: int| #[trigger] block_positions(s, pos).contains(q) implies pos <= q
            < s.len() by {
            lemma_cons_contains(pos, block_positions(s, p2), q);
        }
    }
}

/// Every image position lies between the loop's start and the end of the
/// input.
proof fn lemma_image_positions_bounds(s: Seq<u8>, pos: int)
    ensures
        forall|j: int|
            0 <= j < image_positions(s, pos).len() ==> pos <= #[trigger] image_positions(
                s,
                pos,
            )[j] < s.len(),
    decreases (if s.len() > pos {
        s.len() - pos
    } else {
        0int
    }),
{
    if pos < 0 || pos >= s.len() {
    } else {
        match parse_block_at(s, pos) {
            BlockStep::Stop => {},
            BlockStep::Fail => {},
            BlockStep::Gce(p2, g) => {
                if pos < p2 <= s.len() {
                    lemma_image_positions_bounds(s, p2);
                    assert forall|j: int|
                        0 <= j < image_positions(s, pos).len() implies pos <= #[trigger]
                    image_positions(s, pos)[j] < s.len() by {
                        assert(image_positions(s, pos)[j] == image_positions(s, p2)[j]);
                    }
                }
            },
            BlockStep::Comment(p2, c) => {
                if pos < p2 <= s.len() {
                    lemma_image_positions_bounds(s, p2);
                    assert forall|j: int|
                        0 <= j < image_positions(s, pos).len() implies pos <= #[trigger]
                    image_positions(s, pos)[j] < s.len() by {
                        assert(image_positions(s, pos)[j] == image_positions(s, p2)[j]);
                    }
                }
            },
            BlockStep::PlainText(p2, t) => {
                if pos < p2 <= s.len() {
                    lemma_image_positions_bounds(s, p2);
                    assert forall|j: int|
                        0 <= j < image_positions(s, pos).len() implies pos <= #[trigger]
                    image_positions(s, pos)[j] < s.len() by {
                        assert(image_positions(s, pos)[j] == image_positions(s, p2)[j]);
                    }
                }
            },
            BlockStep::Application(p2, a) => {
                if pos < p2 <= s.len() {
                    lemma_image_positions_bounds(s, p2);
                    assert forall|j: int|
                        0 <= j < image_positions(s, pos).len() implies pos <= #[trigger]
                    image_positions(s, pos)[j] < s.len() by {
                        assert(image_positions(s, pos)[j] == image_positions(s, p2)[j]);
                    }
                }
            },
            BlockStep::Image(p2, f) => {
                if pos < p2 <= s.len() {
                    lemma_image_positions_bounds(s, p2);
                    assert forall|j: int|
                        0 <= j < image_positions(s, pos).len() implies pos <= #[trigger]
                    image_positions(s, pos)[j] < s.len() by {
                        if j > 0 {
                            assert(image_positions(s, pos)[j] == image_positions(s, p2)[j - 1]);
                        }
                    }
                }
            },
            BlockStep::Skip(p2) => {
                if pos < p2 <= s.len() {
                    lemma_image_positions_bounds(s, p2);
                    assert forall|j: int|
                        0 <= j < image_positions(s, pos).len() implies pos <= #[trigger]
                    image_positions(s, pos)[j] < s.len() by {
                        assert(image_positions(s, pos)[j] == image_positions(s, p2)[j]);
                    }
                }
            },
        }
    }
}

/// The block loop yields one frame per image position.
proof fn lemma_image_positions_len(
    s: Seq<u8>,
    pos: int,
    pending: Option<GraphicsControlExtension>,
)
    ensures
        image_positions(s, pos).len() == parse_blocks(s, pos, pending).frames.len(),
    decreases (if s.len() > pos {
        s.len() - pos
    } else {
        0int
    }),
{
    if pos < 0 || pos >= s.len() {
    } else {
        match parse_block_at(s, pos) {
            BlockStep::Stop => {},
            BlockStep::Fail => {},
            BlockStep::Gce(p2, g) => {
                if pos < p2 <= s.len() {
                    lemma_image_positions_len(s, p2, Some(g));
                }
            },
            BlockStep::Comment(p2, c) => {
                if pos < p2 <= s.len() {
                    lemma_image_positions_len(s, p2, pending);
                }
            },
            BlockStep::PlainText(p2, t) => {
                if pos < p2 <= s.len() {
                    lemma_image_positions_len(s, p2, pending);
                }
            },
            BlockStep::Application(p2, a) => {
                if pos < p2 <= s.len() {
                    lemma_image_positions_len(s, p2, pending);
                }
            },
            BlockStep::Image(p2, f) => {
                if pos < p2 <= s.len() {
                    lemma_image_positions_len(s, p2, None);
                }
            },
            BlockStep::Skip(p2) => {
                if pos < p2 <= s.len() {
                    lemma_image_positions_len(s, p2, pending);
                }
            },
        }
    }
}

/// Lifts the GCE-source fact across one neutral block (a comment, plain
/// text, application, or skipped extension): the pending slot and the frame
/// list pass through it unchanged.
proof fn lemma_gce_source_neutral(
    s: Seq<u8>,
    pos: int,
    p2: int,
    pending: Option<GraphicsControlExtension>,
    i: int,
    g: GraphicsControlExtension,
)
    requires
        0 <= pos < s.len(),
        pos < p2 <= s.len(),
        !(parse_block_at(s, pos) is Image),
        !(parse_block_at(s, pos) is Gce),
        block_positions(s, pos) == seq![pos] + block_positions(s, p2),
        image_positions(s, pos) == image_positions(s, p2),
        0 <= i < image_positions(s, p2).len(),
        ({
            let fp = image_positions(s, p2)[i];
            gce_precedes_at(s, p2, fp, g) || (pending == Some(g) && i == 0
                && no_image_or_gce_between(s, p2, p2 - 1, fp))
        }),
    ensures
        ({
            let fp = image_positions(s, pos)[i];
            gce_precedes_at(s, pos, fp, g) || (pending == Some(g) && i == 0
                && no_image_or_gce_between(s, pos, pos - 1, fp))
        }),
{
    let fp = image_positions(s, p2)[i];
    lemma_block_positions_bounds(s, p2);
    if gce_precedes_at(s, p2, fp, g) {
        let p = choose|p: int|
            p2 <= p < fp && is_block_start(s, p2, p) && step_is_gce_with(s, p, g)
                && no_image_or_gce_between(s, p2, p, fp);
        lemma_cons_contains(pos, block_positions(s, p2), p);
        assert(is_block_start(s, pos, p));
        assert forall|q: int| #![trigger is_block_start(s, pos, q)]
            is_block_start(s, pos, q) && p < q < fp implies !(parse_block_at(s, q) is Image) && !(
        parse_block_at(s, q) is Gce) by {
            lemma_cons_contains(pos, block_positions(s, p2), q);
            assert(is_block_start(s, p2, q));
        }
        assert(no_image_or_gce_between(s, pos, p, fp));
        assert(pos <= p < fp && is_block_start(s, pos, p) && step_is_gce_with(s, p, g)
            && no_image_or_gce_between(s, pos, p, fp));
        assert(gce_precedes_at(s, pos, fp, g));
    } else {
        assert(pending == Some(g) && i == 0);
        assert forall|q: int| #![trigger is_block_start(s, pos, q)]
            is_block_start(s, pos, q) && pos - 1 < q < fp implies !(parse_block_at(s, q)
            is Image) && !(parse_block_at(s, q) is Gce) by {
            lemma_cons_contains(pos, block_positions(s, p2), q);
            if q != pos {
                assert(is_block_start(s, p2, q));
                assert(p2 <= q);
            }
        }
        assert(no_image_or_gce_between(s, pos, pos - 1, fp));
    }
}

/// Where a frame's attached GCE came from: a graphics-control block inside
/// the loop with no image descriptor and no other GCE between it and the
/// frame, or, for the first frame only, the GCE already pending when the
/// loop started, with no GCE or image block before that frame.
proof fn lemma_gce_source(
    s: Seq<u8>,
    pos: int,
    pending: Option<GraphicsControlExtension>,
    i: int,
    g: GraphicsControlExtension,
)
    requires
        0 <= i < parse_blocks(s, pos, pending).frames.len(),
        parse_blocks(s, pos, pending).frames[i].gce == Some(g),
    ensures
        ({
            let fp = image_positions(s, pos)[i];
            gce_precedes_at(s, pos, fp, g) || (pending == Some(g) && i == 0
                && no_image_or_gce_between(s, pos, pos - 1, fp))
        }),
    decreases (if s.len() > pos {
        s.len() - pos
    } else {
        0int
    }),
{
    lemma_image_positions_len(s, pos, pending);
    assert(0 <= pos < s.len());
    match parse_block_at(s, pos) {
        BlockStep::Stop => {
            assert(false);
        },
        BlockStep::Fail => {
            assert(false);
        },
        BlockStep::Gce(p2, g2) => {
            assert(pos < p2 <= s.len());
            lemma_gce_source(s, p2, Some(g2), i, g);
            lemma_image_positions_len(s, p2, Some(g2));
            lemma_image_positions_bounds(s, p2);
            lemma_block_positions_bounds(s, p2);
            let fp = image_positions(s, pos)[i];
            assert(fp == image_positions(s, p2)[i]);
            assert(p2 <= fp);
            if gce_precedes_at(s, p2, fp, g) {
                let p = choose|p: int|
                    p2 <= p < fp && is_block_start(s, p2, p) && step_is_gce_with(s, p, g)
                        && no_image_or_gce_between(s, p2, p, fp);
                lemma_cons_contains(pos, block_positions(s, p2), p);
                assert(is_block_start(s, pos, p));
                assert forall|q: int| #![trigger is_block_start(s, pos, q)]
                    is_block_start(s, pos, q) && p < q < fp implies !(parse_block_at(s, q)
                    is Image) && !(parse_block_at(s, q) is Gce) by {
                    lemma_cons_contains(pos, block_positions(s, p2), q);
                    assert(is_block_start(s, p2, q));
                }
                assert(no_image_or_gce_between(s, pos, p, fp));
                assert(pos <= p < fp && is_block_start(s, pos, p) && step_is_gce_with(s, p, g)
                    && no_image_or_gce_between(s, pos, p, fp));
                assert(gce_precedes_at(s, pos, fp, g));
            } else {
                assert(g2 == g && i == 0);
                assert(no_image_or_gce_between(s, p2, p2 - 1, fp));
                assert(step_is_gce_with(s, pos, g));
                assert((seq![pos] + block_positions(s, p2))[0] == pos);
                assert(is_block_start(s, pos, pos));
                assert forall|q: int| #![trigger is_block_start(s, pos, q)]
                    is_block_start(s, pos, q) && pos < q < fp implies !(parse_block_at(s, q)
                    is Image) && !(parse_block_at(s, q) is Gce) by {
                    lemma_cons_contains(pos, block_positions(s, p2), q);
                    assert(is_block_start(s, p2, q));
                    assert(p2 <= q);
                }
                assert(no_image_or_gce_between(s, pos, pos, fp));
                assert(pos <= pos < fp && is_block_start(s, pos, pos) && step_is_gce_with(
                    s,
                    pos,
                    g,
                ) && no_image_or_gce_between(s, pos, pos, fp));
                assert(gce_precedes_at(s, pos, fp, g));
            }
        },
        BlockStep::Comment(p2, c) => {
            assert(pos < p2 <= s.len());
            lemma_gce_source(s, p2, pending, i, g);
            lemma_image_positions_len(s, p2, pending);
            lemma_gce_source_neutral(s, pos, p2, pending, i, g);
        },
        BlockStep::PlainText(p2, t) => {
            assert(pos < p2 <= s.len());
            lemma_gce_source(s, p2, pending, i, g);
            lemma_image_positions_len(s, p2, pending);
            lemma_gce_source_neutral(s, pos, p2, pending, i, g);
        },
        BlockStep::Application(p2, a) => {
            assert(pos < p2 <= s.len());
            lemma_gce_source(s, p2, pending, i, g);
            lemma_image_positions_len(s, p2, pending);
            lemma_gce_source_neutral(s, pos, p2, pending, i, g);
        },
        BlockStep::Skip(p2) => {
            assert(pos < p2 <= s.len());
            lemma_gce_source(s, p2, pending, i, g);
            lemma_image_positions_len(s, p2, pending);
            lemma_gce_source_neutral(s, pos, p2, pending, i, g);
        },
        BlockStep::Image(p2, f) => {
            assert(pos < p2 <= s.len());
            let rest = parse_blocks(s, p2, None);
            if i == 0 {
                assert(parse_blocks(s, pos, pending).frames[0] == FrameData {
                    gce: pending,
                    ..f
                });
                assert(pending == Some(g));
                assert(image_positions(s, pos)[0] == pos);
                assert(no_image_or_gce_between(s, pos, pos - 1, pos));
            } else {
                lemma_image_positions_len(s, p2, None);
                assert(parse_blocks(s, pos, pending).frames[i] == rest.frames[i - 1]);
                lemma_gce_source(s, p2, None, i - 1, g);
                lemma_image_positions_bounds(s, p2);
                lemma_block_positions_bounds(s, p2);
                let fp = image_positions(s, pos)[i];
                assert(fp == image_positions(s, p2)[i - 1]);
                assert(gce_precedes_at(s, p2, fp, g));
                let p = choose|p: int|
                    p2 <= p < fp && is_block_start(s, p2, p) && step_is_gce_with(s, p, g)
                        && no_image_or_gce_between(s, p2, p, fp);
                lemma_cons_contains(pos, block_positions(s, p2), p);
                assert(is_block_start(s, pos, p));
                assert forall|q: int| #![trigger is_block_start(s, pos, q)]
                    is_block_start(s, pos, q) && p < q < fp implies !(parse_block_at(s, q)
                    is Image) && !(parse_block_at(s, q) is Gce) by {
                    lemma_cons_contains(pos, block_positions(s, p2), q);
                    assert(is_block_start(s, p2, q));
                }
                assert(no_image_or_gce_between(s, pos, p, fp));
                assert(pos <= p < fp && is_block_start(s, pos, p) && step_is_gce_with(s, p, g)
                    && no_image_or_gce_between(s, pos, p, fp));
                assert(gce_precedes_at(s, pos, fp, g));
            }
        },
    }
}

/// Law: every attached graphics control extension immediately precedes its
/// frame in file order. For the block loop as `parse_gif` runs it (no GCE
/// pending at the start), a frame's attached GCE comes from a
/// graphics-control block that starts before the frame's image descriptor,
/// and no image descriptor and no other GCE block starts between the two.
pub proof fn lemma_gce_immediately_precedes(
    s: Seq<u8>,
    start: int,
    i: int,
    g: GraphicsControlExtension,
)
    requires
        0 <= i < parse_blocks(s, start, None).frames.len(),
        parse_blocks(s, start, None).frames[i].gce == Some(g),
    ensures
        gce_precedes_at(s, start, image_positions(s, start)[i], g),
{
    lemma_gce_source(s, start, None, i, g);
}

/// Law: a graphics control extension emitted by the encoder parses back to
/// the same disposal method, delay, transparency flag, and transparent
/// color index, whatever follows it in the stream.
pub proof fn lemma_gce_round_trip(
    disposal: DisposalMethod,
    delay: u16,
    transparent: Option<u8>,
    tail: Seq<u8>,
)
    ensures
        ({
            let s = gce_bytes(disposal, delay, transparent) + tail;
            &&& s.len() >= 8
            &&& s[0] == 0x21u8
            &&& s[1] == 0xF9u8
            &&& gce_block_ok(s, 2)
            &&& gce_at(s, 2) == (GraphicsControlExtension {
                disposal_method: disposal_field(disposal),
                user_input_flag: false,
                transparent_color_flag: transparent is Some,
                delay_time: delay,
                transparent_color_index: (match transparent {
                    Some(i) => i,
                    None => 0u8,
                }),
            })
        }),
{
    let tci: u8 = match transparent {
        Some(i) => i,
        None => 0u8,
    };
    let packed = gce_packed_field(disposal, transparent);
    let b = gce_bytes(disposal, delay, transparent);
    assert(b =~= seq![0x21u8, 0xF9u8, 0x04u8, packed] + u16_le_bytes(delay) + seq![tci, 0x00u8]);
    assert(b.len() == 8);
    let s = b + tail;
    assert(s[0] == 0x21u8 && s[1] == 0xF9u8 && s[2] == 0x04u8 && s[3] == packed);
    assert(s[4] == (delay % 256) as u8 && s[5] == (delay / 256) as u8);
    assert(s[6] == tci && s[7] == 0x00u8);
    let df = disposal_field(disposal);
    let t: u8 = if transparent is Some {
        1u8
    } else {
        0u8
    };
    assert(packed == (df * 4 + t) as u8);
    assert((((df * 4 + t) as u8) >> 2) & 0x07 == df && ((df * 4 + t) as u8) & 0x02 == 0 && ((df
        * 4 + t) as u8) & 0x01 == t) by (bit_vector)
        requires
            df <= 3,
            t <= 1,
    ;
    assert(le16(s[4], s[5]) == delay);
}

/// Law: the signature, screen descriptor, and global palette written by the
/// encoder parse back to the same width, height, background index, and
/// palette bytes, whatever follows them in the stream.
pub proof fn lemma_header_round_trip(
    width: u16,
    height: u16,
    background_index: u8,
    palette: Seq<[u8; 3]>,
    loop_count: Option<u16>,
    tail: Seq<u8>,
)
    requires
        palette_size_ok(palette.len()),
    ensures
        ({
            let s = header_bytes(width, height, background_index, Some(palette), loop_count)
                + tail;
            &&& gif_parse_ok(s)
            &&& le16(s[6], s[7]) == width
            &&& le16(s[8], s[9]) == height
            &&& s[11] == background_index
            &&& s[12] == 0u8
            &&& color_table_len(s[10]) == 3 * palette.len()
            &&& s.subrange(13, 13 + 3 * palette.len() as int) == flat_palette(palette)
            &&& blocks_start(s) == 13 + 3 * palette.len()
        }),
{
    lemma_flat_palette_len(palette);
    lemma_palette_size_round_trip(palette.len());
    let packed = lsd_packed_field(Some(palette));
    let head = gif_signature() + u16_le_bytes(width) + u16_le_bytes(height) + seq![
        packed,
        background_index,
        0u8,
    ];
    let h = header_bytes(width, height, background_index, Some(palette), loop_count);
    let lc = match loop_count {
        Some(c) => crate::encoder::netscape_loop_bytes(c),
        None => Seq::<u8>::empty(),
    };
    assert(h =~= head + flat_palette(palette) + lc);
    assert(head.len() == 13);
    let s = h + tail;
    assert(s.len() >= 13 + 3 * palette.len());
    assert forall|k: int| 0 <= k < 13 implies s[k] == head[k] by {
        assert(h[k] == head[k]);
    }
    assert(signature_ok(s));
    assert(s[10] == packed);
    assert(color_table_len(s[10]) == 3 * palette.len());
    assert(le16(s[6], s[7]) == width);
    assert(le16(s[8], s[9]) == height);
    assert forall|k: int| 0 <= k < 3 * palette.len() implies s.subrange(
        13,
        13 + 3 * palette.len() as int,
    )[k] == flat_palette(palette)[k] by {
        assert(s[13 + k] == h[13 + k]);
        assert(h[13 + k] == flat_palette(palette)[k]);
    }
    assert(s.subrange(13, 13 + 3 * palette.len() as int) =~= flat_palette(palette));
}

} // verus!
