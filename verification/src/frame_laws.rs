//! What a frame is read as, sample by sample.

use vstd::prelude::*;

verus! {

use vstd::arithmetic::div_mod::lemma_fundamental_div_mod_converse;

use crate::frame::{Rgb48Frame, RgbFrame, RgbFrameError, pixel_start};
use crate::text::decimal;

/// A plane makes a frame exactly if there are rows and columns, a row of
/// pixels fits into the stride, and the rows fit into the plane; the frame
/// then carries what it was made of.
pub proof fn law_frame_fits<'a>(
    plane: &'a [u8],
    width: u32,
    height: u32,
    stride: u32,
    r: Result<RgbFrame<'a>, RgbFrameError>,
)
    requires
        call_ensures(RgbFrame::try_new, (plane, width, height, stride), r),
        plane@.len() <= usize::MAX,
    ensures
        r is Ok <==> width >= 1 && height >= 1 && 3 * width <= stride && stride * height
            <= plane@.len(),
        r matches Ok(f) ==> f.plane() == plane@ && f.geometry() == (width, height, stride),
        r matches Err(e) ==> fault_is_true(e, plane@.len(), width, height, stride),
{
    lemma_fault(plane@.len(), width, height, stride);
}

/// As [`law_frame_fits`], for sixteen-bit planes.
pub proof fn law_rgb48_frame_fits<'a>(
    plane: &'a [u16],
    width: u32,
    height: u32,
    stride: u32,
    r: Result<Rgb48Frame<'a>, RgbFrameError>,
)
    requires
        call_ensures(Rgb48Frame::try_new, (plane, width, height, stride), r),
        plane@.len() <= usize::MAX,
    ensures
        r is Ok <==> width >= 1 && height >= 1 && 3 * width <= stride && stride * height
            <= plane@.len(),
        r matches Ok(f) ==> f.plane() == plane@ && f.geometry() == (width, height, stride),
        r matches Err(e) ==> fault_is_true(e, plane@.len(), width, height, stride),
{
    lemma_fault(plane@.len(), width, height, stride);
}

/// Whether the error says what is true of the plane, and nothing that it
/// takes for granted is amiss.
pub open spec fn fault_is_true(
    e: RgbFrameError,
    len: nat,
    width: u32,
    height: u32,
    stride: u32,
) -> bool {
    let sized = width > 0 && height > 0;
    match e {
        RgbFrameError::ZeroDimension { width: w, height: h } => {
            &&& w == width && h == height
            &&& w == 0 || h == 0
        },
        RgbFrameError::WidthOverflow { width: w } => {
            &&& sized
            &&& w == width
            &&& w > 0x5555_5555
        },
        RgbFrameError::StrideTooSmall { min_stride, stride: s } => {
            &&& sized
            &&& s == stride
            &&& min_stride == 3 * width
            &&& s < min_stride
        },
        RgbFrameError::GeometryOverflow { stride: s, rows } => {
            &&& sized
            &&& s == stride && rows == height
            &&& s >= 3 * width
            &&& s * rows > usize::MAX
        },
        RgbFrameError::PlaneTooShort { expected, actual } => {
            &&& sized
            &&& stride >= 3 * width
            &&& expected == stride * height
            &&& actual == len
            &&& actual < expected
        },
    }
}

proof fn lemma_fault(len: nat, width: u32, height: u32, stride: u32)
    requires
        len <= usize::MAX,
    ensures
        crate::frame::frame_fault(len, width, height, stride) is None <==> width >= 1 && height >= 1
            && 3 * width <= stride && stride * height <= len,
        crate::frame::frame_fault(len, width, height, stride) matches Some(e) ==> fault_is_true(
            e,
            len,
            width,
            height,
            stride,
        ),
{
    assert(stride * height >= 0) by (nonlinear_arith)
        requires
            stride >= 0,
            height >= 0,
    ;
}

proof fn lemma_place(width: u32, height: u32, stride: u32, row: int, col: int)
    requires
        0 <= row < height,
        0 <= col < width,
    ensures
        pixel_start(width, stride, row * width + col) == row * stride + 3 * col,
        0 <= row * width + col < width * height,
{
    lemma_fundamental_div_mod_converse(row * width + col, width as int, row, col);
    assert(0 <= row * width && row * width + width <= width * height) by (nonlinear_arith)
        requires
            0 <= row < height,
            width >= 0,
    ;
}

/// Every pixel of an eight-bit frame is read from its place: rows start a
/// stride apart, pixels three samples apart, and nothing else is read.
pub proof fn law_pixels_are_read_in_place<'a>(
    plane: &'a [u8],
    width: u32,
    height: u32,
    stride: u32,
    frame: RgbFrame<'a>,
    out: Vec<[u8; 3]>,
    row: int,
    col: int,
)
    requires
        call_ensures(RgbFrame::try_new, (plane, width, height, stride), Ok(frame)),
        call_ensures(RgbFrame::pixels, (&frame,), out),
        0 <= row < height,
        0 <= col < width,
    ensures
        out@.len() == width * height,
        out@[row * width + col][0] == plane@[row * stride + 3 * col],
        out@[row * width + col][1] == plane@[row * stride + 3 * col + 1],
        out@[row * width + col][2] == plane@[row * stride + 3 * col + 2],
{
    lemma_place(width, height, stride, row, col);
}

/// Every channel of a sixteen-bit frame's pixel is the upper byte of the
/// sample at its place.
pub proof fn law_samples_are_read_by_their_upper_byte<'a>(
    plane: &'a [u16],
    width: u32,
    height: u32,
    stride: u32,
    frame: Rgb48Frame<'a>,
    out: Vec<[u8; 3]>,
    row: int,
    col: int,
    channel: int,
)
    requires
        call_ensures(Rgb48Frame::try_new, (plane, width, height, stride), Ok(frame)),
        call_ensures(Rgb48Frame::pixels, (&frame,), out),
        0 <= row < height,
        0 <= col < width,
        0 <= channel < 3,
    ensures
        out@.len() == width * height,
        256 * out@[row * width + col][channel] <= plane@[row * stride + 3 * col + channel] < 256 * (
        out@[row * width + col][channel] + 1),
{
    lemma_place(width, height, stride, row, col);
    let v = plane@[row * stride + 3 * col + channel];
    assert(v / 256 < 256);
    assert((v / 256) as u8 == v / 256);
}

/// A sixteen-bit frame that holds `256 * v + x` where an eight-bit frame
/// holds `v`, for any `x` below 256, has the same pixels.
pub proof fn law_widening_keeps_the_pixels<'a>(
    plane: &'a [u8],
    wide: &'a [u16],
    width: u32,
    height: u32,
    stride: u32,
    frame: RgbFrame<'a>,
    wide_frame: Rgb48Frame<'a>,
    out: Vec<[u8; 3]>,
    wide_out: Vec<[u8; 3]>,
)
    requires
        call_ensures(RgbFrame::try_new, (plane, width, height, stride), Ok(frame)),
        call_ensures(Rgb48Frame::try_new, (wide, width, height, stride), Ok(wide_frame)),
        call_ensures(RgbFrame::pixels, (&frame,), out),
        call_ensures(Rgb48Frame::pixels, (&wide_frame,), wide_out),
        plane@.len() == wide@.len(),
        forall|i: int|
            0 <= i < wide@.len() ==> 256 * plane@[i] <= #[trigger] wide@[i] < 256 * plane@[i] + 256,
    ensures
        out@ == wide_out@,
{
    assert forall|i: int| 0 <= i < wide@.len() implies crate::frame::narrowed(#[trigger] wide@[i])
        == plane@[i] by {
        assert(256 * plane@[i] <= wide@[i] < 256 * plane@[i] + 256);
        assert(wide@[i] / 256 == plane@[i]);
    }
    crate::frame::law_widened_frame_is_the_same_image(frame, wide_frame);
}

/// The message of an error: the numbers at fault stand in it in decimal, each
/// at its place.
pub proof fn law_message_tells_the_numbers(e: RgbFrameError, s: String)
    requires
        call_ensures(RgbFrameError::to_string, (&e,), s),
    ensures
        e matches RgbFrameError::ZeroDimension { width, height } ==> s@ == "width ("@ + decimal(
            width as nat,
        ) + ") or height ("@ + decimal(height as nat) + ") is zero"@,
        e matches RgbFrameError::StrideTooSmall { min_stride, stride } ==> s@ == "stride ("@
            + decimal(stride as nat) + ") is smaller than 3 * width ("@ + decimal(min_stride as nat)
            + ")"@,
        e matches RgbFrameError::PlaneTooShort { expected, actual } ==> s@ == "RGB plane has "@
            + decimal(actual as nat) + " bytes but at least "@ + decimal(expected as nat)
            + " are required"@,
        e matches RgbFrameError::GeometryOverflow { stride, rows } ==> s@
            == "declared geometry overflows usize: stride="@ + decimal(stride as nat)
            + " * rows="@ + decimal(rows as nat),
        e matches RgbFrameError::WidthOverflow { width } ==> s@ == "3 * width overflows u32 ("@
            + decimal(width as nat) + " too large)"@,
{
    reveal_strlit("");
}

} // verus!
