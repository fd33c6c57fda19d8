//! Validated borrows of packed RGB frames.

use vstd::prelude::*;

verus! {

use vstd::arithmetic::div_mod::lemma_fundamental_div_mod_converse;

use crate::text::{decimal, decimal_string};

/// Why a plane makes no frame.
#[derive(Clone, Copy, Debug, PartialEq, Eq, Hash, Structural)]
#[non_exhaustive]
pub enum RgbFrameError {
    /// `width` or `height` is zero.
    ZeroDimension { width: u32, height: u32 },
    /// `stride` is below three times the width.
    StrideTooSmall { min_stride: u32, stride: u32 },
    /// The plane is shorter than `stride * height` elements.
    PlaneTooShort { expected: usize, actual: usize },
    /// `stride * height` exceeds `usize`.
    GeometryOverflow { stride: u32, rows: u32 },
    /// Three times the width exceeds `u32`.
    WidthOverflow { width: u32 },
}

/// A text with two numbers in it.
pub open spec fn with_numbers(
    head: Seq<char>,
    one: nat,
    middle: Seq<char>,
    other: nat,
    tail: Seq<char>,
) -> Seq<char> {
    head + decimal(one) + middle + decimal(other) + tail
}

fn write_numbers(head: &str, one: u64, middle: &str, other: u64, tail: &str) -> (s: String)
    ensures
        s@ == with_numbers(head@, one as nat, middle@, other as nat, tail@),
{
    let mut s: String = head.to_owned();
    s.append(decimal_string(one).as_str());
    s.append(middle);
    s.append(decimal_string(other).as_str());
    s.append(tail);
    s
}

impl RgbFrameError {
    /// The message: what is wrong, with the numbers at fault.
    pub open spec fn message(self) -> Seq<char> {
        match self {
            RgbFrameError::ZeroDimension { width, height } => with_numbers(
                "width ("@,
                width as nat,
                ") or height ("@,
                height as nat,
                ") is zero"@,
            ),
            RgbFrameError::StrideTooSmall { min_stride, stride } => with_numbers(
                "stride ("@,
                stride as nat,
                ") is smaller than 3 * width ("@,
                min_stride as nat,
                ")"@,
            ),
            RgbFrameError::PlaneTooShort { expected, actual } => with_numbers(
                "RGB plane has "@,
                actual as nat,
                " bytes but at least "@,
                expected as nat,
                " are required"@,
            ),
            RgbFrameError::GeometryOverflow { stride, rows } => with_numbers(
                "declared geometry overflows usize: stride="@,
                stride as nat,
                " * rows="@,
                rows as nat,
                ""@,
            ),
            RgbFrameError::WidthOverflow { width } => "3 * width overflows u32 ("@ + decimal(
                width as nat,
            ) + " too large)"@,
        }
    }

    /// The message: what is wrong, with the numbers at fault.
    pub fn to_string(&self) -> (s: String)
        ensures
            s@ == self.message(),
    {
        match *self {
            RgbFrameError::ZeroDimension { width, height } => write_numbers(
                "width (",
                width as u64,
                ") or height (",
                height as u64,
                ") is zero",
            ),
            RgbFrameError::StrideTooSmall { min_stride, stride } => write_numbers(
                "stride (",
                stride as u64,
                ") is smaller than 3 * width (",
                min_stride as u64,
                ")",
            ),
            RgbFrameError::PlaneTooShort { expected, actual } => write_numbers(
                "RGB plane has ",
                actual as u64,
                " bytes but at least ",
                expected as u64,
                " are required",
            ),
            RgbFrameError::GeometryOverflow { stride, rows } => write_numbers(
                "declared geometry overflows usize: stride=",
                stride as u64,
                " * rows=",
                rows as u64,
                "",
            ),
            RgbFrameError::WidthOverflow { width } => {
                let mut s: String = "3 * width overflows u32 (".to_owned();
                s.append(decimal_string(width as u64).as_str());
                s.append(" too large)");
                s
            },
        }
    }
}

/// What is wrong with a plane of `len` elements as a frame of the given
/// geometry: the first fault in this order, or `None`.
pub open spec fn frame_fault(len: nat, width: u32, height: u32, stride: u32) -> Option<
    RgbFrameError,
> {
    if width == 0 || height == 0 {
        Some(RgbFrameError::ZeroDimension { width, height })
    } else if 3 * width > u32::MAX {
        Some(RgbFrameError::WidthOverflow { width })
    } else if stride < 3 * width {
        Some(RgbFrameError::StrideTooSmall { min_stride: (3 * width) as u32, stride })
    } else if stride * height > usize::MAX {
        Some(RgbFrameError::GeometryOverflow { stride, rows: height })
    } else if len < stride * height {
        Some(
            RgbFrameError::PlaneTooShort {
                expected: (stride * height) as usize,
                actual: len as usize,
            },
        )
    } else {
        None
    }
}

/// Where the first channel of pixel `k` stands, pixels counted row by row.
pub open spec fn pixel_start(width: u32, stride: u32, k: int) -> int {
    (k / width as int) * stride + 3 * (k % width as int)
}

fn check_geometry(len: usize, width: u32, height: u32, stride: u32) -> (fault: Option<
    RgbFrameError,
>)
    ensures
        fault == frame_fault(len as nat, width, height, stride),
{
    if width == 0 || height == 0 {
        return Some(RgbFrameError::ZeroDimension { width, height });
    }
    let min_stride: u32 = match width.checked_mul(3) {
        Some(v) => v,
        None => {
            return Some(RgbFrameError::WidthOverflow { width });
        },
    };
    if stride < min_stride {
        return Some(RgbFrameError::StrideTooSmall { min_stride, stride });
    }
    let expected: usize = match (stride as usize).checked_mul(height as usize) {
        Some(v) => v,
        None => {
            return Some(RgbFrameError::GeometryOverflow { stride, rows: height });
        },
    };
    if len < expected {
        return Some(RgbFrameError::PlaneTooShort { expected, actual: len });
    }
    None
}

/// Pixel `row * width + col` starts at `row * stride + 3 * col`, and lies in
/// the plane.
proof fn lemma_pixel_start(width: u32, height: u32, stride: u32, row: int, col: int)
    requires
        0 <= row < height,
        0 <= col < width,
        3 * width <= stride,
    ensures
        pixel_start(width, stride, row * width + col) == row * stride + 3 * col,
        0 <= row * stride,
        row * stride + 3 * col + 3 <= stride * height,
        0 <= row * width + col < width * height,
{
    lemma_fundamental_div_mod_converse(row * width + col, width as int, row, col);
    assert(row * stride + stride <= stride * height && 0 <= row * stride) by (nonlinear_arith)
        requires
            0 <= row < height,
            stride >= 0,
    ;
    assert(0 <= row * width && row * width + width <= width * height) by (nonlinear_arith)
        requires
            0 <= row < height,
            width >= 0,
    ;
}

/// A frame of packed eight-bit pixels, three bytes each in the order red,
/// green, blue. Rows start `stride` bytes apart; what lies between the end of
/// a row and the start of the next is no part of the image.
#[derive(Clone, Copy, Debug)]
pub struct RgbFrame<'a> {
    rgb: &'a [u8],
    width: u32,
    height: u32,
    stride: u32,
}

impl<'a> RgbFrame<'a> {
    /// The plane.
    pub closed spec fn plane(&self) -> Seq<u8> {
        self.rgb@
    }

    /// Width, height and stride.
    pub closed spec fn geometry(&self) -> (u32, u32, u32) {
        (self.width, self.height, self.stride)
    }

    /// Whether the plane fits the geometry.
    pub open spec fn wf(&self) -> bool {
        frame_fault(
            self.plane().len(),
            self.geometry().0,
            self.geometry().1,
            self.geometry().2,
        ) is None
    }

    /// The pixels, row by row.
    pub open spec fn image(&self) -> Seq<[u8; 3]> {
        let (width, height, stride) = self.geometry();
        Seq::new(
            (width * height) as nat,
            |k: int|
                [
                    self.plane()[pixel_start(width, stride, k)],
                    self.plane()[pixel_start(width, stride, k) + 1],
                    self.plane()[pixel_start(width, stride, k) + 2],
                ],
        )
    }

    /// Borrows `rgb` as a frame, if it fits the geometry.
    pub fn try_new(rgb: &'a [u8], width: u32, height: u32, stride: u32) -> (r: Result<
        RgbFrame<'a>,
        RgbFrameError,
    >)
        ensures
            r matches Err(e) ==> frame_fault(rgb@.len(), width, height, stride) == Some(e),
            r matches Ok(f) ==> f.wf() && f.plane() == rgb@ && f.geometry() == (
                width,
                height,
                stride,
            ),
            r is Ok <==> frame_fault(rgb@.len(), width, height, stride) is None,
    {
        match check_geometry(rgb.len(), width, height, stride) {
            Some(e) => Err(e),
            None => Ok(RgbFrame { rgb, width, height, stride }),
        }
    }

    /// The plane.
    pub fn rgb(&self) -> (r: &'a [u8])
        ensures
            r@ == self.plane(),
    {
        self.rgb
    }

    /// Pixels per row.
    pub fn width(&self) -> (r: u32)
        ensures
            r == self.geometry().0,
    {
        self.width
    }

    /// Rows.
    pub fn height(&self) -> (r: u32)
        ensures
            r == self.geometry().1,
    {
        self.height
    }

    /// Bytes from one row's start to the next.
    pub fn stride(&self) -> (r: u32)
        ensures
            r == self.geometry().2,
    {
        self.stride
    }

    /// The pixels, row by row.
    pub fn pixels(&self) -> (out: Vec<[u8; 3]>)
        requires
            self.wf(),
        ensures
            out@ == self.image(),
    {
        let mut out: Vec<[u8; 3]> = Vec::new();
        let mut row: u32 = 0;
        while row < self.height
            invariant
                self.wf(),
                row <= self.height,
                out@ == self.image().take(row * self.width),
            decreases self.height - row,
        {
            let mut col: u32 = 0;
            proof {
                lemma_pixel_start(self.width, self.height, self.stride, row as int, 0);
            }
            let start: usize = row as usize * self.stride as usize;
            while col < self.width
                invariant
                    self.wf(),
                    row < self.height,
                    col <= self.width,
                    start == row * self.stride,
                    out@ == self.image().take(row * self.width + col),
                decreases self.width - col,
            {
                proof {
                    lemma_pixel_start(
                        self.width,
                        self.height,
                        self.stride,
                        row as int,
                        col as int,
                    );
                }
                let at: usize = start + 3 * col as usize;
                let p: [u8; 3] = [self.rgb[at], self.rgb[at + 1], self.rgb[at + 2]];
                proof {
                    assert(p =~= self.image()[row * self.width + col]);
                }
                out.push(p);
                col += 1;
                assert(out@ =~= self.image().take(row * self.width + col));
            }
            proof {
                assert(row * self.width + self.width == (row + 1) * self.width)
                    by (nonlinear_arith);
            }
            row += 1;
        }
        proof {
            assert(row * self.width == self.width * self.height) by (nonlinear_arith)
                requires
                    row == self.height,
            ;
            assert(self.image().take(row * self.width) =~= self.image());
        }
        out
    }
}

/// A frame of packed sixteen-bit pixels, three elements each in the order
/// red, green, blue. Plane length and stride count elements, not bytes.
#[derive(Clone, Copy, Debug)]
pub struct Rgb48Frame<'a> {
    rgb16: &'a [u16],
    width: u32,
    height: u32,
    stride: u32,
}

/// A sixteen-bit channel as a byte: its upper half.
pub open spec fn narrowed(v: u16) -> u8 {
    (v / 256) as u8
}

fn narrow(v: u16) -> (b: u8)
    ensures
        b == narrowed(v),
{
    assert(v >> 8 == v / 256) by (bit_vector);
    (v >> 8) as u8
}

impl<'a> Rgb48Frame<'a> {
    /// The plane.
    pub closed spec fn plane(&self) -> Seq<u16> {
        self.rgb16@
    }

    /// Width, height and stride.
    pub closed spec fn geometry(&self) -> (u32, u32, u32) {
        (self.width, self.height, self.stride)
    }

    /// Whether the plane fits the geometry.
    pub open spec fn wf(&self) -> bool {
        frame_fault(
            self.plane().len(),
            self.geometry().0,
            self.geometry().1,
            self.geometry().2,
        ) is None
    }

    /// The pixels, row by row, each channel narrowed to a byte.
    pub open spec fn image(&self) -> Seq<[u8; 3]> {
        let (width, height, stride) = self.geometry();
        Seq::new(
            (width * height) as nat,
            |k: int|
                [
                    narrowed(self.plane()[pixel_start(width, stride, k)]),
                    narrowed(self.plane()[pixel_start(width, stride, k) + 1]),
                    narrowed(self.plane()[pixel_start(width, stride, k) + 2]),
                ],
        )
    }

    /// Borrows `rgb16` as a frame, if it fits the geometry.
    pub fn try_new(rgb16: &'a [u16], width: u32, height: u32, stride: u32) -> (r: Result<
        Rgb48Frame<'a>,
        RgbFrameError,
    >)
        ensures
            r matches Err(e) ==> frame_fault(rgb16@.len(), width, height, stride) == Some(e),
            r matches Ok(f) ==> f.wf() && f.plane() == rgb16@ && f.geometry() == (
                width,
                height,
                stride,
            ),
            r is Ok <==> frame_fault(rgb16@.len(), width, height, stride) is None,
    {
        match check_geometry(rgb16.len(), width, height, stride) {
            Some(e) => Err(e),
            None => Ok(Rgb48Frame { rgb16, width, height, stride }),
        }
    }

    /// The plane.
    pub fn rgb16(&self) -> (r: &'a [u16])
        ensures
            r@ == self.plane(),
    {
        self.rgb16
    }

    /// Pixels per row.
    pub fn width(&self) -> (r: u32)
        ensures
            r == self.geometry().0,
    {
        self.width
    }

    /// Rows.
    pub fn height(&self) -> (r: u32)
        ensures
            r == self.geometry().1,
    {
        self.height
    }

    /// Elements from one row's start to the next.
    pub fn stride(&self) -> (r: u32)
        ensures
            r == self.geometry().2,
    {
        self.stride
    }

    /// The pixels, row by row, each channel narrowed to a byte.
    pub fn pixels(&self) -> (out: Vec<[u8; 3]>)
        requires
            self.wf(),
        ensures
            out@ == self.image(),
    {
        let mut out: Vec<[u8; 3]> = Vec::new();
        let mut row: u32 = 0;
        while row < self.height
            invariant
                self.wf(),
                row <= self.height,
                out@ == self.image().take(row * self.width),
            decreases self.height - row,
        {
            let mut col: u32 = 0;
            proof {
                lemma_pixel_start(self.width, self.height, self.stride, row as int, 0);
            }
            let start: usize = row as usize * self.stride as usize;
            while col < self.width
                invariant
                    self.wf(),
                    row < self.height,
                    col <= self.width,
                    start == row * self.stride,
                    out@ == self.image().take(row * self.width + col),
                decreases self.width - col,
            {
                proof {
                    lemma_pixel_start(
                        self.width,
                        self.height,
                        self.stride,
                        row as int,
                        col as int,
                    );
                }
                let at: usize = start + 3 * col as usize;
                let p: [u8; 3] = [
                    narrow(self.rgb16[at]),
                    narrow(self.rgb16[at + 1]),
                    narrow(self.rgb16[at + 2]),
                ];
                proof {
                    assert(p =~= self.image()[row * self.width + col]);
                }
                out.push(p);
                col += 1;
                assert(out@ =~= self.image().take(row * self.width + col));
            }
            proof {
                assert(row * self.width + self.width == (row + 1) * self.width)
                    by (nonlinear_arith);
            }
            row += 1;
        }
        proof {
            assert(row * self.width == self.width * self.height) by (nonlinear_arith)
                requires
                    row == self.height,
            ;
            assert(self.image().take(row * self.width) =~= self.image());
        }
        out
    }
}

/// Bytes between a row's last pixel and the next row's start never show: two
/// frames of one geometry whose planes agree on the pixels are one image.
pub proof fn law_padding_is_ignored(one: RgbFrame<'_>, other: RgbFrame<'_>)
    requires
        one.wf(),
        other.wf(),
        one.geometry() == other.geometry(),
        forall|row: int, x: int|
            0 <= row < one.geometry().1 && 0 <= x < 3 * one.geometry().0
                ==> #[trigger] one.plane()[row * one.geometry().2 + x] == other.plane()[row
                * one.geometry().2 + x],
    ensures
        one.image() == other.image(),
{
    let (width, height, stride) = one.geometry();
    assert forall|k: int| 0 <= k < one.image().len() implies one.image()[k]
        == other.image()[k] by {
        let row = k / width as int;
        let col = k % width as int;
        vstd::arithmetic::div_mod::lemma_fundamental_div_mod(k, width as int);
        assert(0 <= row < height) by (nonlinear_arith)
            requires
                0 <= k < width * height,
                k == width * row + col,
                0 <= col < width,
        ;
        let s = pixel_start(width, stride, k);
        assert(s == row * stride + 3 * col);
        assert(one.plane()[row * stride + (3 * col)] == other.plane()[row * stride + (3 * col)]);
        assert(one.plane()[row * stride + (3 * col + 1)] == other.plane()[row * stride + (3 * col
            + 1)]);
        assert(one.plane()[row * stride + (3 * col + 2)] == other.plane()[row * stride + (3 * col
            + 2)]);
        assert(one.image()[k] =~= other.image()[k]);
    }
    assert(one.image() =~= other.image());
}

/// A byte frame widened to sixteen bits, each channel moved to the upper half
/// and anything below it, is the same image.
pub proof fn law_widened_frame_is_the_same_image(narrow: RgbFrame<'_>, wide: Rgb48Frame<'_>)
    requires
        narrow.wf(),
        wide.wf(),
        narrow.geometry() == wide.geometry(),
        narrow.plane().len() == wide.plane().len(),
        forall|i: int|
            0 <= i < wide.plane().len() ==> narrowed(#[trigger] wide.plane()[i])
                == narrow.plane()[i],
    ensures
        narrow.image() == wide.image(),
{
    let (width, height, stride) = narrow.geometry();
    assert forall|k: int| 0 <= k < narrow.image().len() implies narrow.image()[k]
        == wide.image()[k] by {
        let row = k / width as int;
        let col = k % width as int;
        vstd::arithmetic::div_mod::lemma_fundamental_div_mod(k, width as int);
        assert(0 <= row < height) by (nonlinear_arith)
            requires
                0 <= k < width * height,
                k == width * row + col,
                0 <= col < width,
        ;
        assert(row * width + col == k) by (nonlinear_arith)
            requires
                k == width * row + col,
        ;
        lemma_pixel_start(width, height, stride, row, col);
        let s = pixel_start(width, stride, k);
        assert(narrowed(wide.plane()[s]) == narrow.plane()[s]);
        assert(narrowed(wide.plane()[s + 1]) == narrow.plane()[s + 1]);
        assert(narrowed(wide.plane()[s + 2]) == narrow.plane()[s + 2]);
        assert(narrow.image()[k] =~= wide.image()[k]);
    }
    assert(narrow.image() =~= wide.image());
}

} // verus!
