//! The conversion of BGRx video frames to grey: to BGRx frames whose three
//! colours are the grey value, or to frames of one grey byte per pixel.
//!
//! A frame is a run of lines. Each line takes `stride` bytes of the data, of
//! which the first ones hold the pixels and the rest is padding that the
//! conversion neither reads nor writes. A last line may be shorter than the
//! stride, as long as it holds its pixels.

use vstd::arithmetic::div_mod::*;
use vstd::prelude::*;

verus! {

/// The weight of red in the grey value, in 65536ths (0.299).
pub const R_Y: u32 = 19595;

/// The weight of green in the grey value, in 65536ths (0.587).
pub const G_Y: u32 = 38470;

/// The weight of blue in the grey value, in 65536ths (0.114).
pub const B_Y: u32 = 7471;

/// The number of grey steps that the converter starts with.
pub const DEFAULT_STEPS: u32 = 256;

/// What the user of the converter can set.
#[derive(Clone, Copy, Debug)]
pub struct Settings {
    /// The number of grey steps to use, from 1 to 256.
    pub steps: u32,
}

impl Default for Settings {
    fn default() -> (s: Settings)
        ensures
            s.steps == DEFAULT_STEPS,
    {
        Settings { steps: DEFAULT_STEPS }
    }
}

/// The layout of the frames that the conversion writes.
#[derive(Clone, Copy, Debug, PartialEq, Eq, Structural)]
pub enum OutputFormat {
    /// Four bytes per pixel: blue, green, red, and one that is not used.
    Bgrx,
    /// One grey byte per pixel.
    Gray8,
}

impl OutputFormat {
    /// The number of bytes that a pixel takes.
    pub open spec fn pixel_bytes(self) -> nat {
        match self {
            OutputFormat::Bgrx => 4,
            OutputFormat::Gray8 => 1,
        }
    }

    /// The number of bytes that a pixel takes.
    pub fn bytes_per_pixel(self) -> (n: usize)
        ensures
            n == self.pixel_bytes(),
    {
        match self {
            OutputFormat::Bgrx => 4,
            OutputFormat::Gray8 => 1,
        }
    }
}

/// The grey value of a colour: the weighted sum of red, green and blue,
/// rounded down.
pub open spec fn luma(b: u8, g: u8, r: u8) -> u8 {
    ((r * 19595 + g * 38470 + b * 7471) / 65536) as u8
}

/// The grey value of a colour.
pub fn grey(b: u8, g: u8, r: u8) -> (y: u8)
    ensures
        y == luma(b, g, r),
        y as int == (r * 19595 + g * 38470 + b * 7471) / 65536,
{
    let sum: u32 = (r as u32) * R_Y + (g as u32) * G_Y + (b as u32) * B_Y;
    (sum / 65536) as u8
}

/// The number of lines in `len` bytes of data: a rest that does not fill a
/// stride counts as a line.
pub open spec fn lines(len: nat, stride: nat) -> nat {
    if len % stride == 0 {
        len / stride
    } else {
        len / stride + 1
    }
}

/// The number of lines that the conversion works on: those that both frames
/// have.
pub open spec fn rows(in_len: nat, in_stride: nat, out_len: nat, out_stride: nat) -> nat {
    if lines(in_len, in_stride) <= lines(out_len, out_stride) {
        lines(in_len, in_stride)
    } else {
        lines(out_len, out_stride)
    }
}

/// Whether frames of these sizes can be converted: the strides are not
/// zero, the input (and BGRx output) is a whole number of pixels, both hold
/// the same number of full lines, a line of pixels fits its stride, and the
/// last line of each frame holds its pixels.
pub open spec fn convertible(
    in_len: nat,
    in_stride: nat,
    out_len: nat,
    out_stride: nat,
    width: nat,
    format: OutputFormat,
) -> bool {
    let n = rows(in_len, in_stride, out_len, out_stride);
    &&& in_stride > 0
    &&& out_stride > 0
    &&& in_len % 4 == 0
    &&& format is Bgrx ==> out_len % 4 == 0
    &&& out_len / out_stride == in_len / in_stride
    &&& width * 4 <= in_stride
    &&& width * format.pixel_bytes() <= out_stride
    &&& n > 0 ==> (n - 1) * in_stride + width * 4 <= in_len
    &&& n > 0 ==> (n - 1) * out_stride + width * format.pixel_bytes() <= out_len
}

/// The byte at index `i` of the converted frame. Within the pixels of a
/// line that is worked on, it is the grey value of the pixel of the input at
/// the same place (for BGRx zero in the byte that is not used); everywhere
/// else it is the byte that was there.
pub open spec fn converted_byte(
    input: Seq<u8>,
    in_stride: nat,
    old_output: Seq<u8>,
    out_stride: nat,
    width: nat,
    format: OutputFormat,
    i: int,
) -> u8 {
    let y = i / out_stride as int;
    let c = i % out_stride as int;
    let bpp = format.pixel_bytes();
    if y < rows(input.len(), in_stride, old_output.len(), out_stride) && c < width * bpp {
        let at = y * in_stride + 4 * (c / bpp as int);
        if format is Bgrx && c % 4 == 3 {
            0
        } else {
            luma(input[at], input[at + 1], input[at + 2])
        }
    } else {
        old_output[i]
    }
}

/// The converted frame.
pub open spec fn converted(
    input: Seq<u8>,
    in_stride: nat,
    old_output: Seq<u8>,
    out_stride: nat,
    width: nat,
    format: OutputFormat,
) -> Seq<u8> {
    Seq::new(
        old_output.len(),
        |i: int| converted_byte(input, in_stride, old_output, out_stride, width, format, i),
    )
}

/// In line `y`, at offset `c` within the stride, the index is
/// `y * stride + c`.
pub proof fn lemma_index_in_line(y: nat, c: nat, stride: nat)
    requires
        c < stride,
    ensures
        (y * stride + c) as int / stride as int == y,
        (y * stride + c) as int % stride as int == c,
{
    lemma_fundamental_div_mod_converse((y * stride + c) as int, stride as int, y as int, c as int);
}

/// The index `i` lies in line `i / stride`, at offset `i % stride`.
pub proof fn lemma_line_of_index(i: nat, stride: nat)
    requires
        stride > 0,
    ensures
        i == (i / stride) * stride + i % stride,
        i % stride < stride,
{
    lemma_fundamental_div_mod(i as int, stride as int);
    lemma_mod_bound(i as int, stride as int);
    assert((i / stride) * stride == stride * (i / stride)) by (nonlinear_arith);
}

/// Whether frames of these sizes can be converted.
pub fn is_convertible(
    in_len: usize,
    in_stride: usize,
    out_len: usize,
    out_stride: usize,
    width: usize,
    format: OutputFormat,
) -> (r: bool)
    ensures
        r == convertible(
            in_len as nat,
            in_stride as nat,
            out_len as nat,
            out_stride as nat,
            width as nat,
            format,
        ),
{
    if in_stride == 0 || out_stride == 0 {
        return false;
    }
    let bpp: usize = format.bytes_per_pixel();
    if in_len % 4 != 0 || (bpp == 4 && out_len % 4 != 0) {
        return false;
    }
    let full: usize = in_len / in_stride;
    if out_len / out_stride != full {
        return false;
    }
    let out_pixels: usize = match format {
        OutputFormat::Bgrx => out_stride / 4,
        OutputFormat::Gray8 => out_stride,
    };
    if width > in_stride / 4 || width > out_pixels {
        return false;
    }
    let n: usize = if in_len % in_stride != 0 && out_len % out_stride != 0 {
        proof {
            lemma_line_of_index(in_len as nat, in_stride as nat);
        }
        full + 1
    } else {
        full
    };
    assert(n == rows(in_len as nat, in_stride as nat, out_len as nat, out_stride as nat));
    if n == 0 {
        return true;
    }
    proof {
        lemma_line_of_index(in_len as nat, in_stride as nat);
        lemma_line_of_index(out_len as nat, out_stride as nat);
        assert((n - 1) * in_stride <= (in_len / in_stride) * in_stride && (n - 1) * out_stride <= (
        out_len / out_stride) * out_stride) by (nonlinear_arith)
            requires
                n - 1 <= in_len / in_stride,
                n - 1 <= out_len / out_stride,
        ;
    }
    let in_rest: usize = in_len - (n - 1) * in_stride;
    let out_rest: usize = out_len - (n - 1) * out_stride;
    width * 4 <= in_rest && width * bpp <= out_rest
}

/// Converts a BGRx frame to grey. `width` is the number of pixels in a line;
/// `input` holds the lines of the BGRx frame at every `in_stride` bytes, and
/// `output` those of the converted frame at every `out_stride` bytes, in the
/// given format. The bytes of `output` that hold no pixel stay as they are.
pub fn transform(
    input: &[u8],
    in_stride: usize,
    output: &mut Vec<u8>,
    out_stride: usize,
    width: usize,
    format: OutputFormat,
)
    requires
        convertible(
            input@.len(),
            in_stride as nat,
            old(output)@.len(),
            out_stride as nat,
            width as nat,
            format,
        ),
    ensures
        final(output)@ == converted(
            input@,
            in_stride as nat,
            old(output)@,
            out_stride as nat,
            width as nat,
            format,
        ),
{
    let ghost before = output@;
    let in_len: usize = input.len();
    let out_len: usize = output.len();
    let full: usize = in_len / in_stride;
    let n: usize = if in_len % in_stride != 0 && out_len % out_stride != 0 {
        proof {
            lemma_line_of_index(in_len as nat, in_stride as nat);
        }
        full + 1
    } else {
        full
    };
    let bpp: usize = format.bytes_per_pixel();
    assert(n == rows(in_len as nat, in_stride as nat, out_len as nat, out_stride as nat));
    let mut y: usize = 0;
    while y < n
        invariant
            y <= n,
            before.len() == out_len,
            output@.len() == out_len,
            input@.len() == in_len,
            bpp == format.pixel_bytes(),
            n == rows(in_len as nat, in_stride as nat, out_len as nat, out_stride as nat),
            convertible(
                in_len as nat,
                in_stride as nat,
                out_len as nat,
                out_stride as nat,
                width as nat,
                format,
            ),
            forall|i: int|
                0 <= i < out_len ==> output@[i] == (if i < y * out_stride {
                    converted_byte(
                        input@,
                        in_stride as nat,
                        before,
                        out_stride as nat,
                        width as nat,
                        format,
                        i,
                    )
                } else {
                    before[i]
                }),
        decreases n - y,
    {
        proof {
            assert(y * in_stride <= (n - 1) * in_stride && y * out_stride <= (n - 1) * out_stride)
                by (nonlinear_arith)
                requires
                    y <= n - 1,
            ;
        }
        let in_base: usize = y * in_stride;
        let out_base: usize = y * out_stride;
        let mut x: usize = 0;
        while x < width
            invariant
                x <= width,
                y < n,
                in_base == y * in_stride,
                out_base == y * out_stride,
                before.len() == out_len,
                output@.len() == out_len,
                input@.len() == in_len,
                bpp == format.pixel_bytes(),
                n == rows(in_len as nat, in_stride as nat, out_len as nat, out_stride as nat),
                in_base + width * 4 <= in_len,
                out_base + width * bpp <= out_len,
                convertible(
                    in_len as nat,
                    in_stride as nat,
                    out_len as nat,
                    out_stride as nat,
                    width as nat,
                    format,
                ),
                forall|i: int|
                    0 <= i < out_len ==> output@[i] == (if i < out_base + x * bpp {
                        converted_byte(
                            input@,
                            in_stride as nat,
                            before,
                            out_stride as nat,
                            width as nat,
                            format,
                            i,
                        )
                    } else {
                        before[i]
                    }),
            decreases width - x,
        {
            let at: usize = in_base + 4 * x;
            let v: u8 = grey(input[at], input[at + 1], input[at + 2]);
            match format {
                OutputFormat::Bgrx => {
                    let o: usize = out_base + 4 * x;
                    proof {
                        lemma_index_in_line(y as nat, (4 * x) as nat, out_stride as nat);
                        lemma_index_in_line(y as nat, (4 * x + 1) as nat, out_stride as nat);
                        lemma_index_in_line(y as nat, (4 * x + 2) as nat, out_stride as nat);
                        lemma_index_in_line(y as nat, (4 * x + 3) as nat, out_stride as nat);
                    }
                    output.set(o, v);
                    output.set(o + 1, v);
                    output.set(o + 2, v);
                    output.set(o + 3, 0);
                },
                OutputFormat::Gray8 => {
                    let o: usize = out_base + x;
                    proof {
                        lemma_index_in_line(y as nat, x as nat, out_stride as nat);
                    }
                    output.set(o, v);
                },
            }
            x = x + 1;
        }
        proof {
            assert((y + 1) * out_stride == y * out_stride + out_stride) by (nonlinear_arith);
            assert forall|i: int| 0 <= i < out_len implies output@[i] == (if i < (y + 1)
                * out_stride {
                converted_byte(
                    input@,
                    in_stride as nat,
                    before,
                    out_stride as nat,
                    width as nat,
                    format,
                    i,
                )
            } else {
                before[i]
            }) by {
                if out_base + width * bpp <= i < (y + 1) * out_stride {
                    lemma_index_in_line(y as nat, (i - out_base) as nat, out_stride as nat);
                }
            }
        }
        y = y + 1;
    }
    proof {
        assert forall|i: int| 0 <= i < out_len implies output@[i] == converted_byte(
            input@,
            in_stride as nat,
            before,
            out_stride as nat,
            width as nat,
            format,
            i,
        ) by {
            if i >= n * out_stride {
                lemma_line_of_index(i as nat, out_stride as nat);
                let r = i / out_stride as int;
                assert(r >= n) by (nonlinear_arith)
                    requires
                        i == r * out_stride + i % (out_stride as int),
                        i % (out_stride as int) < out_stride,
                        i >= n * out_stride,
                        out_stride > 0,
                ;
            }
        }
        assert(output@ =~= converted(
            input@,
            in_stride as nat,
            before,
            out_stride as nat,
            width as nat,
            format,
        ));
    }
}

} // verus!
