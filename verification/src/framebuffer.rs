//! Pixels of the boot loader's linear framebuffer, and the white block the
//! kernel draws at boot to show that the framebuffer works.
use vstd::prelude::*;

verus! {

/// Byte layout of a pixel.
#[derive(Debug, Clone, Copy, PartialEq, Eq, Structural)]
pub enum PixelFormat {
    /// Red, green, blue bytes.
    Rgb,
    /// Blue, green, red bytes.
    Bgr,
    /// One grey byte.
    U8,
    /// Colour channels at the given bit offsets.
    Unknown { red_position: u8, green_position: u8, blue_position: u8 },
    /// Any format the boot loader adds later.
    Other,
}

/// Geometry of the framebuffer.
#[derive(Debug, Clone, Copy, PartialEq, Eq, Structural)]
pub struct FrameBufferInfo {
    pub byte_len: usize,
    pub width: usize,
    pub height: usize,
    pub pixel_format: PixelFormat,
    pub bytes_per_pixel: usize,
    pub stride: usize,
}

/// Width of the boot marker in pixels.
pub const MARKER_WIDTH: usize = 80;

/// Height of the boot marker in pixels.
pub const MARKER_HEIGHT: usize = 40;

/// Byte offset of pixel `(x, y)`.
pub open spec fn pixel_offset(info: FrameBufferInfo, x: int, y: int) -> int {
    y * info.stride * info.bytes_per_pixel + x * info.bytes_per_pixel
}

/// Pixels are written in this format (other formats are left alone).
pub open spec fn colored(info: FrameBufferInfo) -> bool {
    info.pixel_format == PixelFormat::Rgb || info.pixel_format == PixelFormat::Bgr
}

/// `(x, y)` lies on the screen.
pub open spec fn on_screen(info: FrameBufferInfo, x: int, y: int) -> bool {
    0 <= x < info.width && 0 <= y < info.height
}

/// Writing pixel `(x, y)` into a buffer of `len` bytes does not overflow
/// the offset computation nor index past the buffer.
pub open spec fn pixel_fits(info: FrameBufferInfo, len: int, x: int, y: int) -> bool {
    on_screen(info, x, y) ==> {
        &&& y * info.stride <= usize::MAX
        &&& y * info.stride * info.bytes_per_pixel <= usize::MAX
        &&& x * info.bytes_per_pixel <= usize::MAX
        &&& pixel_offset(info, x, y) <= usize::MAX
        &&& colored(info) ==> pixel_offset(info, x, y) + 3 <= len
    }
}

/// The buffer after writing colour `(r, g, b)` at `(x, y)`: off-screen
/// pixels and formats other than RGB and BGR leave it unchanged.
pub open spec fn with_pixel(
    buf: Seq<u8>,
    info: FrameBufferInfo,
    x: int,
    y: int,
    r: u8,
    g: u8,
    b: u8,
) -> Seq<u8> {
    let o = pixel_offset(info, x, y);
    if !on_screen(info, x, y) {
        buf
    } else if info.pixel_format == PixelFormat::Bgr {
        buf.update(o, b).update(o + 1, g).update(o + 2, r)
    } else if info.pixel_format == PixelFormat::Rgb {
        buf.update(o, r).update(o + 1, g).update(o + 2, b)
    } else {
        buf
    }
}

/// Writes colour `(r, g, b)` at pixel `(x, y)`.
pub fn write_pixel(
    buffer: &mut [u8],
    info: &FrameBufferInfo,
    x: usize,
    y: usize,
    r: u8,
    g: u8,
    b: u8,
)
    requires
        pixel_fits(*info, old(buffer)@.len() as int, x as int, y as int),
    ensures
        final(buffer)@ == with_pixel(old(buffer)@, *info, x as int, y as int, r, g, b),
{
    if x >= info.width || y >= info.height {
        return;
    }
    let offset = y * info.stride * info.bytes_per_pixel + x * info.bytes_per_pixel;
    match info.pixel_format {
        PixelFormat::Bgr => {
            buffer[offset] = b;
            buffer[offset + 1] = g;
            buffer[offset + 2] = r;
        },
        PixelFormat::Rgb => {
            buffer[offset] = r;
            buffer[offset + 1] = g;
            buffer[offset + 2] = b;
        },
        _ => {},
    }
    proof {
        assert(buffer@ =~= with_pixel(old(buffer)@, *info, x as int, y as int, r, g, b));
    }
}

/// Whether pixel `(x, y)` fits (see `pixel_fits`), computed without
/// overflow.
pub fn pixel_fits_check(info: &FrameBufferInfo, len: usize, x: usize, y: usize) -> (b: bool)
    ensures
        b == pixel_fits(*info, len as int, x as int, y as int),
{
    if x >= info.width || y >= info.height {
        return true;
    }
    let row = match y.checked_mul(info.stride) {
        Some(v) => v,
        None => {
            return false;
        },
    };
    let row_bytes = match row.checked_mul(info.bytes_per_pixel) {
        Some(v) => v,
        None => {
            return false;
        },
    };
    let col_bytes = match x.checked_mul(info.bytes_per_pixel) {
        Some(v) => v,
        None => {
            return false;
        },
    };
    let offset = match row_bytes.checked_add(col_bytes) {
        Some(v) => v,
        None => {
            return false;
        },
    };
    let is_colored = match info.pixel_format {
        PixelFormat::Rgb => true,
        PixelFormat::Bgr => true,
        _ => false,
    };
    if is_colored {
        offset <= len && len - offset >= 3
    } else {
        true
    }
}

/// Whether every pixel of the marker fits in a buffer of `len` bytes, which
/// `draw_hi_marker` needs.
pub fn marker_fits(info: &FrameBufferInfo, len: usize) -> (b: bool)
    ensures
        b == forall|x: int, y: int|
            0 <= x < MARKER_WIDTH && 0 <= y < MARKER_HEIGHT ==> #[trigger] pixel_fits(
                *info,
                len as int,
                x,
                y,
            ),
{
    let mut y: usize = 0;
    while y < MARKER_HEIGHT
        invariant
            y <= MARKER_HEIGHT,
            forall|x: int, y2: int|
                0 <= x < MARKER_WIDTH && 0 <= y2 < y ==> #[trigger] pixel_fits(
                    *info,
                    len as int,
                    x,
                    y2,
                ),
        decreases MARKER_HEIGHT - y,
    {
        let mut x: usize = 0;
        while x < MARKER_WIDTH
            invariant
                y < MARKER_HEIGHT,
                x <= MARKER_WIDTH,
                forall|x2: int, y2: int|
                    0 <= x2 < MARKER_WIDTH && 0 <= y2 < y ==> #[trigger] pixel_fits(
                        *info,
                        len as int,
                        x2,
                        y2,
                    ),
                forall|x2: int| 0 <= x2 < x ==> #[trigger] pixel_fits(*info, len as int, x2, y as int),
            decreases MARKER_WIDTH - x,
        {
            if !pixel_fits_check(info, len, x, y) {
                return false;
            }
            x = x + 1;
        }
        y = y + 1;
    }
    true
}

/// `(x, y)` is a pixel of the marker that is on the screen.
pub open spec fn in_marker(info: FrameBufferInfo, x: int, y: int) -> bool {
    0 <= x < MARKER_WIDTH && 0 <= y < MARKER_HEIGHT && on_screen(info, x, y)
}

/// Byte `i` belongs to pixel `(x, y)`.
pub open spec fn byte_of_pixel(info: FrameBufferInfo, i: int, x: int, y: int) -> bool {
    pixel_offset(info, x, y) <= i < pixel_offset(info, x, y) + 3
}

/// The three colour bytes of pixel `(x, y)` are `0xff`.
pub open spec fn pixel_white(buf: Seq<u8>, info: FrameBufferInfo, x: int, y: int) -> bool {
    let o = pixel_offset(info, x, y);
    buf[o] == 0xffu8 && buf[o + 1] == 0xffu8 && buf[o + 2] == 0xffu8
}

/// Pixel `(x, y)` comes before position `(x0, y0)` in row order.
pub open spec fn before(x: int, y: int, x0: int, y0: int) -> bool {
    y < y0 || (y == y0 && x < x0)
}

/// Draws the white marker block in the top-left corner: the colour bytes
/// of every marker pixel on the screen become `0xff`; every other byte is
/// kept. Formats other than RGB and BGR are left alone.
pub fn draw_hi_marker(buffer: &mut [u8], info: &FrameBufferInfo)
    requires
        forall|x: int, y: int|
            0 <= x < MARKER_WIDTH && 0 <= y < MARKER_HEIGHT ==> #[trigger] pixel_fits(
                *info,
                old(buffer)@.len() as int,
                x,
                y,
            ),
    ensures
        final(buffer)@.len() == old(buffer)@.len(),
        !colored(*info) ==> final(buffer)@ == old(buffer)@,
        colored(*info) ==> forall|x: int, y: int|
            in_marker(*info, x, y) ==> #[trigger] pixel_white(final(buffer)@, *info, x, y),
        colored(*info) ==> forall|i: int|
            0 <= i < old(buffer)@.len() && (forall|x: int, y: int|
                in_marker(*info, x, y) ==> !#[trigger] byte_of_pixel(*info, i, x, y))
                ==> final(buffer)@[i] == old(buffer)@[i],
{
    let ghost info_v = *info;
    let ghost len = old(buffer)@.len() as int;
    let mut y: usize = 0;
    while y < MARKER_HEIGHT
        invariant
            y <= MARKER_HEIGHT,
            info_v == *info,
            buffer@.len() == len,
            len == old(buffer)@.len(),
            forall|x: int, y: int|
                0 <= x < MARKER_WIDTH && 0 <= y < MARKER_HEIGHT ==> #[trigger] pixel_fits(
                    info_v,
                    len,
                    x,
                    y,
                ),
            !colored(info_v) ==> buffer@ == old(buffer)@,
            colored(info_v) ==> forall|x: int, y2: int|
                in_marker(info_v, x, y2) && before(x, y2, 0, y as int) ==> #[trigger] pixel_white(
                    buffer@,
                    info_v,
                    x,
                    y2,
                ),
            colored(info_v) ==> forall|i: int|
                0 <= i < len && (forall|x: int, y2: int|
                    in_marker(info_v, x, y2) && before(x, y2, 0, y as int) ==> !#[trigger] byte_of_pixel(
                        info_v,
                        i,
                        x,
                        y2,
                    )) ==> buffer@[i] == old(buffer)@[i],
        decreases MARKER_HEIGHT - y,
    {
        let mut x: usize = 0;
        while x < MARKER_WIDTH
            invariant
                y < MARKER_HEIGHT,
                x <= MARKER_WIDTH,
                info_v == *info,
                buffer@.len() == len,
                len == old(buffer)@.len(),
                forall|x: int, y: int|
                    0 <= x < MARKER_WIDTH && 0 <= y < MARKER_HEIGHT ==> #[trigger] pixel_fits(
                        info_v,
                        len,
                        x,
                        y,
                    ),
                !colored(info_v) ==> buffer@ == old(buffer)@,
                colored(info_v) ==> forall|x2: int, y2: int|
                    in_marker(info_v, x2, y2) && before(x2, y2, x as int, y as int)
                        ==> #[trigger] pixel_white(buffer@, info_v, x2, y2),
                colored(info_v) ==> forall|i: int|
                    0 <= i < len && (forall|x2: int, y2: int|
                        in_marker(info_v, x2, y2) && before(x2, y2, x as int, y as int)
                            ==> !#[trigger] byte_of_pixel(info_v, i, x2, y2)) ==> buffer@[i]
                        == old(buffer)@[i],
            decreases MARKER_WIDTH - x,
        {
            let ghost prev = buffer@;
            proof {
                assert(pixel_fits(info_v, len, x as int, y as int));
            }
            write_pixel(buffer, info, x, y, 0xff, 0xff, 0xff);
            proof {
                let o = pixel_offset(info_v, x as int, y as int);
                if colored(info_v) {
                    assert forall|x2: int, y2: int|
                        in_marker(info_v, x2, y2) && before(x2, y2, x + 1, y as int)
                        implies #[trigger] pixel_white(buffer@, info_v, x2, y2) by {
                        assert(pixel_fits(info_v, len, x2, y2));
                        if x2 != x || y2 != y {
                            assert(before(x2, y2, x as int, y as int));
                            assert(pixel_white(prev, info_v, x2, y2));
                        }
                    }
                    assert forall|i: int|
                        0 <= i < len && (forall|x2: int, y2: int|
                            in_marker(info_v, x2, y2) && before(x2, y2, x + 1, y as int)
                                ==> !#[trigger] byte_of_pixel(info_v, i, x2, y2)) implies buffer@[i]
                        == old(buffer)@[i] by {
                        if in_marker(info_v, x as int, y as int) {
                            assert(before(x as int, y as int, x + 1, y as int));
                            assert(!byte_of_pixel(info_v, i, x as int, y as int));
                        }
                        assert forall|x2: int, y2: int|
                            in_marker(info_v, x2, y2) && before(x2, y2, x as int, y as int)
                            implies !#[trigger] byte_of_pixel(info_v, i, x2, y2) by {
                            assert(before(x2, y2, x + 1, y as int));
                        }
                    }
                }
            }
            x = x + 1;
        }
        proof {
            if colored(info_v) {
                assert forall|x2: int, y2: int|
                    in_marker(info_v, x2, y2) && before(x2, y2, 0, y + 1)
                    implies #[trigger] pixel_white(buffer@, info_v, x2, y2) by {
                    assert(before(x2, y2, MARKER_WIDTH as int, y as int));
                }
                assert forall|i: int|
                    0 <= i < len && (forall|x2: int, y2: int|
                        in_marker(info_v, x2, y2) && before(x2, y2, 0, y + 1)
                            ==> !#[trigger] byte_of_pixel(info_v, i, x2, y2)) implies buffer@[i]
                    == old(buffer)@[i] by {
                    assert forall|x2: int, y2: int|
                        in_marker(info_v, x2, y2) && before(x2, y2, MARKER_WIDTH as int, y as int)
                        implies !#[trigger] byte_of_pixel(info_v, i, x2, y2) by {
                        assert(before(x2, y2, 0, y + 1));
                    }
                }
            }
        }
        y = y + 1;
    }
    proof {
        if colored(info_v) {
            assert forall|x2: int, y2: int| in_marker(info_v, x2, y2) implies #[trigger] pixel_white(
                buffer@,
                info_v,
                x2,
                y2,
            ) by {
                assert(before(x2, y2, 0, MARKER_HEIGHT as int));
            }
            assert forall|i: int|
                0 <= i < len && (forall|x2: int, y2: int|
                    in_marker(info_v, x2, y2) ==> !#[trigger] byte_of_pixel(info_v, i, x2, y2))
                implies buffer@[i] == old(buffer)@[i] by {
                assert forall|x2: int, y2: int|
                    in_marker(info_v, x2, y2) && before(x2, y2, 0, MARKER_HEIGHT as int)
                    implies !#[trigger] byte_of_pixel(info_v, i, x2, y2) by {
                }
            }
        }
    }
}

} // verus!
