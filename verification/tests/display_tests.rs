use flynn_kernel::framebuffer::{draw_hi_marker, write_pixel, FrameBufferInfo, PixelFormat};
use flynn_kernel::paging::region_pages;

fn info(width: usize, height: usize, format: PixelFormat) -> FrameBufferInfo {
    FrameBufferInfo {
        byte_len: width * height * 4,
        width,
        height,
        pixel_format: format,
        bytes_per_pixel: 4,
        stride: width,
    }
}

#[test]
fn pixel_channel_order() {
    let i = info(4, 2, PixelFormat::Rgb);
    let mut buf = vec![0u8; i.byte_len];
    write_pixel(&mut buf, &i, 1, 1, 10, 20, 30);
    assert_eq!(&buf[20..24], &[10, 20, 30, 0]);
    let j = info(4, 2, PixelFormat::Bgr);
    let mut buf2 = vec![0u8; j.byte_len];
    write_pixel(&mut buf2, &j, 1, 1, 10, 20, 30);
    assert_eq!(&buf2[20..24], &[30, 20, 10, 0]);
}

#[test]
fn pixel_off_screen_or_other_format_is_ignored() {
    let i = info(4, 2, PixelFormat::Rgb);
    let mut buf = vec![0u8; i.byte_len];
    write_pixel(&mut buf, &i, 4, 0, 1, 2, 3);
    write_pixel(&mut buf, &i, 0, 2, 1, 2, 3);
    assert!(buf.iter().all(|&b| b == 0));
    let g = info(4, 2, PixelFormat::U8);
    write_pixel(&mut buf, &g, 0, 0, 1, 2, 3);
    assert!(buf.iter().all(|&b| b == 0));
}

#[test]
fn marker_on_small_screen_whitens_visible_pixels() {
    let i = info(100, 50, PixelFormat::Bgr);
    let mut buf = vec![0u8; i.byte_len];
    draw_hi_marker(&mut buf, &i);
    for y in 0..50 {
        for x in 0..100 {
            let o = (y * 100 + x) * 4;
            let expect = if x < 80 && y < 40 { 0xff } else { 0 };
            assert_eq!(&buf[o..o + 3], &[expect, expect, expect]);
            assert_eq!(buf[o + 3], 0);
        }
    }
    let tiny = info(10, 5, PixelFormat::Rgb);
    let mut buf2 = vec![0u8; tiny.byte_len];
    draw_hi_marker(&mut buf2, &tiny);
    assert_eq!(buf2.iter().filter(|&&b| b == 0xff).count(), 10 * 5 * 3);
}

#[test]
fn pages_of_regions() {
    assert_eq!(region_pages(0x4444_4444_0000, 1024 * 1024), (0x4444_4444_0000, 0x4444_4453_F000));
    assert_eq!(region_pages(0x1001, 1), (0x1000, 0x1000));
    assert_eq!(region_pages(0x1fff, 2), (0x1000, 0x2000));
    assert_eq!(
        region_pages(0xFFFF_A000_0000_0000, 32768),
        (0xFFFF_A000_0000_0000, 0xFFFF_A000_0000_7000)
    );
}
