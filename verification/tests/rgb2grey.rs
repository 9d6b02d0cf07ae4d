use gst_plugin::rgb2grey::{
    grey, is_convertible, transform, OutputFormat, Settings, B_Y, DEFAULT_STEPS, G_Y, R_Y,
};

// The conversion written with the iterators of slices.
fn with_chunks(
    input: &[u8],
    in_stride: usize,
    output: &mut [u8],
    out_stride: usize,
    width: usize,
    format: OutputFormat,
) {
    let bpp = match format {
        OutputFormat::Bgrx => 4,
        OutputFormat::Gray8 => 1,
    };
    for (in_line, out_line) in input.chunks(in_stride).zip(output.chunks_mut(out_stride)) {
        for (in_p, out_p) in in_line[..width * 4]
            .chunks(4)
            .zip(out_line[..width * bpp].chunks_mut(bpp))
        {
            let b = u32::from(in_p[0]);
            let g = u32::from(in_p[1]);
            let r = u32::from(in_p[2]);
            let value = ((r * 19595 + g * 38470 + b * 7471) / 65536) as u8;
            if bpp == 4 {
                out_p[0] = value;
                out_p[1] = value;
                out_p[2] = value;
                out_p[3] = 0;
            } else {
                out_p[0] = value;
            }
        }
    }
}

#[test]
fn weights_add_up_to_one() {
    assert_eq!(R_Y + G_Y + B_Y, 65536);
    assert_eq!((R_Y, G_Y, B_Y), (19595, 38470, 7471));
}

#[test]
fn grey_of_plain_colours() {
    assert_eq!(grey(0, 0, 0), 0);
    assert_eq!(grey(255, 255, 255), 255);
    assert_eq!(grey(0, 0, 255), 76);
    assert_eq!(grey(0, 255, 0), 149);
    assert_eq!(grey(255, 0, 0), 29);
    assert_eq!(grey(128, 128, 128), 128);
    assert_eq!(grey(10, 20, 30), 21);
}

#[test]
fn grey_of_every_grey_is_itself() {
    for v in 0..=255u8 {
        assert_eq!(grey(v, v, v), v);
    }
}

#[test]
fn bytes_per_pixel_of_each_format() {
    assert_eq!(OutputFormat::Bgrx.bytes_per_pixel(), 4);
    assert_eq!(OutputFormat::Gray8.bytes_per_pixel(), 1);
}

#[test]
fn transform_to_bgrx_keeps_padding() {
    // Two lines of two pixels; four bytes of padding on each line of the
    // input, eight on each line of the output.
    let input: Vec<u8> = vec![
        0, 0, 255, 9, 0, 255, 0, 9, 1, 2, 3, 4, //
        255, 0, 0, 9, 255, 255, 255, 9, 5, 6, 7, 8,
    ];
    let mut output: Vec<u8> = vec![0xaa; 32];
    transform(&input, 12, &mut output, 16, 2, OutputFormat::Bgrx);
    let expected: Vec<u8> = vec![
        76, 76, 76, 0, 149, 149, 149, 0, 0xaa, 0xaa, 0xaa, 0xaa, 0xaa, 0xaa, 0xaa, 0xaa, //
        29, 29, 29, 0, 255, 255, 255, 0, 0xaa, 0xaa, 0xaa, 0xaa, 0xaa, 0xaa, 0xaa, 0xaa,
    ];
    assert_eq!(output, expected);
}

#[test]
fn transform_to_gray8_keeps_padding() {
    let input: Vec<u8> = vec![
        0, 0, 255, 9, 0, 255, 0, 9, 1, 2, 3, 4, //
        255, 0, 0, 9, 255, 255, 255, 9, 5, 6, 7, 8,
    ];
    let mut output: Vec<u8> = vec![0xaa; 8];
    transform(&input, 12, &mut output, 4, 2, OutputFormat::Gray8);
    assert_eq!(output, vec![76, 149, 0xaa, 0xaa, 29, 255, 0xaa, 0xaa]);
}

#[test]
fn transform_without_padding() {
    let input: Vec<u8> = vec![10, 20, 30, 0, 40, 50, 60, 0, 70, 80, 90, 0, 1, 1, 1, 0];
    let mut bgrx: Vec<u8> = vec![7; 16];
    transform(&input, 8, &mut bgrx, 8, 2, OutputFormat::Bgrx);
    assert_eq!(
        bgrx,
        vec![21, 21, 21, 0, 51, 51, 51, 0, 81, 81, 81, 0, 1, 1, 1, 0]
    );
    let mut gray: Vec<u8> = vec![7; 4];
    transform(&input, 8, &mut gray, 2, 2, OutputFormat::Gray8);
    assert_eq!(gray, vec![21, 51, 81, 1]);
}

#[test]
fn transform_of_an_empty_frame() {
    let input: Vec<u8> = Vec::new();
    let mut output: Vec<u8> = Vec::new();
    transform(&input, 4, &mut output, 4, 1, OutputFormat::Bgrx);
    assert!(output.is_empty());
    transform(&input, 4, &mut output, 1, 1, OutputFormat::Gray8);
    assert!(output.is_empty());
}

#[test]
fn transform_with_no_pixels_in_a_line() {
    let input: Vec<u8> = vec![1; 16];
    let mut output: Vec<u8> = vec![2; 16];
    transform(&input, 8, &mut output, 8, 0, OutputFormat::Bgrx);
    assert_eq!(output, vec![2; 16]);
}

#[test]
fn transform_with_a_short_last_line() {
    // Two full lines and a third that holds its pixel but not its padding.
    let input: Vec<u8> = vec![
        0, 0, 255, 0, 9, 9, 9, 9, //
        0, 255, 0, 0, 9, 9, 9, 9, //
        255, 0, 0, 0,
    ];
    let mut output: Vec<u8> = vec![5; 20];
    transform(&input, 8, &mut output, 8, 1, OutputFormat::Bgrx);
    assert_eq!(
        output,
        vec![76, 76, 76, 0, 5, 5, 5, 5, 149, 149, 149, 0, 5, 5, 5, 5, 29, 29, 29, 0]
    );
    // The output has no third line: the third line of the input is left out.
    let mut shorter: Vec<u8> = vec![5; 16];
    transform(&input, 8, &mut shorter, 8, 1, OutputFormat::Bgrx);
    assert_eq!(
        shorter,
        vec![76, 76, 76, 0, 5, 5, 5, 5, 149, 149, 149, 0, 5, 5, 5, 5]
    );
}

#[test]
fn transform_agrees_with_the_slice_iterators() {
    let mut state: u32 = 12345;
    for width in 0..6usize {
        for pad_in in 0..3usize {
            for pad_out in 0..3usize {
                for height in 0..4usize {
                    for format in [OutputFormat::Bgrx, OutputFormat::Gray8] {
                        let bpp = format.bytes_per_pixel();
                        let in_stride = width * 4 + pad_in * 4 + 4;
                        let out_stride = width * bpp + pad_out * 4 + 4;
                        let input: Vec<u8> = (0..in_stride * height)
                            .map(|_| {
                                state = state.wrapping_mul(1664525).wrapping_add(1013904223);
                                (state >> 24) as u8
                            })
                            .collect();
                        let mut output: Vec<u8> = vec![0x5a; out_stride * height];
                        let mut expected = output.clone();
                        with_chunks(&input, in_stride, &mut expected, out_stride, width, format);
                        transform(&input, in_stride, &mut output, out_stride, width, format);
                        assert_eq!(output, expected);
                    }
                }
            }
        }
    }
}

#[test]
fn settings_start_with_all_steps() {
    assert_eq!(DEFAULT_STEPS, 256);
    assert_eq!(Settings::default().steps, 256);
}

#[test]
fn is_convertible_accepts_frames_that_fit() {
    assert!(is_convertible(24, 12, 32, 16, 2, OutputFormat::Bgrx));
    assert!(is_convertible(24, 12, 8, 4, 2, OutputFormat::Gray8));
    assert!(is_convertible(0, 4, 0, 4, 1, OutputFormat::Bgrx));
    assert!(is_convertible(16, 8, 16, 8, 0, OutputFormat::Bgrx));
    assert!(is_convertible(20, 8, 20, 8, 1, OutputFormat::Bgrx));
    assert!(is_convertible(20, 8, 16, 8, 1, OutputFormat::Bgrx));
    assert!(is_convertible(16, 8, 6, 3, 2, OutputFormat::Gray8));
}

#[test]
fn is_convertible_refuses_frames_that_do_not_fit() {
    // A stride of zero.
    assert!(!is_convertible(16, 0, 16, 8, 1, OutputFormat::Bgrx));
    assert!(!is_convertible(16, 8, 16, 0, 1, OutputFormat::Bgrx));
    // Data that is no whole number of pixels.
    assert!(!is_convertible(18, 9, 16, 8, 1, OutputFormat::Bgrx));
    assert!(!is_convertible(16, 8, 18, 9, 1, OutputFormat::Bgrx));
    // Frames with different numbers of lines.
    assert!(!is_convertible(24, 8, 16, 8, 1, OutputFormat::Bgrx));
    // Lines that do not fit their stride.
    assert!(!is_convertible(16, 8, 24, 12, 3, OutputFormat::Bgrx));
    assert!(!is_convertible(24, 12, 16, 8, 3, OutputFormat::Bgrx));
    assert!(!is_convertible(24, 12, 4, 2, 3, OutputFormat::Gray8));
    // A last line that is too short for its pixels.
    assert!(!is_convertible(20, 8, 20, 8, 2, OutputFormat::Bgrx));
    assert!(!is_convertible(20, 8, 9, 4, 2, OutputFormat::Gray8));
}
