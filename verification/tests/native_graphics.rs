use std::cell::Cell;
use std::io::Cursor;
use std::io::Write;
use std::sync::Arc;

use image::{DynamicImage, RgbaImage};

use termleaf::image::{decode_bounded, DecodedImage};
use termleaf::native::{
    append_native, check_native_chunks, BoundedPngWriter, encode_native_image, encode_native_image_cancellable, iterm2_chunks,
    kitty_chunks, percent, sixel_chunks, xterm_rgb, NativeFramePlan, NativeGraphicsSession, NativeImage,
    NativePlacement, STREAM_CHUNK_BYTES,
};
use termleaf::terminal_image::{
    CellPixelSize, ImageBackend, ImageId, NativeEncodeError, Rgb, NATIVE_CHUNK_LIMIT, NATIVE_OUTPUT_LIMIT_BYTES,
};

fn decoded(width: u32, height: u32, pixels: Vec<u8>) -> DecodedImage {
    let source = RgbaImage::from_raw(width, height, pixels).expect("pixel dimensions");
    let mut cursor = Cursor::new(Vec::new());
    DynamicImage::ImageRgba8(source).write_to(&mut cursor, image::ImageFormat::Png).expect("encode PNG");
    decode_bounded(&cursor.into_inner()).expect("decode PNG")
}

fn kitty_image(id: u32, shade: u8) -> Arc<NativeImage> {
    let source = decoded(1, 1, vec![shade, shade, shade, 255]);
    Arc::new(
        encode_native_image(ImageBackend::Kitty, ImageId::new(id).expect("id"), &source, 1, 1, Rgb(0, 0, 0), None)
            .expect("kitty image"),
    )
}

fn sixel_image(id: u32) -> Arc<NativeImage> {
    let source = decoded(1, 1, vec![255, 0, 0, 255]);
    Arc::new(
        encode_native_image(
            ImageBackend::Sixel,
            ImageId::new(id).expect("id"),
            &source,
            1,
            1,
            Rgb(0, 0, 0),
            CellPixelSize::new(1, 1),
        )
        .expect("sixel image"),
    )
}

fn plan(placements: Vec<NativePlacement>) -> NativeFramePlan {
    let mut plan = NativeFramePlan::default();
    for placement in placements {
        plan.push(placement);
    }
    plan
}

#[test]
fn native_output_and_chunk_boundaries_reject_one_over() {
    let mut exact = vec![0; NATIVE_OUTPUT_LIMIT_BYTES];
    assert_eq!(append_native(&mut exact, &[]), Ok(()));
    assert_eq!(
        append_native(&mut exact, &[0]),
        Err(NativeEncodeError::OutputTooLarge { limit: NATIVE_OUTPUT_LIMIT_BYTES })
    );
    let too_many = vec![Vec::new(); NATIVE_CHUNK_LIMIT + 1];
    assert_eq!(check_native_chunks(&too_many), Err(NativeEncodeError::TooManyChunks { limit: NATIVE_CHUNK_LIMIT }));
}

#[test]
fn native_kitty_chunks_are_bounded_identified_and_protocol_exclusive() {
    let id = ImageId::new(7).expect("nonzero");
    let rgba = vec![255; 4_000];
    let chunks = kitty_chunks(id, 1_000, 1, 1_000, 1, &rgba, &|| false).expect("bounded");
    assert_eq!(chunks.len(), 2, "payload crosses one 4096-byte boundary");
    assert!(chunks[0].starts_with(b"\x1b_Ga=T,t=d,f=32,s=1000,v=1,i=7,p=7"));
    assert!(chunks[0].windows(4).any(|part| part == b"m=1;"));
    assert!(chunks[1].starts_with(b"\x1b_Gm=0;"));
    assert!(chunks.iter().all(|chunk| chunk.ends_with(b"\x1b\\")));
    let wire = chunks.concat();
    assert!(!wire.windows(7).any(|part| part == b"1337;Fi"));
    assert!(!wire.starts_with(b"\x1bP"));
}

#[test]
fn native_sixel_has_one_balanced_dcs_and_correct_top_pixel_bit() {
    let chunks = sixel_chunks(1, 1, &[255, 0, 0, 255], &|| false).expect("sixel");
    let wire = chunks.concat();
    assert!(wire.starts_with(b"\x1bP0;0;0q\"1;1;1;1"));
    assert!(wire.ends_with(b"\x1b\\"));
    assert!(wire.windows(2).any(|part| part == b"#0"));
    assert!(wire.contains(&b'@'), "mask bit zero paints the top pixel");
    assert!(!wire.windows(3).any(|part| part == b"\x1b_G"));
    assert!(!wire.windows(6).any(|part| part == b"1337;F"));
}

#[test]
fn native_sixel_requires_and_uses_measured_cell_pixel_geometry() {
    let image = decoded(16, 32, vec![255; 16 * 32 * 4]);
    let id = ImageId::new(1).expect("id");
    assert_eq!(
        encode_native_image(ImageBackend::Sixel, id, &image, 2, 1, Rgb(0, 0, 0), None).map(|image| image.columns()),
        Err(NativeEncodeError::MissingCellPixelSize)
    );
    let encoded = encode_native_image(ImageBackend::Sixel, id, &image, 2, 1, Rgb(0, 0, 0), CellPixelSize::new(8, 16))
        .expect("measured Sixel");
    assert_eq!((encoded.columns(), encoded.rows()), (1, 1));
    assert!(
        encoded.chunks().concat().windows(b"\"1;1;8;16".len()).any(|window| window == b"\"1;1;8;16"),
        "Sixel raster dimensions are pixels, not terminal cells"
    );
}

#[test]
fn native_encoding_cancels_during_fitting_png_and_sixel_work() {
    let image = decoded(64, 64, vec![128; 64 * 64 * 4]);
    let checks = Cell::new(0);
    let result = encode_native_image_cancellable(
        ImageBackend::Kitty,
        ImageId::new(1).expect("id"),
        &image,
        64,
        32,
        Rgb(0, 0, 0),
        None,
        &|| {
            checks.set(checks.get() + 1);
            checks.get() > 3
        },
    );
    assert_eq!(result.map(|image| image.rows()), Err(NativeEncodeError::Cancelled));
    assert_eq!(sixel_chunks(1, 1, &[255; 4], &|| true), Err(NativeEncodeError::Cancelled));
}

#[test]
fn native_sixel_multicolor_bands_are_balanced_and_advance() {
    let mut rgba = Vec::new();
    for row in 0..7 {
        for column in 0..2 {
            rgba.extend_from_slice(if (row + column) % 2 == 0 { &[255, 0, 0, 255] } else { &[0, 0, 255, 255] });
        }
    }
    let wire = sixel_chunks(2, 7, &rgba, &|| false).expect("sixel").concat();
    assert_eq!(wire.windows(2).filter(|part| *part == b"\x1bP").count(), 1);
    assert_eq!(wire.windows(2).filter(|part| *part == b"\x1b\\").count(), 1);
    assert!(wire.contains(&b'-'), "second six-pixel band advances");
    assert!(wire.windows(2).any(|part| part == b"#0"));
    assert!(wire.windows(2).any(|part| part == b"#1"));
}

#[test]
fn native_sixel_runs_compress_repeated_columns() {
    let rgba = [255u8, 0, 0, 255].repeat(9);
    let wire = sixel_chunks(9, 1, &rgba, &|| false).expect("sixel").concat();
    assert!(wire.windows(3).any(|part| part == b"!9@"), "nine equal columns become one run");
}

#[test]
fn native_iterm2_uses_bounded_multipart_framing_and_generated_name() {
    let chunks = iterm2_chunks(ImageId::new(9).expect("id"), 2, 1, 2, 2, &[255; 16], &|| false).expect("multipart");
    assert!(chunks[0].starts_with(b"\x1b]1337;MultipartFile=inline=1;"));
    assert!(chunks[0].windows(5).any(|part| part == b"name="));
    assert!(chunks[1].starts_with(b"\x1b]1337;FilePart="));
    assert_eq!(chunks.last().expect("end"), b"\x1b]1337;FileEnd\x07");
    assert!(chunks.iter().all(|chunk| chunk.len() <= STREAM_CHUNK_BYTES + 64));
    let wire = chunks.concat();
    assert!(!wire.windows(3).any(|part| part == b"\x1b_G"));
    assert!(!wire.starts_with(b"\x1bP"));
}

#[test]
fn native_lifecycle_replaces_deletes_and_suppresses_unchanged_frames() {
    let first_image = kitty_image(5, 10);
    let first = NativePlacement { column: 3, row: 4, image: Arc::clone(&first_image) };
    let mut session = NativeGraphicsSession::default();
    let output = session.synchronize(plan(vec![first.clone()])).expect("first frame");
    session.confirm();
    assert!(output.windows(5).any(|part| part == b"\x1b[5;4"));
    assert!(output.windows(first_image.chunks()[0].len()).any(|part| part == first_image.chunks()[0]));

    assert!(session.synchronize(plan(vec![first])).is_none(), "unchanged frames do not retransmit images");

    let second_image = kitty_image(5, 200);
    let replacement = NativePlacement { column: 6, row: 7, image: Arc::clone(&second_image) };
    let output = session.synchronize(plan(vec![replacement])).expect("replacement");
    session.confirm();
    let delete = output.windows(4).position(|part| part == b"a=d,").expect("delete command");
    let drawn = output
        .windows(second_image.chunks()[0].len())
        .position(|part| part == second_image.chunks()[0])
        .expect("new image");
    assert!(delete < drawn, "delete precedes ID reuse");

    let output = session.cleanup();
    assert!(output.windows(4).any(|part| part == b"a=d,"));
    session.clear();
    assert!(session.cleanup().is_empty());
}

#[test]
fn native_lifecycle_failures_keep_every_attempted_id_cleanup_safe() {
    let make = || plan(vec![NativePlacement { column: 0, row: 0, image: kitty_image(3, 1) }]);
    let mut session = NativeGraphicsSession::default();
    assert!(session.synchronize(make()).is_some());
    let cleanup = session.cleanup();
    assert!(cleanup.windows(4).any(|part| part == b"a=d,"), "unconfirmed ids remain tracked");

    let mut session = NativeGraphicsSession::default();
    session.synchronize(make()).expect("initial placement");
    session.confirm();
    let replacement = plan(vec![NativePlacement { column: 1, row: 1, image: kitty_image(3, 2) }]);
    assert!(session.synchronize(replacement).is_some());
    let cleanup = session.cleanup();
    assert!(cleanup.windows(4).any(|part| part == b"a=d,"));
}

#[test]
fn legacy_lifecycle_requires_redraw_then_clears_on_shutdown() {
    let first = plan(vec![NativePlacement { column: 0, row: 0, image: sixel_image(1) }]);
    let mut session = NativeGraphicsSession::default();
    assert!(!session.requires_full_redraw(&first), "first frame has no stale pixels");
    session.synchronize(first).expect("first");
    session.confirm();
    assert!(session.requires_full_redraw(&NativeFramePlan::default()));
    assert_eq!(session.cleanup(), b"\x1b[2J\x1b[H");
}

#[test]
fn sixel_palette_percentages_and_xterm_colors() {
    assert_eq!(percent(255), 100);
    assert_eq!(percent(0), 0);
    assert_eq!(percent(128), 50);
    assert_eq!(xterm_rgb(196), Rgb(255, 0, 0));
    assert_eq!(xterm_rgb(232), Rgb(8, 8, 8));
    assert_eq!(xterm_rgb(3), Rgb(0, 0, 0));
}

#[test]
fn wire_bytes_sum_every_chunk() {
    let image = kitty_image(2, 0);
    assert_eq!(image.wire_bytes(), image.chunks().iter().map(Vec::len).sum::<usize>());
    assert_eq!(image.backend(), ImageBackend::Kitty);
    assert_eq!(image.id().get(), 2);
}

#[test]
fn native_png_writer_rejects_before_allocating_one_byte_over_limit() {
    let never = || false;
    let mut writer = BoundedPngWriter::new(vec![0; NATIVE_OUTPUT_LIMIT_BYTES], &never);
    assert_eq!(writer.write(&[]).expect("inclusive boundary"), 0);
    let error = writer.write(&[0]).expect_err("one over rejects");
    assert_eq!(error.kind(), std::io::ErrorKind::FileTooLarge);
    assert_eq!(writer.bytes().len(), NATIVE_OUTPUT_LIMIT_BYTES);
    assert!(writer.exceeded());
}

#[test]
fn png_writer_cancellation_refuses_before_appending() {
    let always = || true;
    let mut writer = BoundedPngWriter::new(vec![1, 2], &always);
    assert!(writer.write(&[3]).is_err());
    assert!(writer.was_cancelled());
    assert!(!writer.exceeded());
    assert_eq!(writer.bytes(), &[1u8, 2][..]);
    let never = || false;
    let mut open = BoundedPngWriter::new(vec![1], &never);
    assert_eq!(open.write(&[2, 3]).unwrap(), 2);
    assert_eq!(open.into_bytes(), vec![1u8, 2, 3]);
}

#[test]
fn iterm2_transfer_is_cancelled_when_the_check_always_answers_true() {
    let rgba = vec![255u8; 4];
    assert_eq!(
        iterm2_chunks(ImageId::new(1).unwrap(), 1, 1, 1, 1, &rgba, &|| true),
        Err(NativeEncodeError::Cancelled)
    );
}

#[test]
fn iterm2_header_names_the_file_in_padded_base64() {
    let chunks = iterm2_chunks(ImageId::new(9).expect("id"), 2, 1, 2, 2, &[255; 16], &|| false).expect("multipart");
    let header = String::from_utf8(chunks[0].clone()).expect("ascii header");
    assert!(header.ends_with(";preserveAspectRatio=1;name=dGVybWxlYWYtOS5wbmc=\u{7}"), "{header}");
    assert!(header.contains(";width=2;height=1;"));
}
