//! One image job: the format an image reference declares, decoding its
//! bytes under the image limits, and preparing what the terminal shows,
//! half-block cells or a native graphics image.
use vstd::prelude::*;

use crate::image::{
    decode_bounded_with_limits, decode_result, default_image_limits, format_of_extension, sniff_format,
    spec_sniff, DecodedImage, ImageFormat, ImageLimits, ImageResourceError,
};
use crate::native::{encode_native_image, native_result, render_decoded_half_blocks, NativeImage};
use crate::paths::{ascii_lower, chars_of, extension, spec_extension, to_ascii_lower};
use crate::strings::{push_decimal, push_str, spec_decimal};
use crate::terminal_image::{
    render_outcome, CellColorMode, CellPixelSize, CellRenderError, HalfBlockFrame, ImageBackend, ImageId,
    NativeEncodeError, Rgb,
};
use crate::vector::{
    decode_vector_bounded_with_limits, default_vector_limits, sniff_vector_format, spec_sniff_vector,
    vector_result, VectorFault, VectorFormat, VectorImageError, VectorLimits,
};
use crate::worker::SubmitError;

verus! {

/// The format an image reference declares by its file extension.
#[derive(Clone, Copy, Debug, PartialEq, Eq, Structural)]
pub enum DeclaredImageFormat {
    Raster(ImageFormat),
    Vector(VectorFormat),
}

/// The first listed extension of the format that the `image` crate
/// associates with an extension, if any.
pub uninterp spec fn extension_format(extension: Seq<char>) -> Option<Seq<char>>;

/// `image::ImageFormat::from_extension`, reporting the format by its first
/// listed extension (`ImageFormat::extensions_str`). Claimed: the answer
/// depends on the extension alone.
#[verifier::external_body]
fn format_for_extension(extension: &str) -> (r: Option<&'static str>)
    ensures
        match r {
            Some(e) => extension_format(extension@) == Some(e@),
            None => extension_format(extension@) is None,
        },
{
    image::ImageFormat::from_extension(extension).map(|format| format.extensions_str()[0])
}

/// The format a reference declares: `svg` and `svgz` (in any ASCII case)
/// name the vector containers; any other extension names the raster format
/// the `image` crate associates with it, when the decoder knows it.
pub open spec fn spec_declared_format(reference: Seq<char>) -> Option<DeclaredImageFormat> {
    match spec_extension(reference) {
        None => None,
        Some(e) => {
            let lower = ascii_lower(e);
            if lower == seq!['s', 'v', 'g'] {
                Some(DeclaredImageFormat::Vector(VectorFormat::Svg))
            } else if lower == seq!['s', 'v', 'g', 'z'] {
                Some(DeclaredImageFormat::Vector(VectorFormat::Svgz))
            } else {
                match extension_format(lower) {
                    Some(listed) => match format_of_extension(listed) {
                        Some(f) => Some(DeclaredImageFormat::Raster(f)),
                        None => None,
                    },
                    None => None,
                }
            }
        },
    }
}

/// The format that `reference` declares by its extension, if any.
pub fn declared_image_format(reference: &str) -> (r: Option<DeclaredImageFormat>)
    ensures
        r == spec_declared_format(reference@),
{
    let ext = match extension(reference) {
        Some(e) => e,
        None => return None,
    };
    let lower = to_ascii_lower(ext.as_str());
    let c = chars_of(lower.as_str());
    if c.len() == 3 && c[0] == 's' && c[1] == 'v' && c[2] == 'g' {
        assert(lower@ =~= seq!['s', 'v', 'g']);
        return Some(DeclaredImageFormat::Vector(VectorFormat::Svg));
    }
    if c.len() == 4 && c[0] == 's' && c[1] == 'v' && c[2] == 'g' && c[3] == 'z' {
        assert(lower@ =~= seq!['s', 'v', 'g', 'z']);
        return Some(DeclaredImageFormat::Vector(VectorFormat::Svgz));
    }
    assert(lower@ != seq!['s', 'v', 'g']) by {
        if lower@ == seq!['s', 'v', 'g'] {
            assert(c@ == lower@);
        }
    }
    assert(lower@ != seq!['s', 'v', 'g', 'z']) by {
        if lower@ == seq!['s', 'v', 'g', 'z'] {
            assert(c@ == lower@);
        }
    }
    match format_for_extension(lower.as_str()) {
        Some(listed) => match ImageFormat::from_listed_extension(listed) {
            Some(f) => Some(DeclaredImageFormat::Raster(f)),
            None => None,
        },
        None => None,
    }
}

/// Why an image job produced nothing to show.
#[derive(Debug)]
pub enum ImageFailure {
    /// The resource bytes could not be read; the text says why.
    Read(String),
    /// The raster decoder rejected the bytes.
    Decode(ImageResourceError),
    /// The vector decoder rejected the bytes.
    Vector(VectorImageError),
    /// Half-block rendering failed.
    Render(CellRenderError),
    /// Native encoding failed.
    Native(NativeEncodeError),
}

/// The text of a half-block rendering failure.
pub open spec fn render_error_text(e: CellRenderError) -> Seq<char> {
    match e {
        CellRenderError::EmptyGeometry => "image dimensions and terminal bounds must be non-zero"@,
        CellRenderError::InvalidBuffer { expected, actual } => "RGBA buffer has "@ + spec_decimal(actual as nat)
            + " bytes, expected "@ + spec_decimal(expected as nat),
        CellRenderError::AllocationTooLarge { requested, limit } => "half-block output requires "@
            + spec_decimal(requested as nat) + " bytes beyond the "@ + spec_decimal(limit as nat)
            + " byte allocation limit"@,
    }
}

/// The text of a native encoding failure.
pub open spec fn native_error_text(e: NativeEncodeError) -> Seq<char> {
    match e {
        NativeEncodeError::EmptyGeometry => "native image dimensions and terminal bounds must be non-zero"@,
        NativeEncodeError::InvalidBuffer => "native image source buffer is incomplete"@,
        NativeEncodeError::OutputTooLarge { limit } => "native image output exceeds the "@ + spec_decimal(
            limit as nat,
        ) + " byte limit"@,
        NativeEncodeError::TooManyChunks { limit } => "native image output exceeds the "@ + spec_decimal(
            limit as nat,
        ) + " chunk limit"@,
        NativeEncodeError::Png => "native PNG encoding failed"@,
        NativeEncodeError::Cancelled => "native image encoding was cancelled"@,
        NativeEncodeError::MissingCellPixelSize => "Sixel output requires measured terminal cell pixel geometry"@,
        NativeEncodeError::NotNative => "the selected image backend is not native"@,
    }
}

/// The short reason a failure shows in an image caption.
pub open spec fn spec_short_reason(f: ImageFailure) -> Seq<char> {
    match f {
        ImageFailure::Read(reason) => "read: "@ + reason@,
        ImageFailure::Decode(e) => match e {
            ImageResourceError::UnsupportedFormat => "decode: unsupported format"@,
            ImageResourceError::DimensionTooLarge { .. } => "decode: dimension limit"@,
            ImageResourceError::TooManyPixels { .. } => "decode: pixel limit"@,
            ImageResourceError::AllocationTooLarge { .. } => "decode: allocation limit"@,
            ImageResourceError::InputTooLarge { .. } => "decode: input limit"@,
            ImageResourceError::DecodeFailed { .. } => "decode: corrupt data"@,
        },
        ImageFailure::Vector(_) => "decode: vector rejected"@,
        ImageFailure::Render(e) => "render: "@ + render_error_text(e),
        ImageFailure::Native(e) => "native transport: "@ + native_error_text(e),
    }
}

impl ImageFailure {
    /// The short reason this failure shows in an image caption.
    pub fn short_reason(&self) -> (s: String)
        ensures
            s@ == spec_short_reason(*self),
    {
        let mut s = String::new();
        match self {
            ImageFailure::Read(reason) => {
                push_str(&mut s, "read: ");
                push_str(&mut s, reason.as_str());
            },
            ImageFailure::Decode(e) => match e {
                ImageResourceError::UnsupportedFormat => push_str(&mut s, "decode: unsupported format"),
                ImageResourceError::DimensionTooLarge { .. } => push_str(&mut s, "decode: dimension limit"),
                ImageResourceError::TooManyPixels { .. } => push_str(&mut s, "decode: pixel limit"),
                ImageResourceError::AllocationTooLarge { .. } => push_str(&mut s, "decode: allocation limit"),
                ImageResourceError::InputTooLarge { .. } => push_str(&mut s, "decode: input limit"),
                ImageResourceError::DecodeFailed { .. } => push_str(&mut s, "decode: corrupt data"),
            },
            ImageFailure::Vector(_) => push_str(&mut s, "decode: vector rejected"),
            ImageFailure::Render(e) => {
                push_str(&mut s, "render: ");
                match *e {
                    CellRenderError::EmptyGeometry => push_str(
                        &mut s,
                        "image dimensions and terminal bounds must be non-zero",
                    ),
                    CellRenderError::InvalidBuffer { expected, actual } => {
                        push_str(&mut s, "RGBA buffer has ");
                        push_decimal(&mut s, actual as u64);
                        push_str(&mut s, " bytes, expected ");
                        push_decimal(&mut s, expected as u64);
                    },
                    CellRenderError::AllocationTooLarge { requested, limit } => {
                        push_str(&mut s, "half-block output requires ");
                        push_decimal(&mut s, requested);
                        push_str(&mut s, " bytes beyond the ");
                        push_decimal(&mut s, limit);
                        push_str(&mut s, " byte allocation limit");
                    },
                }
            },
            ImageFailure::Native(e) => {
                push_str(&mut s, "native transport: ");
                match *e {
                    NativeEncodeError::EmptyGeometry => push_str(
                        &mut s,
                        "native image dimensions and terminal bounds must be non-zero",
                    ),
                    NativeEncodeError::InvalidBuffer => push_str(&mut s, "native image source buffer is incomplete"),
                    NativeEncodeError::OutputTooLarge { limit } => {
                        push_str(&mut s, "native image output exceeds the ");
                        push_decimal(&mut s, limit as u64);
                        push_str(&mut s, " byte limit");
                    },
                    NativeEncodeError::TooManyChunks { limit } => {
                        push_str(&mut s, "native image output exceeds the ");
                        push_decimal(&mut s, limit as u64);
                        push_str(&mut s, " chunk limit");
                    },
                    NativeEncodeError::Png => push_str(&mut s, "native PNG encoding failed"),
                    NativeEncodeError::Cancelled => push_str(&mut s, "native image encoding was cancelled"),
                    NativeEncodeError::MissingCellPixelSize => push_str(
                        &mut s,
                        "Sixel output requires measured terminal cell pixel geometry",
                    ),
                    NativeEncodeError::NotNative => push_str(&mut s, "the selected image backend is not native"),
                }
            },
        }
        s
    }
}

/// The declared size a failure reports, when it rejected an image for its
/// dimensions.
pub open spec fn failure_dimensions(f: ImageFailure) -> Option<(u32, u32)> {
    match f {
        ImageFailure::Decode(ImageResourceError::DimensionTooLarge { width, height, .. }) => Some((width, height)),
        ImageFailure::Vector(VectorImageError::DimensionTooLarge { width, height, .. }) => Some((width, height)),
        _ => None,
    }
}

/// The declared size a failure reports, when it rejected an image for its
/// dimensions.
pub fn dimensions_from_error(error: &ImageFailure) -> (d: Option<(u32, u32)>)
    ensures
        d == failure_dimensions(*error),
{
    match error {
        ImageFailure::Decode(ImageResourceError::DimensionTooLarge { width, height, .. }) => Some((*width, *height)),
        ImageFailure::Vector(VectorImageError::DimensionTooLarge { width, height, .. }) => Some((*width, *height)),
        _ => None,
    }
}

/// The short reason a refused image submission shows.
pub open spec fn spec_submit_reason(e: SubmitError) -> Seq<char> {
    match e {
        SubmitError::QueueFull => "queue full"@,
        SubmitError::ByteBudgetExceeded { .. } => "worker byte budget exceeded"@,
        SubmitError::StaleGeneration => "stale generation"@,
        SubmitError::ShutDown => "workers shut down"@,
    }
}

/// The short reason a refused image submission shows.
pub fn submit_reason(error: SubmitError) -> (r: &'static str)
    ensures
        r@ == spec_submit_reason(error),
{
    match error {
        SubmitError::QueueFull => "queue full",
        SubmitError::ByteBudgetExceeded { .. } => "worker byte budget exceeded",
        SubmitError::StaleGeneration => "stale generation",
        SubmitError::ShutDown => "workers shut down",
    }
}

/// Whether bytes declared as vector go to the vector decoder: neither an
/// SVG nor a raster signature claims them first.
pub open spec fn vector_route(bytes: Seq<u8>, declared: Option<DeclaredImageFormat>) -> bool {
    declared matches Some(DeclaredImageFormat::Vector(_)) && spec_sniff_vector(bytes) is None && spec_sniff(
        bytes,
    ) is None
}

/// The raster decoding as the plain outcome of the raster decoder.
pub open spec fn as_raster(r: Result<DecodedImage, ImageFailure>) -> Result<DecodedImage, ImageResourceError> {
    match r {
        Ok(d) => Ok(d),
        Err(ImageFailure::Decode(e)) => Err(e),
        _ => Err(ImageResourceError::UnsupportedFormat),
    }
}

/// What decoding `bytes` under `limits` gives: a vector declaration that
/// no signature contradicts goes to the vector decoder with that
/// declaration and the default vector limits; else content with an SVG or
/// SVGZ signature goes to the vector decoder, which sniffs it; anything
/// else goes to the raster decoder, with the declared raster format if any.
pub open spec fn decode_outcome(
    bytes: Seq<u8>,
    limits: ImageLimits,
    declared: Option<DeclaredImageFormat>,
    r: Result<DecodedImage, ImageFailure>,
) -> bool {
    if vector_route(bytes, declared) || spec_sniff_vector(bytes) is Some {
        let f = if vector_route(bytes, declared) {
            Some(declared->Some_0->Vector_0)
        } else {
            None
        };
        match r {
            Ok(d) => vector_result(bytes, limits, default_vector_limits(), f) == Ok::<
                (u32, u32, Seq<u8>),
                VectorFault,
            >((d.spec_width(), d.spec_height(), d.spec_rgba())),
            Err(ImageFailure::Vector(e)) => vector_result(bytes, limits, default_vector_limits(), f) == Err::<
                (u32, u32, Seq<u8>),
                VectorFault,
            >(e@),
            Err(_) => false,
        }
    } else {
        let raster = match declared {
            Some(DeclaredImageFormat::Raster(f)) => Some(f),
            _ => None,
        };
        &&& (r is Ok || (r matches Err(ImageFailure::Decode(_))))
        &&& decode_result(bytes, limits, raster, as_raster(r))
    }
}

/// Decodes image bytes under `limits`, routed by the declared format.
pub fn decode_image_bytes(
    bytes: &[u8],
    limits: &ImageLimits,
    declared: Option<DeclaredImageFormat>,
) -> (r: Result<DecodedImage, ImageFailure>)
    ensures
        decode_outcome(bytes@, *limits, declared, r),
{
    let sniffed = sniff_vector_format(bytes);
    let vector = match declared {
        Some(DeclaredImageFormat::Vector(format)) => if sniffed.is_none() && sniff_format(bytes).is_err() {
            Some(Some(format))
        } else if sniffed.is_some() {
            Some(None)
        } else {
            None
        },
        _ => if sniffed.is_some() {
            Some(None)
        } else {
            None
        },
    };
    match vector {
        Some(format) => {
            let vector_limits = VectorLimits::default();
            match decode_vector_bounded_with_limits(bytes, limits, &vector_limits, format) {
                Ok(d) => Ok(d),
                Err(e) => Err(ImageFailure::Vector(e)),
            }
        },
        None => {
            let raster = match declared {
                Some(DeclaredImageFormat::Raster(format)) => Some(format),
                _ => None,
            };
            match decode_bounded_with_limits(bytes, limits, raster) {
                Ok(d) => Ok(d),
                Err(e) => Err(ImageFailure::Decode(e)),
            }
        },
    }
}

/// What an image job prepares for the terminal.
#[derive(Debug)]
pub enum PreparedImage {
    Cells(HalfBlockFrame),
    Native(NativeImage),
}

/// Why an image job failed, with the image's size when it is known.
#[derive(Debug)]
pub struct ImageJobError {
    pub dimensions: Option<(u32, u32)>,
    pub reason: ImageFailure,
}

/// The cell rendering as the plain outcome of the half-block renderer.
pub open spec fn as_cells(r: Result<PreparedImage, ImageJobError>) -> Result<HalfBlockFrame, CellRenderError> {
    match r {
        Ok(PreparedImage::Cells(frame)) => Ok(frame),
        Err(ImageJobError { reason: ImageFailure::Render(e), .. }) => Err(e),
        _ => Err(CellRenderError::EmptyGeometry),
    }
}

/// The native encoding as the plain outcome of the native encoder.
pub open spec fn as_native(r: Result<PreparedImage, ImageJobError>) -> Result<NativeImage, NativeEncodeError> {
    match r {
        Ok(PreparedImage::Native(image)) => Ok(image),
        Err(ImageJobError { reason: ImageFailure::Native(e), .. }) => Err(e),
        _ => Err(NativeEncodeError::NotNative),
    }
}

/// What preparing a decoded image for `backend` gives: the cell backends
/// render half blocks in true color or the 256-color palette; the native
/// backends encode for their protocol; the caption backend shows no image.
/// A failure carries the image's size.
pub open spec fn prepare_outcome(
    image: DecodedImage,
    backend: ImageBackend,
    id: ImageId,
    columns: u16,
    rows: u16,
    background: Rgb,
    cell_pixels: Option<CellPixelSize>,
    r: Result<PreparedImage, ImageJobError>,
) -> bool {
    let size = Some((image.spec_width(), image.spec_height()));
    &&& r is Err ==> r->Err_0.dimensions == size
    &&& match backend {
        ImageBackend::TrueColorCells | ImageBackend::Ansi256Cells => {
            let mode = if backend == ImageBackend::TrueColorCells {
                CellColorMode::TrueColor
            } else {
                CellColorMode::Ansi256
            };
            &&& ((r matches Ok(PreparedImage::Cells(_))) || (r matches Err(
                ImageJobError { reason: ImageFailure::Render(_), .. },
            )))
            &&& render_outcome(
                image.spec_width() as int,
                image.spec_height() as int,
                image.spec_rgba(),
                columns as int,
                rows as int,
                background,
                mode,
                as_cells(r),
            )
        },
        ImageBackend::Caption => r matches Err(
            ImageJobError { reason: ImageFailure::Native(NativeEncodeError::NotNative), .. },
        ),
        _ => {
            &&& ((r matches Ok(PreparedImage::Native(_))) || (r matches Err(
                ImageJobError { reason: ImageFailure::Native(_), .. },
            )))
            &&& native_result(backend, id, image, columns, rows, background, cell_pixels, as_native(r))
        },
    }
}

/// Prepares a decoded image for `backend` within `columns` by `rows`
/// cells.
pub fn prepare_decoded(
    image: &DecodedImage,
    backend: ImageBackend,
    id: ImageId,
    columns: u16,
    rows: u16,
    background: Rgb,
    cell_pixels: Option<CellPixelSize>,
) -> (r: Result<PreparedImage, ImageJobError>)
    ensures
        prepare_outcome(*image, backend, id, columns, rows, background, cell_pixels, r),
{
    let size = Some((image.width(), image.height()));
    match backend {
        ImageBackend::TrueColorCells | ImageBackend::Ansi256Cells => {
            let mode = if backend == ImageBackend::TrueColorCells {
                CellColorMode::TrueColor
            } else {
                CellColorMode::Ansi256
            };
            match render_decoded_half_blocks(image, columns, rows, background, mode) {
                Ok(frame) => Ok(PreparedImage::Cells(frame)),
                Err(e) => Err(ImageJobError { dimensions: size, reason: ImageFailure::Render(e) }),
            }
        },
        ImageBackend::Caption => Err(
            ImageJobError { dimensions: size, reason: ImageFailure::Native(NativeEncodeError::NotNative) },
        ),
        _ => match encode_native_image(backend, id, image, columns, rows, background, cell_pixels) {
            Ok(native) => Ok(PreparedImage::Native(native)),
            Err(e) => Err(ImageJobError { dimensions: size, reason: ImageFailure::Native(e) }),
        },
    }
}

/// What an image job gives for the bytes of its resource: decoding under
/// the default image limits; a decoding failure, with the size it reports;
/// else the decoded image prepared for the backend.
pub open spec fn job_outcome(
    bytes: Seq<u8>,
    declared: Option<DeclaredImageFormat>,
    backend: ImageBackend,
    id: ImageId,
    columns: u16,
    rows: u16,
    background: Rgb,
    cell_pixels: Option<CellPixelSize>,
    r: Result<PreparedImage, ImageJobError>,
) -> bool {
    exists|d: Result<DecodedImage, ImageFailure>|
        #[trigger] decode_outcome(bytes, default_image_limits(), declared, d) && match d {
            Err(f) => r == Err::<PreparedImage, ImageJobError>(
                ImageJobError { dimensions: failure_dimensions(f), reason: f },
            ),
            Ok(image) => prepare_outcome(image, backend, id, columns, rows, background, cell_pixels, r),
        }
}

/// Runs one image job over the bytes of its resource: decodes them under
/// the default image limits, then prepares the image for `backend`.
pub fn process_image(
    bytes: &[u8],
    declared: Option<DeclaredImageFormat>,
    backend: ImageBackend,
    id: ImageId,
    columns: u16,
    rows: u16,
    background: Rgb,
    cell_pixels: Option<CellPixelSize>,
) -> (r: Result<PreparedImage, ImageJobError>)
    ensures
        job_outcome(bytes@, declared, backend, id, columns, rows, background, cell_pixels, r),
{
    let limits = ImageLimits::default();
    let decoded = decode_image_bytes(bytes, &limits, declared);
    let ghost d = decoded;
    match decoded {
        Err(reason) => {
            let dimensions = dimensions_from_error(&reason);
            let r = Err(ImageJobError { dimensions, reason });
            assert(decode_outcome(bytes@, default_image_limits(), declared, d));
            r
        },
        Ok(image) => {
            let r = prepare_decoded(&image, backend, id, columns, rows, background, cell_pixels);
            assert(decode_outcome(bytes@, default_image_limits(), declared, d));
            r
        },
    }
}

} // verus!
