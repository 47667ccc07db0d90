//! Bounded raster decoding for embedded book resources.
//!
//! Every limit applies before any pixel buffer is allocated: the input byte
//! gate runs before format sniffing, and declared geometry is checked from a
//! header read alone, so hostile dimensions reject without a decode attempt.
//! Animated sources resolve to a first-frame preview.
use vstd::prelude::*;

use crate::strings::{push_decimal, push_str, spec_decimal};

verus! {

/// Resource limits applied to every embedded image (all inclusive).
///
/// 64 million RGBA8 output pixels equal exactly 256 MiB; decoders whose
/// intermediate representation is wider reserve more per pixel, so even
/// their transient buffers stay inside the allocation budget.
#[derive(Clone, Copy, Debug, PartialEq, Eq, Structural)]
pub struct ImageLimits {
    /// Inclusive maximum compressed input size in bytes.
    pub max_input_bytes: u64,
    /// Inclusive maximum width or height in pixels.
    pub max_dimension: u32,
    /// Inclusive maximum decoded pixels per frame.
    pub max_pixels: u64,
    /// Inclusive maximum transient plus output allocation in bytes.
    pub max_allocation_bytes: u64,
    /// Inclusive maximum decompressed SVG/SVGZ XML input in bytes.
    pub max_svg_xml_bytes: u64,
}

/// The policy table: 32 MiB of input, 16384 pixels per side, 64 million
/// pixels, 256 MiB of allocation, and 8 MiB of SVG XML.
pub open spec fn default_image_limits() -> ImageLimits {
    ImageLimits {
        max_input_bytes: 33_554_432u64,
        max_dimension: 16_384u32,
        max_pixels: 64_000_000u64,
        max_allocation_bytes: 268_435_456u64,
        max_svg_xml_bytes: 8_388_608u64,
    }
}

impl Default for ImageLimits {
    fn default() -> (l: Self)
        ensures
            l == default_image_limits(),
    {
        ImageLimits {
            max_input_bytes: 32 * 1024 * 1024,
            max_dimension: 16_384,
            max_pixels: 64_000_000,
            max_allocation_bytes: 256 * 1024 * 1024,
            max_svg_xml_bytes: 8 * 1024 * 1024,
        }
    }
}

/// The raster formats the decoder knows.
#[derive(Clone, Copy, Debug, PartialEq, Eq, Structural, Hash)]
pub enum ImageFormat {
    Png,
    Jpeg,
    Gif,
    WebP,
    Pnm,
    Tiff,
    Tga,
    Dds,
    Bmp,
    Ico,
    Hdr,
    OpenExr,
    Farbfeld,
    Avif,
    Qoi,
}

/// The first file extension the decoder lists for each format; the decoder
/// maps each of these back to the same format.
pub open spec fn spec_extension(f: ImageFormat) -> Seq<char> {
    match f {
        ImageFormat::Png => "png"@,
        ImageFormat::Jpeg => "jpg"@,
        ImageFormat::Gif => "gif"@,
        ImageFormat::WebP => "webp"@,
        ImageFormat::Pnm => "pbm"@,
        ImageFormat::Tiff => "tiff"@,
        ImageFormat::Tga => "tga"@,
        ImageFormat::Dds => "dds"@,
        ImageFormat::Bmp => "bmp"@,
        ImageFormat::Ico => "ico"@,
        ImageFormat::Hdr => "hdr"@,
        ImageFormat::OpenExr => "exr"@,
        ImageFormat::Farbfeld => "ff"@,
        ImageFormat::Avif => "avif"@,
        ImageFormat::Qoi => "qoi"@,
    }
}

/// The format whose first listed extension is `e`.
pub open spec fn format_of_extension(e: Seq<char>) -> Option<ImageFormat> {
    if e == "png"@ {
        Some(ImageFormat::Png)
    } else if e == "jpg"@ {
        Some(ImageFormat::Jpeg)
    } else if e == "gif"@ {
        Some(ImageFormat::Gif)
    } else if e == "webp"@ {
        Some(ImageFormat::WebP)
    } else if e == "pbm"@ {
        Some(ImageFormat::Pnm)
    } else if e == "tiff"@ {
        Some(ImageFormat::Tiff)
    } else if e == "tga"@ {
        Some(ImageFormat::Tga)
    } else if e == "dds"@ {
        Some(ImageFormat::Dds)
    } else if e == "bmp"@ {
        Some(ImageFormat::Bmp)
    } else if e == "ico"@ {
        Some(ImageFormat::Ico)
    } else if e == "hdr"@ {
        Some(ImageFormat::Hdr)
    } else if e == "exr"@ {
        Some(ImageFormat::OpenExr)
    } else if e == "ff"@ {
        Some(ImageFormat::Farbfeld)
    } else if e == "avif"@ {
        Some(ImageFormat::Avif)
    } else if e == "qoi"@ {
        Some(ImageFormat::Qoi)
    } else {
        None
    }
}

impl ImageFormat {
    /// The format's first listed file extension.
    pub fn extension(self) -> (e: &'static str)
        ensures
            e@ == spec_extension(self),
    {
        match self {
            ImageFormat::Png => "png",
            ImageFormat::Jpeg => "jpg",
            ImageFormat::Gif => "gif",
            ImageFormat::WebP => "webp",
            ImageFormat::Pnm => "pbm",
            ImageFormat::Tiff => "tiff",
            ImageFormat::Tga => "tga",
            ImageFormat::Dds => "dds",
            ImageFormat::Bmp => "bmp",
            ImageFormat::Ico => "ico",
            ImageFormat::Hdr => "hdr",
            ImageFormat::OpenExr => "exr",
            ImageFormat::Farbfeld => "ff",
            ImageFormat::Avif => "avif",
            ImageFormat::Qoi => "qoi",
        }
    }

    /// The format whose first listed extension is `extension`, exactly.
    pub fn from_listed_extension(extension: &str) -> (f: Option<ImageFormat>)
        ensures
            f == format_of_extension(extension@),
    {
        let e = extension.to_owned();
        proof {
            reveal_strlit("png");
            reveal_strlit("jpg");
            reveal_strlit("gif");
            reveal_strlit("webp");
            reveal_strlit("pbm");
            reveal_strlit("tiff");
            reveal_strlit("tga");
            reveal_strlit("dds");
            reveal_strlit("bmp");
            reveal_strlit("ico");
            reveal_strlit("hdr");
            reveal_strlit("exr");
            reveal_strlit("ff");
            reveal_strlit("avif");
            reveal_strlit("qoi");
        }
        if e == "png".to_owned() {
            Some(ImageFormat::Png)
        } else if e == "jpg".to_owned() {
            Some(ImageFormat::Jpeg)
        } else if e == "gif".to_owned() {
            Some(ImageFormat::Gif)
        } else if e == "webp".to_owned() {
            Some(ImageFormat::WebP)
        } else if e == "pbm".to_owned() {
            Some(ImageFormat::Pnm)
        } else if e == "tiff".to_owned() {
            Some(ImageFormat::Tiff)
        } else if e == "tga".to_owned() {
            Some(ImageFormat::Tga)
        } else if e == "dds".to_owned() {
            Some(ImageFormat::Dds)
        } else if e == "bmp".to_owned() {
            Some(ImageFormat::Bmp)
        } else if e == "ico".to_owned() {
            Some(ImageFormat::Ico)
        } else if e == "hdr".to_owned() {
            Some(ImageFormat::Hdr)
        } else if e == "exr".to_owned() {
            Some(ImageFormat::OpenExr)
        } else if e == "ff".to_owned() {
            Some(ImageFormat::Farbfeld)
        } else if e == "avif".to_owned() {
            Some(ImageFormat::Avif)
        } else if e == "qoi".to_owned() {
            Some(ImageFormat::Qoi)
        } else {
            None
        }
    }
}

/// The first listed extension of the format that `image::guess_format`
/// finds from the leading magic bytes, if any.
pub uninterp spec fn guessed_extension(bytes: Seq<u8>) -> Option<Seq<char>>;

/// The dimensions that `image::ImageReader::into_dimensions` reads from the
/// header of `bytes` decoded as the format listing `extension`, or the
/// decoder's error text.
pub uninterp spec fn header_dimensions(bytes: Seq<u8>, extension: Seq<char>) -> Result<(u32, u32), Seq<char>>;

/// The RGBA8 samples of the first frame that `image::ImageReader::decode`
/// produces from `bytes` as the format listing `extension`, or the
/// decoder's error text.
pub uninterp spec fn decoded_rgba(bytes: Seq<u8>, extension: Seq<char>) -> Result<Seq<u8>, Seq<char>>;

/// `image::guess_format`, reporting the guessed format by its first listed
/// extension (`ImageFormat::extensions_str`). Claimed: the answer depends on
/// the bytes alone.
#[verifier::external_body]
fn guess_extension(bytes: &[u8]) -> (r: Option<&'static str>)
    ensures
        match r {
            Some(e) => guessed_extension(bytes@) == Some(e@),
            None => guessed_extension(bytes@) is None,
        },
{
    image::guess_format(bytes).ok().map(|format| format.extensions_str()[0])
}

/// `image::ImageReader::with_format(..).into_dimensions()`, with the format
/// given by an extension that `image::ImageFormat::from_extension` accepts.
/// Claimed: the result depends on the bytes and the format alone.
#[verifier::external_body]
fn read_header_dimensions(bytes: &[u8], extension: &str) -> (r: Result<(u32, u32), String>)
    ensures
        match r {
            Ok(d) => header_dimensions(bytes@, extension@) == Ok::<(u32, u32), Seq<char>>(d),
            Err(e) => header_dimensions(bytes@, extension@) == Err::<(u32, u32), Seq<char>>(e@),
        },
{
    let format = image::ImageFormat::from_extension(extension).ok_or_else(|| extension.to_owned())?;
    image::ImageReader::with_format(std::io::Cursor::new(bytes), format)
        .into_dimensions()
        .map_err(|error| error.to_string())
}

/// `image::ImageReader::with_format(..).decode()` followed by
/// `DynamicImage::to_rgba8`. Claimed: the result depends on the bytes and
/// the format alone.
#[verifier::external_body]
fn decode_rgba(bytes: &[u8], extension: &str) -> (r: Result<Vec<u8>, String>)
    ensures
        match r {
            Ok(v) => decoded_rgba(bytes@, extension@) == Ok::<Seq<u8>, Seq<char>>(v@),
            Err(e) => decoded_rgba(bytes@, extension@) == Err::<Seq<u8>, Seq<char>>(e@),
        },
{
    let format = image::ImageFormat::from_extension(extension).ok_or_else(|| extension.to_owned())?;
    image::ImageReader::with_format(std::io::Cursor::new(bytes), format)
        .decode()
        .map(|image| image.to_rgba8().into_raw())
        .map_err(|error| error.to_string())
}

/// Typed rejection for one image resource.
#[derive(Clone, Debug, PartialEq, Eq)]
pub enum ImageResourceError {
    /// The resource exceeds the compressed input byte limit.
    InputTooLarge { size: u64, limit: u64 },
    /// The leading bytes match no enabled decoder.
    UnsupportedFormat,
    /// A declared dimension exceeds the per-side limit.
    DimensionTooLarge { width: u32, height: u32, limit: u32 },
    /// The declared geometry covers more pixels than the budget allows.
    TooManyPixels { pixels: u64, limit: u64 },
    /// Decoding the declared geometry could allocate beyond the budget.
    AllocationTooLarge { bytes: u64, limit: u64 },
    /// The data matched a decoder but did not decode cleanly.
    DecodeFailed { detail: String },
}

/// The reader-facing text of each rejection.
pub open spec fn image_error_text(e: ImageResourceError) -> Seq<char> {
    match e {
        ImageResourceError::InputTooLarge { size, limit } => "image resource is too large: "@ + spec_decimal(
            size as nat,
        ) + " bytes exceeds the "@ + spec_decimal(limit as nat)
            + " byte input limit; the book may be corrupt or hostile"@,
        ImageResourceError::UnsupportedFormat =>
            "unsupported image data: the leading bytes match no enabled decoder; TermLeaf reads PNG, JPEG, GIF, WebP, BMP, ICO, TIFF, PNM, TGA, QOI, DDS, OpenEXR, Radiance HDR, and Farbfeld images"@,
        ImageResourceError::DimensionTooLarge { width, height, limit } => "image declares "@
            + spec_decimal(width as nat) + "x"@ + spec_decimal(height as nat) + " pixels beyond the "@
            + spec_decimal(limit as nat) + " pixel dimension limit; the image may be corrupt or hostile"@,
        ImageResourceError::TooManyPixels { pixels, limit } => "image declares "@ + spec_decimal(
            pixels as nat,
        ) + " decoded pixels beyond the "@ + spec_decimal(limit as nat)
            + " pixel limit; choose an edition with smaller embedded images"@,
        ImageResourceError::AllocationTooLarge { bytes, limit } => "decoding this image could allocate about "@
            + spec_decimal(bytes as nat) + " bytes beyond the "@ + spec_decimal(limit as nat)
            + " byte budget; the image is too large to display safely"@,
        ImageResourceError::DecodeFailed { detail } => "could not decode image: "@ + detail@
            + "; the file may be truncated or corrupt"@,
    }
}

impl ImageResourceError {
    /// The reader-facing message for this rejection.
    pub fn message(&self) -> (m: String)
        ensures
            m@ == image_error_text(*self),
    {
        let mut m = String::new();
        match self {
            ImageResourceError::InputTooLarge { size, limit } => {
                push_str(&mut m, "image resource is too large: ");
                push_decimal(&mut m, *size);
                push_str(&mut m, " bytes exceeds the ");
                push_decimal(&mut m, *limit);
                push_str(&mut m, " byte input limit; the book may be corrupt or hostile");
            },
            ImageResourceError::UnsupportedFormat => {
                push_str(
                    &mut m,
                    "unsupported image data: the leading bytes match no enabled decoder; TermLeaf reads PNG, JPEG, GIF, WebP, BMP, ICO, TIFF, PNM, TGA, QOI, DDS, OpenEXR, Radiance HDR, and Farbfeld images",
                );
            },
            ImageResourceError::DimensionTooLarge { width, height, limit } => {
                push_str(&mut m, "image declares ");
                push_decimal(&mut m, *width as u64);
                push_str(&mut m, "x");
                push_decimal(&mut m, *height as u64);
                push_str(&mut m, " pixels beyond the ");
                push_decimal(&mut m, *limit as u64);
                push_str(&mut m, " pixel dimension limit; the image may be corrupt or hostile");
            },
            ImageResourceError::TooManyPixels { pixels, limit } => {
                push_str(&mut m, "image declares ");
                push_decimal(&mut m, *pixels);
                push_str(&mut m, " decoded pixels beyond the ");
                push_decimal(&mut m, *limit);
                push_str(&mut m, " pixel limit; choose an edition with smaller embedded images");
            },
            ImageResourceError::AllocationTooLarge { bytes, limit } => {
                push_str(&mut m, "decoding this image could allocate about ");
                push_decimal(&mut m, *bytes);
                push_str(&mut m, " bytes beyond the ");
                push_decimal(&mut m, *limit);
                push_str(&mut m, " byte budget; the image is too large to display safely");
            },
            ImageResourceError::DecodeFailed { detail } => {
                push_str(&mut m, "could not decode image: ");
                push_str(&mut m, detail.as_str());
                push_str(&mut m, "; the file may be truncated or corrupt");
            },
        }
        m
    }
}

/// One successfully bounded decoded frame as normalized RGBA8.
#[derive(Clone, Debug, PartialEq, Eq)]
pub struct DecodedImage {
    width: u32,
    height: u32,
    rgba: Vec<u8>,
}

impl DecodedImage {
    /// A frame from its geometry and RGBA8 bytes.
    pub(crate) fn new(width: u32, height: u32, rgba: Vec<u8>) -> (d: DecodedImage)
        ensures
            d.spec_width() == width,
            d.spec_height() == height,
            d.spec_rgba() == rgba@,
    {
        DecodedImage { width, height, rgba }
    }

    pub closed spec fn spec_width(&self) -> u32 {
        self.width
    }

    pub closed spec fn spec_height(&self) -> u32 {
        self.height
    }

    pub closed spec fn spec_rgba(&self) -> Seq<u8> {
        self.rgba@
    }

    /// Image width in pixels.
    pub fn width(&self) -> (w: u32)
        ensures
            w == self.spec_width(),
    {
        self.width
    }

    /// Image height in pixels.
    pub fn height(&self) -> (h: u32)
        ensures
            h == self.spec_height(),
    {
        self.height
    }

    /// The RGBA8 samples, row-major with straight alpha.
    pub fn rgba(&self) -> (r: &Vec<u8>)
        ensures
            r@ == self.spec_rgba(),
    {
        &self.rgba
    }
}

/// The format detected from the leading magic bytes, if it is one the
/// decoder knows.
pub open spec fn spec_sniff(bytes: Seq<u8>) -> Option<ImageFormat> {
    match guessed_extension(bytes) {
        Some(e) => format_of_extension(e),
        None => None,
    }
}

/// Detects the decoder matching the leading magic bytes.
pub fn sniff_format(bytes: &[u8]) -> (r: Result<ImageFormat, ImageResourceError>)
    ensures
        match spec_sniff(bytes@) {
            Some(f) => r == Ok::<ImageFormat, ImageResourceError>(f),
            None => r matches Err(ImageResourceError::UnsupportedFormat),
        },
{
    match guess_extension(bytes) {
        Some(e) => match ImageFormat::from_listed_extension(e) {
            Some(f) => Ok(f),
            None => Err(ImageResourceError::UnsupportedFormat),
        },
        None => Err(ImageResourceError::UnsupportedFormat),
    }
}

/// Magic evidence wins; a declaration rescues formats without a signature.
pub open spec fn spec_resolve(bytes: Seq<u8>, declared: Option<ImageFormat>) -> Option<ImageFormat> {
    match spec_sniff(bytes) {
        Some(f) => Some(f),
        None => declared,
    }
}

/// Resolves one decoder from content evidence plus an optional declared
/// format: a leading signature always decides, and the declaration rescues
/// formats that carry no magic at all.
pub fn resolve_format(bytes: &[u8], declared: Option<ImageFormat>) -> (r: Result<ImageFormat, ImageResourceError>)
    ensures
        match spec_resolve(bytes@, declared) {
            Some(f) => r == Ok::<ImageFormat, ImageResourceError>(f),
            None => r matches Err(ImageResourceError::UnsupportedFormat),
        },
{
    match sniff_format(bytes) {
        Ok(f) => Ok(f),
        Err(_) => match declared {
            Some(f) => Ok(f),
            None => Err(ImageResourceError::UnsupportedFormat),
        },
    }
}

/// Conservative ceiling on transient per-pixel bytes per decoder family:
/// OpenEXR decodes to RGBA32F, Radiance HDR to RGB32F, and PNG and TIFF may
/// carry 16-bit samples; every other decoder works from 8-bit samples.
pub open spec fn spec_bytes_per_pixel(f: ImageFormat) -> u64 {
    match f {
        ImageFormat::OpenExr => 16,
        ImageFormat::Hdr => 12,
        ImageFormat::Png | ImageFormat::Tiff => 8,
        _ => 4,
    }
}

fn allocation_bytes_per_pixel(f: ImageFormat) -> (b: u64)
    ensures
        b == spec_bytes_per_pixel(f),
{
    match f {
        ImageFormat::OpenExr => 16,
        ImageFormat::Hdr => 12,
        ImageFormat::Png | ImageFormat::Tiff => 8,
        _ => 4,
    }
}

/// `n` saturated to `u64`.
pub open spec fn saturate(n: int) -> int {
    if n <= u64::MAX {
        n
    } else {
        u64::MAX as int
    }
}

/// What decoding `bytes` under `limits` gives, in policy order: the input
/// byte gate, format resolution, the header read, the per-side limit, the
/// pixel budget, the allocation estimate, and finally the decode itself.
pub open spec fn decode_result(
    bytes: Seq<u8>,
    limits: ImageLimits,
    declared: Option<ImageFormat>,
    r: Result<DecodedImage, ImageResourceError>,
) -> bool {
    if bytes.len() > limits.max_input_bytes {
        r == Err::<DecodedImage, ImageResourceError>(
            ImageResourceError::InputTooLarge { size: bytes.len() as u64, limit: limits.max_input_bytes },
        )
    } else {
        match spec_resolve(bytes, declared) {
            None => r matches Err(ImageResourceError::UnsupportedFormat),
            Some(f) => match header_dimensions(bytes, spec_extension(f)) {
                Err(detail) => r matches Err(ImageResourceError::DecodeFailed { detail: d }) && d@ == detail,
                Ok((w, h)) => {
                    let pixels = w * h;
                    let estimated = saturate(pixels * spec_bytes_per_pixel(f));
                    if w > limits.max_dimension || h > limits.max_dimension {
                        r == Err::<DecodedImage, ImageResourceError>(
                            ImageResourceError::DimensionTooLarge { width: w, height: h, limit: limits.max_dimension },
                        )
                    } else if pixels > limits.max_pixels {
                        r == Err::<DecodedImage, ImageResourceError>(
                            ImageResourceError::TooManyPixels { pixels: pixels as u64, limit: limits.max_pixels },
                        )
                    } else if estimated > limits.max_allocation_bytes {
                        r == Err::<DecodedImage, ImageResourceError>(
                            ImageResourceError::AllocationTooLarge {
                                bytes: estimated as u64,
                                limit: limits.max_allocation_bytes,
                            },
                        )
                    } else {
                        match decoded_rgba(bytes, spec_extension(f)) {
                            Err(detail) => r matches Err(ImageResourceError::DecodeFailed { detail: d }) && d@
                                == detail,
                            Ok(rgba) => r matches Ok(image) && image.spec_width() == w && image.spec_height() == h
                                && image.spec_rgba() == rgba,
                        }
                    }
                },
            },
        }
    }
}

/// Decodes one image under explicit limits and an optional declared format,
/// with every check in policy order.
pub fn decode_bounded_with_limits(
    bytes: &[u8],
    limits: &ImageLimits,
    declared: Option<ImageFormat>,
) -> (r: Result<DecodedImage, ImageResourceError>)
    ensures
        decode_result(bytes@, *limits, declared, r),
{
    let size = bytes.len() as u64;
    if size > limits.max_input_bytes {
        return Err(ImageResourceError::InputTooLarge { size, limit: limits.max_input_bytes });
    }
    let format = match resolve_format(bytes, declared) {
        Ok(f) => f,
        Err(e) => return Err(e),
    };
    let (width, height) = match read_header_dimensions(bytes, format.extension()) {
        Ok(d) => d,
        Err(detail) => return Err(ImageResourceError::DecodeFailed { detail }),
    };
    if width > limits.max_dimension || height > limits.max_dimension {
        return Err(ImageResourceError::DimensionTooLarge { width, height, limit: limits.max_dimension });
    }
    assert(width as int * height as int <= u32::MAX as int * u32::MAX as int) by (nonlinear_arith)
        requires
            width <= u32::MAX,
            height <= u32::MAX,
    ;
    let pixels = (width as u64) * (height as u64);
    if pixels > limits.max_pixels {
        return Err(ImageResourceError::TooManyPixels { pixels, limit: limits.max_pixels });
    }
    let per_pixel = allocation_bytes_per_pixel(format);
    let estimated = match pixels.checked_mul(per_pixel) {
        Some(product) => product,
        None => u64::MAX,
    };
    if estimated > limits.max_allocation_bytes {
        return Err(ImageResourceError::AllocationTooLarge { bytes: estimated, limit: limits.max_allocation_bytes });
    }
    match decode_rgba(bytes, format.extension()) {
        Ok(rgba) => Ok(DecodedImage { width, height, rgba }),
        Err(detail) => Err(ImageResourceError::DecodeFailed { detail }),
    }
}

/// Decodes one image under the default limits, sniffing its format from
/// content alone.
pub fn decode_bounded(bytes: &[u8]) -> (r: Result<DecodedImage, ImageResourceError>)
    ensures
        decode_result(
            bytes@,
            default_image_limits(),
            None,
            r,
        ),
{
    let limits = ImageLimits::default();
    decode_bounded_with_limits(bytes, &limits, None)
}

} // verus!
