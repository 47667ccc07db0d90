//! Terminal-image backend selection, bounded transports, and cell rendering.
use vstd::prelude::*;

use crate::strings::{push_char, push_decimal, push_str, spec_decimal};

verus! {

/// Inclusive combined budget for a half-block frame and its ANSI output.
pub const HALF_BLOCK_ALLOCATION_LIMIT_BYTES: u64 = 256 * 1024 * 1024;

/// Two longest truecolor SGR sequences, one UTF-8 block, a reset, and a
/// newline.
pub const MAX_ANSI_BYTES_PER_CELL: u64 = 46;

/// Bytes reserved per half-block cell: the cell itself (two colors of one
/// tag byte and three channel bytes each) plus its worst-case ANSI output.
pub const BYTES_RESERVED_PER_CELL: u64 = 8 + MAX_ANSI_BYTES_PER_CELL;

/// Maximum half-block cells whose frame and worst-case ANSI output fit the
/// image allocation budget.
pub const MAX_HALF_BLOCK_CELLS: u64 = HALF_BLOCK_ALLOCATION_LIMIT_BYTES / BYTES_RESERVED_PER_CELL;

/// Maximum retained wire bytes for one fitted native image.
pub const NATIVE_OUTPUT_LIMIT_BYTES: usize = 16 * 1024 * 1024;

/// Maximum independently writable pieces retained for one native image.
pub const NATIVE_CHUNK_LIMIT: usize = 4096;

/// A terminal image output path, in automatic preference order.
#[derive(Clone, Copy, Debug, PartialEq, Eq, Structural)]
pub enum ImageBackend {
    Kitty,
    Sixel,
    Iterm2,
    TrueColorCells,
    Ansi256Cells,
    Caption,
}

impl ImageBackend {
    /// Whether the backend draws through a native graphics protocol.
    pub fn is_native(self) -> (native: bool)
        ensures
            native == (self == ImageBackend::Kitty || self == ImageBackend::Sixel || self
                == ImageBackend::Iterm2),
    {
        match self {
            ImageBackend::Kitty | ImageBackend::Sixel | ImageBackend::Iterm2 => true,
            _ => false,
        }
    }
}

/// Stable session-local identity for one logical image.
#[derive(Clone, Copy, Debug, PartialEq, Eq, Structural, PartialOrd, Ord)]
pub struct ImageId(u32);

impl ImageId {
    pub closed spec fn spec_get(self) -> u32 {
        self.0
    }

    /// Creates a nonzero protocol-safe identifier.
    pub fn new(value: u32) -> (id: Option<ImageId>)
        ensures
            value == 0 ==> id is None,
            value != 0 ==> (id matches Some(i) && i.spec_get() == value),
    {
        if value == 0 {
            None
        } else {
            Some(ImageId(value))
        }
    }

    /// The identifier's value, never zero.
    pub fn get(self) -> (v: u32)
        ensures
            v == self.spec_get(),
    {
        self.0
    }
}

/// Measured pixel dimensions of one terminal cell.
#[derive(Clone, Copy, Debug, PartialEq, Eq, Structural)]
pub struct CellPixelSize {
    pub width: u16,
    pub height: u16,
}

impl CellPixelSize {
    /// A cell size, when both dimensions are nonzero.
    pub fn new(width: u16, height: u16) -> (size: Option<CellPixelSize>)
        ensures
            width == 0 || height == 0 ==> size is None,
            width != 0 && height != 0 ==> size == Some(CellPixelSize { width, height }),
    {
        if width == 0 || height == 0 {
            None
        } else {
            Some(CellPixelSize { width, height })
        }
    }
}

/// Native fitting or serialization failed before any terminal bytes were sent.
#[derive(Clone, Copy, Debug, PartialEq, Eq, Structural)]
pub enum NativeEncodeError {
    EmptyGeometry,
    InvalidBuffer,
    OutputTooLarge { limit: usize },
    TooManyChunks { limit: usize },
    Png,
    Cancelled,
    MissingCellPixelSize,
    NotNative,
}

/// Evidence reported for one terminal capability.
#[derive(Clone, Copy, Debug, PartialEq, Eq, Structural)]
pub enum CapabilityEvidence {
    Positive,
    Negative,
    Malformed,
    Absent,
}

impl Default for CapabilityEvidence {
    fn default() -> (e: Self)
        ensures
            e == CapabilityEvidence::Absent,
    {
        CapabilityEvidence::Absent
    }
}

/// Whether `c` is Unicode white space (the `White_Space` property that
/// `char::is_whitespace` and `str::trim` use).
pub open spec fn is_white(c: char) -> bool {
    let v = c as u32;
    (0x09 <= v <= 0x0D) || v == 0x20 || v == 0x85 || v == 0xA0 || v == 0x1680 || (0x2000 <= v
        <= 0x200A) || v == 0x2028 || v == 0x2029 || v == 0x202F || v == 0x205F || v == 0x3000
}

pub(crate) fn white(c: char) -> (w: bool)
    ensures
        w == is_white(c),
{
    let v = c as u32;
    (0x09 <= v && v <= 0x0D) || v == 0x20 || v == 0x85 || v == 0xA0 || v == 0x1680 || (0x2000 <= v
        && v <= 0x200A) || v == 0x2028 || v == 0x2029 || v == 0x202F || v == 0x205F || v == 0x3000
}

/// `s` without leading and trailing white space, as `str::trim` gives it.
pub open spec fn spec_trim(s: Seq<char>) -> Seq<char> {
    let lo = first_non_white(s, 0);
    let hi = last_non_white_end(s, s.len() as int);
    if lo < hi { s.subrange(lo, hi) } else { Seq::empty() }
}

/// The first index at or after `i` holding a non-white character, or the
/// length.
pub open spec fn first_non_white(s: Seq<char>, i: int) -> int
    decreases s.len() - i,
{
    if i >= s.len() || i < 0 {
        s.len() as int
    } else if !is_white(s[i]) {
        i
    } else {
        first_non_white(s, i + 1)
    }
}

/// One past the last non-white character before `j`, or 0.
pub open spec fn last_non_white_end(s: Seq<char>, j: int) -> int
    decreases j,
{
    if j <= 0 || j > s.len() {
        0
    } else if !is_white(s[j - 1]) {
        j
    } else {
        last_non_white_end(s, j - 1)
    }
}

/// `s` with leading and trailing white space removed.
pub fn trim(s: &str) -> (t: String)
    ensures
        t@ == spec_trim(s@),
{
    let v = crate::paths::chars_of(s);
    let mut lo: usize = 0;
    while lo < v.len() && white(v[lo])
        invariant
            lo <= v@.len(),
            first_non_white(v@, 0) == first_non_white(v@, lo as int),
        decreases v@.len() - lo,
    {
        lo = lo + 1;
    }
    let mut hi: usize = v.len();
    while hi > 0 && white(v[hi - 1])
        invariant
            hi <= v@.len(),
            last_non_white_end(v@, v@.len() as int) == last_non_white_end(v@, hi as int),
        decreases hi,
    {
        hi = hi - 1;
    }
    if lo < hi {
        crate::paths::text_of(&v, lo, hi)
    } else {
        String::new()
    }
}

/// The evidence a normalized probe report gives.
pub open spec fn report_evidence(report: Option<Seq<char>>) -> CapabilityEvidence {
    match report {
        None => CapabilityEvidence::Absent,
        Some(r) => {
            let t = crate::paths::ascii_lower(spec_trim(r));
            if t.len() == 0 {
                CapabilityEvidence::Absent
            } else if t == "1"@ || t == "yes"@ || t == "true"@ || t == "supported"@ || t == "ok"@ {
                CapabilityEvidence::Positive
            } else if t == "0"@ || t == "no"@ || t == "false"@ || t == "unsupported"@ {
                CapabilityEvidence::Negative
            } else {
                CapabilityEvidence::Malformed
            }
        },
    }
}

impl CapabilityEvidence {
    /// Parses a normalized probe result. Unknown non-empty reports are not
    /// treated as support: emitting a protocol requires positive evidence.
    pub fn from_report(report: Option<&str>) -> (e: CapabilityEvidence)
        ensures
            e == report_evidence(
                match report {
                    Some(r) => Some(r@),
                    None => None,
                },
            ),
    {
        let r = match report {
            Some(r) => r,
            None => return CapabilityEvidence::Absent,
        };
        let trimmed = trim(r);
        let t = crate::paths::to_ascii_lower(trimmed.as_str());
        proof {
            assert(crate::paths::ascii_lower(spec_trim(r@)).len() == spec_trim(r@).len());
        }
        if trimmed.as_str().is_empty() {
            return CapabilityEvidence::Absent;
        }
        if t == "1".to_owned() || t == "yes".to_owned() || t == "true".to_owned() || t
            == "supported".to_owned() || t == "ok".to_owned() {
            CapabilityEvidence::Positive
        } else if t == "0".to_owned() || t == "no".to_owned() || t == "false".to_owned() || t
            == "unsupported".to_owned() {
            CapabilityEvidence::Negative
        } else {
            CapabilityEvidence::Malformed
        }
    }
}

/// Capability reports collected before rendering begins.
#[derive(Clone, Copy, Debug, PartialEq, Eq, Structural)]
pub struct ImageCapabilities {
    pub kitty: CapabilityEvidence,
    pub sixel: CapabilityEvidence,
    pub iterm2: CapabilityEvidence,
    pub true_color: CapabilityEvidence,
    pub ansi256: CapabilityEvidence,
}

impl Default for ImageCapabilities {
    fn default() -> (c: Self)
        ensures
            c == (ImageCapabilities {
                kitty: CapabilityEvidence::Absent,
                sixel: CapabilityEvidence::Absent,
                iterm2: CapabilityEvidence::Absent,
                true_color: CapabilityEvidence::Absent,
                ansi256: CapabilityEvidence::Absent,
            }),
    {
        ImageCapabilities {
            kitty: CapabilityEvidence::Absent,
            sixel: CapabilityEvidence::Absent,
            iterm2: CapabilityEvidence::Absent,
            true_color: CapabilityEvidence::Absent,
            ansi256: CapabilityEvidence::Absent,
        }
    }
}

/// An explicit output path was contradicted by terminal capability evidence.
#[derive(Clone, Copy, Debug, PartialEq, Eq, Structural)]
pub struct IncompatibleImageOverride {
    pub backend: ImageBackend,
    pub evidence: CapabilityEvidence,
}

/// The evidence that speaks for one backend; the caption always works.
pub open spec fn spec_evidence_for(backend: ImageBackend, c: ImageCapabilities) -> CapabilityEvidence {
    match backend {
        ImageBackend::Kitty => c.kitty,
        ImageBackend::Sixel => c.sixel,
        ImageBackend::Iterm2 => c.iterm2,
        ImageBackend::TrueColorCells => c.true_color,
        ImageBackend::Ansi256Cells => c.ansi256,
        ImageBackend::Caption => CapabilityEvidence::Positive,
    }
}

fn evidence_for(backend: ImageBackend, capabilities: ImageCapabilities) -> (e: CapabilityEvidence)
    ensures
        e == spec_evidence_for(backend, capabilities),
{
    match backend {
        ImageBackend::Kitty => capabilities.kitty,
        ImageBackend::Sixel => capabilities.sixel,
        ImageBackend::Iterm2 => capabilities.iterm2,
        ImageBackend::TrueColorCells => capabilities.true_color,
        ImageBackend::Ansi256Cells => capabilities.ansi256,
        ImageBackend::Caption => CapabilityEvidence::Positive,
    }
}

/// The backend automatic selection picks: the first with positive
/// evidence in the order Kitty, Sixel, iTerm2, true-color cells, ANSI-256
/// cells, else the caption.
pub open spec fn automatic_backend(c: ImageCapabilities) -> ImageBackend {
    if c.kitty == CapabilityEvidence::Positive {
        ImageBackend::Kitty
    } else if c.sixel == CapabilityEvidence::Positive {
        ImageBackend::Sixel
    } else if c.iterm2 == CapabilityEvidence::Positive {
        ImageBackend::Iterm2
    } else if c.true_color == CapabilityEvidence::Positive {
        ImageBackend::TrueColorCells
    } else if c.ansi256 == CapabilityEvidence::Positive {
        ImageBackend::Ansi256Cells
    } else {
        ImageBackend::Caption
    }
}

/// Resolves an explicit override or the safest automatically supported path.
///
/// An override takes precedence over every automatic candidate. Absent or
/// malformed reports never enable an automatic protocol. An explicit
/// override can intentionally replace absent detection, but a negative
/// report is a typed incompatibility rather than a silent fallback.
pub fn select_backend(explicit: Option<ImageBackend>, capabilities: ImageCapabilities) -> (r: Result<
    ImageBackend,
    IncompatibleImageOverride,
>)
    ensures
        match explicit {
            Some(b) => if spec_evidence_for(b, capabilities) == CapabilityEvidence::Negative {
                r == Err::<ImageBackend, IncompatibleImageOverride>(
                    IncompatibleImageOverride { backend: b, evidence: CapabilityEvidence::Negative },
                )
            } else {
                r == Ok::<ImageBackend, IncompatibleImageOverride>(b)
            },
            None => r == Ok::<ImageBackend, IncompatibleImageOverride>(automatic_backend(capabilities)),
        },
{
    if let Some(backend) = explicit {
        let evidence = evidence_for(backend, capabilities);
        if evidence == CapabilityEvidence::Negative {
            return Err(IncompatibleImageOverride { backend, evidence });
        }
        return Ok(backend);
    }
    if capabilities.kitty == CapabilityEvidence::Positive {
        Ok(ImageBackend::Kitty)
    } else if capabilities.sixel == CapabilityEvidence::Positive {
        Ok(ImageBackend::Sixel)
    } else if capabilities.iterm2 == CapabilityEvidence::Positive {
        Ok(ImageBackend::Iterm2)
    } else if capabilities.true_color == CapabilityEvidence::Positive {
        Ok(ImageBackend::TrueColorCells)
    } else if capabilities.ansi256 == CapabilityEvidence::Positive {
        Ok(ImageBackend::Ansi256Cells)
    } else {
        Ok(ImageBackend::Caption)
    }
}

/// Automatic selection never picks a backend without positive evidence.
pub proof fn lemma_automatic_needs_positive(c: ImageCapabilities)
    ensures
        automatic_backend(c) == ImageBackend::Caption || spec_evidence_for(automatic_backend(c), c)
            == CapabilityEvidence::Positive,
{
}

/// RGB color used by cell rendering and alpha compositing.
#[derive(Clone, Copy, Debug, PartialEq, Eq, Structural)]
pub struct Rgb(pub u8, pub u8, pub u8);

/// Color representation emitted for a half-block frame.
#[derive(Clone, Copy, Debug, PartialEq, Eq, Structural)]
pub enum CellColor {
    Rgb(Rgb),
    Indexed(u8),
}

/// Requested cell color depth.
#[derive(Clone, Copy, Debug, PartialEq, Eq, Structural)]
pub enum CellColorMode {
    TrueColor,
    Ansi256,
}

/// One Unicode upper-half block cell. The foreground paints the upper source
/// pixel and the background paints the lower source pixel.
#[derive(Clone, Copy, Debug, PartialEq, Eq, Structural)]
pub struct HalfBlockCell {
    pub foreground: CellColor,
    pub background: CellColor,
}

/// Invalid source pixels or unusable output bounds.
#[derive(Clone, Copy, Debug, PartialEq, Eq, Structural)]
pub enum CellRenderError {
    EmptyGeometry,
    InvalidBuffer { expected: usize, actual: usize },
    AllocationTooLarge { requested: u64, limit: u64 },
}

/// `n` saturated to `u64`.
pub open spec fn sat64(n: int) -> int {
    if n <= u64::MAX { n } else { u64::MAX as int }
}

/// The rejection [`check_cell_limit`] gives for `cells`, if any.
pub open spec fn spec_cell_limit(cells: int) -> Option<CellRenderError> {
    if cells > MAX_HALF_BLOCK_CELLS {
        Some(
            CellRenderError::AllocationTooLarge {
                requested: sat64(cells * BYTES_RESERVED_PER_CELL) as u64,
                limit: HALF_BLOCK_ALLOCATION_LIMIT_BYTES,
            },
        )
    } else {
        None
    }
}

/// Rejects half-block output whose cells would exceed the allocation
/// budget; the boundary itself is accepted.
pub fn check_cell_limit(cell_count: u64) -> (r: Result<(), CellRenderError>)
    ensures
        match spec_cell_limit(cell_count as int) {
            Some(e) => r == Err::<(), CellRenderError>(e),
            None => r is Ok,
        },
{
    if cell_count > MAX_HALF_BLOCK_CELLS {
        let requested = match cell_count.checked_mul(BYTES_RESERVED_PER_CELL) {
            Some(v) => v,
            None => u64::MAX,
        };
        return Err(
            CellRenderError::AllocationTooLarge {
                requested,
                limit: HALF_BLOCK_ALLOCATION_LIMIT_BYTES,
            },
        );
    }
    Ok(())
}

/// `v` clamped into `lo..=hi`.
pub open spec fn clamp(v: int, lo: int, hi: int) -> int {
    if v < lo { lo } else if v > hi { hi } else { v }
}

/// The pixel size an image of `width` by `height` is scaled to so that it
/// fits `max_columns` by twice `max_rows` pixels with its aspect ratio kept
/// (rounded, never below one pixel).
pub open spec fn spec_fit(width: int, height: int, max_columns: int, max_rows: int) -> (int, int) {
    let bw = max_columns;
    let bh = max_rows * 2;
    if width * bh > height * bw {
        (bw, clamp((height * bw + width / 2) / width, 1, bh))
    } else {
        (clamp((width * bh + height / 2) / height, 1, bw), bh)
    }
}

/// Fits a `width` by `height` image into half-block pixel bounds.
pub fn fit_dimensions(width: u32, height: u32, max_columns: u16, max_rows: u16) -> (fitted: (u32, u32))
    requires
        width > 0,
        height > 0,
    ensures
        (fitted.0 as int, fitted.1 as int) == spec_fit(width as int, height as int, max_columns as int, max_rows as int),
{
    let bound_width: u64 = max_columns as u64;
    let bound_height: u64 = max_rows as u64 * 2;
    let w = width as u64;
    let h = height as u64;
    assert(w * bound_height <= 0xFFFF_FFFF * 0x2_0000) by (nonlinear_arith)
        requires w <= 0xFFFF_FFFF, bound_height <= 0x2_0000;
    assert(h * bound_width <= 0xFFFF_FFFF * 0x1_0000) by (nonlinear_arith)
        requires h <= 0xFFFF_FFFF, bound_width <= 0x1_0000;
    if w * bound_height > h * bound_width {
        let raw = (h * bound_width + w / 2) / w;
        let fitted_height = if raw < 1 { 1 } else if raw > bound_height { bound_height } else { raw };
        (bound_width as u32, fitted_height as u32)
    } else {
        let raw = (w * bound_height + h / 2) / h;
        let fitted_width = if raw < 1 { 1 } else if raw > bound_width { bound_width } else { raw };
        (fitted_width as u32, bound_height as u32)
    }
}

/// One channel of `source` blended over `background` with `alpha`, rounded.
pub open spec fn blend(source: int, alpha: int, background: int) -> int {
    (source * alpha + background * (255 - alpha) + 127) / 255
}

/// `source` with opacity `alpha` composited over `background`.
pub open spec fn spec_composite(source: Rgb, alpha: u8, background: Rgb) -> Rgb {
    Rgb(
        blend(source.0 as int, alpha as int, background.0 as int) as u8,
        blend(source.1 as int, alpha as int, background.1 as int) as u8,
        blend(source.2 as int, alpha as int, background.2 as int) as u8,
    )
}

fn blend_channel(source: u8, alpha: u8, background: u8) -> (c: u8)
    ensures
        c == blend(source as int, alpha as int, background as int),
{
    let a = alpha as u32;
    assert((source as u32) * a <= 255 * 255) by (nonlinear_arith)
        requires source <= 255, a <= 255;
    assert((background as u32) * (255 - a) <= 255 * 255) by (nonlinear_arith)
        requires background <= 255, a <= 255;
    let value = ((source as u32) * a + (background as u32) * (255 - a) + 127) / 255;
    assert(value <= 255) by (nonlinear_arith)
        requires
            value == ((source as u32) * a + (background as u32) * (255 - a) + 127) / 255,
            source <= 255, a <= 255, background <= 255;
    value as u8
}

/// Composites one pixel over the background.
fn composite(source: Rgb, alpha: u8, background: Rgb) -> (c: Rgb)
    ensures
        c == spec_composite(source, alpha, background),
{
    Rgb(
        blend_channel(source.0, alpha, background.0),
        blend_channel(source.1, alpha, background.1),
        blend_channel(source.2, alpha, background.2),
    )
}

/// The source pixel nearest-neighbor fitting maps output pixel `(x, y)`
/// to, composited over `background`.
pub open spec fn spec_sample(
    rgba: Seq<u8>,
    sw: int,
    sh: int,
    x: int,
    y: int,
    fw: int,
    fh: int,
    background: Rgb,
) -> Rgb {
    let sx = x * sw / fw;
    let sy = y * sh / fh;
    let o = (sy * sw + sx) * 4;
    spec_composite(Rgb(rgba[o], rgba[o + 1], rgba[o + 2]), rgba[o + 3], background)
}

pub(crate) fn sample(
    rgba: &[u8],
    source_width: u32,
    source_height: u32,
    x: u32,
    y: u32,
    fitted_width: u32,
    fitted_height: u32,
    background: Rgb,
) -> (p: Rgb)
    requires
        source_width > 0,
        source_height > 0,
        x < fitted_width,
        y < fitted_height,
        rgba@.len() == source_width * source_height * 4,
    ensures
        p == spec_sample(
            rgba@,
            source_width as int,
            source_height as int,
            x as int,
            y as int,
            fitted_width as int,
            fitted_height as int,
            background,
        ),
{
    let sw = source_width as u64;
    let sh = source_height as u64;
    assert((x as u64) * sw <= 0xFFFF_FFFF * 0xFFFF_FFFF) by (nonlinear_arith)
        requires x <= 0xFFFF_FFFF, sw <= 0xFFFF_FFFF;
    assert((y as u64) * sh <= 0xFFFF_FFFF * 0xFFFF_FFFF) by (nonlinear_arith)
        requires y <= 0xFFFF_FFFF, sh <= 0xFFFF_FFFF;
    let sx = (x as u64) * sw / (fitted_width as u64);
    let sy = (y as u64) * sh / (fitted_height as u64);
    assert(sx < sw) by (nonlinear_arith)
        requires sx == (x as int) * (sw as int) / (fitted_width as int), x < fitted_width, sw > 0;
    assert(sy < sh) by (nonlinear_arith)
        requires sy == (y as int) * (sh as int) / (fitted_height as int), y < fitted_height, sh > 0;
    let total = rgba.len();
    assert((sy * sw + sx) * 4 + 3 < sw * sh * 4) by (nonlinear_arith)
        requires sx < sw, sy < sh;
    assert(sy * sw + sx < sw * sh) by (nonlinear_arith)
        requires sx < sw, sy < sh;
    assert(sy * sw <= sw * sh) by (nonlinear_arith)
        requires sy < sh;
    let offset = ((sy * sw + sx) * 4) as usize;
    composite(
        Rgb(rgba[offset], rgba[offset + 1], rgba[offset + 2]),
        rgba[offset + 3],
        background,
    )
}

/// The xterm cube level of component index `i`.
pub open spec fn cube_level(i: int) -> int {
    if i == 0 {
        0
    } else if i == 1 {
        95
    } else if i == 2 {
        135
    } else if i == 3 {
        175
    } else if i == 4 {
        215
    } else {
        255
    }
}

/// Squared distance between two channel values.
pub open spec fn dist(a: int, b: int) -> int {
    (a - b) * (a - b)
}

/// The first cube index in `0..=upto` nearest to `v`.
pub open spec fn nearest_level(v: int, upto: int) -> int
    decreases upto,
{
    if upto <= 0 {
        0
    } else {
        let best = nearest_level(v, upto - 1);
        if dist(v, cube_level(upto)) < dist(v, cube_level(best)) { upto } else { best }
    }
}

/// Squared distance from a color to gray-ramp step `step`.
pub open spec fn gray_distance(c: Rgb, step: int) -> int {
    let level = 8 + step * 10;
    dist(c.0 as int, level) + dist(c.1 as int, level) + dist(c.2 as int, level)
}

/// The first gray-ramp step in `0..=upto` nearest to `c`.
pub open spec fn nearest_gray(c: Rgb, upto: int) -> int
    decreases upto,
{
    if upto <= 0 {
        0
    } else {
        let best = nearest_gray(c, upto - 1);
        if gray_distance(c, upto) < gray_distance(c, best) { upto } else { best }
    }
}

/// The nearest xterm-256 color: the cube entry when it is at least as
/// close as the nearest gray-ramp entry, else that gray entry.
pub open spec fn spec_xterm_index(c: Rgb) -> int {
    let r = nearest_level(c.0 as int, 5);
    let g = nearest_level(c.1 as int, 5);
    let b = nearest_level(c.2 as int, 5);
    let cube_distance = dist(c.0 as int, cube_level(r)) + dist(c.1 as int, cube_level(g)) + dist(
        c.2 as int,
        cube_level(b),
    );
    let gray = nearest_gray(c, 23);
    if cube_distance <= gray_distance(c, gray) {
        16 + 36 * r + 6 * g + b
    } else {
        232 + gray
    }
}

proof fn lemma_nearest_level_range(v: int, upto: int)
    ensures
        0 <= nearest_level(v, upto) <= (if upto > 0 { upto } else { 0 }),
    decreases upto,
{
    if upto > 0 {
        lemma_nearest_level_range(v, upto - 1);
    }
}

proof fn lemma_nearest_gray_range(c: Rgb, upto: int)
    ensures
        0 <= nearest_gray(c, upto) <= (if upto > 0 { upto } else { 0 }),
    decreases upto,
{
    if upto > 0 {
        lemma_nearest_gray_range(c, upto - 1);
    }
}

fn square(d: i32) -> (r: i32)
    requires
        -300 <= d <= 300,
    ensures
        r == d * d,
        0 <= r <= 90000,
{
    assert(0 <= d * d <= 90000) by (nonlinear_arith)
        requires -300 <= d <= 300;
    d * d
}

fn level_at(i: usize) -> (l: i32)
    requires
        i < 6,
    ensures
        l == cube_level(i as int),
{
    if i == 0 {
        0
    } else if i == 1 {
        95
    } else if i == 2 {
        135
    } else if i == 3 {
        175
    } else if i == 4 {
        215
    } else {
        255
    }
}

fn nearest_channel(v: u8) -> (i: usize)
    ensures
        i == nearest_level(v as int, 5),
        i < 6,
{
    let x = v as i32;
    let mut best: usize = 0;
    let mut k: usize = 1;
    while k < 6
        invariant
            1 <= k <= 6,
            best == nearest_level(v as int, k - 1),
            best < k,
            x == v,
        decreases 6 - k,
    {
        proof {
            lemma_nearest_level_range(v as int, k - 1);
        }
        let a = x - level_at(k);
        let b = x - level_at(best);
        if square(a) < square(b) {
            best = k;
        }
        k = k + 1;
    }
    best
}

/// Finds the nearest xterm 6x6x6 cube or grayscale-ramp entry.
pub fn nearest_xterm_index(color: Rgb) -> (index: u8)
    ensures
        index == spec_xterm_index(color),
{
    let Rgb(red, green, blue) = color;
    let r = nearest_channel(red);
    let g = nearest_channel(green);
    let b = nearest_channel(blue);
    let dr = red as i32 - level_at(r);
    let dg = green as i32 - level_at(g);
    let db = blue as i32 - level_at(b);
    let cube_distance = square(dr) + square(dg) + square(db);
    let mut best: i32 = 0;
    let mut best_distance: i32 = {
        let er = red as i32 - 8;
        let eg = green as i32 - 8;
        let eb = blue as i32 - 8;
        square(er) + square(eg) + square(eb)
    };
    let mut step: i32 = 1;
    while step < 24
        invariant
            1 <= step <= 24,
            best == nearest_gray(color, step - 1),
            0 <= best < step,
            best_distance == gray_distance(color, best as int),
            color == Rgb(red, green, blue),
        decreases 24 - step,
    {
        proof {
            lemma_nearest_gray_range(color, step - 1);
        }
        let level = 8 + step * 10;
        let er = red as i32 - level;
        let eg = green as i32 - level;
        let eb = blue as i32 - level;
        let d = square(er) + square(eg) + square(eb);
        if d < best_distance {
            best = step;
            best_distance = d;
        }
        step = step + 1;
    }
    if cube_distance <= best_distance {
        (16 + 36 * r + 6 * g + b) as u8
    } else {
        (232 + best) as u8
    }
}

/// The color a mode paints: the pixel itself, or its nearest xterm entry.
pub open spec fn spec_convert(color: Rgb, mode: CellColorMode) -> CellColor {
    match mode {
        CellColorMode::TrueColor => CellColor::Rgb(color),
        CellColorMode::Ansi256 => CellColor::Indexed(spec_xterm_index(color) as u8),
    }
}

fn convert_color(color: Rgb, mode: CellColorMode) -> (c: CellColor)
    ensures
        c == spec_convert(color, mode),
{
    match mode {
        CellColorMode::TrueColor => CellColor::Rgb(color),
        CellColorMode::Ansi256 => CellColor::Indexed(nearest_xterm_index(color)),
    }
}

/// A row-major, bounds-fitted half-block image.
#[derive(Clone, Debug, PartialEq, Eq)]
pub struct HalfBlockFrame {
    width: u16,
    height: u16,
    cells: Vec<HalfBlockCell>,
}

/// The cell at row `r`, column `c` of a fitted half-block rendering: the
/// upper pixel row `2r` paints the foreground, the lower row `2r + 1` the
/// background (or the background color past the last pixel row).
pub open spec fn spec_cell(
    rgba: Seq<u8>,
    w: int,
    h: int,
    fw: int,
    fh: int,
    background: Rgb,
    mode: CellColorMode,
    r: int,
    c: int,
) -> HalfBlockCell {
    let upper = spec_sample(rgba, w, h, c, r * 2, fw, fh, background);
    let lower = if r * 2 + 1 < fh { spec_sample(rgba, w, h, c, r * 2 + 1, fw, fh, background) } else { background };
    HalfBlockCell { foreground: spec_convert(upper, mode), background: spec_convert(lower, mode) }
}

/// The RGBA buffer length an image of `w` by `h` pixels requires
/// (saturating at the platform's limits).
pub open spec fn expected_len(w: int, h: int) -> int {
    let n = sat64(sat64(w * h) * 4);
    if n <= usize::MAX { n } else { usize::MAX as int }
}

/// What rendering `w` by `h` pixels into `max_columns` by `max_rows` cells
/// gives: every error in the order the checks run, else the frame.
pub open spec fn render_outcome(
    w: int,
    h: int,
    rgba: Seq<u8>,
    max_columns: int,
    max_rows: int,
    background: Rgb,
    mode: CellColorMode,
    r: Result<HalfBlockFrame, CellRenderError>,
) -> bool {
    if w == 0 || h == 0 || max_columns == 0 || max_rows == 0 {
        r == Err::<HalfBlockFrame, CellRenderError>(CellRenderError::EmptyGeometry)
    } else {
        let (fw, fh) = spec_fit(w, h, max_columns, max_rows);
        let rows = (fh + 1) / 2;
        match spec_cell_limit(fw * rows) {
            Some(e) => r == Err::<HalfBlockFrame, CellRenderError>(e),
            None => if rgba.len() != expected_len(w, h) || w * h * 4 > usize::MAX {
                r == Err::<HalfBlockFrame, CellRenderError>(
                    CellRenderError::InvalidBuffer {
                        expected: expected_len(w, h) as usize,
                        actual: rgba.len() as usize,
                    },
                )
            } else {
                r matches Ok(frame) && frame.spec_width() == fw && frame.spec_height() == rows
                    && frame.spec_cells().len() == fw * rows && forall|i: int|
                    0 <= i < fw * rows ==> #[trigger] frame.spec_cells()[i] == spec_cell(
                        rgba,
                        w,
                        h,
                        fw,
                        fh,
                        background,
                        mode,
                        i / fw,
                        i % fw,
                    )
            },
        }
    }
}

proof fn lemma_fit_bounds(w: int, h: int, mc: int, mr: int)
    requires
        w > 0,
        h > 0,
        mc > 0,
        mr > 0,
    ensures
        1 <= spec_fit(w, h, mc, mr).0 <= mc,
        1 <= spec_fit(w, h, mc, mr).1 <= mr * 2,
{
}

/// Fits RGBA8 source pixels into terminal bounds and renders upper-half
/// block cells.
///
/// Source pixels are never mutated. Nearest-neighbor fitting preserves
/// aspect ratio within `max_columns` by `max_rows * 2` pixel space. Alpha is
/// composited against `background` before optional xterm-256 quantization.
pub fn render_half_blocks(
    width: u32,
    height: u32,
    rgba: &[u8],
    max_columns: u16,
    max_rows: u16,
    background: Rgb,
    mode: CellColorMode,
) -> (r: Result<HalfBlockFrame, CellRenderError>)
    ensures
        render_outcome(
            width as int,
            height as int,
            rgba@,
            max_columns as int,
            max_rows as int,
            background,
            mode,
            r,
        ),
{
    if width == 0 || height == 0 || max_columns == 0 || max_rows == 0 {
        return Err(CellRenderError::EmptyGeometry);
    }
    let (fitted_width, fitted_height) = fit_dimensions(width, height, max_columns, max_rows);
    proof {
        lemma_fit_bounds(width as int, height as int, max_columns as int, max_rows as int);
    }
    let cell_rows = (fitted_height + 1) / 2;
    assert((fitted_width as u64) * (cell_rows as u64) <= 0xFFFF * 0x1_0000) by (nonlinear_arith)
        requires fitted_width <= 0xFFFF, cell_rows <= 0x1_0000;
    let cell_count = (fitted_width as u64) * (cell_rows as u64);
    match check_cell_limit(cell_count) {
        Err(e) => return Err(e),
        Ok(()) => {},
    }
    let wh = match (width as u64).checked_mul(height as u64) {
        Some(v) => v,
        None => u64::MAX,
    };
    let wh4 = match wh.checked_mul(4) {
        Some(v) => v,
        None => u64::MAX,
    };
    let expected: usize = if wh4 <= usize::MAX as u64 { wh4 as usize } else { usize::MAX };
    assert((width as u64) * (height as u64) <= 0xFFFF_FFFF * 0xFFFF_FFFF) by (nonlinear_arith)
        requires width <= 0xFFFF_FFFF, height <= 0xFFFF_FFFF;
    let fits = wh <= u64::MAX / 4 && wh * 4 <= usize::MAX as u64;
    assert(expected == expected_len(width as int, height as int));
    if rgba.len() != expected || !fits {
        return Err(CellRenderError::InvalidBuffer { expected, actual: rgba.len() });
    }
    assert(wh == width * height);
    assert(rgba@.len() == width * height * 4);
    let fw = fitted_width;
    let fh = fitted_height;
    let mut cells: Vec<HalfBlockCell> = Vec::new();
    let mut row: u32 = 0;
    while row < cell_rows
        invariant
            width > 0,
            height > 0,
            rgba@.len() == width * height * 4,
            1 <= fw <= 0xFFFF,
            1 <= fh <= 0x2_0000,
            cell_rows == (fh + 1) / 2,
            row <= cell_rows,
            cells@.len() == row * fw,
            forall|i: int|
                0 <= i < cells@.len() ==> #[trigger] cells@[i] == spec_cell(
                    rgba@,
                    width as int,
                    height as int,
                    fw as int,
                    fh as int,
                    background,
                    mode,
                    i / (fw as int),
                    i % (fw as int),
                ),
        decreases cell_rows - row,
    {
        let mut column: u32 = 0;
        while column < fw
            invariant
                width > 0,
                height > 0,
                rgba@.len() == width * height * 4,
                1 <= fw <= 0xFFFF,
                1 <= fh <= 0x2_0000,
                cell_rows == (fh + 1) / 2,
                row < cell_rows,
                column <= fw,
                cells@.len() == row * fw + column,
                forall|i: int|
                    0 <= i < cells@.len() ==> #[trigger] cells@[i] == spec_cell(
                        rgba@,
                        width as int,
                        height as int,
                        fw as int,
                        fh as int,
                        background,
                        mode,
                        i / (fw as int),
                        i % (fw as int),
                    ),
            decreases fw - column,
        {
            let upper = sample(rgba, width, height, column, row * 2, fw, fh, background);
            let lower = if row * 2 + 1 < fh {
                sample(rgba, width, height, column, row * 2 + 1, fw, fh, background)
            } else {
                background
            };
            let cell = HalfBlockCell { foreground: convert_color(upper, mode), background: convert_color(lower, mode) };
            proof {
                let i = cells@.len() as int;
                vstd::arithmetic::div_mod::lemma_fundamental_div_mod_converse(
                    i,
                    fw as int,
                    row as int,
                    column as int,
                );
            }
            cells.push(cell);
            column = column + 1;
        }
        assert((row + 1) * fw == row * fw + fw) by (nonlinear_arith);
        row = row + 1;
    }
    let frame = HalfBlockFrame { width: fw as u16, height: cell_rows as u16, cells };
    proof {
        let (sfw, sfh) = spec_fit(width as int, height as int, max_columns as int, max_rows as int);
        assert(sfw == fw && sfh == fh);
        assert(frame.spec_width() == sfw);
        assert(frame.spec_height() == (sfh + 1) / 2);
        assert((cell_rows as int) * (fw as int) == (fw as int) * (cell_rows as int)) by (nonlinear_arith);
        assert(frame.spec_cells().len() == sfw * ((sfh + 1) / 2));
        assert(spec_cell_limit(sfw * ((sfh + 1) / 2)) is None);
        assert(!(rgba@.len() != expected_len(width as int, height as int) || width * height * 4 > usize::MAX));
    }
    Ok(frame)
}

impl HalfBlockFrame {
    pub closed spec fn spec_width(&self) -> int {
        self.width as int
    }

    pub closed spec fn spec_height(&self) -> int {
        self.height as int
    }

    pub closed spec fn spec_cells(&self) -> Seq<HalfBlockCell> {
        self.cells@
    }

    /// Width in cells.
    pub fn width(&self) -> (w: u16)
        ensures
            w == self.spec_width(),
    {
        self.width
    }

    /// Height in cells.
    pub fn height(&self) -> (h: u16)
        ensures
            h == self.spec_height(),
    {
        self.height
    }

    /// Cells in row-major order.
    pub fn cells(&self) -> (c: &[HalfBlockCell])
        ensures
            c@ == self.spec_cells(),
    {
        self.cells.as_slice()
    }

    /// Serializes the frame as SGR-colored upper-half block rows: each row's
    /// cells, a reset, and a newline between rows.
    pub fn ansi(&self) -> (out: String)
        ensures
            out@ == frame_ansi(self.spec_cells(), self.spec_width(), self.spec_height()),
    {
        let mut out = String::new();
        let w = self.width as usize;
        let h = self.height as usize;
        let n = self.cells.len();
        if w == 0 {
            return out;
        }
        assert(n / w < usize::MAX || n % w == 0) by (nonlinear_arith)
            requires w > 0, n <= usize::MAX;
        let rows_count = n / w + if n % w > 0 { 1 } else { 0 };
        assert(rows_count * w < n + w) by (nonlinear_arith)
            requires w > 0, rows_count == n / w + if n % w > 0 { 1int } else { 0int };
        let mut row: usize = 0;
        while row < rows_count
            invariant
                w == self.spec_width(),
                h == self.spec_height(),
                n == self.spec_cells().len(),
                w > 0,
                rows_count == n / w + if n % w > 0 { 1int } else { 0int },
                row <= rows_count,
                out@ == frame_rows(self.spec_cells(), w as int, h as int, row as int),
            decreases rows_count - row,
        {
            assert(row * w < n) by (nonlinear_arith)
                requires w > 0, row < rows_count, rows_count == n / w + if n % w > 0 { 1int } else { 0int };
            let lo = row * w;
            let hi = if n - lo < w { n } else { lo + w };
            let mut c = lo;
            let ghost before = out@;
            while c < hi
                invariant
                    lo <= c <= hi <= n,
                    n == self.spec_cells().len(),
                    out@ == before + cells_ansi(self.spec_cells(), lo as int, c as int),
                decreases hi - c,
            {
                let cell = self.cells[c];
                write_color(&mut out, cell.foreground, true);
                write_color(&mut out, cell.background, false);
                push_char(&mut out, '\u{2580}');
                assert(out@ =~= before + cells_ansi(self.spec_cells(), lo as int, c as int + 1));
                c = c + 1;
            }
            push_str(&mut out, "\x1b[0m");
            if row + 1 < h {
                push_char(&mut out, '\n');
            }
            assert(out@ =~= frame_rows(self.spec_cells(), w as int, h as int, row as int + 1));
            row = row + 1;
        }
        out
    }
}

/// The SGR sequence that sets one color as foreground or background.
pub open spec fn color_sgr(color: CellColor, foreground: bool) -> Seq<char> {
    let prefix = if foreground { "\x1b[38;"@ } else { "\x1b[48;"@ };
    match color {
        CellColor::Rgb(Rgb(r, g, b)) => prefix + "2;"@ + spec_decimal(r as nat) + ";"@ + spec_decimal(g as nat)
            + ";"@ + spec_decimal(b as nat) + "m"@,
        CellColor::Indexed(i) => prefix + "5;"@ + spec_decimal(i as nat) + "m"@,
    }
}

/// The text of one half-block cell.
pub open spec fn cell_ansi(cell: HalfBlockCell) -> Seq<char> {
    color_sgr(cell.foreground, true) + color_sgr(cell.background, false) + seq!['\u{2580}']
}

/// The text of cells `lo..hi`.
pub open spec fn cells_ansi(cells: Seq<HalfBlockCell>, lo: int, hi: int) -> Seq<char>
    decreases hi - lo,
{
    if hi <= lo {
        Seq::empty()
    } else {
        cells_ansi(cells, lo, hi - 1) + cell_ansi(cells[hi - 1])
    }
}

/// The text of the first `rows` rows of a frame `w` cells wide and `h`
/// rows high.
pub open spec fn frame_rows(cells: Seq<HalfBlockCell>, w: int, h: int, rows: int) -> Seq<char>
    decreases rows,
{
    if rows <= 0 {
        Seq::empty()
    } else {
        let r = rows - 1;
        let lo = r * w;
        let hi = if lo + w < cells.len() { lo + w } else { cells.len() as int };
        frame_rows(cells, w, h, r) + cells_ansi(cells, lo, hi) + "\x1b[0m"@ + if r + 1 < h {
            seq!['\n']
        } else {
            Seq::empty()
        }
    }
}

/// The whole text of a frame: one line per row of cells.
pub open spec fn frame_ansi(cells: Seq<HalfBlockCell>, w: int, h: int) -> Seq<char> {
    if w <= 0 {
        Seq::empty()
    } else {
        let n = cells.len() as int;
        frame_rows(cells, w, h, n / w + if n % w > 0 { 1int } else { 0int })
    }
}

fn write_color(output: &mut String, color: CellColor, foreground: bool)
    ensures
        final(output)@ == old(output)@ + color_sgr(color, foreground),
{
    if foreground {
        push_str(output, "\x1b[38;");
    } else {
        push_str(output, "\x1b[48;");
    }
    match color {
        CellColor::Rgb(Rgb(red, green, blue)) => {
            push_str(output, "2;");
            push_decimal(output, red as u64);
            push_str(output, ";");
            push_decimal(output, green as u64);
            push_str(output, ";");
            push_decimal(output, blue as u64);
            push_str(output, "m");
        },
        CellColor::Indexed(index) => {
            push_str(output, "5;");
            push_decimal(output, index as u64);
            push_str(output, "m");
        },
    }
}


/// The text without its leading white space.
pub open spec fn strip_front(s: Seq<char>) -> Seq<char>
    decreases s.len(),
{
    if s.len() > 0 && is_white(s[0]) {
        strip_front(s.drop_first())
    } else {
        s
    }
}

/// The text without its trailing white space.
pub open spec fn strip_back(s: Seq<char>) -> Seq<char>
    decreases s.len(),
{
    if s.len() > 0 && is_white(s.last()) {
        strip_back(s.drop_last())
    } else {
        s
    }
}

/// The text without white space at either end.
pub open spec fn trim_white(s: Seq<char>) -> Seq<char> {
    strip_back(strip_front(s))
}

/// The words of a text joined by single spaces, and whether white space
/// has been seen since the last word.
pub open spec fn collapse_state(s: Seq<char>) -> (Seq<char>, bool)
    decreases s.len(),
{
    if s.len() == 0 {
        (Seq::empty(), false)
    } else {
        let (o, pending) = collapse_state(s.drop_last());
        let c = s.last();
        if is_white(c) {
            (o, true)
        } else {
            ((if pending && o.len() > 0 {
                o.push(' ')
            } else {
                o
            }).push(c), false)
        }
    }
}

/// The words of a text joined by single spaces.
pub open spec fn collapse_words(s: Seq<char>) -> Seq<char> {
    collapse_state(s).0
}

/// The caption's reason: the collapsed text, cut after eighty characters
/// with an ellipsis, or "could not display" when nothing is left.
pub open spec fn caption_reason(reason: Seq<char>) -> Seq<char> {
    let w = collapse_words(reason);
    if w.len() > 80 {
        w.take(80) + "..."@
    } else if w.len() == 0 {
        "could not display"@
    } else {
        w
    }
}

/// The one-line caption shown after an image fails to load or render:
/// its trimmed alternative text when there is any, its dimensions when
/// known, and the reason, joined by "; " inside "[image: ...]".
pub open spec fn spec_failure_caption(alt: Option<Seq<char>>, dimensions: Option<(u32, u32)>, reason: Seq<char>) -> Seq<
    char,
> {
    let alt_part = match alt {
        Some(a) => if trim_white(a).len() > 0 {
            trim_white(a) + "; "@
        } else {
            Seq::empty()
        },
        None => Seq::empty(),
    };
    let dims_part = match dimensions {
        Some((w, h)) => spec_decimal(w as nat) + "x"@ + spec_decimal(h as nat) + "; "@,
        None => Seq::empty(),
    };
    "[image: "@ + alt_part + dims_part + caption_reason(reason) + "]"@
}

fn chars_of(s: &str) -> (v: Vec<char>)
    ensures
        v@ == s@,
{
    let mut v: Vec<char> = Vec::new();
    for c in it: s.chars()
        invariant
            it.seq() == s@,
            v@ == s@.take(it.index() as int),
    {
        v.push(c);
        assert(v@ =~= s@.take(it.index() + 1));
    }
    assert(s@.take(s@.len() as int) =~= s@);
    v
}

fn trimmed(s: &str) -> (t: Vec<char>)
    ensures
        t@ == trim_white(s@),
{
    let v = chars_of(s);
    let mut a: usize = 0;
    assert(v@.skip(0) =~= v@);
    while a < v.len() && white(v[a])
        invariant
            a <= v@.len(),
            strip_front(v@) == strip_front(v@.skip(a as int)),
        decreases v.len() - a,
    {
        assert(v@.skip(a as int).drop_first() =~= v@.skip(a + 1));
        a = a + 1;
    }
    assert(strip_front(v@.skip(a as int)) == v@.skip(a as int));
    let mut b: usize = v.len();
    while b > a && white(v[b - 1])
        invariant
            a <= b <= v@.len(),
            strip_back(v@.subrange(a as int, v@.len() as int)) == strip_back(v@.subrange(a as int, b as int)),
        decreases b,
    {
        assert(v@.subrange(a as int, b as int).drop_last() =~= v@.subrange(a as int, b - 1));
        b = b - 1;
    }
    assert(v@.skip(a as int) =~= v@.subrange(a as int, v@.len() as int));
    let mut t: Vec<char> = Vec::new();
    let mut i: usize = a;
    while i < b
        invariant
            a <= i <= b <= v@.len(),
            t@ == v@.subrange(a as int, i as int),
        decreases b - i,
    {
        t.push(v[i]);
        i = i + 1;
        assert(t@ =~= v@.subrange(a as int, i as int));
    }
    t
}

fn collapsed(s: &str) -> (w: Vec<char>)
    ensures
        w@ == collapse_words(s@),
{
    let v = chars_of(s);
    let mut out: Vec<char> = Vec::new();
    let mut pending = false;
    let mut i: usize = 0;
    while i < v.len()
        invariant
            i <= v@.len(),
            (out@, pending) == collapse_state(v@.take(i as int)),
        decreases v.len() - i,
    {
        assert(v@.take(i + 1).drop_last() =~= v@.take(i as int));
        let c = v[i];
        if white(c) {
            pending = true;
        } else {
            if pending && out.len() > 0 {
                out.push(' ');
            }
            out.push(c);
            pending = false;
        }
        i = i + 1;
    }
    assert(v@.take(v@.len() as int) =~= v@);
    out
}

fn push_chars(out: &mut String, v: &Vec<char>, n: usize)
    requires
        n <= v@.len(),
    ensures
        final(out)@ == old(out)@ + v@.take(n as int),
{
    let mut i: usize = 0;
    while i < n
        invariant
            i <= n <= v@.len(),
            out@ == old(out)@ + v@.take(i as int),
        decreases n - i,
    {
        push_char(out, v[i]);
        i = i + 1;
        assert(out@ =~= old(out)@ + v@.take(i as int));
    }
}

/// Builds a useful one-line caption after image loading or rendering fails.
#[verifier::rlimit(40)]
pub fn failure_caption(alt: Option<&str>, dimensions: Option<(u32, u32)>, reason: &str) -> (c: String)
    ensures
        c@ == spec_failure_caption(
            match alt {
                Some(a) => Some(a@),
                None => None,
            },
            dimensions,
            reason@,
        ),
{
    let ghost alt_view = match alt {
        Some(a) => Some(a@),
        None => None::<Seq<char>>,
    };
    let ghost alt_part = match alt_view {
        Some(a) => if trim_white(a).len() > 0 {
            trim_white(a) + "; "@
        } else {
            Seq::<char>::empty()
        },
        None => Seq::<char>::empty(),
    };
    let ghost dims_part = match dimensions {
        Some((w, h)) => spec_decimal(w as nat) + "x"@ + spec_decimal(h as nat) + "; "@,
        None => Seq::<char>::empty(),
    };
    let mut c = String::new();
    push_str(&mut c, "[image: ");
    match alt {
        Some(a) => {
            let t = trimmed(a);
            if t.len() > 0 {
                push_chars(&mut c, &t, t.len());
                assert(t@.take(t@.len() as int) =~= t@);
                push_str(&mut c, "; ");
            }
        },
        None => {},
    }
    assert(c@ =~= "[image: "@ + alt_part);
    match dimensions {
        Some((w, h)) => {
            push_decimal(&mut c, w as u64);
            push_str(&mut c, "x");
            push_decimal(&mut c, h as u64);
            push_str(&mut c, "; ");
        },
        None => {},
    }
    assert(c@ =~= "[image: "@ + alt_part + dims_part);
    let words = collapsed(reason);
    let ghost before = c@;
    if words.len() > 80 {
        push_chars(&mut c, &words, 80);
        push_str(&mut c, "...");
        assert(c@ =~= before + (words@.take(80) + "..."@));
    } else if words.len() == 0 {
        push_str(&mut c, "could not display");
    } else {
        push_chars(&mut c, &words, words.len());
        assert(words@.take(words@.len() as int) =~= words@);
    }
    assert(c@ =~= "[image: "@ + alt_part + dims_part + caption_reason(reason@));
    push_str(&mut c, "]");
    c
}

} // verus!
