//! Native terminal graphics: bounded Kitty, Sixel and iTerm2 serialization,
//! and the lifecycle of native images placed on the alternate screen.
//!
//! Every byte stream is bounded before it is handed out: one image never
//! exceeds the native output limit or the chunk limit, and any failure is
//! typed and happens before a single terminal byte is written.
use vstd::prelude::*;
use base64::Engine;
use image::ImageEncoder;

use std::sync::Arc;

use crate::bytes::{decimal_bytes, extend_bytes, push_decimal_bytes};
use crate::image::DecodedImage;
use crate::strings::utf8;
use crate::terminal_image::{
    clamp, nearest_xterm_index, render_half_blocks, render_outcome, sample, CellColorMode, CellRenderError, HalfBlockFrame, spec_sample, spec_xterm_index, CellPixelSize, ImageBackend, ImageId,
    NativeEncodeError, Rgb, NATIVE_CHUNK_LIMIT, NATIVE_OUTPUT_LIMIT_BYTES,
};

verus! {

/// Bytes of one Sixel or iTerm2 stream chunk.
pub const STREAM_CHUNK_BYTES: usize = 65536;

/// The output-limit rejection.
pub open spec fn too_large() -> NativeEncodeError {
    NativeEncodeError::OutputTooLarge { limit: NATIVE_OUTPUT_LIMIT_BYTES }
}

/// Appends `bytes` unless the output would exceed the native output limit,
/// which is inclusive.
pub fn append_native(output: &mut Vec<u8>, bytes: &[u8]) -> (r: Result<(), NativeEncodeError>)
    ensures
        old(output)@.len() + bytes@.len() > NATIVE_OUTPUT_LIMIT_BYTES ==> r == Err::<(), NativeEncodeError>(
            too_large(),
        ) && final(output)@ == old(output)@,
        old(output)@.len() + bytes@.len() <= NATIVE_OUTPUT_LIMIT_BYTES ==> r is Ok && final(output)@ == old(
            output,
        )@ + bytes@,
{
    if bytes.len() > NATIVE_OUTPUT_LIMIT_BYTES || output.len() > NATIVE_OUTPUT_LIMIT_BYTES - bytes.len() {
        return Err(NativeEncodeError::OutputTooLarge { limit: NATIVE_OUTPUT_LIMIT_BYTES });
    }
    let mut i: usize = 0;
    while i < bytes.len()
        invariant
            i <= bytes@.len(),
            output@ == old(output)@ + bytes@.subrange(0, i as int),
        decreases bytes.len() - i,
    {
        output.push(bytes[i]);
        i = i + 1;
        assert(output@ =~= old(output)@ + bytes@.subrange(0, i as int));
    }
    assert(bytes@.subrange(0, bytes@.len() as int) =~= bytes@);
    Ok(())
}

/// The views of a list of chunks.
pub open spec fn chunk_views(chunks: Seq<Vec<u8>>) -> Seq<Seq<u8>> {
    chunks.map_values(|c: Vec<u8>| c@)
}

/// The total length of a list of byte strings.
pub open spec fn total_len(chunks: Seq<Seq<u8>>) -> int
    decreases chunks.len(),
{
    if chunks.len() == 0 {
        0
    } else {
        total_len(chunks.drop_last()) + chunks.last().len()
    }
}

/// The verdict on a finished chunk list: too many chunks first, then too
/// many bytes in all.
pub open spec fn chunk_verdict(chunks: Seq<Seq<u8>>) -> Result<(), NativeEncodeError> {
    if chunks.len() > NATIVE_CHUNK_LIMIT {
        Err(NativeEncodeError::TooManyChunks { limit: NATIVE_CHUNK_LIMIT })
    } else if total_len(chunks) > NATIVE_OUTPUT_LIMIT_BYTES {
        Err(too_large())
    } else {
        Ok(())
    }
}

proof fn lemma_total_len_prefix(chunks: Seq<Seq<u8>>, i: int, j: int)
    requires
        0 <= i <= j <= chunks.len(),
    ensures
        total_len(chunks.take(i)) <= total_len(chunks.take(j)),
    decreases j - i,
{
    if i < j {
        assert(chunks.take(j).drop_last() =~= chunks.take(j - 1));
        lemma_total_len_prefix(chunks, i, j - 1);
    }
}

/// Rejects a chunk list over the chunk limit or the output limit.
pub fn check_native_chunks(chunks: &[Vec<u8>]) -> (r: Result<(), NativeEncodeError>)
    ensures
        r == chunk_verdict(chunk_views(chunks@)),
{
    let ghost all = chunk_views(chunks@);
    if chunks.len() > NATIVE_CHUNK_LIMIT {
        return Err(NativeEncodeError::TooManyChunks { limit: NATIVE_CHUNK_LIMIT });
    }
    let mut total: usize = 0;
    let mut i: usize = 0;
    assert(all.take(0) =~= Seq::<Seq<u8>>::empty());
    while i < chunks.len()
        invariant
            all == chunk_views(chunks@),
            all.len() == chunks@.len(),
            i <= chunks@.len(),
            total == total_len(all.take(i as int)),
            total <= NATIVE_OUTPUT_LIMIT_BYTES,
            chunks@.len() <= NATIVE_CHUNK_LIMIT,
        decreases chunks.len() - i,
    {
        let n = chunks[i].len();
        assert(all.take(i + 1).drop_last() =~= all.take(i as int));
        assert(all.take(i + 1).last() == chunks@[i as int]@);
        assert(total_len(all.take(i + 1)) == total + n);
        if n > NATIVE_OUTPUT_LIMIT_BYTES - total {
            proof {
                lemma_total_len_prefix(all, i + 1, all.len() as int);
                assert(all.take(all.len() as int) =~= all);
                assert(total_len(all) > NATIVE_OUTPUT_LIMIT_BYTES);
                assert(all.len() <= NATIVE_CHUNK_LIMIT);
            }
            return Err(NativeEncodeError::OutputTooLarge { limit: NATIVE_OUTPUT_LIMIT_BYTES });
        }
        total = total + n;
        i = i + 1;
    }
    assert(all.take(i as int) =~= all);
    Ok(())
}

/// Base64 output length for `input` bytes, or the output-limit rejection
/// when the arithmetic would overflow.
pub fn encoded_len(input: usize) -> (r: Result<usize, NativeEncodeError>)
    ensures
        input + 2 > usize::MAX || (input + 2) / 3 * 4 > usize::MAX ==> r == Err::<usize, NativeEncodeError>(
            too_large(),
        ),
        input + 2 <= usize::MAX && (input + 2) / 3 * 4 <= usize::MAX ==> r == Ok::<usize, NativeEncodeError>(
            ((input + 2) / 3 * 4) as usize,
        ),
{
    match input.checked_add(2) {
        None => Err(NativeEncodeError::OutputTooLarge { limit: NATIVE_OUTPUT_LIMIT_BYTES }),
        Some(padded) => match (padded / 3).checked_mul(4) {
            None => Err(NativeEncodeError::OutputTooLarge { limit: NATIVE_OUTPUT_LIMIT_BYTES }),
            Some(n) => Ok(n),
        },
    }
}

/// A colour channel as a Sixel percentage, rounded to nearest.
pub open spec fn spec_percent(value: u8) -> int {
    (value * 100 + 127) / 255
}

pub fn percent(value: u8) -> (p: u16)
    ensures
        p == spec_percent(value),
        p <= 100,
{
    ((value as u16) * 100 + 127) / 255
}

/// The xterm cube level of a component index.
pub open spec fn level(i: int) -> u8 {
    if i == 0 {
        0
    } else if i == 1 {
        95
    } else if i == 2 {
        135
    } else if i == 3 {
        175
    } else if i == 4 {
        215
    } else {
        255
    }
}

/// The colour of an xterm palette entry: the 6x6x6 cube, then the gray ramp;
/// the sixteen system colours have no fixed value and read as black.
pub open spec fn spec_xterm_rgb(index: u8) -> Rgb {
    if 16 <= index <= 231 {
        let v = index - 16;
        Rgb(level(v / 36), level(v % 36 / 6), level(v % 6))
    } else if index >= 232 {
        let l = (8 + (index - 232) * 10) as u8;
        Rgb(l, l, l)
    } else {
        Rgb(0, 0, 0)
    }
}

fn level_value(i: u8) -> (l: u8)
    requires
        i < 6,
    ensures
        l == level(i as int),
{
    if i == 0 {
        0
    } else if i == 1 {
        95
    } else if i == 2 {
        135
    } else if i == 3 {
        175
    } else if i == 4 {
        215
    } else {
        255
    }
}

pub fn xterm_rgb(index: u8) -> (c: Rgb)
    ensures
        c == spec_xterm_rgb(index),
{
    if 16 <= index && index <= 231 {
        let v = index - 16;
        Rgb(level_value(v / 36), level_value(v % 36 / 6), level_value(v % 6))
    } else if index >= 232 {
        let l = 8 + (index - 232) * 10;
        Rgb(l, l, l)
    } else {
        Rgb(0, 0, 0)
    }
}

// ---------------------------------------------------------------------------
// Sixel
// ---------------------------------------------------------------------------

/// The xterm palette index of each RGBA pixel.
pub open spec fn pixel_indices(rgba: Seq<u8>) -> Seq<u8> {
    Seq::new(
        (rgba.len() / 4) as nat,
        |p: int| spec_xterm_index(Rgb(rgba[4 * p], rgba[4 * p + 1], rgba[4 * p + 2])) as u8,
    )
}

/// The number of distinct values in `s`.
pub open spec fn distinct_count(s: Seq<u8>) -> int
    decreases s.len(), 1int,
{
    if s.len() == 0 {
        0
    } else if local_index(s.drop_last(), s.last()) is Some {
        distinct_count(s.drop_last())
    } else {
        distinct_count(s.drop_last()) + 1
    }
}

/// The local Sixel register of palette index `x`: registers are given in
/// order of first appearance (saturating at 255), or none when `x` never
/// appears.
pub open spec fn local_index(s: Seq<u8>, x: u8) -> Option<u8>
    decreases s.len(), 0int,
{
    if s.len() == 0 {
        None
    } else {
        match local_index(s.drop_last(), x) {
            Some(i) => Some(i),
            None => if s.last() == x {
                let n = distinct_count(s.drop_last());
                Some(if n > 255 { 255u8 } else { n as u8 })
            } else {
                None
            },
        }
    }
}

/// One palette register definition: `#l;2;r;g;b` in percentages.
pub open spec fn palette_entry(x: u8, l: u8) -> Seq<u8> {
    let c = spec_xterm_rgb(x);
    seq![0x23u8] + decimal_bytes(l as nat) + seq![0x3bu8, 0x32u8, 0x3bu8] + decimal_bytes(spec_percent(c.0) as nat)
        + seq![0x3bu8] + decimal_bytes(spec_percent(c.1) as nat) + seq![0x3bu8] + decimal_bytes(
        spec_percent(c.2) as nat,
    )
}

/// The register definitions for palette indices `x` and up, in index order.
pub open spec fn palette_defs(s: Seq<u8>, x: int) -> Seq<u8>
    decreases 256 - x,
{
    if x < 0 || x >= 256 {
        Seq::empty()
    } else {
        (match local_index(s, x as u8) {
            Some(l) => palette_entry(x as u8, l),
            None => Seq::empty(),
        }) + palette_defs(s, x + 1)
    }
}

/// Whether pixel row `b + bit` of column `c` has palette index `x`.
pub open spec fn hit(w: int, h: int, s: Seq<u8>, b: int, x: u8, c: int, bit: int) -> bool {
    b + bit < h && s[(b + bit) * w + c] == x
}

/// The weight of mask bit `k`, for the six rows of a band.
pub open spec fn weight(k: int) -> int {
    if k <= 0 {
        1
    } else if k == 1 {
        2
    } else if k == 2 {
        4
    } else if k == 3 {
        8
    } else if k == 4 {
        16
    } else if k == 5 {
        32
    } else {
        64
    }
}

/// The mask of the first `n` rows of a six-row band, bit zero on top.
pub open spec fn mask_upto(w: int, h: int, s: Seq<u8>, b: int, x: u8, c: int, n: int) -> int
    decreases n,
{
    if n <= 0 {
        0
    } else {
        mask_upto(w, h, s, b, x, c, n - 1) + if hit(w, h, s, b, x, c, n - 1) {
            weight(n - 1)
        } else {
            0
        }
    }
}

/// The sixel byte of one column of a band for one colour.
pub open spec fn column_byte(w: int, h: int, s: Seq<u8>, b: int, x: u8, c: int) -> u8 {
    (0x3f + mask_upto(w, h, s, b, x, c, 6)) as u8
}

/// The sixel bytes of a band for one colour, column by column.
pub open spec fn band_columns(w: int, h: int, s: Seq<u8>, b: int, x: u8) -> Seq<u8> {
    Seq::new(w as nat, |c: int| column_byte(w, h, s, b, x, c))
}

/// One run of `n` equal bytes: `!n` and the byte from four on, the bytes
/// themselves below that.
pub open spec fn emit_run(byte: u8, n: nat) -> Seq<u8> {
    if n >= 4 {
        seq![0x21u8] + decimal_bytes(n) + seq![byte]
    } else {
        Seq::new(n, |k: int| byte)
    }
}

/// Run-length encoding of `cols` from index `i` with a pending run of `len`
/// copies of `byte`.
pub open spec fn rle_from(cols: Seq<u8>, i: int, byte: u8, len: nat) -> Seq<u8>
    decreases cols.len() - i,
{
    if i < 0 || i >= cols.len() {
        emit_run(byte, len)
    } else if len == 0 || cols[i] == byte {
        rle_from(cols, i + 1, cols[i], len + 1)
    } else {
        emit_run(byte, len) + rle_from(cols, i + 1, cols[i], 1)
    }
}

/// One colour's pass over a band: select the register, the encoded
/// columns, and return to the band's start.
pub open spec fn color_pass(w: int, h: int, s: Seq<u8>, b: int, x: u8, l: u8) -> Seq<u8> {
    seq![0x23u8] + decimal_bytes(l as nat) + rle_from(band_columns(w, h, s, b, x), 0, 0, 0) + seq![0x24u8]
}

/// The colour passes of a band for palette indices `x` and up.
pub open spec fn colors_from(w: int, h: int, s: Seq<u8>, b: int, x: int) -> Seq<u8>
    decreases 256 - x,
{
    if x < 0 || x >= 256 {
        Seq::empty()
    } else {
        (match local_index(s, x as u8) {
            Some(l) => color_pass(w, h, s, b, x as u8, l),
            None => Seq::empty(),
        }) + colors_from(w, h, s, b, x + 1)
    }
}

/// The bands from pixel row `b` on, each followed by a line feed `-`
/// unless it is the last.
pub open spec fn bands_from(w: int, h: int, s: Seq<u8>, b: int) -> Seq<u8>
    decreases h - b + 6,
{
    if b < 0 || b >= h {
        Seq::empty()
    } else {
        colors_from(w, h, s, b, 0) + (if b + 6 < h {
            seq![0x2du8]
        } else {
            Seq::empty()
        }) + bands_from(w, h, s, b + 6)
    }
}

/// `ESC P 0;0;0 q "1;1;w;h`: the DCS introducer and raster attributes.
pub open spec fn sixel_header(w: u32, h: u32) -> Seq<u8> {
    seq![0x1bu8, 0x50u8, 0x30u8, 0x3bu8, 0x30u8, 0x3bu8, 0x30u8, 0x71u8] + seq![
        0x22u8,
        0x31u8,
        0x3bu8,
        0x31u8,
        0x3bu8,
    ] + decimal_bytes(w as nat) + seq![0x3bu8] + decimal_bytes(h as nat)
}

/// The whole Sixel stream for an RGBA raster.
pub open spec fn sixel_stream(w: u32, h: u32, rgba: Seq<u8>) -> Seq<u8> {
    let s = pixel_indices(rgba);
    sixel_header(w, h) + palette_defs(s, 0) + bands_from(w as int, h as int, s, 0) + seq![0x1bu8, 0x5cu8]
}

/// A closure that never reports cancellation.
pub open spec fn never_cancels<F: Fn() -> bool>(f: F) -> bool {
    forall|out: bool| f.ensures((), out) ==> !out
}

/// Whether a cancellation callback answers "cancelled" on every call.
pub open spec fn always_cancels<F: Fn() -> bool>(f: F) -> bool {
    forall|out: bool| f.ensures((), out) ==> out
}

/// Appends one part of a stream whose remainder is known, proving on
/// failure that the whole stream is over the limit.
fn append_part(output: &mut Vec<u8>, part: &[u8], Ghost(stream): Ghost<Seq<u8>>, Ghost(rest): Ghost<Seq<u8>>) -> (r:
    Result<(), NativeEncodeError>)
    requires
        stream == old(output)@ + part@ + rest,
    ensures
        r is Ok ==> final(output)@ == old(output)@ + part@ && final(output)@.len() <= NATIVE_OUTPUT_LIMIT_BYTES,
        r is Err ==> r == Err::<(), NativeEncodeError>(too_large()) && stream.len() > NATIVE_OUTPUT_LIMIT_BYTES,
{
    append_native(output, part)
}

fn palette_indices<F: Fn() -> bool>(rgba: &[u8], cancelled: &F) -> (r: Result<Vec<u8>, NativeEncodeError>)
    requires
        rgba@.len() % 4 == 0,
        cancelled.requires(()),
    ensures
        match r {
            Ok(v) => v@ == pixel_indices(rgba@),
            Err(e) => e == NativeEncodeError::Cancelled && !never_cancels(*cancelled),
        },
        always_cancels(*cancelled) && rgba@.len() > 0 ==> r == Err::<Vec<u8>, NativeEncodeError>(
            NativeEncodeError::Cancelled,
        ),
{
    let count = rgba.len() / 4;
    let mut indices: Vec<u8> = Vec::new();
    let mut p: usize = 0;
    while p < count
        invariant
            count == rgba@.len() / 4,
            rgba@.len() == rgba.len(),
            rgba@.len() % 4 == 0,
            cancelled.requires(()),
            p <= count,
            indices@ == pixel_indices(rgba@).take(p as int),
            always_cancels(*cancelled) && count > 0 ==> p == 0,
        decreases count - p,
    {
        assert(4 * p + 3 < rgba@.len()) by (nonlinear_arith)
            requires
                p < count,
                count == rgba@.len() / 4,
                rgba@.len() % 4 == 0,
        ;
        if p % 1024 == 0 {
            if cancelled() {
                return Err(NativeEncodeError::Cancelled);
            }
        }
        let index = nearest_xterm_index(Rgb(rgba[4 * p], rgba[4 * p + 1], rgba[4 * p + 2]));
        indices.push(index);
        p = p + 1;
        assert(indices@ =~= pixel_indices(rgba@).take(p as int));
    }
    assert(pixel_indices(rgba@).take(count as int) =~= pixel_indices(rgba@));
    Ok(indices)
}

/// The register table: for each palette index, its local register.
fn register_table(s: &Vec<u8>) -> (table: Vec<Option<u8>>)
    ensures
        table@.len() == 256,
        forall|x: int| 0 <= x < 256 ==> #[trigger] table@[x] == local_index(s@, x as u8),
{
    let mut table: Vec<Option<u8>> = Vec::new();
    let mut x: usize = 0;
    while x < 256
        invariant
            x <= 256,
            table@.len() == x,
            forall|k: int| 0 <= k < x ==> #[trigger] table@[k] == local_index(s@.take(0), k as u8),
        decreases 256 - x,
    {
        table.push(None);
        x = x + 1;
    }
    let mut count: usize = 0;
    let mut i: usize = 0;
    while i < s.len()
        invariant
            i <= s@.len(),
            table@.len() == 256,
            count == distinct_count(s@.take(i as int)),
            count <= i,
            forall|k: int| 0 <= k < 256 ==> #[trigger] table@[k] == local_index(s@.take(i as int), k as u8),
        decreases s.len() - i,
    {
        let v = s[i];
        let ghost prior = s@.take(i as int);
        let ghost next = s@.take(i + 1);
        assert(next.drop_last() =~= prior);
        assert(next.last() == v);
        assert(table@[v as int] == local_index(prior, v));
        if table[v as usize].is_none() {
            let register: u8 = if count > 255 { 255 } else { count as u8 };
            table.set(v as usize, Some(register));
            count = count + 1;
        }
        assert forall|k: int| 0 <= k < 256 implies #[trigger] table@[k] == local_index(next, k as u8) by {
            assert(local_index(next, k as u8) == match local_index(prior, k as u8) {
                Some(j) => Some(j),
                None => if v == k as u8 {
                    let n = distinct_count(prior);
                    Some(if n > 255 { 255u8 } else { n as u8 })
                } else {
                    None
                },
            });
        }
        i = i + 1;
    }
    assert(s@.take(s@.len() as int) =~= s@);
    table
}

fn decimal_part(prefix: u8, n: u64) -> (v: Vec<u8>)
    ensures
        v@ == seq![prefix] + decimal_bytes(n as nat),
{
    let mut v: Vec<u8> = Vec::new();
    v.push(prefix);
    push_decimal_bytes(&mut v, n);
    v
}

fn run_bytes(byte: u8, n: usize) -> (v: Vec<u8>)
    ensures
        v@ == emit_run(byte, n as nat),
{
    if n >= 4 {
        let mut v = decimal_part(0x21, n as u64);
        v.push(byte);
        v
    } else {
        let mut v: Vec<u8> = Vec::new();
        let mut k: usize = 0;
        while k < n
            invariant
                k <= n,
                n < 4,
                v@ == Seq::new(k as nat, |j: int| byte),
            decreases n - k,
        {
            v.push(byte);
            k = k + 1;
            assert(v@ =~= Seq::new(k as nat, |j: int| byte));
        }
        v
    }
}

fn column_mask(w: u32, h: u32, s: &Vec<u8>, b: u32, x: u8, c: u32) -> (byte: u8)
    requires
        s@.len() == w * h,
        c < w,
        b < h,
    ensures
        byte == column_byte(w as int, h as int, s@, b as int, x, c as int),
{
    let mut mask: u8 = 0;
    let mut bit: u32 = 0;
    let mut value: u8 = 1;
    while bit < 6
        invariant
            s@.len() == w * h,
            s@.len() == s.len(),
            c < w,
            b < h,
            bit <= 6,
            value == weight(bit as int),
            mask == mask_upto(w as int, h as int, s@, b as int, x, c as int, bit as int),
            mask < value,
            value <= 64,
        decreases 6 - bit,
    {
        let row = b as u64 + bit as u64;
        let ghost before = mask;
        if row < h as u64 {
            assert(row * (w as int) + c < (w as int) * (h as int)) by (nonlinear_arith)
                requires
                    row < h,
                    c < w,
            ;
            assert(row * (w as int) <= 0xFFFF_FFFFu64 * 0xFFFF_FFFFu64) by (nonlinear_arith)
                requires
                    row <= 0xFFFF_FFFFu64,
                    w <= 0xFFFF_FFFFu64,
            ;
            assert(row * (w as int) + c < s@.len());
            let offset = (row * (w as u64) + (c as u64)) as usize;
            assert(offset as int == (b + bit) * (w as int) + c);
            if s[offset] == x {
                mask = mask + value;
            }
        }
        assert(mask == before + if hit(w as int, h as int, s@, b as int, x, c as int, bit as int) {
            weight(bit as int)
        } else {
            0
        });
        value = value * 2;
        bit = bit + 1;
    }
    0x3f + mask
}

/// Consecutive pieces of `size` bytes, the last one shorter: what
/// `<[u8]>::chunks` yields.
pub open spec fn split_chunks(s: Seq<u8>, size: int) -> Seq<Seq<u8>>
    decreases s.len(),
{
    if s.len() == 0 || size <= 0 {
        Seq::empty()
    } else if s.len() <= size {
        seq![s]
    } else {
        seq![s.take(size)] + split_chunks(s.skip(size), size)
    }
}

pub proof fn lemma_split_piece_sizes(s: Seq<u8>, size: int)
    requires
        size > 0,
    ensures
        forall|i: int| 0 <= i < split_chunks(s, size).len() ==> (#[trigger] split_chunks(s, size)[i]).len() <= size,
    decreases s.len(),
{
    if s.len() > size {
        lemma_split_piece_sizes(s.skip(size), size);
        let rest = split_chunks(s.skip(size), size);
        assert forall|i: int| 0 <= i < split_chunks(s, size).len() implies (#[trigger] split_chunks(s, size)[i]).len()
            <= size by {
            if i > 0 {
                assert(split_chunks(s, size)[i] == rest[i - 1]);
            }
        }
    }
}

/// Splits `bytes` into pieces of `size` bytes.
pub fn chunk_bytes(bytes: &[u8], size: usize) -> (chunks: Vec<Vec<u8>>)
    requires
        size > 0,
    ensures
        chunk_views(chunks@) == split_chunks(bytes@, size as int),
{
    let mut chunks: Vec<Vec<u8>> = Vec::new();
    let mut start: usize = 0;
    assert(bytes@.skip(0) =~= bytes@);
    assert(chunk_views(chunks@) =~= Seq::<Seq<u8>>::empty());
    while start < bytes.len()
        invariant
            size > 0,
            start <= bytes@.len(),
            split_chunks(bytes@, size as int) == chunk_views(chunks@) + split_chunks(bytes@.skip(start as int), size as int),
        decreases bytes.len() - start,
    {
        let ghost before = chunk_views(chunks@);
        let ghost rest = bytes@.skip(start as int);
        let end = if bytes.len() - start <= size { bytes.len() } else { start + size };
        let mut piece: Vec<u8> = Vec::new();
        let mut k = start;
        while k < end
            invariant
                start <= k <= end <= bytes@.len(),
                piece@ == bytes@.subrange(start as int, k as int),
            decreases end - k,
        {
            piece.push(bytes[k]);
            k = k + 1;
            assert(piece@ =~= bytes@.subrange(start as int, k as int));
        }
        chunks.push(piece);
        assert(chunk_views(chunks@) =~= before.push(bytes@.subrange(start as int, end as int)));
        if end == bytes.len() {
            assert(rest =~= bytes@.subrange(start as int, end as int));
            assert(bytes@.skip(end as int) =~= Seq::<u8>::empty());
            assert(split_chunks(rest, size as int) == seq![rest]);
            assert(split_chunks(bytes@, size as int) =~= chunk_views(chunks@) + split_chunks(bytes@.skip(end as int), size as int));
        } else {
            assert(rest.take(size as int) =~= bytes@.subrange(start as int, end as int));
            assert(rest.skip(size as int) =~= bytes@.skip(end as int));
            assert(split_chunks(bytes@, size as int) =~= chunk_views(chunks@) + split_chunks(bytes@.skip(end as int), size as int));
        }
        start = end;
    }
    assert(bytes@.skip(start as int) =~= Seq::<u8>::empty());
    assert(split_chunks(bytes@, size as int) =~= chunk_views(chunks@));
    chunks
}

fn palette_entry_bytes(x: u8, l: u8) -> (v: Vec<u8>)
    ensures
        v@ == palette_entry(x, l),
{
    let c = xterm_rgb(x);
    let mut v = decimal_part(0x23, l as u64);
    v.push(0x3b);
    v.push(0x32);
    v.push(0x3b);
    push_decimal_bytes(&mut v, percent(c.0) as u64);
    v.push(0x3b);
    push_decimal_bytes(&mut v, percent(c.1) as u64);
    v.push(0x3b);
    push_decimal_bytes(&mut v, percent(c.2) as u64);
    assert(v@ =~= palette_entry(x, l));
    v
}

/// What building the Sixel stream gives: the stream itself within the
/// limit, the output-limit rejection above it, or cancellation when the
/// closure reported it.
pub open spec fn stream_outcome<F: Fn() -> bool>(stream: Seq<u8>, cancelled: F, r: Result<Vec<u8>, NativeEncodeError>) -> bool {
    match r {
        Ok(v) => v@ == stream && stream.len() <= NATIVE_OUTPUT_LIMIT_BYTES,
        Err(e) => (e == too_large() && stream.len() > NATIVE_OUTPUT_LIMIT_BYTES) || (e
            == NativeEncodeError::Cancelled && !never_cancels(cancelled)),
    }
}

#[verifier::rlimit(40)]
fn sixel_stream_bytes<F: Fn() -> bool>(width: u32, height: u32, rgba: &[u8], cancelled: &F) -> (r: Result<
    Vec<u8>,
    NativeEncodeError,
>)
    requires
        rgba@.len() == width * height * 4,
        cancelled.requires(()),
    ensures
        stream_outcome(sixel_stream(width, height, rgba@), *cancelled, r),
        always_cancels(*cancelled) && rgba@.len() > 0 ==> r == Err::<Vec<u8>, NativeEncodeError>(
            NativeEncodeError::Cancelled,
        ),
{
    assert((width * height * 4) % 4 == 0 && (width * height * 4) / 4 == width * height) by (nonlinear_arith);
    let indices = match palette_indices(rgba, cancelled) {
        Ok(v) => v,
        Err(e) => return Err(e),
    };
    let ghost s = indices@;
    assert(s.len() == width * height);
    let table = register_table(&indices);
    let ghost w = width as int;
    let ghost h = height as int;
    let ghost stream = sixel_stream(width, height, rgba@);
    let ghost st = seq![0x1bu8, 0x5cu8];
    let mut output: Vec<u8> = Vec::new();
    let head = vec![0x1bu8, 0x50u8, 0x30u8, 0x3bu8, 0x30u8, 0x3bu8, 0x30u8, 0x71u8];
    let mut raster = vec![0x22u8, 0x31u8, 0x3bu8, 0x31u8, 0x3bu8];
    push_decimal_bytes(&mut raster, width as u64);
    raster.push(0x3b);
    push_decimal_bytes(&mut raster, height as u64);
    assert(sixel_header(width, height) =~= head@ + raster@);
    let ghost body = palette_defs(s, 0) + bands_from(w, h, s, 0) + st;
    assert(stream =~= output@ + head@ + (raster@ + body));
    if let Err(e) = append_part(&mut output, &head, Ghost(stream), Ghost(raster@ + body)) {
        return Err(e);
    }
    assert(stream =~= output@ + raster@ + body);
    if let Err(e) = append_part(&mut output, &raster, Ghost(stream), Ghost(body)) {
        return Err(e);
    }
    let mut x: usize = 0;
    while x < 256
        invariant
            !(always_cancels(*cancelled) && rgba@.len() > 0),
            x <= 256,
            table@.len() == 256,
            forall|k: int| 0 <= k < 256 ==> #[trigger] table@[k] == local_index(s, k as u8),
            stream == output@ + palette_defs(s, x as int) + bands_from(w, h, s, 0) + st,
            stream == sixel_stream(width, height, rgba@),
        decreases 256 - x,
    {
        let ghost tail = palette_defs(s, x + 1) + bands_from(w, h, s, 0) + st;
        if let Some(l) = table[x] {
            let entry = palette_entry_bytes(x as u8, l);
            assert(stream =~= output@ + entry@ + tail);
            if let Err(e) = append_part(&mut output, &entry, Ghost(stream), Ghost(tail)) {
                return Err(e);
            }
        } else {
            assert(stream =~= output@ + tail);
        }
        x = x + 1;
    }
    let mut band: u64 = 0;
    while band < height as u64
        invariant
            !(always_cancels(*cancelled) && rgba@.len() > 0),
            s.len() == w * h,
            s == indices@,
            w == width,
            h == height,
            table@.len() == 256,
            forall|k: int| 0 <= k < 256 ==> #[trigger] table@[k] == local_index(s, k as u8),
            stream == output@ + bands_from(w, h, s, band as int) + st,
            stream == sixel_stream(width, height, rgba@),
            cancelled.requires(()),
        decreases height as u64 + 6 - band,
    {
        if cancelled() {
            return Err(NativeEncodeError::Cancelled);
        }
        let ghost dash = if band + 6 < h { seq![0x2du8] } else { Seq::<u8>::empty() };
        let ghost after = dash + bands_from(w, h, s, band + 6) + st;
        assert(stream =~= output@ + colors_from(w, h, s, band as int, 0) + after);
        let mut x: usize = 0;
        while x < 256
            invariant
                !(always_cancels(*cancelled) && rgba@.len() > 0),
                s.len() == w * h,
                s == indices@,
                w == width,
                h == height,
                band < height,
                table@.len() == 256,
                forall|k: int| 0 <= k < 256 ==> #[trigger] table@[k] == local_index(s, k as u8),
                x <= 256,
                stream == output@ + colors_from(w, h, s, band as int, x as int) + after,
                stream == sixel_stream(width, height, rgba@),
                cancelled.requires(()),
            decreases 256 - x,
        {
            if cancelled() {
                return Err(NativeEncodeError::Cancelled);
            }
            let ghost next = colors_from(w, h, s, band as int, x + 1) + after;
            if let Some(l) = table[x] {
                let ghost cols = band_columns(w, h, s, band as int, x as u8);
                let select = decimal_part(0x23, l as u64);
                let ghost rest = rle_from(cols, 0, 0, 0) + seq![0x24u8] + next;
                assert(stream =~= output@ + select@ + rest);
                if let Err(e) = append_part(&mut output, &select, Ghost(stream), Ghost(rest)) {
                    return Err(e);
                }
                let mut run_byte: u8 = 0;
                let mut run_len: usize = 0;
                let mut column: u32 = 0;
                while column < width
                    invariant
                        !(always_cancels(*cancelled) && rgba@.len() > 0),
                        s.len() == w * h,
                        s == indices@,
                        w == width,
                        h == height,
                        band < height,
                        x < 256,
                        cols == band_columns(w, h, s, band as int, x as u8),
                        stream == sixel_stream(width, height, rgba@),
                        column <= width,
                        run_len <= column,
                        stream == output@ + rle_from(cols, column as int, run_byte, run_len as nat) + seq![0x24u8]
                            + next,
                        cancelled.requires(()),
                    decreases width - column,
                {
                    if column % 1024 == 0 {
                        if cancelled() {
                            return Err(NativeEncodeError::Cancelled);
                        }
                    }
                    let byte = column_mask(width, height, &indices, band as u32, x as u8, column);
                    assert(cols[column as int] == byte);
                    if run_len == 0 || byte == run_byte {
                        run_byte = byte;
                        run_len = run_len + 1;
                    } else {
                        let run = run_bytes(run_byte, run_len);
                        let ghost later = rle_from(cols, column + 1, byte, 1) + seq![0x24u8] + next;
                        assert(stream =~= output@ + run@ + later);
                        if let Err(e) = append_part(&mut output, &run, Ghost(stream), Ghost(later)) {
                            return Err(e);
                        }
                        run_byte = byte;
                        run_len = 1;
                    }
                    column = column + 1;
                }
                let run = run_bytes(run_byte, run_len);
                let close = vec![0x24u8];
                assert(stream =~= output@ + run@ + (close@ + next));
                if let Err(e) = append_part(&mut output, &run, Ghost(stream), Ghost(close@ + next)) {
                    return Err(e);
                }
                assert(stream =~= output@ + close@ + next);
                if let Err(e) = append_part(&mut output, &close, Ghost(stream), Ghost(next)) {
                    return Err(e);
                }
            } else {
                assert(stream =~= output@ + next);
            }
            x = x + 1;
        }
        assert(colors_from(w, h, s, band as int, 256) =~= Seq::<u8>::empty());
        if band + 6 < height as u64 {
            let feed = vec![0x2du8];
            let ghost later = bands_from(w, h, s, band + 6) + st;
            assert(stream =~= output@ + feed@ + later);
            if let Err(e) = append_part(&mut output, &feed, Ghost(stream), Ghost(later)) {
                return Err(e);
            }
        } else {
            assert(stream =~= output@ + bands_from(w, h, s, band + 6) + st);
        }
        band = band + 6;
    }
    let terminator = vec![0x1bu8, 0x5cu8];
    assert(stream =~= output@ + terminator@ + Seq::<u8>::empty());
    if let Err(e) = append_part(&mut output, &terminator, Ghost(stream), Ghost(Seq::<u8>::empty())) {
        return Err(e);
    }
    assert(output@ =~= stream);
    Ok(output)
}

/// The verdict on the Sixel output of a raster: the output-limit rejection
/// when the stream is too long, else the stream in 64 KiB chunks subject to
/// the chunk checks.
pub open spec fn sixel_result(width: u32, height: u32, rgba: Seq<u8>, r: Result<Vec<Vec<u8>>, NativeEncodeError>) -> bool {
    let stream = sixel_stream(width, height, rgba);
    if stream.len() > NATIVE_OUTPUT_LIMIT_BYTES {
        r == Err::<Vec<Vec<u8>>, NativeEncodeError>(too_large())
    } else {
        match chunk_verdict(split_chunks(stream, STREAM_CHUNK_BYTES as int)) {
            Err(e) => r == Err::<Vec<Vec<u8>>, NativeEncodeError>(e),
            Ok(()) => r matches Ok(chunks) && chunk_views(chunks@) == split_chunks(stream, STREAM_CHUNK_BYTES as int),
        }
    }
}

/// Encodes a raster as one bounded Sixel stream in 64 KiB chunks.
pub fn sixel_chunks<F: Fn() -> bool>(width: u32, height: u32, rgba: &[u8], cancelled: &F) -> (r: Result<
    Vec<Vec<u8>>,
    NativeEncodeError,
>)
    requires
        rgba@.len() == width * height * 4,
        cancelled.requires(()),
    ensures
        sixel_result(width, height, rgba@, r) || (r == Err::<Vec<Vec<u8>>, NativeEncodeError>(
            NativeEncodeError::Cancelled,
        ) && !never_cancels(*cancelled)),
        always_cancels(*cancelled) && rgba@.len() > 0 ==> r == Err::<Vec<Vec<u8>>, NativeEncodeError>(
            NativeEncodeError::Cancelled,
        ),
{
    let stream = match sixel_stream_bytes(width, height, rgba, cancelled) {
        Ok(v) => v,
        Err(e) => return Err(e),
    };
    let chunks = chunk_bytes(stream.as_slice(), STREAM_CHUNK_BYTES);
    match check_native_chunks(chunks.as_slice()) {
        Ok(()) => Ok(chunks),
        Err(e) => Err(e),
    }
}

// ---------------------------------------------------------------------------
// Base64 and PNG
// ---------------------------------------------------------------------------

/// The digit for a six-bit value in the standard base64 alphabet.
pub open spec fn base64_digit(v: int) -> char {
    if v < 26 {
        ('A' as int + v) as char
    } else if v < 52 {
        ('a' as int + (v - 26)) as char
    } else if v < 62 {
        ('0' as int + (v - 52)) as char
    } else if v == 62 {
        '+'
    } else {
        '/'
    }
}

/// The standard padded base64 text of `bytes`: every group of three bytes
/// becomes four digits of six bits each, most significant first; a last
/// group of one or two bytes fills its final digit with zero bits and is
/// padded with `=` to four characters.
pub open spec fn base64_text(bytes: Seq<u8>) -> Seq<char>
    decreases bytes.len(),
{
    if bytes.len() == 0 {
        Seq::empty()
    } else if bytes.len() == 1 {
        let a = bytes[0] as int;
        seq![base64_digit(a / 4), base64_digit((a % 4) * 16), '=', '=']
    } else if bytes.len() == 2 {
        let a = bytes[0] as int;
        let b = bytes[1] as int;
        seq![base64_digit(a / 4), base64_digit((a % 4) * 16 + b / 16), base64_digit((b % 16) * 4), '=']
    } else {
        let a = bytes[0] as int;
        let b = bytes[1] as int;
        let c = bytes[2] as int;
        seq![
            base64_digit(a / 4),
            base64_digit((a % 4) * 16 + b / 16),
            base64_digit((b % 16) * 4 + c / 64),
            base64_digit(c % 64),
        ] + base64_text(bytes.subrange(3, bytes.len() as int))
    }
}

/// The PNG file that `image::codecs::png::PngEncoder` writes for an RGBA8
/// raster, or `None` when the encoder refuses it.
pub uninterp spec fn png_file(width: u32, height: u32, rgba: Seq<u8>) -> Option<Seq<u8>>;

/// `base64::engine::general_purpose::STANDARD.encode`: the standard
/// alphabet with padding, as `base64_text` spells it out. The crate panics
/// only when the output length overflows, which the bound rules out.
#[verifier::external_body]
fn base64_encode(bytes: &[u8]) -> (text: String)
    requires
        bytes@.len() <= 0x1000_0000,
    ensures
        text@ == base64_text(bytes@),
{
    base64::engine::general_purpose::STANDARD.encode(bytes)
}

/// Why the PNG sink refused a piece of the encoder's output.
#[derive(Clone, Copy, Debug, PartialEq, Eq, Structural)]
pub enum PngWriteRefusal {
    /// The cancellation check answered `true`.
    Cancelled,
    /// Accepting the piece would take the file past the native output limit.
    TooLarge,
}

/// The sink the PNG encoder writes into. It asks the cancellation check
/// before every piece and refuses, before growing its buffer, a piece that
/// would take the file past `NATIVE_OUTPUT_LIMIT_BYTES`.
pub struct BoundedPngWriter<'a, F> {
    bytes: Vec<u8>,
    cancelled: &'a F,
    was_cancelled: bool,
    exceeded: bool,
}

impl<'a, F: Fn() -> bool> BoundedPngWriter<'a, F> {
    /// The bytes accepted so far.
    pub closed spec fn spec_bytes(&self) -> Seq<u8> {
        self.bytes@
    }

    /// The cancellation check asked before every piece.
    pub closed spec fn spec_check(&self) -> F {
        *self.cancelled
    }

    /// Whether a piece was refused because the check answered `true`.
    pub closed spec fn spec_was_cancelled(&self) -> bool {
        self.was_cancelled
    }

    /// Whether a piece was refused for the output limit.
    pub closed spec fn spec_exceeded(&self) -> bool {
        self.exceeded
    }

    /// A sink holding `bytes` that asks `cancelled` before every piece.
    pub fn new(bytes: Vec<u8>, cancelled: &'a F) -> (w: Self)
        ensures
            w.spec_bytes() == bytes@,
            w.spec_check() == *cancelled,
            !w.spec_was_cancelled(),
            !w.spec_exceeded(),
    {
        BoundedPngWriter { bytes, cancelled, was_cancelled: false, exceeded: false }
    }

    /// The bytes accepted so far.
    pub fn bytes(&self) -> (b: &[u8])
        ensures
            b@ == self.spec_bytes(),
    {
        self.bytes.as_slice()
    }

    /// Whether a piece was refused because the check answered `true`.
    pub fn was_cancelled(&self) -> (c: bool)
        ensures
            c == self.spec_was_cancelled(),
    {
        self.was_cancelled
    }

    /// Whether a piece was refused for the output limit.
    pub fn exceeded(&self) -> (e: bool)
        ensures
            e == self.spec_exceeded(),
    {
        self.exceeded
    }

    /// The bytes accepted, giving up the sink.
    pub fn into_bytes(self) -> (b: Vec<u8>)
        ensures
            b@ == self.spec_bytes(),
    {
        self.bytes
    }

    /// Offers one piece of the encoder's output. A `true` answer of the
    /// check refuses it as cancelled; a piece that would take the buffer
    /// past the limit is refused before the buffer grows; otherwise it is
    /// appended whole. A refusal leaves the bytes as they were.
    pub fn offer(&mut self, piece: &[u8]) -> (r: Result<usize, PngWriteRefusal>)
        requires
            old(self).spec_check().requires(()),
        ensures
            final(self).spec_check() == old(self).spec_check(),
            match r {
                Ok(n) => {
                    &&& n == piece@.len()
                    &&& old(self).spec_bytes().len() + piece@.len() <= NATIVE_OUTPUT_LIMIT_BYTES
                    &&& final(self).spec_bytes() == old(self).spec_bytes() + piece@
                    &&& final(self).spec_was_cancelled() == old(self).spec_was_cancelled()
                    &&& final(self).spec_exceeded() == old(self).spec_exceeded()
                },
                Err(PngWriteRefusal::TooLarge) => {
                    &&& old(self).spec_bytes().len() + piece@.len() > NATIVE_OUTPUT_LIMIT_BYTES
                    &&& final(self).spec_bytes() == old(self).spec_bytes()
                    &&& final(self).spec_was_cancelled() == old(self).spec_was_cancelled()
                    &&& final(self).spec_exceeded()
                },
                Err(PngWriteRefusal::Cancelled) => {
                    &&& !never_cancels(old(self).spec_check())
                    &&& final(self).spec_bytes() == old(self).spec_bytes()
                    &&& final(self).spec_was_cancelled()
                    &&& final(self).spec_exceeded() == old(self).spec_exceeded()
                },
            },
            always_cancels(old(self).spec_check()) ==> r == Err::<usize, PngWriteRefusal>(PngWriteRefusal::Cancelled),
    {
        let answer = (self.cancelled)();
        if answer {
            self.was_cancelled = true;
            return Err(PngWriteRefusal::Cancelled);
        }
        if piece.len() > NATIVE_OUTPUT_LIMIT_BYTES || self.bytes.len() > NATIVE_OUTPUT_LIMIT_BYTES - piece.len() {
            self.exceeded = true;
            return Err(PngWriteRefusal::TooLarge);
        }
        extend_bytes(&mut self.bytes, piece);
        Ok(piece.len())
    }
}

impl<'a, F: Fn() -> bool> std::io::Write for BoundedPngWriter<'a, F> {
    /// `offer`, with a refusal turned into the `std::io::Error` that the
    /// encoder reports: `Other` for a cancellation, `FileTooLarge` for the
    /// limit.
    #[verifier::external_body]
    fn write(&mut self, piece: &[u8]) -> std::io::Result<usize> {
        match self.offer(piece) {
            Ok(n) => Ok(n),
            Err(PngWriteRefusal::Cancelled) => Err(std::io::Error::other("cancelled")),
            Err(PngWriteRefusal::TooLarge) => Err(std::io::Error::new(std::io::ErrorKind::FileTooLarge, "PNG limit")),
        }
    }

    /// Nothing is buffered beyond the accepted bytes.
    #[verifier::external_body]
    fn flush(&mut self) -> std::io::Result<()> {
        Ok(())
    }
}

/// `image::codecs::png::PngEncoder::write_image` with RGBA8 samples, into a
/// `BoundedPngWriter` that asks `cancelled`; the encoder's success and the
/// sink come back. Claimed: the encoder writes the bytes of `png_file` in
/// order, so a sink that refused nothing holds the whole file when the
/// encoder succeeded and the file does not exist when it failed, and a
/// size refusal means the file would be longer than the limit. Only the
/// sink's own `offer` sets its flags, and it keeps the buffer within the
/// limit. The encoder panics unless the buffer holds exactly four bytes per
/// pixel, which the precondition rules out.
#[verifier::external_body]
fn png_encode<'a, F: Fn() -> bool>(width: u32, height: u32, rgba: &[u8], cancelled: &'a F) -> (r: (bool, BoundedPngWriter<'a, F>))
    requires
        rgba@.len() == width as int * height as int * 4,
        cancelled.requires(()),
    ensures
        r.1.spec_check() == *cancelled,
        r.1.spec_bytes().len() <= NATIVE_OUTPUT_LIMIT_BYTES,
        r.1.spec_was_cancelled() ==> !never_cancels(*cancelled),
        !r.1.spec_was_cancelled() && r.1.spec_exceeded() ==> (png_file(width, height, rgba@) matches Some(f)
            ==> f.len() > NATIVE_OUTPUT_LIMIT_BYTES),
        !r.1.spec_was_cancelled() && !r.1.spec_exceeded() ==> if r.0 {
            png_file(width, height, rgba@) == Some(r.1.spec_bytes())
        } else {
            png_file(width, height, rgba@) is None
        },
{
    let mut writer = BoundedPngWriter::new(Vec::new(), cancelled);
    let encoded = image::codecs::png::PngEncoder::new(&mut writer)
        .write_image(rgba, width, height, image::ExtendedColorType::Rgba8)
        .is_ok();
    (encoded, writer)
}

/// Encodes a raster as a PNG file no longer than the native output limit:
/// a cancellation wins, then a size refusal, then an encoder failure.
fn png_bytes<F: Fn() -> bool>(width: u32, height: u32, rgba: &[u8], cancelled: &F) -> (r: Result<Vec<u8>, NativeEncodeError>)
    requires
        rgba@.len() == width as int * height as int * 4,
        cancelled.requires(()),
    ensures
        match r {
            Ok(v) => png_file(width, height, rgba@) == Some(v@) && v@.len() <= NATIVE_OUTPUT_LIMIT_BYTES,
            Err(NativeEncodeError::Cancelled) => !never_cancels(*cancelled),
            Err(NativeEncodeError::OutputTooLarge { limit }) => limit == NATIVE_OUTPUT_LIMIT_BYTES && (png_file(
                width,
                height,
                rgba@,
            ) matches Some(f) ==> f.len() > NATIVE_OUTPUT_LIMIT_BYTES),
            Err(NativeEncodeError::Png) => png_file(width, height, rgba@) is None,
            Err(_) => false,
        },
{
    let (encoded, writer) = png_encode(width, height, rgba, cancelled);
    if writer.was_cancelled() {
        return Err(NativeEncodeError::Cancelled);
    }
    if writer.exceeded() {
        return Err(NativeEncodeError::OutputTooLarge { limit: NATIVE_OUTPUT_LIMIT_BYTES });
    }
    if !encoded {
        return Err(NativeEncodeError::Png);
    }
    Ok(writer.into_bytes())
}

fn push_text(out: &mut Vec<u8>, text: &str)
    ensures
        final(out)@ == old(out)@ + utf8(text@),
{
    extend_bytes(out, text.as_bytes());
}

// ---------------------------------------------------------------------------
// Kitty
// ---------------------------------------------------------------------------

/// Raw RGBA bytes per Kitty chunk: 4096 base64 bytes of payload.
pub const KITTY_RAW_CHUNK_BYTES: usize = 3072;

/// The control data of the first Kitty chunk: transmit and display RGBA
/// with the image and placement id, its cell size, quietly, and whether more
/// chunks follow.
pub open spec fn kitty_first_prefix(id: u32, width: u32, height: u32, columns: u16, rows: u16, more: nat) -> Seq<u8> {
    utf8("\x1b_Ga=T,t=d,f=32,s="@) + decimal_bytes(width as nat) + utf8(",v="@) + decimal_bytes(height as nat)
        + utf8(",i="@) + decimal_bytes(id as nat) + utf8(",p="@) + decimal_bytes(id as nat) + utf8(",c="@)
        + decimal_bytes(columns as nat) + utf8(",r="@) + decimal_bytes(rows as nat) + utf8(",q=2,m="@)
        + decimal_bytes(more) + utf8(";"@)
}

/// The control data of a continuation chunk.
pub open spec fn kitty_next_prefix(more: nat) -> Seq<u8> {
    utf8("\x1b_Gm="@) + decimal_bytes(more) + utf8(";"@)
}

/// Kitty chunk `index` of `count`, carrying `raw` as base64.
pub open spec fn kitty_chunk(
    index: int,
    count: int,
    raw: Seq<u8>,
    id: u32,
    width: u32,
    height: u32,
    columns: u16,
    rows: u16,
) -> Seq<u8> {
    let more: nat = if index + 1 < count { 1 } else { 0 };
    (if index == 0 {
        kitty_first_prefix(id, width, height, columns, rows, more)
    } else {
        kitty_next_prefix(more)
    }) + utf8(base64_text(raw)) + seq![0x1bu8, 0x5cu8]
}

/// What serializing a raster for Kitty gives: the payload and chunk-count
/// limits first, then the chunks subject to the chunk checks.
pub open spec fn kitty_result(
    id: u32,
    width: u32,
    height: u32,
    columns: u16,
    rows: u16,
    rgba: Seq<u8>,
    r: Result<Vec<Vec<u8>>, NativeEncodeError>,
) -> bool {
    let count = (rgba.len() + KITTY_RAW_CHUNK_BYTES - 1) / KITTY_RAW_CHUNK_BYTES as int;
    let raws = split_chunks(rgba, KITTY_RAW_CHUNK_BYTES as int);
    let chunks = Seq::new(raws.len(), |i: int| kitty_chunk(i, count, raws[i], id, width, height, columns, rows));
    if (rgba.len() + 2) / 3 * 4 > NATIVE_OUTPUT_LIMIT_BYTES {
        r == Err::<Vec<Vec<u8>>, NativeEncodeError>(too_large())
    } else if count > NATIVE_CHUNK_LIMIT {
        r == Err::<Vec<Vec<u8>>, NativeEncodeError>(NativeEncodeError::TooManyChunks { limit: NATIVE_CHUNK_LIMIT })
    } else {
        match chunk_verdict(chunks) {
            Err(e) => r == Err::<Vec<Vec<u8>>, NativeEncodeError>(e),
            Ok(()) => r matches Ok(v) && chunk_views(v@) == chunks,
        }
    }
}

/// Serializes an RGBA raster as Kitty graphics chunks.
pub fn kitty_chunks<F: Fn() -> bool>(
    id: ImageId,
    width: u32,
    height: u32,
    columns: u16,
    rows: u16,
    rgba: &[u8],
    cancelled: &F,
) -> (r: Result<Vec<Vec<u8>>, NativeEncodeError>)
    requires
        cancelled.requires(()),
        rgba@.len() <= NATIVE_OUTPUT_LIMIT_BYTES,
    ensures
        kitty_result(id.spec_get(), width, height, columns, rows, rgba@, r) || (r == Err::<
            Vec<Vec<u8>>,
            NativeEncodeError,
        >(NativeEncodeError::Cancelled) && !never_cancels(*cancelled)),
{
    let base64_len = match encoded_len(rgba.len()) {
        Ok(n) => n,
        Err(e) => return Err(e),
    };
    if base64_len > NATIVE_OUTPUT_LIMIT_BYTES {
        return Err(NativeEncodeError::OutputTooLarge { limit: NATIVE_OUTPUT_LIMIT_BYTES });
    }
    let count = (rgba.len() + KITTY_RAW_CHUNK_BYTES - 1) / KITTY_RAW_CHUNK_BYTES;
    if count > NATIVE_CHUNK_LIMIT {
        return Err(NativeEncodeError::TooManyChunks { limit: NATIVE_CHUNK_LIMIT });
    }
    let raws = chunk_bytes(rgba, KITTY_RAW_CHUNK_BYTES);
    let ghost views = chunk_views(raws@);
    proof {
        lemma_split_piece_sizes(rgba@, KITTY_RAW_CHUNK_BYTES as int);
        assert forall|i: int| 0 <= i < raws@.len() implies (#[trigger] raws@[i])@.len() <= KITTY_RAW_CHUNK_BYTES by {
            assert(views[i] == raws@[i]@);
        }
    }
    let ghost expected = Seq::new(
        views.len(),
        |i: int| kitty_chunk(i, count as int, views[i], id.spec_get(), width, height, columns, rows),
    );
    let mut chunks: Vec<Vec<u8>> = Vec::new();
    let mut index: usize = 0;
    while index < raws.len()
        invariant
            views == chunk_views(raws@),
            views.len() == raws@.len(),
            index <= raws@.len(),
            expected == Seq::new(
                views.len(),
                |i: int| kitty_chunk(i, count as int, views[i], id.spec_get(), width, height, columns, rows),
            ),
            chunk_views(chunks@) == expected.take(index as int),
            cancelled.requires(()),
            forall|i: int| 0 <= i < raws@.len() ==> (#[trigger] raws@[i])@.len() <= KITTY_RAW_CHUNK_BYTES,
        decreases raws.len() - index,
    {
        if cancelled() {
            return Err(NativeEncodeError::Cancelled);
        }
        let raw = &raws[index];
        let payload = base64_encode(raw.as_slice());
        let more: u64 = if index + 1 < count { 1 } else { 0 };
        let mut chunk: Vec<u8> = Vec::new();
        if index == 0 {
            push_text(&mut chunk, "\x1b_Ga=T,t=d,f=32,s=");
            push_decimal_bytes(&mut chunk, width as u64);
            push_text(&mut chunk, ",v=");
            push_decimal_bytes(&mut chunk, height as u64);
            push_text(&mut chunk, ",i=");
            push_decimal_bytes(&mut chunk, id.get() as u64);
            push_text(&mut chunk, ",p=");
            push_decimal_bytes(&mut chunk, id.get() as u64);
            push_text(&mut chunk, ",c=");
            push_decimal_bytes(&mut chunk, columns as u64);
            push_text(&mut chunk, ",r=");
            push_decimal_bytes(&mut chunk, rows as u64);
            push_text(&mut chunk, ",q=2,m=");
            push_decimal_bytes(&mut chunk, more);
            push_text(&mut chunk, ";");
        } else {
            push_text(&mut chunk, "\x1b_Gm=");
            push_decimal_bytes(&mut chunk, more);
            push_text(&mut chunk, ";");
        }
        push_text(&mut chunk, payload.as_str());
        chunk.push(0x1b);
        chunk.push(0x5c);
        let ghost before = chunk_views(chunks@);
        assert(chunk@ =~= expected[index as int]);
        chunks.push(chunk);
        assert(chunk_views(chunks@) =~= before.push(expected[index as int]));
        assert(expected.take(index + 1) =~= expected.take(index as int).push(expected[index as int]));
        index = index + 1;
    }
    assert(expected.take(index as int) =~= expected);
    match check_native_chunks(chunks.as_slice()) {
        Ok(()) => Ok(chunks),
        Err(e) => Err(e),
    }
}

// ---------------------------------------------------------------------------
// Fitting
// ---------------------------------------------------------------------------

/// The pixel size an image is scaled to so that it fits `max_width` by
/// `max_height` with its aspect ratio kept (rounded, at least one pixel).
pub open spec fn spec_fit_native(width: int, height: int, max_width: int, max_height: int) -> (int, int) {
    if width * max_height > height * max_width {
        (max_width, clamp((height * max_width + width / 2) / width, 1, max_height))
    } else {
        (clamp((width * max_height + height / 2) / height, 1, max_width), max_height)
    }
}

pub fn fit_native_dimensions(width: u32, height: u32, max_width: u32, max_height: u32) -> (fitted: (u32, u32))
    requires
        width > 0,
        height > 0,
    ensures
        (fitted.0 as int, fitted.1 as int) == spec_fit_native(width as int, height as int, max_width as int, max_height as int),
{
    let w = width as u64;
    let h = height as u64;
    let mw = max_width as u64;
    let mh = max_height as u64;
    assert(w * mh <= 0xFFFF_FFFFu64 * 0xFFFF_FFFFu64) by (nonlinear_arith)
        requires
            w <= 0xFFFF_FFFFu64,
            mh <= 0xFFFF_FFFFu64,
    ;
    assert(h * mw <= 0xFFFF_FFFFu64 * 0xFFFF_FFFFu64) by (nonlinear_arith)
        requires
            h <= 0xFFFF_FFFFu64,
            mw <= 0xFFFF_FFFFu64,
    ;
    if w * mh > h * mw {
        let raw = (h * mw + w / 2) / w;
        let fitted_height = if raw < 1 { 1 } else if raw > mh { mh } else { raw };
        (max_width, fitted_height as u32)
    } else {
        let raw = (w * mh + h / 2) / h;
        let fitted_width = if raw < 1 { 1 } else if raw > mw { mw } else { raw };
        (fitted_width as u32, max_height)
    }
}

/// The fitted raster: each output pixel sampled from the source and
/// composited over the background, fully opaque.
pub open spec fn fitted_pixels(rgba: Seq<u8>, sw: int, sh: int, fw: int, fh: int, background: Rgb) -> Seq<u8> {
    Seq::new(
        (fw * fh * 4) as nat,
        |i: int|
            {
                let p = i / 4;
                let c = spec_sample(rgba, sw, sh, p % fw, p / fw, fw, fh, background);
                let k = i % 4;
                if k == 0 {
                    c.0
                } else if k == 1 {
                    c.1
                } else if k == 2 {
                    c.2
                } else {
                    255u8
                }
            },
    )
}

/// What fitting an image into `max_width` by `max_height` pixels gives:
/// empty geometry, a buffer that does not match its geometry, an output
/// over the limit, or the fitted raster.
pub open spec fn fit_result(
    sw: u32,
    sh: u32,
    rgba: Seq<u8>,
    max_width: u32,
    max_height: u32,
    background: Rgb,
    r: Result<(u32, u32, Vec<u8>), NativeEncodeError>,
) -> bool {
    if sw == 0 || sh == 0 || max_width == 0 || max_height == 0 {
        r == Err::<(u32, u32, Vec<u8>), NativeEncodeError>(NativeEncodeError::EmptyGeometry)
    } else if sw * sh * 4 > usize::MAX || rgba.len() != sw * sh * 4 {
        r == Err::<(u32, u32, Vec<u8>), NativeEncodeError>(NativeEncodeError::InvalidBuffer)
    } else {
        let (fw, fh) = spec_fit_native(sw as int, sh as int, max_width as int, max_height as int);
        if fw * fh * 4 > NATIVE_OUTPUT_LIMIT_BYTES {
            r == Err::<(u32, u32, Vec<u8>), NativeEncodeError>(too_large())
        } else {
            r matches Ok((w, h, v)) && w == fw && h == fh && v@ == fitted_pixels(rgba, sw as int, sh as int, fw, fh, background)
        }
    }
}

proof fn lemma_pixel_position(x: int, y: int, fw: int, k: int)
    requires
        0 <= x < fw,
        0 <= y,
        0 <= k < 4,
    ensures
        (4 * (y * fw + x) + k) / 4 == y * fw + x,
        (4 * (y * fw + x) + k) % 4 == k,
        (y * fw + x) % fw == x,
        (y * fw + x) / fw == y,
{
    vstd::arithmetic::div_mod::lemma_fundamental_div_mod_converse(4 * (y * fw + x) + k, 4, y * fw + x, k);
    vstd::arithmetic::div_mod::lemma_fundamental_div_mod_converse(y * fw + x, fw, y, x);
}

pub fn fitted_rgba<F: Fn() -> bool>(
    image: &DecodedImage,
    max_width: u32,
    max_height: u32,
    background: Rgb,
    cancelled: &F,
) -> (r: Result<(u32, u32, Vec<u8>), NativeEncodeError>)
    requires
        cancelled.requires(()),
    ensures
        fit_result(image.spec_width(), image.spec_height(), image.spec_rgba(), max_width, max_height, background, r)
            || (r == Err::<(u32, u32, Vec<u8>), NativeEncodeError>(NativeEncodeError::Cancelled) && !never_cancels(
            *cancelled,
        )),
{
    let sw = image.width();
    let sh = image.height();
    if sw == 0 || sh == 0 || max_width == 0 || max_height == 0 {
        return Err(NativeEncodeError::EmptyGeometry);
    }
    assert((sw as int) * (sh as int) <= 0xFFFF_FFFFu64 * 0xFFFF_FFFFu64) by (nonlinear_arith)
        requires
            sw <= 0xFFFF_FFFFu64,
            sh <= 0xFFFF_FFFFu64,
    ;
    let pixels = (sw as u64) * (sh as u64);
    let expected = match pixels.checked_mul(4) {
        Some(n) => n,
        None => return Err(NativeEncodeError::InvalidBuffer),
    };
    if expected > usize::MAX as u64 {
        return Err(NativeEncodeError::InvalidBuffer);
    }
    let rgba = image.rgba();
    if rgba.len() != expected as usize {
        return Err(NativeEncodeError::InvalidBuffer);
    }
    let (fw, fh) = fit_native_dimensions(sw, sh, max_width, max_height);
    assert((fw as int) * (fh as int) <= 0xFFFF_FFFFu64 * 0xFFFF_FFFFu64) by (nonlinear_arith)
        requires
            fw <= 0xFFFF_FFFFu64,
            fh <= 0xFFFF_FFFFu64,
    ;
    let fitted = (fw as u64) * (fh as u64);
    let output_len = match fitted.checked_mul(4) {
        Some(n) => n,
        None => return Err(NativeEncodeError::OutputTooLarge { limit: NATIVE_OUTPUT_LIMIT_BYTES }),
    };
    if output_len > NATIVE_OUTPUT_LIMIT_BYTES as u64 {
        return Err(NativeEncodeError::OutputTooLarge { limit: NATIVE_OUTPUT_LIMIT_BYTES });
    }
    proof {
        vstd::arithmetic::mul::lemma_mul_nonnegative(fw as int, fh as int);
    }
    assert(fw > 0 && fh > 0);
    let ghost target = fitted_pixels(rgba@, sw as int, sh as int, fw as int, fh as int, background);
    let mut output: Vec<u8> = Vec::new();
    let mut y: u32 = 0;
    while y < fh
        invariant
            0 < fw,
            0 < fh,
            y <= fh,
            sw > 0,
            sh > 0,
            rgba@.len() == sw * sh * 4,
            rgba@ == image.spec_rgba(),
            (fw as int) * (fh as int) * 4 <= NATIVE_OUTPUT_LIMIT_BYTES,
            target == fitted_pixels(rgba@, sw as int, sh as int, fw as int, fh as int, background),
            output@ == target.take(4 * (y * fw)),
            cancelled.requires(()),
        decreases fh - y,
    {
        if cancelled() {
            return Err(NativeEncodeError::Cancelled);
        }
        let mut x: u32 = 0;
        while x < fw
            invariant
                0 < fw,
                y < fh,
                x <= fw,
                sw > 0,
                sh > 0,
                rgba@.len() == sw * sh * 4,
                (fw as int) * (fh as int) * 4 <= NATIVE_OUTPUT_LIMIT_BYTES,
                target == fitted_pixels(rgba@, sw as int, sh as int, fw as int, fh as int, background),
                output@ == target.take(4 * (y * fw + x)),
            decreases fw - x,
        {
            let pixel = sample(rgba.as_slice(), sw, sh, x, y, fw, fh, background);
            let ghost at = 4 * (y * fw + x);
            assert(at + 4 <= (fw as int) * (fh as int) * 4) by (nonlinear_arith)
                requires
                    at == 4 * (y * fw + x),
                    x < fw,
                    y < fh,
            ;
            proof {
                lemma_pixel_position(x as int, y as int, fw as int, 0);
                lemma_pixel_position(x as int, y as int, fw as int, 1);
                lemma_pixel_position(x as int, y as int, fw as int, 2);
                lemma_pixel_position(x as int, y as int, fw as int, 3);
            }
            output.push(pixel.0);
            output.push(pixel.1);
            output.push(pixel.2);
            output.push(255);
            assert(output@ =~= target.take(at + 4));
            x = x + 1;
        }
        assert(4 * (y * fw + fw) == 4 * ((y + 1) * fw)) by (nonlinear_arith);
        y = y + 1;
    }
    assert(4 * (fh * fw) == (fw as int) * (fh as int) * 4) by (nonlinear_arith);
    assert(target.take(4 * (fh * fw)) =~= target);
    Ok((fw, fh, output))
}

// ---------------------------------------------------------------------------
// iTerm2
// ---------------------------------------------------------------------------

/// Raw PNG bytes per iTerm2 file part: 64 KiB of base64.
pub const ITERM_RAW_PART_BYTES: usize = 49152;

/// The multipart header: inline display, the byte size, the cell size, and
/// a generated base64 name.
pub open spec fn iterm2_header(id: u32, columns: u16, rows: u16, size: nat) -> Seq<u8> {
    utf8("\x1b]1337;MultipartFile=inline=1;size="@) + decimal_bytes(size) + utf8(";width="@) + decimal_bytes(
        columns as nat,
    ) + utf8(";height="@) + decimal_bytes(rows as nat) + utf8(";preserveAspectRatio=1;name="@) + utf8(
        base64_text(image_name(id)),
    ) + seq![0x07u8]
}

/// The generated file name `termleaf-<id>.png`.
pub open spec fn image_name(id: u32) -> Seq<u8> {
    seq![0x74u8, 0x65u8, 0x72u8, 0x6du8, 0x6cu8, 0x65u8, 0x61u8, 0x66u8, 0x2du8] + decimal_bytes(id as nat) + seq![
        0x2eu8,
        0x70u8,
        0x6eu8,
        0x67u8,
    ]
}

/// One file part.
pub open spec fn iterm2_part(raw: Seq<u8>) -> Seq<u8> {
    utf8("\x1b]1337;FilePart="@) + utf8(base64_text(raw)) + seq![0x07u8]
}

/// The closing part.
pub open spec fn iterm2_end() -> Seq<u8> {
    utf8("\x1b]1337;FileEnd\x07"@)
}

/// The iTerm2 chunks for a PNG file.
pub open spec fn iterm2_stream(id: u32, columns: u16, rows: u16, png: Seq<u8>) -> Seq<Seq<u8>> {
    let raws = split_chunks(png, ITERM_RAW_PART_BYTES as int);
    seq![iterm2_header(id, columns, rows, png.len())] + Seq::new(raws.len(), |i: int| iterm2_part(raws[i]))
        + seq![iterm2_end()]
}

/// What serializing a raster for iTerm2 gives: the encoder's refusal (or
/// the size refusal, when it failed only after passing the limit), the PNG
/// size limits, or the chunks subject to the chunk checks.
pub open spec fn iterm2_result(
    id: u32,
    columns: u16,
    rows: u16,
    width: u32,
    height: u32,
    rgba: Seq<u8>,
    r: Result<Vec<Vec<u8>>, NativeEncodeError>,
) -> bool {
    match png_file(width, height, rgba) {
        None => r == Err::<Vec<Vec<u8>>, NativeEncodeError>(NativeEncodeError::Png) || r == Err::<
            Vec<Vec<u8>>,
            NativeEncodeError,
        >(too_large()),
        Some(png) => if png.len() > NATIVE_OUTPUT_LIMIT_BYTES || (png.len() + 2) / 3 * 4 > NATIVE_OUTPUT_LIMIT_BYTES {
            r == Err::<Vec<Vec<u8>>, NativeEncodeError>(too_large())
        } else {
            match chunk_verdict(iterm2_stream(id, columns, rows, png)) {
                Err(e) => r == Err::<Vec<Vec<u8>>, NativeEncodeError>(e),
                Ok(()) => r matches Ok(v) && chunk_views(v@) == iterm2_stream(id, columns, rows, png),
            }
        }
    }
}

/// Serializes a raster as an iTerm2 multipart PNG transfer.
pub fn iterm2_chunks<F: Fn() -> bool>(
    id: ImageId,
    columns: u16,
    rows: u16,
    width: u32,
    height: u32,
    rgba: &[u8],
    cancelled: &F,
) -> (r: Result<Vec<Vec<u8>>, NativeEncodeError>)
    requires
        cancelled.requires(()),
        rgba@.len() == width as int * height as int * 4,
    ensures
        iterm2_result(id.spec_get(), columns, rows, width, height, rgba@, r) || (r == Err::<
            Vec<Vec<u8>>,
            NativeEncodeError,
        >(NativeEncodeError::Cancelled) && !never_cancels(*cancelled)),
        always_cancels(*cancelled) ==> r == Err::<Vec<Vec<u8>>, NativeEncodeError>(NativeEncodeError::Cancelled),
{
    if cancelled() {
        return Err(NativeEncodeError::Cancelled);
    }
    let png = match png_bytes(width, height, rgba, cancelled) {
        Ok(p) => p,
        Err(e) => return Err(e),
    };
    match encoded_len(png.len()) {
        Ok(n) => if n > NATIVE_OUTPUT_LIMIT_BYTES {
            return Err(NativeEncodeError::OutputTooLarge { limit: NATIVE_OUTPUT_LIMIT_BYTES });
        },
        Err(e) => return Err(e),
    }
    let mut name_source: Vec<u8> = vec![0x74u8, 0x65u8, 0x72u8, 0x6du8, 0x6cu8, 0x65u8, 0x61u8, 0x66u8, 0x2du8];
    push_decimal_bytes(&mut name_source, id.get() as u64);
    name_source.push(0x2e);
    name_source.push(0x70);
    name_source.push(0x6e);
    name_source.push(0x67);
    proof {
        crate::bytes::lemma_decimal_len_u64(id.spec_get() as u64);
    }
    assert(name_source@ =~= image_name(id.spec_get()));
    let name = base64_encode(name_source.as_slice());
    let mut header: Vec<u8> = Vec::new();
    push_text(&mut header, "\x1b]1337;MultipartFile=inline=1;size=");
    push_decimal_bytes(&mut header, png.len() as u64);
    push_text(&mut header, ";width=");
    push_decimal_bytes(&mut header, columns as u64);
    push_text(&mut header, ";height=");
    push_decimal_bytes(&mut header, rows as u64);
    push_text(&mut header, ";preserveAspectRatio=1;name=");
    push_text(&mut header, name.as_str());
    header.push(0x07);
    let ghost expected = iterm2_stream(id.spec_get(), columns, rows, png@);
    assert(header@ =~= expected[0]);
    let mut chunks: Vec<Vec<u8>> = Vec::new();
    chunks.push(header);
    let raws = chunk_bytes(png.as_slice(), ITERM_RAW_PART_BYTES);
    let ghost views = chunk_views(raws@);
    proof {
        lemma_split_piece_sizes(png@, ITERM_RAW_PART_BYTES as int);
    }
    let mut index: usize = 0;
    assert(chunk_views(chunks@) =~= expected.take(1));
    while index < raws.len()
        invariant
            views == chunk_views(raws@),
            views == split_chunks(png@, ITERM_RAW_PART_BYTES as int),
            views.len() == raws@.len(),
            forall|i: int| 0 <= i < views.len() ==> (#[trigger] views[i]).len() <= ITERM_RAW_PART_BYTES,
            expected == iterm2_stream(id.spec_get(), columns, rows, png@),
            index <= raws@.len(),
            chunk_views(chunks@) == expected.take(index + 1),
            cancelled.requires(()),
        decreases raws.len() - index,
    {
        if cancelled() {
            return Err(NativeEncodeError::Cancelled);
        }
        assert(views[index as int] == raws@[index as int]@);
        let part = base64_encode(raws[index].as_slice());
        let mut chunk: Vec<u8> = Vec::new();
        push_text(&mut chunk, "\x1b]1337;FilePart=");
        push_text(&mut chunk, part.as_str());
        chunk.push(0x07);
        let ghost before = chunk_views(chunks@);
        assert(chunk@ =~= expected[index + 1]);
        chunks.push(chunk);
        assert(chunk_views(chunks@) =~= before.push(expected[index + 1]));
        assert(expected.take(index + 2) =~= expected.take(index + 1).push(expected[index + 1]));
        index = index + 1;
    }
    let mut end: Vec<u8> = Vec::new();
    push_text(&mut end, "\x1b]1337;FileEnd\x07");
    let ghost before = chunk_views(chunks@);
    chunks.push(end);
    assert(chunk_views(chunks@) =~= before.push(iterm2_end()));
    assert(chunk_views(chunks@) =~= expected);
    match check_native_chunks(chunks.as_slice()) {
        Ok(()) => Ok(chunks),
        Err(e) => Err(e),
    }
}

// ---------------------------------------------------------------------------
// Encoded images
// ---------------------------------------------------------------------------

/// Bounded, pre-encoded image output for one native protocol.
#[derive(Debug)]
pub struct NativeImage {
    id: ImageId,
    backend: ImageBackend,
    columns: u16,
    rows: u16,
    chunks: Vec<Vec<u8>>,
}

impl NativeImage {
    #[verifier::type_invariant]
    spec fn bounded(self) -> bool {
        total_len(chunk_views(self.chunks@)) <= NATIVE_OUTPUT_LIMIT_BYTES
    }

    pub closed spec fn spec_id(&self) -> ImageId {
        self.id
    }

    pub closed spec fn spec_backend(&self) -> ImageBackend {
        self.backend
    }

    pub closed spec fn spec_columns(&self) -> u16 {
        self.columns
    }

    pub closed spec fn spec_rows(&self) -> u16 {
        self.rows
    }

    pub closed spec fn spec_chunks(&self) -> Seq<Seq<u8>> {
        chunk_views(self.chunks@)
    }

    pub fn id(&self) -> (i: ImageId)
        ensures
            i == self.spec_id(),
    {
        self.id
    }

    pub fn backend(&self) -> (b: ImageBackend)
        ensures
            b == self.spec_backend(),
    {
        self.backend
    }

    pub fn columns(&self) -> (c: u16)
        ensures
            c == self.spec_columns(),
    {
        self.columns
    }

    pub fn rows(&self) -> (r: u16)
        ensures
            r == self.spec_rows(),
    {
        self.rows
    }

    pub fn chunks(&self) -> (c: &[Vec<u8>])
        ensures
            chunk_views(c@) == self.spec_chunks(),
    {
        self.chunks.as_slice()
    }

    /// The total bytes the image sends to the terminal.
    pub fn wire_bytes(&self) -> (n: usize)
        ensures
            n == total_len(self.spec_chunks()),
    {
        proof {
            use_type_invariant(self);
        }
        let ghost all = chunk_views(self.chunks@);
        let mut total: usize = 0;
        let mut i: usize = 0;
        assert(all.take(0) =~= Seq::<Seq<u8>>::empty());
        while i < self.chunks.len()
            invariant
                all == chunk_views(self.chunks@),
                all.len() == self.chunks@.len(),
                total_len(all) <= NATIVE_OUTPUT_LIMIT_BYTES,
                i <= all.len(),
                total == total_len(all.take(i as int)),
            decreases self.chunks.len() - i,
        {
            assert(all.take(i + 1).drop_last() =~= all.take(i as int));
            assert(all.take(i + 1).last() == self.chunks@[i as int]@);
            proof {
                lemma_total_len_prefix(all, i + 1, all.len() as int);
                assert(all.take(all.len() as int) =~= all);
            }
            total = total + self.chunks[i].len();
            i = i + 1;
        }
        assert(all.take(i as int) =~= all);
        total
    }
}

/// The pixel box and cell size a backend fits an image into: Sixel works
/// in measured cell pixels, the others in half-block pixels of one by two.
pub open spec fn native_geometry(backend: ImageBackend, max_columns: u16, max_rows: u16, cell: CellPixelSize) -> (
    int,
    int,
    int,
    int,
) {
    if backend == ImageBackend::Sixel {
        (max_columns * cell.width, max_rows * cell.height, cell.width as int, cell.height as int)
    } else {
        (max_columns as int, max_rows * 2, 1, 2)
    }
}

/// Integer division rounding up.
pub open spec fn div_ceil(a: int, b: int) -> int {
    (a + b - 1) / b
}

/// The serialization verdict for a backend on a fitted raster.
pub open spec fn backend_result(
    backend: ImageBackend,
    id: ImageId,
    w: u32,
    h: u32,
    columns: u16,
    rows: u16,
    rgba: Seq<u8>,
    r: Result<Vec<Vec<u8>>, NativeEncodeError>,
) -> bool {
    match backend {
        ImageBackend::Kitty => kitty_result(id.spec_get(), w, h, columns, rows, rgba, r),
        ImageBackend::Sixel => sixel_result(w, h, rgba, r),
        _ => iterm2_result(id.spec_get(), columns, rows, w, h, rgba, r),
    }
}

/// The chunk list of an encoding result.
pub closed spec fn result_chunks(r: Result<NativeImage, NativeEncodeError>) -> Result<Vec<Vec<u8>>, NativeEncodeError> {
    match r {
        Ok(image) => Ok(image.chunks),
        Err(e) => Err(e),
    }
}

/// What encoding an image for a native backend gives, checks in order:
/// the backend must be native, Sixel needs a measured cell, the image is
/// fitted into the backend's pixel box, its cell size must fit `u16`, and
/// the backend serializes the fitted raster.
pub open spec fn native_result(
    backend: ImageBackend,
    id: ImageId,
    source: DecodedImage,
    max_columns: u16,
    max_rows: u16,
    background: Rgb,
    cell_pixels: Option<CellPixelSize>,
    r: Result<NativeImage, NativeEncodeError>,
) -> bool {
    if !(backend == ImageBackend::Kitty || backend == ImageBackend::Sixel || backend == ImageBackend::Iterm2) {
        r == Err::<NativeImage, NativeEncodeError>(NativeEncodeError::NotNative)
    } else if backend == ImageBackend::Sixel && cell_pixels is None {
        r == Err::<NativeImage, NativeEncodeError>(NativeEncodeError::MissingCellPixelSize)
    } else {
        let cell = match cell_pixels {
            Some(c) => c,
            None => CellPixelSize { width: 1, height: 2 },
        };
        let (pw, ph, cw, ch) = native_geometry(backend, max_columns, max_rows, cell);
        let sw = source.spec_width();
        let sh = source.spec_height();
        let rgba = source.spec_rgba();
        if sw == 0 || sh == 0 || pw == 0 || ph == 0 {
            r == Err::<NativeImage, NativeEncodeError>(NativeEncodeError::EmptyGeometry)
        } else if sw * sh * 4 > usize::MAX || rgba.len() != sw * sh * 4 {
            r == Err::<NativeImage, NativeEncodeError>(NativeEncodeError::InvalidBuffer)
        } else {
            let (fw, fh) = spec_fit_native(sw as int, sh as int, pw, ph);
            if fw * fh * 4 > NATIVE_OUTPUT_LIMIT_BYTES {
                r == Err::<NativeImage, NativeEncodeError>(too_large())
            } else if div_ceil(fw, cw) > u16::MAX || div_ceil(fh, ch) > u16::MAX {
                r == Err::<NativeImage, NativeEncodeError>(too_large())
            } else {
                let columns = div_ceil(fw, cw) as u16;
                let rows = div_ceil(fh, ch) as u16;
                &&& backend_result(
                    backend,
                    id,
                    fw as u32,
                    fh as u32,
                    columns,
                    rows,
                    fitted_pixels(rgba, sw as int, sh as int, fw, fh, background),
                    result_chunks(r),
                )
                &&& r matches Ok(image) ==> image.spec_id() == id && image.spec_backend() == backend
                    && image.spec_columns() == columns && image.spec_rows() == rows
            }
        }
    }
}

/// Fits and serializes one decoded image for a native protocol, checking
/// `cancelled` between units of work.
#[verifier::rlimit(40)]
pub fn encode_native_image_cancellable<F: Fn() -> bool>(
    backend: ImageBackend,
    id: ImageId,
    image: &DecodedImage,
    max_columns: u16,
    max_rows: u16,
    background: Rgb,
    cell_pixels: Option<CellPixelSize>,
    cancelled: &F,
) -> (r: Result<NativeImage, NativeEncodeError>)
    requires
        cancelled.requires(()),
    ensures
        native_result(backend, id, *image, max_columns, max_rows, background, cell_pixels, r) || (r == Err::<
            NativeImage,
            NativeEncodeError,
        >(NativeEncodeError::Cancelled) && !never_cancels(*cancelled)),
        always_cancels(*cancelled) && (backend == ImageBackend::Kitty || backend == ImageBackend::Sixel || backend
            == ImageBackend::Iterm2) ==> r == Err::<NativeImage, NativeEncodeError>(NativeEncodeError::Cancelled),
{
    if !backend.is_native() {
        return Err(NativeEncodeError::NotNative);
    }
    if cancelled() {
        return Err(NativeEncodeError::Cancelled);
    }
    let cell = match backend {
        ImageBackend::Sixel => match cell_pixels {
            Some(c) => c,
            None => return Err(NativeEncodeError::MissingCellPixelSize),
        },
        _ => CellPixelSize { width: 1, height: 2 },
    };
    assert(cell_pixels is Some ==> cell_pixels == Some(cell) || backend != ImageBackend::Sixel);
    assert((max_columns as int) * (cell.width as int) <= 0xFFFF * 0xFFFF) by (nonlinear_arith)
        requires
            max_columns <= 0xFFFF,
            cell.width <= 0xFFFF,
    ;
    assert((max_rows as int) * (cell.height as int) <= 0xFFFF * 0xFFFF) by (nonlinear_arith)
        requires
            max_rows <= 0xFFFF,
            cell.height <= 0xFFFF,
    ;
    let pixel_width: u32 = (max_columns as u32) * (cell.width as u32);
    let pixel_height: u32 = (max_rows as u32) * (cell.height as u32);
    assert(cell.width == 0 ==> pixel_width == 0) by (nonlinear_arith)
        requires
            pixel_width == (max_columns as int) * (cell.width as int),
    ;
    assert(cell.height == 0 ==> pixel_height == 0) by (nonlinear_arith)
        requires
            pixel_height == (max_rows as int) * (cell.height as int),
    ;
    let (w, h, rgba) = match fitted_rgba(image, pixel_width, pixel_height, background, cancelled) {
        Ok(fitted) => fitted,
        Err(e) => return Err(e),
    };
    let cw = cell.width as u32;
    let ch = cell.height as u32;
    let column_count = (w as u64 + cw as u64 - 1) / cw as u64;
    let row_count = (h as u64 + ch as u64 - 1) / ch as u64;
    if column_count > u16::MAX as u64 || row_count > u16::MAX as u64 {
        return Err(NativeEncodeError::OutputTooLarge { limit: NATIVE_OUTPUT_LIMIT_BYTES });
    }
    let columns = column_count as u16;
    let rows = row_count as u16;
    let chunks = match backend {
        ImageBackend::Kitty => kitty_chunks(id, w, h, columns, rows, rgba.as_slice(), cancelled),
        ImageBackend::Sixel => sixel_chunks(w, h, rgba.as_slice(), cancelled),
        _ => iterm2_chunks(id, columns, rows, w, h, rgba.as_slice(), cancelled),
    };
    match chunks {
        Ok(chunks) => Ok(NativeImage { id, backend, columns, rows, chunks }),
        Err(e) => Err(e),
    }
}

/// Fits and serializes one decoded image for a native protocol.
pub fn encode_native_image(
    backend: ImageBackend,
    id: ImageId,
    image: &DecodedImage,
    max_columns: u16,
    max_rows: u16,
    background: Rgb,
    cell_pixels: Option<CellPixelSize>,
) -> (r: Result<NativeImage, NativeEncodeError>)
    ensures
        native_result(backend, id, *image, max_columns, max_rows, background, cell_pixels, r),
{
    let never = || -> (stop: bool)
        ensures
            !stop,
        { false };
    encode_native_image_cancellable(backend, id, image, max_columns, max_rows, background, cell_pixels, &never)
}

// ---------------------------------------------------------------------------
// Placements and the native session
// ---------------------------------------------------------------------------

/// One native image at absolute zero-based terminal cell coordinates.
#[derive(Clone, Debug)]
pub struct NativePlacement {
    pub column: u16,
    pub row: u16,
    pub image: Arc<NativeImage>,
}

/// Two encoded images are the same output.
pub open spec fn image_eq(a: NativeImage, b: NativeImage) -> bool {
    &&& a.spec_id() == b.spec_id()
    &&& a.spec_backend() == b.spec_backend()
    &&& a.spec_columns() == b.spec_columns()
    &&& a.spec_rows() == b.spec_rows()
    &&& a.spec_chunks() == b.spec_chunks()
}

/// Two placements put the same output at the same cell.
pub open spec fn placement_eq(a: NativePlacement, b: NativePlacement) -> bool {
    a.column == b.column && a.row == b.row && image_eq(*a.image, *b.image)
}

/// `Arc::clone`: another pointer to the same allocation, hence the same
/// value.
#[verifier::external_body]
pub(crate) fn share<T>(value: &Arc<T>) -> (r: Arc<T>)
    ensures
        r == *value,
{
    Arc::clone(value)
}

fn copy_placement(p: &NativePlacement) -> (q: NativePlacement)
    ensures
        q == *p,
{
    NativePlacement { column: p.column, row: p.row, image: share(&p.image) }
}

fn same_bytes(a: &Vec<u8>, b: &Vec<u8>) -> (r: bool)
    ensures
        r == (a@ == b@),
{
    if a.len() != b.len() {
        return false;
    }
    let mut i: usize = 0;
    while i < a.len()
        invariant
            a@.len() == b@.len(),
            i <= a@.len(),
            forall|k: int| 0 <= k < i ==> a@[k] == b@[k],
        decreases a.len() - i,
    {
        if a[i] != b[i] {
            return false;
        }
        i = i + 1;
    }
    assert(a@ =~= b@);
    true
}

fn same_image(a: &NativeImage, b: &NativeImage) -> (r: bool)
    ensures
        r == image_eq(*a, *b),
{
    if a.id != b.id || a.backend != b.backend || a.columns != b.columns || a.rows != b.rows {
        return false;
    }
    if a.chunks.len() != b.chunks.len() {
        assert(chunk_views(a.chunks@).len() != chunk_views(b.chunks@).len());
        return false;
    }
    let mut i: usize = 0;
    while i < a.chunks.len()
        invariant
            a.chunks@.len() == b.chunks@.len(),
            i <= a.chunks@.len(),
            forall|k: int| 0 <= k < i ==> a.chunks@[k]@ == b.chunks@[k]@,
        decreases a.chunks.len() - i,
    {
        if !same_bytes(&a.chunks[i], &b.chunks[i]) {
            assert(chunk_views(a.chunks@)[i as int] != chunk_views(b.chunks@)[i as int]);
            return false;
        }
        i = i + 1;
    }
    assert(chunk_views(a.chunks@) =~= chunk_views(b.chunks@));
    true
}

fn same_placement(a: &NativePlacement, b: &NativePlacement) -> (r: bool)
    ensures
        r == placement_eq(*a, *b),
{
    a.column == b.column && a.row == b.row && same_image(&a.image, &b.image)
}

/// Native placements collected while the text frame is painted.
#[derive(Debug)]
pub struct NativeFramePlan {
    placements: Vec<NativePlacement>,
}

impl Default for NativeFramePlan {
    fn default() -> (p: Self)
        ensures
            p.spec_placements() == Seq::<NativePlacement>::empty(),
    {
        NativeFramePlan { placements: Vec::new() }
    }
}

impl NativeFramePlan {
    pub closed spec fn spec_placements(&self) -> Seq<NativePlacement> {
        self.placements@
    }

    pub fn push(&mut self, placement: NativePlacement)
        ensures
            final(self).spec_placements() == old(self).spec_placements().push(placement),
    {
        self.placements.push(placement);
    }

    pub fn placements(&self) -> (p: &[NativePlacement])
        ensures
            p@ == self.spec_placements(),
    {
        self.placements.as_slice()
    }
}

/// Two placement lists are the same, in order.
pub open spec fn plans_eq(a: Seq<NativePlacement>, b: Seq<NativePlacement>) -> bool {
    a.len() == b.len() && forall|i: int| 0 <= i < a.len() ==> placement_eq(#[trigger] a[i], b[i])
}

/// Some placement of `ps` is the same as `p`.
pub open spec fn holds(ps: Seq<NativePlacement>, p: NativePlacement) -> bool {
    exists|i: int| 0 <= i < ps.len() && placement_eq(#[trigger] ps[i], p)
}

/// The last placement of `ps` showing image `id`.
pub open spec fn last_with_id(ps: Seq<NativePlacement>, id: ImageId) -> Option<NativePlacement>
    decreases ps.len(),
{
    if ps.len() == 0 {
        None
    } else if ps.last().image.spec_id() == id {
        Some(ps.last())
    } else {
        last_with_id(ps.drop_last(), id)
    }
}

/// The Kitty command that deletes image `id` and its placements.
pub open spec fn delete_bytes(id: ImageId) -> Seq<u8> {
    utf8("\x1b_Ga=d,d=I,i="@) + decimal_bytes(id.spec_get() as nat) + utf8(",q=2\x1b\\"@)
}

/// One past `n`, saturating at `u16::MAX`.
pub open spec fn one_based(n: u16) -> nat {
    if n == u16::MAX {
        n as nat
    } else {
        (n + 1) as nat
    }
}

/// The concatenation of byte strings.
pub open spec fn concat(chunks: Seq<Seq<u8>>) -> Seq<u8>
    decreases chunks.len(),
{
    if chunks.len() == 0 {
        Seq::empty()
    } else {
        concat(chunks.drop_last()) + chunks.last()
    }
}

/// Drawing a placement: save the cursor, move to the placement's cell, send
/// the image, restore the cursor.
pub open spec fn placement_bytes(p: NativePlacement) -> Seq<u8> {
    utf8("\x1b7\x1b["@) + decimal_bytes(one_based(p.row)) + utf8(";"@) + decimal_bytes(one_based(p.column)) + utf8(
        "H"@,
    ) + concat(p.image.spec_chunks()) + utf8("\x1b8"@)
}

/// The deletions a change of plan needs: every previous Kitty placement
/// whose image id is not shown by the same placement afterwards.
pub open spec fn deletions(previous: Seq<NativePlacement>, next: Seq<NativePlacement>) -> Seq<u8>
    decreases previous.len(),
{
    if previous.len() == 0 {
        Seq::empty()
    } else {
        let p = previous.last();
        deletions(previous.drop_last(), next) + if p.image.spec_backend() == ImageBackend::Kitty && !(last_with_id(
            next,
            p.image.spec_id(),
        ) matches Some(q) && placement_eq(q, p)) {
            delete_bytes(p.image.spec_id())
        } else {
            Seq::empty()
        }
    }
}

/// The placements a change of plan draws: each new placement that was not
/// already on screen.
pub open spec fn additions(previous: Seq<NativePlacement>, next: Seq<NativePlacement>) -> Seq<u8>
    decreases next.len(),
{
    if next.len() == 0 {
        Seq::empty()
    } else {
        additions(previous, next.drop_last()) + if holds(previous, next.last()) {
            Seq::empty()
        } else {
            placement_bytes(next.last())
        }
    }
}

/// Everything that may be on screen while a change is being written: the
/// previous placements and each new one not already among them.
pub open spec fn union(previous: Seq<NativePlacement>, next: Seq<NativePlacement>) -> Seq<NativePlacement>
    decreases next.len(),
{
    if next.len() == 0 {
        previous
    } else {
        let u = union(previous, next.drop_last());
        if holds(u, next.last()) {
            u
        } else {
            u.push(next.last())
        }
    }
}

/// Tracks the native images emitted on the alternate screen.
#[derive(Debug)]
pub struct NativeGraphicsSession {
    current: NativeFramePlan,
    pending: Option<NativeFramePlan>,
}

impl Default for NativeGraphicsSession {
    fn default() -> (s: Self)
        ensures
            s.spec_current() == Seq::<NativePlacement>::empty(),
            s.spec_pending() is None,
    {
        NativeGraphicsSession { current: NativeFramePlan::default(), pending: None }
    }
}

fn holds_exec(ps: &Vec<NativePlacement>, p: &NativePlacement) -> (r: bool)
    ensures
        r == holds(ps@, *p),
{
    let mut i: usize = 0;
    while i < ps.len()
        invariant
            i <= ps@.len(),
            forall|k: int| 0 <= k < i ==> !placement_eq(#[trigger] ps@[k], *p),
        decreases ps.len() - i,
    {
        if same_placement(&ps[i], p) {
            return true;
        }
        i = i + 1;
    }
    false
}

fn plans_equal(a: &Vec<NativePlacement>, b: &Vec<NativePlacement>) -> (r: bool)
    ensures
        r == plans_eq(a@, b@),
{
    if a.len() != b.len() {
        return false;
    }
    let mut i: usize = 0;
    while i < a.len()
        invariant
            a@.len() == b@.len(),
            i <= a@.len(),
            forall|k: int| 0 <= k < i ==> placement_eq(#[trigger] a@[k], b@[k]),
        decreases a.len() - i,
    {
        if !same_placement(&a[i], &b[i]) {
            return false;
        }
        i = i + 1;
    }
    true
}

fn push_delete(out: &mut Vec<u8>, id: ImageId)
    ensures
        final(out)@ == old(out)@ + delete_bytes(id),
{
    push_text(out, "\x1b_Ga=d,d=I,i=");
    push_decimal_bytes(out, id.get() as u64);
    push_text(out, ",q=2\x1b\\");
    assert(out@ =~= old(out)@ + delete_bytes(id));
}

fn push_concat(out: &mut Vec<u8>, chunks: &[Vec<u8>])
    ensures
        final(out)@ == old(out)@ + concat(chunk_views(chunks@)),
{
    let ghost start = out@;
    let ghost views = chunk_views(chunks@);
    let mut i: usize = 0;
    assert(views.take(0) =~= Seq::<Seq<u8>>::empty());
    while i < chunks.len()
        invariant
            views == chunk_views(chunks@),
            views.len() == chunks@.len(),
            i <= chunks@.len(),
            out@ == start + concat(views.take(i as int)),
        decreases chunks.len() - i,
    {
        extend_bytes(out, chunks[i].as_slice());
        assert(views.take(i + 1).drop_last() =~= views.take(i as int));
        assert(views.take(i + 1).last() == chunks@[i as int]@);
        assert(out@ =~= start + concat(views.take(i + 1)));
        i = i + 1;
    }
    assert(views.take(i as int) =~= views);
}

fn push_placement(out: &mut Vec<u8>, p: &NativePlacement)
    ensures
        final(out)@ == old(out)@ + placement_bytes(*p),
{
    push_text(out, "\x1b7\x1b[");
    let row: u64 = if p.row == u16::MAX { p.row as u64 } else { p.row as u64 + 1 };
    push_decimal_bytes(out, row);
    push_text(out, ";");
    let column: u64 = if p.column == u16::MAX { p.column as u64 } else { p.column as u64 + 1 };
    push_decimal_bytes(out, column);
    push_text(out, "H");
    push_concat(out, p.image.chunks());
    push_text(out, "\x1b8");
    assert(out@ =~= old(out)@ + placement_bytes(*p));
}

fn last_with_id_exec(ps: &Vec<NativePlacement>, id: ImageId) -> (r: Option<usize>)
    ensures
        match r {
            Some(i) => i < ps@.len() && last_with_id(ps@, id) == Some(ps@[i as int]),
            None => last_with_id(ps@, id) is None,
        },
{
    let mut i = ps.len();
    assert(ps@.take(i as int) =~= ps@);
    while i > 0
        invariant
            i <= ps@.len(),
            last_with_id(ps@, id) == last_with_id(ps@.take(i as int), id),
        decreases i,
    {
        assert(ps@.take(i as int).drop_last() =~= ps@.take(i - 1));
        assert(ps@.take(i as int).last() == ps@[i - 1]);
        if ps[i - 1].image.id() == id {
            return Some(i - 1);
        }
        i = i - 1;
    }
    None
}

impl NativeGraphicsSession {
    pub closed spec fn spec_current(&self) -> Seq<NativePlacement> {
        self.current.spec_placements()
    }

    pub closed spec fn spec_pending(&self) -> Option<Seq<NativePlacement>> {
        match self.pending {
            Some(p) => Some(p.spec_placements()),
            None => None,
        }
    }

    /// Legacy protocols have no deletion command: a changed frame that
    /// involves any of them needs a cleared and fully redrawn screen.
    pub fn requires_full_redraw(&self, next: &NativeFramePlan) -> (r: bool)
        ensures
            r == (!plans_eq(self.spec_current(), next.spec_placements()) && self.spec_current().len() > 0
                && exists|p: NativePlacement| (#[trigger] (self.spec_current() + next.spec_placements()).contains(p))
                && p.image.spec_backend() != ImageBackend::Kitty),
    {
        let current = &self.current.placements;
        let upcoming = &next.placements;
        let ghost both = current@ + upcoming@;
        if plans_equal(current, upcoming) || current.len() == 0 {
            return false;
        }
        let mut i: usize = 0;
        while i < current.len()
            invariant
                both == current@ + upcoming@,
                current@ == self.spec_current(),
                upcoming@ == next.spec_placements(),
                !plans_eq(current@, upcoming@),
                current@.len() > 0,
                i <= current@.len(),
                forall|k: int| 0 <= k < i ==> (#[trigger] current@[k]).image.spec_backend() == ImageBackend::Kitty,
            decreases current.len() - i,
        {
            if current[i].image.backend() != ImageBackend::Kitty {
                assert(both[i as int] == current@[i as int]);
                assert(both.contains(current@[i as int]));
                return true;
            }
            i = i + 1;
        }
        let mut j: usize = 0;
        while j < upcoming.len()
            invariant
                both == current@ + upcoming@,
                current@ == self.spec_current(),
                upcoming@ == next.spec_placements(),
                !plans_eq(current@, upcoming@),
                current@.len() > 0,
                j <= upcoming@.len(),
                forall|k: int| 0 <= k < current@.len() ==> (#[trigger] current@[k]).image.spec_backend() == ImageBackend::Kitty,
                forall|k: int| 0 <= k < j ==> (#[trigger] upcoming@[k]).image.spec_backend() == ImageBackend::Kitty,
            decreases upcoming.len() - j,
        {
            if upcoming[j].image.backend() != ImageBackend::Kitty {
                assert(both[current@.len() + j] == upcoming@[j as int]);
                assert(both.contains(upcoming@[j as int]));
                return true;
            }
            j = j + 1;
        }
        assert forall|p: NativePlacement| (#[trigger] both.contains(p)) implies p.image.spec_backend()
            == ImageBackend::Kitty by {
            let k = choose|k: int| 0 <= k < both.len() && both[k] == p;
            if k < current@.len() {
                assert(both[k] == current@[k]);
            } else {
                assert(both[k] == upcoming@[k - current@.len()]);
            }
        }
        false
    }

    /// Starts a change to `next`: nothing when the frame is unchanged;
    /// otherwise the bytes to write, deletions first, while every placement
    /// that may end up on screen is remembered for cleanup until
    /// [`Self::confirm`] records that the bytes reached the terminal.
    pub fn synchronize(&mut self, next: NativeFramePlan) -> (out: Option<Vec<u8>>)
        ensures
            plans_eq(old(self).spec_current(), next.spec_placements()) ==> out is None && final(self).spec_current()
                == old(self).spec_current() && final(self).spec_pending() == old(self).spec_pending(),
            !plans_eq(old(self).spec_current(), next.spec_placements()) ==> {
                &&& out matches Some(bytes) && bytes@ == deletions(old(self).spec_current(), next.spec_placements())
                    + additions(old(self).spec_current(), next.spec_placements())
                &&& final(self).spec_current() == union(old(self).spec_current(), next.spec_placements())
                &&& final(self).spec_pending() == Some(next.spec_placements())
            },
    {
        if plans_equal(&self.current.placements, &next.placements) {
            return None;
        }
        let previous = &self.current.placements;
        let upcoming = &next.placements;
        let mut output: Vec<u8> = Vec::new();
        let mut i: usize = 0;
        assert(previous@.take(0) =~= Seq::<NativePlacement>::empty());
        while i < previous.len()
            invariant
                i <= previous@.len(),
                output@ == deletions(previous@.take(i as int), upcoming@),
            decreases previous.len() - i,
        {
            let p = &previous[i];
            assert(previous@.take(i + 1).drop_last() =~= previous@.take(i as int));
            assert(previous@.take(i + 1).last() == *p);
            if p.image.backend() == ImageBackend::Kitty {
                let keep = match last_with_id_exec(upcoming, p.image.id()) {
                    Some(k) => same_placement(&upcoming[k], p),
                    None => false,
                };
                if !keep {
                    push_delete(&mut output, p.image.id());
                }
            }
            i = i + 1;
        }
        assert(previous@.take(i as int) =~= previous@);
        let ghost deleted = output@;
        let mut j: usize = 0;
        assert(upcoming@.take(0) =~= Seq::<NativePlacement>::empty());
        while j < upcoming.len()
            invariant
                j <= upcoming@.len(),
                output@ == deleted + additions(previous@, upcoming@.take(j as int)),
            decreases upcoming.len() - j,
        {
            let p = &upcoming[j];
            assert(upcoming@.take(j + 1).drop_last() =~= upcoming@.take(j as int));
            assert(upcoming@.take(j + 1).last() == *p);
            if !holds_exec(previous, p) {
                push_placement(&mut output, p);
            }
            assert(output@ =~= deleted + additions(previous@, upcoming@.take(j + 1)));
            j = j + 1;
        }
        assert(upcoming@.take(j as int) =~= upcoming@);
        let mut merged: Vec<NativePlacement> = Vec::new();
        let mut k: usize = 0;
        while k < previous.len()
            invariant
                k <= previous@.len(),
                merged@ == previous@.take(k as int),
            decreases previous.len() - k,
        {
            merged.push(copy_placement(&previous[k]));
            assert(merged@ =~= previous@.take(k + 1));
            k = k + 1;
        }
        assert(previous@.take(k as int) =~= previous@);
        let mut m: usize = 0;
        while m < upcoming.len()
            invariant
                m <= upcoming@.len(),
                merged@ == union(previous@, upcoming@.take(m as int)),
            decreases upcoming.len() - m,
        {
            assert(upcoming@.take(m + 1).drop_last() =~= upcoming@.take(m as int));
            assert(upcoming@.take(m + 1).last() == upcoming@[m as int]);
            if !holds_exec(&merged, &upcoming[m]) {
                merged.push(copy_placement(&upcoming[m]));
            }
            m = m + 1;
        }
        assert(upcoming@.take(m as int) =~= upcoming@);
        self.current = NativeFramePlan { placements: merged };
        self.pending = Some(next);
        Some(output)
    }

    /// Records that the bytes of the last change reached the terminal: the
    /// new frame is now exactly what is on screen.
    pub fn confirm(&mut self)
        ensures
            old(self).spec_pending() matches Some(p) ==> final(self).spec_current() == p && final(self).spec_pending() is None,
            old(self).spec_pending() is None ==> final(self).spec_current() == old(self).spec_current()
                && final(self).spec_pending() is None,
    {
        let pending = self.pending.take();
        if let Some(plan) = pending {
            self.current = plan;
        }
    }

    /// The bytes that remove every owned image before the alternate screen
    /// is left: a Kitty deletion per Kitty placement, and one screen clear
    /// when any legacy protocol drew.
    pub fn cleanup(&self) -> (out: Vec<u8>)
        ensures
            out@ == kitty_deletions(self.spec_current()) + if exists|i: int| 0 <= i < self.spec_current().len()
                && (#[trigger] self.spec_current()[i]).image.spec_backend() != ImageBackend::Kitty {
                utf8("\x1b[2J\x1b[H"@)
            } else {
                Seq::empty()
            },
    {
        let current = &self.current.placements;
        let mut output: Vec<u8> = Vec::new();
        let mut legacy = false;
        let mut i: usize = 0;
        assert(current@.take(0) =~= Seq::<NativePlacement>::empty());
        while i < current.len()
            invariant
                i <= current@.len(),
                output@ == kitty_deletions(current@.take(i as int)),
                legacy == exists|k: int| 0 <= k < i && (#[trigger] current@[k]).image.spec_backend() != ImageBackend::Kitty,
            decreases current.len() - i,
        {
            assert(current@.take(i + 1).drop_last() =~= current@.take(i as int));
            assert(current@.take(i + 1).last() == current@[i as int]);
            if current[i].image.backend() == ImageBackend::Kitty {
                push_delete(&mut output, current[i].image.id());
            } else {
                legacy = true;
            }
            i = i + 1;
        }
        assert(current@.take(i as int) =~= current@);
        if legacy {
            push_text(&mut output, "\x1b[2J\x1b[H");
        }
        output
    }

    /// Forgets every placement once the cleanup bytes were written.
    pub fn clear(&mut self)
        ensures
            final(self).spec_current() == Seq::<NativePlacement>::empty(),
            final(self).spec_pending() is None,
    {
        self.current = NativeFramePlan::default();
        self.pending = None;
    }
}

/// The Kitty deletions for the Kitty placements among `ps`, in order.
pub open spec fn kitty_deletions(ps: Seq<NativePlacement>) -> Seq<u8>
    decreases ps.len(),
{
    if ps.len() == 0 {
        Seq::empty()
    } else {
        kitty_deletions(ps.drop_last()) + if ps.last().image.spec_backend() == ImageBackend::Kitty {
            delete_bytes(ps.last().image.spec_id())
        } else {
            Seq::empty()
        }
    }
}

/// Renders a decoded image as half-block cells.
pub fn render_decoded_half_blocks(
    image: &DecodedImage,
    max_columns: u16,
    max_rows: u16,
    background: Rgb,
    mode: CellColorMode,
) -> (r: Result<HalfBlockFrame, CellRenderError>)
    ensures
        render_outcome(
            image.spec_width() as int,
            image.spec_height() as int,
            image.spec_rgba(),
            max_columns as int,
            max_rows as int,
            background,
            mode,
            r,
        ),
{
    render_half_blocks(image.width(), image.height(), image.rgba().as_slice(), max_columns, max_rows, background, mode)
}

} // verus!
