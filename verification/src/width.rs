//! Cell-width measurement and safe visible representations.
//!
//! Layout and rendering share these rules so measured widths always match
//! what the screen shows: tabs expand to the next multiple-of-eight stop,
//! C0 control characters and DEL render as two-cell caret notation, and
//! newline join markers inside paragraphs render as one space.
use vstd::prelude::*;
use unicode_width::UnicodeWidthChar;

use crate::strings::push_char;

verus! {

/// Cells that `unicode-width` reports for one character (`None` for controls).
pub uninterp spec fn unicode_char_width(c: char) -> Option<usize>;

/// Calls `UnicodeWidthChar::width` from `unicode-width`; the result is the
/// crate's (pure, table-driven) width for `c`, named `unicode_char_width`.
#[verifier::external_body]
fn char_width(c: char) -> (w: Option<usize>)
    ensures
        w == unicode_char_width(c),
{
    c.width()
}

/// Cells one expanded tab consumes when it starts at `column`.
pub open spec fn spec_tab_advance(column: int) -> int {
    8 - column % 8
}

/// Whether `c` is a C0 control character or DEL.
pub open spec fn spec_is_control(c: char) -> bool {
    (c as u32) <= 0x1F || (c as u32) == 0x7F
}

/// Whether `c` is printable ASCII, which always occupies exactly one cell.
pub open spec fn spec_is_printable_ascii(c: char) -> bool {
    0x20 <= (c as u32) && (c as u32) < 0x7F
}

/// Cells of a printable character, as the terminal measures them.
pub open spec fn printable_cells(c: char) -> int {
    if spec_is_printable_ascii(c) {
        1
    } else {
        match unicode_char_width(c) {
            Some(w) => if w > 0xFFFF { 0xFFFF } else { w as int },
            None => 0,
        }
    }
}

/// Cells one character consumes when it is rendered at `column`.
pub open spec fn char_advance(c: char, column: int) -> int {
    if c == '\t' {
        spec_tab_advance(column)
    } else if c == '\n' {
        1
    } else if spec_is_control(c) {
        2
    } else {
        printable_cells(c)
    }
}

/// Cells that the characters `s` consume when rendering starts at `column`.
pub open spec fn width_from(s: Seq<char>, column: int) -> int
    decreases s.len(),
{
    if s.len() == 0 {
        0
    } else {
        let a = char_advance(s[0], column);
        a + width_from(s.drop_first(), column + a)
    }
}

/// The caret letter that follows `^` for a control byte, if any.
pub open spec fn caret_letter(byte: u8) -> Option<char> {
    if byte == 0x7F {
        Some('?')
    } else if byte == 0 {
        Some('@')
    } else if 1 <= byte <= 0x1A {
        Some(((0x41 + byte - 1) as u8) as char)
    } else if byte == 0x1B {
        Some('[')
    } else if byte == 0x1C {
        Some('\\')
    } else if byte == 0x1D {
        Some(']')
    } else if byte == 0x1E {
        Some('^')
    } else if byte == 0x1F {
        Some('_')
    } else {
        None
    }
}

/// The visible characters that `s` renders as when it starts at `column`.
pub open spec fn visible_from(s: Seq<char>, column: int) -> Seq<char>
    decreases s.len(),
{
    if s.len() == 0 {
        Seq::empty()
    } else {
        let c = s[0];
        let a = char_advance(c, column);
        let head = if c == '\t' {
            Seq::new(a as nat, |i: int| ' ')
        } else if c == '\n' {
            seq![' ']
        } else if spec_is_control(c) {
            seq!['^', caret_letter(c as u8)->0]
        } else {
            seq![c]
        };
        head + visible_from(s.drop_first(), column + a)
    }
}

pub proof fn lemma_width_nonneg(s: Seq<char>, column: int)
    ensures
        width_from(s, column) >= 0,
    decreases s.len(),
{
    if s.len() > 0 {
        lemma_width_nonneg(s.drop_first(), column + char_advance(s[0], column));
    }
}

/// Cells consumed by one expanded tab starting at `column`.
pub fn tab_advance(column: u16) -> (cells: u16)
    ensures
        cells == spec_tab_advance(column as int),
        1 <= cells <= 8,
{
    8 - (column % 8)
}

/// The caret-notation pair for a control byte, when one is required.
pub fn caret_notation(byte: u8) -> (pair: Option<[char; 2]>)
    ensures
        match caret_letter(byte) {
            Some(letter) => pair == Some(['^', letter]),
            None => pair.is_none(),
        },
{
    let letter = if byte == 0x7F {
        '?'
    } else if byte == 0x00 {
        '@'
    } else if 0x01 <= byte && byte <= 0x1A {
        let code: u8 = 0x41 + (byte - 1);
        code as char
    } else if byte == 0x1B {
        '['
    } else if byte == 0x1C {
        '\\'
    } else if byte == 0x1D {
        ']'
    } else if byte == 0x1E {
        '^'
    } else if byte == 0x1F {
        '_'
    } else {
        return None;
    };
    Some(['^', letter])
}

/// Whether `ch` is a C0 control character or DEL.
pub fn is_control_char(ch: char) -> (control: bool)
    ensures
        control == spec_is_control(ch),
{
    let code = ch as u32;
    code <= 0x1F || code == 0x7F
}

fn printable_width(c: char) -> (w: u16)
    ensures
        w == printable_cells(c),
{
    let code = c as u32;
    if 0x20 <= code && code < 0x7F {
        return 1;
    }
    match char_width(c) {
        Some(w) => if w > 0xFFFF { 0xFFFF } else { w as u16 },
        None => 0,
    }
}

/// Width in terminal cells of raw text rendered starting at `column`.
pub fn display_width(raw: &str, column: u16) -> (width: u16)
    requires
        column + width_from(raw@, column as int) <= u16::MAX,
    ensures
        width == width_from(raw@, column as int),
{
    let mut width: u16 = 0;
    let ghost total = width_from(raw@, column as int);
    assert(raw@.skip(0) =~= raw@);
    for ch in it: raw.chars()
        invariant
            it.seq() == raw@,
            total == width_from(raw@, column as int),
            column + total <= u16::MAX,
            width + width_from(raw@.skip(it.index() as int), column + width) == total,
    {
        let ghost i = it.index() as int;
        let ghost rest = raw@.skip(i);
        assert(rest[0] == ch);
        assert(rest.drop_first() =~= raw@.skip(i + 1));
        proof {
            lemma_width_nonneg(rest.drop_first(), column + width + char_advance(ch, column + width));
        }
        if ch == '\t' {
            width = width + tab_advance(column + width);
        } else if ch == '\n' {
            width = width + 1;
        } else if is_control_char(ch) {
            width = width + 2;
        } else {
            width = width + printable_width(ch);
        }
    }
    proof {
        assert(raw@.skip(raw@.len() as int) =~= Seq::<char>::empty());
    }
    width
}

/// Whether no character of `s` is a control character or a newline.
pub open spec fn terminal_safe(s: Seq<char>) -> bool {
    forall|i: int| 0 <= i < s.len() ==> !spec_is_control(#[trigger] s[i])
}

pub proof fn lemma_caret_letter_printable(byte: u8)
    requires
        caret_letter(byte) is Some,
    ensures
        spec_is_printable_ascii(caret_letter(byte)->0),
{
    if 1 <= byte <= 0x1A {
        let code = (0x41 + byte - 1) as u8;
        assert((code as char) as u32 == code as u32);
    }
}

pub proof fn lemma_control_has_caret(c: char)
    requires
        spec_is_control(c),
    ensures
        caret_letter(c as u8) is Some,
        (c as u8) as u32 == c as u32,
{
}

/// Rendering visible text never emits a control character or a newline,
/// and measures exactly as many cells as the raw text it came from: what is
/// measured is what renders, so `display_width(raw, c)` equals
/// `display_width(&visible_text(raw, c), c)` (both functions state their
/// results as `width_from` and `visible_from`).
pub proof fn lemma_visible_is_safe_and_same_width(s: Seq<char>, column: int)
    ensures
        terminal_safe(visible_from(s, column)),
        width_from(visible_from(s, column), column) == width_from(s, column),
    decreases s.len(),
{
    if s.len() > 0 {
        let c = s[0];
        let a = char_advance(c, column);
        let tail = visible_from(s.drop_first(), column + a);
        lemma_visible_is_safe_and_same_width(s.drop_first(), column + a);
        let head = if c == '\t' {
            Seq::new(a as nat, |i: int| ' ')
        } else if c == '\n' {
            seq![' ']
        } else if spec_is_control(c) {
            seq!['^', caret_letter(c as u8)->0]
        } else {
            seq![c]
        };
        assert(visible_from(s, column) == head + tail);
        if spec_is_control(c) && c != '\t' && c != '\n' {
            lemma_control_has_caret(c);
            lemma_caret_letter_printable(c as u8);
        }
        lemma_width_concat(head, tail, column);
        lemma_head_width(c, column);
        assert forall|i: int| 0 <= i < (head + tail).len() implies !spec_is_control(#[trigger] (head + tail)[i]) by {
            if i < head.len() {
                if spec_is_control(c) && c != '\t' && c != '\n' {
                    lemma_control_has_caret(c);
                    lemma_caret_letter_printable(c as u8);
                }
            } else {
                assert((head + tail)[i] == tail[i - head.len()]);
            }
        }
    }
}

/// The cells of a visible head equal the advance of its source character.
proof fn lemma_head_width(c: char, column: int)
    ensures
        ({
            let a = char_advance(c, column);
            let head = if c == '\t' {
                Seq::new(a as nat, |i: int| ' ')
            } else if c == '\n' {
                seq![' ']
            } else if spec_is_control(c) {
                seq!['^', caret_letter(c as u8)->0]
            } else {
                seq![c]
            };
            width_from(head, column) == a
        }),
{
    let a = char_advance(c, column);
    if c == '\t' {
        lemma_spaces_width(a as nat, column);
    } else if c == '\n' {
        let head = seq![' '];
        assert(head.drop_first() =~= Seq::<char>::empty());
        assert(char_advance(' ', column) == 1);
        reveal_with_fuel(width_from, 2);
    } else if spec_is_control(c) {
        lemma_control_has_caret(c);
        lemma_caret_letter_printable(c as u8);
        let head = seq!['^', caret_letter(c as u8)->0];
        assert(head.drop_first() =~= seq![caret_letter(c as u8)->0]);
        assert(head.drop_first().drop_first() =~= Seq::<char>::empty());
        assert(char_advance('^', column) == 1);
        reveal_with_fuel(width_from, 3);
    } else {
        let head = seq![c];
        assert(head.drop_first() =~= Seq::<char>::empty());
        reveal_with_fuel(width_from, 2);
    }
}

proof fn lemma_spaces_width(n: nat, column: int)
    ensures
        width_from(Seq::new(n, |i: int| ' '), column) == n,
    decreases n,
{
    let s = Seq::new(n, |i: int| ' ');
    if n > 0 {
        assert(s.drop_first() =~= Seq::new((n - 1) as nat, |i: int| ' '));
        lemma_spaces_width((n - 1) as nat, column + 1);
    }
}

/// Width is additive over concatenation, threading the running column.
pub proof fn lemma_width_concat(a: Seq<char>, b: Seq<char>, column: int)
    ensures
        width_from(a + b, column) == width_from(a, column) + width_from(b, column + width_from(a, column)),
    decreases a.len(),
{
    if a.len() == 0 {
        assert(a + b =~= b);
    } else {
        let adv = char_advance(a[0], column);
        assert((a + b).drop_first() =~= a.drop_first() + b);
        lemma_width_concat(a.drop_first(), b, column + adv);
    }
}

/// Cells of `raw` rendered from `column`, when they stay within `budget`.
pub fn width_within(raw: &str, column: u16, budget: u16) -> (w: Option<u16>)
    ensures
        match w {
            Some(x) => x == width_from(raw@, column as int) && x <= budget,
            None => width_from(raw@, column as int) > budget,
        },
{
    let mut acc: u32 = 0;
    let ghost total = width_from(raw@, column as int);
    assert(raw@.skip(0) =~= raw@);
    for ch in it: raw.chars()
        invariant
            it.seq() == raw@,
            total == width_from(raw@, column as int),
            acc <= budget,
            acc + width_from(raw@.skip(it.index() as int), column + acc) == total,
    {
        let ghost i = it.index() as int;
        let ghost rest = raw@.skip(i);
        assert(rest[0] == ch);
        assert(rest.drop_first() =~= raw@.skip(i + 1));
        let at: u32 = column as u32 + acc;
        let advance: u32 = if ch == '\t' {
            8 - at % 8
        } else if ch == '\n' {
            1
        } else if is_control_char(ch) {
            2
        } else {
            printable_width(ch) as u32
        };
        assert(advance == char_advance(ch, column + acc));
        proof {
            lemma_width_nonneg(rest.drop_first(), column + acc + advance);
        }
        if acc + advance > budget as u32 {
            return None;
        }
        acc = acc + advance;
    }
    proof {
        assert(raw@.skip(raw@.len() as int) =~= Seq::<char>::empty());
    }
    Some(acc as u16)
}

/// Cells of `raw` rendered from `column`, capped at `u16::MAX`.
pub fn capped_width(raw: &str, column: u16) -> (w: u16)
    ensures
        w == if width_from(raw@, column as int) <= u16::MAX {
            width_from(raw@, column as int)
        } else {
            u16::MAX as int
        },
{
    match width_within(raw, column, u16::MAX) {
        Some(w) => w,
        None => u16::MAX,
    }
}

/// Rendering depends on the starting column only through its tab phase.
pub proof fn lemma_visible_phase(s: Seq<char>, a: int, b: int)
    requires
        a % 8 == b % 8,
    ensures
        visible_from(s, a) == visible_from(s, b),
        width_from(s, a) == width_from(s, b),
    decreases s.len(),
{
    if s.len() > 0 {
        let adv = char_advance(s[0], a);
        assert(char_advance(s[0], a) == char_advance(s[0], b));
        assert((a + adv) % 8 == (b + adv) % 8) by (nonlinear_arith)
            requires
                a % 8 == b % 8,
        ;
        lemma_visible_phase(s.drop_first(), a + adv, b + adv);
    }
}

/// The exact string a raw span renders as when it starts at `column`.
///
/// Newline join markers become single spaces, tabs expand to their stops,
/// and control characters become caret pairs, matching [`display_width`].
pub fn visible_text(raw: &str, column: u16) -> (out: String)
    ensures
        out@ == visible_from(raw@, column as int),
{
    let mut out = String::new();
    let mut phase: u16 = column % 8;
    let ghost mut col: int = column as int;
    assert(raw@.skip(0) =~= raw@);
    for ch in it: raw.chars()
        invariant
            it.seq() == raw@,
            phase < 8,
            phase == col % 8,
            out@ + visible_from(raw@.skip(it.index() as int), col) == visible_from(raw@, column as int),
    {
        let ghost i = it.index() as int;
        let ghost rest = raw@.skip(i);
        let ghost old_out = out@;
        assert(rest[0] == ch);
        assert(rest.drop_first() =~= raw@.skip(i + 1));
        let ghost adv = char_advance(ch, col);
        if ch == '\t' {
            let advance = 8 - phase;
            assert(advance == adv);
            let mut k: u16 = 0;
            while k < advance
                invariant
                    k <= advance,
                    out@ == old_out + Seq::new(k as nat, |j: int| ' '),
                decreases advance - k,
            {
                push_char(&mut out, ' ');
                k = k + 1;
                assert(out@ =~= old_out + Seq::new(k as nat, |j: int| ' '));
            }
            phase = 0;
        } else if ch == '\n' {
            push_char(&mut out, ' ');
            phase = (phase + 1) % 8;
        } else if is_control_char(ch) {
            proof { lemma_control_has_caret(ch); }
            let byte = ch as u8;
            if let Some(pair) = caret_notation(byte) {
                push_char(&mut out, pair[0]);
                push_char(&mut out, pair[1]);
            }
            phase = (phase + 2) % 8;
        } else {
            push_char(&mut out, ch);
            phase = ((phase as u32 + printable_width(ch) as u32) % 8) as u16;
        }
        proof {
            assert((col + adv) % 8 == phase) by (nonlinear_arith)
                requires
                    phase == (if ch == '\t' { 0int } else { ((col % 8) + adv) % 8 }),
                    ch == '\t' ==> adv == 8 - col % 8,
                    adv >= 0,
            ;
            col = col + adv;
        }
        assert(out@ + visible_from(raw@.skip(i + 1), col) =~= visible_from(raw@, column as int));
    }
    proof {
        assert(raw@.skip(raw@.len() as int) =~= Seq::<char>::empty());
        assert(out@ + Seq::<char>::empty() =~= out@);
    }
    out
}

} // verus!
