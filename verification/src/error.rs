//! Typed domain errors for document loading, format detection, and the
//! escaping that keeps hostile path names away from the terminal.
//!
//! Reader-facing messages state what failed, why, and one recovery action,
//! without debug chains or unrelated private data.
use vstd::prelude::*;

use crate::archive::{archive_error_text, ArchiveError};
use crate::paths::{ascii_lower, extension, spec_extension, to_ascii_lower};
use crate::strings::{push_char, push_decimal, push_str, spec_decimal};
use crate::width::{
    caret_letter,
    lemma_caret_letter_printable,
    lemma_control_has_caret,
    spec_is_control,
    terminal_safe,
};

verus! {

/// `std::io::Error` from std, carried as an opaque cause.
#[verifier::external_type_specification]
#[verifier::external_body]
pub struct ExIoError(std::io::Error);

/// The operating system's description of an I/O failure: `Display` of
/// `std::io::Error`. Its wording depends on the platform, so nothing is
/// stated of it.
#[verifier::external_body]
fn io_error_text(error: &std::io::Error) -> String {
    error.to_string()
}

/// Failures that can occur while decoding or bounding a source document.
#[derive(Debug)]
#[allow(inconsistent_fields)]
pub enum DocumentError {
    /// The file exceeds the configured plain-text size limit.
    TooLarge { path: String, size: u64, limit: u64 },
    /// BOM-marked UTF-16 content that does not decode cleanly.
    InvalidUtf16 { path: String, encoding: &'static str, detail: String },
    /// Unmarked content that is not valid UTF-8.
    InvalidEncoding { path: String, offset: usize, cause: String },
    /// An I/O failure occurred while reading bounded source bytes.
    Read { path: String, source: std::io::Error },
    /// The file carries an extension no format adapter accepts.
    UnsupportedFormat { path: String },
    /// The archive opened but the EPUB package itself is unusable.
    InvalidPackage { path: String, detail: String },
    /// One chapter's markup structure exceeds the safety budget.
    ChapterTooComplex { path: String, member: String, nodes: usize, limit: usize },
    /// The book declares itself pre-paginated (fixed layout).
    UnsupportedFixedLayout { path: String },
    /// An archive boundary rejected the book.
    Archive(ArchiveError),
}

/// The reader-facing text of every error but [`DocumentError::Read`].
pub open spec fn document_error_text(e: DocumentError) -> Seq<char> {
    match e {
        DocumentError::TooLarge { path, size, limit } => "book is too large: '"@ + path@
            + "' is "@ + spec_decimal(size as nat) + " bytes and the limit is "@ + spec_decimal(
            limit as nat,
        ) + " bytes; split the book or choose a smaller file"@,
        DocumentError::InvalidUtf16 { path, encoding, detail } => "could not decode '"@ + path@
            + "' as "@ + encoding@ + ": "@ + detail@
            + "; the file may be damaged or in an unsupported encoding"@,
        DocumentError::InvalidEncoding { path, offset, cause } => "could not read '"@ + path@
            + "' at byte offset "@ + spec_decimal(offset as nat) + ": "@ + cause@
            + "; re-save the book as UTF-8 or add a UTF-16 byte-order mark"@,
        DocumentError::Read { path, .. } => "could not read '"@ + path@ + "': "@,
        DocumentError::UnsupportedFormat { path } => "unsupported book format: '"@ + path@
            + "'; TermLeaf currently opens plain-text '.txt', Markdown '.md', and EPUB '.epub' books"@,
        DocumentError::InvalidPackage { path, detail } => "could not open '"@ + path@
            + "' as an EPUB book: "@ + detail@ + "; the file may be damaged or not an EPUB"@,
        DocumentError::ChapterTooComplex { path, member, nodes, limit } => "'"@ + path@
            + "' holds chapter '"@ + member@ + "' declaring about "@ + spec_decimal(nodes as nat)
            + " markup nodes beyond the "@ + spec_decimal(limit as nat)
            + " node limit; the chapter may be corrupt or hostile"@,
        DocumentError::UnsupportedFixedLayout { path } => "'"@ + path@
            + "' uses fixed layout, which TermLeaf cannot reflow; choose a reflowable EPUB edition"@,
        DocumentError::Archive(e) => archive_error_text(e@),
    }
}

impl DocumentError {
    /// The reader-facing message: what failed, why, and one recovery.
    ///
    /// A read failure appends the operating system's own description.
    pub fn message(&self) -> (m: String)
        ensures
            match *self {
                DocumentError::Read { .. } => m@.len() >= document_error_text(*self).len()
                    && m@.take(document_error_text(*self).len() as int) == document_error_text(
                    *self,
                ),
                _ => m@ == document_error_text(*self),
            },
    {
        let mut m = String::new();
        match self {
            DocumentError::TooLarge { path, size, limit } => {
                push_str(&mut m, "book is too large: '");
                push_str(&mut m, path.as_str());
                push_str(&mut m, "' is ");
                push_decimal(&mut m, *size);
                push_str(&mut m, " bytes and the limit is ");
                push_decimal(&mut m, *limit);
                push_str(&mut m, " bytes; split the book or choose a smaller file");
            },
            DocumentError::InvalidUtf16 { path, encoding, detail } => {
                push_str(&mut m, "could not decode '");
                push_str(&mut m, path.as_str());
                push_str(&mut m, "' as ");
                push_str(&mut m, encoding);
                push_str(&mut m, ": ");
                push_str(&mut m, detail.as_str());
                push_str(&mut m, "; the file may be damaged or in an unsupported encoding");
            },
            DocumentError::InvalidEncoding { path, offset, cause } => {
                push_str(&mut m, "could not read '");
                push_str(&mut m, path.as_str());
                push_str(&mut m, "' at byte offset ");
                push_decimal(&mut m, *offset as u64);
                push_str(&mut m, ": ");
                push_str(&mut m, cause.as_str());
                push_str(
                    &mut m,
                    "; re-save the book as UTF-8 or add a UTF-16 byte-order mark",
                );
            },
            DocumentError::Read { path, source } => {
                push_str(&mut m, "could not read '");
                push_str(&mut m, path.as_str());
                push_str(&mut m, "': ");
                let ghost head = m@;
                let cause = io_error_text(source);
                push_str(&mut m, cause.as_str());
                assert(m@.take(head.len() as int) =~= head);
            },
            DocumentError::UnsupportedFormat { path } => {
                push_str(&mut m, "unsupported book format: '");
                push_str(&mut m, path.as_str());
                push_str(
                    &mut m,
                    "'; TermLeaf currently opens plain-text '.txt', Markdown '.md', and EPUB '.epub' books",
                );
            },
            DocumentError::InvalidPackage { path, detail } => {
                push_str(&mut m, "could not open '");
                push_str(&mut m, path.as_str());
                push_str(&mut m, "' as an EPUB book: ");
                push_str(&mut m, detail.as_str());
                push_str(&mut m, "; the file may be damaged or not an EPUB");
            },
            DocumentError::ChapterTooComplex { path, member, nodes, limit } => {
                push_str(&mut m, "'");
                push_str(&mut m, path.as_str());
                push_str(&mut m, "' holds chapter '");
                push_str(&mut m, member.as_str());
                push_str(&mut m, "' declaring about ");
                push_decimal(&mut m, *nodes as u64);
                push_str(&mut m, " markup nodes beyond the ");
                push_decimal(&mut m, *limit as u64);
                push_str(&mut m, " node limit; the chapter may be corrupt or hostile");
            },
            DocumentError::UnsupportedFixedLayout { path } => {
                push_str(&mut m, "'");
                push_str(&mut m, path.as_str());
                push_str(
                    &mut m,
                    "' uses fixed layout, which TermLeaf cannot reflow; choose a reflowable EPUB edition",
                );
            },
            DocumentError::Archive(e) => {
                let text = e.message();
                push_str(&mut m, text.as_str());
            },
        }
        m
    }
}

/// The supported book formats, one per ingestion adapter.
#[derive(Clone, Copy, Debug, PartialEq, Eq, Structural)]
pub enum Format {
    /// Local plain text.
    PlainText,
    /// An EPUB 2 or EPUB 3 package behind the bounded archive layer.
    Epub,
    /// A source-aware Markdown document.
    Markdown,
}

/// The format a lowercase extension selects.
pub open spec fn format_for_extension(ext: Seq<char>) -> Option<Format> {
    if ext == "txt"@ {
        Some(Format::PlainText)
    } else if ext == "epub"@ {
        Some(Format::Epub)
    } else if ext == "md"@ || ext == "markdown"@ {
        Some(Format::Markdown)
    } else {
        None
    }
}

/// The format of a path, decided by its extension alone, case-insensitively.
pub open spec fn spec_detect_format(path: Seq<char>) -> Option<Format> {
    match spec_extension(path) {
        Some(ext) => format_for_extension(ascii_lower(ext)),
        None => None,
    }
}

/// Resolves one path to its supported book format.
///
/// Detection is extension-first and case-insensitive: `.txt` is plain
/// text, `.epub` an EPUB package, `.md` and `.markdown` Markdown. Content
/// validity is still checked after the extension gate.
pub fn detect_format(path: &str) -> (f: Option<Format>)
    ensures
        f == spec_detect_format(path@),
{
    match extension(path) {
        Some(ext) => {
            let lower = to_ascii_lower(ext.as_str());
            if lower == "txt".to_owned() {
                Some(Format::PlainText)
            } else if lower == "epub".to_owned() {
                Some(Format::Epub)
            } else if lower == "md".to_owned() || lower == "markdown".to_owned() {
                Some(Format::Markdown)
            } else {
                None
            }
        },
        None => None,
    }
}

/// The escaped spelling of one character: control characters become
/// their two-cell caret notation, everything else passes through.
pub open spec fn escaped_char(c: char) -> Seq<char> {
    if spec_is_control(c) {
        seq!['^', caret_letter(c as u8)->0]
    } else {
        seq![c]
    }
}

/// The escaped spelling of a text.
pub open spec fn spec_sanitized(s: Seq<char>) -> Seq<char>
    decreases s.len(),
{
    if s.len() == 0 {
        Seq::empty()
    } else {
        spec_sanitized(s.drop_last()) + escaped_char(s.last())
    }
}

/// Escapes control characters so hostile names cannot inject terminal
/// sequences into diagnostics.
///
/// Every C0 character and DEL becomes its caret notation, matching the
/// reader's own visible-control rendering; ordinary text passes through.
pub fn sanitize_path(path: &str) -> (escaped: String)
    ensures
        escaped@ == spec_sanitized(path@),
        terminal_safe(escaped@),
{
    let mut escaped = String::new();
    for ch in it: path.chars()
        invariant
            it.seq() == path@,
            escaped@ == spec_sanitized(path@.take(it.index() as int)),
    {
        let code = ch as u32;
        proof {
            let i = it.index() as int;
            assert(path@.take(i + 1).drop_last() =~= path@.take(i));
            if spec_is_control(ch) {
                lemma_control_has_caret(ch);
            }
        }
        if code == 0x7F {
            push_char(&mut escaped, '^');
            push_char(&mut escaped, '?');
        } else if code <= 0x1F {
            let letter = if code == 0x1B {
                '['
            } else if code == 0x1C {
                '\\'
            } else if code == 0x1D {
                ']'
            } else if code == 0x1E {
                '^'
            } else if code == 0x1F {
                '_'
            } else {
                let b: u8 = (0x40 + code) as u8;
                b as char
            };
            push_char(&mut escaped, '^');
            push_char(&mut escaped, letter);
        } else {
            push_char(&mut escaped, ch);
        }
        proof {
            let i = it.index() as int;
            assert(escaped@ =~= spec_sanitized(path@.take(i + 1)));
        }
    }
    proof {
        assert(path@.take(path@.len() as int) =~= path@);
        lemma_sanitized_safe(path@);
    }
    escaped
}

/// Escaped text never holds a control character.
pub proof fn lemma_sanitized_safe(s: Seq<char>)
    ensures
        terminal_safe(spec_sanitized(s)),
    decreases s.len(),
{
    if s.len() > 0 {
        let init = spec_sanitized(s.drop_last());
        let tail = escaped_char(s.last());
        lemma_sanitized_safe(s.drop_last());
        let c = s.last();
        if spec_is_control(c) {
            lemma_control_has_caret(c);
            lemma_caret_letter_printable(c as u8);
        }
        assert forall|i: int| 0 <= i < (init + tail).len() implies !spec_is_control(
            #[trigger] (init + tail)[i],
        ) by {
            if i >= init.len() {
                assert((init + tail)[i] == tail[i - init.len()]);
            }
        }
    }
}

} // verus!
