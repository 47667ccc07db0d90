use termleaf::clock::format_epoch;
use termleaf::error::{detect_format, sanitize_path, DocumentError, Format};
use termleaf::theme::{startup_theme, ThemeName};

#[test]
fn known_instants_format_as_utc_hours_and_minutes() {
    assert_eq!(format_epoch(0), "00:00");
    assert_eq!(format_epoch(59 * 60 + 59), "00:59");
    assert_eq!(format_epoch(10 * 3600 + 42 * 60), "10:42");
    assert_eq!(format_epoch(23 * 3600 + 59 * 60), "23:59");
    assert_eq!(format_epoch(24 * 3600), "00:00");
}

#[test]
fn cli_007_txt_extension_is_accepted_case_insensitively() {
    for name in ["book.txt", "BOOK.TXT", "pride-and-prejudice-1342.txt", "b.TxT"] {
        assert_eq!(detect_format(name), Some(Format::PlainText), "{name} opens as plain text");
    }
}

#[test]
fn cli_007_unsupported_or_missing_extensions_are_one_typed_rejection() {
    for name in ["book.dat", "book", "book.text", ".txt"] {
        let result = detect_format(name);
        assert_eq!(result, None, "{name} has no adapter");
        let error = DocumentError::UnsupportedFormat { path: name.to_owned() };
        let message = error.message();
        assert!(message.contains("unsupported book format"), "{message}");
        assert!(message.contains(name), "{message}");
    }
    let message = DocumentError::UnsupportedFormat { path: "other.dat".to_owned() }.message();
    assert!(message.contains("plain-text '.txt'"), "{message}");
    assert!(message.contains("'.md'"), "{message}");
    assert!(message.contains("'.epub'"), "{message}");
}

#[test]
fn cli_007_markdown_extensions_are_accepted_case_insensitively() {
    for name in ["notes.md", "NOTES.MD", "readme.markdown", "b.Md"] {
        assert_eq!(detect_format(name), Some(Format::Markdown), "{name} opens as Markdown");
    }
}

#[test]
fn epub_extension_is_accepted_case_insensitively() {
    for name in ["book.epub", "BOOK.EPUB", "b.Epub"] {
        assert_eq!(detect_format(name), Some(Format::Epub), "{name} opens as EPUB");
    }
}

#[test]
fn err_001_each_document_error_names_path_reason_and_recovery() {
    let errors = [
        DocumentError::TooLarge { path: "big.txt".to_owned(), size: 40, limit: 32 }.message(),
        DocumentError::InvalidUtf16 {
            path: "old.txt".to_owned(),
            encoding: "UTF-16LE",
            detail: "bad unit".to_owned(),
        }
        .message(),
        DocumentError::InvalidEncoding {
            path: "broken.txt".to_owned(),
            offset: 3,
            cause: "invalid UTF-8 sequence".to_owned(),
        }
        .message(),
        DocumentError::Read {
            path: "gone.txt".to_owned(),
            source: std::io::Error::from(std::io::ErrorKind::NotFound),
        }
        .message(),
        DocumentError::UnsupportedFormat { path: "other.dat".to_owned() }.message(),
    ];

    for message in &errors {
        assert!(message.contains('\''), "names its path: {message}");
        assert!(
            message.contains("could not") || message.contains("unsupported") || message.contains("too large"),
            "states what failed: {message}"
        );
        assert!(message.contains(';') || message.contains(':'), "gives a reason or recovery: {message}");
    }
    assert!(errors[0].contains("limit is 32 bytes"));
    assert!(errors[1].contains("UTF-16LE"));
    assert!(errors[2].contains("byte offset 3"));
    assert!(errors[4].contains("plain-text '.txt'"));
}

#[test]
fn err_003_control_bytes_in_failing_paths_cannot_reach_the_terminal() {
    let hostile = "tricky\u{1b}[31mname.txt";
    let error = DocumentError::InvalidEncoding {
        path: sanitize_path(hostile),
        offset: 0,
        cause: "invalid UTF-8 sequence".to_owned(),
    };
    let message = error.message();
    assert!(!message.contains('\u{1b}'), "no escape byte survives: {message}");
    assert!(message.contains("^["));
}

#[test]
fn cfg_002_explicit_theme_overrides_config_which_overrides_the_default() {
    assert_eq!(startup_theme(Some("light"), Some("dark")), ThemeName::Light, "the command line wins");
    assert_eq!(startup_theme(None, Some("dark")), ThemeName::Dark);
    assert_eq!(startup_theme(Some("monochrome"), None), ThemeName::Monochrome);
    assert_eq!(startup_theme(None, None), ThemeName::Paper, "no signal keeps the built-in default");
    assert_eq!(
        startup_theme(None, Some("not-a-theme")),
        ThemeName::Paper,
        "an unrecognized configured slug falls back"
    );
    assert_eq!(startup_theme(Some("bogus"), Some("dark")), ThemeName::Dark);
}

#[test]
fn theme_slugs_round_trip_through_parse() {
    for theme in [ThemeName::Dark, ThemeName::Light, ThemeName::HighContrast, ThemeName::Monochrome, ThemeName::Paper] {
        assert_eq!(ThemeName::parse(theme.slug()), Some(theme));
    }
    assert_eq!(ThemeName::parse("Dark"), None);
}

#[test]
fn clock_minutes_wrap_each_day() {
    assert_eq!(format_epoch(86_400 + 3_600 * 5 + 60 * 7 + 30), "05:07");
}

#[test]
fn sanitized_paths_escape_every_control_byte() {
    assert_eq!(sanitize_path("a\u{7f}b\tc"), "a^?b^Ic");
    assert_eq!(sanitize_path("plain.txt"), "plain.txt");
}
