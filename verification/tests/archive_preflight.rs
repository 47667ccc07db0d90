use std::io::Write;

use termleaf::archive::{
    check_members, ArchiveError, ArchiveLimits, EntryFacts, MemberClass, PreflightedArchive, SeekTarget,
};
use termleaf::structured::{validate_control_xml, XmlLimits, XmlStructureError};
use zip::CompressionMethod;

const PATH: &str = "book.epub";

fn tiny_limits() -> ArchiveLimits {
    ArchiveLimits {
        max_compressed_bytes: 4096,
        max_members: 16,
        max_advertised_expansion: 1024,
        max_control_member: 64,
        max_chapter_member: 96,
        max_compression_ratio: 100,
        small_file_exception: 32,
        xml: XmlLimits::default(),
    }
}

/// A stored entry with full byte-level control over its headers.
struct HandEntry {
    name: String,
    data: Vec<u8>,
    method: u16,
    flags: u16,
    crc_override: Option<u32>,
    declared_size: Option<u32>,
    declared_compressed: Option<u32>,
}

impl HandEntry {
    fn stored(name: &str, data: &[u8]) -> Self {
        Self {
            name: name.to_owned(),
            data: data.to_vec(),
            method: 0,
            flags: 0,
            crc_override: None,
            declared_size: None,
            declared_compressed: None,
        }
    }
}

fn crc32(data: &[u8]) -> u32 {
    let mut table = [0u32; 256];
    for (index, slot) in table.iter_mut().enumerate() {
        let mut value = index as u32;
        for _ in 0..8 {
            value = if value & 1 != 0 { 0xEDB8_8320 ^ (value >> 1) } else { value >> 1 };
        }
        *slot = value;
    }
    let mut crc = 0xFFFF_FFFFu32;
    for byte in data {
        crc = table[((crc ^ u32::from(*byte)) & 0xFF) as usize] ^ (crc >> 8);
    }
    !crc
}

fn build_archive(entries: &[HandEntry]) -> Vec<u8> {
    let mut out = Vec::new();
    let mut directory = Vec::new();
    for entry in entries {
        let crc = entry.crc_override.unwrap_or_else(|| crc32(&entry.data));
        let size = entry.declared_size.unwrap_or(entry.data.len() as u32);
        let compressed = entry.declared_compressed.unwrap_or(entry.data.len() as u32);
        let header_offset = out.len();
        out.extend_from_slice(&0x0403_4B50_u32.to_le_bytes());
        out.extend_from_slice(&20_u16.to_le_bytes());
        out.extend_from_slice(&entry.flags.to_le_bytes());
        out.extend_from_slice(&entry.method.to_le_bytes());
        out.extend_from_slice(&0_u16.to_le_bytes());
        out.extend_from_slice(&0_u16.to_le_bytes());
        out.extend_from_slice(&crc.to_le_bytes());
        out.extend_from_slice(&compressed.to_le_bytes());
        out.extend_from_slice(&size.to_le_bytes());
        out.extend_from_slice(&(entry.name.len() as u16).to_le_bytes());
        out.extend_from_slice(&0_u16.to_le_bytes());
        out.extend_from_slice(entry.name.as_bytes());
        out.extend_from_slice(&entry.data);

        directory.extend_from_slice(&0x0201_4B50_u32.to_le_bytes());
        directory.extend_from_slice(&20_u16.to_le_bytes());
        directory.extend_from_slice(&20_u16.to_le_bytes());
        directory.extend_from_slice(&entry.flags.to_le_bytes());
        directory.extend_from_slice(&entry.method.to_le_bytes());
        directory.extend_from_slice(&0_u16.to_le_bytes());
        directory.extend_from_slice(&0_u16.to_le_bytes());
        directory.extend_from_slice(&crc.to_le_bytes());
        directory.extend_from_slice(&compressed.to_le_bytes());
        directory.extend_from_slice(&size.to_le_bytes());
        directory.extend_from_slice(&(entry.name.len() as u16).to_le_bytes());
        directory.extend_from_slice(&0_u16.to_le_bytes());
        directory.extend_from_slice(&0_u16.to_le_bytes());
        directory.extend_from_slice(&0_u16.to_le_bytes());
        directory.extend_from_slice(&0_u16.to_le_bytes());
        directory.extend_from_slice(&0_u32.to_le_bytes());
        directory.extend_from_slice(&(header_offset as u32).to_le_bytes());
        directory.extend_from_slice(entry.name.as_bytes());
    }
    let directory_offset = out.len() as u32;
    out.extend_from_slice(&directory);
    out.extend_from_slice(&0x0605_4B50_u32.to_le_bytes());
    out.extend_from_slice(&0_u16.to_le_bytes());
    out.extend_from_slice(&0_u16.to_le_bytes());
    out.extend_from_slice(&(entries.len() as u16).to_le_bytes());
    out.extend_from_slice(&(entries.len() as u16).to_le_bytes());
    out.extend_from_slice(&(directory.len() as u32).to_le_bytes());
    out.extend_from_slice(&directory_offset.to_le_bytes());
    out.extend_from_slice(&0_u16.to_le_bytes());
    out
}

fn open(entries: &[HandEntry], limits: &ArchiveLimits) -> Result<(), ArchiveError> {
    PreflightedArchive::open(build_archive(entries), PATH, limits).map(|_| ())
}

/// Overwrites one little-endian `u32` inside the named central-directory
/// header (20 = compressed size, 24 = uncompressed size, 42 = local offset).
fn patch_central_field(bytes: &mut [u8], name: &str, field: usize, value: u32) {
    let signature = 0x0201_4B50_u32.to_le_bytes();
    let mut start = 0;
    while let Some(found) = bytes[start..].windows(4).position(|window| window == signature) {
        let header = start + found;
        let name_length = u16::from_le_bytes([bytes[header + 28], bytes[header + 29]]) as usize;
        let stored_name = &bytes[header + 46..header + 46 + name_length];
        if stored_name == name.as_bytes() {
            let at = header + field;
            bytes[at..at + 4].copy_from_slice(&value.to_le_bytes());
            return;
        }
        start = header + 4;
    }
    panic!("central header for {name} not found");
}

#[test]
fn sec_001_unsafe_or_ambiguous_member_names_reject_with_typed_reasons() {
    let cases = [
        ("/etc/passwd", "leaves the archive root"),
        ("../escape.xhtml", "leaves the archive root"),
        ("a/../../b", "leaves the archive root"),
        ("bad\0name", "contains NUL bytes"),
        ("device:stream", "segment contains a colon"),
        ("", "no usable name"),
    ];
    for (name, expected_reason) in cases {
        let error = open(&[HandEntry::stored(name, b"x")], &tiny_limits()).expect_err("unsafe names are rejected");
        let ArchiveError::UnsafeMemberName { reason, .. } = error else {
            panic!("{name}: expected UnsafeMemberName, got {error:?}");
        };
        assert!(reason.contains(expected_reason), "{name}: {reason} does not mention {expected_reason}");
    }

    let ambiguous = open(
        &[HandEntry::stored("a/b.xhtml", b"one"), HandEntry::stored("a\\b.xhtml", b"two")],
        &tiny_limits(),
    )
    .expect_err("colliding keys reject");
    assert!(matches!(ambiguous, ArchiveError::AmbiguousMemberName { .. }));
}

#[test]
fn sec_002_symlink_encrypted_and_unsupported_entries_match_policy_errors() {
    let mut buffer = std::io::Cursor::new(Vec::new());
    {
        let mut writer = zip::ZipWriter::new(&mut buffer);
        let options = zip::write::SimpleFileOptions::default()
            .compression_method(CompressionMethod::Stored)
            .unix_permissions(0o120_777);
        writer.start_file("OEBPS/link.xhtml", options).expect("write");
        writer.write_all(b"target").expect("body");
        writer.finish().expect("finish");
    }
    let mut bytes = buffer.into_inner();
    let position = bytes
        .windows(4)
        .position(|window| window == 0x0201_4B50_u32.to_le_bytes())
        .expect("central signature present");
    let attribute_offset = position + 38;
    bytes[attribute_offset..attribute_offset + 4].copy_from_slice(&(0o120_777_u32 << 16).to_le_bytes());
    let error = PreflightedArchive::open(bytes, PATH, &tiny_limits()).expect_err("symlinks are rejected");
    assert!(matches!(error, ArchiveError::SymlinkMember { .. }), "{error:?}");

    let mut encrypted = HandEntry::stored("OEBPS/c.xhtml", b"secret");
    encrypted.flags = 1;
    let error = open(&[encrypted], &tiny_limits()).expect_err("encryption rejects");
    let ArchiveError::EncryptedMember { member, .. } = error else {
        panic!("expected EncryptedMember, got {error:?}");
    };
    assert!(member.contains("c.xhtml"), "{member}");

    let mut exotic = HandEntry::stored("OEBPS/c.xhtml", b"data");
    exotic.method = 98;
    let error = open(&[exotic], &tiny_limits()).expect_err("method policy rejects");
    let ArchiveError::UnsupportedCompression { method, .. } = error else {
        panic!("expected UnsupportedCompression, got {error:?}");
    };
    assert!(!method.is_empty(), "{method}");
}

#[test]
fn sec_003_compressed_file_boundary_is_inclusive() {
    let bytes = build_archive(&[HandEntry::stored("mimetype", b"application/epub+zip")]);
    let limits = ArchiveLimits { max_compressed_bytes: bytes.len() as u64, ..tiny_limits() };
    assert!(PreflightedArchive::open(bytes.clone(), PATH, &limits).is_ok(), "the exact boundary passes");
    let tight = ArchiveLimits { max_compressed_bytes: bytes.len() as u64 - 1, ..tiny_limits() };
    let error = PreflightedArchive::open(bytes, PATH, &tight).expect_err("over-limit rejects");
    assert!(matches!(error, ArchiveError::TooLarge { .. }), "{error:?}");
}

#[test]
fn sec_004_member_count_boundary_is_inclusive() {
    let make = |count: usize| {
        let entries: Vec<_> = (0..count).map(|index| HandEntry::stored(&format!("m{index}"), b"x")).collect();
        build_archive(&entries)
    };
    let limits = ArchiveLimits { max_members: 4, ..tiny_limits() };
    assert!(PreflightedArchive::open(make(4), PATH, &limits).is_ok());
    let error = PreflightedArchive::open(make(5), PATH, &limits).expect_err("too many members reject");
    let ArchiveError::TooManyMembers { count, limit, .. } = error else {
        panic!("expected TooManyMembers, got {error:?}");
    };
    assert_eq!((count, limit), (5, 4));
}

#[test]
fn sec_005_advertised_expansion_boundary_is_inclusive_per_entry_and_aggregate() {
    let limits = ArchiveLimits { max_advertised_expansion: 10, ..tiny_limits() };
    let entries = [HandEntry::stored("a.txt", &[0u8; 6]), HandEntry::stored("b.txt", &[0u8; 6])];
    let error = open(&entries, &limits).expect_err("aggregate expansion rejects");
    let ArchiveError::AdvertisedExpansionTooLarge { total, limit, .. } = error else {
        panic!("expected AdvertisedExpansionTooLarge, got {error:?}");
    };
    assert_eq!((total, limit), (12, 10));
    let mut buffer = std::io::Cursor::new(Vec::new());
    {
        let mut writer = zip::ZipWriter::new(&mut buffer);
        writer.start_file("OEBPS/bomb.xhtml", zip::write::SimpleFileOptions::default()).expect("write");
        writer.write_all(&[7u8; 200]).expect("body");
        writer.finish().expect("finish");
    }
    let mut bytes = buffer.into_inner();
    patch_central_field(&mut bytes, "OEBPS/bomb.xhtml", 24, 1000);
    let roomy = ArchiveLimits {
        max_advertised_expansion: u64::MAX,
        max_chapter_member: u64::from(u32::MAX),
        max_compression_ratio: u64::MAX,
        ..tiny_limits()
    };
    let error = PreflightedArchive::open(bytes, PATH, &roomy).expect_err("dishonest sizes reject");
    assert!(matches!(error, ArchiveError::DishonestMetadata { .. }), "unexpected variant: {error:?}");
}

#[test]
fn sec_006_control_members_fail_before_semantic_parsing_at_the_boundary() {
    let limits = ArchiveLimits { max_control_member: 8, ..tiny_limits() };
    let exact = [HandEntry::stored("OEBPS/content.opf", &[0u8; 8])];
    assert!(open(&exact, &limits).is_ok(), "exact control boundary passes");

    let over = [HandEntry::stored("OEBPS/content.opf", &[0u8; 9])];
    let error = open(&over, &limits).expect_err("declared control size rejects");
    let ArchiveError::MemberTooLarge { kind, size, limit, .. } = error else {
        panic!("expected MemberTooLarge, got {error:?}");
    };
    assert_eq!((kind.as_str(), size, limit), ("control", 9, 8));

    let nav_over = [HandEntry::stored("META-INF/container.xml", &[0u8; 12])];
    let error = open(&nav_over, &limits).expect_err("container bound applies");
    assert!(matches!(error, ArchiveError::MemberTooLarge { .. }));

    let ncx_over = [HandEntry::stored("OEBPS/toc.ncx", &[0u8; 12])];
    let error = open(&ncx_over, &limits).expect_err("NCX bound applies");
    assert!(matches!(error, ArchiveError::MemberTooLarge { .. }));
}

#[test]
fn sec_007_chapter_boundary_yields_one_exact_typed_result() {
    let limits = ArchiveLimits { max_chapter_member: 16, ..tiny_limits() };
    let entries = [
        HandEntry::stored("mimetype", b"application/epub+zip"),
        HandEntry::stored("OEBPS/chapter.xhtml", &[0u8; 17]),
    ];
    let error = open(&entries, &limits).expect_err("chapter bound rejects");
    let ArchiveError::MemberTooLarge { kind, size, limit, .. } = error else {
        panic!("expected MemberTooLarge, got {error:?}");
    };
    assert_eq!((kind.as_str(), size, limit), ("chapter", 17, 16));
}

#[test]
fn sec_008_ratio_formula_zero_byte_and_small_file_rules_hold_without_overflow() {
    let limits = ArchiveLimits { small_file_exception: 32, max_compression_ratio: 100, ..tiny_limits() };

    let empty = [HandEntry::stored("empty.txt", b"")];
    assert!(open(&empty, &limits).is_ok());

    let mut small = HandEntry::stored("small.txt", &[7u8; 8]);
    small.declared_size = None;
    small.declared_compressed = Some(1);
    assert!(open(std::slice::from_ref(&small), &limits).is_ok());

    let mut edge = HandEntry::stored("edge.txt", &[7u8; 33]);
    edge.declared_compressed = Some(1);
    assert!(open(std::slice::from_ref(&edge), &limits).is_ok());

    let mut over = HandEntry::stored("over.txt", &[7u8; 202]);
    over.declared_compressed = Some(2);
    let error = open(&[over], &limits).expect_err("ratio breach rejects");
    let ArchiveError::ExpansionRatioExceeded { size, limit, .. } = error else {
        panic!("expected ExpansionRatioExceeded, got {error:?}");
    };
    assert_eq!((size, limit), (202, 100));
}

#[test]
fn sec_010_truncated_corrupt_and_crc_broken_archives_stay_typed() {
    let truncated = vec![0x50, 0x4B, 0x03];
    let error = PreflightedArchive::open(truncated, PATH, &tiny_limits()).expect_err("truncation rejects");
    assert!(matches!(error, ArchiveError::Malformed { .. }), "{error:?}");

    let mut corrupt = build_archive(&[HandEntry::stored("a.txt", b"data")]);
    let position = corrupt
        .windows(4)
        .position(|window| window == 0x0201_4B50_u32.to_le_bytes())
        .expect("central signature present");
    corrupt[position] ^= 0xFF;
    let error = PreflightedArchive::open(corrupt, PATH, &tiny_limits()).expect_err("corruption rejects");
    assert!(matches!(error, ArchiveError::Malformed { .. }));

    let mut lying = HandEntry::stored("OEBPS/c.xhtml", b"actual data");
    lying.crc_override = Some(0xDEAD_BEEF);
    let error = open(std::slice::from_ref(&lying), &tiny_limits()).expect_err("crc mismatch rejects");
    assert!(matches!(error, ArchiveError::Malformed { .. }), "{error:?}");
}

#[test]
fn sec_002_overlapping_data_regions_reject_before_semantic_parsing() {
    let entries = [HandEntry::stored("OEBPS/a.xhtml", b"first body"), HandEntry::stored("OEBPS/b.xhtml", b"second body")];
    let mut bytes = build_archive(&entries);
    let signature = 0x0403_4B50_u32.to_le_bytes();
    let first_local_offset =
        bytes.windows(4).position(|window| window == signature).expect("local signature present") as u32;
    let central_signature = 0x0201_4B50_u32.to_le_bytes();
    let mut found = Vec::new();
    let mut start = 0;
    while let Some(position) = bytes[start..].windows(4).position(|window| window == central_signature) {
        found.push(start + position);
        start += position + 4;
    }
    assert_eq!(found.len(), 2, "two central headers exist");
    let second_central = found[1];
    bytes[second_central + 42..second_central + 46].copy_from_slice(&first_local_offset.to_le_bytes());

    let error = PreflightedArchive::open(bytes, PATH, &tiny_limits()).expect_err("overlapping members reject");
    assert!(matches!(error, ArchiveError::OverlappingMembers { .. }), "{error:?}");
}

#[test]
fn preflighted_members_keep_archive_order_keys_and_classes() {
    let entries = [
        HandEntry::stored("mimetype", b"application/epub+zip"),
        HandEntry::stored("OEBPS\\content.opf", b"<package/>"),
        HandEntry::stored("./OEBPS/ch1.xhtml", b"<html><body/></html>"),
        HandEntry::stored("OEBPS/img.png", b"png"),
    ];
    let archive = PreflightedArchive::open(build_archive(&entries), PATH, &tiny_limits()).expect("valid book");
    let keys: Vec<&str> = archive.members().iter().map(|m| m.key()).collect();
    assert_eq!(keys, vec!["mimetype", "OEBPS/content.opf", "OEBPS/ch1.xhtml", "OEBPS/img.png"]);
    let classes: Vec<MemberClass> = archive.members().iter().map(|m| m.class()).collect();
    assert_eq!(classes, vec![MemberClass::Other, MemberClass::Control, MemberClass::Chapter, MemberClass::Other]);
    assert_eq!(archive.member("OEBPS/content.opf").map(|m| m.declared_size()), Some(10));
    assert!(archive.member("OEBPS\\content.opf").is_none());
    assert!(archive.member("missing").is_none());
}

#[test]
fn reads_return_exact_bytes_and_respect_the_tighter_limit() {
    let entries = [HandEntry::stored("OEBPS/ch1.xhtml", b"<p>hello</p>"), HandEntry::stored("a.txt", b"abcdef")];
    let archive = PreflightedArchive::open(build_archive(&entries), PATH, &tiny_limits()).expect("valid book");
    assert_eq!(archive.read_member("OEBPS/ch1.xhtml").expect("read"), b"<p>hello</p>".to_vec());
    assert_eq!(archive.read_member_bounded("a.txt", 6).expect("exact bound"), b"abcdef".to_vec());
    let error = archive.read_member_bounded("a.txt", 5).expect_err("tighter bound rejects");
    let ArchiveError::MemberTooLarge { kind, size, limit, member, .. } = &error else {
        panic!("expected MemberTooLarge, got {error:?}");
    };
    assert_eq!((kind.as_str(), *size, *limit, member.as_str()), ("resource", 6, 5, "a.txt"));
    let error = archive.read_member("gone.xhtml").expect_err("unknown keys reject");
    let ArchiveError::Malformed { detail, .. } = &error else {
        panic!("expected Malformed, got {error:?}");
    };
    assert_eq!(detail, "resource 'gone.xhtml' vanished after preflight");
}

#[test]
fn xml_gate_rejects_declarations_in_control_documents() {
    let entries = [HandEntry::stored("OEBPS/content.opf", b"<!DOCTYPE x><package/>")];
    let error = open(&entries, &tiny_limits()).expect_err("DTD rejects");
    let ArchiveError::UnsafeXmlStructure { source, member, .. } = &error else {
        panic!("expected UnsafeXmlStructure, got {error:?}");
    };
    assert_eq!(*source, XmlStructureError::DtdDeclaration);
    assert_eq!(member, "OEBPS/content.opf");
    assert_eq!(
        error.message(),
        "structured document 'OEBPS/content.opf' in 'book.epub' is not safe to parse: DTD and entity declarations are not allowed; the book may be hostile or damaged"
    );
}

#[test]
fn archive_messages_name_the_book_the_reason_and_the_recovery() {
    let error = ArchiveError::TooLarge { path: "b.epub".to_owned(), size: 10, limit: 9 };
    assert_eq!(
        error.message(),
        "book is too large: 'b.epub' is 10 bytes and the limit is 9 bytes; split the book or choose a smaller file"
    );
    let error = ArchiveError::MemberTooLarge {
        path: "b.epub".to_owned(),
        member: "c.xhtml".to_owned(),
        kind: "chapter".to_owned(),
        size: 17,
        limit: 16,
    };
    assert_eq!(
        error.message(),
        "chapter resource 'c.xhtml' in 'b.epub' is 17 bytes and the limit is 16 bytes; the entry may be hostile or the book too large"
    );
    let error = ArchiveError::ExpansionRatioExceeded {
        path: "b.epub".to_owned(),
        member: "x".to_owned(),
        size: 202,
        limit: 100,
    };
    assert_eq!(
        error.message(),
        "book resource 'x' in 'b.epub' expands to 202 bytes from its compressed form, past the 100:1 budget; the entry may be hostile"
    );
}

#[test]
fn non_utf8_member_names_reject_with_a_sanitized_name() {
    let mut bytes = build_archive(&[HandEntry::stored("aZ", b"x")]);
    let position = bytes.windows(2).rposition(|window| window == b"aZ").expect("central name present");
    bytes[position + 1] = 0xFF;
    let local = bytes.windows(2).position(|window| window == b"aZ").expect("local name present");
    bytes[local + 1] = 0xFF;
    let error = PreflightedArchive::open(bytes, PATH, &tiny_limits()).expect_err("non-UTF-8 names reject");
    let ArchiveError::UnsafeMemberName { reason, member, .. } = &error else {
        panic!("expected UnsafeMemberName, got {error:?}");
    };
    assert_eq!(reason, "the member name is not UTF-8 text");
    assert_eq!(member, "a\u{FFFD}");
}

#[test]
fn cursor_reads_in_order_and_seeks_clamp_into_the_bytes() {
    let archive = PreflightedArchive::open(
        build_archive(&[HandEntry::stored("a.txt", b"abc")]),
        PATH,
        &tiny_limits(),
    )
    .expect("valid book");
    let shared = archive.shared_bytes();
    let mut cursor = shared.cursor();
    let mut buf = [0u8; 4];
    assert_eq!(cursor.read(&mut buf), 4);
    assert_eq!(&buf, b"PK\x03\x04");
    let total = cursor.seek(SeekTarget::End(0));
    assert!(total > 4);
    assert_eq!(cursor.read(&mut buf), 0);
    assert_eq!(cursor.seek(SeekTarget::Current(-2)), total - 2);
    let mut wide = [9u8; 5];
    assert_eq!(cursor.read(&mut wide), 2);
    assert_eq!(&wide[2..], &[9, 9, 9]);
    assert_eq!(cursor.seek(SeekTarget::Current(-1_000_000)), 0);
    assert_eq!(cursor.seek(SeekTarget::Start(u64::MAX)), total);
    assert_eq!(cursor.seek(SeekTarget::End(10)), total);
}

fn entry(name: &str, size: u64, start: u64) -> Result<EntryFacts, termleaf::archive::ZipFault> {
    Ok(EntryFacts {
        raw_name: name.as_bytes().to_vec(),
        method: "Stored".to_owned(),
        encrypted: false,
        symlink: false,
        size,
        compressed_size: size,
        data_start: Some(start),
    })
}

#[test]
fn directory_entries_are_checked_in_order_by_the_member_policy() {
    let limits = ArchiveLimits::default();
    let accepted = check_members(&vec![entry("mimetype", 20, 0), entry("OEBPS\\ch1.xhtml", 10, 100)], "book.epub", &limits)
        .expect("two plain members");
    assert_eq!(accepted.len(), 2);
    assert_eq!(accepted[1].key(), "OEBPS/ch1.xhtml");
    assert_eq!(accepted[1].declared_size(), 10);
    let twice = check_members(&vec![entry("a/b.xhtml", 1, 0), entry("a\\b.xhtml", 1, 50)], "book.epub", &limits)
        .expect_err("one key twice");
    assert!(matches!(twice, ArchiveError::AmbiguousMemberName { .. }));
    let overlap = check_members(&vec![entry("a.xhtml", 10, 0), entry("b.xhtml", 10, 5)], "book.epub", &limits)
        .expect_err("overlapping data");
    assert!(matches!(overlap, ArchiveError::OverlappingMembers { .. }));
    let many = vec![entry("x", 0, 0); limits.max_members + 1];
    assert!(matches!(check_members(&many, "book.epub", &limits), Err(ArchiveError::TooManyMembers { .. })));
}

#[test]
fn sec_009_control_xml_mutation_table_is_strict_and_never_resolves_declarations() {
    let malformed: [&[u8]; 8] = [
        b"<container>",
        b"<package><item></package>",
        b"<ncx attr='unterminated></ncx>",
        b"<nav><a></nav>",
        b"<!-- unterminated",
        b"<?pi unterminated",
        b"<root><",
        b"\xff<root/>",
    ];
    for source in malformed {
        assert!(
            matches!(validate_control_xml(source, XmlLimits::default()), Err(XmlStructureError::Malformed { .. })),
            "mutation unexpectedly accepted: {source:?}"
        );
    }
    assert_eq!(
        validate_control_xml(b"<!DOCTYPE root SYSTEM 'file:///etc/passwd'><root/>", XmlLimits::default()),
        Err(XmlStructureError::DtdDeclaration)
    );
}

#[test]
fn well_formed_control_documents_pass_the_strict_reading() {
    let source = b"<?xml version='1.0'?><container><rootfiles><rootfile full-path='a.opf'/></rootfiles></container>";
    assert_eq!(validate_control_xml(source, XmlLimits::default()), Ok(()));
}
