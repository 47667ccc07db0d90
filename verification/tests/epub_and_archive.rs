use termleaf::archive::{canonical_key, checked_expansion_total, classify_member, ArchiveLimits, MemberClass, NameRejection};
use termleaf::epub::{percent_decode, resolve_image_key};
use termleaf::structured::{validate_xml_structure, XmlLimits, XmlStructureError};

#[test]
fn relative_sources_merge_against_the_chapter_directory() {
    assert_eq!(resolve_image_key("text", "images/pic.png").as_deref(), Some("text/images/pic.png"));
    assert_eq!(resolve_image_key("", "pic.png").as_deref(), Some("pic.png"));
    assert_eq!(resolve_image_key("text", "/absolute/in/archive.png").as_deref(), Some("absolute/in/archive.png"));
}

#[test]
fn dot_segments_merge_without_escaping_the_package_root() {
    assert_eq!(resolve_image_key("text/part1", "../shared/pic.png").as_deref(), Some("text/shared/pic.png"));
    assert_eq!(resolve_image_key("text", "./pic.png").as_deref(), Some("text/pic.png"));
    assert_eq!(resolve_image_key("text", "../../escape.png"), None);
}

#[test]
fn schemes_fragments_and_queries_strip_or_reject() {
    assert_eq!(resolve_image_key("text", "http://host/x.png"), None);
    assert_eq!(resolve_image_key("text", "https://host/x.png"), None);
    assert_eq!(resolve_image_key("text", "data:image/png;base64,AA"), None);
    assert_eq!(resolve_image_key("text", "javascript:alert(1)"), None);
    assert_eq!(resolve_image_key("text", "pic.png#anchor").as_deref(), Some("text/pic.png"));
    assert_eq!(resolve_image_key("text", "pic.png?v=2").as_deref(), Some("text/pic.png"));
    assert_eq!(resolve_image_key("text", ""), None);
    assert_eq!(resolve_image_key("text", "#frag"), None);
}

#[test]
fn percent_escapes_decode_strictly_or_reject() {
    assert_eq!(resolve_image_key("text", "my%20pics/pic.png").as_deref(), Some("text/my pics/pic.png"));
    assert_eq!(resolve_image_key("text", "bad%ZZ.png"), None);
    assert_eq!(resolve_image_key("text", "short%2.png"), None);
    assert_eq!(percent_decode("plain.png").as_deref(), Some("plain.png"));
}

#[test]
fn percent_decoding_requires_utf8_output() {
    assert_eq!(percent_decode("%C3%A9").as_deref(), Some("é"));
    assert_eq!(percent_decode("%FF"), None);
    assert_eq!(percent_decode("%"), None);
    assert_eq!(percent_decode("a%41b").as_deref(), Some("aAb"));
}

#[test]
fn colons_after_a_slash_are_not_schemes() {
    assert_eq!(resolve_image_key("text", "a/b:c.png"), None, "the canonical key still rejects the colon");
    assert_eq!(resolve_image_key("text", "a\\..\\b.png").as_deref(), Some("text/b.png"));
}

#[test]
fn sec_011_host_dependent_spellings_reduce_to_one_canonical_key() {
    assert_eq!(canonical_key("/abs/path").unwrap_err(), NameRejection::ParentEscape);
    assert_eq!(canonical_key("//server/share/x").unwrap_err(), NameRejection::ParentEscape);
    assert_eq!(canonical_key("./a/./b/").as_deref(), Ok("a/b"));
    assert_eq!(canonical_key("dir\\file.txt").as_deref(), Ok("dir/file.txt"));
    assert_eq!(canonical_key("name. . ").as_deref(), Ok("name"));
    assert_eq!(canonical_key("C:/temp/x").unwrap_err(), NameRejection::ColonInSegment);
    assert_eq!(canonical_key("a\0b").unwrap_err(), NameRejection::ContainsNul);
    assert_eq!(canonical_key(". / . /").unwrap_err(), NameRejection::EmptyName);
    assert_ne!(canonical_key("A.txt"), canonical_key("a.txt"));

    let mut state = 0x2545_F491_4F6C_DD1D_u64;
    let mut next = move || {
        state ^= state << 13;
        state ^= state >> 7;
        state ^= state << 17;
        state
    };
    for _ in 0..512 {
        let length = next() % 24;
        let name: String = (0..length)
            .map(|_| {
                let pick = next() % 8;
                match pick {
                    0 => '/',
                    1 => '\\',
                    2 => '.',
                    3 => ':',
                    4 => '\0',
                    5 => ' ',
                    _ => char::from(b'a' + (next() % 26) as u8),
                }
            })
            .collect();
        if let Ok(key) = canonical_key(&name) {
            assert!(!key.contains('\0'));
            assert!(!key.split('/').any(|segment| segment == ".."));
            assert!(key.split('/').all(|segment| !segment.contains(':')));
        }
    }
}

#[test]
fn rejection_reasons_name_the_policy() {
    assert!(NameRejection::ParentEscape.reason().contains("leaves the archive root"));
    assert!(NameRejection::ContainsNul.reason().contains("contains NUL bytes"));
    assert!(NameRejection::ColonInSegment.reason().contains("segment contains a colon"));
    assert!(NameRejection::EmptyName.reason().contains("no usable name"));
    assert!(NameRejection::NotUtf8.reason().contains("not UTF-8"));
}

#[test]
fn member_classes_follow_names_and_suffixes() {
    assert_eq!(classify_member("META-INF/container.xml"), MemberClass::Control);
    assert_eq!(classify_member("OEBPS/content.OPF"), MemberClass::Control);
    assert_eq!(classify_member("toc.ncx"), MemberClass::Control);
    assert_eq!(classify_member("text/ch1.xhtml"), MemberClass::Chapter);
    assert_eq!(classify_member("text/ch1.HTM"), MemberClass::Chapter);
    assert_eq!(classify_member("images/cover.png"), MemberClass::Other);
    assert_eq!(classify_member("other/container.xml"), MemberClass::Other);
    let limits = ArchiveLimits::default();
    assert_eq!(MemberClass::Control.limit(&limits), 16 * 1024 * 1024);
    assert_eq!(MemberClass::Chapter.limit(&limits), 32 * 1024 * 1024);
    assert_eq!(MemberClass::Other.limit(&limits), 512 * 1024 * 1024);
    assert_eq!(MemberClass::Other.name(), "resource");
}

#[test]
fn expansion_totals_are_inclusive_and_never_saturate() {
    assert_eq!(checked_expansion_total(10, 5, 15), Some(15));
    assert_eq!(checked_expansion_total(10, 6, 15), None);
    assert_eq!(checked_expansion_total(u64::MAX, 1, u64::MAX), None);
}

#[test]
fn xml_structure_counts_openings_and_depth_inclusively() {
    let limits = XmlLimits { max_depth: 2, max_nodes: 3 };
    assert_eq!(validate_xml_structure(b"<a><b/></a>", limits), Ok(()));
    assert_eq!(
        validate_xml_structure(b"<a><b><c/></b></a>", limits),
        Err(XmlStructureError::TooDeep { depth: 3, limit: 2 })
    );
    assert_eq!(
        validate_xml_structure(b"<a/><b/><c/><d/>", limits),
        Err(XmlStructureError::TooManyNodes { nodes: 4, limit: 3 })
    );
    assert_eq!(
        validate_xml_structure(b"<!DOCTYPE x><a/>", XmlLimits::default()),
        Err(XmlStructureError::DtdDeclaration)
    );
    assert_eq!(validate_xml_structure(b"<!-- <x><y><z> --><a/>", limits), Ok(()));
    assert_eq!(validate_xml_structure(b"<![CDATA[<x><y>]]><a/>", limits), Ok(()));
    assert_eq!(validate_xml_structure(b"<?xml version='1.0'?><a/>", limits), Ok(()));
    assert_eq!(validate_xml_structure(b"<a title='x>y'/><b/>", limits), Ok(()));
    assert_eq!(XmlStructureError::TooDeep { depth: 3, limit: 2 }.message(), "XML depth 3 exceeds the 2 depth limit");
}

#[test]
fn canonical_keys_are_their_own_canonical_keys() {
    for name in ["./a/./b/", "dir\\file.txt", "name. . ", "OEBPS\\Text//ch 1.xhtml. ", "x/y.. /z"] {
        let key = canonical_key(name).unwrap();
        assert_eq!(canonical_key(&key).as_deref(), Ok(key.as_str()));
    }
}
