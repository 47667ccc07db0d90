use termleaf::image::ImageLimits;
use termleaf::terminal_image::{
    check_cell_limit, failure_caption, nearest_xterm_index, render_half_blocks, select_backend, CapabilityEvidence, CellColor,
    CellColorMode, CellRenderError, HalfBlockCell, ImageBackend, ImageCapabilities, IncompatibleImageOverride, Rgb,
    BYTES_RESERVED_PER_CELL, HALF_BLOCK_ALLOCATION_LIMIT_BYTES, MAX_HALF_BLOCK_CELLS,
};
use termleaf::terminal_probe::{
    all_complete, analyze, key_bytes, write_queries, ProbeKey, ProbeModifiers, ProbeOutcome, ProbeReport,
    ProbeSession, PROBE_FRAME_LIMIT, PROBE_RESPONSE_LIMIT,
};

const ID: u32 = 77;

#[test]
fn explicit_override_wins_and_negative_evidence_is_typed() {
    let capabilities = ImageCapabilities {
        kitty: CapabilityEvidence::Positive,
        sixel: CapabilityEvidence::Negative,
        true_color: CapabilityEvidence::Positive,
        ..ImageCapabilities::default()
    };
    assert_eq!(select_backend(Some(ImageBackend::Caption), capabilities), Ok(ImageBackend::Caption));
    assert_eq!(
        select_backend(Some(ImageBackend::Sixel), capabilities),
        Err(IncompatibleImageOverride { backend: ImageBackend::Sixel, evidence: CapabilityEvidence::Negative })
    );
    assert_eq!(
        select_backend(Some(ImageBackend::Iterm2), capabilities),
        Ok(ImageBackend::Iterm2),
        "an override may replace absent detection"
    );
}

#[test]
fn automatic_selection_requires_positive_evidence_in_locked_order() {
    let mut capabilities = ImageCapabilities {
        kitty: CapabilityEvidence::Malformed,
        sixel: CapabilityEvidence::Positive,
        iterm2: CapabilityEvidence::Positive,
        true_color: CapabilityEvidence::Positive,
        ..ImageCapabilities::default()
    };
    assert_eq!(select_backend(None, capabilities), Ok(ImageBackend::Sixel));
    capabilities.sixel = CapabilityEvidence::Absent;
    assert_eq!(select_backend(None, capabilities), Ok(ImageBackend::Iterm2));
    capabilities.iterm2 = CapabilityEvidence::Negative;
    assert_eq!(select_backend(None, capabilities), Ok(ImageBackend::TrueColorCells));
    capabilities.true_color = CapabilityEvidence::Malformed;
    assert_eq!(select_backend(None, capabilities), Ok(ImageBackend::Caption), "absent ANSI-256 evidence does not enable cells");
    capabilities.ansi256 = CapabilityEvidence::Positive;
    assert_eq!(select_backend(None, capabilities), Ok(ImageBackend::Ansi256Cells));
    capabilities.ansi256 = CapabilityEvidence::Malformed;
    assert_eq!(select_backend(None, capabilities), Ok(ImageBackend::Caption));
}

#[test]
fn half_blocks_fit_bounds_composite_alpha_and_preserve_source_pixels() {
    let pixels = vec![255, 0, 0, 255, 0, 255, 0, 128, 0, 0, 255, 0, 255, 255, 255, 255];
    let original = pixels.clone();
    let frame = render_half_blocks(2, 2, &pixels, 2, 1, Rgb(10, 20, 30), CellColorMode::TrueColor).expect("valid pixels render");
    assert_eq!((frame.width(), frame.height()), (2, 1));
    assert_eq!(
        frame.cells(),
        &[
            HalfBlockCell { foreground: CellColor::Rgb(Rgb(255, 0, 0)), background: CellColor::Rgb(Rgb(10, 20, 30)) },
            HalfBlockCell { foreground: CellColor::Rgb(Rgb(5, 138, 15)), background: CellColor::Rgb(Rgb(255, 255, 255)) },
        ]
    );
    assert_eq!(pixels, original, "presentation never changes source pixels");
    assert!(frame.ansi().contains('\u{2580}'));
}

#[test]
fn aspect_ratio_and_odd_pixel_rows_stay_inside_bounds() {
    let wide = vec![255; 8 * 2 * 4];
    let frame = render_half_blocks(8, 2, &wide, 4, 4, Rgb(0, 0, 0), CellColorMode::TrueColor).expect("wide image fits");
    assert_eq!((frame.width(), frame.height()), (4, 1));
    let tall = vec![255; 2 * 9 * 4];
    let frame = render_half_blocks(2, 9, &tall, 20, 2, Rgb(0, 0, 0), CellColorMode::TrueColor).expect("tall image fits");
    assert!(frame.width() <= 20 && frame.height() <= 2);
}

#[test]
fn half_block_allocation_limit_accepts_boundary_and_rejects_one_over() {
    assert_eq!(
        HALF_BLOCK_ALLOCATION_LIMIT_BYTES,
        ImageLimits::default().max_allocation_bytes,
        "cell output tracks the bounded decoder allocation policy"
    );
    assert_eq!(check_cell_limit(MAX_HALF_BLOCK_CELLS), Ok(()));
    assert_eq!(
        check_cell_limit(MAX_HALF_BLOCK_CELLS + 1),
        Err(CellRenderError::AllocationTooLarge {
            requested: (MAX_HALF_BLOCK_CELLS + 1) * BYTES_RESERVED_PER_CELL,
            limit: HALF_BLOCK_ALLOCATION_LIMIT_BYTES,
        })
    );
    let requested_cells = u64::from(u16::MAX) * u64::from(u16::MAX.div_ceil(2));
    assert_eq!(
        render_half_blocks(1, 1, &[], u16::MAX, u16::MAX, Rgb(0, 0, 0), CellColorMode::TrueColor),
        Err(CellRenderError::AllocationTooLarge {
            requested: requested_cells * BYTES_RESERVED_PER_CELL,
            limit: HALF_BLOCK_ALLOCATION_LIMIT_BYTES,
        }),
        "huge bounds reject before buffer validation or allocation"
    );
}

#[test]
fn ansi256_quantization_and_caption_content_are_deterministic() {
    assert_eq!(nearest_xterm_index(Rgb(255, 0, 0)), 196);
    assert_eq!(nearest_xterm_index(Rgb(128, 128, 128)), 244);
    let frame = render_half_blocks(1, 1, &[255, 0, 0, 255], 1, 1, Rgb(0, 0, 0), CellColorMode::Ansi256).expect("one pixel renders");
    assert_eq!(frame.cells()[0].foreground, CellColor::Indexed(196));
    assert!(frame.ansi().contains("\x1b[38;5;196m"));

    assert_eq!(
        failure_caption(Some(" cover art "), Some((640, 480)), "decoder stopped early"),
        "[image: cover art; 640x480; decoder stopped early]"
    );
    assert_eq!(failure_caption(None, None, ""), "[image: could not display]");
}

#[test]
fn failure_captions_collapse_white_space_and_cut_long_reasons() {
    assert_eq!(failure_caption(Some("   "), None, "  too\n\tbig  "), "[image: too big]");
    let long = "x".repeat(81);
    assert_eq!(failure_caption(None, Some((1, 2)), &long), format!("[image: 1x2; {}...]", "x".repeat(80)));
    let exact = "y".repeat(80);
    assert_eq!(failure_caption(None, None, &exact), format!("[image: {}]", exact));
}

#[test]
fn reports_parse_without_promoting_malformed_values() {
    assert_eq!(CapabilityEvidence::from_report(Some(" SUPPORTED ")), CapabilityEvidence::Positive);
    assert_eq!(CapabilityEvidence::from_report(Some("maybe")), CapabilityEvidence::Malformed);
    assert_eq!(CapabilityEvidence::from_report(None), CapabilityEvidence::Absent);
}

#[test]
fn img_017_protocol_response_table_requires_complete_correlated_evidence() {
    let rows: &[(&[u8], ProbeReport)] = &[
        (b"\x1b_Gi=77;OK\x1b\\", ProbeReport { kitty: ProbeOutcome::Positive, ..ProbeReport::default() }),
        (b"\x1b_Gi=76;OK\x1b\\", ProbeReport { kitty: ProbeOutcome::Malformed, ..ProbeReport::default() }),
        (b"\x1b_Gi=77;EINVAL\x1b\\", ProbeReport { kitty: ProbeOutcome::Negative, ..ProbeReport::default() }),
        (b"\x1b_Gi=77;OK", ProbeReport { kitty: ProbeOutcome::Partial, ..ProbeReport::default() }),
        (
            b"\x1bP1+r544e=787465726d2d736978656c\x1b\\",
            ProbeReport { sixel: ProbeOutcome::Positive, ..ProbeReport::default() },
        ),
        (
            b"\x1bP1+r544e=787465726d2d323536636f6c6f72\x1b\\",
            ProbeReport { sixel: ProbeOutcome::Negative, ..ProbeReport::default() },
        ),
        (b"\x1bP>|iTerm2 3.5.10\x1b\\", ProbeReport { iterm2: ProbeOutcome::Positive, ..ProbeReport::default() }),
        (b"\x1bP>|iTerm2 latest\x1b\\", ProbeReport { iterm2: ProbeOutcome::Malformed, ..ProbeReport::default() }),
    ];
    for (input, expected) in rows {
        assert_eq!(analyze(input, ID).0, *expected, "input={input:?}");
    }
}

#[test]
fn img_017_multiple_responses_keep_locked_protocol_precedence_available() {
    let input = b"q\x1bP>|iTerm2 3.5.10\x1b\\x\x1bP1+r544e=787465726d2d736978656c\x1b\\\x1b_Gi=77;OK\x1b\\";
    let (report, ranges) = analyze(input, ID);
    assert_eq!(report.kitty, ProbeOutcome::Positive);
    assert_eq!(report.sixel, ProbeOutcome::Positive);
    assert_eq!(report.iterm2, ProbeOutcome::Positive);
    assert_eq!(ranges.len(), 3);
}

#[test]
fn img_017_frame_and_total_limits_are_inclusive() {
    let mut at_limit = b"\x1b_Gi=77;".to_vec();
    at_limit.resize(PROBE_FRAME_LIMIT - 2, b'x');
    at_limit.extend_from_slice(b"\x1b\\");
    assert_ne!(analyze(&at_limit, ID).0.kitty, ProbeOutcome::OverLimit);
    let mut over = at_limit;
    over.insert(over.len() - 2, b'x');
    assert_eq!(analyze(&over, ID).0.kitty, ProbeOutcome::OverLimit);
    assert_eq!(PROBE_RESPONSE_LIMIT, 4 * PROBE_FRAME_LIMIT);
}

#[test]
fn query_packet_is_written_once_in_protocol_order() {
    let mut output = Vec::new();
    write_queries(&mut output, ID);
    assert_eq!(output, b"\x1b_Gi=77,s=1,v=1,a=q,t=d,f=24;AAAA\x1b\\\x1bP+q544e\x1b\\\x1b[>q");
}

#[test]
fn sixel_refusals_and_word_matching_follow_the_grammar() {
    assert_eq!(analyze(b"\x1bP0+r544e\x1b\\", ID).0.sixel, ProbeOutcome::Negative);
    assert_eq!(analyze(b"\x1bP0+r\x1b\\", ID).0.sixel, ProbeOutcome::Negative);
    // "mlterm-SIXEL" in hex: the word match ignores case and needs word edges.
    assert_eq!(analyze(b"\x1bP1+r544e=6d6c7465726d2d534958454c\x1b\\", ID).0.sixel, ProbeOutcome::Positive);
    // "sixels" is a different word.
    assert_eq!(analyze(b"\x1bP1+r544e=736978656c73\x1b\\", ID).0.sixel, ProbeOutcome::Negative);
    // Odd-length and non-hex names are malformed; so is invalid UTF-8.
    assert_eq!(analyze(b"\x1bP1+r544e=736\x1b\\", ID).0.sixel, ProbeOutcome::Malformed);
    assert_eq!(analyze(b"\x1bP1+r544e=zz\x1b\\", ID).0.sixel, ProbeOutcome::Malformed);
    assert_eq!(analyze(b"\x1bP1+r544e=ff\x1b\\", ID).0.sixel, ProbeOutcome::Malformed);
}

#[test]
fn iterm2_versions_need_nonempty_numeric_components() {
    assert_eq!(analyze(b"\x1bP>|iTerm2 3..5\x1b\\", ID).0.iterm2, ProbeOutcome::Malformed);
    assert_eq!(analyze(b"\x1bP>|iTerm2 .3\x1b\\", ID).0.iterm2, ProbeOutcome::Malformed);
    assert_eq!(analyze(b"\x1bP>|iTerm2 3.\x1b\\", ID).0.iterm2, ProbeOutcome::Malformed);
    assert_eq!(analyze(b"\x1bP>|iTerm2 3\x1b\\", ID).0.iterm2, ProbeOutcome::Positive);
}

#[test]
fn unterminated_oversized_frames_are_over_limit() {
    let mut long = b"\x1bP1+r".to_vec();
    long.resize(PROBE_FRAME_LIMIT + 1, b'a');
    assert_eq!(analyze(&long, ID).0.sixel, ProbeOutcome::OverLimit);
}

#[test]
fn capabilities_never_promote_unfinished_replies() {
    let report = ProbeReport { kitty: ProbeOutcome::Positive, sixel: ProbeOutcome::Partial, iterm2: ProbeOutcome::OverLimit };
    let capabilities = report.capabilities();
    assert_eq!(capabilities.kitty, CapabilityEvidence::Positive);
    assert_eq!(capabilities.sixel, CapabilityEvidence::Malformed);
    assert_eq!(capabilities.iterm2, CapabilityEvidence::Malformed);
    assert_eq!(capabilities.true_color, CapabilityEvidence::Absent);
}

#[test]
fn completion_needs_every_protocol_settled() {
    let all = b"\x1b_Gi=77;OK\x1b\\\x1bP0+r\x1b\\\x1bP>|iTerm2 3.5\x1b\\";
    assert!(all_complete(all, ID));
    assert!(!all_complete(b"\x1b_Gi=77;OK\x1b\\", ID));
}

#[test]
fn key_events_rebuild_reply_bytes() {
    let none = ProbeModifiers { shift: false, alt: false, other: false };
    let alt = ProbeModifiers { shift: false, alt: true, other: false };
    let ctrl = ProbeModifiers { shift: false, alt: false, other: true };
    assert_eq!(key_bytes(ProbeKey::Escape, none), Some(vec![0x1b]));
    assert_eq!(key_bytes(ProbeKey::Escape, alt), None);
    assert_eq!(key_bytes(ProbeKey::Char('_'), alt), Some(vec![0x1b, b'_']));
    assert_eq!(key_bytes(ProbeKey::Char('é'), none), Some("é".as_bytes().to_vec()));
    assert_eq!(key_bytes(ProbeKey::Char('x'), ctrl), None);
    assert_eq!(key_bytes(ProbeKey::Other, none), None);
}

#[test]
fn session_keeps_unrelated_events_and_consumes_replies() {
    let mut session = ProbeSession::new(ID);
    assert!(!session.record(Some(b"q")));
    assert!(!session.record(None));
    assert!(!session.record(Some(b"\x1b_Gi=77;OK\x1b\\")));
    assert!(!session.record(Some(b"\x1bP0+r\x1b\\")));
    assert!(session.record(Some(b"\x1bP>|iTerm2 3\x1b\\")));
    let (report, keep) = session.finish();
    assert_eq!(report.kitty, ProbeOutcome::Positive);
    assert_eq!(report.sixel, ProbeOutcome::Negative);
    assert_eq!(report.iterm2, ProbeOutcome::Positive);
    assert_eq!(keep, vec![true, true, false, false, false]);
}

#[test]
fn session_drops_bytes_over_the_total_limit() {
    let mut session = ProbeSession::new(ID);
    let big = vec![b'z'; PROBE_RESPONSE_LIMIT + 1];
    assert!(!session.record(Some(&big)));
    let (report, keep) = session.finish();
    assert_eq!(report, ProbeReport {
        kitty: ProbeOutcome::OverLimit,
        sixel: ProbeOutcome::OverLimit,
        iterm2: ProbeOutcome::OverLimit,
    });
    assert_eq!(keep, vec![true]);
}
