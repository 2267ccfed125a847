use line_dedup::decode::is_detectable;
use line_dedup::pipeline::{dedup_text, process_bytes};
use line_dedup::Stats;

#[test]
fn test_process_file_no_duplicates() {
    let input = b"line1\nline2\nline3".to_vec();
    let (out, stats) = process_bytes(&input);

    assert_eq!(stats.total_lines, 3);
    assert_eq!(stats.duplicate_lines, 0);
    assert_eq!(stats.lines_written, 3);
    assert_eq!(out, b"line1\nline2\nline3\n".to_vec());
}

#[test]
fn test_process_file_with_duplicates() {
    let input = b"apple\nbanana\napple\norange\nbanana".to_vec();
    let (out, stats) = process_bytes(&input);

    assert_eq!(stats.total_lines, 5);
    assert_eq!(stats.duplicate_lines, 2);
    assert_eq!(stats.lines_written, 3);
    assert_eq!(out, b"apple\nbanana\norange\n".to_vec());
}

#[test]
fn test_process_empty_file() {
    let input = Vec::new();
    let (out, stats) = process_bytes(&input);

    assert_eq!(stats.total_lines, 0);
    assert_eq!(stats.duplicate_lines, 0);
    assert_eq!(stats.lines_written, 0);
    assert_eq!(out, Vec::<u8>::new());
}

#[test]
fn test_process_file_with_blank_lines() {
    let input = b"a\n\nb\n\na".to_vec();
    let (out, stats) = process_bytes(&input);

    // The lines are: "a", "", "b", "", "a"
    assert_eq!(stats.total_lines, 5);
    assert_eq!(stats.duplicate_lines, 2);
    assert_eq!(stats.lines_written, 3);
    assert_eq!(out, b"a\n\nb\n".to_vec());
}

#[test]
fn test_process_file_with_windows1252() {
    // A legacy 8-bit encoding: 0xE9 is "e with acute" in windows-1252.
    let input = b"h\xe9llo\nworld\nh\xe9llo".to_vec();
    let (out, stats) = process_bytes(&input);

    assert_eq!(stats.total_lines, 3);
    assert_eq!(stats.duplicate_lines, 1);
    assert_eq!(stats.lines_written, 2);
    // "hello" with an e-acute, now UTF-8 encoded as 0xC3 0xA9.
    assert_eq!(out, b"h\xc3\xa9llo\nworld\n".to_vec());
}

#[test]
fn test_dedup_text_mixed_terminators() {
    let input = b"a\r\nb\rc\na".to_vec();
    let (out, stats) = dedup_text(&input);

    assert_eq!(stats.total_lines, 4);
    assert_eq!(stats.duplicate_lines, 1);
    assert_eq!(stats.lines_written, 3);
    assert_eq!(out, b"a\nb\nc\n".to_vec());
}

#[test]
fn test_dedup_text_crlf_is_one_terminator() {
    let input = b"x\r\ny\r\nx\r\n".to_vec();
    let (out, stats) = dedup_text(&input);

    assert_eq!(stats.total_lines, 3);
    assert_eq!(stats.duplicate_lines, 1);
    assert_eq!(stats.lines_written, 2);
    assert_eq!(out, b"x\ny\n".to_vec());
}

#[test]
fn test_dedup_text_single_newline() {
    let input = b"\n".to_vec();
    let (out, stats) = dedup_text(&input);

    assert_eq!(stats.total_lines, 1);
    assert_eq!(stats.duplicate_lines, 0);
    assert_eq!(stats.lines_written, 1);
    assert_eq!(out, b"\n".to_vec());
}

#[test]
fn test_dedup_text_no_trailing_terminator_normalized() {
    let input = b"only".to_vec();
    let (out, stats) = dedup_text(&input);

    assert_eq!(stats.total_lines, 1);
    assert_eq!(stats.lines_written, 1);
    assert_eq!(out, b"only\n".to_vec());
}

#[test]
fn test_dedup_text_idempotent() {
    let input = b"apple\nbanana\napple\norange\nbanana".to_vec();
    let (out, _) = dedup_text(&input);
    let (out_again, stats_again) = dedup_text(&out);

    assert_eq!(stats_again.duplicate_lines, 0);
    assert_eq!(stats_again.total_lines, stats_again.lines_written);
    assert_eq!(out_again, out);
}

#[test]
fn test_dedup_text_accounting() {
    let input = b"p\nq\np\np\nr\nq".to_vec();
    let (_, stats) = dedup_text(&input);

    assert_eq!(stats.total_lines, 6);
    assert_eq!(stats.total_lines, stats.duplicate_lines + stats.lines_written);
    assert_eq!(stats.duplicate_lines, 3);
    assert_eq!(stats.lines_written, 3);
}

#[test]
fn test_is_detectable_plain_ascii() {
    assert!(is_detectable(&b"plain text\n".to_vec()));
}

#[test]
fn test_is_detectable_empty() {
    assert!(is_detectable(&Vec::new()));
}

#[test]
fn test_is_detectable_false_for_bare_escape() {
    // Terminal-log shape: an escape byte in otherwise pure ASCII.
    assert!(!is_detectable(&b"log \x1b[31mred\x1b[0m\n".to_vec()));
}

#[test]
fn test_process_bytes_bare_escape_uses_default_label() {
    // Detection cannot be asked of this input; it decodes as UTF-8.
    let input = b"log \x1b[0m\nlog \x1b[0m".to_vec();
    let (out, stats) = process_bytes(&input);

    assert_eq!(stats.total_lines, 2);
    assert_eq!(stats.duplicate_lines, 1);
    assert_eq!(stats.lines_written, 1);
    assert_eq!(out, b"log \x1b[0m\n".to_vec());
}

#[test]
fn test_is_detectable_escape_beside_high_byte() {
    let input = b"\x1b caf\xe9\ncaf\xe9".to_vec();
    assert!(is_detectable(&input));

    let (_, stats) = process_bytes(&input);
    assert_eq!(stats.total_lines, 2);
    assert_eq!(stats.total_lines, stats.duplicate_lines + stats.lines_written);
}

#[test]
fn test_stats_default_is_zero() {
    let stats = Stats::default();

    assert_eq!(stats.total_lines, 0);
    assert_eq!(stats.duplicate_lines, 0);
    assert_eq!(stats.lines_written, 0);
}

#[test]
fn test_stats_merge_sums_counters() {
    let a = Stats { total_lines: 5, duplicate_lines: 2, lines_written: 3 };
    let b = Stats { total_lines: 4, duplicate_lines: 1, lines_written: 3 };
    let merged = a.merge(b);

    assert_eq!(merged.total_lines, 9);
    assert_eq!(merged.duplicate_lines, 3);
    assert_eq!(merged.lines_written, 6);
}
