use wlr::ansi::{parse_sgr_foreground, ColorLineFilter};
use wlr::colors::{ColorArg, ColorSelection, FgColor};
use wlr::emitter::{FilterConfig, LineEmitter};

const L1: &[u8] = b"plain line\n";
const L2: &[u8] = b"\x1b[31merror: red text\x1b[0m\n";
const L3: &[u8] = b"\x1b[32mok green\x1b[0m\n";
const L4: &[u8] = b"normal\n";
const L5: &[u8] = b"\x1b[38;5;196mindexed red\x1b[0m\n";
const L6: &[u8] = b"\x1b[38;2;255;140;0morange truecolor\x1b[0m\n";
const L7: &[u8] = b"\x1b[35mviolet\x1b[0m\n";
const L8: &[u8] = b"\x1b]0;title\x07after osc\n";
const L9: &[u8] = b"\x1b[91mbright red\x1b[39m tail\n";
const L10: &[u8] = b"\x1b[1;31m\x1b[0m\n";
const L11: &[u8] = b"last: \x1b[31mX";

fn mixed_input() -> Vec<u8> {
    [L1, L2, L3, L4, L5, L6, L7, L8, L9, L10, L11].concat()
}

fn config(separator: &[u8], before: usize, after: usize) -> FilterConfig {
    FilterConfig {
        separator: separator.to_vec(),
        before,
        after,
    }
}

fn run(args: Vec<ColorArg>, cfg: FilterConfig, input: &[u8]) -> Vec<u8> {
    let mut filter = ColorLineFilter::new(ColorSelection::from(args), cfg);
    let mut out = Vec::new();
    filter.process_bytes(input, &mut out);
    filter.finish(&mut out);
    out
}

fn red_line(text: &str) -> Vec<u8> {
    format!("\x1b[31m{}\x1b[0m\n", text).into_bytes()
}

fn plain_line(text: &str) -> Vec<u8> {
    format!("{}\n", text).into_bytes()
}

#[test]
fn filter_keeps_state_across_chunk_boundaries() {
    let input = mixed_input();
    let expected = [L2, b"\n", L5, b"\n", L9, b"\n", L11].concat();

    let mut filter = ColorLineFilter::new(
        ColorSelection::from(vec![ColorArg::Red]),
        FilterConfig {
            separator: b"\n".to_vec(),
            before: 0,
            after: 0,
        },
    );
    let mut out = Vec::new();

    for chunk in input.chunks(3) {
        filter.process_bytes(chunk, &mut out);
    }
    filter.finish(&mut out);

    assert_eq!(out, expected);
}

#[test]
fn chunk_size_never_changes_the_output() {
    let input = mixed_input();
    let whole = run(vec![ColorArg::All], config(b"--\n", 1, 1), &input);
    for size in 1..input.len() {
        let mut filter = ColorLineFilter::new(ColorSelection::from(vec![ColorArg::All]), config(b"--\n", 1, 1));
        let mut out = Vec::new();
        for chunk in input.chunks(size) {
            filter.process_bytes(chunk, &mut out);
        }
        filter.finish(&mut out);
        assert_eq!(out, whole, "chunk size {}", size);
    }
}

#[test]
fn red_selection_keeps_red_lines_in_every_encoding() {
    let expected = [L2, b"\n", L5, b"\n", L9, b"\n", L11].concat();
    assert_eq!(run(vec![ColorArg::Red], config(b"\n", 0, 0), &mixed_input()), expected);
}

#[test]
fn default_color_is_red_when_flag_is_omitted() {
    let expected = [L2, b"\n", L5, b"\n", L9, b"\n", L11].concat();
    assert_eq!(run(vec![], config(b"\n", 0, 0), &mixed_input()), expected);
}

#[test]
fn green_selection_keeps_the_green_line() {
    assert_eq!(run(vec![ColorArg::Green], config(b"\n", 0, 0), &mixed_input()), L3.to_vec());
}

#[test]
fn orange_selection_keeps_the_truecolor_orange_line() {
    assert_eq!(run(vec![ColorArg::Orange], config(b"\n", 0, 0), &mixed_input()), L6.to_vec());
}

#[test]
fn violet_selection_keeps_the_violet_line() {
    assert_eq!(run(vec![ColorArg::Violet], config(b"\n", 0, 0), &mixed_input()), L7.to_vec());
}

#[test]
fn multiple_color_flags_match_multiple_buckets() {
    let expected = [L2, L5, L7, L9, L11].concat();
    assert_eq!(
        run(vec![ColorArg::Red, ColorArg::Violet], config(b"", 0, 0), &mixed_input()),
        expected
    );
}

#[test]
fn all_color_matches_every_non_default_colored_line() {
    let expected = [L2, L3, L5, L6, L7, L9, L11].concat();
    assert_eq!(run(vec![ColorArg::All], config(b"", 0, 0), &mixed_input()), expected);
}

#[test]
fn default_separator_inserts_blank_line_between_matching_blocks() {
    let input = [L2.to_vec(), L5.to_vec(), L1.to_vec(), L9.to_vec()].concat();
    let expected = [L2, L5, b"\n", L9].concat();
    assert_eq!(run(vec![ColorArg::Red], config(b"\n", 0, 0), &input), expected);
}

#[test]
fn empty_separator_disables_block_spacing() {
    let expected = [L2, L5, L9, L11].concat();
    assert_eq!(run(vec![ColorArg::Red], config(b"", 0, 0), &mixed_input()), expected);
}

#[test]
fn after_context_stops_before_next_matching_blob_and_starts_new_section() {
    let input = [red_line("R1"), plain_line("n1"), plain_line("n2"), red_line("R2"), plain_line("n3")].concat();
    let expected = [red_line("R1"), plain_line("n1"), plain_line("n2"), b"\n".to_vec(), red_line("R2"), plain_line("n3")]
        .concat();
    assert_eq!(run(vec![ColorArg::Red], config(b"\n", 0, 10), &input), expected);
}

#[test]
fn overlapping_before_and_after_context_merges_sections() {
    let input = [
        plain_line("n0"),
        red_line("R1"),
        plain_line("n1"),
        plain_line("n2"),
        plain_line("n3"),
        red_line("R2"),
        plain_line("n4"),
    ]
    .concat();
    assert_eq!(run(vec![ColorArg::Red], config(b"\n", 5, 5), &input), input);
}

#[test]
fn disjoint_context_windows_get_a_separator() {
    let mut input = vec![red_line("R1")];
    for i in 1..=12 {
        input.push(plain_line(&format!("n{}", i)));
    }
    input.push(red_line("R2"));
    let input = input.concat();

    let mut expected = vec![red_line("R1")];
    for i in 1..=5 {
        expected.push(plain_line(&format!("n{}", i)));
    }
    expected.push(b"--\n".to_vec());
    for i in 8..=12 {
        expected.push(plain_line(&format!("n{}", i)));
    }
    expected.push(red_line("R2"));
    assert_eq!(run(vec![ColorArg::Red], config(b"--\n", 5, 5), &input), expected.concat());
}

#[test]
fn adjacent_context_windows_still_get_a_separator() {
    // gap == before + after: the windows touch but do not overlap.
    let input = [red_line("R1"), plain_line("a"), plain_line("b"), red_line("R2")].concat();
    let expected = [red_line("R1"), plain_line("a"), b"--\n".to_vec(), plain_line("b"), red_line("R2")].concat();
    assert_eq!(run(vec![ColorArg::Red], config(b"--\n", 1, 1), &input), expected);
}

#[test]
fn before_context_clips_cleanly_at_start_of_file() {
    let input = [plain_line("n1"), plain_line("n2"), red_line("R1"), plain_line("n3")].concat();
    let expected = [plain_line("n1"), plain_line("n2"), red_line("R1")].concat();
    assert_eq!(run(vec![ColorArg::Red], config(b"\n", 5, 0), &input), expected);
}

#[test]
fn before_context_keeps_only_the_window() {
    let input = [
        plain_line("n1"),
        plain_line("n2"),
        plain_line("n3"),
        red_line("R1"),
    ]
    .concat();
    let expected = [plain_line("n2"), plain_line("n3"), red_line("R1")].concat();
    assert_eq!(run(vec![ColorArg::Red], config(b"\n", 2, 0), &input), expected);
}

#[test]
fn every_raw_newline_ends_a_line() {
    let input = b"\x1b[31mA\x1b[0m\x1b\nB\n".to_vec();
    assert_eq!(run(vec![ColorArg::Red], config(b"\n", 0, 0), &input), b"\x1b[31mA\x1b[0m\x1b\n".to_vec());
    // A newline inside `ESC[3..1m` ends the line; the sequence goes on.
    let input = b"\x1b[3\n1mred\n".to_vec();
    assert_eq!(run(vec![ColorArg::Red], config(b"\n", 0, 0), &input), b"1mred\n".to_vec());
    let input = b"\x1b]title\nstill osc\x1b\\\x1b[31mred\n".to_vec();
    assert_eq!(
        run(vec![ColorArg::Red], config(b"\n", 0, 0), &input),
        b"still osc\x1b\\\x1b[31mred\n".to_vec()
    );
}

#[test]
fn attributes_without_a_foreground_keep_the_color() {
    let input = b"\x1b[31m\x1b[1merr\n".to_vec();
    assert_eq!(run(vec![ColorArg::Red], config(b"\n", 0, 0), &input), input);
    let input = b"\x1b[31m\x1b[48;5;31mon a background\n".to_vec();
    assert_eq!(run(vec![ColorArg::Red], config(b"\n", 0, 0), &input), input);
    let input = b"\x1b[31m\x1b[mreset\n".to_vec();
    assert_eq!(run(vec![ColorArg::Red], config(b"\n", 0, 0), &input), Vec::<u8>::new());
}

#[test]
fn colored_line_without_visible_text_is_dropped() {
    assert_eq!(run(vec![ColorArg::Red], config(b"\n", 0, 0), L10), Vec::<u8>::new());
}

#[test]
fn trailing_line_without_newline_is_written_at_finish() {
    let mut filter = ColorLineFilter::new(ColorSelection::from(vec![ColorArg::Red]), config(b"\n", 0, 0));
    let mut out = Vec::new();
    filter.process_bytes(L11, &mut out);
    assert!(out.is_empty());
    filter.finish(&mut out);
    assert_eq!(out, L11.to_vec());
}

#[test]
fn sgr_foreground_examples() {
    assert!(matches!(parse_sgr_foreground(&[31]), FgColor::Indexed(1)));
    assert!(matches!(parse_sgr_foreground(&[91]), FgColor::Indexed(9)));
    assert!(matches!(parse_sgr_foreground(&[38, 5, 196]), FgColor::Indexed(196)));
    assert!(matches!(parse_sgr_foreground(&[38, 2, 255, 0, 0]), FgColor::Rgb(255, 0, 0)));
    assert!(matches!(parse_sgr_foreground(&[]), FgColor::Default));
    assert!(matches!(parse_sgr_foreground(&[31, 39]), FgColor::Default));
    assert!(matches!(parse_sgr_foreground(&[1, 4, 42]), FgColor::Default));
    assert!(matches!(parse_sgr_foreground(&[38, 5, 300]), FgColor::Indexed(255)));
    assert!(matches!(parse_sgr_foreground(&[38, 2, -5, 128, 999]), FgColor::Rgb(0, 128, 255)));
    assert!(matches!(parse_sgr_foreground(&[32, 38]), FgColor::Indexed(2)));
    assert!(matches!(parse_sgr_foreground(&[38, 2, 1, 2]), FgColor::Default));
    assert!(matches!(parse_sgr_foreground(&[31, 38, 7, 35]), FgColor::Indexed(5)));
    assert!(matches!(parse_sgr_foreground(&[48, 5, 31]), FgColor::Default));
    assert!(matches!(parse_sgr_foreground(&[31, 48, 2, 0, 0, 32]), FgColor::Indexed(1)));
    assert!(matches!(parse_sgr_foreground(&[32, 48, 5]), FgColor::Indexed(2)));
}

#[test]
fn huge_sgr_parameters_saturate() {
    let input = b"\x1b[38;5;99999999999999999999999mX\n".to_vec();
    // 38;5;<huge> clamps to palette index 255, which no bucket holds.
    assert_eq!(run(vec![ColorArg::All], config(b"\n", 0, 0), &input), input);
    assert_eq!(run(vec![ColorArg::Red], config(b"\n", 0, 0), &input), Vec::<u8>::new());
}

#[test]
fn emitter_writes_context_once() {
    let mut e = LineEmitter::new(config(b"--\n", 1, 1));
    let mut out = Vec::new();
    e.finish_line(b"a\n".to_vec(), false, &mut out);
    e.finish_line(b"M1\n".to_vec(), true, &mut out);
    e.finish_line(b"b\n".to_vec(), false, &mut out);
    e.finish_line(b"M2\n".to_vec(), true, &mut out);
    e.finish_line(b"c\n".to_vec(), false, &mut out);
    e.finish_line(b"d\n".to_vec(), false, &mut out);
    assert_eq!(out, b"a\nM1\nb\nM2\nc\n".to_vec());
}
