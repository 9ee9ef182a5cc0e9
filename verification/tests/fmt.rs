use ports::fmt::{
    clock_seconds, duration, is_tty, local_time, now, pad, sanitize, term_width, truncate, width,
    wrap, CalendarTime, Style,
};

#[test]
fn duration_uses_at_most_two_units() {
    assert_eq!(duration(0), "0s");
    assert_eq!(duration(45), "45s");
    assert_eq!(duration(60), "1m");
    assert_eq!(duration(75), "1m 15s");
    assert_eq!(duration(3600), "1h");
    assert_eq!(duration(3600 + 14 * 60), "1h 14m");
    assert_eq!(duration(86400), "1d");
    assert_eq!(duration(3 * 86400 + 5 * 3600), "3d 5h");
}

#[test]
fn duration_drops_what_is_below_its_second_unit() {
    assert_eq!(duration(59), "59s");
    assert_eq!(duration(3599), "59m 59s");
    assert_eq!(duration(3600 + 59), "1h");
    assert_eq!(duration(86399), "23h 59m");
    assert_eq!(duration(86400 + 3599), "1d");
    assert_eq!(duration(u64::MAX), "213503982334601d 7h");
}

#[test]
fn cjk_counts_as_two_columns() {
    assert_eq!(width("abc"), 3);
    assert_eq!(width("中文"), 4);
    assert_eq!(width("a中"), 3);
}

#[test]
fn wide_ranges_have_exact_ends() {
    assert_eq!(width("\u{10ff}"), 1);
    assert_eq!(width("\u{1100}"), 2);
    assert_eq!(width("\u{115f}"), 2);
    assert_eq!(width("\u{1160}"), 1);
    assert_eq!(width("\u{303e}\u{303f}\u{3041}"), 5);
    assert_eq!(width("\u{d7a3}\u{d7a4}"), 3);
    assert_eq!(width("\u{1f300}\u{1f9ff}\u{1fa00}"), 5);
    assert_eq!(width("\u{3fffd}\u{3fffe}"), 3);
    assert_eq!(width(""), 0);
}

#[test]
fn truncate_respects_display_width() {
    assert_eq!(truncate("abcdef", 10), "abcdef");
    assert_eq!(truncate("abcdef", 4), "abc…");
    assert_eq!(truncate("中文字", 4), "中…");
}

#[test]
fn truncate_to_almost_nothing_leaves_the_ellipsis() {
    assert_eq!(truncate("abc", 3), "abc");
    assert_eq!(truncate("abc", 1), "…");
    assert_eq!(truncate("abc", 0), "…");
    assert_eq!(truncate("", 0), "");
    assert_eq!(truncate("中文", 2), "…");
    assert_eq!(truncate("中文", 3), "中…");
}

#[test]
fn pad_aligns_by_display_width() {
    assert_eq!(pad("ab", 4), "ab  ");
    assert_eq!(pad("中", 4), "中  ");
    assert_eq!(pad("toolong", 3), "toolong");
}

#[test]
fn wrap_breaks_at_spaces() {
    assert_eq!(wrap("short", 20, 5), vec!["short"]);
    assert_eq!(
        wrap("aaa bbb ccc ddd", 7, 5),
        vec!["aaa bbb", "ccc ddd"]
    );
    for line in wrap("one two three four five six", 10, 9) {
        assert!(width(&line) <= 10, "超宽: {line:?}");
    }
}

#[test]
fn wrap_hard_splits_tokens_longer_than_the_line() {
    let long = "a".repeat(25);
    let lines = wrap(&long, 10, 9);
    assert!(lines.len() >= 3, "{lines:?}");
    for l in &lines {
        assert!(width(l) <= 10, "{l:?}");
    }
    assert_eq!(lines.concat(), long, "强制截断不应丢失字符");
}

#[test]
fn wrap_goes_on_behind_a_word_that_was_chopped() {
    assert_eq!(
        wrap("x abcdefghij k", 8, 9),
        vec!["x", "abcdefgh", "ij k"]
    );
    assert_eq!(wrap("中文字中文", 8, 9), vec!["中文字中", "文"]);
    assert_eq!(wrap("aaaaaaaa b", 3, 9), vec!["aaaaaaaa", "b"]);
}

#[test]
fn wrap_stops_at_max_lines() {
    let lines = wrap("aa bb cc dd ee ff gg hh", 5, 2);
    assert_eq!(lines.len(), 3, "输出应包含两行正文及最后一行省略号: {lines:?}");
    assert_eq!(lines.last().unwrap(), "…");
}

#[test]
fn wrap_to_no_lines_leaves_the_ellipsis() {
    assert_eq!(wrap("aa bb cc dd", 8, 0), vec!["…"]);
    assert_eq!(wrap("aa", 8, 0), vec!["…"]);
    assert_eq!(wrap("", 8, 0), vec![""]);
    assert_eq!(wrap("aa bb cc dd", 8, 1), vec!["aa bb cc", "…"]);
    assert_eq!(wrap("aa bb cc dd", 8, 2), vec!["aa bb cc", "dd"]);
}

#[test]
fn wrap_handles_empty_input() {
    assert_eq!(wrap("", 10, 3), vec![""]);
}

#[test]
fn sanitize_folds_newlines_and_collapses_runs() {
    assert_eq!(sanitize("python3 -c\nimport os\nx=1"), "python3 -c import os x=1");
    assert_eq!(sanitize("a\t\tb"), "a b");
    assert_eq!(sanitize("  lead and trail  "), "lead and trail");
    assert_eq!(sanitize("plain"), "plain");
}

#[test]
fn sanitize_strips_terminal_escape_sequences() {
    let evil = "node \x1b[2J\x1b[1;31mFAKE\x1b[0m server.js";
    let out = sanitize(evil);
    assert!(!out.contains('\x1b'), "未能清除转义字符: {out:?}");
    assert_eq!(out, "node [2J [1;31mFAKE [0m server.js");
    assert!(!sanitize("a\u{9b}b").contains('\u{9b}'));
}

#[test]
fn sanitize_keeps_cjk_intact() {
    assert_eq!(sanitize("123云盘 Helper"), "123云盘 Helper");
}

#[test]
fn sanitize_twice_is_sanitize_once() {
    for s in ["", " ", "\u{7f}", "a \u{0}b\n", "\u{a0}x\u{3000}y "] {
        let once = sanitize(s);
        assert_eq!(sanitize(&once), once);
    }
    assert_eq!(sanitize("\u{a0}x\u{3000}y "), "\u{a0}x\u{3000}y");
}

#[test]
fn style_off_emits_no_escapes() {
    let s = Style::plain();
    assert_eq!(s.bold("x"), "x");
    assert_eq!(s.red("x"), "x");
}

#[test]
fn style_on_wraps_in_escapes() {
    let s = Style::detect(false, true);
    assert_eq!(s.bold("x"), "\x1b[1mx\x1b[0m");
    assert_eq!(s.dim("x"), "\x1b[2mx\x1b[0m");
    assert_eq!(s.red("x"), "\x1b[31mx\x1b[0m");
    assert_eq!(s.green("x"), "\x1b[32mx\x1b[0m");
    assert_eq!(s.yellow("x"), "\x1b[33mx\x1b[0m");
    assert_eq!(s.cyan("x"), "\x1b[36mx\x1b[0m");
    assert_eq!(Style::detect(true, true).red("x"), "x");
    assert_eq!(Style::detect(false, false).red("x"), "x");
}

#[test]
fn local_time_pads_its_numbers() {
    let t = CalendarTime { year: 124, mon: 0, mday: 5, hour: 7, min: 8, sec: 9 };
    assert_eq!(local_time(1, Some(t)), "2024-01-05 07:08:09");
    let t = CalendarTime { year: -1000, mon: 11, mday: 31, hour: 23, min: 59, sec: 60 };
    assert_eq!(local_time(1, Some(t)), "0900-12-31 23:59:60");
    let t = CalendarTime { year: -1905, mon: 0, mday: 1, hour: 0, min: 0, sec: 0 };
    assert_eq!(local_time(1, Some(t)), "-005-01-01 00:00:00");
    assert_eq!(local_time(1_700_000_000, None), "1700000000");
}

#[test]
fn the_clock_is_past_the_epoch() {
    assert!(now() > 1_600_000_000);
    assert_eq!(clock_seconds(Some(7)), 7);
    assert_eq!(clock_seconds(None), 0);
}

#[test]
fn a_terminal_without_a_width_has_the_default() {
    assert_eq!(term_width(0, 80), 80);
    assert_eq!(term_width(0, 0), 120);
    assert_eq!(term_width(-1, 80), 120);
    assert!(is_tty(1));
    assert!(!is_tty(0));
}
