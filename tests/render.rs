use plogcat::color::Color;
use plogcat::render::{Segment, Style};
use plogcat::wrap::{char_len, wrap_message};
use plogcat::Plogcat;

fn texts(segments: &[Segment]) -> String {
    segments.iter().map(|s| s.text.as_str()).collect()
}

#[test]
fn header_and_styles_without_time() {
    let mut p = Plogcat::new(6, false, 0);
    let out = p.handle_line("04-16 15:39:59.337 E/foo ( 1): boom").expect("shown");
    assert_eq!(out.len(), 4);
    assert_eq!(out[0].text, "   foo");
    assert_eq!(out[0].style, Style::Fg(Color::Red));
    assert_eq!(out[1].text, " ");
    assert_eq!(out[1].style, Style::Plain);
    assert_eq!(out[2].text, " E ");
    assert_eq!(out[2].style, Style::FgBg(Color::Black, Color::Red));
    assert_eq!(out[3].text, " boom\n");
    assert_eq!(out[3].style, Style::Plain);
}

#[test]
fn header_with_time() {
    let mut p = Plogcat::new(4, true, 0);
    assert_eq!(p.header_size(), 4 + 5 + 15);
    let out = p.handle_line("04-16 15:39:59.3 V/ab ( 1): hi").expect("shown");
    assert_eq!(texts(&out), "  ab [15:39:59.3  ]  V  hi\n");
    assert_eq!(out[2].text, "[15:39:59.3  ] ");
    assert_eq!(out[3].style, Style::FgBg(Color::White, Color::Black));
}

#[test]
fn level_colors() {
    let mut p = Plogcat::new(3, false, 0);
    let style = |p: &mut Plogcat, level: &str| {
        let line = format!("01-01 00:00:00.000 {}/t ( 1): m", level);
        p.handle_line(&line).expect("shown")[2].style
    };
    assert_eq!(style(&mut p, "D"), Style::FgBg(Color::Black, Color::Blue));
    assert_eq!(style(&mut p, "I"), Style::FgBg(Color::Black, Color::Green));
    assert_eq!(style(&mut p, "W"), Style::FgBg(Color::Black, Color::Yellow));
    assert_eq!(style(&mut p, "F"), Style::FgBg(Color::Black, Color::Red));
    assert_eq!(style(&mut p, "i"), Style::Plain);
    assert_eq!(style(&mut p, "X"), Style::Plain);
}

#[test]
fn long_tag_is_cut_to_width() {
    let mut p = Plogcat::new(4, false, 0);
    let out = p.handle_line("01-01 00:00:00.000 I/ActivityManager ( 1): m").expect("shown");
    assert_eq!(out[0].text, "Acti");
}

#[test]
fn wraps_into_chunks_of_ten_ten_five() {
    let mut p = Plogcat::new(5, false, 0);
    let header = p.header_size();
    assert_eq!(header, 10);
    p.term_width = header + 10;
    let msg = "abcdefghijklmnopqrstuvwxy";
    assert_eq!(msg.len(), 25);
    let line = format!("01-01 00:00:00.000 I/tag ( 1): {}", msg);
    let out = p.handle_line(&line).expect("shown");
    let pad = " ".repeat(header);
    let expected = format!(" abcdefghij\n{}klmnopqrst\n{}uvwxy\n", pad, pad);
    assert_eq!(out[3].text, expected);
}

#[test]
fn narrow_terminal_prints_message_whole() {
    let mut p = Plogcat::new(5, false, 9);
    let out = p.handle_line("01-01 00:00:00.000 I/tag ( 1): abcdefghijklmnop").expect("shown");
    assert_eq!(out[3].text, " abcdefghijklmnop\n");
}

#[test]
fn wide_character_moves_whole_to_next_chunk() {
    assert_eq!(char_len('€'), 3);
    assert_eq!(char_len('a'), 1);
    assert_eq!(char_len('é'), 2);
    assert_eq!(char_len('😀'), 4);
    let r = wrap_message("aaaaaaaaa€bbb", 10, 2);
    assert_eq!(r, "aaaaaaaaa\n  €bbb");
    let r = wrap_message("aaaaaaaa€b", 10, 0);
    assert_eq!(r, "aaaaaaaa\n€b");
}

#[test]
fn wrap_edge_cases() {
    assert_eq!(wrap_message("", 10, 3), "");
    assert_eq!(wrap_message("abc", 3, 1), "abc");
    assert_eq!(wrap_message("abcd", 2, 1), "ab\n cd");
    // a character wider than the width stands alone; the first line is empty
    assert_eq!(wrap_message("€€a", 2, 0), "\n€\n€\na");
    assert_eq!(wrap_message("ab", 0, 0), "\na\nb");
}

#[test]
fn exclusion_wins_over_inclusion() {
    let mut p = Plogcat::new(5, false, 0);
    p.tag_include = vec!["tag".to_string()];
    p.tag_exclude = vec!["tag".to_string()];
    assert!(p.handle_line("01-01 00:00:00.000 I/tag ( 1): m").is_none());
}

#[test]
fn inclusion_list_filters_other_tags() {
    let mut p = Plogcat::new(5, false, 0);
    p.tag_include = vec!["keep".to_string()];
    assert!(p.handle_line("01-01 00:00:00.000 I/other ( 1): m").is_none());
    let out = p.handle_line("01-01 00:00:00.000 I/keep ( 1): m").expect("shown");
    // the filtered line did not take a color
    assert_eq!(out[0].style, Style::Fg(Color::Red));
}

#[test]
fn exclusion_list_alone() {
    let mut p = Plogcat::new(5, false, 0);
    p.tag_exclude = vec!["chatty".to_string()];
    assert!(p.handle_line("01-01 00:00:00.000 I/chatty ( 1): m").is_none());
    assert!(p.handle_line("01-01 00:00:00.000 I/other ( 1): m").is_some());
}

#[test]
fn noise_line_is_dropped() {
    let mut p = Plogcat::new(5, false, 0);
    assert!(p.handle_line("01-01 00:00:00.000 I/tag ( 1): nativeGetEnabledTags failed").is_none());
    assert!(p.handle_line("01-01 00:00:00.000 I/tag ( 1): nativeGetEnabledTag").is_some());
}

#[test]
fn unparsable_line_is_dropped_and_takes_no_color() {
    let mut p = Plogcat::new(5, false, 0);
    assert!(p.handle_line("\tat com.example.Foo.bar(Foo.java:12)").is_none());
    let out = p.handle_line("01-01 00:00:00.000 I/tag ( 1): m").expect("shown");
    assert_eq!(out[0].style, Style::Fg(Color::Red));
}

#[test]
fn setters_change_filters_and_width() {
    let mut p = Plogcat::new(5, false, 0);
    p.set_tag_exclude(vec!["a".to_string()]);
    p.set_tag_include(vec!["a".to_string(), "b".to_string()]);
    assert!(p.handle_line("01-01 00:00:00.000 I/a ( 1): m").is_none());
    assert!(p.handle_line("01-01 00:00:00.000 I/c ( 1): m").is_none());
    p.set_tag_width(3);
    p.set_term_width(3 + 5 + 2);
    let out = p.handle_line("01-01 00:00:00.000 I/b ( 1): abcde").expect("shown");
    assert_eq!(out[0].text, "  b");
    assert_eq!(out[3].text, " ab\n        cd\n        e\n");
}
