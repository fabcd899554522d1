use plogcat::parse;

#[test]
fn should_parse_valid_line() {
    let result = parse("12-02    24:01:13.237   i/flutter ( 666):     my super log ").expect("To parse");
    assert_eq!(result.date, "12-02");
    assert_eq!(result.time, "24:01:13.237");
    assert_eq!(result.level, "i");
    assert_eq!(result.tag, "flutter");
    assert_eq!(result.msg, "my super log");
}

#[test]
fn line_without_paren_is_rejected() {
    assert!(parse("12-02 24:01:13.237 I/flutter 666: my super log").is_none());
}

#[test]
fn line_without_colon_after_paren_is_rejected() {
    assert!(parse("12-02 24:01:13.237 I/flutter ( 666) my super log").is_none());
    assert!(parse("12-02 24:01:13.237 I/fl:utter ( 666) my super log").is_none());
}

#[test]
fn line_without_slash_is_rejected() {
    assert!(parse("12-02 24:01:13.237 I flutter ( 666): msg").is_none());
}

#[test]
fn line_missing_time_token_is_rejected() {
    assert!(parse("12-02").is_none());
    assert!(parse("12-02    ").is_none());
    assert!(parse("12-02 24:01:13.237").is_none());
    assert!(parse("12-02 24:01:13.237   ").is_none());
    assert!(parse("").is_none());
}

#[test]
fn empty_message_and_tag_spaces() {
    let r = parse("04-16 15:39:59.337 W/ActivityManager  ( 1234):").expect("To parse");
    assert_eq!(r.date, "04-16");
    assert_eq!(r.time, "15:39:59.337");
    assert_eq!(r.level, "W");
    assert_eq!(r.tag, "ActivityManager");
    assert_eq!(r.msg, "");
}

#[test]
fn tag_keeps_text_after_first_slash_and_message_keeps_colons() {
    let r = parse("04-16 15:39:59.337 D/a/b( 1): x: y ").expect("To parse");
    assert_eq!(r.level, "D");
    assert_eq!(r.tag, "a/b");
    assert_eq!(r.msg, "x: y");
}

#[test]
fn multibyte_text_is_kept_whole() {
    let r = parse("04-16 15:39:59.337 I/日本 ( 1): é€😀 ").expect("To parse");
    assert_eq!(r.tag, "日本");
    assert_eq!(r.msg, "é€😀");
}

#[test]
fn unicode_white_space_is_trimmed() {
    let r = parse("04-16 15:39:59.337 I/tag\u{3000}( 1):\u{2003}\u{a0}msg\u{85}").expect("To parse");
    assert_eq!(r.tag, "tag");
    assert_eq!(r.msg, "msg");
}

#[test]
fn tag_is_trimmed_after_the_slash() {
    let r = parse("12-02 10:00:00.000 I/ MyTag (1): m").expect("To parse");
    assert_eq!(r.level, "I");
    assert_eq!(r.tag, "MyTag");
    assert_eq!(r.msg, "m");
}
