use tehuti::diagnostics::{LogBuffer, Recorder};
use tehuti::keys::{is_key, KeyEvent, KeyEventKind, KeyState, Keys};
use tehuti::label::{label, number_text};
use tehuti::text::{
    join, join_first, join_last, lines, text_region, text_size, text_wrap, TextSize,
};
use tehuti::timeline::time::TimeStamp;

fn owned(texts: &[&str]) -> Vec<String> {
    texts.iter().map(|text| text.to_string()).collect()
}

#[test]
fn texts_are_lines() {
    assert_eq!(lines("a\nbc\n"), owned(&["a", "bc"]));
    assert_eq!(lines("a\r\nb"), owned(&["a", "b"]));
    assert_eq!(lines(""), owned(&[]));
    assert_eq!(lines("\n\n"), owned(&["", ""]));
    assert_eq!(join(&owned(&["a", "bc"])), "a\nbc");
    let all = owned(&["a", "b", "c"]);
    assert_eq!(lines(&join(&all)), all);
    assert_eq!(join_first(all.clone(), 2), "a\nb");
    assert_eq!(join_last(all.clone(), 2), "b\nc");
    assert_eq!(join_last(all, 9), "a\nb\nc");
}

#[test]
fn words_are_wrapped() {
    assert_eq!(text_wrap("one two three", 7, 9), "one two\nthree");
    assert_eq!(text_wrap("one two three", 7, 1), "one two");
    assert_eq!(text_region("a\nb\nc", 2), owned(&["a", "b"]));
    assert_eq!(
        text_size("ab\nlonger\nc"),
        TextSize {
            width: 6,
            height: 3
        }
    );
    assert_eq!(
        text_size(""),
        TextSize {
            width: 0,
            height: 0
        }
    );
}

#[test]
fn the_newest_lines_stay() {
    let mut log = LogBuffer::new(3);
    assert_eq!(log.write(b"one\ntwo\n"), 8);
    log.write_text("three\nfour");
    let kept = log.get_lines();
    assert_eq!(kept.len(), 3);
    assert!(kept.contains(&"four".to_owned()));
    assert!(!kept.contains(&"one".to_owned()));
    log.set_capacity(1);
    assert_eq!(log.get_lines(), owned(&["four"]));
    assert_eq!(log.write(b"\xFFx"), 2);
    assert_eq!(log.get_lines(), owned(&["\u{FFFD}x"]));
}

#[test]
fn regions_hold_wrapped_lines() {
    let mut log = LogBuffer::new(10);
    log.write_text("one two three");
    assert_eq!(log.get_region(7, 5), "one two\nthree");
    assert_eq!(log.get_region(7, 1), "three");
}

#[test]
fn recordings_are_named() {
    let recorder = Recorder::new("logs".to_owned(), Some("game".to_owned()));
    assert_eq!(recorder.directory(), "logs");
    assert_eq!(recorder.log_file("noon"), "game.noon.log");
    let recorder = Recorder::new("logs".to_owned(), None).extend_file_name("server".to_owned());
    assert_eq!(recorder.log_file("noon"), "recording-server.noon.log");
    let recorder = recorder.file_name("other".to_owned());
    assert_eq!(recorder.log_file("1"), "other.1.log");
}

fn key(code: u64, kind: KeyEventKind) -> KeyEvent {
    KeyEvent { code, kind }
}

#[test]
fn keys_are_pressed_and_released() {
    let mut keys = Keys::new();
    assert_eq!(keys.get(5), KeyState::default());
    keys.update(&[key(5, KeyEventKind::Press)]);
    assert!(keys.get(5).is_down());
    assert!(keys.get(5).just_pressed());
    assert!(keys.get(6).is_up());
    keys.update(&[key(5, KeyEventKind::Repeat)]);
    assert!(keys.get(5).is_down());
    assert!(!keys.get(5).just_pressed());
    keys.update(&[key(5, KeyEventKind::Release)]);
    assert!(keys.get(5).just_released());
    keys.update(&[]);
    assert!(keys.get(5).is_up());
    assert!(!keys.get(5).just_released());

    let events = [key(1, KeyEventKind::Press), key(2, KeyEventKind::Release)];
    assert!(is_key(&events, 1, Some(KeyEventKind::Press)));
    assert!(!is_key(&events, 1, Some(KeyEventKind::Release)));
    assert!(is_key(&events, 2, None));
    assert!(!is_key(&events, 3, None));
}

#[test]
fn numbers_have_numerals() {
    assert_eq!(number_text(0), "0");
    assert_eq!(number_text(10203), "10203");
    assert_eq!(
        number_text(u128::MAX),
        "340282366920938463463374607431768211455"
    );
    assert_eq!(label("#x:", 12), "#x:12");
    assert_eq!(TimeStamp::new(7).to_text(), "#timestamp:7");
}
