use rsnano::buffer::TextBuffer;
use rsnano::text::join_chars;
use rsnano::text::split_chars;

fn chars(s: &str) -> Vec<char> {
    s.chars().collect()
}

fn strings(lines: &Vec<Vec<char>>) -> Vec<String> {
    lines.iter().map(|l| l.iter().collect()).collect()
}

#[test]
fn empty_text_loads_as_one_empty_line() {
    assert_eq!(strings(&split_chars(&chars(""))), vec![String::new()]);
}

#[test]
fn split_drops_a_trailing_newline() {
    assert_eq!(strings(&split_chars(&chars("a\n"))), vec!["a"]);
    assert_eq!(strings(&split_chars(&chars("\n"))), vec![""]);
}

#[test]
fn split_handles_carriage_return_line_feed() {
    assert_eq!(strings(&split_chars(&chars("a\r\nb"))), vec!["a", "b"]);
    assert_eq!(strings(&split_chars(&chars("a\rb"))), vec!["a\rb"]);
}

#[test]
fn split_keeps_interior_empty_lines() {
    assert_eq!(strings(&split_chars(&chars("a\n\nb"))), vec!["a", "", "b"]);
}

#[test]
fn join_adds_no_trailing_newline() {
    let lines = split_chars(&chars("one\ntwo"));
    let joined: String = join_chars(&lines).iter().collect();
    assert_eq!(joined, "one\ntwo");
}

#[test]
fn save_then_load_reproduces_the_lines() {
    let cases = ["", "a", "one\ntwo\nthree", "多\n字\n节", "a\n\nb", "ends\nwith\rcr\r"];
    for text in cases {
        let mut b = TextBuffer::from_text(&chars(text), None);
        let written = b.to_text();
        b.mark_saved();
        let reloaded = TextBuffer::from_text(&written, None);
        assert_eq!(strings(&b.lines), strings(&reloaded.lines));
    }
}

#[test]
fn save_payload_is_none_exactly_without_a_path() {
    let b = TextBuffer::from_text(&chars("ab"), None);
    assert!(b.filename.is_none());
    assert!(b.save_payload().is_none());
    let c = TextBuffer::from_text(&chars("ab"), Some(String::from("out.txt")));
    assert_eq!(c.filename.as_deref(), Some("out.txt"));
    let payload: String = c.save_payload().expect("payload").iter().collect();
    assert_eq!(payload, "ab");
}

#[test]
fn round_trip_survives_editing() {
    let mut b = TextBuffer::from_text(&chars("alpha\nbeta"), None);
    b.insert_char('x');
    b.insert_newline();
    b.insert_char('文');
    let written = b.to_text();
    let reloaded = TextBuffer::from_text(&written, None);
    assert_eq!(strings(&b.lines), strings(&reloaded.lines));
}
