use rsnano::buffer::TextBuffer;
use rsnano::direction::Direction;
use rsnano::Position;

fn chars(s: &str) -> Vec<char> {
    s.chars().collect()
}

fn line(b: &TextBuffer, i: usize) -> String {
    b.lines[i].iter().collect()
}

const VIEW: (u16, u16) = (80, 10);

#[test]
fn scenario_two_inserts_on_empty_buffer() {
    let mut b = TextBuffer::new();
    b.insert_char('A');
    b.insert_char('B');
    assert_eq!(b.lines.len(), 1);
    assert_eq!(line(&b, 0), "AB");
    assert_eq!(b.primary, Position { x: 2, y: 0 });
    assert!(b.modified);
}

#[test]
fn scenario_split_line_in_the_middle() {
    let mut b = TextBuffer::new();
    b.insert_char('A');
    b.insert_char('B');
    b.move_cursor(Direction::Left, VIEW, false);
    assert_eq!(b.primary, Position { x: 1, y: 0 });
    b.insert_newline();
    assert_eq!(b.lines.len(), 2);
    assert_eq!(line(&b, 0), "A");
    assert_eq!(line(&b, 1), "B");
    assert_eq!(b.primary, Position { x: 0, y: 1 });
}

#[test]
fn scenario_multibyte_delete_removes_one_character() {
    let mut b = TextBuffer::new();
    b.insert_char('你');
    b.insert_char('好');
    assert_eq!(b.primary, Position { x: 2, y: 0 });
    b.delete_char();
    assert_eq!(line(&b, 0), "你");
    assert_eq!(b.primary, Position { x: 1, y: 0 });
}

#[test]
fn scenario_delete_at_line_start_merges_lines() {
    let mut b = TextBuffer::from_text(&chars("AB\nCD"), None);
    b.move_cursor(Direction::Down, VIEW, false);
    assert_eq!(b.primary, Position { x: 0, y: 1 });
    b.delete_char();
    assert_eq!(b.lines.len(), 1);
    assert_eq!(line(&b, 0), "ABCD");
    assert_eq!(b.primary, Position { x: 2, y: 0 });
}

#[test]
fn scenario_both_cursor_insert_doubles_when_cursors_coincide() {
    let mut b = TextBuffer::new();
    b.toggle_secondary_cursor();
    assert_eq!(b.secondary, Some(Position { x: 0, y: 0 }));
    b.insert_char_at_both_cursors('X');
    assert_eq!(line(&b, 0), "XX");
    assert_eq!(b.primary, Position { x: 1, y: 0 });
    assert_eq!(b.secondary, Some(Position { x: 2, y: 0 }));
}

#[test]
fn scenario_scroll_follows_cursor_to_line_45() {
    let mut text = String::new();
    for i in 0..50 {
        if i > 0 {
            text.push('\n');
        }
        text.push('x');
    }
    let mut b = TextBuffer::from_text(&chars(&text), None);
    assert_eq!(b.lines.len(), 50);
    for _ in 0..45 {
        b.move_cursor(Direction::Down, VIEW, false);
    }
    assert_eq!(b.primary, Position { x: 0, y: 45 });
    assert_eq!(b.offset_y, 36);
}

#[test]
fn insert_then_delete_restores_line_and_cursor() {
    let cases = ["", "hello", "多字节文本", "mixed 文本 line"];
    let inserts = ['Z', '界', ' '];
    for text in cases {
        for ch in inserts {
            for x in 0..=text.chars().count() {
                let mut b = TextBuffer::from_text(&chars(text), None);
                for _ in 0..x {
                    b.move_cursor(Direction::Right, VIEW, false);
                }
                let before_line = line(&b, 0);
                let before_pos = b.primary;
                b.insert_char(ch);
                b.delete_char();
                assert_eq!(line(&b, 0), before_line);
                assert_eq!(b.primary, before_pos);
            }
        }
    }
}

#[test]
fn insert_then_delete_restores_secondary_cursor() {
    let mut b = TextBuffer::from_text(&chars("abcd"), None);
    b.move_cursor(Direction::Right, VIEW, false);
    b.toggle_secondary_cursor();
    b.move_cursor(Direction::Right, VIEW, true);
    b.move_cursor(Direction::Right, VIEW, true);
    assert_eq!(b.secondary, Some(Position { x: 3, y: 0 }));
    b.insert_char('Q');
    assert_eq!(b.secondary, Some(Position { x: 4, y: 0 }));
    b.delete_char();
    assert_eq!(line(&b, 0), "abcd");
    assert_eq!(b.primary, Position { x: 1, y: 0 });
    assert_eq!(b.secondary, Some(Position { x: 3, y: 0 }));
}

#[test]
fn any_mix_of_splits_and_deletes_keeps_buffer_well_formed() {
    let mut b = TextBuffer::from_text(&chars("one\ntwo\nthree"), None);
    let steps = [
        true, false, true, true, false, false, false, true, false, false, false, false, false,
    ];
    for &split in steps.iter() {
        if split {
            b.insert_newline();
        } else {
            b.delete_char();
        }
        assert!(b.lines.len() >= 1);
        assert!(b.primary.y < b.lines.len());
        assert!(b.primary.x <= b.lines[b.primary.y].len());
    }
}

#[test]
fn delete_at_document_start_is_a_no_op() {
    let mut b = TextBuffer::from_text(&chars("abc"), None);
    b.delete_char();
    assert_eq!(line(&b, 0), "abc");
    assert_eq!(b.primary, Position { x: 0, y: 0 });
    assert!(!b.modified);
}

#[test]
fn vertical_moves_clamp_column_to_destination_line() {
    let mut b = TextBuffer::from_text(&chars("longline\nab\nlonger"), None);
    for _ in 0..8 {
        b.move_cursor(Direction::Right, VIEW, false);
    }
    assert_eq!(b.primary, Position { x: 8, y: 0 });
    b.move_cursor(Direction::Down, VIEW, false);
    assert_eq!(b.primary, Position { x: 2, y: 1 });
    b.move_cursor(Direction::Down, VIEW, false);
    assert_eq!(b.primary, Position { x: 2, y: 2 });
}

#[test]
fn horizontal_moves_wrap_at_line_ends() {
    let mut b = TextBuffer::from_text(&chars("ab\ncd"), None);
    b.move_cursor(Direction::Left, VIEW, false);
    assert_eq!(b.primary, Position { x: 0, y: 0 });
    b.move_cursor(Direction::Right, VIEW, false);
    b.move_cursor(Direction::Right, VIEW, false);
    b.move_cursor(Direction::Right, VIEW, false);
    assert_eq!(b.primary, Position { x: 0, y: 1 });
    b.move_cursor(Direction::Left, VIEW, false);
    assert_eq!(b.primary, Position { x: 2, y: 0 });
    b.move_cursor(Direction::Down, VIEW, false);
    b.move_cursor(Direction::Right, VIEW, false);
    b.move_cursor(Direction::Right, VIEW, false);
    b.move_cursor(Direction::Right, VIEW, false);
    assert_eq!(b.primary, Position { x: 2, y: 1 });
}

#[test]
fn moving_the_absent_secondary_cursor_creates_and_moves_it() {
    let mut b = TextBuffer::from_text(&chars("ab\ncd"), None);
    assert_eq!(b.secondary, None);
    b.move_cursor(Direction::Down, VIEW, true);
    assert_eq!(b.secondary, Some(Position { x: 0, y: 1 }));
    assert_eq!(b.primary, Position { x: 0, y: 0 });
}

#[test]
fn toggling_twice_removes_the_secondary_cursor() {
    let mut b = TextBuffer::new();
    b.toggle_secondary_cursor();
    assert!(b.secondary.is_some());
    b.toggle_secondary_cursor();
    assert!(b.secondary.is_none());
}

#[test]
fn newline_shifts_a_secondary_cursor_below_the_split() {
    let mut b = TextBuffer::from_text(&chars("ab\ncd"), None);
    b.move_cursor(Direction::Down, VIEW, true);
    b.move_cursor(Direction::Right, VIEW, true);
    assert_eq!(b.secondary, Some(Position { x: 1, y: 1 }));
    b.insert_newline();
    assert_eq!(b.lines.len(), 3);
    assert_eq!(b.secondary, Some(Position { x: 1, y: 2 }));
}

#[test]
fn merge_re_anchors_a_secondary_cursor_on_the_merged_line() {
    let mut b = TextBuffer::from_text(&chars("AB\nCD"), None);
    b.move_cursor(Direction::Down, VIEW, false);
    b.move_cursor(Direction::Down, VIEW, true);
    b.move_cursor(Direction::Right, VIEW, true);
    assert_eq!(b.secondary, Some(Position { x: 1, y: 1 }));
    b.delete_char();
    assert_eq!(line(&b, 0), "ABCD");
    assert_eq!(b.secondary, Some(Position { x: 3, y: 0 }));
}

#[test]
fn both_cursor_insert_on_different_lines() {
    let mut b = TextBuffer::from_text(&chars("ab\ncd"), None);
    b.move_cursor(Direction::Down, VIEW, true);
    assert_eq!(b.secondary, Some(Position { x: 0, y: 1 }));
    b.insert_char_at_both_cursors('Z');
    assert_eq!(line(&b, 0), "Zab");
    assert_eq!(line(&b, 1), "Zcd");
    assert_eq!(b.primary, Position { x: 1, y: 0 });
    assert_eq!(b.secondary, Some(Position { x: 1, y: 1 }));
}

#[test]
fn mark_saved_clears_the_dirty_flag_only() {
    let mut b = TextBuffer::new();
    b.insert_char('a');
    assert!(b.modified);
    b.mark_saved();
    assert!(!b.modified);
    assert_eq!(line(&b, 0), "a");
    assert_eq!(b.primary, Position { x: 1, y: 0 });
}

#[test]
fn set_filename_associates_a_path() {
    let mut b = TextBuffer::new();
    assert!(b.filename.is_none());
    b.set_filename(Some(String::from("notes.txt")));
    assert_eq!(b.filename.as_deref(), Some("notes.txt"));
    b.set_filename(None);
    assert!(b.filename.is_none());
}

#[test]
fn accessors_report_the_current_state() {
    let mut b = TextBuffer::from_text(&chars("ab\ncd"), None);
    assert_eq!(b.line_count(), 2);
    b.move_cursor(Direction::Down, VIEW, false);
    let l: String = b.current_line().iter().collect();
    assert_eq!(l, "cd");
}

#[test]
fn current_line_mut_edits_exactly_the_cursor_line() {
    let mut b = TextBuffer::from_text(&chars("ab\ncd"), None);
    b.current_line_mut().push('!');
    assert_eq!(line(&b, 0), "ab!");
    assert_eq!(line(&b, 1), "cd");
    assert_eq!(b.primary, Position { x: 0, y: 0 });
}
