use editor::buffer::Buffer;

fn at_offset(text: &str, offset: usize) -> Buffer {
    let mut buffer = Buffer::with_contents(String::from(text));
    for _ in 0..offset {
        buffer.move_cursor_right();
    }
    buffer
}

fn column_of(text: &str, offset: usize) -> usize {
    let before = &text.as_bytes()[..offset];
    match before.iter().rposition(|b| *b == b'\n') {
        Some(i) => offset - i - 1,
        None => offset,
    }
}

fn line_of(text: &str, offset: usize) -> usize {
    text.as_bytes()[..offset].iter().filter(|b| **b == b'\n').count()
}

#[test]
fn sticky_column_survives_up_and_down() {
    let mut buffer = Buffer::new();
    buffer.insert_str(String::from("ab\ncd\nef"));
    let before = buffer.column();
    assert_eq!(before, 2);
    buffer.move_cursor_up();
    buffer.move_cursor_up();
    assert_eq!(buffer.current_line_number(), 0);
    buffer.move_cursor_down();
    buffer.move_cursor_down();
    assert_eq!(buffer.column(), before);
    assert_eq!(buffer.current_line_number(), 2);
}

#[test]
fn sticky_column_clamps_on_short_line() {
    let mut buffer = Buffer::new();
    buffer.insert_str(String::from("abcd\nx\nabcd"));
    buffer.move_cursor_up();
    assert_eq!(buffer.column(), 1);
    buffer.move_cursor_up();
    assert_eq!(buffer.column(), 4);
    buffer.move_cursor_down();
    buffer.move_cursor_down();
    assert_eq!(buffer.column(), 4);
}

#[test]
fn scenario_two_chars() {
    let mut buffer = Buffer::new();
    buffer.insert('a');
    buffer.insert('b');
    assert_eq!(buffer.as_str(), "ab");
    assert_eq!(buffer.column(), 2);
}

#[test]
fn scenario_backspace_at_end() {
    let mut buffer = at_offset("abc", 3);
    buffer.remove();
    assert_eq!(buffer.as_str(), "ab");
    assert_eq!(buffer.column(), 2);
}

#[test]
fn scenario_left_over_newline() {
    let mut buffer = at_offset("ab\nc", 4);
    buffer.move_cursor_left();
    buffer.move_cursor_left();
    buffer.move_cursor_left();
    assert_eq!(buffer.current_line_number(), 0);
    assert_eq!(buffer.column(), 1);
    assert_eq!(buffer.as_str(), "ab\nc");
}

#[test]
fn scenario_insert_with_newline() {
    let mut buffer = Buffer::new();
    buffer.insert_str(String::from("1\n3"));
    assert_eq!(buffer.current_line_number(), 1);
    assert_eq!(buffer.total_newline_count(), 1);
    assert_eq!(buffer.as_str(), "1\n3");
}

#[test]
fn scenario_up_from_end_matches_flat_text() {
    let mut buffer = at_offset("\nbc", 3);
    buffer.insert_str(String::from("def"));
    buffer.insert_str(String::from("g\ni"));
    let text = buffer.as_str();
    let end = text.len();
    let sticky = column_of(&text, end);
    buffer.move_cursor_up();
    // independent computation: the previous line and its length
    let line_end = end - sticky - 1;
    let prev_len = column_of(&text, line_end);
    let expected_col = if sticky < prev_len { sticky } else { prev_len };
    assert_eq!(buffer.column(), expected_col);
    assert_eq!(buffer.current_line_number(), line_of(&text, line_end));
    let split = buffer.as_str_split_by_cursors();
    assert_eq!(split[0].len(), line_end - prev_len + expected_col);
}

#[test]
fn edits_match_a_plain_string() {
    let mut buffer = Buffer::with_contents(String::from("hello\nworld"));
    let mut model: Vec<u8> = b"hello\nworld".to_vec();
    let mut pos: usize = 0;
    let mut seed: u64 = 12345;
    for step in 0..400 {
        seed = seed.wrapping_mul(6364136223846793005).wrapping_add(1442695040888963407);
        let choice = (seed >> 33) % 6;
        match choice {
            0 => {
                let c = if (seed >> 40) % 4 == 0 { '\n' } else { (b'a' + ((seed >> 20) % 26) as u8) as char };
                buffer.insert(c);
                model.insert(pos, c as u8);
                pos += 1;
            }
            1 => {
                buffer.insert_str(String::from("xy\nz"));
                for (i, b) in b"xy\nz".iter().enumerate() {
                    model.insert(pos + i, *b);
                }
                pos += 4;
            }
            2 => {
                buffer.remove();
                if pos > 0 {
                    model.remove(pos - 1);
                    pos -= 1;
                }
            }
            3 => {
                buffer.move_cursor_left();
                if pos > 0 {
                    pos -= 1;
                }
            }
            4 => {
                buffer.move_cursor_right();
                if pos < model.len() {
                    pos += 1;
                }
            }
            _ => {
                if step % 2 == 0 {
                    buffer.move_cursor_up();
                } else {
                    buffer.move_cursor_down();
                }
                let split = buffer.as_str_split_by_cursors();
                pos = if split.len() == 2 { split[0].len() } else { 0 };
            }
        }
        let text = String::from_utf8(model.clone()).unwrap();
        assert_eq!(buffer.as_str(), text);
        let split = buffer.as_str_split_by_cursors();
        if !model.is_empty() {
            assert_eq!(split[0].len(), pos);
        }
        assert_eq!(buffer.column(), column_of(&text, pos));
        assert_eq!(buffer.current_line_number(), line_of(&text, pos));
        assert_eq!(buffer.total_newline_count(), line_of(&text, text.len()));
        for node in buffer.node_list.iter() {
            assert!(node.offset() > 0);
        }
    }
}

#[test]
fn moves_at_the_edges_change_nothing() {
    let mut buffer = Buffer::with_contents(String::from("ab\ncd"));
    buffer.move_cursor_left();
    buffer.move_cursor_up();
    assert_eq!(buffer.cursor.node_offset, 0);
    assert_eq!(buffer.current_line_number(), 0);
    assert_eq!(buffer.node_list.index(), 0);
    for _ in 0..5 {
        buffer.move_cursor_right();
    }
    let cursor = buffer.cursor;
    buffer.move_cursor_right();
    buffer.move_cursor_down();
    assert_eq!(buffer.cursor.node_offset, cursor.node_offset);
    assert_eq!(buffer.cursor.line_offset, cursor.line_offset);
    assert_eq!(buffer.cursor.original_line_offset, cursor.original_line_offset);
    assert_eq!(buffer.current_line_number(), 1);
}

#[test]
fn newline_count_follows_edits() {
    let mut buffer = Buffer::new();
    buffer.insert_str(String::from("a\n\nb\n"));
    assert_eq!(buffer.total_newline_count(), 3);
    assert_eq!(buffer.num_lines(), 4);
    buffer.remove();
    assert_eq!(buffer.total_newline_count(), 2);
    buffer.move_cursor_left();
    buffer.remove();
    assert_eq!(buffer.as_str(), "a\nb");
    assert_eq!(buffer.total_newline_count(), 1);
}

#[test]
fn empty_insert_changes_nothing() {
    let mut buffer = Buffer::with_contents(String::from("abc"));
    buffer.insert_str(String::new());
    assert_eq!(buffer.as_str(), "abc");
    assert_eq!(buffer.node_list.len(), 1);
    assert!(buffer.added_str.is_empty());
}

#[test]
fn deleting_everything_empties_the_list() {
    let mut buffer = at_offset("ab", 2);
    buffer.remove();
    buffer.remove();
    buffer.remove();
    assert_eq!(buffer.as_str(), "");
    assert!(buffer.node_list.is_empty());
    assert_eq!(buffer.cursor.node_offset, 0);
}

#[test]
fn multibyte_characters_are_kept() {
    let mut buffer = Buffer::new();
    buffer.insert('é');
    buffer.insert('x');
    assert_eq!(buffer.as_str(), "éx");
    assert_eq!(buffer.added_str, "éx".as_bytes().to_vec());
    let split = buffer.as_str_split_by_cursors();
    assert_eq!(split, vec![String::from("éx"), String::new()]);
}

#[test]
fn split_at_caret_in_the_middle() {
    let buffer = at_offset("hello", 2);
    assert_eq!(buffer.as_str_split_by_cursors(), vec![String::from("he"), String::from("llo")]);
    assert_eq!(buffer.distance_to_line_end(), 3);
    assert_eq!(buffer.cursor_position(), 2);
}

#[test]
fn offsets_of_text() {
    assert_eq!(Buffer::get_offsets(""), [0]);
    assert_eq!(Buffer::get_offsets("ab\n\ncd\n"), [0, 3, 4, 7]);
}
