use editor::app::{App, AppMode, CommandMode};
use editor::cursor::Cursor;
use editor::nodelist::{BufferNode, BufferType, NodeList};
use editor::taggedtext::TaggedText;
use editor::texttag::{Tag, TextTag};
use editor::utils::QuitOption;

#[test]
fn tags_are_sorted_on_creation() {
    let tags = vec![
        TextTag::new(Tag::Cursor, 5, 6),
        TextTag::new(Tag::Highlighted, 1, 4),
        TextTag::new(Tag::Cursor, 1, 2),
    ];
    let text = TaggedText::new(String::from("abcdefg"), tags);
    assert_eq!(
        *text.tags(),
        vec![
            TextTag::new(Tag::Cursor, 1, 2),
            TextTag::new(Tag::Highlighted, 1, 4),
            TextTag::new(Tag::Cursor, 5, 6),
        ]
    );
    assert_eq!(text.as_str(), "abcdefg");
}

#[test]
fn push_tag_keeps_order_and_equal_tags_go_last() {
    let mut text = TaggedText::new(String::from("abc"), vec![TextTag::new(Tag::Cursor, 0, 1)]);
    text.push_tag(TextTag::new(Tag::Highlighted, 0, 1));
    text.push_tag(TextTag::new(Tag::Cursor, 0, 0));
    assert_eq!(
        *text.tags(),
        vec![
            TextTag::new(Tag::Cursor, 0, 0),
            TextTag::new(Tag::Cursor, 0, 1),
            TextTag::new(Tag::Highlighted, 0, 1),
        ]
    );
}

#[test]
fn split_whitespace_distributes_tags() {
    let text = TaggedText::new(String::from("ab cd  e"), vec![TextTag::new(Tag::Highlighted, 1, 4)]);
    let parts = text.split_whitespace();
    assert_eq!(parts.len(), 4);
    assert_eq!(parts[0], TaggedText::new(String::from("ab"), vec![TextTag::new(Tag::Highlighted, 1, 2)]));
    assert_eq!(parts[1], TaggedText::new(String::from("cd"), vec![TextTag::new(Tag::Highlighted, 0, 1)]));
    assert_eq!(parts[2], TaggedText::new(String::new(), Vec::new()));
    assert_eq!(parts[3], TaggedText::new(String::from("e"), Vec::new()));
}

#[test]
fn split_whitespace_of_empty_text_is_itself() {
    let text = TaggedText::new(String::new(), vec![TextTag::new(Tag::Cursor, 0, 1)]);
    let parts = text.clone().split_whitespace();
    assert_eq!(parts, vec![text]);
}

#[test]
fn join_moves_tags_and_adds_delimiters() {
    let a = TaggedText::new(String::from("ab"), vec![TextTag::new(Tag::Cursor, 0, 1)]);
    let b = TaggedText::new(String::from("cde"), vec![TextTag::new(Tag::Highlighted, 1, 3)]);
    let joined = TaggedText::join(vec![a, b], ' ');
    assert_eq!(joined.as_str(), "ab cde ");
    assert_eq!(
        *joined.tags(),
        vec![TextTag::new(Tag::Cursor, 0, 1), TextTag::new(Tag::Highlighted, 4, 6)]
    );
}

#[test]
fn join_of_one_text_is_that_text() {
    let a = TaggedText::new(String::from("xy"), vec![TextTag::new(Tag::Cursor, 0, 2)]);
    let joined = TaggedText::join(vec![a.clone()], '\n');
    assert_eq!(joined, a);
}

#[test]
fn grid_cursor_moves() {
    let mut cursor = Cursor::new();
    cursor.move_right();
    cursor.move_right();
    cursor.move_left();
    assert_eq!(cursor.column(), 1);
    assert_eq!(cursor.row(), 0);
}

#[test]
fn app_takes_file_name_from_arguments() {
    let args = vec![String::from("editor"), String::from("notes.txt")];
    let mut app = App::new(&args);
    assert_eq!(app.file_path, Some(String::from("notes.txt")));
    assert_eq!(app.handle_regular_save(), Some(String::from("notes.txt")));
    assert_eq!(app.mode(), AppMode::Edit);
}

#[test]
fn app_save_as_uses_the_command_line() {
    let args: Vec<String> = Vec::new();
    let mut app = App::new(&args);
    app.handle_save_as_new_file();
    app.add_char('a');
    app.add_char('.');
    app.add_char('t');
    assert_eq!(app.app_mode(), AppMode::Command(CommandMode::Write));
    let name = app.take_file_name();
    assert_eq!(name, "a.t");
    assert_eq!(app.file_path, Some(String::from("a.t")));
    assert_eq!(app.mode(), AppMode::Edit);
    assert_eq!(app.get_command_buffer_text(), "");
}

#[test]
fn app_edits_and_moves() {
    let args: Vec<String> = Vec::new();
    let mut app = App::new(&args);
    app.load(String::from("ab\ncd"));
    app.move_cursor_down();
    app.move_cursor_right();
    app.add_char('x');
    app.move_cursor_up();
    app.move_cursor_left();
    app.remove_char();
    assert_eq!(app.get_buffer_text(), "b\ncxd");
    assert_eq!(app.get_text_as_iter(), vec![String::from("b\ncxd")]);
    assert_eq!(app.buffer().current_line_number(), 0);
}

#[test]
fn quit_option_compares() {
    assert_ne!(QuitOption::Quitting, QuitOption::NotQuitting);
}


#[test]
fn gap_buffer_mutable_getters() {
    let mut gap_buffer = editor::gapbuffer::GapBuffer::with_contents(vec![1, 2, 3]);
    gap_buffer.move_pointer_left();
    *gap_buffer.get_current_mut().unwrap() = 20;
    *gap_buffer.get_prev_mut().unwrap() = 10;
    *gap_buffer.get_next_mut().unwrap() = 30;
    assert_eq!(gap_buffer.left_right_list_as_vec(), vec![&10, &20, &30]);
    let mut empty: editor::gapbuffer::GapBuffer<u8> = editor::gapbuffer::GapBuffer::new();
    assert!(empty.get_current_mut().is_none());
    assert!(empty.get_prev_mut().is_none());
    assert!(empty.get_next_mut().is_none());
}

#[test]
fn node_list_replace_and_mutable_getters() {
    let a = BufferNode::new(BufferType::Original, 0, 4, vec![0]);
    let b = BufferNode::new(BufferType::Added, 0, 2, vec![0]);
    let mut list = NodeList::with_contents(vec![a.clone(), b.clone()]);
    list.move_right();
    list.replace_curr(vec![
        BufferNode::new(BufferType::Added, 0, 1, vec![0]),
        BufferNode::new(BufferType::Added, 1, 1, vec![0]),
    ]);
    assert_eq!(list.index(), 2);
    list.get_prev_mut().offset = 7;
    list.get_curr_mut().index = 5;
    assert_eq!(
        list,
        vec![
            a,
            BufferNode::new(BufferType::Added, 0, 7, vec![0]),
            BufferNode::new(BufferType::Added, 5, 1, vec![0]),
        ]
    );
    list.move_left();
    assert_eq!(list.get_next_mut().index, 5);
    assert!(list.get_next().has_newline() == false);
}

#[test]
fn remove_curr_pulls_in_the_following_piece() {
    let a = BufferNode::new(BufferType::Original, 0, 1, vec![0]);
    let b = BufferNode::new(BufferType::Original, 1, 1, vec![0]);
    let c = BufferNode::new(BufferType::Original, 2, 1, vec![0]);
    let mut list = NodeList::with_contents(vec![a.clone(), b, c.clone()]);
    list.move_right();
    list.remove_curr();
    assert_eq!(list.index(), 1);
    assert_eq!(*list.get_curr(), c);
    assert_eq!(list, vec![a.clone(), c]);
    list.remove_curr();
    assert_eq!(list.index(), 0);
    assert_eq!(*list.get_curr(), a);
}

#[test]
fn with_string_reads_back() {
    let buffer = editor::buffer::Buffer::with_string(String::from("x\ny"));
    assert_eq!(buffer.as_str(), "x\ny");
    assert_eq!(buffer.total_newline_count(), 1);
}

#[test]
fn app_typing_two_characters() {
    let args: Vec<String> = Vec::new();
    let mut app = App::new(&args);
    app.add_char('a');
    app.add_char('b');
    assert_eq!(app.buffer().as_str(), "ab");
    assert_eq!(app.buffer().column(), 2);
    assert_eq!(app.buffer().cursor.original_line_offset, 2);
}

#[test]
fn app_backspace_after_typing() {
    let args: Vec<String> = Vec::new();
    let mut app = App::new(&args);
    app.add_char('a');
    app.add_char('b');
    app.add_char('c');
    app.remove_char();
    assert_eq!(app.buffer().as_str(), "ab");
    assert_eq!(app.buffer().column(), 2);
    assert_eq!(app.buffer().cursor.original_line_offset, 2);
}

#[test]
fn app_three_left_moves_over_a_newline() {
    let args: Vec<String> = Vec::new();
    let mut app = App::new(&args);
    for c in ['a', 'b', '\n', 'c'] {
        app.add_char(c);
    }
    app.move_cursor_left();
    app.move_cursor_left();
    app.move_cursor_left();
    assert_eq!(app.buffer().current_line_number(), 0);
    assert_eq!(app.buffer().column(), 1);
    assert_eq!(app.buffer().as_str(), "ab\nc");
}
