use pscan::context::ContextBuffer;
use pscan::errors::{exit_code, render_message, ErrorResponse, PscanError};
use pscan::filter::{chunk_is_binary, file_is_ignored};
use pscan::output::AnnotatedLine;

#[test]
fn error_labels_name_each_kind() {
    assert_eq!(PscanError::FileRead.label(), "FileRead");
    assert_eq!(PscanError::Argument.label(), "Argument");
    assert_eq!(PscanError::InputError.label(), "InputError");
}

#[test]
fn exit_codes_follow_the_error_kind() {
    assert_eq!(exit_code(&PscanError::FileRead), 1);
    assert_eq!(exit_code(&PscanError::Argument), 2);
    assert_eq!(exit_code(&PscanError::InputError), 2);
}

#[test]
fn error_response_keeps_message_and_kind() {
    let resp = ErrorResponse::new("no such file".to_string(), PscanError::FileRead);
    assert_eq!(resp.error_msg, "no such file");
    assert!(matches!(resp.error_type, PscanError::FileRead));
}

#[test]
fn rendered_message_prefixes_the_kind() {
    let resp = ErrorResponse::new("no such file".to_string(), PscanError::FileRead);
    assert_eq!(render_message(&resp), "FileReadError: no such file");
    let resp = ErrorResponse::new("bad flag".to_string(), PscanError::Argument);
    assert_eq!(render_message(&resp), "BadArgumentError: bad flag");
    let resp = ErrorResponse::new("empty".to_string(), PscanError::InputError);
    assert_eq!(render_message(&resp), "InputError: empty");
}

#[test]
fn excluded_extensions_are_ignored() {
    let exclude_types = Some(vec!["py".to_string(), "sh".to_string()]);
    assert!(file_is_ignored(&"py".to_string(), &None, &exclude_types));
    assert!(!file_is_ignored(&"rs".to_string(), &None, &exclude_types));
    assert!(!file_is_ignored(&"".to_string(), &None, &exclude_types));
}

#[test]
fn include_list_keeps_only_listed_extensions() {
    let include_types = Some(vec!["rs".to_string()]);
    assert!(!file_is_ignored(&"rs".to_string(), &include_types, &None));
    assert!(file_is_ignored(&"py".to_string(), &include_types, &None));
    assert!(file_is_ignored(&"".to_string(), &include_types, &None));
}

#[test]
fn exclusion_wins_over_inclusion() {
    let include_types = Some(vec!["rs".to_string()]);
    let exclude_types = Some(vec!["rs".to_string()]);
    assert!(file_is_ignored(&"rs".to_string(), &include_types, &exclude_types));
}

#[test]
fn no_lists_ignore_nothing() {
    assert!(!file_is_ignored(&"anything".to_string(), &None, &None));
}

#[test]
fn a_nul_byte_marks_a_chunk_as_binary() {
    assert!(chunk_is_binary(&[65, 66, 0, 67]));
    assert!(!chunk_is_binary(&[65, 66, 67]));
    assert!(!chunk_is_binary(&[]));
}

fn context_line(number: usize, text: &str) -> AnnotatedLine {
    AnnotatedLine {
        line_number: number,
        text: text.to_string(),
        match_span: None,
    }
}

#[test]
fn context_buffer_evicts_the_oldest_beyond_capacity() {
    let mut buffer = ContextBuffer::new(2);
    buffer.push(context_line(1, "one"));
    buffer.push(context_line(2, "two"));
    buffer.push(context_line(3, "three"));
    assert_eq!(buffer.len(), 2);
    let drained = buffer.drain_all();
    assert_eq!(buffer.len(), 0);
    assert_eq!(drained.len(), 2);
    assert_eq!(drained[0].line_number, 2);
    assert_eq!(drained[1].line_number, 3);
}

#[test]
fn context_buffer_drains_in_insertion_order() {
    let mut buffer = ContextBuffer::new(5);
    buffer.push(context_line(7, "seven"));
    buffer.push(context_line(8, "eight"));
    let drained = buffer.drain_all();
    assert_eq!(drained.len(), 2);
    assert_eq!(drained[0].line_number, 7);
    assert_eq!(drained[0].text, "seven");
    assert_eq!(drained[1].line_number, 8);
}

#[test]
fn context_buffer_pops_oldest_first() {
    let mut buffer = ContextBuffer::new(3);
    buffer.push(context_line(1, "one"));
    buffer.push(context_line(2, "two"));
    let first = buffer.pop_front().expect("buffer holds two lines");
    assert_eq!(first.line_number, 1);
    let second = buffer.pop_front().expect("buffer holds one line");
    assert_eq!(second.line_number, 2);
    assert!(buffer.pop_front().is_none());
}

#[test]
fn zero_capacity_buffer_holds_nothing() {
    let mut buffer = ContextBuffer::new(0);
    buffer.push(context_line(1, "one"));
    assert_eq!(buffer.len(), 0);
    assert!(buffer.drain_all().is_empty());
}
