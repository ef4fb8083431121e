use small_tools::store::{
    delete_record, join_lines, post_step, render_records, split_lines, PostAction, PostStage, Reply,
};

fn strings(v: &[&str]) -> Vec<String> {
    v.iter().map(|s| s.to_string()).collect()
}

#[test]
fn split_lines_matches_std() {
    for text in ["", "\n", "a", "a\n", "a\r\nb\n\nc\r", "x\n\ny\r\n", "\r\n\r", "one\ntwo"] {
        let expected: Vec<String> = text.lines().map(|l| l.to_string()).collect();
        assert_eq!(split_lines(text), expected, "text {:?}", text);
    }
    assert_eq!(split_lines("a\r\nb\n\nc\r"), strings(&["a", "b", "", "c\r"]));
}

#[test]
fn join_and_render() {
    let records = strings(&["a", "b c", ""]);
    assert_eq!(join_lines(&records), "a\nb c\n");
    assert_eq!(render_records(&records), "a\nb c\n\n");
    assert_eq!(join_lines(&vec![]), "");
    assert_eq!(render_records(&vec![]), "");
}

#[test]
fn rendered_records_read_back() {
    let records = strings(&["first", "", "third one"]);
    assert_eq!(split_lines(&render_records(&records)), records);
}

#[test]
fn delete_first_match_only() {
    let mut records = strings(&["a", "b", "a"]);
    assert_eq!(delete_record(&mut records, &"a".to_string()), Reply::Removed);
    assert_eq!(records, strings(&["b", "a"]));
    assert_eq!(delete_record(&mut records, &"z".to_string()), Reply::NotFound);
    assert_eq!(records, strings(&["b", "a"]));
}

#[test]
fn post_steps() {
    let mut records = strings(&["x"]);
    let body = "y".to_string();
    assert_eq!(post_step(&mut records, &body, PostStage::Record, true), PostAction::WriteNewline);
    assert_eq!(records, strings(&["x", "y"]));
    assert_eq!(post_step(&mut records, &body, PostStage::Newline, true), PostAction::Answer(Reply::Added));
    assert_eq!(post_step(&mut records, &body, PostStage::Newline, false), PostAction::Answer(Reply::NewlineFailed));
    assert_eq!(post_step(&mut records, &body, PostStage::Record, false), PostAction::Answer(Reply::WriteFailed));
    assert_eq!(records, strings(&["x", "y"]));
}

#[test]
fn reply_codes_and_texts() {
    assert_eq!(Reply::Added.status(), 200);
    assert_eq!(Reply::WriteFailed.status(), 500);
    assert_eq!(Reply::NewlineFailed.status(), 500);
    assert_eq!(Reply::Removed.status(), 200);
    assert_eq!(Reply::NotFound.status(), 404);
    assert_eq!(Reply::Added.message(), "Data added to file and in-memory vector");
    assert_eq!(Reply::WriteFailed.message(), "Failed to write to file");
    assert_eq!(Reply::NewlineFailed.message(), "Failed to write newline to file: ");
    assert_eq!(Reply::Removed.message(), "Data removed from file and in-memory vector");
    assert_eq!(Reply::NotFound.message(), "Data not found in memory");
}
