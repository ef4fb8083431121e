use small_tools::numbers::{
    format_numbers, gen_random, open_plan, parse_line, parse_lines, parse_segment, reduce_sample, OpenPlan,
};

#[test]
fn parse_simple_line() {
    assert_eq!(parse_line("1,2,3,"), Ok(vec![1, 2, 3]));
    assert_eq!(parse_line(""), Ok(vec![]));
    assert_eq!(parse_line(",,"), Ok(vec![]));
}

#[test]
fn parse_skips_blank_pieces() {
    assert_eq!(parse_line(" , \t,7,\u{3000}"), Ok(vec![7]));
}

#[test]
fn parse_signs_and_limits() {
    assert_eq!(parse_line("+5,-0,-2147483648,2147483647"), Ok(vec![5, 0, i32::MIN, i32::MAX]));
    assert_eq!(parse_line("007"), Ok(vec![7]));
}

#[test]
fn parse_errors_name_the_piece() {
    assert_eq!(parse_line("1, 5"), Err(" 5".to_string()));
    assert_eq!(parse_line("a,1"), Err("a".to_string()));
    assert_eq!(parse_line("1,x,y"), Err("x".to_string()));
    assert_eq!(parse_line("2147483648"), Err("2147483648".to_string()));
    assert_eq!(parse_line("-"), Err("-".to_string()));
    assert_eq!(parse_line("+"), Err("+".to_string()));
    assert_eq!(parse_line("1.5"), Err("1.5".to_string()));
}

#[test]
fn parse_segment_cases() {
    assert_eq!(parse_segment(""), Ok(None));
    assert_eq!(parse_segment(" \u{A0}\r\n"), Ok(None));
    assert_eq!(parse_segment("-12"), Ok(Some(-12)));
    assert_eq!(parse_segment("x"), Err(()));
}

#[test]
fn parse_lines_concatenates() {
    let lines = vec!["1,2,".to_string(), "".to_string(), "3".to_string()];
    assert_eq!(parse_lines(&lines), Ok(vec![1, 2, 3]));
    let bad = vec!["1,".to_string(), "q,".to_string(), "z".to_string()];
    assert_eq!(parse_lines(&bad), Err("q".to_string()));
    assert_eq!(parse_lines(&vec![]), Ok(vec![]));
}

#[test]
fn format_writes_each_value_and_comma() {
    assert_eq!(format_numbers(&vec![1, -2, 300]), "1,-2,300,");
    assert_eq!(format_numbers(&vec![]), "");
    assert_eq!(format_numbers(&vec![i32::MIN]), "-2147483648,");
}

#[test]
fn written_numbers_read_back() {
    let values = vec![0, -999, 999, 42, i32::MAX, i32::MIN];
    let text = format_numbers(&values);
    assert_eq!(parse_line(&text), Ok(values.clone()));
    assert_eq!(parse_lines(&vec![text]), Ok(values));
}

#[test]
fn reduce_sample_keeps_sign() {
    assert_eq!(reduce_sample(1999), 999);
    assert_eq!(reduce_sample(-1234), -234);
    assert_eq!(reduce_sample(1000), 0);
    assert_eq!(reduce_sample(i32::MIN), -648);
}

#[test]
fn gen_random_length_and_range() {
    let v = gen_random(10);
    assert_eq!(v.len(), 10);
    assert!(v.iter().all(|x| -1000 < *x && *x < 1000));
    assert!(gen_random(0).is_empty());
    assert!(gen_random(-3).is_empty());
}

#[test]
fn open_plans() {
    assert_eq!(open_plan(true, false), OpenPlan::NotFound);
    assert_eq!(open_plan(true, true), OpenPlan::ReadOnly);
    assert_eq!(open_plan(false, false), OpenPlan::ReadWriteCreate);
    assert_eq!(open_plan(false, true), OpenPlan::ReadWriteCreate);
}
