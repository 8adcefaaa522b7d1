use std::str;

use linecat::{cat, cat_buffered};

const PRE_LINE_NUM_INDENT: &str = "     ";
const POST_LINE_NUM_INDENT: &str = "\t";

const INPUT_STREAM_1: &str = "This is the first file...
Second line of first file now
Not ending with a new line";
const INPUT_STREAM_2: &str = "This is the second file...
Second line of second file now
Going to end with a new line
";
const INPUT_STREAM_3: &str = "This is the third file...
Second line of third file now
Not ending with a new line";

const ERROR_1: &str = "Oops, something went wrong!";

#[test]
fn no_ins_no_out() {
    let ins = vec![Ok(Vec::new())];
    let mut out = Vec::<u8>::default();
    cat(ins, &mut out, false, false);

    assert_eq!(out.len(), 0);
}

#[test]
fn one_in_correct_out() {
    let ins = vec![Ok(INPUT_STREAM_1.as_bytes().to_vec())];
    let mut out = Vec::<u8>::default();
    cat(ins, &mut out, false, false);

    assert_eq!(str::from_utf8(&out).unwrap(), INPUT_STREAM_1);
}

#[test]
fn one_in_error_correct_out() {
    let ins: Vec<Result<Vec<u8>, String>> = vec![Err(ERROR_1.to_string())];
    let mut out = Vec::<u8>::default();
    cat(ins, &mut out, false, false);

    assert_eq!(str::from_utf8(&out).unwrap(), format!("cat: {ERROR_1}\n"));
}

#[test]
fn multiple_ins_correct_out() {
    let ins = vec![
        Ok(INPUT_STREAM_1.as_bytes().to_vec()),
        Ok(INPUT_STREAM_2.as_bytes().to_vec()),
        Ok(INPUT_STREAM_3.as_bytes().to_vec()),
    ];
    let mut out = Vec::<u8>::default();
    cat(ins, &mut out, false, false);

    assert_eq!(
        str::from_utf8(&out).unwrap(),
        format!("{INPUT_STREAM_1}{INPUT_STREAM_2}{INPUT_STREAM_3}")
    );
}

#[test]
fn multiple_ins_with_error_correct_out() {
    let ins = vec![
        Ok(INPUT_STREAM_1.as_bytes().to_vec()),
        Err(ERROR_1.to_string()),
        Ok(INPUT_STREAM_2.as_bytes().to_vec()),
        Ok(INPUT_STREAM_3.as_bytes().to_vec()),
    ];
    let mut out = Vec::<u8>::default();
    cat(ins, &mut out, false, false);

    assert_eq!(
        str::from_utf8(&out).unwrap(),
        format!("{INPUT_STREAM_1}\ncat: {ERROR_1}\n{INPUT_STREAM_2}{INPUT_STREAM_3}")
    );
}

#[test]
fn line_nums_correct_out() {
    let ins = vec![
        Ok(INPUT_STREAM_1.as_bytes().to_vec()),
        Ok(INPUT_STREAM_2.as_bytes().to_vec()),
        Ok(INPUT_STREAM_3.as_bytes().to_vec()),
    ];
    let mut out = Vec::<u8>::default();
    cat(ins, &mut out, true, false);

    let (lines_1, lines_2, lines_3) = (
        INPUT_STREAM_1.lines().collect::<Vec<_>>(),
        INPUT_STREAM_2.lines().collect::<Vec<_>>(),
        INPUT_STREAM_3.lines().collect::<Vec<_>>(),
    );

    let expected_out = vec![
        format!(
            "{PRE_LINE_NUM_INDENT}1{POST_LINE_NUM_INDENT}{}\n",
            lines_1[0]
        ),
        format!(
            "{PRE_LINE_NUM_INDENT}2{POST_LINE_NUM_INDENT}{}\n",
            lines_1[1]
        ),
        format!(
            "{PRE_LINE_NUM_INDENT}3{POST_LINE_NUM_INDENT}{}{}\n",
            lines_1[2], lines_2[0]
        ),
        format!(
            "{PRE_LINE_NUM_INDENT}4{POST_LINE_NUM_INDENT}{}\n",
            lines_2[1]
        ),
        format!(
            "{PRE_LINE_NUM_INDENT}5{POST_LINE_NUM_INDENT}{}\n",
            lines_2[2]
        ),
        format!(
            "{PRE_LINE_NUM_INDENT}6{POST_LINE_NUM_INDENT}{}\n",
            lines_3[0]
        ),
        format!(
            "{PRE_LINE_NUM_INDENT}7{POST_LINE_NUM_INDENT}{}\n",
            lines_3[1]
        ),
        format!("{PRE_LINE_NUM_INDENT}8{POST_LINE_NUM_INDENT}{}", lines_3[2]),
    ];

    assert_eq!(str::from_utf8(&out).unwrap(), expected_out.join(""));
}

#[test]
fn line_nums_with_error_correct_out() {
    let ins = vec![
        Ok(INPUT_STREAM_1.as_bytes().to_vec()),
        Err(ERROR_1.to_string()),
        Ok(INPUT_STREAM_2.as_bytes().to_vec()),
        Ok(INPUT_STREAM_3.as_bytes().to_vec()),
    ];
    let mut out = Vec::<u8>::default();
    cat(ins, &mut out, true, false);

    let (lines_1, lines_2, lines_3) = (
        INPUT_STREAM_1.lines().collect::<Vec<_>>(),
        INPUT_STREAM_2.lines().collect::<Vec<_>>(),
        INPUT_STREAM_3.lines().collect::<Vec<_>>(),
    );

    let expected_out = vec![
        format!(
            "{PRE_LINE_NUM_INDENT}1{POST_LINE_NUM_INDENT}{}\n",
            lines_1[0]
        ),
        format!(
            "{PRE_LINE_NUM_INDENT}2{POST_LINE_NUM_INDENT}{}\n",
            lines_1[1]
        ),
        format!(
            "{PRE_LINE_NUM_INDENT}3{POST_LINE_NUM_INDENT}{}\ncat: {ERROR_1}\n",
            lines_1[2]
        ),
        format!(
            "{PRE_LINE_NUM_INDENT}4{POST_LINE_NUM_INDENT}{}\n",
            lines_2[0]
        ),
        format!(
            "{PRE_LINE_NUM_INDENT}5{POST_LINE_NUM_INDENT}{}\n",
            lines_2[1]
        ),
        format!(
            "{PRE_LINE_NUM_INDENT}6{POST_LINE_NUM_INDENT}{}\n",
            lines_2[2]
        ),
        format!(
            "{PRE_LINE_NUM_INDENT}7{POST_LINE_NUM_INDENT}{}\n",
            lines_3[0]
        ),
        format!(
            "{PRE_LINE_NUM_INDENT}8{POST_LINE_NUM_INDENT}{}\n",
            lines_3[1]
        ),
        format!("{PRE_LINE_NUM_INDENT}9{POST_LINE_NUM_INDENT}{}", lines_3[2]),
    ];

    assert_eq!(str::from_utf8(&out).unwrap(), expected_out.join(""));
}

#[test]
fn line_ends_correct_out() {
    let ins = vec![
        Ok(INPUT_STREAM_1.as_bytes().to_vec()),
        Ok(INPUT_STREAM_2.as_bytes().to_vec()),
        Ok(INPUT_STREAM_3.as_bytes().to_vec()),
    ];
    let mut out = Vec::<u8>::default();
    cat(ins, &mut out, false, true);

    let (lines_1, lines_2, lines_3) = (
        INPUT_STREAM_1.lines().collect::<Vec<_>>(),
        INPUT_STREAM_2.lines().collect::<Vec<_>>(),
        INPUT_STREAM_3.lines().collect::<Vec<_>>(),
    );

    let expected_out = vec![
        format!("{}$\n", lines_1[0]),
        format!("{}$\n", lines_1[1]),
        format!("{}{}$\n", lines_1[2], lines_2[0]),
        format!("{}$\n", lines_2[1]),
        format!("{}$\n", lines_2[2]),
        format!("{}$\n", lines_3[0]),
        format!("{}$\n", lines_3[1]),
        format!("{}", lines_3[2]),
    ];

    assert_eq!(str::from_utf8(&out).unwrap(), expected_out.join(""));
}

#[test]
fn line_ends_with_error_correct_out() {
    let ins = vec![
        Ok(INPUT_STREAM_1.as_bytes().to_vec()),
        Err(ERROR_1.to_string()),
        Ok(INPUT_STREAM_2.as_bytes().to_vec()),
        Ok(INPUT_STREAM_3.as_bytes().to_vec()),
    ];
    let mut out = Vec::<u8>::default();
    cat(ins, &mut out, false, true);

    let (lines_1, lines_2, lines_3) = (
        INPUT_STREAM_1.lines().collect::<Vec<_>>(),
        INPUT_STREAM_2.lines().collect::<Vec<_>>(),
        INPUT_STREAM_3.lines().collect::<Vec<_>>(),
    );

    let expected_out = vec![
        format!("{}$\n", lines_1[0]),
        format!("{}$\n", lines_1[1]),
        format!("{}\ncat: {ERROR_1}\n", lines_1[2]),
        format!("{}$\n", lines_2[0]),
        format!("{}$\n", lines_2[1]),
        format!("{}$\n", lines_2[2]),
        format!("{}$\n", lines_3[0]),
        format!("{}$\n", lines_3[1]),
        format!("{}", lines_3[2]),
    ];

    assert_eq!(str::from_utf8(&out).unwrap(), expected_out.join(""));
}

#[test]
fn line_nums_and_ends_correct_out() {
    let ins = vec![
        Ok(INPUT_STREAM_1.as_bytes().to_vec()),
        Ok(INPUT_STREAM_2.as_bytes().to_vec()),
        Ok(INPUT_STREAM_3.as_bytes().to_vec()),
    ];
    let mut out = Vec::<u8>::default();
    cat(ins, &mut out, true, true);

    let (lines_1, lines_2, lines_3) = (
        INPUT_STREAM_1.lines().collect::<Vec<_>>(),
        INPUT_STREAM_2.lines().collect::<Vec<_>>(),
        INPUT_STREAM_3.lines().collect::<Vec<_>>(),
    );

    let expected_out = vec![
        format!(
            "{PRE_LINE_NUM_INDENT}1{POST_LINE_NUM_INDENT}{}$\n",
            lines_1[0]
        ),
        format!(
            "{PRE_LINE_NUM_INDENT}2{POST_LINE_NUM_INDENT}{}$\n",
            lines_1[1]
        ),
        format!(
            "{PRE_LINE_NUM_INDENT}3{POST_LINE_NUM_INDENT}{}{}$\n",
            lines_1[2], lines_2[0]
        ),
        format!(
            "{PRE_LINE_NUM_INDENT}4{POST_LINE_NUM_INDENT}{}$\n",
            lines_2[1]
        ),
        format!(
            "{PRE_LINE_NUM_INDENT}5{POST_LINE_NUM_INDENT}{}$\n",
            lines_2[2]
        ),
        format!(
            "{PRE_LINE_NUM_INDENT}6{POST_LINE_NUM_INDENT}{}$\n",
            lines_3[0]
        ),
        format!(
            "{PRE_LINE_NUM_INDENT}7{POST_LINE_NUM_INDENT}{}$\n",
            lines_3[1]
        ),
        format!("{PRE_LINE_NUM_INDENT}8{POST_LINE_NUM_INDENT}{}", lines_3[2]),
    ];

    assert_eq!(str::from_utf8(&out).unwrap(), expected_out.join(""));
}

#[test]
fn line_nums_and_ends_with_error_correct_out() {
    let ins = vec![
        Ok(INPUT_STREAM_1.as_bytes().to_vec()),
        Err(ERROR_1.to_string()),
        Ok(INPUT_STREAM_2.as_bytes().to_vec()),
        Ok(INPUT_STREAM_3.as_bytes().to_vec()),
    ];
    let mut out = Vec::<u8>::default();
    cat(ins, &mut out, true, true);

    let (lines_1, lines_2, lines_3) = (
        INPUT_STREAM_1.lines().collect::<Vec<_>>(),
        INPUT_STREAM_2.lines().collect::<Vec<_>>(),
        INPUT_STREAM_3.lines().collect::<Vec<_>>(),
    );

    let expected_out = vec![
        format!(
            "{PRE_LINE_NUM_INDENT}1{POST_LINE_NUM_INDENT}{}$\n",
            lines_1[0]
        ),
        format!(
            "{PRE_LINE_NUM_INDENT}2{POST_LINE_NUM_INDENT}{}$\n",
            lines_1[1]
        ),
        format!(
            "{PRE_LINE_NUM_INDENT}3{POST_LINE_NUM_INDENT}{}\ncat: {ERROR_1}\n",
            lines_1[2]
        ),
        format!(
            "{PRE_LINE_NUM_INDENT}4{POST_LINE_NUM_INDENT}{}$\n",
            lines_2[0]
        ),
        format!(
            "{PRE_LINE_NUM_INDENT}5{POST_LINE_NUM_INDENT}{}$\n",
            lines_2[1]
        ),
        format!(
            "{PRE_LINE_NUM_INDENT}6{POST_LINE_NUM_INDENT}{}$\n",
            lines_2[2]
        ),
        format!(
            "{PRE_LINE_NUM_INDENT}7{POST_LINE_NUM_INDENT}{}$\n",
            lines_3[0]
        ),
        format!(
            "{PRE_LINE_NUM_INDENT}8{POST_LINE_NUM_INDENT}{}$\n",
            lines_3[1]
        ),
        format!("{PRE_LINE_NUM_INDENT}9{POST_LINE_NUM_INDENT}{}", lines_3[2]),
    ];

    assert_eq!(str::from_utf8(&out).unwrap(), expected_out.join(""));
}

fn run(ins: Vec<Result<Vec<u8>, String>>, line_nums: bool, line_ends: bool) -> String {
    let mut out = Vec::new();
    cat(ins, &mut out, line_nums, line_ends);
    String::from_utf8(out).unwrap()
}

fn file(contents: &str) -> Result<Vec<u8>, String> {
    Ok(contents.as_bytes().to_vec())
}

#[test]
fn unterminated_source_merges_with_next() {
    let ins = vec![file("ab"), file(""), file("cd\n")];
    assert_eq!(run(ins, true, false), "     1\tabcd\n");
}

#[test]
fn failure_between_sources() {
    let ins = vec![file("x\n"), Err("nope".to_string()), file("y\n")];
    assert_eq!(run(ins, false, false), "x\ncat: nope\ny\n");
}

#[test]
fn last_line_without_terminator() {
    let ins = vec![file("line1\nline2")];
    assert_eq!(run(ins, true, true), "     1\tline1$\n     2\tline2");
}

#[test]
fn same_inputs_same_output() {
    let make = || vec![file("a\nb"), Err("gone".to_string()), file("c\n\nd")];
    let first = run(make(), true, true);
    let second = run(make(), true, true);
    assert_eq!(first, second);
    assert_eq!(first, "     1\ta$\n     2\tb\ncat: gone\n     3\tc$\n     4\t$\n     5\td");
}

#[test]
fn no_options_is_identity() {
    let ins = vec![file("a$b\n"), file("\n\n"), file("tail")];
    assert_eq!(run(ins, false, false), "a$b\n\n\ntail");
}

#[test]
fn numbers_count_across_sources() {
    let ins = vec![file("a\nb\n"), file("c\n")];
    assert_eq!(run(ins, true, false), "     1\ta\n     2\tb\n     3\tc\n");
}

#[test]
fn numbers_reach_two_digits() {
    let text = "x\n".repeat(11);
    let out = run(vec![file(&text)], true, false);
    assert!(out.ends_with("     10\tx\n     11\tx\n"));
    assert!(out.starts_with("     1\tx\n     2\tx\n"));
}

#[test]
fn empty_lines_are_numbered_and_marked() {
    let ins = vec![file("\n\n")];
    assert_eq!(run(ins, true, true), "     1\t$\n     2\t$\n");
}

#[test]
fn ends_marked_without_numbers() {
    let ins = vec![file("a\n"), file("b")];
    assert_eq!(run(ins, false, true), "a$\nb");
}

#[test]
fn failure_keeps_line_counter() {
    let ins = vec![Err("first".to_string()), file("a\n"), Err("second".to_string()), file("b\n")];
    assert_eq!(run(ins, true, false), "cat: first\n     1\ta\ncat: second\n     2\tb\n");
}

#[test]
fn empty_source_list_writes_nothing() {
    assert_eq!(run(Vec::new(), true, true), "");
}

#[test]
fn output_is_appended() {
    let mut out = b"keep:".to_vec();
    cat(vec![file("z")], &mut out, false, false);
    assert_eq!(out, b"keep:z".to_vec());
}

#[test]
fn chunk_size_does_not_change_output() {
    let ins = vec![file("first line\nsecond"), Err("bad".to_string()), file("third\nfourth line\n")];
    let mut whole = Vec::new();
    cat(ins.clone(), &mut whole, true, true);
    for capacity in 1..20 {
        let mut out = Vec::new();
        cat_buffered(&ins, capacity, &mut out, true, true);
        assert_eq!(out, whole, "capacity {capacity}");
    }
}

#[test]
fn failure_after_partial_line_starts_new_line() {
    let ins = vec![file("a"), Err("e".to_string())];
    assert_eq!(run(ins, false, false), "a\ncat: e\n");
    let ins = vec![file("a"), Err("e".to_string())];
    assert_eq!(run(ins, true, false), "     1\ta\ncat: e\n");
    let ins = vec![file("a"), Err("e".to_string()), file("b")];
    assert_eq!(run(ins, true, true), "     1\ta\ncat: e\n     2\tb");
}

#[test]
fn failure_after_full_line_adds_no_break() {
    let ins = vec![file("a\n"), Err("e".to_string()), Err("f".to_string())];
    assert_eq!(run(ins, false, true), "a$\ncat: e\ncat: f\n");
}

#[test]
fn empty_source_changes_nothing() {
    let with_empty = vec![file("a"), file(""), file("b\n")];
    let without = vec![file("a"), file("b\n")];
    assert_eq!(run(with_empty, true, true), run(without, true, true));
}

#[test]
fn terminators_are_kept_and_marked() {
    let out = run(vec![file("a\nb\n\nc"), file("\nd")], false, true);
    assert_eq!(out, "a$\nb$\n$\nc$\nd");
    assert_eq!(out.matches('\n').count(), 4);
}
