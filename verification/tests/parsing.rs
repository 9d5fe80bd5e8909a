use st_core::{
    collect_matrix, collect_pairs, collect_row, collect_vector, parse_row, read_rows, split_label,
    str_to_vector, to_matrix, to_tuple, to_vector, ParseError, Row,
};

fn scalar(line: &str, index: usize, column: usize) -> ParseError {
    ParseError::MalformedScalar { line: line.to_string(), index, column }
}

fn row(index: usize, line: &str, cells: &[&str]) -> Row {
    Row {
        index,
        line: line.to_string(),
        cells: cells.iter().map(|c| c.to_string()).collect(),
    }
}

#[test]
fn to_tuple_drops_a_malformed_row() {
    let (pairs, dropped) = to_tuple::<f32>("0.5,1\nbad_row\n0.2,0\n").unwrap();
    assert_eq!(pairs, vec![(0.5, 1.0), (0.2, 0.0)]);
    assert_eq!(dropped, vec![ParseError::MalformedRow { line: "bad_row".to_string(), index: 1 }]);
}

#[test]
fn to_tuple_drops_rows_of_three_columns() {
    let (pairs, dropped) = to_tuple::<f32>("1,2,3\n\n 0.25 , 1 \n").unwrap();
    assert_eq!(pairs, vec![(0.25, 1.0)]);
    assert_eq!(dropped, vec![ParseError::MalformedRow { line: "1,2,3".to_string(), index: 0 }]);
    assert_eq!(to_tuple::<f32>("1,2\n,\n"), Err(scalar(",", 1, 0)));
}

#[test]
fn to_tuple_fails_on_a_field_that_is_no_number() {
    assert_eq!(to_tuple::<f32>("0.5,1\n0.5,x\n0.2,0\n"), Err(scalar("0.5,x", 1, 1)));
    assert_eq!(to_tuple::<f32>("bad\ny,1\n"), Err(scalar("y,1", 1, 0)));
}

#[test]
fn to_tuple_of_nothing() {
    assert_eq!(to_tuple::<f32>(""), Ok((vec![], vec![])));
    assert_eq!(to_tuple::<f32>("\n\n"), Ok((vec![], vec![])));
}

#[test]
fn to_vector_reads_one_number_from_each_line() {
    assert_eq!(to_vector::<f64>("1.5\n2.5\n-3e2\n", false), Ok(vec![1.5, 2.5, -300.0]));
    assert_eq!(to_vector::<f64>("7", false), Ok(vec![7.0]));
    assert_eq!(to_vector::<f64>("", false), Ok(vec![]));
}

#[test]
fn to_vector_passes_over_header_and_empty_lines() {
    assert_eq!(to_vector::<f64>("value\n1.5\n\n 2.5 \n\n", true), Ok(vec![1.5, 2.5]));
    assert_eq!(to_vector::<f64>("1.0\n2.0\n", true), Ok(vec![2.0]));
    assert_eq!(to_vector::<f64>("\n4.0\n", true), Ok(vec![4.0]));
}

#[test]
fn to_vector_fails_on_a_line_that_is_no_number() {
    assert_eq!(to_vector::<f64>("value\n1.5\n", false), Err(scalar("value", 0, 0)));
    assert_eq!(to_vector::<f64>("h\n1.5\n\nx y\n2\nz\n", true), Err(scalar("x y", 3, 0)));
}

#[test]
fn to_vector_takes_a_line_of_spaces_for_no_number() {
    assert_eq!(to_vector::<f64>("1\n  \n2\n", false), Err(scalar("  ", 1, 0)));
}

#[test]
fn to_vector_trims_all_whitespace() {
    assert_eq!(to_vector::<f64>("1.5\r\n2.5\r\n", false), Ok(vec![1.5, 2.5]));
    assert_eq!(to_vector::<f64>("\t 3.5 \u{a0}\u{2003}\n", false), Ok(vec![3.5]));
    assert_eq!(to_vector::<f64>("1 5\n", false), Err(scalar("1 5", 0, 0)));
}

#[test]
fn to_matrix_holds_out_the_label_column() {
    let (xs, ys) = to_matrix::<f64>("a,b,y\n1,2,0\n3,4,1\n", 2, true).unwrap();
    assert_eq!(xs, vec![vec![1.0, 2.0], vec![3.0, 4.0]]);
    assert_eq!(ys, vec![0.0, 1.0]);
    let (xs, ys) = to_matrix::<f64>("1, 2 ,0\n\n3,4,1", 0, false).unwrap();
    assert_eq!(xs, vec![vec![2.0, 0.0], vec![4.0, 1.0]]);
    assert_eq!(ys, vec![1.0, 3.0]);
}

#[test]
fn to_matrix_without_a_label_column() {
    let (xs, ys) = to_matrix::<f64>("1,2\n3,4\n", 9, false).unwrap();
    assert_eq!(xs, vec![vec![1.0, 2.0], vec![3.0, 4.0]]);
    assert_eq!(ys, Vec::<f64>::new());
}

#[test]
fn to_matrix_passes_ragged_rows_through() {
    let (xs, ys) = to_matrix::<f64>("1,2,3\n4\n5,6\n", 1, false).unwrap();
    assert_eq!(xs, vec![vec![1.0, 3.0], vec![4.0], vec![5.0]]);
    assert_eq!(ys, vec![2.0, 6.0]);
}

#[test]
fn to_matrix_fails_on_a_field_that_is_no_number() {
    assert_eq!(to_matrix::<f64>("1,2\n3,x\n", 0, false), Err(scalar("3,x", 1, 1)));
    assert_eq!(to_matrix::<f64>("a,b\n1,2\n", 0, false), Err(scalar("a,b", 0, 0)));
    assert_eq!(to_matrix::<f64>("a,b\n1,\n", 0, true), Err(scalar("1,", 1, 1)));
}

#[test]
fn to_matrix_of_nothing() {
    assert_eq!(to_matrix::<f64>("", 0, false), Ok((vec![], vec![])));
    assert_eq!(to_matrix::<f64>("a,b\n", 0, true), Ok((vec![], vec![])));
}

#[test]
fn str_to_vector_splits_and_trims() {
    assert_eq!(str_to_vector::<i32>("1, 2,3 ", ","), Ok(vec![1, 2, 3]));
    assert_eq!(str_to_vector::<f64>("0.5;1.5", ";"), Ok(vec![0.5, 1.5]));
    assert_eq!(str_to_vector::<u8>("7", ","), Ok(vec![7]));
}

#[test]
fn str_to_vector_with_a_longer_separator() {
    assert_eq!(str_to_vector::<i32>("1::2::3", "::"), Ok(vec![1, 2, 3]));
    assert_eq!(str_to_vector::<i32>("1 and 2 and 3", "and"), Ok(vec![1, 2, 3]));
    assert_eq!(str_to_vector::<i32>("1:::2", "::"), Err(scalar("1:::2", 0, 1)));
    assert_eq!(str_to_vector::<i32>("5aaa6", "aa"), Err(scalar("5aaa6", 0, 1)));
}

#[test]
fn str_to_vector_fails_on_the_first_field_that_is_no_number() {
    assert_eq!(str_to_vector::<i32>("1,,2", ","), Err(scalar("1,,2", 0, 1)));
    assert_eq!(str_to_vector::<i32>("1,2,", ","), Err(scalar("1,2,", 0, 2)));
    assert_eq!(str_to_vector::<i32>("x,y", ","), Err(scalar("x,y", 0, 0)));
    assert_eq!(str_to_vector::<i32>("", ","), Err(scalar("", 0, 0)));
    assert_eq!(str_to_vector::<u8>("1,256", ","), Err(scalar("1,256", 0, 1)));
}

#[test]
fn str_to_vector_with_an_empty_separator() {
    assert_eq!(str_to_vector::<i32>("12", ""), Err(scalar("12", 0, 0)));
    assert_eq!(str_to_vector::<String>("12", ""), Ok(vec![
        "".to_string(),
        "1".to_string(),
        "2".to_string(),
        "".to_string(),
    ]));
}

#[test]
fn str_to_vector_agrees_with_split_and_trim() {
    let cases = [
        ("a, b ,c", ","),
        ("a,,b,", ","),
        (",", ","),
        ("aaa", "aa"),
        ("abab", "ab"),
        ("xabyabz", "ab"),
        ("no separator", "|"),
        ("", "|"),
        ("ab", "abc"),
        ("\u{e9}t\u{e9} , \u{4e2d}", ","),
        ("one", ""),
        ("", ""),
        ("a,", ","),
        (",a", ","),
        ("aXXbXXXc", "XX"),
        ("abcabcabc", "abc"),
        ("ababa", "aba"),
        ("line one\nline two\n", "\n"),
    ];
    for (text, sep) in cases {
        let want: Vec<String> = text.split(sep).map(|piece| piece.trim().to_string()).collect();
        assert_eq!(str_to_vector::<String>(text, sep), Ok(want));
    }
}

#[test]
fn read_rows_lays_out_delimited_lines() {
    let rows = read_rows("x,y\n 1 , 2\n\n3\n", true, true);
    assert_eq!(rows, vec![row(1, " 1 , 2", &["1", "2"]), row(3, "3", &["3"])]);
}

#[test]
fn read_rows_lays_out_whole_lines() {
    let rows = read_rows(" 1,5 \n\n2\n", false, false);
    assert_eq!(rows, vec![row(0, " 1,5 ", &["1,5"]), row(2, "2", &["2"])]);
    assert_eq!(read_rows("", false, false), vec![]);
    assert_eq!(read_rows("only header", true, true), vec![]);
}

#[test]
fn parse_row_reads_every_field() {
    assert_eq!(parse_row::<f64>(&row(4, "1;2", &["1", "2"])), Ok(vec![1.0, 2.0]));
    assert_eq!(parse_row::<f64>(&row(4, "1;b;c", &["1", "b", "c"])), Err(scalar("1;b;c", 4, 1)));
    assert_eq!(parse_row::<f64>(&row(4, "", &[])), Ok(vec![]));
}

#[test]
fn collect_row_reports_the_first_failure() {
    let r = row(2, "line", &["a", "b", "c"]);
    assert_eq!(collect_row(&r, vec![Some(1), Some(2), Some(3)]), Ok(vec![1, 2, 3]));
    assert_eq!(collect_row(&r, vec![Some(1), None, None]), Err(scalar("line", 2, 1)));
    assert_eq!(collect_row(&r, vec![None, Some(2), Some(3)]), Err(scalar("line", 2, 0)));
    assert_eq!(collect_row::<i32>(&r, vec![]), Ok(vec![]));
}

#[test]
fn split_label_takes_one_column_out() {
    assert_eq!(split_label(vec![1, 2, 3], 0), (vec![2, 3], Some(1)));
    assert_eq!(split_label(vec![1, 2, 3], 2), (vec![1, 2], Some(3)));
    assert_eq!(split_label(vec![1, 2, 3], 3), (vec![1, 2, 3], None));
    assert_eq!(split_label(Vec::<i32>::new(), 0), (vec![], None));
}

#[test]
fn split_on_cuts_at_every_occurrence() {
    let text: Vec<char> = "a,b,,c".chars().collect();
    let pieces = st_core::text::split_on(&text, &vec![',']);
    let got: Vec<String> = pieces.iter().map(|p| p.iter().collect()).collect();
    assert_eq!(got, vec!["a", "b", "", "c"]);
}

#[test]
fn split_on_takes_occurrences_from_the_left() {
    let text: Vec<char> = "aaaa-aaa".chars().collect();
    let pieces = st_core::text::split_on(&text, &vec!['a', 'a']);
    let got: Vec<String> = pieces.iter().map(|p| p.iter().collect()).collect();
    assert_eq!(got, vec!["", "", "-", "a"]);
}

#[test]
fn split_on_an_empty_pattern_cuts_around_every_character() {
    let text: Vec<char> = "ab".chars().collect();
    let pieces = st_core::text::split_on(&text, &vec![]);
    assert_eq!(pieces, vec![vec![], vec!['a'], vec!['b'], vec![]]);
    assert_eq!(st_core::text::split_on(&vec![], &vec![]), vec![vec![], vec![]]);
    assert_eq!(st_core::text::split_on(&vec![], &vec!['x']), vec![Vec::<char>::new()]);
}

#[test]
fn trimmed_takes_whitespace_from_both_ends_only() {
    let text: Vec<char> = " \t a b \r\n".chars().collect();
    assert_eq!(st_core::text::trimmed(&text), vec!['a', ' ', 'b']);
    let blank: Vec<char> = " \u{3000} ".chars().collect();
    assert_eq!(st_core::text::trimmed(&blank), Vec::<char>::new());
    assert_eq!(st_core::text::trimmed(&vec!['x']), vec!['x']);
    assert_eq!(st_core::text::trimmed(&vec![]), Vec::<char>::new());
}

#[test]
fn chars_and_strings_hold_the_same_characters() {
    let text = "z\u{e9}\u{4e2d}\u{1f600} ";
    let chars = st_core::text::chars_of(text);
    assert_eq!(chars, text.chars().collect::<Vec<char>>());
    assert_eq!(st_core::text::string_of(&chars), text);
    assert_eq!(st_core::text::string_of(&vec![]), "");
}

#[test]
fn to_vector_keeps_the_order_of_the_lines() {
    assert_eq!(to_vector::<f64>("h\n1.5\n\n -2 \n", true), Ok(vec![1.5, -2.0]));
    assert_eq!(to_vector::<f64>("3\n1\n2\n", false), Ok(vec![3.0, 1.0, 2.0]));
}

#[test]
fn to_vector_passes_over_a_header_that_is_a_number() {
    assert_eq!(to_vector::<f64>("1\n2\n", true), Ok(vec![2.0]));
    assert_eq!(to_vector::<f64>("1\n2\n", false), Ok(vec![1.0, 2.0]));
}

#[test]
fn to_vector_blames_the_first_line_that_is_no_number() {
    assert_eq!(to_vector::<f64>("1\nabc\n3\n", false), Err(scalar("abc", 1, 0)));
    assert_eq!(to_vector::<f64>("1\nabc\ndef\n", false), Err(scalar("abc", 1, 0)));
}

#[test]
fn to_tuple_keeps_first_and_second_apart() {
    let (pairs, dropped) = to_tuple::<f32>("1,2\n3,4\n").unwrap();
    assert_eq!(pairs, vec![(1.0, 2.0), (3.0, 4.0)]);
    assert_eq!(dropped, vec![]);
}

#[test]
fn to_tuple_is_not_changed_by_a_dropped_line() {
    let plain = to_tuple::<f32>("0.5,1\n0.2,0\n").unwrap();
    let with_one = to_tuple::<f32>("0.5,1\n1,2,3\n0.2,0\n").unwrap();
    let with_word = to_tuple::<f32>("bad_row\n0.5,1\n0.2,0\n").unwrap();
    assert_eq!(plain.0, with_one.0);
    assert_eq!(plain.0, with_word.0);
    assert_eq!(with_one.1, vec![ParseError::MalformedRow { line: "1,2,3".to_string(), index: 1 }]);
}

#[test]
fn to_tuple_does_not_drop_a_pair_that_is_no_number() {
    assert_eq!(to_tuple::<f32>("0.5,1\nx,1\n"), Err(scalar("x,1", 1, 0)));
    assert_eq!(to_tuple::<f32>("0.5,1\nx,y\nz,1\n"), Err(scalar("x,y", 1, 0)));
}

#[test]
fn to_matrix_takes_the_label_of_ragged_rows() {
    let (xs, ys) = to_matrix::<f64>("1,2,3\n4,5\n", 1, false).unwrap();
    assert_eq!(xs, vec![vec![1.0, 3.0], vec![4.0]]);
    assert_eq!(ys, vec![2.0, 5.0]);
}

#[test]
fn to_matrix_with_a_column_beyond_every_row() {
    let (xs, ys) = to_matrix::<f64>("1,2\n3,4\n", 5, false).unwrap();
    assert_eq!(xs, vec![vec![1.0, 2.0], vec![3.0, 4.0]]);
    assert_eq!(ys, Vec::<f64>::new());
}

#[test]
fn to_matrix_blames_the_first_field_of_the_first_row_that_fails() {
    assert_eq!(to_matrix::<f64>("1,2\nx,y\nz,3\n", 0, false), Err(scalar("x,y", 1, 0)));
    assert_eq!(to_matrix::<f64>("1,2\n3,y,z\n", 1, false), Err(scalar("3,y,z", 1, 1)));
}

#[test]
fn collect_vector_gives_the_values_in_row_order() {
    let rows = vec![row(1, "a", &["a"]), row(3, "b", &["b"]), row(4, "c", &["c"])];
    assert_eq!(collect_vector(&rows, vec![Some(7), Some(5), Some(6)]), Ok(vec![7, 5, 6]));
    assert_eq!(collect_vector::<i32>(&vec![], vec![]), Ok(vec![]));
}

#[test]
fn collect_vector_reports_the_first_row_that_failed() {
    let rows = vec![row(1, "a", &["a"]), row(3, "b", &["b"]), row(4, "c", &["c"])];
    assert_eq!(collect_vector(&rows, vec![Some(7), None, None]), Err(scalar("b", 3, 0)));
    assert_eq!(collect_vector(&rows, vec![None, Some(5), Some(6)]), Err(scalar("a", 1, 0)));
    assert_eq!(collect_vector(&rows, vec![Some(7), Some(5), None]), Err(scalar("c", 4, 0)));
}

#[test]
fn collect_pairs_pairs_first_with_second_in_row_order() {
    let rows = vec![
        row(0, "a,b", &["a", "b"]),
        row(1, "c", &["c"]),
        row(4, "d,e", &["d", "e"]),
        row(5, "f,g,h", &["f", "g", "h"]),
    ];
    let parsed = vec![vec![Some(1), Some(2)], vec![], vec![Some(3), Some(4)], vec![None]];
    let (pairs, dropped) = collect_pairs(&rows, parsed).unwrap();
    assert_eq!(pairs, vec![(1, 2), (3, 4)]);
    assert_eq!(
        dropped,
        vec![
            ParseError::MalformedRow { line: "c".to_string(), index: 1 },
            ParseError::MalformedRow { line: "f,g,h".to_string(), index: 5 },
        ]
    );
    assert_eq!(collect_pairs::<i32>(&vec![], vec![]), Ok((vec![], vec![])));
}

#[test]
fn collect_pairs_reports_the_first_pair_that_failed() {
    let rows = vec![
        row(0, "a", &["a"]),
        row(2, "b,c", &["b", "c"]),
        row(3, "d,e", &["d", "e"]),
        row(4, "f,g", &["f", "g"]),
    ];
    let parsed = vec![vec![None], vec![Some(1), Some(2)], vec![Some(3), None], vec![None, None]];
    assert_eq!(collect_pairs(&rows, parsed), Err(scalar("d,e", 3, 1)));
    let parsed = vec![vec![], vec![None, None], vec![Some(3), Some(4)], vec![Some(5), Some(6)]];
    assert_eq!(collect_pairs(&rows, parsed), Err(scalar("b,c", 2, 0)));
}

#[test]
fn collect_matrix_holds_out_the_label_column() {
    let rows = vec![row(1, "a,b,c", &["a", "b", "c"]), row(2, "d", &["d"]), row(3, "e,f", &["e", "f"])];
    let parsed = || vec![vec![Some(1), Some(2), Some(3)], vec![Some(4)], vec![Some(5), Some(6)]];
    assert_eq!(
        collect_matrix(&rows, parsed(), 1),
        Ok((vec![vec![1, 3], vec![4], vec![5]], vec![2, 6]))
    );
    assert_eq!(
        collect_matrix(&rows, parsed(), 0),
        Ok((vec![vec![2, 3], vec![], vec![6]], vec![1, 4, 5]))
    );
    assert_eq!(
        collect_matrix(&rows, parsed(), 2),
        Ok((vec![vec![1, 2], vec![4], vec![5, 6]], vec![3]))
    );
    assert_eq!(
        collect_matrix(&rows, parsed(), 7),
        Ok((vec![vec![1, 2, 3], vec![4], vec![5, 6]], vec![]))
    );
    assert_eq!(collect_matrix::<i32>(&vec![], vec![], 0), Ok((vec![], vec![])));
}

#[test]
fn collect_matrix_reports_the_first_row_that_failed() {
    let rows = vec![row(1, "a,b,c", &["a", "b", "c"]), row(2, "d", &["d"]), row(3, "e,f", &["e", "f"])];
    let parsed = vec![vec![Some(1), Some(2), Some(3)], vec![None], vec![None, Some(6)]];
    assert_eq!(collect_matrix(&rows, parsed, 1), Err(scalar("d", 2, 0)));
    let parsed = vec![vec![Some(1), None, None], vec![None], vec![Some(5), Some(6)]];
    assert_eq!(collect_matrix(&rows, parsed, 1), Err(scalar("a,b,c", 1, 1)));
}
