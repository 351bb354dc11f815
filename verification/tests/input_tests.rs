use assignments::error::InputError;
use assignments::input::{parse_choice, parse_row, parse_rows};
use assignments::prefs::Agent;
use assignments::table::parse_table;

fn fields(row: &[&str]) -> Vec<String> {
    row.iter().map(|f| f.to_string()).collect()
}

#[test]
fn parses_decimal_numbers() {
    assert_eq!(parse_choice("0"), Some(0));
    assert_eq!(parse_choice("7"), Some(7));
    assert_eq!(parse_choice("42"), Some(42));
    assert_eq!(parse_choice("007"), Some(7));
    assert_eq!(parse_choice("+15"), Some(15));
    assert_eq!(parse_choice("18446744073709551615"), "18446744073709551615".parse::<usize>().ok());
}

#[test]
fn refuses_what_is_not_a_number() {
    for s in ["", "+", "-", "-1", "++1", "1+", " 1", "1 ", "1.5", "0x10", "a", "1a", "１", "1_000", "²", "+é"] {
        assert_eq!(parse_choice(s), None);
    }
}

#[test]
fn refuses_numbers_that_do_not_fit() {
    assert_eq!(parse_choice("18446744073709551616"), "18446744073709551616".parse::<usize>().ok());
    assert_eq!(parse_choice("99999999999999999999999999"), None);
    assert_eq!(parse_choice("184467440737095516150"), None);
}

#[test]
fn parse_choice_agrees_with_the_standard_parser() {
    let samples = [
        "", "0", "1", "9", "10", "+0", "+", "-0", "00", "+00012", "12+", "٣", "1e3", "4294967295",
        "4294967296", "18446744073709551615", "18446744073709551616", "018446744073709551615",
        "+18446744073709551615", "28446744073709551615", " 7", "7\n", "\t", "+-1", "0b1",
    ];
    for s in samples {
        assert_eq!(parse_choice(s), s.parse::<usize>().ok());
    }
}

#[test]
fn parses_a_row() {
    assert_eq!(
        parse_row(&fields(&["Alice", "1", "2"]), 0),
        Ok(Agent { name: "Alice".to_string(), choices: vec![1, 2] })
    );
    assert_eq!(
        parse_row(&fields(&["Bob"]), 5),
        Ok(Agent { name: "Bob".to_string(), choices: vec![] })
    );
    assert_eq!(
        parse_row(&fields(&[" ", "3"]), 5),
        Ok(Agent { name: " ".to_string(), choices: vec![3] })
    );
}

#[test]
fn row_with_an_empty_name_field_has_no_name() {
    assert_eq!(parse_row(&fields(&["", "3"]), 5), Err(InputError::MissingName { row: 5 }));
    assert_eq!(parse_row(&fields(&["", "1", "2"]), 0), Err(InputError::MissingName { row: 0 }));
    assert_eq!(parse_row(&fields(&[""]), 7), Err(InputError::MissingName { row: 7 }));
}

#[test]
fn the_name_is_judged_before_the_choices() {
    assert_eq!(parse_row(&fields(&["", "x"]), 2), Err(InputError::MissingName { row: 2 }));
    assert_eq!(parse_row(&fields(&["", "1", ""]), 2), Err(InputError::MissingName { row: 2 }));
}

#[test]
fn row_without_fields_has_no_name() {
    assert_eq!(parse_row(&Vec::new(), 3), Err(InputError::MissingName { row: 3 }));
}

#[test]
fn row_with_a_bad_choice_names_the_first_bad_field() {
    assert_eq!(
        parse_row(&fields(&["Alice", "1", "x", "y"]), 2),
        Err(InputError::BadChoice { row: 2, field: 2 })
    );
    assert_eq!(
        parse_row(&fields(&["Alice", ""]), 0),
        Err(InputError::BadChoice { row: 0, field: 1 })
    );
}

#[test]
fn parses_a_table() {
    let rows = vec![fields(&["Alice", "1", "2"]), fields(&["Bob", "2", "1"]), fields(&["Carol"])];
    assert_eq!(
        parse_rows(&rows),
        Ok(vec![
            Agent { name: "Alice".to_string(), choices: vec![1, 2] },
            Agent { name: "Bob".to_string(), choices: vec![2, 1] },
            Agent { name: "Carol".to_string(), choices: vec![] },
        ])
    );
    assert_eq!(parse_rows(&Vec::new()), Ok(Vec::new()));
}

#[test]
fn table_fails_at_its_first_bad_row() {
    let rows = vec![fields(&["Alice", "1"]), fields(&["Bob", "1", "two"]), Vec::new()];
    assert_eq!(parse_rows(&rows), Err(InputError::BadChoice { row: 1, field: 2 }));
    let rows = vec![fields(&["Alice", "1"]), Vec::new(), fields(&["Bob", "two"])];
    assert_eq!(parse_rows(&rows), Err(InputError::MissingName { row: 1 }));
    let rows = vec![fields(&["Alice", "1"]), fields(&["Bob"]), fields(&["", "2"])];
    assert_eq!(parse_rows(&rows), Err(InputError::MissingName { row: 2 }));
}

#[test]
fn reads_a_table_of_two_agents() {
    assert_eq!(
        parse_table(b"Alice,1,2\nBob,2,1\n"),
        Ok(vec![
            Agent { name: "Alice".to_string(), choices: vec![1, 2] },
            Agent { name: "Bob".to_string(), choices: vec![2, 1] },
        ])
    );
}

#[test]
fn table_rows_may_differ_in_length_and_there_is_no_header() {
    assert_eq!(
        parse_table(b"Alice,3\r\nBob\r\nCarol,1,2,3"),
        Ok(vec![
            Agent { name: "Alice".to_string(), choices: vec![3] },
            Agent { name: "Bob".to_string(), choices: vec![] },
            Agent { name: "Carol".to_string(), choices: vec![1, 2, 3] },
        ])
    );
}

#[test]
fn table_fields_may_be_quoted() {
    assert_eq!(
        parse_table(b"\"Doe, Jane\",2,\"1\"\n\"say \"\"hi\"\"\",+3\n"),
        Ok(vec![
            Agent { name: "Doe, Jane".to_string(), choices: vec![2, 1] },
            Agent { name: "say \"hi\"".to_string(), choices: vec![3] },
        ])
    );
}

#[test]
fn empty_table_has_no_agents() {
    assert_eq!(parse_table(b""), Ok(Vec::new()));
    assert_eq!(parse_table(b"\n\n"), Ok(Vec::new()));
}

#[test]
fn table_with_a_bad_choice_names_row_and_field() {
    assert_eq!(
        parse_table(b"Alice,1,2\nBob,2,x\nCarol,y\n"),
        Err(InputError::BadChoice { row: 1, field: 2 })
    );
    assert_eq!(parse_table(b"Alice, 1\n"), Err(InputError::BadChoice { row: 0, field: 1 }));
    assert_eq!(parse_table(b"Alice,1,\n"), Err(InputError::BadChoice { row: 0, field: 2 }));
}

#[test]
fn table_row_with_an_empty_name_has_no_name() {
    assert_eq!(parse_table(b",1,2\n"), Err(InputError::MissingName { row: 0 }));
    assert_eq!(parse_table(b"Alice,1\n\"\",2\n"), Err(InputError::MissingName { row: 1 }));
    assert_eq!(parse_table(b"Alice,1\n,x\n"), Err(InputError::MissingName { row: 1 }));
}

#[test]
fn a_bad_row_is_reported_before_a_later_reading_error() {
    assert_eq!(
        parse_table(b"Alice,x\nB\xffb,2\n"),
        Err(InputError::BadChoice { row: 0, field: 1 })
    );
    assert_eq!(parse_table(b",1\nB\xffb,2\n"), Err(InputError::MissingName { row: 0 }));
}

#[test]
fn a_reading_error_is_reported_before_a_later_bad_row() {
    match parse_table(b"Alice,1\nB\xffb,2\nCarol,x\n") {
        Err(InputError::Malformed { message }) => assert!(!message.is_empty()),
        other => panic!("not refused as malformed: {:?}", other),
    }
}

#[test]
fn table_that_is_not_text_is_malformed() {
    match parse_table(b"Alice,1\nB\xffb,2\n") {
        Err(InputError::Malformed { message }) => assert!(!message.is_empty()),
        other => panic!("not refused as malformed: {:?}", other),
    }
}
