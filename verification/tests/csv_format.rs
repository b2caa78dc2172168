use ypbank_parser::csv_format::{make_escaped_string, parse_csv_line, parse_transaction};
use ypbank_parser::error::ParseError;
use ypbank_parser::types::{Transaction, TxStatus, TxType};
use ypbank_parser::{dump_as_csv, parse_from_csv};

#[test]
fn test_parse() {
    let input = r##"
        TX_ID,TX_TYPE,FROM_USER_ID,TO_USER_ID,AMOUNT,TIMESTAMP,STATUS,DESCRIPTION
        1001,DEPOSIT,0,501,50000,1672531200000,SUCCESS,"String, with ""comma and quotes"""
        1002,WITHDRAWAL,0,501,50000,1672531200000,FAILURE,"simple string"
        "##;

    let expected = &[
        Transaction {
            id: 1001,
            kind: TxType::Deposit,
            from_user: 0,
            to_user: 501,
            amount: 50000,
            timestamp: 1672531200000,
            status: TxStatus::Success,
            description: r##"String, with "comma and quotes""##.to_string(),
        },
        Transaction {
            id: 1002,
            kind: TxType::Withdrawal,
            from_user: 0,
            to_user: 501,
            amount: 50000,
            timestamp: 1672531200000,
            status: TxStatus::Failure,
            description: r##"simple string"##.to_string(),
        },
    ];

    let got = parse_from_csv(input.as_bytes());

    assert!(got.is_ok());

    let txs = got.as_ref().unwrap();

    assert_eq!(txs.len(), 2);
    assert_eq!(txs, expected);
}

#[test]
fn test_parse_mailformed() {
    let input = r##"
        TX_ID,TX_TYPE,FROM_USER_ID,TO_USER_ID,AMOUNT,TIMESTAMP,STATUS,DESCRIPTION
        1001,DEPOSIT,0,501,50000,1672531200000,SUCCESS
        "##;

    let got = parse_from_csv(input.as_bytes());

    assert!(got.is_err());
}

#[test]
fn test_parse_string() {
    let input = r##"
        TX_ID,TX_TYPE,FROM_USER_ID,TO_USER_ID,AMOUNT,TIMESTAMP,STATUS,DESCRIPTION
        1001,DEPOSIT,0,501,50000,1672531200000,SUCCESS,"String with ""quotes"""
        "##;

    let expected_description = r##"String with "quotes""##.to_string();

    let got = parse_from_csv(input.as_bytes());

    assert!(got.is_ok());

    let txs = got.as_ref().unwrap();

    assert_eq!(txs.len(), 1);
    assert_eq!(txs[0].description, expected_description);
}

#[test]
fn test_parse_mailformed_string() {
    let input = r##"
        TX_ID,TX_TYPE,FROM_USER_ID,TO_USER_ID,AMOUNT,TIMESTAMP,STATUS,DESCRIPTION
        1001,DEPOSIT,0,501,50000,1672531200000,SUCCESS,"String with unclosed quotes
        "##;

    let got = parse_from_csv(input.as_bytes());

    assert!(got.is_err());
}

#[test]
fn test_escaped_string() {
    let input = r##"String with "quotes" and , commas"##;
    let expected = r##"String with ""quotes"" and , commas"##.to_string();
    let got = make_escaped_string(input);
    assert_eq!(got, expected);
}

#[test]
fn test_dump_transaction() {
    let txs = vec![
        Transaction {
            id: 1001,
            kind: TxType::Deposit,
            from_user: 1001,
            to_user: 1001,
            amount: 1001,
            timestamp: 1633036800000,
            status: TxStatus::Success,
            description: "Description".to_string(),
        },
        Transaction {
            id: 1002,
            kind: TxType::Deposit,
            from_user: 1001,
            to_user: 1001,
            amount: 1001,
            timestamp: 1633036800000,
            status: TxStatus::Success,
            description: r##"Description with, comma and "quotes""##.to_string(),
        },
    ];
    let mut buffer = Vec::new();

    let dump_result = dump_as_csv(&mut buffer, &txs);
    assert!(dump_result.is_ok());

    let result_string = String::from_utf8(buffer).expect("Невалидный UTF-8");
    assert!(
        result_string
            .contains(r##"1001,DEPOSIT,1001,1001,1001,1633036800000,SUCCESS,"Description""##)
    );

    let lines: Vec<&str> = result_string.lines().collect();

    assert_eq!(
        lines[0],
        "TX_ID,TX_TYPE,FROM_USER_ID,TO_USER_ID,AMOUNT,TIMESTAMP,STATUS,DESCRIPTION",
    );
    assert_eq!(
        lines[1],
        "1001,DEPOSIT,1001,1001,1001,1633036800000,SUCCESS,\"Description\"",
    );
    assert_eq!(
        lines[2],
        "1002,DEPOSIT,1001,1001,1001,1633036800000,SUCCESS,\"Description with, comma and \"\"quotes\"\"\"",
    );
}

const HEADER: &str = "TX_ID,TX_TYPE,FROM_USER_ID,TO_USER_ID,AMOUNT,TIMESTAMP,STATUS,DESCRIPTION";

fn invalid_format(got: Result<Vec<Transaction>, ParseError>) -> String {
    match got {
        Err(ParseError::InvalidFormat(msg)) => msg,
        other => panic!("expected a format violation, got {:?}", other),
    }
}

fn chars(s: &str) -> Vec<char> {
    s.chars().collect()
}

fn fields(line: &str) -> Vec<String> {
    parse_csv_line(&chars(line)).unwrap().iter().map(|f| f.iter().collect()).collect()
}

#[test]
fn csv_initial_account_funding() {
    let input = "TX_ID,TX_TYPE,FROM_USER_ID,TO_USER_ID,AMOUNT,TIMESTAMP,STATUS,DESCRIPTION\n1001,DEPOSIT,0,501,50000,1672531200000,SUCCESS,\"Initial account funding\"";
    let got = parse_from_csv(input.as_bytes()).unwrap();
    assert_eq!(
        got,
        vec![Transaction {
            id: 1001,
            kind: TxType::Deposit,
            from_user: 0,
            to_user: 501,
            amount: 50000,
            timestamp: 1672531200000,
            status: TxStatus::Success,
            description: "Initial account funding".to_string(),
        }]
    );
}

#[test]
fn csv_quoted_field_with_comma_and_doubled_quote() {
    assert_eq!(fields(r##""a,b""c""##), vec![r##"a,b"c"##.to_string()]);
    assert_eq!(fields("a,b"), vec!["a".to_string(), "b".to_string()]);
    assert_eq!(fields(" a , \" b \" ,"), vec!["a".to_string(), " b ".to_string(), String::new()]);
    assert_eq!(fields("  \"x\"  "), vec!["x".to_string()]);
    assert_eq!(fields(" a \" b \" c "), vec!["a  b  c".to_string()]);
    assert_eq!(fields(" \"\" ,\" \""), vec![String::new(), " ".to_string()]);
    assert_eq!(fields("\t p q \u{a0},"), vec!["p q".to_string(), String::new()]);
    let line = format!("1,DEPOSIT,2,3,4,5,PENDING,{}", r##""a,b""c""##);
    let tx = parse_transaction(&chars(&line)).unwrap();
    assert_eq!(tx.description, r##"a,b"c"##);
    assert_eq!(tx.status, TxStatus::Pending);
}

#[test]
fn csv_unterminated_quote_is_rejected() {
    assert!(parse_csv_line(&chars("\"abc")).is_err());
    let input = format!("{}\n1,DEPOSIT,2,3,4,5,PENDING,\"abc", HEADER);
    assert_eq!(invalid_format(parse_from_csv(input.as_bytes())), "unclosed quotes in CSV line");
}

#[test]
fn csv_header_must_be_exact() {
    let reordered = "TX_TYPE,TX_ID,FROM_USER_ID,TO_USER_ID,AMOUNT,TIMESTAMP,STATUS,DESCRIPTION\n";
    assert_eq!(invalid_format(parse_from_csv(reordered.as_bytes())), "invalid header");
    let renamed = "ID,TX_TYPE,FROM_USER_ID,TO_USER_ID,AMOUNT,TIMESTAMP,STATUS,DESCRIPTION\n";
    assert_eq!(invalid_format(parse_from_csv(renamed.as_bytes())), "invalid header");
    let extra = format!("{},EXTRA\n", HEADER);
    assert_eq!(invalid_format(parse_from_csv(extra.as_bytes())), "invalid header");
    let missing = "TX_ID,TX_TYPE,FROM_USER_ID,TO_USER_ID,AMOUNT,TIMESTAMP,STATUS\n";
    assert_eq!(invalid_format(parse_from_csv(missing.as_bytes())), "invalid header");
    let lower = HEADER.to_lowercase();
    assert_eq!(invalid_format(parse_from_csv(lower.as_bytes())), "invalid header");
    assert_eq!(invalid_format(parse_from_csv(b"")), "invalid header");
    assert_eq!(invalid_format(parse_from_csv(b"\n  \n")), "invalid header");
}

#[test]
fn csv_field_count_message() {
    let input = format!("{}\n1001,DEPOSIT,0,501,50000,1672531200000,SUCCESS", HEADER);
    assert_eq!(invalid_format(parse_from_csv(input.as_bytes())), "invalid fields count: 7");
    let input = format!("{}\n1,2,3,4,5,6,7,8,9,10,11,12", HEADER);
    assert_eq!(invalid_format(parse_from_csv(input.as_bytes())), "invalid fields count: 12");
}

#[test]
fn csv_number_errors_carry_the_reason() {
    let line = |id: &str| format!("{}\n{},DEPOSIT,0,501,5,6,SUCCESS,\"d\"", HEADER, id);
    assert_eq!(
        invalid_format(parse_from_csv(line("").as_bytes())),
        "cannot parse integer from empty string"
    );
    assert_eq!(
        invalid_format(parse_from_csv(line("12x").as_bytes())),
        "invalid digit found in string"
    );
    assert_eq!(
        invalid_format(parse_from_csv(line("-1").as_bytes())),
        "invalid digit found in string"
    );
    assert_eq!(
        invalid_format(parse_from_csv(line("+").as_bytes())),
        "invalid digit found in string"
    );
    assert_eq!(
        invalid_format(parse_from_csv(line("18446744073709551616").as_bytes())),
        "number too large to fit in target type"
    );
    let got = parse_from_csv(line("18446744073709551615").as_bytes()).unwrap();
    assert_eq!(got[0].id, u64::MAX);
    let got = parse_from_csv(line("+007").as_bytes()).unwrap();
    assert_eq!(got[0].id, 7);
}

#[test]
fn csv_names_are_case_sensitive() {
    let input = format!("{}\n1,deposit,0,501,5,6,SUCCESS,\"d\"", HEADER);
    assert_eq!(invalid_format(parse_from_csv(input.as_bytes())), "unknown tx type");
    let input = format!("{}\n1,TRANSFER,0,501,5,6,Done,\"d\"", HEADER);
    assert_eq!(invalid_format(parse_from_csv(input.as_bytes())), "unknown tx status");
}

#[test]
fn csv_line_that_is_not_utf8_is_an_io_failure() {
    let mut input = format!("{}\n", HEADER).into_bytes();
    input.extend_from_slice(b"1,DEPOSIT,0,501,5,6,SUCCESS,\"\xff\"\n");
    match parse_from_csv(&input) {
        Err(ParseError::IOError(msg)) => assert_eq!(msg, "stream did not contain valid UTF-8"),
        other => panic!("expected an I/O failure, got {:?}", other),
    }
}

#[test]
fn csv_empty_list_is_the_header_alone() {
    let mut out = Vec::new();
    assert!(dump_as_csv(&mut out, &[]).is_ok());
    assert_eq!(out, format!("{}\n", HEADER).into_bytes());
    assert_eq!(parse_from_csv(&out).unwrap(), vec![]);
}

#[test]
fn csv_round_trip() {
    let txs = vec![
        Transaction {
            id: 0,
            kind: TxType::Transfer,
            from_user: u64::MAX,
            to_user: 10,
            amount: 1234567890123456789,
            timestamp: 9,
            status: TxStatus::Failure,
            description: "  a,b\"c\": \u{431}\u{430}\u{43d}\u{43a} \u{1F600}\t".to_string(),
        },
        Transaction {
            id: 7,
            kind: TxType::Withdrawal,
            from_user: 0,
            to_user: 0,
            amount: 0,
            timestamp: 0,
            status: TxStatus::Pending,
            description: String::new(),
        },
        Transaction {
            id: 8,
            kind: TxType::Deposit,
            from_user: 1,
            to_user: 2,
            amount: 3,
            timestamp: 4,
            status: TxStatus::Success,
            description: "\"\"".to_string(),
        },
    ];
    let mut out = Vec::new();
    assert!(dump_as_csv(&mut out, &txs).is_ok());
    assert_eq!(parse_from_csv(&out).unwrap(), txs);
}
