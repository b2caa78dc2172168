use ypbank_parser::error::{DumpError, ParseError};
use ypbank_parser::text_format::{dump_txw_as_text, TxWrapper};
use ypbank_parser::types::{Transaction, TxStatus, TxType};
use ypbank_parser::utils::{parse_quoted_field, wrap_with_quotes};
use ypbank_parser::{dump_as_text, parse_from_text};

#[test]
fn test_parse_one_valid_transaction() {
    let input = r##"TX_ID: 123
                           TX_TYPE: DEPOSIT
                           FROM_USER_ID: 0
                           TO_USER_ID: 9876543210987654
                           AMOUNT: 10000
                           TIMESTAMP: 1633036800000
                           STATUS: SUCCESS
                           DESCRIPTION: "Terminal deposit""##;

    let expected = Transaction {
        id: 123,
        kind: ypbank_parser::types::TxType::Deposit,
        from_user: 0,
        to_user: 9876543210987654,
        amount: 10000,
        timestamp: 1633036800000,
        status: TxStatus::Success,
        description: "Terminal deposit".to_string(),
    };

    let got = parse_from_text(input.as_bytes());

    assert!(got.as_ref().err().is_none());

    let txs = got.as_ref().unwrap();
    assert_eq!(txs.len(), 1);

    assert_eq!(expected, txs[0]);
}

#[test]
fn test_dump_validtransaction() {
    let input: Vec<Transaction> = vec![Transaction {
        id: 123,
        kind: TxType::Deposit,
        from_user: 0,
        to_user: 9876543210987654,
        amount: 10000,
        timestamp: 1633036800000,
        status: TxStatus::Success,
        description: "Terminal deposit".to_string(),
    }];

    let mut got = Vec::new();

    let res = dump_as_text(&mut got, &input);

    assert!(res.as_ref().err().is_none());

    validate(&String::from_utf8_lossy(&got));
}

fn validate(got: &str) {
    let expected = vec![
        "TX_ID: 123",
        "TX_TYPE: DEPOSIT",
        "FROM_USER_ID: 0",
        "TO_USER_ID: 9876543210987654",
        "AMOUNT: 10000",
        "TIMESTAMP: 1633036800000",
        "STATUS: SUCCESS",
        "DESCRIPTION: \"Terminal deposit\"",
    ];

    for ex in expected {
        assert!(got.contains(ex));
    }
}

#[test]
fn test_duplicate_field() {
    let input = r##"TX_ID: 123
                           TX_TYPE: DEPOSIT
                           FROM_USER_ID: 0
                           TO_USER_ID: 9876543210987654
                           AMOUNT: 10000
                           TIMESTAMP: 1633036800000
                           STATUS: SUCCESS
                           DESCRIPTION: "Terminal deposit"
                           DESCRIPTION: "Duplicate field""##;

    let got = parse_from_text(input.as_bytes());

    assert!(got.is_err());
}

const RECORD: &str = "TX_ID: 123\nTX_TYPE: DEPOSIT\nFROM_USER_ID: 0\nTO_USER_ID: 9876543210987654\nAMOUNT: 10000\nTIMESTAMP: 1633036800000\nSTATUS: SUCCESS\nDESCRIPTION: \"Terminal deposit\"\n";

fn terminal_deposit() -> Transaction {
    Transaction {
        id: 123,
        kind: TxType::Deposit,
        from_user: 0,
        to_user: 9876543210987654,
        amount: 10000,
        timestamp: 1633036800000,
        status: TxStatus::Success,
        description: "Terminal deposit".to_string(),
    }
}

fn invalid_format(got: Result<Vec<Transaction>, ParseError>) -> String {
    match got {
        Err(ParseError::InvalidFormat(msg)) => msg,
        other => panic!("expected a format violation, got {:?}", other),
    }
}

fn chars(s: &str) -> Vec<char> {
    s.chars().collect()
}

#[test]
fn text_dump_is_exact() {
    let mut out = Vec::new();
    assert_eq!(dump_as_text(&mut out, &[terminal_deposit()]), Ok::<(), DumpError>(()));
    assert_eq!(String::from_utf8(out).unwrap(), RECORD);
    let mut out = Vec::new();
    assert!(dump_as_text(&mut out, &[terminal_deposit(), terminal_deposit()]).is_ok());
    assert_eq!(String::from_utf8(out).unwrap(), format!("{}\n{}", RECORD, RECORD));
    let mut out = Vec::new();
    assert!(dump_as_text(&mut out, &[]).is_ok());
    assert!(out.is_empty());
}

#[test]
fn text_status_twice_is_rejected() {
    let input = format!("{}STATUS: SUCCESS\n", RECORD);
    assert_eq!(invalid_format(parse_from_text(input.as_bytes())), "duplicate field STATUS");
    let input = "STATUS: SUCCESS\nSTATUS: SUCCESS\n";
    assert_eq!(invalid_format(parse_from_text(input.as_bytes())), "duplicate field STATUS");
}

#[test]
fn text_unknown_key_is_rejected() {
    let input = format!("{}FOO: 1\n", RECORD);
    assert_eq!(invalid_format(parse_from_text(input.as_bytes())), "unknown field FOO");
    assert_eq!(invalid_format(parse_from_text(b"FOO: 1")), "unknown field FOO");
    assert_eq!(invalid_format(parse_from_text(b"tx_id: 1")), "unknown field tx_id");
}

#[test]
fn text_line_needs_a_colon() {
    assert_eq!(invalid_format(parse_from_text(b"TX_ID 1")), "invalid field format");
}

#[test]
fn text_incomplete_record_is_an_error() {
    let input = "TX_ID: 1\nTX_TYPE: DEPOSIT\n\n";
    assert_eq!(invalid_format(parse_from_text(input.as_bytes())), "missing field FROM_USER_ID");
    let input = RECORD.replace("TX_ID: 123\n", "");
    assert_eq!(invalid_format(parse_from_text(input.as_bytes())), "missing field TX_ID");
}

#[test]
fn text_blank_lines_divide_records() {
    let input = format!("\n\n{}\n   \n{}\n\n", RECORD, RECORD.replace("123", "124"));
    let got = parse_from_text(input.as_bytes()).unwrap();
    let mut second = terminal_deposit();
    second.id = 124;
    assert_eq!(got, vec![terminal_deposit(), second]);
    assert_eq!(parse_from_text(b"").unwrap(), vec![]);
    assert_eq!(parse_from_text(b"\n \n").unwrap(), vec![]);
}

#[test]
fn text_keys_in_any_order_and_colons_in_values() {
    let input = "DESCRIPTION: at 10:30: \"done\"\nSTATUS:PENDING\nTIMESTAMP: 6\nAMOUNT: 5\nTO_USER_ID: 4\nFROM_USER_ID: 3\nTX_TYPE: TRANSFER\nTX_ID: 2";
    let got = parse_from_text(input.as_bytes()).unwrap();
    assert_eq!(
        got,
        vec![Transaction {
            id: 2,
            kind: TxType::Transfer,
            from_user: 3,
            to_user: 4,
            amount: 5,
            timestamp: 6,
            status: TxStatus::Pending,
            description: "at 10:30: \"done\"".to_string(),
        }]
    );
}

#[test]
fn text_number_and_name_errors() {
    let input = RECORD.replace("AMOUNT: 10000", "AMOUNT: ten");
    assert_eq!(invalid_format(parse_from_text(input.as_bytes())), "invalid digit found in string");
    let input = RECORD.replace("AMOUNT: 10000", "AMOUNT:");
    assert_eq!(
        invalid_format(parse_from_text(input.as_bytes())),
        "cannot parse integer from empty string"
    );
    let input = RECORD.replace("DEPOSIT", "Deposit");
    assert_eq!(invalid_format(parse_from_text(input.as_bytes())), "unknown tx type");
    let input = RECORD.replace("SUCCESS", "OK");
    assert_eq!(invalid_format(parse_from_text(input.as_bytes())), "unknown tx status");
}

#[test]
fn text_line_that_is_not_utf8_is_an_io_failure() {
    match parse_from_text(b"TX_ID: \xc3\x28\n") {
        Err(ParseError::IOError(msg)) => assert_eq!(msg, "stream did not contain valid UTF-8"),
        other => panic!("expected an I/O failure, got {:?}", other),
    }
}

#[test]
fn text_quotes_around_a_value() {
    assert_eq!(parse_quoted_field(&chars("  \"a b\"  ")), "a b");
    assert_eq!(parse_quoted_field(&chars(" plain ")), "plain");
    assert_eq!(parse_quoted_field(&chars("\"")), "\"");
    assert_eq!(parse_quoted_field(&chars("\"\"")), "");
    assert_eq!(parse_quoted_field(&chars("\u{a0}\"x\"\u{3000}")), "x");
    assert_eq!(wrap_with_quotes("a\"b"), "\"a\"b\"");
}

#[test]
fn text_record_without_a_field_cannot_be_written() {
    let mut txw = TxWrapper::new();
    assert!(!txw.is_valid());
    assert!(txw.is_empty());
    txw.apply_field(&chars("TX_ID"), &chars("5")).unwrap();
    txw.apply_field(&chars("TX_TYPE"), &chars("DEPOSIT")).unwrap();
    assert!(txw.apply_field(&chars("TX_ID"), &chars("6")).is_err());
    assert_eq!(txw.missing_field(), 2);
    let mut out = Vec::new();
    assert_eq!(dump_txw_as_text(&txw, &mut out), Err(DumpError::InternalError));
    assert_eq!(String::from_utf8(out).unwrap(), "TX_ID: 5\nTX_TYPE: DEPOSIT\n");
    let full = TxWrapper::from_tx(&terminal_deposit());
    assert!(full.is_valid());
    assert_eq!(full.build().unwrap(), terminal_deposit());
}

#[test]
fn text_round_trip() {
    let txs = vec![
        Transaction {
            id: u64::MAX,
            kind: TxType::Withdrawal,
            from_user: 1,
            to_user: 2,
            amount: 3,
            timestamp: 4,
            status: TxStatus::Failure,
            description: "  a: \"b\", c \u{1F600} ".to_string(),
        },
        terminal_deposit(),
        Transaction {
            id: 0,
            kind: TxType::Transfer,
            from_user: 0,
            to_user: 0,
            amount: 0,
            timestamp: 0,
            status: TxStatus::Pending,
            description: String::new(),
        },
    ];
    let mut out = Vec::new();
    assert!(dump_as_text(&mut out, &txs).is_ok());
    assert_eq!(parse_from_text(&out).unwrap(), txs);
}
