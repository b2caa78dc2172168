use ypbank_parser::bin_format::{calculate_size, dump_tx, sizeof_tx, tx_to_bin, Header};
use ypbank_parser::error::{DumpError, ParseError};
use ypbank_parser::types::{Transaction, TxStatus, TxType};
use ypbank_parser::{dump_as_bin, parse_from_bin};

fn sample() -> Transaction {
    Transaction {
        id: 1001,
        kind: TxType::Deposit,
        from_user: 1001,
        to_user: 0,
        amount: 1001,
        timestamp: 1001,
        status: TxStatus::Success,
        description: "test".to_string(),
    }
}

fn sample_record() -> Vec<u8> {
    vec![
        0x59, 0x50, 0x42, 0x4e,
        0x00, 0x00, 0x00, 0x32,
        0x00, 0x00, 0x00, 0x00, 0x00, 0x00, 0x03, 0xe9,
        0x00,
        0x00, 0x00, 0x00, 0x00, 0x00, 0x00, 0x03, 0xe9,
        0x00, 0x00, 0x00, 0x00, 0x00, 0x00, 0x00, 0x00,
        0x00, 0x00, 0x00, 0x00, 0x00, 0x00, 0x03, 0xe9,
        0x00, 0x00, 0x00, 0x00, 0x00, 0x00, 0x03, 0xe9,
        0x00,
        0x00, 0x00, 0x00, 0x04,
        0x74, 0x65, 0x73, 0x74,
    ]
}

#[test]
fn test_dump_header() {
    let header = Header::new(10);

    let expected_bytes: [u8; 8] = [
        0x59, 0x50, 0x42, 0x4e,
        0x00, 0x00, 0x00, 0x0A
    ];

    let got = header.dump();

    assert_eq!(got.len(), 8);

    assert_eq!(&expected_bytes[..], &got[..]);
}

#[test]
fn test_dump_tx() {
    let tx = Transaction {
        id: 1001,
        kind: TxType::Deposit,
        from_user: 1001,
        to_user: 0,
        amount: 1001,
        timestamp: 1001,
        status: TxStatus::Success,
        description: "test".to_string(),
    };

    let expected: [u8; 50] = [
        0x00, 0x00, 0x00, 0x00, 0x00, 0x00, 0x03, 0xe9,
        0x00,
        0x00, 0x00, 0x00, 0x00, 0x00, 0x00, 0x03, 0xe9,
        0x00, 0x00, 0x00, 0x00, 0x00, 0x00, 0x00, 0x00,
        0x00, 0x00, 0x00, 0x00, 0x00, 0x00, 0x03, 0xe9,
        0x00, 0x00, 0x00, 0x00, 0x00, 0x00, 0x03, 0xe9,
        0x00,
        0x00, 0x00, 0x00, 0x04,
        0x74, 0x65, 0x73, 0x74,
    ];

    let got = dump_tx(&tx);

    assert_eq!(expected[..], got[..]);
}

#[test]
fn test_calculate_size() {
    let tx = Transaction {
        id: 1001,
        kind: TxType::Deposit,
        from_user: 1001,
        to_user: 0,
        amount: 1001,
        timestamp: 1001,
        status: TxStatus::Success,
        description: "test".to_string(),
    };

    let expected = 50;

    let got = calculate_size(&tx);

    assert_eq!(expected, got);
}

#[test]
fn test_parse_from_bin() {
    let data: &[u8] = &[
        0x59, 0x50, 0x42, 0x4e,
        0x00, 0x00, 0x00, 0x32,
        0x00, 0x00, 0x00, 0x00, 0x00, 0x00, 0x03, 0xe9,
        0x00,
        0x00, 0x00, 0x00, 0x00, 0x00, 0x00, 0x03, 0xe9,
        0x00, 0x00, 0x00, 0x00, 0x00, 0x00, 0x00, 0x00,
        0x00, 0x00, 0x00, 0x00, 0x00, 0x00, 0x03, 0xe9,
        0x00, 0x00, 0x00, 0x00, 0x00, 0x00, 0x03, 0xe9,
        0x00,
        0x00, 0x00, 0x00, 0x04,
        0x74, 0x65, 0x73, 0x74,
    ];

    let expected = Transaction {
        id: 1001,
        kind: TxType::Deposit,
        from_user: 1001,
        to_user: 0,
        amount: 1001,
        timestamp: 1001,
        status: TxStatus::Success,
        description: "test".to_string(),
    };

    let got = parse_from_bin(data);

    assert!(got.is_ok());
    assert_eq!(got.as_ref().unwrap().len(), 1);
    assert_eq!(expected, got.as_ref().unwrap()[0]);
}

#[test]
fn test_parse_mailformed_record() {
    let data: &[u8] = &[
        0x59, 0x50, 0x42, 0x4e,
        0x00, 0x00, 0x00, 0x10,
        0x00, 0x00, 0x00, 0x00, 0x00, 0x00, 0x03, 0xe9,
        0x00,
        0x00, 0x00, 0x00, 0x00, 0x00, 0x00, 0x03, 0xe9,
        0x00, 0x00, 0x00, 0x00, 0x00, 0x00, 0x00, 0x00,
        0x00, 0x00, 0x00, 0x00, 0x00, 0x00, 0x03, 0xe9,
        0x00, 0x00, 0x00, 0x00, 0x00, 0x00, 0x03, 0xe9,
        0x00,
        0x00, 0x00, 0x00, 0x04,
        0x74, 0x65, 0x73, 0x74,
    ];

    let got = parse_from_bin(data);

    assert!(got.is_err());
}

#[test]
fn test_mismatch_record_size() {
    let data: &[u8] = &[
        0x59, 0x50, 0x42, 0x4e,
        0x00, 0x00, 0x00, 0x32,
        0x00, 0x00, 0x00, 0x00, 0x00, 0x00, 0x03, 0xe9,
        0x00,
        0x00, 0x00, 0x00, 0x00, 0x00, 0x00, 0x03, 0xe9,
        0x00, 0x00, 0x00, 0x00, 0x00, 0x00, 0x00, 0x00,
        0x00, 0x00, 0x00, 0x00, 0x00, 0x00, 0x03, 0xe9,
        0x00, 0x00, 0x00, 0x00, 0x00, 0x00, 0x03, 0xe9,
        0x00,
        0x00, 0x00, 0x00, 0x05,
        0x74, 0x65, 0x73, 0x74,
    ];

    let got = parse_from_bin(data);

    assert!(got.is_err());
}

fn invalid_format(got: Result<Vec<Transaction>, ParseError>) -> String {
    match got {
        Err(ParseError::InvalidFormat(msg)) => msg,
        other => panic!("expected a format violation, got {:?}", other),
    }
}

fn io_failure(got: Result<Vec<Transaction>, ParseError>) -> String {
    match got {
        Err(ParseError::IOError(msg)) => msg,
        other => panic!("expected an I/O failure, got {:?}", other),
    }
}

#[test]
fn bin_empty_input_holds_no_record() {
    assert_eq!(parse_from_bin(&[]).unwrap(), vec![]);
}

#[test]
fn bin_size_mismatch_message() {
    let mut data = sample_record();
    data[53] = 0x05;
    assert_eq!(invalid_format(parse_from_bin(&data)), "mailformed record. record size mismatch");
}

#[test]
fn bin_altered_magic_is_a_format_violation() {
    for i in 0..4 {
        let mut data = sample_record();
        data[i] ^= 0x20;
        assert_eq!(invalid_format(parse_from_bin(&data)), "invalid magic");
    }
}

#[test]
fn bin_size_below_fixed_fields_is_refused_before_the_body() {
    // The header says 45 and no body follows: the size is what is refused.
    let data: Vec<u8> = vec![0x59, 0x50, 0x42, 0x4e, 0x00, 0x00, 0x00, 0x2d];
    assert_eq!(invalid_format(parse_from_bin(&data)), "mailformed record. record size too small");
}

#[test]
fn bin_short_body_is_an_io_failure() {
    let mut data = sample_record();
    data.truncate(40);
    assert_eq!(io_failure(parse_from_bin(&data)), "failed to fill whole buffer");
}

#[test]
fn bin_partial_header_is_an_error() {
    let mut data = sample_record();
    data.extend_from_slice(&[0x59, 0x50]);
    assert_eq!(invalid_format(parse_from_bin(&data)), "failed to fill whole buffer");
    let mut data = sample_record();
    data.extend_from_slice(&[0x59, 0x50, 0x42, 0x4e, 0x00]);
    assert_eq!(invalid_format(parse_from_bin(&data)), "failed to fill whole buffer");
}

#[test]
fn bin_unknown_codes_are_format_violations() {
    let mut data = sample_record();
    data[16] = 3;
    assert_eq!(invalid_format(parse_from_bin(&data)), "Invalid TxType");
    let mut data = sample_record();
    data[49] = 7;
    assert_eq!(invalid_format(parse_from_bin(&data)), "unexpected TxType");
}

#[test]
fn bin_description_must_be_utf8() {
    let mut data = sample_record();
    data[54] = 0xff;
    assert_eq!(io_failure(parse_from_bin(&data)), "Invalid UTF-8");
}

#[test]
fn bin_record_is_header_then_body() {
    let tx = sample();
    assert_eq!(sizeof_tx(&tx), 46);
    assert_eq!(Header::sizeof(), 8);
    assert_eq!(tx_to_bin(&tx), sample_record());
}

#[test]
fn bin_dump_concatenates_records() {
    let mut second = sample();
    second.id = u64::MAX;
    second.kind = TxType::Withdrawal;
    second.status = TxStatus::Pending;
    second.description = "caf\u{e9}, \"x\": y\n".to_string();
    let txs = vec![sample(), second];
    let mut out = vec![0xAAu8];
    assert_eq!(dump_as_bin(&mut out, &txs), Ok::<(), DumpError>(()));
    assert_eq!(out[0], 0xAA);
    assert_eq!(&out[1..59], &sample_record()[..]);
    assert_eq!(&out[59..63], &[0x59, 0x50, 0x42, 0x4e]);
    // 46 fixed bytes and 14 bytes of description
    assert_eq!(&out[63..67], &[0, 0, 0, 60]);
    assert_eq!(&out[67..75], &[0xff; 8]);
    assert_eq!(out[75], 2);
    assert_eq!(out[108], 2);
    assert_eq!(out.len(), 59 + 8 + 60);
    assert_eq!(parse_from_bin(&out[1..]).unwrap(), txs);
}
