use ypbank_parser::decimal::{parse_u64, u64_to_string};
use ypbank_parser::endian::{be_decode, be_encode};
use ypbank_parser::lines::read_lines;
use ypbank_parser::types::{SupportedFileFormat, Transaction, TxStatus, TxType};
use ypbank_parser::utils::{is_whitespace, trim_bounds};
use ypbank_parser::{compare, dump, parse};

fn sample(id: u64, description: &str) -> Transaction {
    Transaction {
        id,
        kind: TxType::Transfer,
        from_user: 11,
        to_user: 12,
        amount: 13,
        timestamp: 14,
        status: TxStatus::Success,
        description: description.to_string(),
    }
}

#[test]
fn facade_round_trip_in_each_format() {
    let txs = vec![sample(1, "one, \"two\": three"), sample(2, ""), sample(3, "\u{44f}")];
    for format in [SupportedFileFormat::Bin, SupportedFileFormat::Csv, SupportedFileFormat::Text] {
        let mut out = Vec::new();
        assert!(dump(&mut out, format, &txs).is_ok());
        assert_eq!(parse(&out, format).unwrap(), txs);
    }
}

#[test]
fn facade_converts_between_formats() {
    let data = "TX_ID,TX_TYPE,FROM_USER_ID,TO_USER_ID,AMOUNT,TIMESTAMP,STATUS,DESCRIPTION\n1001,DEPOSIT,0,501,50000,1672531200000,SUCCESS,\"Initial account funding\"";
    let txs = parse(data.as_bytes(), SupportedFileFormat::Csv).unwrap();
    assert_eq!(txs.len(), 1);
    assert_eq!(txs[0].description, "Initial account funding");
    let mut writer = Vec::new();
    dump(&mut writer, SupportedFileFormat::Bin, &txs).unwrap();
    assert!(writer.starts_with(&[0x59, 0x50, 0x42, 0x4e]));
    assert_eq!(parse(&writer, SupportedFileFormat::Bin).unwrap(), txs);
    let mut text = Vec::new();
    dump(&mut text, SupportedFileFormat::Text, &txs).unwrap();
    assert!(String::from_utf8(text).unwrap().contains("STATUS: SUCCESS"));
}

#[test]
fn compare_finds_the_first_difference() {
    let a = vec![sample(1, "x"), sample(2, "y"), sample(3, "z")];
    let mut b = a.clone();
    assert_eq!(compare(&a, &b), None);
    b[1].description = "Y".to_string();
    assert_eq!(compare(&a, &b), Some((1, Some(&a[1]), Some(&b[1]))));
    assert_eq!(compare(&a, &a[..2]), Some((2, Some(&a[2]), None)));
    assert_eq!(compare(&[], &a), Some((0, None, Some(&a[0]))));
    assert_eq!(compare(&[], &[]), None);
}

#[test]
fn decimal_notation() {
    assert_eq!(u64_to_string(0), "0");
    assert_eq!(u64_to_string(10), "10");
    assert_eq!(u64_to_string(1672531200000), "1672531200000");
    assert_eq!(u64_to_string(u64::MAX), "18446744073709551615");
    let digits: Vec<char> = "00042".chars().collect();
    assert_eq!(parse_u64(&digits).unwrap(), 42);
    for n in [0u64, 9, 10, 99, 100, 12345, u64::MAX - 1, u64::MAX] {
        let text: Vec<char> = u64_to_string(n).chars().collect();
        assert_eq!(parse_u64(&text).unwrap(), n);
        assert_eq!(u64_to_string(n), n.to_string());
    }
}

#[test]
fn big_endian_bytes() {
    assert_eq!(be_encode(0x0102030405060708, 8), vec![1, 2, 3, 4, 5, 6, 7, 8]);
    assert_eq!(be_encode(50, 4), vec![0, 0, 0, 0x32]);
    assert_eq!(be_encode(0x1_0000_0001, 4), vec![0, 0, 0, 1]);
    assert_eq!(be_decode(&[9, 1, 2, 3, 4, 5, 6, 7, 8], 1, 8), 0x0102030405060708);
    assert_eq!(be_decode(&[0xff, 0xff, 0xff, 0xff], 0, 4), 0xffff_ffff);
    assert_eq!(be_decode(&[0xff; 8], 0, 8), u64::MAX);
}

#[test]
fn lines_of_a_stream() {
    assert_eq!(read_lines(b""), Vec::<Vec<u8>>::new());
    assert_eq!(read_lines(b"a\nb"), vec![b"a".to_vec(), b"b".to_vec()]);
    assert_eq!(read_lines(b"a\n"), vec![b"a".to_vec()]);
    assert_eq!(read_lines(b"a\n\n"), vec![b"a".to_vec(), b"".to_vec()]);
    assert_eq!(read_lines(b"\n"), vec![b"".to_vec()]);
}

#[test]
fn white_space_is_what_std_trims() {
    for code in 0..0x11_0000u32 {
        if let Some(c) = char::from_u32(code) {
            assert_eq!(is_whitespace(c), c.is_whitespace(), "U+{:04X}", code);
        }
    }
    let s: Vec<char> = " \t\r\u{a0}a b\u{2003}\n".chars().collect();
    assert_eq!(trim_bounds(&s), (4, 7));
    let blank: Vec<char> = " \t ".chars().collect();
    let (start, end) = trim_bounds(&blank);
    assert_eq!(start, end);
}

#[test]
fn names_and_codes_of_kind_and_status() {
    assert_eq!(TxType::Deposit.to_string(), "DEPOSIT");
    assert_eq!(TxType::Transfer.to_string(), "TRANSFER");
    assert_eq!(TxType::Withdrawal.to_string(), "WITHDRAWAL");
    assert_eq!(TxStatus::Success.to_string(), "SUCCESS");
    assert_eq!(TxStatus::Failure.to_string(), "FAILURE");
    assert_eq!(TxStatus::Pending.as_str(), "PENDING");
    assert_eq!("TRANSFER".parse::<TxType>().unwrap(), TxType::Transfer);
    assert_eq!("PENDING".parse::<TxStatus>().unwrap(), TxStatus::Pending);
    assert_eq!("transfer".parse::<TxType>().unwrap_err().message(), "unknown tx type");
    assert_eq!(" PENDING".parse::<TxStatus>().unwrap_err().message(), "unknown tx status");
    for kind in [TxType::Deposit, TxType::Transfer, TxType::Withdrawal] {
        assert_eq!(TxType::from_code(kind.to_code()), Some(kind));
    }
    for status in [TxStatus::Success, TxStatus::Failure, TxStatus::Pending] {
        assert_eq!(TxStatus::from_code(status.to_code()), Some(status));
    }
    assert_eq!(TxType::Withdrawal.to_code(), 2);
    assert_eq!(TxStatus::Failure.to_code(), 1);
    assert_eq!(TxType::from_code(3), None);
    assert_eq!(TxStatus::from_code(255), None);
}

#[test]
fn white_space_in_a_description_comes_back() {
    let txs = vec![sample(1, " x "), sample(2, "\t"), sample(3, "\u{3000}y"), sample(4, "\" \"")];
    for format in [SupportedFileFormat::Bin, SupportedFileFormat::Csv, SupportedFileFormat::Text] {
        let mut out = Vec::new();
        assert!(dump(&mut out, format, &txs).is_ok());
        assert_eq!(parse(&out, format).unwrap(), txs);
    }
}

#[test]
fn what_a_text_format_does_not_hold_as_it_is() {
    // Both text formats read line by line.
    let two_lines = vec![sample(1, "a\nb")];
    for format in [SupportedFileFormat::Csv, SupportedFileFormat::Text] {
        let mut out = Vec::new();
        assert!(dump(&mut out, format, &two_lines).is_ok());
        assert!(parse(&out, format).is_err());
    }
    // The binary format holds the line end as it is.
    let mut out = Vec::new();
    assert!(dump(&mut out, SupportedFileFormat::Bin, &two_lines).is_ok());
    assert_eq!(parse(&out, SupportedFileFormat::Bin).unwrap(), two_lines);
}
