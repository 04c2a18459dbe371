use read_write_procmem_windows::command::{parse_command, split_tokens, Command, ParseError};
use read_write_procmem_windows::text::{decode_literal, parse_digits, parse_number};

#[test]
fn decimal_address() {
    assert_eq!(parse_number(b"3735928559"), Some(3735928559));
}

#[test]
fn hex_address() {
    assert_eq!(parse_number(b"0xDEADBEEF"), Some(0xDEADBEEF));
    assert_eq!(parse_number(b"0xdeadbeef"), Some(0xDEADBEEF));
}

#[test]
fn decimal_and_hex_agree() {
    assert_eq!(parse_number(b"255"), parse_number(b"0xff"));
    assert_eq!(parse_number(b"0"), parse_number(b"0x0"));
    assert_eq!(parse_number(b"18446744073709551615"), parse_number(b"0xffffffffffffffff"));
}

#[test]
fn malformed_numbers() {
    assert_eq!(parse_number(b""), None);
    assert_eq!(parse_number(b"0x"), None);
    assert_eq!(parse_number(b"12a"), None);
    assert_eq!(parse_number(b"0xfg"), None);
    assert_eq!(parse_number(b"0X10"), None);
    assert_eq!(parse_number(b"-1"), None);
}

#[test]
fn numbers_beyond_u64() {
    assert_eq!(parse_number(b"18446744073709551616"), None);
    assert_eq!(parse_number(b"0x10000000000000000"), None);
    assert_eq!(parse_number(b"99999999999999999999x"), None);
}

#[test]
fn digits_from_an_offset() {
    assert_eq!(parse_digits(b"ab12", 2, 10), Some(12));
    assert_eq!(parse_digits(b"ab12", 4, 10), None);
    assert_eq!(parse_digits(b"0x1F", 2, 16), Some(31));
}

#[test]
fn literal_two_bytes() {
    assert_eq!(decode_literal(b"\\x90\\x90"), Some(vec![0x90, 0x90]));
}

#[test]
fn literal_keeps_order_and_case() {
    assert_eq!(decode_literal(b"\\xEF\\xbe\\xAD\\xde"), Some(vec![0xEF, 0xBE, 0xAD, 0xDE]));
    assert_eq!(decode_literal(b"\\xAB"), decode_literal(b"\\xab"));
    assert_eq!(decode_literal(b"\\x00"), Some(vec![0]));
}

#[test]
fn malformed_literals() {
    assert_eq!(decode_literal(b""), None);
    assert_eq!(decode_literal(b"90"), None);
    assert_eq!(decode_literal(b"\\x9"), None);
    assert_eq!(decode_literal(b"\\x900"), None);
    assert_eq!(decode_literal(b"\\x90\\x"), None);
    assert_eq!(decode_literal(b"\\xg0"), None);
    assert_eq!(decode_literal(b"\\y90"), None);
}

#[test]
fn tokens_split_on_single_spaces() {
    assert_eq!(split_tokens(b"  R 0x10 4\r\n"), vec![b"R".to_vec(), b"0x10".to_vec(), b"4".to_vec()]);
    assert_eq!(split_tokens(b"a  b"), vec![b"a".to_vec(), b"".to_vec(), b"b".to_vec()]);
    assert_eq!(split_tokens(b""), vec![b"".to_vec()]);
    assert_eq!(split_tokens(b" \t "), vec![b"".to_vec()]);
}

#[test]
fn attach_command() {
    assert!(matches!(parse_command("P 4"), Ok(Command::Attach(4))));
    assert!(matches!(parse_command("P 103\n"), Ok(Command::Attach(103))));
    assert!(matches!(parse_command("P 4294967295"), Ok(Command::Attach(4294967295))));
}

#[test]
fn read_command() {
    assert!(matches!(
        parse_command("R 0xDEADBEEF 5"),
        Ok(Command::Read { address: 0xDEADBEEF, length: 5 })
    ));
    assert!(matches!(
        parse_command("R 3735928559 5"),
        Ok(Command::Read { address: 0xDEADBEEF, length: 5 })
    ));
    assert!(matches!(parse_command("R 0x10 0"), Ok(Command::Read { address: 0x10, length: 0 })));
}

#[test]
fn write_command() {
    match parse_command("W 0xDEADBEEF \\xEF\\xBE\\xAD\\xDE") {
        Ok(Command::Write { address, bytes }) => {
            assert_eq!(address, 0xDEADBEEF);
            assert_eq!(bytes, vec![0xEF, 0xBE, 0xAD, 0xDE]);
        }
        other => panic!("unexpected {:?}", other),
    }
}

#[test]
fn unrecognized_commands() {
    assert!(matches!(parse_command("Q"), Err(ParseError::Unrecognized)));
    assert!(matches!(parse_command("p 4"), Err(ParseError::Unrecognized)));
    assert!(matches!(parse_command(""), Err(ParseError::Unrecognized)));
    assert!(matches!(parse_command("RR 0x10 4"), Err(ParseError::Unrecognized)));
}

#[test]
fn missing_arguments() {
    assert!(matches!(parse_command("P"), Err(ParseError::MissingArgument)));
    assert!(matches!(parse_command("R 0x10"), Err(ParseError::MissingArgument)));
    assert!(matches!(parse_command("W 0x10"), Err(ParseError::MissingArgument)));
}

#[test]
fn bad_numbers() {
    assert!(matches!(parse_command("P 0x4"), Err(ParseError::BadNumber)));
    assert!(matches!(parse_command("P 4294967296"), Err(ParseError::BadNumber)));
    assert!(matches!(parse_command("R 0xZZ 4"), Err(ParseError::BadNumber)));
    assert!(matches!(parse_command("R 0x10 four"), Err(ParseError::BadNumber)));
    assert!(matches!(parse_command("W zz \\x90"), Err(ParseError::BadNumber)));
}

#[test]
fn bad_literal() {
    assert!(matches!(parse_command("W 0x10 \\x9g"), Err(ParseError::BadLiteral)));
    assert!(matches!(parse_command("W 0x10 90"), Err(ParseError::BadLiteral)));
}
