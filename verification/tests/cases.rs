use shiran::entry::Reason;
use shiran::error::{io_reason, ErrorKind, IoError};
use shiran::status::{parse_execution_context, parse_ids, read_execution_context, ExecutionContext};
use shiran::text::{decode_text, is_text_character};

const STATUS_VALID: &str =
    "Name:\tshiran\nUid:\t1000\t1001\t1002\t1003\nGid:\t2000\t2001\t2002\t2003\n";
const STATUS_NO_UID: &str = "Gid:\t2000\t2000\t2000\t2000\n";
const STATUS_NO_GID: &str = "Uid:\t1000\t1000\t1000\t1000\n";
const STATUS_BAD_UID: &str = "Uid:\tbad\t1000\t1000\t1000\nGid:\t2000\t2000\t2000\t2000\n";

fn context(uid: u32, euid: u32, gid: u32, egid: u32) -> ExecutionContext {
    ExecutionContext { uid, euid, gid, egid }
}

fn text(value: &str) -> Result<String, Reason> {
    Ok(value.to_string())
}

#[test]
fn execution_context_cases() {
    let cases = [
        ("valid", STATUS_VALID, Some(context(1000, 1001, 2000, 2001))),
        ("missing uid", STATUS_NO_UID, None),
        ("missing gid", STATUS_NO_GID, None),
        ("invalid uid", STATUS_BAD_UID, None),
    ];

    for (name, input, expected) in cases {
        assert_eq!(parse_execution_context(input), expected, "{name}");
    }
}

#[test]
fn text_cases() {
    let cases: [(&str, &[u8], Result<String, Reason>); 5] = [
        ("plain", b"hello\nworld\n", text("hello\nworld\n")),
        ("nul separated", b"shiran\0--help\0", text("shiran\0--help\0")),
        ("empty", b"", text("")),
        ("control", b"hello\x01world", Err(Reason::Binary)),
        ("invalid utf8", &[0xff, 0xfe, 0xfd], Err(Reason::Binary)),
    ];

    for (name, input, expected) in cases {
        assert_eq!(decode_text(input.to_vec()), expected, "{name}");
    }
}

#[test]
fn io_reason_cases() {
    let cases = [
        (ErrorKind::PermissionDenied, Reason::PermissionDenied),
        (ErrorKind::NotFound, Reason::Vanished),
        (ErrorKind::WouldBlock, Reason::WouldBlock),
        (ErrorKind::InvalidData, Reason::IoError),
    ];

    for (input, expected) in cases {
        let error = IoError::new(input, String::new());
        assert_eq!(io_reason(&error), expected, "{input:?}");
    }
}

#[test]
fn reason_serialization_cases() {
    let cases = [
        (Reason::Binary, "binary"),
        (Reason::SizeLimit, "size_limit"),
        (Reason::TotalLimit, "total_limit"),
        (Reason::SpecialFile, "special_file"),
        (Reason::PermissionDenied, "permission_denied"),
        (Reason::Vanished, "vanished"),
        (Reason::WouldBlock, "would_block"),
        (Reason::IoError, "io_error"),
    ];

    for (input, expected) in cases {
        assert_eq!(input.as_str(), expected, "{input:?}");
    }
}

#[test]
fn id_lines() {
    let cases = [
        ("windows line end", "Uid:\t1\t2\r\n", Some((1, 2))),
        ("last line without an end", "Name:\tx\nUid: 1 2", Some((1, 2))),
        ("first line counts", "Uid:\t1\t2\nUid:\t3\t4\n", Some((1, 2))),
        ("a bad first line is not passed over", "Uid:\tx\nUid:\t3\t4\n", None),
        ("key only inside a line", "xUid:\t1\t2\n", None),
        ("no space after the key", "Uid:1 2\n", Some((1, 2))),
        ("one number", "Uid:\t1\n", None),
        ("numbers on the next line", "Uid:\n1 2\n", None),
        ("plus sign", "Uid:\t+1\t+2\n", Some((1, 2))),
        ("two signs", "Uid:\t++1\t2\n", None),
        ("sign alone", "Uid:\t+\t2\n", None),
        ("minus sign", "Uid:\t-1\t2\n", None),
        ("largest", "Uid:\t4294967295\t0\n", Some((u32::MAX, 0))),
        ("too large", "Uid:\t4294967296\t0\n", None),
        ("leading zeros", "Uid:\t0000000000001\t00\n", Some((1, 0))),
        ("unicode space", "Uid:\u{2003}1\u{3000}2\n", Some((1, 2))),
        ("not a space", "Uid:\u{200b}1 2\n", None),
        ("empty", "", None),
    ];

    for (name, input, expected) in cases {
        assert_eq!(parse_ids(input, "Uid:"), expected, "{name}");
    }
}

#[test]
fn status_messages() {
    assert_eq!(
        read_execution_context(Ok(STATUS_VALID.to_string())),
        Ok(context(1000, 1001, 2000, 2001))
    );
    assert_eq!(
        read_execution_context(Ok(STATUS_NO_GID.to_string())),
        Err("invalid /proc/self/status".to_string())
    );
    let error = IoError::new(ErrorKind::PermissionDenied, "no".to_string());
    assert_eq!(
        read_execution_context(Err(error)),
        Err("failed to read /proc/self/status: no".to_string())
    );
}

#[test]
fn text_characters() {
    for code in 0..=0x10ffffu32 {
        if let Some(character) = char::from_u32(code) {
            let expected =
                !character.is_control() || matches!(character, '\0' | '\n' | '\r' | '\t');
            assert_eq!(is_text_character(character), expected, "{code:#x}");
        }
    }
}

#[test]
fn white_space_characters() {
    for code in 0..=0x10ffffu32 {
        if let Some(character) = char::from_u32(code) {
            if character != '\n' {
                let line = format!("Uid:1{character}2\n");
                let split = parse_ids(&line, "Uid:").is_some();
                assert_eq!(split, character.is_whitespace(), "{code:#x}");
            }
        }
    }
}

#[test]
fn text_is_kept_as_it_is() {
    let given = "h\u{e9}llo\t\u{1f600}\r\n\u{0}";
    assert_eq!(decode_text(given.as_bytes().to_vec()), text(given));
    assert_eq!(decode_text("\u{7f}".as_bytes().to_vec()), Err(Reason::Binary));
    assert_eq!(decode_text("\u{85}".as_bytes().to_vec()), Err(Reason::Binary));
    assert_eq!(decode_text("\u{a0}".as_bytes().to_vec()), text("\u{a0}"));
    assert_eq!(decode_text(vec![0xed, 0xa0, 0x80]), Err(Reason::Binary));
}
