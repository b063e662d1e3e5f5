use lib::error::AflError;
use lib::tokens::{add_token, from_hex, process_token_line, read_tokens_lines, str_decode};

fn lines_of(data: &str) -> Vec<String> {
    data.lines().map(|l| l.to_string()).collect()
}

#[test]
fn test_read_tokens() {
    let data = r###"
# comment
token1@123="AAA"
token1="A\x41A"
"A\AA"
token2="B"
        "###;
    let mut v: Vec<Vec<u8>> = Vec::new();
    let res = read_tokens_lines(&lines_of(data), &mut v).unwrap();
    println!("Token file entries: {:?}", res);
    assert_eq!(res, 2);
    assert_eq!(v, vec![b"AAA".to_vec(), b"B".to_vec()]);
}

#[test]
fn from_hex_digits() {
    assert_eq!(from_hex(b'0').unwrap(), 0);
    assert_eq!(from_hex(b'9').unwrap(), 9);
    assert_eq!(from_hex(b'A').unwrap(), 10);
    assert_eq!(from_hex(b'f').unwrap(), 15);
    assert!(matches!(from_hex(b'g'), Err(AflError::IllegalArgument(m)) if m.is_empty()));
}

#[test]
fn str_decode_doc_example() {
    assert_eq!(str_decode(r#"foo\x41\\and\"bar"#).unwrap(), b"fooA\\and\"bar".to_vec());
}

#[test]
fn str_decode_plain_and_escapes() {
    assert_eq!(str_decode("plain text").unwrap(), b"plain text".to_vec());
    assert_eq!(str_decode(r"\x00\xff\X41").unwrap(), vec![0x00, 0xff, 0x41]);
    assert_eq!(str_decode(r"ab\").unwrap(), b"ab".to_vec());
    assert_eq!(str_decode(r"ab\x4").unwrap(), b"ab".to_vec());
    assert!(matches!(str_decode(r"\xZZ"), Err(AflError::IllegalArgument(_))));
    assert!(matches!(str_decode(r"\x4Z"), Err(AflError::IllegalArgument(_))));
}

#[test]
fn str_decode_hex_escape_round_trip() {
    let token: Vec<u8> = vec![0, 1, 0x5c, 0x7f, 0x80, 0xfe, 0xff];
    let escaped: String = token.iter().map(|b| format!("\\x{:02X}", b)).collect();
    assert_eq!(str_decode(&escaped).unwrap(), token);
}

#[test]
fn add_token_once() {
    let mut tokens: Vec<Vec<u8>> = Vec::new();
    assert_eq!(add_token(&mut tokens, &b"abc".to_vec()), 1);
    assert_eq!(add_token(&mut tokens, &b"abc".to_vec()), 0);
    assert_eq!(add_token(&mut tokens, &b"abd".to_vec()), 1);
    assert_eq!(tokens, vec![b"abc".to_vec(), b"abd".to_vec()]);
}

#[test]
fn token_lines() {
    let mut tokens: Vec<Vec<u8>> = Vec::new();
    assert_eq!(process_token_line("   ", &mut tokens).unwrap(), 0);
    assert_eq!(process_token_line("  # \"x\"", &mut tokens).unwrap(), 0);
    assert_eq!(process_token_line("x=\"\"", &mut tokens).unwrap(), 0);
    assert_eq!(process_token_line("\t kw=\"if\"  \r", &mut tokens).unwrap(), 1);
    assert_eq!(tokens, vec![b"if".to_vec()]);
    match process_token_line("  no quote ", &mut tokens) {
        Err(AflError::IllegalArgument(m)) => assert_eq!(m, "Illegal line: no quote"),
        _ => panic!("expected an error"),
    }
    match process_token_line("a=\"b", &mut tokens) {
        Err(AflError::IllegalArgument(m)) => assert_eq!(m, "Illegal line: a=\"b"),
        _ => panic!("expected an error"),
    }
    match process_token_line("\"", &mut tokens) {
        Err(AflError::IllegalArgument(m)) => assert_eq!(m, "Illegal line: \""),
        _ => panic!("expected an error"),
    }
    match process_token_line("a=\"\\xQQ\"", &mut tokens) {
        Err(AflError::IllegalArgument(m)) => {
            assert_eq!(m, "Illegal line (hex decoding): a=\"\\xQQ\"")
        }
        _ => panic!("expected an error"),
    }
    assert_eq!(tokens, vec![b"if".to_vec()]);
}

#[test]
fn non_ascii_line_is_illegal() {
    let mut tokens: Vec<Vec<u8>> = Vec::new();
    assert!(matches!(process_token_line("é=\"x\"", &mut tokens), Err(AflError::IllegalArgument(_))));
    assert_eq!(process_token_line("#é", &mut tokens).unwrap(), 0);
}

#[test]
fn reading_stops_at_first_illegal_line() {
    let lines = lines_of("\"a\"\nbad\n\"b\"");
    let mut tokens: Vec<Vec<u8>> = Vec::new();
    let r = read_tokens_lines(&lines, &mut tokens);
    assert!(matches!(r, Err(AflError::IllegalArgument(m)) if m == "Illegal line: bad"));
    assert_eq!(tokens, vec![b"a".to_vec()]);
}

#[test]
fn str_decode_hex_escape_any_case() {
    assert_eq!(str_decode(r"\x4a\X4A\xfF").unwrap(), vec![0x4a, 0x4a, 0xff]);
}

#[test]
fn str_decode_doubled_backslashes() {
    let text = r"a\b\xq\";
    let doubled = text.replace('\\', "\\\\");
    assert_eq!(str_decode(&doubled).unwrap(), text.as_bytes().to_vec());
}

#[test]
fn reading_the_same_lines_twice_adds_nothing() {
    let lines = lines_of("\"a\"\n\"b\"\n\"a\"");
    let mut tokens: Vec<Vec<u8>> = Vec::new();
    assert_eq!(read_tokens_lines(&lines, &mut tokens).unwrap(), 2);
    let after = tokens.clone();
    assert_eq!(read_tokens_lines(&lines, &mut tokens).unwrap(), 0);
    assert_eq!(tokens, after);
}

#[test]
fn blank_and_comment_lines_change_nothing() {
    let plain = lines_of("\"a\"\nbad\n\"b\"");
    let padded = lines_of("\n  \n\"a\"\n# note\nbad\n\t\n\"b\"");
    let mut t1: Vec<Vec<u8>> = Vec::new();
    let mut t2: Vec<Vec<u8>> = Vec::new();
    let r1 = read_tokens_lines(&plain, &mut t1);
    let r2 = read_tokens_lines(&padded, &mut t2);
    assert_eq!(format!("{:?}", r1), format!("{:?}", r2));
    assert_eq!(t1, t2);
    let plain = lines_of("\"x\"\n\"y\"");
    let padded = lines_of("# head\n\n\"x\"\n   # indented note\n\n\n\"y\"\n#");
    let mut t1: Vec<Vec<u8>> = Vec::new();
    let mut t2: Vec<Vec<u8>> = Vec::new();
    assert_eq!(read_tokens_lines(&plain, &mut t1).unwrap(), 2);
    assert_eq!(read_tokens_lines(&padded, &mut t2).unwrap(), 2);
    assert_eq!(t1, t2);
}
