use rustline::parser::{KeySeq, Parser, MAX_SEQ};

fn parse(bytes: &[u8]) -> Vec<KeySeq> {
    Parser::new().parse(bytes)
}

#[test]
fn control_chords_are_lowercase() {
    assert_eq!(parse(&[0x01]), vec![KeySeq::Ctrl('a')]);
    assert_eq!(parse(&[0x05]), vec![KeySeq::Ctrl('e')]);
    assert_eq!(parse(&[0x1a]), vec![KeySeq::Ctrl('z')]);
    assert_eq!(parse(&[0x00]), vec![KeySeq::Ctrl('@')]);
    assert_eq!(parse(&[0x1c]), vec![KeySeq::Ctrl('\\')]);
}

#[test]
fn every_control_byte_round_trips() {
    for byte in 0x01u8..=0x1a {
        let expected = (b'a' + byte - 1) as char;
        match byte {
            0x09 | 0x0a | 0x0d => continue,
            _ => assert_eq!(parse(&[byte]), vec![KeySeq::Ctrl(expected)]),
        }
    }
}

#[test]
fn enter_and_linefeed_are_distinct() {
    assert_eq!(parse(&[0x0d]), vec![KeySeq::Enter]);
    assert_eq!(parse(&[0x0a]), vec![KeySeq::LineFeed]);
    assert_eq!(parse(&[0x09]), vec![KeySeq::Tab]);
    assert_eq!(parse(&[0x7f]), vec![KeySeq::Backspace]);
}

#[test]
fn utf8_parsing() {
    assert_eq!(parse(&[0xc3, 0xa9]), vec![KeySeq::Char('é')]);
    assert_eq!(parse(&[0xe4, 0xb8, 0xad]), vec![KeySeq::Char('中')]);
    assert_eq!(parse(&[0xf0, 0x9d, 0x84, 0x9e]), vec![KeySeq::Char('𝄞')]);
}

#[test]
fn alt_utf8() {
    assert_eq!(parse(&[0x1b, 0xc3, 0xa9]), vec![KeySeq::Alt('é')]);
    assert_eq!(parse(&[0x1b, 0xe4, 0xb8, 0xad]), vec![KeySeq::Alt('中')]);
}

#[test]
fn invalid_utf8_is_reported() {
    let keys = parse(&[0xff, 0xfe]);
    assert_eq!(
        keys,
        vec![KeySeq::Unknown(vec![0xff]), KeySeq::Unknown(vec![0xfe])]
    );
}

#[test]
fn truncated_utf8_does_not_swallow_the_next_key() {
    let keys = parse(&[0xe4, b'a']);
    assert_eq!(keys, vec![KeySeq::Unknown(vec![0xe4]), KeySeq::Char('a')]);
}

#[test]
fn mixed_input() {
    let keys = parse(b"a\xc3\xa9\x1b[A");
    assert_eq!(keys, vec![KeySeq::Char('a'), KeySeq::Char('é'), KeySeq::Up]);
}

#[test]
fn arrows_and_navigation() {
    assert_eq!(parse(b"\x1b[A"), vec![KeySeq::Up]);
    assert_eq!(parse(b"\x1b[B"), vec![KeySeq::Down]);
    assert_eq!(parse(b"\x1b[C"), vec![KeySeq::Right]);
    assert_eq!(parse(b"\x1b[D"), vec![KeySeq::Left]);
    assert_eq!(parse(b"\x1b[H"), vec![KeySeq::Home]);
    assert_eq!(parse(b"\x1b[F"), vec![KeySeq::End]);
    assert_eq!(parse(b"\x1b[1~"), vec![KeySeq::Home]);
    assert_eq!(parse(b"\x1b[3~"), vec![KeySeq::Delete]);
    assert_eq!(parse(b"\x1b[4~"), vec![KeySeq::End]);
    assert_eq!(parse(b"\x1bOA"), vec![KeySeq::Up]);
    assert_eq!(parse(b"\x1bOH"), vec![KeySeq::Home]);
}

#[test]
fn alt_arrows_both_encodings() {
    assert_eq!(parse(b"\x1b\x1b[C"), vec![KeySeq::AltRight]);
    assert_eq!(parse(b"\x1b\x1b[D"), vec![KeySeq::AltLeft]);
    assert_eq!(parse(b"\x1b\x1bOC"), vec![KeySeq::AltRight]);
    assert_eq!(parse(b"\x1b[1;3C"), vec![KeySeq::AltRight]);
    assert_eq!(parse(b"\x1b[1;3D"), vec![KeySeq::AltLeft]);
    assert_eq!(parse(b"\x1b[1;2C"), vec![KeySeq::Right]);
}

#[test]
fn meta_chords() {
    assert_eq!(parse(b"\x1bb"), vec![KeySeq::Alt('b')]);
    assert_eq!(parse(b"\x1b<"), vec![KeySeq::Alt('<')]);
    assert_eq!(parse(b"\x1b\\"), vec![KeySeq::Alt('\\')]);
    assert_eq!(parse(&[0x1b, 0x02]), vec![KeySeq::CtrlAlt('b')]);
    assert_eq!(parse(&[0x1b, 0x7f]), vec![KeySeq::AltBackspace]);
}

#[test]
fn bracketed_paste_markers() {
    assert_eq!(parse(b"\x1b[200~"), vec![KeySeq::BracketedPasteStart]);
    assert_eq!(parse(b"\x1b[201~"), vec![KeySeq::BracketedPasteEnd]);
}

#[test]
fn function_keys() {
    assert_eq!(parse(b"\x1b[11~"), vec![KeySeq::F(1)]);
    assert_eq!(parse(b"\x1b[24~"), vec![KeySeq::F(12)]);
    assert_eq!(parse(b"\x1bOP"), vec![KeySeq::F(1)]);
}

#[test]
fn sequences_split_across_reads() {
    let inputs: &[&[u8]] = &[
        b"\x1b[A",
        b"\x1b[1;3C",
        b"\x1b[200~",
        b"\x1b\x1b[D",
        b"\x1bOP",
        &[0xf0, 0x9d, 0x84, 0x9e],
        &[0x1b, 0xc3, 0xa9],
    ];
    for input in inputs {
        let whole = parse(input);
        let mut parser = Parser::new();
        let mut drip = Vec::new();
        for &b in *input {
            drip.extend(parser.parse(&[b]));
        }
        assert_eq!(whole, drip, "byte-at-a-time mismatch for {input:?}");
        assert!(parser.is_idle());
    }
}

#[test]
fn a_runaway_csi_parameter_run_is_bounded() {
    let mut parser = Parser::new();
    let mut input = vec![0x1b, b'['];
    input.extend(std::iter::repeat(b'1').take(100_000));

    assert!(parser.parse(&input).is_empty(), "no key can be complete yet");
    assert!(!parser.is_idle(), "the sequence is still open");
    assert!(
        parser.sequence_len() <= MAX_SEQ,
        "the buffer grew without bound"
    );

    let keys = parser.parse(b"A");
    assert!(
        matches!(keys.as_slice(), [KeySeq::Unknown(_)]),
        "expected one unknown sequence, got {keys:?}",
    );
    assert!(parser.is_idle());

    assert_eq!(parser.parse(b"x"), vec![KeySeq::Char('x')]);
}

#[test]
fn ordinary_sequences_are_well_inside_the_cap() {
    let mut parser = Parser::new();
    assert_eq!(parser.parse(b"\x1b[1;3C"), vec![KeySeq::AltRight]);
    assert_eq!(
        parser.parse(b"\x1b[200~"),
        vec![KeySeq::BracketedPasteStart]
    );
}

#[test]
fn batched_keys_all_returned() {
    let keys = parse(b"ab\rcd\r");
    assert_eq!(
        keys,
        vec![
            KeySeq::Char('a'),
            KeySeq::Char('b'),
            KeySeq::Enter,
            KeySeq::Char('c'),
            KeySeq::Char('d'),
            KeySeq::Enter,
        ]
    );
}

#[test]
fn chunking_the_same_bytes_gives_the_same_keys() {
    let input: Vec<u8> = b"ab\x1b[1;3C\xe4\xb8\xad\x1bOP\xff\x1b\x1b[D\x1b[200~x\x1b[201~\r".to_vec();
    let whole = Parser::new().parse(&input);
    for chunk in 1..8 {
        let mut parser = Parser::new();
        let mut chunked = Vec::new();
        for piece in input.chunks(chunk) {
            chunked.extend(parser.parse(piece));
        }
        assert_eq!(whole, chunked, "chunk size {chunk}");
    }
}

#[test]
fn printable_ascii_comes_back_as_typed() {
    let text = "Hello, World! ~ {x} 123";
    let keys = Parser::new().parse(text.as_bytes());
    let decoded: String = keys
        .iter()
        .map(|k| match k {
            KeySeq::Char(c) => *c,
            _ => '\0',
        })
        .collect();
    assert_eq!(decoded, text);
}

#[test]
fn a_letter_ends_a_pending_sequence() {
    let mut parser = Parser::new();
    assert!(parser.parse(b"\x1b[12;").is_empty());
    assert!(!parser.is_idle());
    // An unrecognized final byte ends the sequence without a key.
    let keys = parser.parse(b"q");
    assert!(keys.is_empty());
    assert!(parser.is_idle());
    assert_eq!(parser.parse(b"q"), vec![KeySeq::Char('q')]);
}
