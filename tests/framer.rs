use ircd_core::framer::LineFramer;

fn drain(f: &mut LineFramer) -> Vec<Vec<u8>> {
    let mut out = Vec::new();
    while let Some(line) = f.next_line() {
        out.push(line);
    }
    out
}

#[test]
fn lines_split_on_lf_and_crlf() {
    let mut f = LineFramer::new();
    f.feed(b"NICK a\r\nUSER b 0 * :c\nCAP");
    assert_eq!(drain(&mut f), vec![b"NICK a".to_vec(), b"USER b 0 * :c".to_vec()]);
    assert_eq!(f.pending_len(), 3);
    assert_eq!(f.next_line(), None);
    f.feed(b" LS\r\n");
    assert_eq!(f.next_line(), Some(b"CAP LS".to_vec()));
    assert_eq!(f.pending_len(), 0);
}

#[test]
fn lone_cr_is_data() {
    let mut f = LineFramer::new();
    f.feed(b"a\rb\r\r\n");
    assert_eq!(f.next_line(), Some(b"a\rb\r".to_vec()));
}

#[test]
fn empty_lines_are_lines() {
    let mut f = LineFramer::new();
    f.feed(b"\r\n\n");
    assert_eq!(drain(&mut f), vec![Vec::<u8>::new(), Vec::new()]);
}

#[test]
fn no_line_without_terminator() {
    let mut f = LineFramer::new();
    assert_eq!(f.next_line(), None);
    f.feed(b"partial\r");
    assert_eq!(f.next_line(), None);
    assert_eq!(f.pending_len(), 8);
    f.feed(b"\n");
    assert_eq!(f.next_line(), Some(b"partial".to_vec()));
}

#[test]
fn chunk_boundaries_do_not_matter() {
    let input: &[u8] = b"NICK a\r\nUSER b 0 * :c d\r\n\nJOIN #x\nQUIT :bye\r\nrest";
    let mut whole = LineFramer::new();
    whole.feed(input);
    let expected = whole.take_lines();
    assert_eq!(expected.len(), 5);
    for cut in 0..=input.len() {
        let mut f = LineFramer::new();
        f.feed(&input[..cut]);
        let mut got = drain(&mut f);
        f.feed(&input[cut..]);
        got.extend(drain(&mut f));
        assert_eq!(got, expected, "cut at {}", cut);
        assert_eq!(f.pending_len(), 4);
    }
    let mut f = LineFramer::new();
    let mut got = Vec::new();
    for b in input {
        f.feed(&[*b]);
        got.extend(f.take_lines());
    }
    assert_eq!(got, expected);
}

#[test]
fn lines_never_hold_terminators() {
    let mut f = LineFramer::new();
    f.feed(b"a\r\n\r\nb\n\r\r\nc\n");
    for line in drain(&mut f) {
        assert!(!line.contains(&b'\n'));
        assert!(!line.windows(2).any(|w| w == b"\r\n"));
    }
}
