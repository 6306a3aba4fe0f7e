use email_format::{
    AddressList, Component, DateTime, FieldName, Mailbox, MailboxList, MsgId, Parsable, ParseError, Path,
    Phrase, ReceivedToken, Streamable, Unstructured, CFWS,
};

fn whole<T: Parsable>(input: &[u8]) -> bool {
    match T::parse(input) {
        Ok((_, rest)) => rest.is_empty(),
        Err(_) => false,
    }
}

fn used<T: Parsable>(input: &[u8]) -> Result<usize, ParseError> {
    T::parse(input).map(|(_, rest)| input.len() - rest.len())
}

#[test]
fn date_time_with_weekday() {
    assert!(whole::<DateTime>(b"Tue, 1 Jul 2003 10:52:37 +0200"));
}

#[test]
fn date_time_without_weekday_or_seconds() {
    assert!(whole::<DateTime>(b"21 Nov 1997 09:55 -0600"));
}

#[test]
fn date_time_names_ignore_case() {
    assert!(whole::<DateTime>(b"tue, 1 JUL 2003 10:52:37 +0200"));
}

#[test]
fn date_time_stops_before_crlf() {
    assert_eq!(used::<DateTime>(b"1 Jul 2003 10:52:37 +0200\r\nX"), Ok(25));
}

#[test]
fn date_time_errors() {
    assert_eq!(used::<DateTime>(b""), Err(ParseError::Eof));
    assert_eq!(used::<DateTime>(b"Tue 1 Jul 2003"), Err(ParseError::NotFound));
    assert_eq!(used::<DateTime>(b"1 Jul 03 10:52 +0200"), Err(ParseError::NotFound));
}

#[test]
fn mailbox_forms() {
    assert!(whole::<Mailbox>(b"jdoe@example.com"));
    assert!(whole::<Mailbox>(b"John Doe <jdoe@machine.example>"));
    assert!(whole::<Mailbox>(b"\"Joe Q. Public\" <john.q.public@example.com>"));
    assert!(whole::<Mailbox>(b"<boss@nil.test>"));
    assert!(whole::<Mailbox>(b"a@[192.168.0.1]"));
}

#[test]
fn mailbox_list_takes_all_entries() {
    assert_eq!(used::<MailboxList>(b"a@b.c, Mary <mary@x.test>\r\n"), Ok(25));
    assert_eq!(used::<MailboxList>(b"a@b.c,\r\n"), Ok(5));
}

#[test]
fn address_list_with_group() {
    assert!(whole::<AddressList>(b"Undisclosed recipients:;"));
    assert!(whole::<AddressList>(b"A Group:Ed Jones <c@a.test>,joe@where.test,John <jdoe@one.test>;"));
    assert!(whole::<AddressList>(b"Mary Smith <mary@x.test>, jdoe@example.org"));
}

#[test]
fn comments_nest() {
    assert!(whole::<CFWS>(b" (a comment (nested) \\) quoted) "));
    assert_eq!(used::<CFWS>(b"(open"), Err(ParseError::NotFound));
}

#[test]
fn folding_white_space() {
    assert!(whole::<CFWS>(b"\r\n\t"));
    assert_eq!(used::<CFWS>(b" \r\nx"), Ok(1));
}

#[test]
fn msg_id_forms() {
    assert!(whole::<MsgId>(b"<1234@local.machine.example>"));
    assert!(whole::<MsgId>(b" <abc.def@[no.fold.literal]> "));
    assert_eq!(used::<MsgId>(b"<1234local.machine.example>"), Err(ParseError::NotFound));
}

#[test]
fn unstructured_folds_and_keeps_trailing_blanks() {
    assert_eq!(used::<Unstructured>(b" Hello\r\n world \r\nNext"), Ok(15));
    assert_eq!(used::<Unstructured>(b""), Ok(0));
}

#[test]
fn phrase_words() {
    assert_eq!(used::<Phrase>(b"Hello \"there\" you,"), Ok(17));
    assert_eq!(used::<Phrase>(b",x"), Err(ParseError::NotFound));
}

#[test]
fn received_token_takes_the_longest_match() {
    assert_eq!(used::<ReceivedToken>(b"mail.example.com (x) by"), Ok(21));
    assert_eq!(used::<ReceivedToken>(b"from x"), Ok(5));
    assert_eq!(used::<ReceivedToken>(b"joe@example.com;"), Ok(15));
}

#[test]
fn path_forms() {
    assert!(whole::<Path>(b"<pete@silly.test>"));
    assert!(whole::<Path>(b" < > "));
}

#[test]
fn field_name_stops_at_colon() {
    assert_eq!(used::<FieldName>(b"X-Mailer: x"), Ok(8));
    assert_eq!(used::<FieldName>(b": x"), Err(ParseError::NotFound));
}

#[test]
fn component_streams_its_bytes() {
    let (m, _) = Mailbox::parse(b"John Doe <jdoe@machine.example>").unwrap();
    let mut out = Vec::new();
    let n = m.stream(&mut out);
    assert_eq!(out, b"John Doe <jdoe@machine.example>".to_vec());
    assert_eq!(n, 31);
    assert_eq!(m.as_bytes(), b"John Doe <jdoe@machine.example>");
}
