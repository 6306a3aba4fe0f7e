use email_format::{
    AddressList, Bcc, Cc, Comments, DateTime, FieldName, From, InReplyTo, Keywords, Mailbox,
    MessageId, MsgId, OptionalField, OrigDate, Parsable, ParseError, Phrase, Received,
    ReceivedTokens, References, ReplyTo, ResentBcc, ResentCc, ResentDate, ResentFrom,
    ResentMessageId, ResentSender, ResentTo, Return, Sender, Streamable, Subject, To, TryFrom,
    Unstructured, CFWS,
};

fn streamed<T: Streamable>(t: &T) -> Vec<u8> {
    let mut out = Vec::new();
    let n = t.stream(&mut out);
    assert_eq!(n, out.len());
    out
}

fn roundtrip<T: Parsable + Streamable + PartialEq + std::fmt::Debug>(input: &[u8], canonical: &[u8]) {
    let (v, rest) = T::parse(input).unwrap();
    assert!(rest.is_empty());
    let out = streamed(&v);
    assert_eq!(out, canonical.to_vec());
    let (w, rest) = T::parse(&out).unwrap();
    assert!(rest.is_empty());
    assert_eq!(v, w);
}

#[test]
fn orig_date_parses_and_leaves_the_rest() {
    let input = b"Date: Tue, 1 Jul 2003 10:52:37 +0200\r\nFrom: a@b.c\r\n";
    let (d, rest) = OrigDate::parse(input).unwrap();
    assert_eq!(rest, b"From: a@b.c\r\n");
    let (dt, _) = DateTime::parse(b" Tue, 1 Jul 2003 10:52:37 +0200").unwrap();
    assert_eq!(d, OrigDate(dt));
}

#[test]
fn field_names_ignore_case() {
    let (a, _) = OrigDate::parse(b"DATE: 1 Jul 2003 10:52 +0200\r\n").unwrap();
    let (b, _) = OrigDate::parse(b"date: 1 Jul 2003 10:52 +0200\r\n").unwrap();
    assert_eq!(a, b);
    assert!(MessageId::parse(b"message-ID:<a@b>\r\n").is_ok());
}

#[test]
fn parse_errors() {
    assert_eq!(OrigDate::parse(b""), Err(ParseError::Eof));
    assert_eq!(OrigDate::parse(b"Dat"), Err(ParseError::NotFound));
    assert_eq!(OrigDate::parse(b"From: a@b.c\r\n"), Err(ParseError::NotFound));
    assert_eq!(OrigDate::parse(b"Date: yesterday\r\n"), Err(ParseError::NotFound));
    assert_eq!(OrigDate::parse(b"Date: 1 Jul 2003 10:52 +0200"), Err(ParseError::NotFound));
    assert_eq!(Return::parse(b""), Err(ParseError::NotFound));
    assert_eq!(OptionalField::parse(b""), Err(ParseError::NotFound));
}

#[test]
fn simple_fields_roundtrip() {
    roundtrip::<OrigDate>(b"date: 1 Jul 2003 10:52 +0200\r\n", b"Date: 1 Jul 2003 10:52 +0200\r\n");
    roundtrip::<From>(b"From: Mary <mary@x.test>, jdoe@one.test\r\n", b"From: Mary <mary@x.test>, jdoe@one.test\r\n");
    roundtrip::<Sender>(b"sender:<boss@nil.test>\r\n", b"Sender:<boss@nil.test>\r\n");
    roundtrip::<ReplyTo>(b"Reply-To: a@b.c\r\n", b"Reply-To: a@b.c\r\n");
    roundtrip::<To>(b"TO: Undisclosed:;\r\n", b"To: Undisclosed:;\r\n");
    roundtrip::<Cc>(b"cc: x@y.z\r\n", b"Cc: x@y.z\r\n");
    roundtrip::<MessageId>(b"Message-Id: <1234@local.machine.example>\r\n", b"Message-ID: <1234@local.machine.example>\r\n");
    roundtrip::<Subject>(b"Subject: Saying Hello\r\n", b"Subject: Saying Hello\r\n");
    roundtrip::<Comments>(b"Comments: none\r\n", b"Comments: none\r\n");
    roundtrip::<ResentDate>(b"Resent-Date: Mon, 24 Nov 1997 14:22:01 -0800\r\n", b"Resent-Date: Mon, 24 Nov 1997 14:22:01 -0800\r\n");
    roundtrip::<ResentFrom>(b"Resent-From: Mary <mary@x.test>\r\n", b"Resent-From: Mary <mary@x.test>\r\n");
    roundtrip::<ResentSender>(b"Resent-Sender: a@b.c\r\n", b"Resent-Sender: a@b.c\r\n");
    roundtrip::<ResentTo>(b"Resent-To: a@b.c\r\n", b"Resent-To: a@b.c\r\n");
    roundtrip::<ResentCc>(b"Resent-Cc: a@b.c\r\n", b"Resent-Cc: a@b.c\r\n");
    roundtrip::<ResentMessageId>(b"Resent-Message-ID: <78910@example.net>\r\n", b"Resent-Message-ID: <78910@example.net>\r\n");
    roundtrip::<Return>(b"Return-Path: <>\r\n", b"Return-Path: <>\r\n");
}

#[test]
fn subject_may_be_empty_and_folded() {
    let (s, rest) = Subject::parse(b"Subject:\r\n").unwrap();
    assert!(rest.is_empty());
    assert_eq!(streamed(&s), b"Subject:\r\n".to_vec());
    let (s, rest) = Subject::parse(b"Subject: a\r\n b\r\nX: y\r\n").unwrap();
    assert_eq!(rest, b"X: y\r\n");
    assert_eq!(streamed(&s), b"Subject: a\r\n b\r\n".to_vec());
}

#[test]
fn try_from_bytes_uses_the_whole_value() {
    let d = <OrigDate as TryFrom<&[u8]>>::try_from(&b"1 Jul 2003 10:52 +0200"[..]).unwrap();
    assert_eq!(streamed(&d), b"Date:1 Jul 2003 10:52 +0200\r\n".to_vec());
    assert_eq!(
        <OrigDate as TryFrom<&[u8]>>::try_from(&b"1 Jul 2003 10:52 +0200 x"[..]),
        Err(ParseError::TrailingInput(23))
    );
    assert_eq!(<OrigDate as TryFrom<&[u8]>>::try_from(&b""[..]), Err(ParseError::Eof));
    assert_eq!(<OrigDate as TryFrom<&[u8]>>::try_from(&b"soon"[..]), Err(ParseError::NotFound));
}

#[test]
fn try_from_str_is_try_from_its_bytes() {
    let a = <Subject as TryFrom<&str>>::try_from("Hello there").unwrap();
    let b = <Subject as TryFrom<&[u8]>>::try_from(&b"Hello there"[..]).unwrap();
    assert_eq!(a, b);
    assert_eq!(
        <To as TryFrom<&str>>::try_from("a@b.c d"),
        Err(ParseError::TrailingInput(6))
    );
}

#[test]
fn try_from_a_value_never_fails() {
    let (m, _) = Mailbox::parse(b"a@b.c").unwrap();
    let s = <Sender as TryFrom<Mailbox>>::try_from(m.clone()).unwrap();
    assert_eq!(s, Sender(m));
    assert_eq!(streamed(&s), b"Sender:a@b.c\r\n".to_vec());
}

#[test]
fn bcc_three_forms() {
    let (b, _) = Bcc::parse(b"Bcc: a@b.c\r\n").unwrap();
    assert!(matches!(b, Bcc::AddressList(_)));
    assert_eq!(streamed(&b), b"Bcc: a@b.c\r\n".to_vec());
    let (b, _) = Bcc::parse(b"Bcc: (hidden)\r\n").unwrap();
    assert!(matches!(b, Bcc::CFWS(_)));
    assert_eq!(streamed(&b), b"Bcc: (hidden)\r\n".to_vec());
    let (b, rest) = Bcc::parse(b"BCC:\r\nX").unwrap();
    assert_eq!(b, Bcc::Empty);
    assert_eq!(rest, b"X");
    assert_eq!(streamed(&b), b"Bcc:\r\n".to_vec());
    assert_eq!(Bcc::parse(b"Bcc: a@b.c;\r\n"), Err(ParseError::NotFound));
    assert_eq!(Bcc::parse(b""), Err(ParseError::Eof));
}

#[test]
fn resent_bcc_forms() {
    let (b, _) = ResentBcc::parse(b"Resent-Bcc:\r\n").unwrap();
    assert_eq!(b, ResentBcc::Empty);
    assert_eq!(streamed(&b), b"Resent-Bcc:\r\n".to_vec());
    let b = <ResentBcc as TryFrom<&[u8]>>::try_from(&b"a@b.c"[..]).unwrap();
    assert_eq!(streamed(&b), b"Resent-Bcc:a@b.c\r\n".to_vec());
    let (al, _) = AddressList::parse(b"x@y.z").unwrap();
    let b = <Bcc as TryFrom<AddressList>>::try_from(al.clone()).unwrap();
    assert_eq!(b, Bcc::AddressList(al));
}

#[test]
fn in_reply_to_needs_a_message_id() {
    let (r, rest) = InReplyTo::parse(b"In-Reply-To: <a@b> <c@d>\r\n").unwrap();
    assert!(rest.is_empty());
    assert_eq!(r.0.len(), 2);
    assert_eq!(streamed(&r), b"In-Reply-To: <a@b> <c@d>\r\n".to_vec());
    assert_eq!(InReplyTo::parse(b"In-Reply-To:\r\n"), Err(ParseError::NotFound));
    assert_eq!(References::parse(b"References: <a@b> x\r\n"), Err(ParseError::NotFound));
}

#[test]
fn message_id_lists_from_bytes() {
    let r = <References as TryFrom<&[u8]>>::try_from(&b"<a@b><c@d>"[..]).unwrap();
    assert_eq!(r.0.len(), 2);
    let r = <InReplyTo as TryFrom<&[u8]>>::try_from(&b""[..]).unwrap();
    assert!(r.0.is_empty());
    assert_eq!(
        <References as TryFrom<&[u8]>>::try_from(&b"<a@b> junk"[..]),
        Err(ParseError::TrailingInput(6))
    );
    let (m, _) = MsgId::parse(b"<a@b>").unwrap();
    let r = <References as TryFrom<Vec<MsgId>>>::try_from(vec![m.clone(), m]).unwrap();
    assert_eq!(streamed(&r), b"References:<a@b><a@b>\r\n".to_vec());
}

#[test]
fn keywords_are_separated_by_commas() {
    let (k, rest) = Keywords::parse(b"Keywords: alpha, beta\r\n").unwrap();
    assert!(rest.is_empty());
    assert_eq!(k.0.len(), 2);
    assert_eq!(streamed(&k), b"Keywords: alpha, beta\r\n".to_vec());
    let (k, _) = Keywords::parse(b"Keywords: alpha beta\r\n").unwrap();
    assert_eq!(k.0.len(), 1);
    assert_eq!(Keywords::parse(b"Keywords: alpha,\r\n"), Err(ParseError::NotFound));
    assert_eq!(Keywords::parse(b"Keywords:\r\n"), Err(ParseError::NotFound));
    assert_eq!(Keywords::parse(b""), Err(ParseError::Eof));
}

#[test]
fn keywords_from_bytes_and_phrases() {
    let k = <Keywords as TryFrom<&[u8]>>::try_from(&b"a, b"[..]).unwrap();
    assert_eq!(k.0.len(), 2);
    assert_eq!(<Keywords as TryFrom<&[u8]>>::try_from(&b"a,"[..]), Err(ParseError::TrailingInput(1)));
    assert_eq!(<Keywords as TryFrom<&[u8]>>::try_from(&b", a"[..]), Err(ParseError::TrailingInput(0)));
    assert!(<Keywords as TryFrom<&[u8]>>::try_from(&b""[..]).unwrap().0.is_empty());
    let (a, _) = Phrase::parse(b"alpha").unwrap();
    let (b, _) = Phrase::parse(b" beta").unwrap();
    let k = <Keywords as TryFrom<Vec<Phrase>>>::try_from(vec![a, b]).unwrap();
    assert_eq!(streamed(&k), b"Keywords:alpha, beta\r\n".to_vec());
    let bytes = streamed(&k);
    let (back, rest) = Keywords::parse(&bytes).unwrap();
    assert!(rest.is_empty());
    assert_eq!(back, k);
}

#[test]
fn received_with_tokens() {
    let input = b"Received: from x.example by y.example; Tue, 1 Jul 2003 10:52:37 +0200\r\n";
    let (r, rest) = Received::parse(input).unwrap();
    assert!(rest.is_empty());
    match &r.received_tokens {
        ReceivedTokens::Tokens(v) => assert_eq!(v.len(), 4),
        ReceivedTokens::Comment(_) => panic!("tokens expected"),
    }
    assert_eq!(streamed(&r), input.to_vec());
}

#[test]
fn received_with_a_comment() {
    let input = b"Received: (nothing); 1 Jul 2003 10:52 +0200\r\n";
    let (r, _) = Received::parse(input).unwrap();
    assert!(matches!(r.received_tokens, ReceivedTokens::Comment(_)));
    assert_eq!(streamed(&r), input.to_vec());
}

#[test]
fn received_with_nothing_before_the_semicolon() {
    let input = b"Received:; Fri, 21 Nov 1997 09:55:06 -0600\r\n";
    let (r, rest) = Received::parse(input).unwrap();
    assert!(rest.is_empty());
    assert_eq!(r.received_tokens, ReceivedTokens::Tokens(vec![]));
    assert_eq!(streamed(&r), input.to_vec());
}

#[test]
fn received_errors() {
    assert_eq!(Received::parse(b""), Err(ParseError::Eof));
    assert_eq!(Received::parse(b"Received:; never\r\n"), Err(ParseError::NotFound));
    assert_eq!(Received::parse(b"Received: from x"), Err(ParseError::Eof));
    assert_eq!(Received::parse(b"Received: from x\r\n"), Err(ParseError::Expected(b';')));
    assert_eq!(Received::parse(b"Received: from x; never\r\n"), Err(ParseError::NotFound));
}

#[test]
fn received_from_bytes_and_parts() {
    let input = b"Received: from x; 1 Jul 2003 10:52 +0200\r\n";
    let r = <Received as TryFrom<&[u8]>>::try_from(&input[..]).unwrap();
    assert_eq!(streamed(&r), input.to_vec());
    let mut longer = input.to_vec();
    longer.extend_from_slice(b"X");
    assert_eq!(
        <Received as TryFrom<&[u8]>>::try_from(&longer[..]),
        Err(ParseError::TrailingInput(input.len()))
    );
    let (c, _) = CFWS::parse(b" ").unwrap();
    let (d, _) = DateTime::parse(b" 1 Jul 2003 10:52 +0200").unwrap();
    let r = <Received as TryFrom<(ReceivedTokens, DateTime)>>::try_from((ReceivedTokens::Comment(c), d)).unwrap();
    assert_eq!(streamed(&r), b"Received: ; 1 Jul 2003 10:52 +0200\r\n".to_vec());
}

#[test]
fn optional_field_keeps_its_name() {
    let (f, rest) = OptionalField::parse(b"X-Mailer: Verus mail 1.0\r\nX").unwrap();
    assert_eq!(rest, b"X");
    assert_eq!(streamed(&f), b"X-Mailer: Verus mail 1.0\r\n".to_vec());
    assert_eq!(OptionalField::parse(b"X-Mailer Verus\r\n"), Err(ParseError::Expected(b':')));
    assert_eq!(OptionalField::parse(b"X-Mailer"), Err(ParseError::Eof));
    assert_eq!(OptionalField::parse(b"X-Mailer: a\r"), Err(ParseError::NotFound));
    let (n, _) = FieldName::parse(b"X-Tag").unwrap();
    let (v, _) = Unstructured::parse(b" on").unwrap();
    let f = <OptionalField as TryFrom<(FieldName, Unstructured)>>::try_from((n, v)).unwrap();
    assert_eq!(streamed(&f), b"X-Tag: on\r\n".to_vec());
}
