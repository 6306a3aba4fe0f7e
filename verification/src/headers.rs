//! The header fields of RFC 5322 section 3.6: how each is parsed from the
//! front of a byte slice, written out, and made from its parts.
//!
//! A field is its name (matched without regard to case), its value and CR LF.
//! Parsing fails with `Eof` on empty input (the optional field and the
//! return path excepted), and with `NotFound` when the name, the value or the
//! CR LF is missing; a `;` or `:` required inside a field is reported with
//! `Eof` when the input ends before it and with `Expected` when another byte
//! stands there.
use vstd::prelude::*;
use vstd::slice::{slice_subrange, slice_to_vec};
use vstd::string::StringSliceAdditionalSpecFns;
use crate::error::ParseError;
use crate::scan::{
    append, ascii_lower, crlf, crlf_at, group_skip, in_class, same_up_to_case, starts_ci, starts_crlf,
    Class,
};
use crate::address::{
    addr_text, angle_text, is_atom_text, lemma_address_list_one, lemma_empty_group_takes,
    lemma_crlf_starts_no_value, lemma_received_token_angle, lemma_mailbox_addr_spec_takes,
    lemma_mailbox_list_one, lemma_mailbox_named_takes, lemma_msg_id_takes,
    lemma_no_cfws_at_semicolon, msg_id_text,
};
use crate::lexical::{is_text, is_dot_atom_text, lemma_unstructured_takes_text};
use crate::datetime::{all_digits, date_time, date_time_text, lemma_date_time_takes, two_digits};
use crate::traits::{parsed, Parsable, Streamable, TryFrom};
use crate::types::{
    parse_component, component_parse, AddressList, Component, DateTime, FieldName, Mailbox,
    MailboxList, MsgId, Path, Phrase, ReceivedToken, Unstructured, CFWS,
};
use crate::field::{
    append_crlf, append_name, concat, field_parse, field_stream, join_commas, lemma_concat_repeat,
    lemma_field_name_case, lemma_field_parse_stream, lemma_field_stream_parse,
    lemma_name_match_case, name_at_start, name_bytes, name_vec, parse_field, parse_repeat, repeat,
    repeat_len, stream_all, stream_field, views, Name, comma_list, lemma_comma_list_bytes,
    parse_comma_list,
};

verus! {

broadcast use group_skip;

/// A header field with a fixed name, and the laws that tie its parsing to
/// its streaming.
pub trait Field: Parsable + Streamable {
    /// The name as the field is written out, colon included.
    spec fn name() -> Seq<u8>;

    /// The values that stream to bytes which parse back to them.
    spec fn well_formed(v: Self::V) -> bool;

    /// Parsing does not depend on the case of the letters of the field name.
    proof fn lemma_name_case(s1: Seq<u8>, s2: Seq<u8>)
        requires
            same_up_to_case(s1, s2, Self::name().len()),
        ensures
            Self::spec_parse(s1) == Self::spec_parse(s2),
    ;

    /// A well-formed value, streamed, parses back to itself and uses all the
    /// streamed bytes.
    proof fn lemma_stream_parse(v: Self::V)
        requires
            Self::well_formed(v),
        ensures
            Self::spec_parse(Self::spec_stream(v)) == Ok::<(Self::V, nat), ParseError>(
                (v, Self::spec_stream(v).len()),
            ),
    ;
}

/// A field whose parsed values stream back to the bytes they were parsed
/// from.
pub trait Reproducible: Field {
    /// What was parsed streams back to the bytes that were used, but for the
    /// case of the letters of the field name.
    proof fn lemma_parse_stream(s: Seq<u8>)
        requires
            Self::spec_parse(s) is Ok,
        ensures
            Self::spec_parse(s) matches Ok((v, n)) && same_up_to_case(
                Self::spec_stream(v),
                s.take(n as int),
                Self::name().len(),
            ),
    ;
}

/// Converting bytes into a value of `C` that must use all of them: the
/// error of parsing `C`, or `TrailingInput` with the number of bytes that
/// the value used when bytes are left over.
pub open spec fn whole_value<C: Component>(s: Seq<u8>) -> Result<Seq<u8>, ParseError> {
    match component_parse::<C>(s) {
        Ok((v, n)) => if n < s.len() {
            Err(ParseError::TrailingInput(n as usize))
        } else {
            Ok(v)
        },
        Err(e) => Err(e),
    }
}

pub fn convert_whole<C: Component>(input: &[u8]) -> (r: Result<C, ParseError>)
    ensures
        match r {
            Ok(c) => whole_value::<C>(input@) == Ok::<Seq<u8>, ParseError>(c@),
            Err(e) => whole_value::<C>(input@) == Err::<Seq<u8>, ParseError>(e),
        },
{
    match parse_component::<C>(input) {
        Ok((c, rest)) => if rest.len() > 0 {
            Err(ParseError::TrailingInput(input.len() - rest.len()))
        } else {
            Ok(c)
        },
        Err(e) => Err(e),
    }
}

/// The origination date of a message.
///
/// `orig-date = "Date:" date-time CRLF` (RFC 5322 section 3.6.1).
#[derive(Debug, Clone, PartialEq, Eq)]
pub struct OrigDate(pub DateTime);

impl View for OrigDate {
    type V = Seq<u8>;

    open spec fn view(&self) -> Seq<u8> {
        self.0@
    }
}

impl Parsable for OrigDate {
    open spec fn spec_parse(input: Seq<u8>) -> Result<(Seq<u8>, nat), ParseError> {
        field_parse::<DateTime>(input, name_bytes(Name::Date), true)
    }

    fn parse(input: &[u8]) -> (r: Result<(Self, &[u8]), ParseError>) {
        match parse_field::<DateTime>(input, Name::Date, true) {
            Ok((c, rest)) => Ok((OrigDate(c), rest)),
            Err(e) => Err(e),
        }
    }
}

impl Streamable for OrigDate {
    open spec fn spec_stream(v: Seq<u8>) -> Seq<u8> {
        field_stream(Name::Date, v)
    }

    fn stream(&self, out: &mut Vec<u8>) -> (n: usize) {
        stream_field(Name::Date, &self.0, out)
    }
}

impl<'a> TryFrom<&'a [u8]> for OrigDate {
    type Err = ParseError;

    /// The field whose value is all of `input`, without name and CR LF.
    open spec fn spec_try_from(input: &'a [u8]) -> Result<Seq<u8>, ParseError> {
        whole_value::<DateTime>(input@)
    }

    fn try_from(input: &'a [u8]) -> (r: Result<OrigDate, ParseError>) {
        match convert_whole::<DateTime>(input) {
            Ok(c) => Ok(OrigDate(c)),
            Err(e) => Err(e),
        }
    }
}

impl<'a> TryFrom<&'a str> for OrigDate {
    type Err = ParseError;

    /// The field whose value is all of the bytes of `input`.
    open spec fn spec_try_from(input: &'a str) -> Result<Seq<u8>, ParseError> {
        whole_value::<DateTime>(input.spec_bytes())
    }

    fn try_from(input: &'a str) -> (r: Result<OrigDate, ParseError>) {
        <OrigDate as TryFrom<&'a [u8]>>::try_from(input.as_bytes())
    }
}

impl TryFrom<DateTime> for OrigDate {
    type Err = ParseError;

    /// The field with the given value; it never fails.
    open spec fn spec_try_from(input: DateTime) -> Result<Seq<u8>, ParseError> {
        Ok(input@)
    }

    fn try_from(input: DateTime) -> (r: Result<OrigDate, ParseError>) {
        Ok(OrigDate(input))
    }
}

impl Field for OrigDate {
    open spec fn name() -> Seq<u8> {
        name_bytes(Name::Date)
    }

    open spec fn well_formed(v: Seq<u8>) -> bool {
        DateTime::rule(v + crlf()) == Some(v.len())
    }

    proof fn lemma_name_case(s1: Seq<u8>, s2: Seq<u8>) {
        lemma_field_name_case::<DateTime>(s1, s2, name_bytes(Name::Date), true);
    }

    proof fn lemma_stream_parse(v: Seq<u8>) {
        lemma_field_stream_parse::<DateTime>(v, Name::Date, true);
    }
}

impl Reproducible for OrigDate {
    proof fn lemma_parse_stream(s: Seq<u8>) {
        lemma_field_parse_stream::<DateTime>(s, Name::Date, true);
    }
}

/// The authors of a message.
///
/// `from = "From:" mailbox-list CRLF` (RFC 5322 section 3.6.2).
#[derive(Debug, Clone, PartialEq, Eq)]
pub struct From(pub MailboxList);

impl View for From {
    type V = Seq<u8>;

    open spec fn view(&self) -> Seq<u8> {
        self.0@
    }
}

impl Parsable for From {
    open spec fn spec_parse(input: Seq<u8>) -> Result<(Seq<u8>, nat), ParseError> {
        field_parse::<MailboxList>(input, name_bytes(Name::From), true)
    }

    fn parse(input: &[u8]) -> (r: Result<(Self, &[u8]), ParseError>) {
        match parse_field::<MailboxList>(input, Name::From, true) {
            Ok((c, rest)) => Ok((From(c), rest)),
            Err(e) => Err(e),
        }
    }
}

impl Streamable for From {
    open spec fn spec_stream(v: Seq<u8>) -> Seq<u8> {
        field_stream(Name::From, v)
    }

    fn stream(&self, out: &mut Vec<u8>) -> (n: usize) {
        stream_field(Name::From, &self.0, out)
    }
}

impl<'a> TryFrom<&'a [u8]> for From {
    type Err = ParseError;

    /// The field whose value is all of `input`, without name and CR LF.
    open spec fn spec_try_from(input: &'a [u8]) -> Result<Seq<u8>, ParseError> {
        whole_value::<MailboxList>(input@)
    }

    fn try_from(input: &'a [u8]) -> (r: Result<From, ParseError>) {
        match convert_whole::<MailboxList>(input) {
            Ok(c) => Ok(From(c)),
            Err(e) => Err(e),
        }
    }
}

impl<'a> TryFrom<&'a str> for From {
    type Err = ParseError;

    /// The field whose value is all of the bytes of `input`.
    open spec fn spec_try_from(input: &'a str) -> Result<Seq<u8>, ParseError> {
        whole_value::<MailboxList>(input.spec_bytes())
    }

    fn try_from(input: &'a str) -> (r: Result<From, ParseError>) {
        <From as TryFrom<&'a [u8]>>::try_from(input.as_bytes())
    }
}

impl TryFrom<MailboxList> for From {
    type Err = ParseError;

    /// The field with the given value; it never fails.
    open spec fn spec_try_from(input: MailboxList) -> Result<Seq<u8>, ParseError> {
        Ok(input@)
    }

    fn try_from(input: MailboxList) -> (r: Result<From, ParseError>) {
        Ok(From(input))
    }
}

impl Field for From {
    open spec fn name() -> Seq<u8> {
        name_bytes(Name::From)
    }

    open spec fn well_formed(v: Seq<u8>) -> bool {
        MailboxList::rule(v + crlf()) == Some(v.len())
    }

    proof fn lemma_name_case(s1: Seq<u8>, s2: Seq<u8>) {
        lemma_field_name_case::<MailboxList>(s1, s2, name_bytes(Name::From), true);
    }

    proof fn lemma_stream_parse(v: Seq<u8>) {
        lemma_field_stream_parse::<MailboxList>(v, Name::From, true);
    }
}

impl Reproducible for From {
    proof fn lemma_parse_stream(s: Seq<u8>) {
        lemma_field_parse_stream::<MailboxList>(s, Name::From, true);
    }
}

/// The agent that sent a message.
///
/// `sender = "Sender:" mailbox CRLF` (RFC 5322 section 3.6.2).
#[derive(Debug, Clone, PartialEq, Eq)]
pub struct Sender(pub Mailbox);

impl View for Sender {
    type V = Seq<u8>;

    open spec fn view(&self) -> Seq<u8> {
        self.0@
    }
}

impl Parsable for Sender {
    open spec fn spec_parse(input: Seq<u8>) -> Result<(Seq<u8>, nat), ParseError> {
        field_parse::<Mailbox>(input, name_bytes(Name::Sender), true)
    }

    fn parse(input: &[u8]) -> (r: Result<(Self, &[u8]), ParseError>) {
        match parse_field::<Mailbox>(input, Name::Sender, true) {
            Ok((c, rest)) => Ok((Sender(c), rest)),
            Err(e) => Err(e),
        }
    }
}

impl Streamable for Sender {
    open spec fn spec_stream(v: Seq<u8>) -> Seq<u8> {
        field_stream(Name::Sender, v)
    }

    fn stream(&self, out: &mut Vec<u8>) -> (n: usize) {
        stream_field(Name::Sender, &self.0, out)
    }
}

impl<'a> TryFrom<&'a [u8]> for Sender {
    type Err = ParseError;

    /// The field whose value is all of `input`, without name and CR LF.
    open spec fn spec_try_from(input: &'a [u8]) -> Result<Seq<u8>, ParseError> {
        whole_value::<Mailbox>(input@)
    }

    fn try_from(input: &'a [u8]) -> (r: Result<Sender, ParseError>) {
        match convert_whole::<Mailbox>(input) {
            Ok(c) => Ok(Sender(c)),
            Err(e) => Err(e),
        }
    }
}

impl<'a> TryFrom<&'a str> for Sender {
    type Err = ParseError;

    /// The field whose value is all of the bytes of `input`.
    open spec fn spec_try_from(input: &'a str) -> Result<Seq<u8>, ParseError> {
        whole_value::<Mailbox>(input.spec_bytes())
    }

    fn try_from(input: &'a str) -> (r: Result<Sender, ParseError>) {
        <Sender as TryFrom<&'a [u8]>>::try_from(input.as_bytes())
    }
}

impl TryFrom<Mailbox> for Sender {
    type Err = ParseError;

    /// The field with the given value; it never fails.
    open spec fn spec_try_from(input: Mailbox) -> Result<Seq<u8>, ParseError> {
        Ok(input@)
    }

    fn try_from(input: Mailbox) -> (r: Result<Sender, ParseError>) {
        Ok(Sender(input))
    }
}

impl Field for Sender {
    open spec fn name() -> Seq<u8> {
        name_bytes(Name::Sender)
    }

    open spec fn well_formed(v: Seq<u8>) -> bool {
        Mailbox::rule(v + crlf()) == Some(v.len())
    }

    proof fn lemma_name_case(s1: Seq<u8>, s2: Seq<u8>) {
        lemma_field_name_case::<Mailbox>(s1, s2, name_bytes(Name::Sender), true);
    }

    proof fn lemma_stream_parse(v: Seq<u8>) {
        lemma_field_stream_parse::<Mailbox>(v, Name::Sender, true);
    }
}

impl Reproducible for Sender {
    proof fn lemma_parse_stream(s: Seq<u8>) {
        lemma_field_parse_stream::<Mailbox>(s, Name::Sender, true);
    }
}

/// Where replies to a message go.
///
/// `reply-to = "Reply-To:" address-list CRLF` (RFC 5322 section 3.6.2).
#[derive(Debug, Clone, PartialEq, Eq)]
pub struct ReplyTo(pub AddressList);

impl View for ReplyTo {
    type V = Seq<u8>;

    open spec fn view(&self) -> Seq<u8> {
        self.0@
    }
}

impl Parsable for ReplyTo {
    open spec fn spec_parse(input: Seq<u8>) -> Result<(Seq<u8>, nat), ParseError> {
        field_parse::<AddressList>(input, name_bytes(Name::ReplyTo), true)
    }

    fn parse(input: &[u8]) -> (r: Result<(Self, &[u8]), ParseError>) {
        match parse_field::<AddressList>(input, Name::ReplyTo, true) {
            Ok((c, rest)) => Ok((ReplyTo(c), rest)),
            Err(e) => Err(e),
        }
    }
}

impl Streamable for ReplyTo {
    open spec fn spec_stream(v: Seq<u8>) -> Seq<u8> {
        field_stream(Name::ReplyTo, v)
    }

    fn stream(&self, out: &mut Vec<u8>) -> (n: usize) {
        stream_field(Name::ReplyTo, &self.0, out)
    }
}

impl<'a> TryFrom<&'a [u8]> for ReplyTo {
    type Err = ParseError;

    /// The field whose value is all of `input`, without name and CR LF.
    open spec fn spec_try_from(input: &'a [u8]) -> Result<Seq<u8>, ParseError> {
        whole_value::<AddressList>(input@)
    }

    fn try_from(input: &'a [u8]) -> (r: Result<ReplyTo, ParseError>) {
        match convert_whole::<AddressList>(input) {
            Ok(c) => Ok(ReplyTo(c)),
            Err(e) => Err(e),
        }
    }
}

impl<'a> TryFrom<&'a str> for ReplyTo {
    type Err = ParseError;

    /// The field whose value is all of the bytes of `input`.
    open spec fn spec_try_from(input: &'a str) -> Result<Seq<u8>, ParseError> {
        whole_value::<AddressList>(input.spec_bytes())
    }

    fn try_from(input: &'a str) -> (r: Result<ReplyTo, ParseError>) {
        <ReplyTo as TryFrom<&'a [u8]>>::try_from(input.as_bytes())
    }
}

impl TryFrom<AddressList> for ReplyTo {
    type Err = ParseError;

    /// The field with the given value; it never fails.
    open spec fn spec_try_from(input: AddressList) -> Result<Seq<u8>, ParseError> {
        Ok(input@)
    }

    fn try_from(input: AddressList) -> (r: Result<ReplyTo, ParseError>) {
        Ok(ReplyTo(input))
    }
}

impl Field for ReplyTo {
    open spec fn name() -> Seq<u8> {
        name_bytes(Name::ReplyTo)
    }

    open spec fn well_formed(v: Seq<u8>) -> bool {
        AddressList::rule(v + crlf()) == Some(v.len())
    }

    proof fn lemma_name_case(s1: Seq<u8>, s2: Seq<u8>) {
        lemma_field_name_case::<AddressList>(s1, s2, name_bytes(Name::ReplyTo), true);
    }

    proof fn lemma_stream_parse(v: Seq<u8>) {
        lemma_field_stream_parse::<AddressList>(v, Name::ReplyTo, true);
    }
}

impl Reproducible for ReplyTo {
    proof fn lemma_parse_stream(s: Seq<u8>) {
        lemma_field_parse_stream::<AddressList>(s, Name::ReplyTo, true);
    }
}

/// The primary recipients of a message.
///
/// `to = "To:" address-list CRLF` (RFC 5322 section 3.6.3).
#[derive(Debug, Clone, PartialEq, Eq)]
pub struct To(pub AddressList);

impl View for To {
    type V = Seq<u8>;

    open spec fn view(&self) -> Seq<u8> {
        self.0@
    }
}

impl Parsable for To {
    open spec fn spec_parse(input: Seq<u8>) -> Result<(Seq<u8>, nat), ParseError> {
        field_parse::<AddressList>(input, name_bytes(Name::To), true)
    }

    fn parse(input: &[u8]) -> (r: Result<(Self, &[u8]), ParseError>) {
        match parse_field::<AddressList>(input, Name::To, true) {
            Ok((c, rest)) => Ok((To(c), rest)),
            Err(e) => Err(e),
        }
    }
}

impl Streamable for To {
    open spec fn spec_stream(v: Seq<u8>) -> Seq<u8> {
        field_stream(Name::To, v)
    }

    fn stream(&self, out: &mut Vec<u8>) -> (n: usize) {
        stream_field(Name::To, &self.0, out)
    }
}

impl<'a> TryFrom<&'a [u8]> for To {
    type Err = ParseError;

    /// The field whose value is all of `input`, without name and CR LF.
    open spec fn spec_try_from(input: &'a [u8]) -> Result<Seq<u8>, ParseError> {
        whole_value::<AddressList>(input@)
    }

    fn try_from(input: &'a [u8]) -> (r: Result<To, ParseError>) {
        match convert_whole::<AddressList>(input) {
            Ok(c) => Ok(To(c)),
            Err(e) => Err(e),
        }
    }
}

impl<'a> TryFrom<&'a str> for To {
    type Err = ParseError;

    /// The field whose value is all of the bytes of `input`.
    open spec fn spec_try_from(input: &'a str) -> Result<Seq<u8>, ParseError> {
        whole_value::<AddressList>(input.spec_bytes())
    }

    fn try_from(input: &'a str) -> (r: Result<To, ParseError>) {
        <To as TryFrom<&'a [u8]>>::try_from(input.as_bytes())
    }
}

impl TryFrom<AddressList> for To {
    type Err = ParseError;

    /// The field with the given value; it never fails.
    open spec fn spec_try_from(input: AddressList) -> Result<Seq<u8>, ParseError> {
        Ok(input@)
    }

    fn try_from(input: AddressList) -> (r: Result<To, ParseError>) {
        Ok(To(input))
    }
}

impl Field for To {
    open spec fn name() -> Seq<u8> {
        name_bytes(Name::To)
    }

    open spec fn well_formed(v: Seq<u8>) -> bool {
        AddressList::rule(v + crlf()) == Some(v.len())
    }

    proof fn lemma_name_case(s1: Seq<u8>, s2: Seq<u8>) {
        lemma_field_name_case::<AddressList>(s1, s2, name_bytes(Name::To), true);
    }

    proof fn lemma_stream_parse(v: Seq<u8>) {
        lemma_field_stream_parse::<AddressList>(v, Name::To, true);
    }
}

impl Reproducible for To {
    proof fn lemma_parse_stream(s: Seq<u8>) {
        lemma_field_parse_stream::<AddressList>(s, Name::To, true);
    }
}

/// The recipients of a copy of a message.
///
/// `cc = "Cc:" address-list CRLF` (RFC 5322 section 3.6.3).
#[derive(Debug, Clone, PartialEq, Eq)]
pub struct Cc(pub AddressList);

impl View for Cc {
    type V = Seq<u8>;

    open spec fn view(&self) -> Seq<u8> {
        self.0@
    }
}

impl Parsable for Cc {
    open spec fn spec_parse(input: Seq<u8>) -> Result<(Seq<u8>, nat), ParseError> {
        field_parse::<AddressList>(input, name_bytes(Name::Cc), true)
    }

    fn parse(input: &[u8]) -> (r: Result<(Self, &[u8]), ParseError>) {
        match parse_field::<AddressList>(input, Name::Cc, true) {
            Ok((c, rest)) => Ok((Cc(c), rest)),
            Err(e) => Err(e),
        }
    }
}

impl Streamable for Cc {
    open spec fn spec_stream(v: Seq<u8>) -> Seq<u8> {
        field_stream(Name::Cc, v)
    }

    fn stream(&self, out: &mut Vec<u8>) -> (n: usize) {
        stream_field(Name::Cc, &self.0, out)
    }
}

impl<'a> TryFrom<&'a [u8]> for Cc {
    type Err = ParseError;

    /// The field whose value is all of `input`, without name and CR LF.
    open spec fn spec_try_from(input: &'a [u8]) -> Result<Seq<u8>, ParseError> {
        whole_value::<AddressList>(input@)
    }

    fn try_from(input: &'a [u8]) -> (r: Result<Cc, ParseError>) {
        match convert_whole::<AddressList>(input) {
            Ok(c) => Ok(Cc(c)),
            Err(e) => Err(e),
        }
    }
}

impl<'a> TryFrom<&'a str> for Cc {
    type Err = ParseError;

    /// The field whose value is all of the bytes of `input`.
    open spec fn spec_try_from(input: &'a str) -> Result<Seq<u8>, ParseError> {
        whole_value::<AddressList>(input.spec_bytes())
    }

    fn try_from(input: &'a str) -> (r: Result<Cc, ParseError>) {
        <Cc as TryFrom<&'a [u8]>>::try_from(input.as_bytes())
    }
}

impl TryFrom<AddressList> for Cc {
    type Err = ParseError;

    /// The field with the given value; it never fails.
    open spec fn spec_try_from(input: AddressList) -> Result<Seq<u8>, ParseError> {
        Ok(input@)
    }

    fn try_from(input: AddressList) -> (r: Result<Cc, ParseError>) {
        Ok(Cc(input))
    }
}

impl Field for Cc {
    open spec fn name() -> Seq<u8> {
        name_bytes(Name::Cc)
    }

    open spec fn well_formed(v: Seq<u8>) -> bool {
        AddressList::rule(v + crlf()) == Some(v.len())
    }

    proof fn lemma_name_case(s1: Seq<u8>, s2: Seq<u8>) {
        lemma_field_name_case::<AddressList>(s1, s2, name_bytes(Name::Cc), true);
    }

    proof fn lemma_stream_parse(v: Seq<u8>) {
        lemma_field_stream_parse::<AddressList>(v, Name::Cc, true);
    }
}

impl Reproducible for Cc {
    proof fn lemma_parse_stream(s: Seq<u8>) {
        lemma_field_parse_stream::<AddressList>(s, Name::Cc, true);
    }
}

/// The identifier of a message.
///
/// `message-id = "Message-ID:" msg-id CRLF` (RFC 5322 section 3.6.4).
#[derive(Debug, Clone, PartialEq, Eq)]
pub struct MessageId(pub MsgId);

impl View for MessageId {
    type V = Seq<u8>;

    open spec fn view(&self) -> Seq<u8> {
        self.0@
    }
}

impl Parsable for MessageId {
    open spec fn spec_parse(input: Seq<u8>) -> Result<(Seq<u8>, nat), ParseError> {
        field_parse::<MsgId>(input, name_bytes(Name::MessageId), true)
    }

    fn parse(input: &[u8]) -> (r: Result<(Self, &[u8]), ParseError>) {
        match parse_field::<MsgId>(input, Name::MessageId, true) {
            Ok((c, rest)) => Ok((MessageId(c), rest)),
            Err(e) => Err(e),
        }
    }
}

impl Streamable for MessageId {
    open spec fn spec_stream(v: Seq<u8>) -> Seq<u8> {
        field_stream(Name::MessageId, v)
    }

    fn stream(&self, out: &mut Vec<u8>) -> (n: usize) {
        stream_field(Name::MessageId, &self.0, out)
    }
}

impl<'a> TryFrom<&'a [u8]> for MessageId {
    type Err = ParseError;

    /// The field whose value is all of `input`, without name and CR LF.
    open spec fn spec_try_from(input: &'a [u8]) -> Result<Seq<u8>, ParseError> {
        whole_value::<MsgId>(input@)
    }

    fn try_from(input: &'a [u8]) -> (r: Result<MessageId, ParseError>) {
        match convert_whole::<MsgId>(input) {
            Ok(c) => Ok(MessageId(c)),
            Err(e) => Err(e),
        }
    }
}

impl<'a> TryFrom<&'a str> for MessageId {
    type Err = ParseError;

    /// The field whose value is all of the bytes of `input`.
    open spec fn spec_try_from(input: &'a str) -> Result<Seq<u8>, ParseError> {
        whole_value::<MsgId>(input.spec_bytes())
    }

    fn try_from(input: &'a str) -> (r: Result<MessageId, ParseError>) {
        <MessageId as TryFrom<&'a [u8]>>::try_from(input.as_bytes())
    }
}

impl TryFrom<MsgId> for MessageId {
    type Err = ParseError;

    /// The field with the given value; it never fails.
    open spec fn spec_try_from(input: MsgId) -> Result<Seq<u8>, ParseError> {
        Ok(input@)
    }

    fn try_from(input: MsgId) -> (r: Result<MessageId, ParseError>) {
        Ok(MessageId(input))
    }
}

impl Field for MessageId {
    open spec fn name() -> Seq<u8> {
        name_bytes(Name::MessageId)
    }

    open spec fn well_formed(v: Seq<u8>) -> bool {
        MsgId::rule(v + crlf()) == Some(v.len())
    }

    proof fn lemma_name_case(s1: Seq<u8>, s2: Seq<u8>) {
        lemma_field_name_case::<MsgId>(s1, s2, name_bytes(Name::MessageId), true);
    }

    proof fn lemma_stream_parse(v: Seq<u8>) {
        lemma_field_stream_parse::<MsgId>(v, Name::MessageId, true);
    }
}

impl Reproducible for MessageId {
    proof fn lemma_parse_stream(s: Seq<u8>) {
        lemma_field_parse_stream::<MsgId>(s, Name::MessageId, true);
    }
}

/// The topic of a message.
///
/// `subject = "Subject:" unstructured CRLF` (RFC 5322 section 3.6.5).
#[derive(Debug, Clone, PartialEq, Eq)]
pub struct Subject(pub Unstructured);

impl View for Subject {
    type V = Seq<u8>;

    open spec fn view(&self) -> Seq<u8> {
        self.0@
    }
}

impl Parsable for Subject {
    open spec fn spec_parse(input: Seq<u8>) -> Result<(Seq<u8>, nat), ParseError> {
        field_parse::<Unstructured>(input, name_bytes(Name::Subject), true)
    }

    fn parse(input: &[u8]) -> (r: Result<(Self, &[u8]), ParseError>) {
        match parse_field::<Unstructured>(input, Name::Subject, true) {
            Ok((c, rest)) => Ok((Subject(c), rest)),
            Err(e) => Err(e),
        }
    }
}

impl Streamable for Subject {
    open spec fn spec_stream(v: Seq<u8>) -> Seq<u8> {
        field_stream(Name::Subject, v)
    }

    fn stream(&self, out: &mut Vec<u8>) -> (n: usize) {
        stream_field(Name::Subject, &self.0, out)
    }
}

impl<'a> TryFrom<&'a [u8]> for Subject {
    type Err = ParseError;

    /// The field whose value is all of `input`, without name and CR LF.
    open spec fn spec_try_from(input: &'a [u8]) -> Result<Seq<u8>, ParseError> {
        whole_value::<Unstructured>(input@)
    }

    fn try_from(input: &'a [u8]) -> (r: Result<Subject, ParseError>) {
        match convert_whole::<Unstructured>(input) {
            Ok(c) => Ok(Subject(c)),
            Err(e) => Err(e),
        }
    }
}

impl<'a> TryFrom<&'a str> for Subject {
    type Err = ParseError;

    /// The field whose value is all of the bytes of `input`.
    open spec fn spec_try_from(input: &'a str) -> Result<Seq<u8>, ParseError> {
        whole_value::<Unstructured>(input.spec_bytes())
    }

    fn try_from(input: &'a str) -> (r: Result<Subject, ParseError>) {
        <Subject as TryFrom<&'a [u8]>>::try_from(input.as_bytes())
    }
}

impl TryFrom<Unstructured> for Subject {
    type Err = ParseError;

    /// The field with the given value; it never fails.
    open spec fn spec_try_from(input: Unstructured) -> Result<Seq<u8>, ParseError> {
        Ok(input@)
    }

    fn try_from(input: Unstructured) -> (r: Result<Subject, ParseError>) {
        Ok(Subject(input))
    }
}

impl Field for Subject {
    open spec fn name() -> Seq<u8> {
        name_bytes(Name::Subject)
    }

    open spec fn well_formed(v: Seq<u8>) -> bool {
        Unstructured::rule(v + crlf()) == Some(v.len())
    }

    proof fn lemma_name_case(s1: Seq<u8>, s2: Seq<u8>) {
        lemma_field_name_case::<Unstructured>(s1, s2, name_bytes(Name::Subject), true);
    }

    proof fn lemma_stream_parse(v: Seq<u8>) {
        lemma_field_stream_parse::<Unstructured>(v, Name::Subject, true);
    }
}

impl Reproducible for Subject {
    proof fn lemma_parse_stream(s: Seq<u8>) {
        lemma_field_parse_stream::<Unstructured>(s, Name::Subject, true);
    }
}

/// Comments on the body of a message.
///
/// `comments = "Comments:" unstructured CRLF` (RFC 5322 section 3.6.5).
#[derive(Debug, Clone, PartialEq, Eq)]
pub struct Comments(pub Unstructured);

impl View for Comments {
    type V = Seq<u8>;

    open spec fn view(&self) -> Seq<u8> {
        self.0@
    }
}

impl Parsable for Comments {
    open spec fn spec_parse(input: Seq<u8>) -> Result<(Seq<u8>, nat), ParseError> {
        field_parse::<Unstructured>(input, name_bytes(Name::Comments), true)
    }

    fn parse(input: &[u8]) -> (r: Result<(Self, &[u8]), ParseError>) {
        match parse_field::<Unstructured>(input, Name::Comments, true) {
            Ok((c, rest)) => Ok((Comments(c), rest)),
            Err(e) => Err(e),
        }
    }
}

impl Streamable for Comments {
    open spec fn spec_stream(v: Seq<u8>) -> Seq<u8> {
        field_stream(Name::Comments, v)
    }

    fn stream(&self, out: &mut Vec<u8>) -> (n: usize) {
        stream_field(Name::Comments, &self.0, out)
    }
}

impl<'a> TryFrom<&'a [u8]> for Comments {
    type Err = ParseError;

    /// The field whose value is all of `input`, without name and CR LF.
    open spec fn spec_try_from(input: &'a [u8]) -> Result<Seq<u8>, ParseError> {
        whole_value::<Unstructured>(input@)
    }

    fn try_from(input: &'a [u8]) -> (r: Result<Comments, ParseError>) {
        match convert_whole::<Unstructured>(input) {
            Ok(c) => Ok(Comments(c)),
            Err(e) => Err(e),
        }
    }
}

impl<'a> TryFrom<&'a str> for Comments {
    type Err = ParseError;

    /// The field whose value is all of the bytes of `input`.
    open spec fn spec_try_from(input: &'a str) -> Result<Seq<u8>, ParseError> {
        whole_value::<Unstructured>(input.spec_bytes())
    }

    fn try_from(input: &'a str) -> (r: Result<Comments, ParseError>) {
        <Comments as TryFrom<&'a [u8]>>::try_from(input.as_bytes())
    }
}

impl TryFrom<Unstructured> for Comments {
    type Err = ParseError;

    /// The field with the given value; it never fails.
    open spec fn spec_try_from(input: Unstructured) -> Result<Seq<u8>, ParseError> {
        Ok(input@)
    }

    fn try_from(input: Unstructured) -> (r: Result<Comments, ParseError>) {
        Ok(Comments(input))
    }
}

impl Field for Comments {
    open spec fn name() -> Seq<u8> {
        name_bytes(Name::Comments)
    }

    open spec fn well_formed(v: Seq<u8>) -> bool {
        Unstructured::rule(v + crlf()) == Some(v.len())
    }

    proof fn lemma_name_case(s1: Seq<u8>, s2: Seq<u8>) {
        lemma_field_name_case::<Unstructured>(s1, s2, name_bytes(Name::Comments), true);
    }

    proof fn lemma_stream_parse(v: Seq<u8>) {
        lemma_field_stream_parse::<Unstructured>(v, Name::Comments, true);
    }
}

impl Reproducible for Comments {
    proof fn lemma_parse_stream(s: Seq<u8>) {
        lemma_field_parse_stream::<Unstructured>(s, Name::Comments, true);
    }
}

proof fn lemma_field_line<C: Component>(name: Seq<u8>, v: Seq<u8>)
    requires
        name.len() > 0,
        C::rule(v + crlf()) == Some(v.len()),
    ensures
        field_parse::<C>(name + v + crlf(), name, true) == Ok::<(Seq<u8>, nat), ParseError>(
            (v, name.len() + v.len() + 2),
        ),
{
    let s = name + v + crlf();
    let p = name.len();
    assert(starts_ci(s, name)) by {
        assert forall|k: int| 0 <= k < name.len() implies ascii_lower(#[trigger] s[k]) == ascii_lower(name[k]) by {
            assert(s[k] == name[k]);
        }
    }
    assert(s.skip(p as int) =~= v + crlf());
    assert(s.skip((p + v.len()) as int) =~= crlf());
    assert(s.subrange(p as int, (p + v.len()) as int) =~= v);
}

proof fn lemma_unstructured_line(name: Seq<u8>, text: Seq<u8>)
    requires
        name.len() > 0,
        is_text(text),
    ensures
        field_parse::<Unstructured>(name + text + crlf(), name, true) == Ok::<(Seq<u8>, nat), ParseError>(
            (text, name.len() + text.len() + 2),
        ),
{
    lemma_unstructured_takes_text(text);
    lemma_field_line::<Unstructured>(name, text);
}

/// A Date field holding a date-time written in the usual form parses, and
/// its value is all of it.
pub proof fn lemma_date_field_takes(
    wk: Option<int>,
    d: Seq<u8>,
    k: int,
    y: Seq<u8>,
    h: Seq<u8>,
    mi: Seq<u8>,
    s: Seq<u8>,
    sign: u8,
    z: Seq<u8>,
)
    requires
        wk matches Some(j) ==> 0 <= j < 7,
        all_digits(d),
        1 <= d.len() <= 2,
        0 <= k < 12,
        all_digits(y),
        y.len() >= 4,
        two_digits(h),
        two_digits(mi),
        s.len() == 0 || two_digits(s),
        sign == 43 || sign == 45,
        z.len() == 4,
        all_digits(z),
    ensures
        OrigDate::spec_parse(
            name_bytes(Name::Date) + date_time_text(wk, d, k, y, h, mi, s, sign, z) + crlf(),
        ) == Ok::<(Seq<u8>, nat), ParseError>(
            (
                date_time_text(wk, d, k, y, h, mi, s, sign, z),
                name_bytes(Name::Date).len() + date_time_text(wk, d, k, y, h, mi, s, sign, z).len()
                    + 2,
            ),
        ),
{
    lemma_date_time_takes(wk, d, k, y, h, mi, s, sign, z, crlf());
    lemma_field_line::<DateTime>(name_bytes(Name::Date), date_time_text(wk, d, k, y, h, mi, s, sign, z));
}

/// A Message-ID field holding one identifier whose two parts are
/// dot-atom-texts, after a space, parses, and its value is all of it.
pub proof fn lemma_message_id_field_takes(l: Seq<u8>, r: Seq<u8>)
    requires
        is_dot_atom_text(l),
        is_dot_atom_text(r),
    ensures
        MessageId::spec_parse(name_bytes(Name::MessageId) + (seq![32u8] + msg_id_text(l, r)) + crlf())
            == Ok::<(Seq<u8>, nat), ParseError>(
            (
                seq![32u8] + msg_id_text(l, r),
                name_bytes(Name::MessageId).len() + msg_id_text(l, r).len() + 3,
            ),
        ),
{
    lemma_msg_id_takes(l, r, crlf());
    lemma_field_line::<MsgId>(name_bytes(Name::MessageId), seq![32u8] + msg_id_text(l, r));
}

/// A From field holding one mailbox, a bare addr-spec whose two parts are
/// dot-atom-texts after a space, parses, and its value is all of it.
pub proof fn lemma_from_field_takes(l: Seq<u8>, d: Seq<u8>)
    requires
        is_dot_atom_text(l),
        is_dot_atom_text(d),
    ensures
        From::spec_parse(name_bytes(Name::From) + (seq![32u8] + addr_text(l, d)) + crlf()) == Ok::<
            (Seq<u8>, nat),
            ParseError,
        >((seq![32u8] + addr_text(l, d), name_bytes(Name::From).len() + addr_text(l, d).len() + 3)),
{
    let v = seq![32u8] + addr_text(l, d);
    let c = crlf();
    assert forall|i: int| 0 <= i < c.len() implies #[trigger] c[i] != 60 by {}
    lemma_mailbox_addr_spec_takes(l, d, c);
    assert((v + c)[v.len() as int] == 13);
    lemma_mailbox_list_one(v + c, v.len());
    lemma_field_line::<MailboxList>(name_bytes(Name::From), v);
}

/// A From field holding one mailbox, a display name of one atom and an
/// angle-addr whose two parts are dot-atom-texts, parses, and its value is
/// all of it.
pub proof fn lemma_from_field_named_takes(n: Seq<u8>, l: Seq<u8>, d: Seq<u8>)
    requires
        n.len() > 0,
        forall|i: int| 0 <= i < n.len() ==> in_class(Class::Atext, #[trigger] n[i]),
        is_dot_atom_text(l),
        is_dot_atom_text(d),
    ensures
        From::spec_parse(
            name_bytes(Name::From) + (seq![32u8] + n + seq![32u8] + angle_text(l, d)) + crlf(),
        ) == Ok::<(Seq<u8>, nat), ParseError>(
            (
                seq![32u8] + n + seq![32u8] + angle_text(l, d),
                name_bytes(Name::From).len() + n.len() + angle_text(l, d).len() + 4,
            ),
        ),
{
    let v = seq![32u8] + n + seq![32u8] + angle_text(l, d);
    let c = crlf();
    lemma_mailbox_named_takes(n, l, d, c);
    assert((v + c)[v.len() as int] == 13);
    lemma_mailbox_list_one(v + c, v.len());
    lemma_field_line::<MailboxList>(name_bytes(Name::From), v);
}

/// A To field holding one group with a one-atom display name and no
/// members, such as `undisclosed-recipients:;` after a space, parses, and
/// its value is all of it.
pub proof fn lemma_to_field_empty_group(n: Seq<u8>)
    requires
        is_atom_text(n),
    ensures
        To::spec_parse(name_bytes(Name::To) + (seq![32u8] + n + seq![58u8, 59u8]) + crlf()) == Ok::<
            (Seq<u8>, nat),
            ParseError,
        >((seq![32u8] + n + seq![58u8, 59u8], name_bytes(Name::To).len() + n.len() + 5)),
{
    let v = seq![32u8] + n + seq![58u8, 59u8];
    let c = crlf();
    lemma_empty_group_takes(n, c);
    assert((v + c)[v.len() as int] == 13);
    lemma_address_list_one(v + c, v.len());
    lemma_field_line::<AddressList>(name_bytes(Name::To), v);
}

/// A Subject field whose value is a line of visible characters and blanks
/// (colons among them) parses, and its value is the whole line.
pub proof fn lemma_subject_takes_line(text: Seq<u8>)
    requires
        is_text(text),
    ensures
        Subject::spec_parse(name_bytes(Name::Subject) + text + crlf()) == Ok::<(Seq<u8>, nat), ParseError>(
            (text, name_bytes(Name::Subject).len() + text.len() + 2),
        ),
{
    lemma_unstructured_line(name_bytes(Name::Subject), text);
}

/// A Comments field whose value is a line of visible characters and blanks
/// parses, and its value is the whole line.
pub proof fn lemma_comments_takes_line(text: Seq<u8>)
    requires
        is_text(text),
    ensures
        Comments::spec_parse(name_bytes(Name::Comments) + text + crlf()) == Ok::<(Seq<u8>, nat), ParseError>(
            (text, name_bytes(Name::Comments).len() + text.len() + 2),
        ),
{
    lemma_unstructured_line(name_bytes(Name::Comments), text);
}

/// When a message was resent.
///
/// `resent-date = "Resent-Date:" date-time CRLF` (RFC 5322 section 3.6.6).
#[derive(Debug, Clone, PartialEq, Eq)]
pub struct ResentDate(pub DateTime);

impl View for ResentDate {
    type V = Seq<u8>;

    open spec fn view(&self) -> Seq<u8> {
        self.0@
    }
}

impl Parsable for ResentDate {
    open spec fn spec_parse(input: Seq<u8>) -> Result<(Seq<u8>, nat), ParseError> {
        field_parse::<DateTime>(input, name_bytes(Name::ResentDate), true)
    }

    fn parse(input: &[u8]) -> (r: Result<(Self, &[u8]), ParseError>) {
        match parse_field::<DateTime>(input, Name::ResentDate, true) {
            Ok((c, rest)) => Ok((ResentDate(c), rest)),
            Err(e) => Err(e),
        }
    }
}

impl Streamable for ResentDate {
    open spec fn spec_stream(v: Seq<u8>) -> Seq<u8> {
        field_stream(Name::ResentDate, v)
    }

    fn stream(&self, out: &mut Vec<u8>) -> (n: usize) {
        stream_field(Name::ResentDate, &self.0, out)
    }
}

impl<'a> TryFrom<&'a [u8]> for ResentDate {
    type Err = ParseError;

    /// The field whose value is all of `input`, without name and CR LF.
    open spec fn spec_try_from(input: &'a [u8]) -> Result<Seq<u8>, ParseError> {
        whole_value::<DateTime>(input@)
    }

    fn try_from(input: &'a [u8]) -> (r: Result<ResentDate, ParseError>) {
        match convert_whole::<DateTime>(input) {
            Ok(c) => Ok(ResentDate(c)),
            Err(e) => Err(e),
        }
    }
}

impl<'a> TryFrom<&'a str> for ResentDate {
    type Err = ParseError;

    /// The field whose value is all of the bytes of `input`.
    open spec fn spec_try_from(input: &'a str) -> Result<Seq<u8>, ParseError> {
        whole_value::<DateTime>(input.spec_bytes())
    }

    fn try_from(input: &'a str) -> (r: Result<ResentDate, ParseError>) {
        <ResentDate as TryFrom<&'a [u8]>>::try_from(input.as_bytes())
    }
}

impl TryFrom<DateTime> for ResentDate {
    type Err = ParseError;

    /// The field with the given value; it never fails.
    open spec fn spec_try_from(input: DateTime) -> Result<Seq<u8>, ParseError> {
        Ok(input@)
    }

    fn try_from(input: DateTime) -> (r: Result<ResentDate, ParseError>) {
        Ok(ResentDate(input))
    }
}

impl Field for ResentDate {
    open spec fn name() -> Seq<u8> {
        name_bytes(Name::ResentDate)
    }

    open spec fn well_formed(v: Seq<u8>) -> bool {
        DateTime::rule(v + crlf()) == Some(v.len())
    }

    proof fn lemma_name_case(s1: Seq<u8>, s2: Seq<u8>) {
        lemma_field_name_case::<DateTime>(s1, s2, name_bytes(Name::ResentDate), true);
    }

    proof fn lemma_stream_parse(v: Seq<u8>) {
        lemma_field_stream_parse::<DateTime>(v, Name::ResentDate, true);
    }
}

impl Reproducible for ResentDate {
    proof fn lemma_parse_stream(s: Seq<u8>) {
        lemma_field_parse_stream::<DateTime>(s, Name::ResentDate, true);
    }
}

/// Who resent a message.
///
/// `resent-from = "Resent-From:" mailbox-list CRLF` (RFC 5322 section 3.6.6).
#[derive(Debug, Clone, PartialEq, Eq)]
pub struct ResentFrom(pub MailboxList);

impl View for ResentFrom {
    type V = Seq<u8>;

    open spec fn view(&self) -> Seq<u8> {
        self.0@
    }
}

impl Parsable for ResentFrom {
    open spec fn spec_parse(input: Seq<u8>) -> Result<(Seq<u8>, nat), ParseError> {
        field_parse::<MailboxList>(input, name_bytes(Name::ResentFrom), true)
    }

    fn parse(input: &[u8]) -> (r: Result<(Self, &[u8]), ParseError>) {
        match parse_field::<MailboxList>(input, Name::ResentFrom, true) {
            Ok((c, rest)) => Ok((ResentFrom(c), rest)),
            Err(e) => Err(e),
        }
    }
}

impl Streamable for ResentFrom {
    open spec fn spec_stream(v: Seq<u8>) -> Seq<u8> {
        field_stream(Name::ResentFrom, v)
    }

    fn stream(&self, out: &mut Vec<u8>) -> (n: usize) {
        stream_field(Name::ResentFrom, &self.0, out)
    }
}

impl<'a> TryFrom<&'a [u8]> for ResentFrom {
    type Err = ParseError;

    /// The field whose value is all of `input`, without name and CR LF.
    open spec fn spec_try_from(input: &'a [u8]) -> Result<Seq<u8>, ParseError> {
        whole_value::<MailboxList>(input@)
    }

    fn try_from(input: &'a [u8]) -> (r: Result<ResentFrom, ParseError>) {
        match convert_whole::<MailboxList>(input) {
            Ok(c) => Ok(ResentFrom(c)),
            Err(e) => Err(e),
        }
    }
}

impl<'a> TryFrom<&'a str> for ResentFrom {
    type Err = ParseError;

    /// The field whose value is all of the bytes of `input`.
    open spec fn spec_try_from(input: &'a str) -> Result<Seq<u8>, ParseError> {
        whole_value::<MailboxList>(input.spec_bytes())
    }

    fn try_from(input: &'a str) -> (r: Result<ResentFrom, ParseError>) {
        <ResentFrom as TryFrom<&'a [u8]>>::try_from(input.as_bytes())
    }
}

impl TryFrom<MailboxList> for ResentFrom {
    type Err = ParseError;

    /// The field with the given value; it never fails.
    open spec fn spec_try_from(input: MailboxList) -> Result<Seq<u8>, ParseError> {
        Ok(input@)
    }

    fn try_from(input: MailboxList) -> (r: Result<ResentFrom, ParseError>) {
        Ok(ResentFrom(input))
    }
}

impl Field for ResentFrom {
    open spec fn name() -> Seq<u8> {
        name_bytes(Name::ResentFrom)
    }

    open spec fn well_formed(v: Seq<u8>) -> bool {
        MailboxList::rule(v + crlf()) == Some(v.len())
    }

    proof fn lemma_name_case(s1: Seq<u8>, s2: Seq<u8>) {
        lemma_field_name_case::<MailboxList>(s1, s2, name_bytes(Name::ResentFrom), true);
    }

    proof fn lemma_stream_parse(v: Seq<u8>) {
        lemma_field_stream_parse::<MailboxList>(v, Name::ResentFrom, true);
    }
}

impl Reproducible for ResentFrom {
    proof fn lemma_parse_stream(s: Seq<u8>) {
        lemma_field_parse_stream::<MailboxList>(s, Name::ResentFrom, true);
    }
}

/// The agent that resent a message.
///
/// `resent-sender = "Resent-Sender:" mailbox CRLF` (RFC 5322 section 3.6.6).
#[derive(Debug, Clone, PartialEq, Eq)]
pub struct ResentSender(pub Mailbox);

impl View for ResentSender {
    type V = Seq<u8>;

    open spec fn view(&self) -> Seq<u8> {
        self.0@
    }
}

impl Parsable for ResentSender {
    open spec fn spec_parse(input: Seq<u8>) -> Result<(Seq<u8>, nat), ParseError> {
        field_parse::<Mailbox>(input, name_bytes(Name::ResentSender), true)
    }

    fn parse(input: &[u8]) -> (r: Result<(Self, &[u8]), ParseError>) {
        match parse_field::<Mailbox>(input, Name::ResentSender, true) {
            Ok((c, rest)) => Ok((ResentSender(c), rest)),
            Err(e) => Err(e),
        }
    }
}

impl Streamable for ResentSender {
    open spec fn spec_stream(v: Seq<u8>) -> Seq<u8> {
        field_stream(Name::ResentSender, v)
    }

    fn stream(&self, out: &mut Vec<u8>) -> (n: usize) {
        stream_field(Name::ResentSender, &self.0, out)
    }
}

impl<'a> TryFrom<&'a [u8]> for ResentSender {
    type Err = ParseError;

    /// The field whose value is all of `input`, without name and CR LF.
    open spec fn spec_try_from(input: &'a [u8]) -> Result<Seq<u8>, ParseError> {
        whole_value::<Mailbox>(input@)
    }

    fn try_from(input: &'a [u8]) -> (r: Result<ResentSender, ParseError>) {
        match convert_whole::<Mailbox>(input) {
            Ok(c) => Ok(ResentSender(c)),
            Err(e) => Err(e),
        }
    }
}

impl<'a> TryFrom<&'a str> for ResentSender {
    type Err = ParseError;

    /// The field whose value is all of the bytes of `input`.
    open spec fn spec_try_from(input: &'a str) -> Result<Seq<u8>, ParseError> {
        whole_value::<Mailbox>(input.spec_bytes())
    }

    fn try_from(input: &'a str) -> (r: Result<ResentSender, ParseError>) {
        <ResentSender as TryFrom<&'a [u8]>>::try_from(input.as_bytes())
    }
}

impl TryFrom<Mailbox> for ResentSender {
    type Err = ParseError;

    /// The field with the given value; it never fails.
    open spec fn spec_try_from(input: Mailbox) -> Result<Seq<u8>, ParseError> {
        Ok(input@)
    }

    fn try_from(input: Mailbox) -> (r: Result<ResentSender, ParseError>) {
        Ok(ResentSender(input))
    }
}

impl Field for ResentSender {
    open spec fn name() -> Seq<u8> {
        name_bytes(Name::ResentSender)
    }

    open spec fn well_formed(v: Seq<u8>) -> bool {
        Mailbox::rule(v + crlf()) == Some(v.len())
    }

    proof fn lemma_name_case(s1: Seq<u8>, s2: Seq<u8>) {
        lemma_field_name_case::<Mailbox>(s1, s2, name_bytes(Name::ResentSender), true);
    }

    proof fn lemma_stream_parse(v: Seq<u8>) {
        lemma_field_stream_parse::<Mailbox>(v, Name::ResentSender, true);
    }
}

impl Reproducible for ResentSender {
    proof fn lemma_parse_stream(s: Seq<u8>) {
        lemma_field_parse_stream::<Mailbox>(s, Name::ResentSender, true);
    }
}

/// The primary recipients of a resent message.
///
/// `resent-to = "Resent-To:" address-list CRLF` (RFC 5322 section 3.6.6).
#[derive(Debug, Clone, PartialEq, Eq)]
pub struct ResentTo(pub AddressList);

impl View for ResentTo {
    type V = Seq<u8>;

    open spec fn view(&self) -> Seq<u8> {
        self.0@
    }
}

impl Parsable for ResentTo {
    open spec fn spec_parse(input: Seq<u8>) -> Result<(Seq<u8>, nat), ParseError> {
        field_parse::<AddressList>(input, name_bytes(Name::ResentTo), true)
    }

    fn parse(input: &[u8]) -> (r: Result<(Self, &[u8]), ParseError>) {
        match parse_field::<AddressList>(input, Name::ResentTo, true) {
            Ok((c, rest)) => Ok((ResentTo(c), rest)),
            Err(e) => Err(e),
        }
    }
}

impl Streamable for ResentTo {
    open spec fn spec_stream(v: Seq<u8>) -> Seq<u8> {
        field_stream(Name::ResentTo, v)
    }

    fn stream(&self, out: &mut Vec<u8>) -> (n: usize) {
        stream_field(Name::ResentTo, &self.0, out)
    }
}

impl<'a> TryFrom<&'a [u8]> for ResentTo {
    type Err = ParseError;

    /// The field whose value is all of `input`, without name and CR LF.
    open spec fn spec_try_from(input: &'a [u8]) -> Result<Seq<u8>, ParseError> {
        whole_value::<AddressList>(input@)
    }

    fn try_from(input: &'a [u8]) -> (r: Result<ResentTo, ParseError>) {
        match convert_whole::<AddressList>(input) {
            Ok(c) => Ok(ResentTo(c)),
            Err(e) => Err(e),
        }
    }
}

impl<'a> TryFrom<&'a str> for ResentTo {
    type Err = ParseError;

    /// The field whose value is all of the bytes of `input`.
    open spec fn spec_try_from(input: &'a str) -> Result<Seq<u8>, ParseError> {
        whole_value::<AddressList>(input.spec_bytes())
    }

    fn try_from(input: &'a str) -> (r: Result<ResentTo, ParseError>) {
        <ResentTo as TryFrom<&'a [u8]>>::try_from(input.as_bytes())
    }
}

impl TryFrom<AddressList> for ResentTo {
    type Err = ParseError;

    /// The field with the given value; it never fails.
    open spec fn spec_try_from(input: AddressList) -> Result<Seq<u8>, ParseError> {
        Ok(input@)
    }

    fn try_from(input: AddressList) -> (r: Result<ResentTo, ParseError>) {
        Ok(ResentTo(input))
    }
}

impl Field for ResentTo {
    open spec fn name() -> Seq<u8> {
        name_bytes(Name::ResentTo)
    }

    open spec fn well_formed(v: Seq<u8>) -> bool {
        AddressList::rule(v + crlf()) == Some(v.len())
    }

    proof fn lemma_name_case(s1: Seq<u8>, s2: Seq<u8>) {
        lemma_field_name_case::<AddressList>(s1, s2, name_bytes(Name::ResentTo), true);
    }

    proof fn lemma_stream_parse(v: Seq<u8>) {
        lemma_field_stream_parse::<AddressList>(v, Name::ResentTo, true);
    }
}

impl Reproducible for ResentTo {
    proof fn lemma_parse_stream(s: Seq<u8>) {
        lemma_field_parse_stream::<AddressList>(s, Name::ResentTo, true);
    }
}

/// The recipients of a copy of a resent message.
///
/// `resent-cc = "Resent-Cc:" address-list CRLF` (RFC 5322 section 3.6.6).
#[derive(Debug, Clone, PartialEq, Eq)]
pub struct ResentCc(pub AddressList);

impl View for ResentCc {
    type V = Seq<u8>;

    open spec fn view(&self) -> Seq<u8> {
        self.0@
    }
}

impl Parsable for ResentCc {
    open spec fn spec_parse(input: Seq<u8>) -> Result<(Seq<u8>, nat), ParseError> {
        field_parse::<AddressList>(input, name_bytes(Name::ResentCc), true)
    }

    fn parse(input: &[u8]) -> (r: Result<(Self, &[u8]), ParseError>) {
        match parse_field::<AddressList>(input, Name::ResentCc, true) {
            Ok((c, rest)) => Ok((ResentCc(c), rest)),
            Err(e) => Err(e),
        }
    }
}

impl Streamable for ResentCc {
    open spec fn spec_stream(v: Seq<u8>) -> Seq<u8> {
        field_stream(Name::ResentCc, v)
    }

    fn stream(&self, out: &mut Vec<u8>) -> (n: usize) {
        stream_field(Name::ResentCc, &self.0, out)
    }
}

impl<'a> TryFrom<&'a [u8]> for ResentCc {
    type Err = ParseError;

    /// The field whose value is all of `input`, without name and CR LF.
    open spec fn spec_try_from(input: &'a [u8]) -> Result<Seq<u8>, ParseError> {
        whole_value::<AddressList>(input@)
    }

    fn try_from(input: &'a [u8]) -> (r: Result<ResentCc, ParseError>) {
        match convert_whole::<AddressList>(input) {
            Ok(c) => Ok(ResentCc(c)),
            Err(e) => Err(e),
        }
    }
}

impl<'a> TryFrom<&'a str> for ResentCc {
    type Err = ParseError;

    /// The field whose value is all of the bytes of `input`.
    open spec fn spec_try_from(input: &'a str) -> Result<Seq<u8>, ParseError> {
        whole_value::<AddressList>(input.spec_bytes())
    }

    fn try_from(input: &'a str) -> (r: Result<ResentCc, ParseError>) {
        <ResentCc as TryFrom<&'a [u8]>>::try_from(input.as_bytes())
    }
}

impl TryFrom<AddressList> for ResentCc {
    type Err = ParseError;

    /// The field with the given value; it never fails.
    open spec fn spec_try_from(input: AddressList) -> Result<Seq<u8>, ParseError> {
        Ok(input@)
    }

    fn try_from(input: AddressList) -> (r: Result<ResentCc, ParseError>) {
        Ok(ResentCc(input))
    }
}

impl Field for ResentCc {
    open spec fn name() -> Seq<u8> {
        name_bytes(Name::ResentCc)
    }

    open spec fn well_formed(v: Seq<u8>) -> bool {
        AddressList::rule(v + crlf()) == Some(v.len())
    }

    proof fn lemma_name_case(s1: Seq<u8>, s2: Seq<u8>) {
        lemma_field_name_case::<AddressList>(s1, s2, name_bytes(Name::ResentCc), true);
    }

    proof fn lemma_stream_parse(v: Seq<u8>) {
        lemma_field_stream_parse::<AddressList>(v, Name::ResentCc, true);
    }
}

impl Reproducible for ResentCc {
    proof fn lemma_parse_stream(s: Seq<u8>) {
        lemma_field_parse_stream::<AddressList>(s, Name::ResentCc, true);
    }
}

/// The identifier of a resent message.
///
/// `resent-msg-id = "Resent-Message-ID:" msg-id CRLF` (RFC 5322 section 3.6.6).
#[derive(Debug, Clone, PartialEq, Eq)]
pub struct ResentMessageId(pub MsgId);

impl View for ResentMessageId {
    type V = Seq<u8>;

    open spec fn view(&self) -> Seq<u8> {
        self.0@
    }
}

impl Parsable for ResentMessageId {
    open spec fn spec_parse(input: Seq<u8>) -> Result<(Seq<u8>, nat), ParseError> {
        field_parse::<MsgId>(input, name_bytes(Name::ResentMessageId), true)
    }

    fn parse(input: &[u8]) -> (r: Result<(Self, &[u8]), ParseError>) {
        match parse_field::<MsgId>(input, Name::ResentMessageId, true) {
            Ok((c, rest)) => Ok((ResentMessageId(c), rest)),
            Err(e) => Err(e),
        }
    }
}

impl Streamable for ResentMessageId {
    open spec fn spec_stream(v: Seq<u8>) -> Seq<u8> {
        field_stream(Name::ResentMessageId, v)
    }

    fn stream(&self, out: &mut Vec<u8>) -> (n: usize) {
        stream_field(Name::ResentMessageId, &self.0, out)
    }
}

impl<'a> TryFrom<&'a [u8]> for ResentMessageId {
    type Err = ParseError;

    /// The field whose value is all of `input`, without name and CR LF.
    open spec fn spec_try_from(input: &'a [u8]) -> Result<Seq<u8>, ParseError> {
        whole_value::<MsgId>(input@)
    }

    fn try_from(input: &'a [u8]) -> (r: Result<ResentMessageId, ParseError>) {
        match convert_whole::<MsgId>(input) {
            Ok(c) => Ok(ResentMessageId(c)),
            Err(e) => Err(e),
        }
    }
}

impl<'a> TryFrom<&'a str> for ResentMessageId {
    type Err = ParseError;

    /// The field whose value is all of the bytes of `input`.
    open spec fn spec_try_from(input: &'a str) -> Result<Seq<u8>, ParseError> {
        whole_value::<MsgId>(input.spec_bytes())
    }

    fn try_from(input: &'a str) -> (r: Result<ResentMessageId, ParseError>) {
        <ResentMessageId as TryFrom<&'a [u8]>>::try_from(input.as_bytes())
    }
}

impl TryFrom<MsgId> for ResentMessageId {
    type Err = ParseError;

    /// The field with the given value; it never fails.
    open spec fn spec_try_from(input: MsgId) -> Result<Seq<u8>, ParseError> {
        Ok(input@)
    }

    fn try_from(input: MsgId) -> (r: Result<ResentMessageId, ParseError>) {
        Ok(ResentMessageId(input))
    }
}

impl Field for ResentMessageId {
    open spec fn name() -> Seq<u8> {
        name_bytes(Name::ResentMessageId)
    }

    open spec fn well_formed(v: Seq<u8>) -> bool {
        MsgId::rule(v + crlf()) == Some(v.len())
    }

    proof fn lemma_name_case(s1: Seq<u8>, s2: Seq<u8>) {
        lemma_field_name_case::<MsgId>(s1, s2, name_bytes(Name::ResentMessageId), true);
    }

    proof fn lemma_stream_parse(v: Seq<u8>) {
        lemma_field_stream_parse::<MsgId>(v, Name::ResentMessageId, true);
    }
}

impl Reproducible for ResentMessageId {
    proof fn lemma_parse_stream(s: Seq<u8>) {
        lemma_field_parse_stream::<MsgId>(s, Name::ResentMessageId, true);
    }
}

/// The address to which a message is returned.
///
/// `return = "Return-Path:" path CRLF` (RFC 5322 section 3.6.7).
///
/// Unlike most fields, empty input is reported as `NotFound`.
#[derive(Debug, Clone, PartialEq, Eq)]
pub struct Return(pub Path);

impl View for Return {
    type V = Seq<u8>;

    open spec fn view(&self) -> Seq<u8> {
        self.0@
    }
}

impl Parsable for Return {
    open spec fn spec_parse(input: Seq<u8>) -> Result<(Seq<u8>, nat), ParseError> {
        field_parse::<Path>(input, name_bytes(Name::ReturnPath), false)
    }

    fn parse(input: &[u8]) -> (r: Result<(Self, &[u8]), ParseError>) {
        match parse_field::<Path>(input, Name::ReturnPath, false) {
            Ok((c, rest)) => Ok((Return(c), rest)),
            Err(e) => Err(e),
        }
    }
}

impl Streamable for Return {
    open spec fn spec_stream(v: Seq<u8>) -> Seq<u8> {
        field_stream(Name::ReturnPath, v)
    }

    fn stream(&self, out: &mut Vec<u8>) -> (n: usize) {
        stream_field(Name::ReturnPath, &self.0, out)
    }
}

impl<'a> TryFrom<&'a [u8]> for Return {
    type Err = ParseError;

    /// The field whose value is all of `input`, without name and CR LF.
    open spec fn spec_try_from(input: &'a [u8]) -> Result<Seq<u8>, ParseError> {
        whole_value::<Path>(input@)
    }

    fn try_from(input: &'a [u8]) -> (r: Result<Return, ParseError>) {
        match convert_whole::<Path>(input) {
            Ok(c) => Ok(Return(c)),
            Err(e) => Err(e),
        }
    }
}

impl<'a> TryFrom<&'a str> for Return {
    type Err = ParseError;

    /// The field whose value is all of the bytes of `input`.
    open spec fn spec_try_from(input: &'a str) -> Result<Seq<u8>, ParseError> {
        whole_value::<Path>(input.spec_bytes())
    }

    fn try_from(input: &'a str) -> (r: Result<Return, ParseError>) {
        <Return as TryFrom<&'a [u8]>>::try_from(input.as_bytes())
    }
}

impl TryFrom<Path> for Return {
    type Err = ParseError;

    /// The field with the given value; it never fails.
    open spec fn spec_try_from(input: Path) -> Result<Seq<u8>, ParseError> {
        Ok(input@)
    }

    fn try_from(input: Path) -> (r: Result<Return, ParseError>) {
        Ok(Return(input))
    }
}

impl Field for Return {
    open spec fn name() -> Seq<u8> {
        name_bytes(Name::ReturnPath)
    }

    open spec fn well_formed(v: Seq<u8>) -> bool {
        Path::rule(v + crlf()) == Some(v.len())
    }

    proof fn lemma_name_case(s1: Seq<u8>, s2: Seq<u8>) {
        lemma_field_name_case::<Path>(s1, s2, name_bytes(Name::ReturnPath), false);
    }

    proof fn lemma_stream_parse(v: Seq<u8>) {
        lemma_field_stream_parse::<Path>(v, Name::ReturnPath, false);
    }
}

impl Reproducible for Return {
    proof fn lemma_parse_stream(s: Seq<u8>) {
        lemma_field_parse_stream::<Path>(s, Name::ReturnPath, false);
    }
}

/// The view of a Bcc or Resent-Bcc field.
pub enum BccValue {
    AddressList(Seq<u8>),
    Cfws(Seq<u8>),
    Empty,
}

/// The bytes between the name and the CR LF of a Bcc or Resent-Bcc field.
pub open spec fn bcc_body(v: BccValue) -> Seq<u8> {
    match v {
        BccValue::AddressList(a) => a,
        BccValue::Cfws(c) => c,
        BccValue::Empty => seq![],
    }
}

/// A Bcc or Resent-Bcc field named `name`: an address list, else comments
/// and folding white space, else nothing, and then CR LF.
pub open spec fn bcc_parse(s: Seq<u8>, name: Seq<u8>) -> Result<(BccValue, nat), ParseError> {
    if s.len() == 0 {
        Err(ParseError::Eof)
    } else if !starts_ci(s, name) {
        Err(ParseError::NotFound)
    } else {
        let p = name.len();
        match AddressList::rule(s.skip(p as int)) {
            Some(n) => if p + n <= s.len() && starts_crlf(s.skip((p + n) as int)) {
                Ok((BccValue::AddressList(s.subrange(p as int, (p + n) as int)), p + n + 2))
            } else {
                Err(ParseError::NotFound)
            },
            None => match CFWS::rule(s.skip(p as int)) {
                Some(n) => if p + n <= s.len() && starts_crlf(s.skip((p + n) as int)) {
                    Ok((BccValue::Cfws(s.subrange(p as int, (p + n) as int)), p + n + 2))
                } else {
                    Err(ParseError::NotFound)
                },
                None => if starts_crlf(s.skip(p as int)) {
                    Ok((BccValue::Empty, p + 2))
                } else {
                    Err(ParseError::NotFound)
                },
            },
        }
    }
}

/// The bytes of `input` from `i` to `j`.
fn bytes_between(input: &[u8], i: usize, j: usize) -> (v: Vec<u8>)
    requires
        i <= j <= input.len(),
    ensures
        v@ == input@.subrange(i as int, j as int),
{
    slice_to_vec(slice_subrange(input, i, j))
}

fn parse_bcc_field(input: &[u8], name: Name) -> (r: Result<(Bcc, &[u8]), ParseError>)
    ensures
        parsed(input@, r, bcc_parse(input@, name_bytes(name))),
{
    if input.len() == 0 {
        return Err(ParseError::Eof);
    }
    if !name_at_start(input, name) {
        return Err(ParseError::NotFound);
    }
    let p = name_vec(name).len();
    if let Some(n) = AddressList::scan(input, p) {
        if crlf_at(input, p + n) {
            let al = AddressList::from_bytes(bytes_between(input, p, p + n));
            return Ok((Bcc::AddressList(al), slice_subrange(input, p + n + 2, input.len())));
        }
        return Err(ParseError::NotFound);
    }
    if let Some(n) = CFWS::scan(input, p) {
        if crlf_at(input, p + n) {
            let c = CFWS::from_bytes(bytes_between(input, p, p + n));
            return Ok((Bcc::CFWS(c), slice_subrange(input, p + n + 2, input.len())));
        }
        return Err(ParseError::NotFound);
    }
    if crlf_at(input, p) {
        Ok((Bcc::Empty, slice_subrange(input, p + 2, input.len())))
    } else {
        Err(ParseError::NotFound)
    }
}

/// Appends a field named `name` whose value is `body`.
fn stream_framed(name: Name, body: &[u8], out: &mut Vec<u8>) -> (n: usize)
    ensures
        final(out)@ == old(out)@ + field_stream(name, body@),
        n == field_stream(name, body@).len(),
{
    let start = out.len();
    append_name(out, name);
    append(out, body);
    append_crlf(out);
    assert(out@ =~= old(out)@ + field_stream(name, body@));
    out.len() - start
}

/// Appends a field named `name` with an empty value.
fn stream_empty(name: Name, out: &mut Vec<u8>) -> (n: usize)
    ensures
        final(out)@ == old(out)@ + field_stream(name, seq![]),
        n == field_stream(name, seq![]).len(),
{
    let start = out.len();
    append_name(out, name);
    append_crlf(out);
    assert(out@ =~= old(out)@ + field_stream(name, seq![]));
    out.len() - start
}

/// Converting bytes into a Bcc or Resent-Bcc field: an address list that
/// must use all of them.
pub open spec fn bcc_value(s: Seq<u8>) -> Result<BccValue, ParseError> {
    match whole_value::<AddressList>(s) {
        Ok(a) => Ok(BccValue::AddressList(a)),
        Err(e) => Err(e),
    }
}

/// The values of a Bcc or Resent-Bcc field that stream to bytes which parse
/// back to them.
pub open spec fn bcc_well_formed(v: BccValue) -> bool {
    match v {
        BccValue::AddressList(a) => AddressList::rule(a + crlf()) == Some(a.len()),
        BccValue::Cfws(c) => AddressList::rule(c + crlf()) is None && CFWS::rule(c + crlf())
            == Some(c.len()),
        BccValue::Empty => true,
    }
}

proof fn lemma_bcc_name_case(s1: Seq<u8>, s2: Seq<u8>, name: Seq<u8>)
    requires
        same_up_to_case(s1, s2, name.len()),
    ensures
        bcc_parse(s1, name) == bcc_parse(s2, name),
{
    lemma_name_match_case(s1, s2, name);
    let p = name.len();
    assert(s1.skip(p as int) =~= s2.skip(p as int));
    if let Some(n) = CFWS::rule(s1.skip(p as int)) {
        if p + n <= s1.len() {
            assert(s1.skip((p + n) as int) =~= s2.skip((p + n) as int));
            assert(s1.subrange(p as int, (p + n) as int) =~= s2.subrange(p as int, (p + n) as int));
        }
    }
    if let Some(n) = AddressList::rule(s1.skip(p as int)) {
        if p + n <= s1.len() {
            assert(s1.skip((p + n) as int) =~= s2.skip((p + n) as int));
            assert(s1.subrange(p as int, (p + n) as int) =~= s2.subrange(p as int, (p + n) as int));
        }
    }
}

proof fn lemma_bcc_stream_parse(v: BccValue, name: Name)
    requires
        bcc_well_formed(v),
    ensures
        bcc_parse(field_stream(name, bcc_body(v)), name_bytes(name)) == Ok::<
            (BccValue, nat),
            ParseError,
        >((v, field_stream(name, bcc_body(v)).len())),
{
    let nb = name_bytes(name);
    let b = bcc_body(v);
    let st = field_stream(name, b);
    let p = nb.len();
    assert(st.skip(p as int) =~= b + crlf());
    assert(st.skip((p + b.len()) as int) =~= crlf());
    assert(st.subrange(p as int, (p + b.len()) as int) =~= b);
    assert(starts_ci(st, nb)) by {
        assert forall|k: int| 0 <= k < nb.len() implies ascii_lower(#[trigger] st[k])
            == ascii_lower(nb[k]) by {
            assert(st[k] == nb[k]);
        }
    }
    if v is Empty {
        assert(b + crlf() =~= crlf());
        lemma_crlf_starts_no_value();
    }
}

proof fn lemma_bcc_parse_stream(s: Seq<u8>, name: Name)
    requires
        bcc_parse(s, name_bytes(name)) is Ok,
    ensures
        bcc_parse(s, name_bytes(name)) matches Ok((v, n)) && same_up_to_case(
            field_stream(name, bcc_body(v)),
            s.take(n as int),
            name_bytes(name).len(),
        ),
{
    let nb = name_bytes(name);
    let p = nb.len();
    let (v, n) = bcc_parse(s, nb).unwrap();
    let b = bcc_body(v);
    let st = field_stream(name, b);
    let t = s.take(n as int);
    assert(n == p + b.len() + 2);
    assert(b == s.subrange(p as int, (p + b.len()) as int));
    assert forall|i: int| 0 <= i < p implies ascii_lower(#[trigger] st[i]) == ascii_lower(t[i]) by {
        assert(ascii_lower(s[i]) == ascii_lower(nb[i]));
    }
    assert forall|i: int| p <= i < st.len() implies #[trigger] st[i] == t[i] by {
        if i < p + b.len() {
            assert(st[i] == b[i - p]);
        } else {
            assert(st[i] == crlf()[i - p - b.len()]);
            assert(s.skip((p + b.len()) as int)[i - p - b.len()] == s[i]);
        }
    }
}

/// The blind-copy recipients of a message.
///
/// `bcc = "Bcc:" [address-list / CFWS] CRLF` (RFC 5322 section 3.6.3).
#[derive(Debug, Clone, PartialEq, Eq)]
pub enum Bcc {
    AddressList(AddressList),
    CFWS(CFWS),
    Empty,
}

impl View for Bcc {
    type V = BccValue;

    open spec fn view(&self) -> BccValue {
        match self {
            Bcc::AddressList(a) => BccValue::AddressList(a@),
            Bcc::CFWS(c) => BccValue::Cfws(c@),
            Bcc::Empty => BccValue::Empty,
        }
    }
}

impl Parsable for Bcc {
    open spec fn spec_parse(input: Seq<u8>) -> Result<(BccValue, nat), ParseError> {
        bcc_parse(input, name_bytes(Name::Bcc))
    }

    fn parse(input: &[u8]) -> (r: Result<(Self, &[u8]), ParseError>) {
        match parse_bcc_field(input, Name::Bcc) {
            Ok((b, rest)) => {
                let v = match b {
                    Bcc::AddressList(a) => Bcc::AddressList(a),
                    Bcc::CFWS(c) => Bcc::CFWS(c),
                    Bcc::Empty => Bcc::Empty,
                };
                Ok((v, rest))
            },
            Err(e) => Err(e),
        }
    }
}

impl Streamable for Bcc {
    open spec fn spec_stream(v: BccValue) -> Seq<u8> {
        field_stream(Name::Bcc, bcc_body(v))
    }

    fn stream(&self, out: &mut Vec<u8>) -> (n: usize) {
        match self {
            Bcc::AddressList(a) => stream_framed(Name::Bcc, a.as_bytes(), out),
            Bcc::CFWS(c) => stream_framed(Name::Bcc, c.as_bytes(), out),
            Bcc::Empty => stream_empty(Name::Bcc, out),
        }
    }
}

impl<'a> TryFrom<&'a [u8]> for Bcc {
    type Err = ParseError;

    /// The field whose value is an address list made of all of `input`.
    open spec fn spec_try_from(input: &'a [u8]) -> Result<BccValue, ParseError> {
        bcc_value(input@)
    }

    fn try_from(input: &'a [u8]) -> (r: Result<Bcc, ParseError>) {
        match convert_whole::<AddressList>(input) {
            Ok(a) => Ok(Bcc::AddressList(a)),
            Err(e) => Err(e),
        }
    }
}

impl TryFrom<AddressList> for Bcc {
    type Err = ParseError;

    /// The field with the given address list; it never fails.
    open spec fn spec_try_from(input: AddressList) -> Result<BccValue, ParseError> {
        Ok(BccValue::AddressList(input@))
    }

    fn try_from(input: AddressList) -> (r: Result<Bcc, ParseError>) {
        Ok(Bcc::AddressList(input))
    }
}

impl Field for Bcc {
    open spec fn name() -> Seq<u8> {
        name_bytes(Name::Bcc)
    }

    open spec fn well_formed(v: BccValue) -> bool {
        bcc_well_formed(v)
    }

    proof fn lemma_name_case(s1: Seq<u8>, s2: Seq<u8>) {
        lemma_bcc_name_case(s1, s2, name_bytes(Name::Bcc));
    }

    proof fn lemma_stream_parse(v: BccValue) {
        lemma_bcc_stream_parse(v, Name::Bcc);
    }
}

impl Reproducible for Bcc {
    proof fn lemma_parse_stream(s: Seq<u8>) {
        lemma_bcc_parse_stream(s, Name::Bcc);
    }
}

/// The blind-copy recipients of a resent message.
///
/// `resent-bcc = "Resent-Bcc:" [address-list / CFWS] CRLF` (RFC 5322 section 3.6.6).
#[derive(Debug, Clone, PartialEq, Eq)]
pub enum ResentBcc {
    AddressList(AddressList),
    CFWS(CFWS),
    Empty,
}

impl View for ResentBcc {
    type V = BccValue;

    open spec fn view(&self) -> BccValue {
        match self {
            ResentBcc::AddressList(a) => BccValue::AddressList(a@),
            ResentBcc::CFWS(c) => BccValue::Cfws(c@),
            ResentBcc::Empty => BccValue::Empty,
        }
    }
}

impl Parsable for ResentBcc {
    open spec fn spec_parse(input: Seq<u8>) -> Result<(BccValue, nat), ParseError> {
        bcc_parse(input, name_bytes(Name::ResentBcc))
    }

    fn parse(input: &[u8]) -> (r: Result<(Self, &[u8]), ParseError>) {
        match parse_bcc_field(input, Name::ResentBcc) {
            Ok((b, rest)) => {
                let v = match b {
                    Bcc::AddressList(a) => ResentBcc::AddressList(a),
                    Bcc::CFWS(c) => ResentBcc::CFWS(c),
                    Bcc::Empty => ResentBcc::Empty,
                };
                Ok((v, rest))
            },
            Err(e) => Err(e),
        }
    }
}

impl Streamable for ResentBcc {
    open spec fn spec_stream(v: BccValue) -> Seq<u8> {
        field_stream(Name::ResentBcc, bcc_body(v))
    }

    fn stream(&self, out: &mut Vec<u8>) -> (n: usize) {
        match self {
            ResentBcc::AddressList(a) => stream_framed(Name::ResentBcc, a.as_bytes(), out),
            ResentBcc::CFWS(c) => stream_framed(Name::ResentBcc, c.as_bytes(), out),
            ResentBcc::Empty => stream_empty(Name::ResentBcc, out),
        }
    }
}

impl<'a> TryFrom<&'a [u8]> for ResentBcc {
    type Err = ParseError;

    /// The field whose value is an address list made of all of `input`.
    open spec fn spec_try_from(input: &'a [u8]) -> Result<BccValue, ParseError> {
        bcc_value(input@)
    }

    fn try_from(input: &'a [u8]) -> (r: Result<ResentBcc, ParseError>) {
        match convert_whole::<AddressList>(input) {
            Ok(a) => Ok(ResentBcc::AddressList(a)),
            Err(e) => Err(e),
        }
    }
}

impl TryFrom<AddressList> for ResentBcc {
    type Err = ParseError;

    /// The field with the given address list; it never fails.
    open spec fn spec_try_from(input: AddressList) -> Result<BccValue, ParseError> {
        Ok(BccValue::AddressList(input@))
    }

    fn try_from(input: AddressList) -> (r: Result<ResentBcc, ParseError>) {
        Ok(ResentBcc::AddressList(input))
    }
}

impl Field for ResentBcc {
    open spec fn name() -> Seq<u8> {
        name_bytes(Name::ResentBcc)
    }

    open spec fn well_formed(v: BccValue) -> bool {
        bcc_well_formed(v)
    }

    proof fn lemma_name_case(s1: Seq<u8>, s2: Seq<u8>) {
        lemma_bcc_name_case(s1, s2, name_bytes(Name::ResentBcc));
    }

    proof fn lemma_stream_parse(v: BccValue) {
        lemma_bcc_stream_parse(v, Name::ResentBcc);
    }
}

impl Reproducible for ResentBcc {
    proof fn lemma_parse_stream(s: Seq<u8>) {
        lemma_bcc_parse_stream(s, Name::ResentBcc);
    }
}

/// A field named `name` made of one or more values matched by the rule of
/// `C`, one after the other, and CR LF.
pub open spec fn list_parse<C: Component>(s: Seq<u8>, name: Seq<u8>) -> Result<
    (Seq<Seq<u8>>, nat),
    ParseError,
> {
    if s.len() == 0 {
        Err(ParseError::Eof)
    } else if !starts_ci(s, name) {
        Err(ParseError::NotFound)
    } else {
        let p = name.len();
        let items = repeat::<C>(s.skip(p as int));
        let k = repeat_len::<C>(s.skip(p as int));
        if items.len() == 0 {
            Err(ParseError::NotFound)
        } else if p + k <= s.len() && starts_crlf(s.skip((p + k) as int)) {
            Ok((items, p + k + 2))
        } else {
            Err(ParseError::NotFound)
        }
    }
}

fn parse_list_field<C: Component>(input: &[u8], name: Name) -> (r: Result<
    (Vec<C>, &[u8]),
    ParseError,
>)
    ensures
        match r {
            Ok((v, rest)) => match list_parse::<C>(input@, name_bytes(name)) {
                Ok((items, n)) => views(v@) == items && n <= input@.len() && rest@ == input@.skip(
                    n as int,
                ),
                Err(_) => false,
            },
            Err(e) => list_parse::<C>(input@, name_bytes(name)) == Err::<
                (Seq<Seq<u8>>, nat),
                ParseError,
            >(e),
        },
{
    if input.len() == 0 {
        return Err(ParseError::Eof);
    }
    if !name_at_start(input, name) {
        return Err(ParseError::NotFound);
    }
    let p = name_vec(name).len();
    let (v, k) = parse_repeat::<C>(input, p);
    assert(views(v@).len() == v@.len());
    if v.len() == 0 {
        return Err(ParseError::NotFound);
    }
    if crlf_at(input, p + k) {
        Ok((v, slice_subrange(input, p + k + 2, input.len())))
    } else {
        Err(ParseError::NotFound)
    }
}

/// Converting bytes into a list of values of `C` that must use all of them:
/// `TrailingInput`, with the number of bytes the values used, when bytes are
/// left over.  No values at all are accepted.
pub open spec fn list_value<C: Component>(s: Seq<u8>) -> Result<Seq<Seq<u8>>, ParseError> {
    let k = repeat_len::<C>(s);
    if k < s.len() {
        Err(ParseError::TrailingInput(k as usize))
    } else {
        Ok(repeat::<C>(s))
    }
}

fn convert_list<C: Component>(input: &[u8]) -> (r: Result<Vec<C>, ParseError>)
    ensures
        match r {
            Ok(v) => list_value::<C>(input@) == Ok::<Seq<Seq<u8>>, ParseError>(views(v@)),
            Err(e) => list_value::<C>(input@) == Err::<Seq<Seq<u8>>, ParseError>(e),
        },
{
    let (v, k) = parse_repeat::<C>(input, 0);
    if k < input.len() {
        Err(ParseError::TrailingInput(k))
    } else {
        Ok(v)
    }
}

/// A field named `name` whose values follow one another, separated by
/// commas when `commas` holds.
pub open spec fn list_stream(name: Name, items: Seq<Seq<u8>>, commas: bool) -> Seq<u8> {
    name_bytes(name) + (if commas {
        join_commas(items)
    } else {
        concat(items)
    }) + crlf()
}

fn stream_list<C: Component>(name: Name, v: &Vec<C>, commas: bool, out: &mut Vec<u8>) -> (n: usize)
    ensures
        final(out)@ == old(out)@ + list_stream(name, views(v@), commas),
        n == list_stream(name, views(v@), commas).len(),
{
    let start = out.len();
    append_name(out, name);
    stream_all(v, out, commas);
    append_crlf(out);
    assert(out@ =~= old(out)@ + list_stream(name, views(v@), commas));
    out.len() - start
}

/// The lists of values that stream, without commas, to bytes which parse
/// back to them: at least one value, and the values, followed by CR LF, are
/// found again one by one.
pub open spec fn list_well_formed<C: Component>(items: Seq<Seq<u8>>) -> bool {
    &&& items.len() > 0
    &&& repeat::<C>(concat(items) + crlf()) == items
    &&& repeat_len::<C>(concat(items) + crlf()) == concat(items).len()
}

proof fn lemma_list_name_case<C: Component>(s1: Seq<u8>, s2: Seq<u8>, name: Seq<u8>)
    requires
        same_up_to_case(s1, s2, name.len()),
    ensures
        list_parse::<C>(s1, name) == list_parse::<C>(s2, name),
{
    lemma_name_match_case(s1, s2, name);
    let p = name.len();
    assert(s1.skip(p as int) =~= s2.skip(p as int));
    let k = repeat_len::<C>(s1.skip(p as int));
    if p + k <= s1.len() {
        assert(s1.skip((p + k) as int) =~= s2.skip((p + k) as int));
    }
}

proof fn lemma_list_stream_parse<C: Component>(items: Seq<Seq<u8>>, name: Name)
    requires
        list_well_formed::<C>(items),
    ensures
        list_parse::<C>(list_stream(name, items, false), name_bytes(name)) == Ok::<
            (Seq<Seq<u8>>, nat),
            ParseError,
        >((items, list_stream(name, items, false).len())),
{
    let nb = name_bytes(name);
    let b = concat(items);
    let st = list_stream(name, items, false);
    assert(st == nb + b + crlf());
    let p = nb.len();
    assert(st.skip(p as int) =~= b + crlf());
    assert(st.skip((p + b.len()) as int) =~= crlf());
    assert(starts_ci(st, nb)) by {
        assert forall|k: int| 0 <= k < nb.len() implies ascii_lower(#[trigger] st[k])
            == ascii_lower(nb[k]) by {
            assert(st[k] == nb[k]);
        }
    }
}

proof fn lemma_list_parse_stream<C: Component>(s: Seq<u8>, name: Name)
    requires
        list_parse::<C>(s, name_bytes(name)) is Ok,
    ensures
        list_parse::<C>(s, name_bytes(name)) matches Ok((items, n)) && same_up_to_case(
            list_stream(name, items, false),
            s.take(n as int),
            name_bytes(name).len(),
        ),
{
    let nb = name_bytes(name);
    let p = nb.len();
    let (items, n) = list_parse::<C>(s, nb).unwrap();
    lemma_concat_repeat::<C>(s.skip(p as int));
    let k = repeat_len::<C>(s.skip(p as int));
    let b = concat(items);
    let st = list_stream(name, items, false);
    assert(st == nb + b + crlf());
    let t = s.take(n as int);
    assert(b == s.skip(p as int).take(k as int));
    assert forall|i: int| 0 <= i < p implies ascii_lower(#[trigger] st[i]) == ascii_lower(t[i]) by {
        assert(ascii_lower(s[i]) == ascii_lower(nb[i]));
    }
    assert forall|i: int| p <= i < st.len() implies #[trigger] st[i] == t[i] by {
        if i < p + k {
            assert(st[i] == b[i - p]);
        } else {
            assert(st[i] == crlf()[i - p - k]);
            assert(s.skip((p + k) as int)[i - p - k] == s[i]);
        }
    }
}

/// The messages that a message replies to.
///
/// `in-reply-to = "In-Reply-To:" 1*msg-id CRLF` (RFC 5322 section 3.6.4).
#[derive(Debug, Clone, PartialEq, Eq)]
pub struct InReplyTo(pub Vec<MsgId>);

impl View for InReplyTo {
    type V = Seq<Seq<u8>>;

    open spec fn view(&self) -> Seq<Seq<u8>> {
        views(self.0@)
    }
}

impl Parsable for InReplyTo {
    open spec fn spec_parse(input: Seq<u8>) -> Result<(Seq<Seq<u8>>, nat), ParseError> {
        list_parse::<MsgId>(input, name_bytes(Name::InReplyTo))
    }

    fn parse(input: &[u8]) -> (r: Result<(Self, &[u8]), ParseError>) {
        match parse_list_field::<MsgId>(input, Name::InReplyTo) {
            Ok((v, rest)) => Ok((InReplyTo(v), rest)),
            Err(e) => Err(e),
        }
    }
}

impl Streamable for InReplyTo {
    open spec fn spec_stream(v: Seq<Seq<u8>>) -> Seq<u8> {
        list_stream(Name::InReplyTo, v, false)
    }

    fn stream(&self, out: &mut Vec<u8>) -> (n: usize) {
        stream_list(Name::InReplyTo, &self.0, false, out)
    }
}

impl<'a> TryFrom<&'a [u8]> for InReplyTo {
    type Err = ParseError;

    /// The field whose values, one after the other, are all of `input`.
    open spec fn spec_try_from(input: &'a [u8]) -> Result<Seq<Seq<u8>>, ParseError> {
        list_value::<MsgId>(input@)
    }

    fn try_from(input: &'a [u8]) -> (r: Result<InReplyTo, ParseError>) {
        match convert_list::<MsgId>(input) {
            Ok(v) => Ok(InReplyTo(v)),
            Err(e) => Err(e),
        }
    }
}

impl TryFrom<Vec<MsgId>> for InReplyTo {
    type Err = ParseError;

    /// The field with the given values; it never fails.
    open spec fn spec_try_from(input: Vec<MsgId>) -> Result<Seq<Seq<u8>>, ParseError> {
        Ok(views(input@))
    }

    fn try_from(input: Vec<MsgId>) -> (r: Result<InReplyTo, ParseError>) {
        Ok(InReplyTo(input))
    }
}

impl Field for InReplyTo {
    open spec fn name() -> Seq<u8> {
        name_bytes(Name::InReplyTo)
    }

    open spec fn well_formed(v: Seq<Seq<u8>>) -> bool {
        list_well_formed::<MsgId>(v)
    }

    proof fn lemma_name_case(s1: Seq<u8>, s2: Seq<u8>) {
        lemma_list_name_case::<MsgId>(s1, s2, name_bytes(Name::InReplyTo));
    }

    proof fn lemma_stream_parse(v: Seq<Seq<u8>>) {
        lemma_list_stream_parse::<MsgId>(v, Name::InReplyTo);
    }
}

impl Reproducible for InReplyTo {
    proof fn lemma_parse_stream(s: Seq<u8>) {
        lemma_list_parse_stream::<MsgId>(s, Name::InReplyTo);
    }
}

/// The messages of the thread that a message belongs to.
///
/// `references = "References:" 1*msg-id CRLF` (RFC 5322 section 3.6.4).
#[derive(Debug, Clone, PartialEq, Eq)]
pub struct References(pub Vec<MsgId>);

impl View for References {
    type V = Seq<Seq<u8>>;

    open spec fn view(&self) -> Seq<Seq<u8>> {
        views(self.0@)
    }
}

impl Parsable for References {
    open spec fn spec_parse(input: Seq<u8>) -> Result<(Seq<Seq<u8>>, nat), ParseError> {
        list_parse::<MsgId>(input, name_bytes(Name::References))
    }

    fn parse(input: &[u8]) -> (r: Result<(Self, &[u8]), ParseError>) {
        match parse_list_field::<MsgId>(input, Name::References) {
            Ok((v, rest)) => Ok((References(v), rest)),
            Err(e) => Err(e),
        }
    }
}

impl Streamable for References {
    open spec fn spec_stream(v: Seq<Seq<u8>>) -> Seq<u8> {
        list_stream(Name::References, v, false)
    }

    fn stream(&self, out: &mut Vec<u8>) -> (n: usize) {
        stream_list(Name::References, &self.0, false, out)
    }
}

impl<'a> TryFrom<&'a [u8]> for References {
    type Err = ParseError;

    /// The field whose values, one after the other, are all of `input`.
    open spec fn spec_try_from(input: &'a [u8]) -> Result<Seq<Seq<u8>>, ParseError> {
        list_value::<MsgId>(input@)
    }

    fn try_from(input: &'a [u8]) -> (r: Result<References, ParseError>) {
        match convert_list::<MsgId>(input) {
            Ok(v) => Ok(References(v)),
            Err(e) => Err(e),
        }
    }
}

impl TryFrom<Vec<MsgId>> for References {
    type Err = ParseError;

    /// The field with the given values; it never fails.
    open spec fn spec_try_from(input: Vec<MsgId>) -> Result<Seq<Seq<u8>>, ParseError> {
        Ok(views(input@))
    }

    fn try_from(input: Vec<MsgId>) -> (r: Result<References, ParseError>) {
        Ok(References(input))
    }
}

impl Field for References {
    open spec fn name() -> Seq<u8> {
        name_bytes(Name::References)
    }

    open spec fn well_formed(v: Seq<Seq<u8>>) -> bool {
        list_well_formed::<MsgId>(v)
    }

    proof fn lemma_name_case(s1: Seq<u8>, s2: Seq<u8>) {
        lemma_list_name_case::<MsgId>(s1, s2, name_bytes(Name::References));
    }

    proof fn lemma_stream_parse(v: Seq<Seq<u8>>) {
        lemma_list_stream_parse::<MsgId>(v, Name::References);
    }
}

impl Reproducible for References {
    proof fn lemma_parse_stream(s: Seq<u8>) {
        lemma_list_parse_stream::<MsgId>(s, Name::References);
    }
}

/// Keywords of a message.
///
/// `keywords = "Keywords:" phrase *("," phrase) CRLF` (RFC 5322 section 3.6.5).
#[derive(Debug, Clone, PartialEq, Eq)]
pub struct Keywords(pub Vec<Phrase>);

impl View for Keywords {
    type V = Seq<Seq<u8>>;

    open spec fn view(&self) -> Seq<Seq<u8>> {
        views(self.0@)
    }
}

/// Parsing a Keywords field: its name, one or more phrases separated by
/// commas, and CR LF.
pub open spec fn keywords_parse(s: Seq<u8>) -> Result<(Seq<Seq<u8>>, nat), ParseError> {
    let name = name_bytes(Name::Keywords);
    if s.len() == 0 {
        Err(ParseError::Eof)
    } else if !starts_ci(s, name) {
        Err(ParseError::NotFound)
    } else {
        let p = name.len();
        match comma_list::<Phrase>(s.skip(p as int)) {
            Some((items, k)) => if p + k <= s.len() && starts_crlf(s.skip((p + k) as int)) {
                Ok((items, p + k + 2))
            } else {
                Err(ParseError::NotFound)
            },
            None => Err(ParseError::NotFound),
        }
    }
}

impl Parsable for Keywords {
    open spec fn spec_parse(input: Seq<u8>) -> Result<(Seq<Seq<u8>>, nat), ParseError> {
        keywords_parse(input)
    }

    fn parse(input: &[u8]) -> (r: Result<(Self, &[u8]), ParseError>) {
        if input.len() == 0 {
            return Err(ParseError::Eof);
        }
        if !name_at_start(input, Name::Keywords) {
            return Err(ParseError::NotFound);
        }
        let p = name_vec(Name::Keywords).len();
        match parse_comma_list::<Phrase>(input, p) {
            Some((v, k)) => if crlf_at(input, p + k) {
                Ok((Keywords(v), slice_subrange(input, p + k + 2, input.len())))
            } else {
                Err(ParseError::NotFound)
            },
            None => Err(ParseError::NotFound),
        }
    }
}

impl Streamable for Keywords {
    open spec fn spec_stream(v: Seq<Seq<u8>>) -> Seq<u8> {
        list_stream(Name::Keywords, v, true)
    }

    fn stream(&self, out: &mut Vec<u8>) -> (n: usize) {
        stream_list(Name::Keywords, &self.0, true, out)
    }
}

/// Converting bytes into the keywords of a Keywords field: phrases separated
/// by commas that must use all of them, or no phrase for no bytes;
/// `TrailingInput`, with the number of bytes the phrases used, when bytes
/// are left over.
pub open spec fn keywords_value(s: Seq<u8>) -> Result<Seq<Seq<u8>>, ParseError> {
    match comma_list::<Phrase>(s) {
        Some((items, k)) => if k < s.len() {
            Err(ParseError::TrailingInput(k as usize))
        } else {
            Ok(items)
        },
        None => if s.len() > 0 {
            Err(ParseError::TrailingInput(0))
        } else {
            Ok(seq![])
        },
    }
}

impl<'a> TryFrom<&'a [u8]> for Keywords {
    type Err = ParseError;

    /// The field whose keywords, separated by commas, are all of `input`.
    open spec fn spec_try_from(input: &'a [u8]) -> Result<Seq<Seq<u8>>, ParseError> {
        keywords_value(input@)
    }

    fn try_from(input: &'a [u8]) -> (r: Result<Keywords, ParseError>) {
        match parse_comma_list::<Phrase>(input, 0) {
            Some((v, k)) => if k < input.len() {
                Err(ParseError::TrailingInput(k))
            } else {
                Ok(Keywords(v))
            },
            None => if input.len() > 0 {
                Err(ParseError::TrailingInput(0))
            } else {
                let v: Vec<Phrase> = Vec::new();
                assert(views(v@) =~= seq![]);
                Ok(Keywords(v))
            },
        }
    }
}

impl TryFrom<Vec<Phrase>> for Keywords {
    type Err = ParseError;

    /// The field with the given keywords; it never fails.
    open spec fn spec_try_from(input: Vec<Phrase>) -> Result<Seq<Seq<u8>>, ParseError> {
        Ok(views(input@))
    }

    fn try_from(input: Vec<Phrase>) -> (r: Result<Keywords, ParseError>) {
        Ok(Keywords(input))
    }
}

impl Field for Keywords {
    open spec fn name() -> Seq<u8> {
        name_bytes(Name::Keywords)
    }

    /// At least one keyword, and the keywords, written with commas between
    /// them and followed by CR LF, are found again one by one.
    open spec fn well_formed(v: Seq<Seq<u8>>) -> bool {
        &&& v.len() > 0
        &&& comma_list::<Phrase>(join_commas(v) + crlf()) == Some((v, join_commas(v).len()))
    }

    proof fn lemma_name_case(s1: Seq<u8>, s2: Seq<u8>) {
        let name = name_bytes(Name::Keywords);
        lemma_name_match_case(s1, s2, name);
        let p = name.len();
        assert(s1.skip(p as int) =~= s2.skip(p as int));
        if let Some((items, k)) = comma_list::<Phrase>(s1.skip(p as int)) {
            if p + k <= s1.len() {
                assert(s1.skip((p + k) as int) =~= s2.skip((p + k) as int));
            }
        }
    }

    proof fn lemma_stream_parse(v: Seq<Seq<u8>>) {
        let nb = name_bytes(Name::Keywords);
        let b = join_commas(v);
        let st = list_stream(Name::Keywords, v, true);
        assert(st == nb + b + crlf());
        let p = nb.len();
        assert(st.skip(p as int) =~= b + crlf());
        assert(st.skip((p + b.len()) as int) =~= crlf());
        assert(starts_ci(st, nb)) by {
            assert forall|k: int| 0 <= k < nb.len() implies ascii_lower(#[trigger] st[k])
                == ascii_lower(nb[k]) by {
                assert(st[k] == nb[k]);
            }
        }
    }
}

impl Reproducible for Keywords {
    proof fn lemma_parse_stream(s: Seq<u8>) {
        let nb = name_bytes(Name::Keywords);
        let p = nb.len();
        let (items, n) = keywords_parse(s).unwrap();
        lemma_comma_list_bytes::<Phrase>(s.skip(p as int));
        let k = (n - p - 2) as nat;
        let b = join_commas(items);
        let st = list_stream(Name::Keywords, items, true);
        assert(st == nb + b + crlf());
        let t = s.take(n as int);
        assert(b == s.skip(p as int).take(k as int));
        assert forall|i: int| 0 <= i < p implies ascii_lower(#[trigger] st[i]) == ascii_lower(t[i]) by {
            assert(ascii_lower(s[i]) == ascii_lower(nb[i]));
        }
        assert forall|i: int| p <= i < st.len() implies #[trigger] st[i] == t[i] by {
            if i < p + k {
                assert(st[i] == b[i - p]);
            } else {
                assert(st[i] == crlf()[i - p - k]);
                assert(s.skip((p + k) as int)[i - p - k] == s[i]);
            }
        }
    }
}

/// The view of the tokens of a Received field.
pub enum TokensValue {
    Tokens(Seq<Seq<u8>>),
    Comment(Seq<u8>),
}

/// The view of a Received field.
pub struct ReceivedValue {
    pub received_tokens: TokensValue,
    pub date_time: Seq<u8>,
}

/// What comes between the name of a Received field and its `;`: tokens
/// (possibly none) or a comment.
///
/// `[1*received-token / CFWS]` (RFC 5322 section 3.6.7, with erratum 3979).
#[derive(Debug, Clone, PartialEq, Eq)]
pub enum ReceivedTokens {
    Tokens(Vec<ReceivedToken>),
    Comment(CFWS),
}

impl View for ReceivedTokens {
    type V = TokensValue;

    open spec fn view(&self) -> TokensValue {
        match self {
            ReceivedTokens::Tokens(v) => TokensValue::Tokens(views(v@)),
            ReceivedTokens::Comment(c) => TokensValue::Comment(c@),
        }
    }
}

/// The bytes of the tokens or the comment of a Received field.
pub open spec fn tokens_body(v: TokensValue) -> Seq<u8> {
    match v {
        TokensValue::Tokens(ts) => concat(ts),
        TokensValue::Comment(c) => c,
    }
}

/// A trace field.
///
/// `received = "Received:" [1*received-token / CFWS] ";" date-time CRLF`
/// (RFC 5322 section 3.6.7, with erratum 3979).  Parsing takes tokens as
/// long as there are any; without tokens it takes comments and folding white
/// space if they are there, and otherwise no tokens at all.
#[derive(Debug, Clone, PartialEq, Eq)]
pub struct Received {
    pub received_tokens: ReceivedTokens,
    pub date_time: DateTime,
}

impl View for Received {
    type V = ReceivedValue;

    open spec fn view(&self) -> ReceivedValue {
        ReceivedValue { received_tokens: self.received_tokens@, date_time: self.date_time@ }
    }
}

/// The part of a Received field from position `u` on, where its `;` is
/// required, for the given tokens.
pub open spec fn received_rest(s: Seq<u8>, u: nat, tokens: TokensValue) -> Result<
    (ReceivedValue, nat),
    ParseError,
> {
    if s.len() < u + 1 {
        Err(ParseError::Eof)
    } else if s[u as int] != 59 {
        Err(ParseError::Expected(59))
    } else {
        match DateTime::rule(s.skip((u + 1) as int)) {
            Some(d) => if u + 1 + d <= s.len() && starts_crlf(s.skip((u + 1 + d) as int)) {
                Ok(
                    (
                        ReceivedValue {
                            received_tokens: tokens,
                            date_time: s.subrange((u + 1) as int, (u + 1 + d) as int),
                        },
                        u + 1 + d + 2,
                    ),
                )
            } else {
                Err(ParseError::NotFound)
            },
            None => Err(ParseError::NotFound),
        }
    }
}

/// The tokens, else the comment, else no tokens at all, that follow the
/// name of a Received field at the start of `t`, with the number of bytes
/// they use.
pub open spec fn received_head(t: Seq<u8>) -> (TokensValue, nat) {
    let items = repeat::<ReceivedToken>(t);
    if items.len() > 0 {
        (TokensValue::Tokens(items), repeat_len::<ReceivedToken>(t))
    } else {
        match CFWS::rule(t) {
            Some(c) => if c <= t.len() {
                (TokensValue::Comment(t.take(c as int)), c)
            } else {
                (TokensValue::Tokens(seq![]), 0)
            },
            None => (TokensValue::Tokens(seq![]), 0),
        }
    }
}

/// A Received field whose one token is an angle-addr, such as
/// `Received: <user@example.net>;` and a date-time, parses: the token, and
/// the date-time that follows the `;`, are what was written.
pub proof fn lemma_received_field_angle(l: Seq<u8>, d: Seq<u8>, dt: Seq<u8>)
    requires
        is_dot_atom_text(l),
        is_dot_atom_text(d),
        date_time(dt + crlf()) == Some(dt.len()),
    ensures
        Received::spec_parse(
            name_bytes(Name::Received) + (seq![32u8] + angle_text(l, d)) + seq![59u8] + dt + crlf(),
        ) == Ok::<(ReceivedValue, nat), ParseError>(
            (
                ReceivedValue {
                    received_tokens: TokensValue::Tokens(seq![seq![32u8] + angle_text(l, d)]),
                    date_time: dt,
                },
                name_bytes(Name::Received).len() + angle_text(l, d).len() + dt.len() + 4,
            ),
        ),
{
    let name = name_bytes(Name::Received);
    let v = seq![32u8] + angle_text(l, d);
    let y = seq![59u8] + dt + crlf();
    let s = name + v + seq![59u8] + dt + crlf();
    let p = name.len();
    assert(starts_ci(s, name)) by {
        assert forall|k: int| 0 <= k < name.len() implies ascii_lower(#[trigger] s[k]) == ascii_lower(name[k]) by {
            assert(s[k] == name[k]);
        }
    }
    let t = s.skip(p as int);
    assert(t =~= v + y);
    lemma_received_token_angle(l, d, y);
    assert(v + y =~= seq![32u8] + angle_text(l, d) + y);
    assert(t.take(v.len() as int) =~= v);
    assert(t.skip(v.len() as int) =~= y);
    assert(repeat::<ReceivedToken>(y) =~= seq![]);
    assert(repeat_len::<ReceivedToken>(y) == 0);
    assert(repeat::<ReceivedToken>(t) =~= seq![v]);
    assert(repeat_len::<ReceivedToken>(t) == v.len());
    let u = p + v.len();
    assert(s[u as int] == 59);
    assert(s.skip((u + 1) as int) =~= dt + crlf());
    assert(s.skip((u + 1 + dt.len()) as int) =~= crlf());
    assert(s.subrange((u + 1) as int, (u + 1 + dt.len()) as int) =~= dt);
}

/// Parsing a Received field.
pub open spec fn received_parse(s: Seq<u8>) -> Result<(ReceivedValue, nat), ParseError> {
    let name = name_bytes(Name::Received);
    if s.len() == 0 {
        Err(ParseError::Eof)
    } else if !starts_ci(s, name) {
        Err(ParseError::NotFound)
    } else {
        let (tokens, q) = received_head(s.skip(name.len() as int));
        received_rest(s, name.len() + q, tokens)
    }
}

impl Parsable for Received {
    open spec fn spec_parse(input: Seq<u8>) -> Result<(ReceivedValue, nat), ParseError> {
        received_parse(input)
    }

    fn parse(input: &[u8]) -> (r: Result<(Self, &[u8]), ParseError>) {
        if input.len() == 0 {
            return Err(ParseError::Eof);
        }
        if !name_at_start(input, Name::Received) {
            return Err(ParseError::NotFound);
        }
        let p = name_vec(Name::Received).len();
        let ghost t = input@.skip(p as int);
        let (tokens, k) = parse_repeat::<ReceivedToken>(input, p);
        assert(views(tokens@).len() == tokens@.len());
        let (received_tokens, q) = if tokens.len() > 0 {
            (ReceivedTokens::Tokens(tokens), k)
        } else {
            match CFWS::scan(input, p) {
                Some(c) => {
                    let comment = CFWS::from_bytes(bytes_between(input, p, p + c));
                    assert(t.take(c as int) =~= input@.subrange(p as int, (p + c) as int));
                    (ReceivedTokens::Comment(comment), c)
                },
                None => {
                    assert(views(tokens@) =~= seq![]);
                    (ReceivedTokens::Tokens(tokens), 0)
                },
            }
        };
        assert(received_head(t) == (received_tokens@, q as nat));
        let u = p + q;
        if input.len() - u < 1 {
            return Err(ParseError::Eof);
        }
        if input[u] != 59 {
            return Err(ParseError::Expected(59));
        }
        match DateTime::scan(input, u + 1) {
            Some(d) => if crlf_at(input, u + 1 + d) {
                let date_time = DateTime::from_bytes(bytes_between(input, u + 1, u + 1 + d));
                Ok(
                    (
                        Received { received_tokens, date_time },
                        slice_subrange(input, u + 1 + d + 2, input.len()),
                    ),
                )
            } else {
                Err(ParseError::NotFound)
            },
            None => Err(ParseError::NotFound),
        }
    }
}

/// A Received field as it is written out.
pub open spec fn received_stream(v: ReceivedValue) -> Seq<u8> {
    name_bytes(Name::Received) + tokens_body(v.received_tokens) + seq![59u8] + v.date_time + crlf()
}

impl Streamable for Received {
    open spec fn spec_stream(v: ReceivedValue) -> Seq<u8> {
        received_stream(v)
    }

    fn stream(&self, out: &mut Vec<u8>) -> (n: usize) {
        let start = out.len();
        append_name(out, Name::Received);
        match &self.received_tokens {
            ReceivedTokens::Tokens(v) => stream_all(v, out, false),
            ReceivedTokens::Comment(c) => append(out, c.as_bytes()),
        }
        let semicolon: [u8; 1] = [59u8];
        assert(semicolon@ == seq![59u8]);
        append(out, &semicolon);
        append(out, self.date_time.as_bytes());
        append_crlf(out);
        assert(out@ =~= old(out)@ + received_stream(self@));
        out.len() - start
    }
}

impl<'a> TryFrom<&'a [u8]> for Received {
    type Err = ParseError;

    /// The field parsed from `input`, name and CR LF included, which it must
    /// use all of.
    open spec fn spec_try_from(input: &'a [u8]) -> Result<ReceivedValue, ParseError> {
        match received_parse(input@) {
            Ok((v, n)) => if n < input@.len() {
                Err(ParseError::TrailingInput(n as usize))
            } else {
                Ok(v)
            },
            Err(e) => Err(e),
        }
    }

    fn try_from(input: &'a [u8]) -> (r: Result<Received, ParseError>) {
        match Received::parse(input) {
            Ok((v, rest)) => if rest.len() > 0 {
                Err(ParseError::TrailingInput(input.len() - rest.len()))
            } else {
                Ok(v)
            },
            Err(e) => Err(e),
        }
    }
}

impl TryFrom<(ReceivedTokens, DateTime)> for Received {
    type Err = ParseError;

    /// The field with the given tokens and date; it never fails.
    open spec fn spec_try_from(input: (ReceivedTokens, DateTime)) -> Result<
        ReceivedValue,
        ParseError,
    > {
        Ok(ReceivedValue { received_tokens: input.0@, date_time: input.1@ })
    }

    fn try_from(input: (ReceivedTokens, DateTime)) -> (r: Result<Received, ParseError>) {
        Ok(Received { received_tokens: input.0, date_time: input.1 })
    }
}

/// The Received values that stream to bytes which parse back to them: the
/// date is matched exactly when CR LF follows it, and the tokens, or the
/// comment, are found again exactly in front of the rest of the field.
pub open spec fn received_well_formed(v: ReceivedValue) -> bool {
    let tail = seq![59u8] + v.date_time + crlf();
    &&& DateTime::rule(v.date_time + crlf()) == Some(v.date_time.len())
    &&& match v.received_tokens {
        TokensValue::Tokens(ts) => {
            &&& repeat::<ReceivedToken>(concat(ts) + tail) == ts
            &&& repeat_len::<ReceivedToken>(concat(ts) + tail) == concat(ts).len()
        },
        TokensValue::Comment(c) => {
            &&& repeat::<ReceivedToken>(c + tail).len() == 0
            &&& CFWS::rule(c + tail) == Some(c.len())
        },
    }
}

impl Field for Received {
    open spec fn name() -> Seq<u8> {
        name_bytes(Name::Received)
    }

    open spec fn well_formed(v: ReceivedValue) -> bool {
        received_well_formed(v)
    }

    proof fn lemma_name_case(s1: Seq<u8>, s2: Seq<u8>) {
        let name = name_bytes(Name::Received);
        lemma_name_match_case(s1, s2, name);
        let p = name.len();
        assert(s1.skip(p as int) =~= s2.skip(p as int));
        let (tokens, q) = received_head(s1.skip(p as int));
        let u = p + q;
        if s1.len() >= u + 1 {
            assert(s1[u as int] == s2[u as int]);
            assert(s1.skip((u + 1) as int) =~= s2.skip((u + 1) as int));
            if let Some(d) = DateTime::rule(s1.skip((u + 1) as int)) {
                if u + 1 + d <= s1.len() {
                    assert(s1.skip((u + 1 + d) as int) =~= s2.skip((u + 1 + d) as int));
                    assert(s1.subrange((u + 1) as int, (u + 1 + d) as int) =~= s2.subrange(
                        (u + 1) as int,
                        (u + 1 + d) as int,
                    ));
                }
            }
        }
    }

    proof fn lemma_stream_parse(v: ReceivedValue) {
        let nb = name_bytes(Name::Received);
        let p = nb.len();
        let b = tokens_body(v.received_tokens);
        let tail = seq![59u8] + v.date_time + crlf();
        let st = received_stream(v);
        assert(st =~= nb + (b + tail));
        assert(st.skip(p as int) =~= b + tail);
        assert(starts_ci(st, nb)) by {
            assert forall|k: int| 0 <= k < nb.len() implies ascii_lower(#[trigger] st[k])
                == ascii_lower(nb[k]) by {
                assert(st[k] == nb[k]);
            }
        }
        match v.received_tokens {
            TokensValue::Tokens(ts) => {
                if ts.len() == 0 {
                    assert(ts =~= seq![]);
                    assert(concat(ts) == Seq::<u8>::empty());
                    assert(b + tail =~= tail);
                    lemma_no_cfws_at_semicolon(tail);
                }
                assert(received_head(b + tail) == (v.received_tokens, b.len()));
            },
            TokensValue::Comment(c) => {
                assert((b + tail).take(c.len() as int) =~= c);
                assert(received_head(b + tail) == (v.received_tokens, b.len()));
            },
        }
        let u = p + b.len();
        assert(st[u as int] == 59);
        assert(st.skip((u + 1) as int) =~= v.date_time + crlf());
        assert(st.skip((u + 1 + v.date_time.len()) as int) =~= crlf());
        assert(st.subrange((u + 1) as int, (u + 1 + v.date_time.len()) as int) =~= v.date_time);
    }
}

impl Reproducible for Received {
    proof fn lemma_parse_stream(s: Seq<u8>) {
        let nb = name_bytes(Name::Received);
        let p = nb.len();
        let t = s.skip(p as int);
        let (v, n) = received_parse(s).unwrap();
        let (tokens, q) = received_head(t);
        let b = tokens_body(tokens);
        lemma_concat_repeat::<ReceivedToken>(t);
        if q == 0 {
            assert(concat(Seq::<Seq<u8>>::empty()) == Seq::<u8>::empty());
            assert(t.take(0) =~= Seq::<u8>::empty());
        }
        assert(b == t.take(q as int));
        let u = p + q;
        let d = v.date_time.len();
        let st = received_stream(v);
        let w = s.take(n as int);
        assert(n == u + 1 + d + 2);
        assert forall|i: int| 0 <= i < p implies ascii_lower(#[trigger] st[i]) == ascii_lower(w[i]) by {
            assert(ascii_lower(s[i]) == ascii_lower(nb[i]));
        }
        assert forall|i: int| p <= i < st.len() implies #[trigger] st[i] == w[i] by {
            if i < u {
                assert(st[i] == b[i - p]);
                assert(t[i - p] == s[i]);
            } else if i == u {
                assert(st[i] == 59);
            } else if i < u + 1 + d {
                assert(st[i] == v.date_time[i - u - 1]);
            } else {
                assert(st[i] == crlf()[i - u - 1 - d]);
                assert(s.skip((u + 1 + d) as int)[i - u - 1 - d] == s[i]);
            }
        }
    }
}

/// A field that is not otherwise defined: a name of its own, a colon,
/// unstructured text and CR LF.
///
/// `optional-field = field-name ":" unstructured CRLF` (RFC 5322 section
/// 3.6.8).  Its name keeps its case.  Unlike most fields, empty input is
/// reported as `NotFound`.
#[derive(Debug, Clone, PartialEq, Eq)]
pub struct OptionalField {
    pub name: FieldName,
    pub value: Unstructured,
}

impl View for OptionalField {
    type V = (Seq<u8>, Seq<u8>);

    open spec fn view(&self) -> (Seq<u8>, Seq<u8>) {
        (self.name@, self.value@)
    }
}

/// Parsing an optional field.
pub open spec fn optional_parse(s: Seq<u8>) -> Result<((Seq<u8>, Seq<u8>), nat), ParseError> {
    match FieldName::rule(s) {
        Some(a) => if s.len() < a + 1 {
            Err(ParseError::Eof)
        } else if s[a as int] != 58 {
            Err(ParseError::Expected(58))
        } else {
            match Unstructured::rule(s.skip((a + 1) as int)) {
                Some(b) => if a + 1 + b <= s.len() && starts_crlf(s.skip((a + 1 + b) as int)) {
                    Ok(((s.take(a as int), s.subrange((a + 1) as int, (a + 1 + b) as int)), a + 1 + b + 2))
                } else {
                    Err(ParseError::NotFound)
                },
                None => Err(ParseError::NotFound),
            }
        },
        None => Err(ParseError::NotFound),
    }
}

impl Parsable for OptionalField {
    open spec fn spec_parse(input: Seq<u8>) -> Result<((Seq<u8>, Seq<u8>), nat), ParseError> {
        optional_parse(input)
    }

    fn parse(input: &[u8]) -> (r: Result<(Self, &[u8]), ParseError>) {
        let a = match FieldName::scan(input, 0) {
            Some(a) => a,
            None => {
                return Err(ParseError::NotFound);
            },
        };
        if input.len() - a < 1 {
            return Err(ParseError::Eof);
        }
        if input[a] != 58 {
            return Err(ParseError::Expected(58));
        }
        match Unstructured::scan(input, a + 1) {
            Some(b) => if crlf_at(input, a + 1 + b) {
                let name = FieldName::from_bytes(bytes_between(input, 0, a));
                let value = Unstructured::from_bytes(bytes_between(input, a + 1, a + 1 + b));
                assert(input@.subrange(0, a as int) =~= input@.take(a as int));
                Ok((OptionalField { name, value }, slice_subrange(input, a + 1 + b + 2, input.len())))
            } else {
                Err(ParseError::NotFound)
            },
            None => Err(ParseError::NotFound),
        }
    }
}

/// An optional field as it is written out.
pub open spec fn optional_stream(v: (Seq<u8>, Seq<u8>)) -> Seq<u8> {
    v.0 + seq![58u8] + v.1 + crlf()
}

impl Streamable for OptionalField {
    open spec fn spec_stream(v: (Seq<u8>, Seq<u8>)) -> Seq<u8> {
        optional_stream(v)
    }

    fn stream(&self, out: &mut Vec<u8>) -> (n: usize) {
        let start = out.len();
        append(out, self.name.as_bytes());
        let colon: [u8; 1] = [58u8];
        assert(colon@ == seq![58u8]);
        append(out, &colon);
        append(out, self.value.as_bytes());
        append_crlf(out);
        assert(out@ =~= old(out)@ + optional_stream(self@));
        out.len() - start
    }
}

impl TryFrom<(FieldName, Unstructured)> for OptionalField {
    type Err = ParseError;

    /// The field with the given name and value; it never fails.
    open spec fn spec_try_from(input: (FieldName, Unstructured)) -> Result<
        (Seq<u8>, Seq<u8>),
        ParseError,
    > {
        Ok((input.0@, input.1@))
    }

    fn try_from(input: (FieldName, Unstructured)) -> (r: Result<OptionalField, ParseError>) {
        Ok(OptionalField { name: input.0, value: input.1 })
    }
}

impl OptionalField {
    /// The name and value that stream to bytes which parse back to them: the
    /// name is matched exactly in front of the rest of the field, and the
    /// value exactly when CR LF follows it.
    pub open spec fn well_formed(v: (Seq<u8>, Seq<u8>)) -> bool {
        &&& FieldName::rule(optional_stream(v)) == Some(v.0.len())
        &&& Unstructured::rule(v.1 + crlf()) == Some(v.1.len())
    }

    /// A well-formed optional field, streamed, parses back to itself and uses
    /// all the streamed bytes.
    pub proof fn lemma_stream_parse(v: (Seq<u8>, Seq<u8>))
        requires
            OptionalField::well_formed(v),
        ensures
            OptionalField::spec_parse(OptionalField::spec_stream(v)) == Ok::<
                ((Seq<u8>, Seq<u8>), nat),
                ParseError,
            >((v, OptionalField::spec_stream(v).len())),
    {
        let st = optional_stream(v);
        let a = v.0.len();
        let b = v.1.len();
        assert(st[a as int] == 58);
        assert(st.skip((a + 1) as int) =~= v.1 + crlf());
        assert(st.skip((a + 1 + b) as int) =~= crlf());
        assert(st.take(a as int) =~= v.0);
        assert(st.subrange((a + 1) as int, (a + 1 + b) as int) =~= v.1);
    }

    /// An optional field that was parsed streams back to exactly the bytes it
    /// was parsed from.
    pub proof fn lemma_parse_stream(s: Seq<u8>)
        requires
            OptionalField::spec_parse(s) is Ok,
        ensures
            OptionalField::spec_parse(s) matches Ok((v, n)) && OptionalField::spec_stream(v)
                == s.take(n as int),
    {
        let (v, n) = optional_parse(s).unwrap();
        let a = v.0.len();
        let b = v.1.len();
        let st = optional_stream(v);
        assert(st =~= s.take(n as int)) by {
            assert forall|i: int| 0 <= i < st.len() implies #[trigger] st[i] == s.take(n as int)[i] by {
                if i < a {
                    assert(st[i] == v.0[i]);
                } else if i == a {
                } else if i < a + 1 + b {
                    assert(st[i] == v.1[i - a - 1]);
                } else {
                    assert(st[i] == crlf()[i - a - 1 - b]);
                    assert(s.skip((a + 1 + b) as int)[i - a - 1 - b] == s[i]);
                }
            }
        }
    }
}

} // verus!
