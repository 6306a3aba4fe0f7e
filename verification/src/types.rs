//! The values that header fields are made of.  Each holds the bytes that
//! one rule of the grammar matched, as they were found in the input, and is
//! written out as those same bytes.
use vstd::prelude::*;
use vstd::slice::{slice_subrange, slice_to_vec};
use crate::error::ParseError;
use crate::traits::{parsed, Parsable, Streamable};
use crate::scan::{agrees, append, group_skip};
use crate::datetime::{date_time, scan_date_time};
use crate::address::{address_list, field_name, mailbox, mailbox_list, msg_id, path, received_token, scan_address_list, scan_field_name, scan_mailbox, scan_mailbox_list, scan_msg_id, scan_path, scan_received_token};
use crate::lexical::{cfws, phrase, scan_cfws, scan_phrase, scan_unstructured, unstructured};

verus! {

broadcast use group_skip;

/// A value made of the bytes that one rule of the grammar matched.
pub trait Component: Sized + View<V = Seq<u8>> {
    /// The rule: how many bytes it matches at the start of `t`.
    spec fn rule(t: Seq<u8>) -> Option<nat>;

    /// How many bytes the rule matches from position `i` of `s`.
    fn scan(s: &[u8], i: usize) -> (r: Option<usize>)
        requires
            i <= s.len(),
        ensures
            agrees(r, Self::rule(s@.skip(i as int))),
            r matches Some(n) ==> i + n <= s.len(),
    ;

    /// The value made of `bytes`.  Nothing requires the rule to match them;
    /// the laws of the fields speak of the values that it does match.
    fn from_bytes(bytes: Vec<u8>) -> (c: Self)
        ensures
            c@ == bytes@,
    ;

    /// The bytes of the value.
    fn as_bytes(&self) -> (b: &[u8])
        ensures
            b@ == self@,
    ;
}

/// Parsing a component from the front of `input`: the bytes its rule
/// matches; `Eof` on empty input that the rule does not match, `NotFound`
/// on other input that it does not match.
pub open spec fn component_parse<C: Component>(input: Seq<u8>) -> Result<(Seq<u8>, nat), ParseError> {
    match C::rule(input) {
        Some(n) => Ok((input.take(n as int), n)),
        None => if input.len() == 0 {
            Err(ParseError::Eof)
        } else {
            Err(ParseError::NotFound)
        },
    }
}

pub fn parse_component<C: Component>(input: &[u8]) -> (r: Result<(C, &[u8]), ParseError>)
    ensures
        parsed(input@, r, component_parse::<C>(input@)),
{
    match C::scan(input, 0) {
        Some(n) => {
            let bytes = slice_to_vec(slice_subrange(input, 0, n));
            assert(bytes@ == input@.take(n as int));
            Ok((C::from_bytes(bytes), slice_subrange(input, n, input.len())))
        },
        None => if input.len() == 0 {
            Err(ParseError::Eof)
        } else {
            Err(ParseError::NotFound)
        },
    }
}

pub fn stream_component<C: Component>(c: &C, out: &mut Vec<u8>) -> (n: usize)
    ensures
        final(out)@ == old(out)@ + c@,
        n == c@.len(),
{
    let b = c.as_bytes();
    append(out, b);
    b.len()
}

/// A date and time, `date-time` of RFC 5322 section 3.3.
#[derive(Debug, Clone, PartialEq, Eq)]
pub struct DateTime {
    bytes: Vec<u8>,
}

impl View for DateTime {
    type V = Seq<u8>;

    closed spec fn view(&self) -> Seq<u8> {
        self.bytes@
    }
}

impl Component for DateTime {
    open spec fn rule(t: Seq<u8>) -> Option<nat> {
        date_time(t)
    }

    fn scan(s: &[u8], i: usize) -> (r: Option<usize>) {
        scan_date_time(s, i)
    }

    fn from_bytes(bytes: Vec<u8>) -> (c: Self) {
        DateTime { bytes }
    }

    fn as_bytes(&self) -> (b: &[u8]) {
        self.bytes.as_slice()
    }
}

impl Parsable for DateTime {
    open spec fn spec_parse(input: Seq<u8>) -> Result<(Seq<u8>, nat), ParseError> {
        component_parse::<DateTime>(input)
    }

    fn parse(input: &[u8]) -> (r: Result<(Self, &[u8]), ParseError>) {
        parse_component::<DateTime>(input)
    }
}

impl Streamable for DateTime {
    open spec fn spec_stream(v: Seq<u8>) -> Seq<u8> {
        v
    }

    fn stream(&self, out: &mut Vec<u8>) -> (n: usize) {
        stream_component(self, out)
    }
}

/// A comma-separated list of mailboxes, `mailbox-list` of RFC 5322 section 3.4.
#[derive(Debug, Clone, PartialEq, Eq)]
pub struct MailboxList {
    bytes: Vec<u8>,
}

impl View for MailboxList {
    type V = Seq<u8>;

    closed spec fn view(&self) -> Seq<u8> {
        self.bytes@
    }
}

impl Component for MailboxList {
    open spec fn rule(t: Seq<u8>) -> Option<nat> {
        mailbox_list(t)
    }

    fn scan(s: &[u8], i: usize) -> (r: Option<usize>) {
        scan_mailbox_list(s, i)
    }

    fn from_bytes(bytes: Vec<u8>) -> (c: Self) {
        MailboxList { bytes }
    }

    fn as_bytes(&self) -> (b: &[u8]) {
        self.bytes.as_slice()
    }
}

impl Parsable for MailboxList {
    open spec fn spec_parse(input: Seq<u8>) -> Result<(Seq<u8>, nat), ParseError> {
        component_parse::<MailboxList>(input)
    }

    fn parse(input: &[u8]) -> (r: Result<(Self, &[u8]), ParseError>) {
        parse_component::<MailboxList>(input)
    }
}

impl Streamable for MailboxList {
    open spec fn spec_stream(v: Seq<u8>) -> Seq<u8> {
        v
    }

    fn stream(&self, out: &mut Vec<u8>) -> (n: usize) {
        stream_component(self, out)
    }
}

/// A mailbox, `mailbox` of RFC 5322 section 3.4.
#[derive(Debug, Clone, PartialEq, Eq)]
pub struct Mailbox {
    bytes: Vec<u8>,
}

impl View for Mailbox {
    type V = Seq<u8>;

    closed spec fn view(&self) -> Seq<u8> {
        self.bytes@
    }
}

impl Component for Mailbox {
    open spec fn rule(t: Seq<u8>) -> Option<nat> {
        mailbox(t)
    }

    fn scan(s: &[u8], i: usize) -> (r: Option<usize>) {
        scan_mailbox(s, i)
    }

    fn from_bytes(bytes: Vec<u8>) -> (c: Self) {
        Mailbox { bytes }
    }

    fn as_bytes(&self) -> (b: &[u8]) {
        self.bytes.as_slice()
    }
}

impl Parsable for Mailbox {
    open spec fn spec_parse(input: Seq<u8>) -> Result<(Seq<u8>, nat), ParseError> {
        component_parse::<Mailbox>(input)
    }

    fn parse(input: &[u8]) -> (r: Result<(Self, &[u8]), ParseError>) {
        parse_component::<Mailbox>(input)
    }
}

impl Streamable for Mailbox {
    open spec fn spec_stream(v: Seq<u8>) -> Seq<u8> {
        v
    }

    fn stream(&self, out: &mut Vec<u8>) -> (n: usize) {
        stream_component(self, out)
    }
}

/// A comma-separated list of addresses, `address-list` of RFC 5322 section 3.4.
#[derive(Debug, Clone, PartialEq, Eq)]
pub struct AddressList {
    bytes: Vec<u8>,
}

impl View for AddressList {
    type V = Seq<u8>;

    closed spec fn view(&self) -> Seq<u8> {
        self.bytes@
    }
}

impl Component for AddressList {
    open spec fn rule(t: Seq<u8>) -> Option<nat> {
        address_list(t)
    }

    fn scan(s: &[u8], i: usize) -> (r: Option<usize>) {
        scan_address_list(s, i)
    }

    fn from_bytes(bytes: Vec<u8>) -> (c: Self) {
        AddressList { bytes }
    }

    fn as_bytes(&self) -> (b: &[u8]) {
        self.bytes.as_slice()
    }
}

impl Parsable for AddressList {
    open spec fn spec_parse(input: Seq<u8>) -> Result<(Seq<u8>, nat), ParseError> {
        component_parse::<AddressList>(input)
    }

    fn parse(input: &[u8]) -> (r: Result<(Self, &[u8]), ParseError>) {
        parse_component::<AddressList>(input)
    }
}

impl Streamable for AddressList {
    open spec fn spec_stream(v: Seq<u8>) -> Seq<u8> {
        v
    }

    fn stream(&self, out: &mut Vec<u8>) -> (n: usize) {
        stream_component(self, out)
    }
}

/// Comments and folding white space, `CFWS` of RFC 5322 section 3.2.2.
#[derive(Debug, Clone, PartialEq, Eq)]
pub struct CFWS {
    bytes: Vec<u8>,
}

impl View for CFWS {
    type V = Seq<u8>;

    closed spec fn view(&self) -> Seq<u8> {
        self.bytes@
    }
}

impl Component for CFWS {
    open spec fn rule(t: Seq<u8>) -> Option<nat> {
        cfws(t)
    }

    fn scan(s: &[u8], i: usize) -> (r: Option<usize>) {
        scan_cfws(s, i)
    }

    fn from_bytes(bytes: Vec<u8>) -> (c: Self) {
        CFWS { bytes }
    }

    fn as_bytes(&self) -> (b: &[u8]) {
        self.bytes.as_slice()
    }
}

impl Parsable for CFWS {
    open spec fn spec_parse(input: Seq<u8>) -> Result<(Seq<u8>, nat), ParseError> {
        component_parse::<CFWS>(input)
    }

    fn parse(input: &[u8]) -> (r: Result<(Self, &[u8]), ParseError>) {
        parse_component::<CFWS>(input)
    }
}

impl Streamable for CFWS {
    open spec fn spec_stream(v: Seq<u8>) -> Seq<u8> {
        v
    }

    fn stream(&self, out: &mut Vec<u8>) -> (n: usize) {
        stream_component(self, out)
    }
}

/// A message identifier, `msg-id` of RFC 5322 section 3.6.4.
#[derive(Debug, Clone, PartialEq, Eq)]
pub struct MsgId {
    bytes: Vec<u8>,
}

impl View for MsgId {
    type V = Seq<u8>;

    closed spec fn view(&self) -> Seq<u8> {
        self.bytes@
    }
}

impl Component for MsgId {
    open spec fn rule(t: Seq<u8>) -> Option<nat> {
        msg_id(t)
    }

    fn scan(s: &[u8], i: usize) -> (r: Option<usize>) {
        scan_msg_id(s, i)
    }

    fn from_bytes(bytes: Vec<u8>) -> (c: Self) {
        MsgId { bytes }
    }

    fn as_bytes(&self) -> (b: &[u8]) {
        self.bytes.as_slice()
    }
}

impl Parsable for MsgId {
    open spec fn spec_parse(input: Seq<u8>) -> Result<(Seq<u8>, nat), ParseError> {
        component_parse::<MsgId>(input)
    }

    fn parse(input: &[u8]) -> (r: Result<(Self, &[u8]), ParseError>) {
        parse_component::<MsgId>(input)
    }
}

impl Streamable for MsgId {
    open spec fn spec_stream(v: Seq<u8>) -> Seq<u8> {
        v
    }

    fn stream(&self, out: &mut Vec<u8>) -> (n: usize) {
        stream_component(self, out)
    }
}

/// Unstructured text, `unstructured` of RFC 5322 section 3.2.5.
#[derive(Debug, Clone, PartialEq, Eq)]
pub struct Unstructured {
    bytes: Vec<u8>,
}

impl View for Unstructured {
    type V = Seq<u8>;

    closed spec fn view(&self) -> Seq<u8> {
        self.bytes@
    }
}

impl Component for Unstructured {
    open spec fn rule(t: Seq<u8>) -> Option<nat> {
        unstructured(t)
    }

    fn scan(s: &[u8], i: usize) -> (r: Option<usize>) {
        scan_unstructured(s, i)
    }

    fn from_bytes(bytes: Vec<u8>) -> (c: Self) {
        Unstructured { bytes }
    }

    fn as_bytes(&self) -> (b: &[u8]) {
        self.bytes.as_slice()
    }
}

impl Parsable for Unstructured {
    open spec fn spec_parse(input: Seq<u8>) -> Result<(Seq<u8>, nat), ParseError> {
        component_parse::<Unstructured>(input)
    }

    fn parse(input: &[u8]) -> (r: Result<(Self, &[u8]), ParseError>) {
        parse_component::<Unstructured>(input)
    }
}

impl Streamable for Unstructured {
    open spec fn spec_stream(v: Seq<u8>) -> Seq<u8> {
        v
    }

    fn stream(&self, out: &mut Vec<u8>) -> (n: usize) {
        stream_component(self, out)
    }
}

/// A phrase, `phrase` of RFC 5322 section 3.2.5.
#[derive(Debug, Clone, PartialEq, Eq)]
pub struct Phrase {
    bytes: Vec<u8>,
}

impl View for Phrase {
    type V = Seq<u8>;

    closed spec fn view(&self) -> Seq<u8> {
        self.bytes@
    }
}

impl Component for Phrase {
    open spec fn rule(t: Seq<u8>) -> Option<nat> {
        phrase(t)
    }

    fn scan(s: &[u8], i: usize) -> (r: Option<usize>) {
        scan_phrase(s, i)
    }

    fn from_bytes(bytes: Vec<u8>) -> (c: Self) {
        Phrase { bytes }
    }

    fn as_bytes(&self) -> (b: &[u8]) {
        self.bytes.as_slice()
    }
}

impl Parsable for Phrase {
    open spec fn spec_parse(input: Seq<u8>) -> Result<(Seq<u8>, nat), ParseError> {
        component_parse::<Phrase>(input)
    }

    fn parse(input: &[u8]) -> (r: Result<(Self, &[u8]), ParseError>) {
        parse_component::<Phrase>(input)
    }
}

impl Streamable for Phrase {
    open spec fn spec_stream(v: Seq<u8>) -> Seq<u8> {
        v
    }

    fn stream(&self, out: &mut Vec<u8>) -> (n: usize) {
        stream_component(self, out)
    }
}

/// A token of a trace field, `received-token` of RFC 5322 section 3.6.7.
#[derive(Debug, Clone, PartialEq, Eq)]
pub struct ReceivedToken {
    bytes: Vec<u8>,
}

impl View for ReceivedToken {
    type V = Seq<u8>;

    closed spec fn view(&self) -> Seq<u8> {
        self.bytes@
    }
}

impl Component for ReceivedToken {
    open spec fn rule(t: Seq<u8>) -> Option<nat> {
        received_token(t)
    }

    fn scan(s: &[u8], i: usize) -> (r: Option<usize>) {
        scan_received_token(s, i)
    }

    fn from_bytes(bytes: Vec<u8>) -> (c: Self) {
        ReceivedToken { bytes }
    }

    fn as_bytes(&self) -> (b: &[u8]) {
        self.bytes.as_slice()
    }
}

impl Parsable for ReceivedToken {
    open spec fn spec_parse(input: Seq<u8>) -> Result<(Seq<u8>, nat), ParseError> {
        component_parse::<ReceivedToken>(input)
    }

    fn parse(input: &[u8]) -> (r: Result<(Self, &[u8]), ParseError>) {
        parse_component::<ReceivedToken>(input)
    }
}

impl Streamable for ReceivedToken {
    open spec fn spec_stream(v: Seq<u8>) -> Seq<u8> {
        v
    }

    fn stream(&self, out: &mut Vec<u8>) -> (n: usize) {
        stream_component(self, out)
    }
}

/// A return path, `path` of RFC 5322 section 3.6.7.
#[derive(Debug, Clone, PartialEq, Eq)]
pub struct Path {
    bytes: Vec<u8>,
}

impl View for Path {
    type V = Seq<u8>;

    closed spec fn view(&self) -> Seq<u8> {
        self.bytes@
    }
}

impl Component for Path {
    open spec fn rule(t: Seq<u8>) -> Option<nat> {
        path(t)
    }

    fn scan(s: &[u8], i: usize) -> (r: Option<usize>) {
        scan_path(s, i)
    }

    fn from_bytes(bytes: Vec<u8>) -> (c: Self) {
        Path { bytes }
    }

    fn as_bytes(&self) -> (b: &[u8]) {
        self.bytes.as_slice()
    }
}

impl Parsable for Path {
    open spec fn spec_parse(input: Seq<u8>) -> Result<(Seq<u8>, nat), ParseError> {
        component_parse::<Path>(input)
    }

    fn parse(input: &[u8]) -> (r: Result<(Self, &[u8]), ParseError>) {
        parse_component::<Path>(input)
    }
}

impl Streamable for Path {
    open spec fn spec_stream(v: Seq<u8>) -> Seq<u8> {
        v
    }

    fn stream(&self, out: &mut Vec<u8>) -> (n: usize) {
        stream_component(self, out)
    }
}

/// The name of an optional field, `field-name` of RFC 5322 section 3.6.8.
#[derive(Debug, Clone, PartialEq, Eq)]
pub struct FieldName {
    bytes: Vec<u8>,
}

impl View for FieldName {
    type V = Seq<u8>;

    closed spec fn view(&self) -> Seq<u8> {
        self.bytes@
    }
}

impl Component for FieldName {
    open spec fn rule(t: Seq<u8>) -> Option<nat> {
        field_name(t)
    }

    fn scan(s: &[u8], i: usize) -> (r: Option<usize>) {
        scan_field_name(s, i)
    }

    fn from_bytes(bytes: Vec<u8>) -> (c: Self) {
        FieldName { bytes }
    }

    fn as_bytes(&self) -> (b: &[u8]) {
        self.bytes.as_slice()
    }
}

impl Parsable for FieldName {
    open spec fn spec_parse(input: Seq<u8>) -> Result<(Seq<u8>, nat), ParseError> {
        component_parse::<FieldName>(input)
    }

    fn parse(input: &[u8]) -> (r: Result<(Self, &[u8]), ParseError>) {
        parse_component::<FieldName>(input)
    }
}

impl Streamable for FieldName {
    open spec fn spec_stream(v: Seq<u8>) -> Seq<u8> {
        v
    }

    fn stream(&self, out: &mut Vec<u8>) -> (n: usize) {
        stream_component(self, out)
    }
}

} // verus!
