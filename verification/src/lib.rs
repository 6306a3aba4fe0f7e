//! Parsing and streaming of the header fields of Internet messages
//! (RFC 5322 section 3.6), with the grammar of their values (sections 3.2 to
//! 3.4).
//!
//! Every field type parses itself from the front of a byte slice
//! ([`Parsable`]), writes itself out ([`Streamable`]) and can be made from
//! its parts or from raw bytes ([`TryFrom`]).  The laws that tie parsing to
//! streaming are stated by [`Field`] and [`Reproducible`].
pub mod scan;
pub mod lexical;
pub mod datetime;
pub mod address;
pub mod error;
pub mod traits;
pub mod types;
pub mod field;
pub mod headers;

pub use error::ParseError;
pub use traits::{Parsable, Streamable, TryFrom};
pub use types::{
    AddressList, Component, DateTime, FieldName, Mailbox, MailboxList, MsgId, Path, Phrase,
    ReceivedToken, Unstructured, CFWS,
};
pub use headers::{
    Bcc, Cc, Comments, Field, From, InReplyTo, Keywords, MessageId, OptionalField, OrigDate,
    Received, ReceivedTokens, References, ReplyTo, Reproducible, ResentBcc, ResentCc, ResentDate,
    ResentFrom, ResentMessageId, ResentSender, ResentTo, Return, Sender, Subject, To,
};
