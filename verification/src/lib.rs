//! An in-process mail store: accounts register and log in, authenticated
//! sessions exchange short messages, and a line-oriented command grammar
//! drives the store. Every operation carries a contract describing exactly
//! how it changes the store and when each error is returned.

mod command;
mod store;

pub use command::{Command, ParseError, SpecCommand, SpecParseError};
pub use store::{
    LoginError, Mail, MailApp, MailId, MailInfo, RegisterError, Session, SessionError, SessionId,
    User, UserId,
};

