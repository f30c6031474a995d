//! A verified core for a sendmail-style local delivery command: it parses a
//! mail message from bytes read off a stream, normalizes the header block,
//! and renders the message as an RFC 4155 mbox record, ready to be appended
//! to a spool file.

mod clock;
pub mod mail_message;
pub mod config;
pub mod error;
pub mod text;
