//! Building blocks for composing double-entry transactions and splicing
//! them into a date-ordered plain-text journal.

pub mod book;
pub mod date;
pub mod decimal;
pub mod ledger;
pub mod parser;
pub mod session;
pub mod text;
pub mod transaction;
