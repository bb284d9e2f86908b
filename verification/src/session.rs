//! The course of a session: which line opens a transaction, which changes
//! it, and which ends it. What a line asks for is decided here; reading
//! the line and writing the file are left to the caller.

use crate::parser::{
    applied, command_of, expected_token, expected_after, fresh, header_of, parse_command,
    parse_transaction_header, CommandError, HeaderError, TokenType,
};
use crate::text::{split_words, words_of};
use crate::book::{Bucket, TransactionView};
use crate::transaction::Transaction;
use vstd::prelude::*;
use vstd::string::StringSliceAdditionalSpecFns;
use vstd::utf8::is_char_boundary;

verus! {

/// What the session waits for.
#[derive(Clone, Copy, Debug, PartialEq, Eq, Structural)]
pub enum Prompt {
    /// The header of a new transaction.
    Header,
    /// A change to the open transaction, or the empty line that ends it.
    Change,
}

/// What a line led to.
#[derive(Debug, PartialEq)]
pub enum Action {
    /// The header was taken: a transaction is open.
    Opened,
    /// The header was refused: no transaction is open.
    HeaderRefused(HeaderError),
    /// The command was applied to the open transaction.
    Applied,
    /// The command was refused: the open transaction is as it was.
    CommandRefused(CommandError),
    /// The command asks for a sum that would have to be rounded: the open
    /// transaction is as it was.
    OutOfRange,
    /// The line was empty: the transaction is closed and handed out to be
    /// written.
    Finished(Transaction),
}

/// What completes the word under the cursor.
#[derive(Clone, Copy, Debug, PartialEq, Eq, Structural)]
pub enum Completion {
    /// The names of accounts.
    Accounts,
    /// The symbols of commodities.
    Commodities,
    /// Nothing.
    Nothing,
}

/// The completion for a kind of word.
pub open spec fn completion_of(wanted: Option<TokenType>) -> Completion {
    match wanted {
        Some(TokenType::Account) => Completion::Accounts,
        Some(TokenType::Currency) => Completion::Commodities,
        _ => Completion::Nothing,
    }
}

/// Says what completes the word at the byte `pos` of a command line:
/// account names where the command wants an account there, commodity
/// symbols where it wants a commodity.
pub fn completion_at(line: &str, pos: usize) -> (c: Completion)
    ensures
        c == completion_of(expected_after(fresh(), words_of(line@), 0, pos as int)),
{
    match expected_token(line, pos) {
        Some(TokenType::Account) => Completion::Accounts,
        Some(TokenType::Currency) => Completion::Commodities,
        _ => Completion::Nothing,
    }
}

/// The byte of the space.
pub const SPACE: u8 = 32;

/// Whether a character ends a word of a command line: only the space
/// does.
pub fn is_word_break(c: char) -> (b: bool)
    ensures
        b == (c == ' '),
{
    c == ' '
}

/// `rustyline::completion::extract_word` with no escape character and
/// the space as the only character that ends a word.
///
/// Trusted: it returns the part of the line that lies between the last
/// space before the byte `pos` and that byte, or between the start of the
/// line and that byte where there is no space, together with the offset
/// at which that part begins.
#[verifier::external_body]
fn outside_extract_word<'a>(line: &'a str, pos: usize) -> (r: (usize, &'a str))
    requires
        pos <= line.spec_bytes().len(),
        is_char_boundary(line.spec_bytes(), pos as int),
    ensures
        r.0 <= pos,
        r.1.spec_bytes() == line.spec_bytes().subrange(r.0 as int, pos as int),
        r.0 == 0 || line.spec_bytes()[r.0 - 1] == SPACE,
        forall|i: int| 0 <= i < r.1@.len() ==> r.1@[i] != ' ',
{
    rustyline::completion::extract_word(line, pos, None, is_word_break)
}

/// What to look up to complete the word under the cursor.
pub struct CompletionRequest<'a> {
    /// Where the candidates come from.
    pub source: Completion,
    /// The offset in the line at which the word begins.
    pub start: usize,
    /// What is typed of the word so far.
    pub word: &'a str,
}

/// Says how to complete the word that ends at the byte `pos` of a
/// command line: where the candidates come from, at which offset the word
/// begins and what is typed of it. Where nothing completes the word, or
/// `pos` does not lie between two characters of the line, the request is
/// for nothing, at offset 0.
pub fn completion_request<'a>(line: &'a str, pos: usize) -> (r: CompletionRequest<'a>)
    ensures
        r.source == if is_char_boundary(line.spec_bytes(), pos as int) {
            completion_of(expected_after(fresh(), words_of(line@), 0, pos as int))
        } else {
            Completion::Nothing
        },
        r.source == Completion::Nothing ==> r.start == 0 && r.word@.len() == 0,
        r.source != Completion::Nothing ==> {
            &&& r.start <= pos
            &&& r.word.spec_bytes() == line.spec_bytes().subrange(r.start as int, pos as int)
            &&& (r.start == 0 || line.spec_bytes()[r.start - 1] == SPACE)
            &&& forall|i: int| 0 <= i < r.word@.len() ==> r.word@[i] != ' '
        },
{
    proof {
        reveal_strlit("");
        vstd::utf8::encode_utf8_valid_utf8(line@);
    }
    if !line.is_char_boundary(pos) {
        return CompletionRequest { source: Completion::Nothing, start: 0, word: "" };
    }
    assert(pos <= line.spec_bytes().len());
    let source = completion_at(line, pos);
    match source {
        Completion::Nothing => CompletionRequest { source, start: 0, word: "" },
        _ => {
            let (start, word) = outside_extract_word(line, pos);
            CompletionRequest { source, start, word }
        },
    }
}

/// A session: the transaction that is being composed, if one is open.
pub struct Composer {
    pub current: Option<Transaction>,
}

impl Composer {
    /// The open transaction, if there is one, keeps its invariant.
    pub open spec fn wf(&self) -> bool {
        self.current matches Some(tx) ==> tx.wf()
    }

    /// The open transaction as a mathematical value.
    pub open spec fn open_view(&self) -> Option<TransactionView> {
        match self.current {
            Some(tx) => Some(tx@),
            None => None,
        }
    }

    /// A session with no transaction open.
    pub fn new() -> (c: Composer)
        ensures
            c.current is None,
            c.wf(),
    {
        Composer { current: None }
    }

    /// What the session waits for.
    pub fn prompt(&self) -> (p: Prompt)
        ensures
            p == if self.current is Some {
                Prompt::Change
            } else {
                Prompt::Header
            },
    {
        match &self.current {
            Some(_) => Prompt::Change,
            None => Prompt::Header,
        }
    }

    /// Takes a line. With no transaction open the line is a header: it
    /// opens a transaction or is refused. With one open, a line without a
    /// word closes the transaction and hands it out; any other line is a
    /// command, which is applied, or refused and leaves the transaction
    /// as it was.
    pub fn handle_line(&mut self, line: &str) -> (action: Action)
        requires
            old(self).wf(),
        ensures
            final(self).wf(),
            match old(self).current {
                None => match header_of(line@) {
                    Ok((date, description)) => {
                        &&& action == Action::Opened
                        &&& final(self).current matches Some(tx) && tx.date == date
                            && tx.description@ == description && tx@.book == Seq::<
                            Bucket,
                        >::empty()
                    },
                    Err(e) => action == Action::HeaderRefused(e) && final(self).current is None,
                },
                Some(before) => if words_of(line@).len() == 0 {
                    &&& action matches Action::Finished(tx) && tx@ == before@ && tx.wf()
                    &&& final(self).current is None
                } else {
                    match command_of(words_of(line@)) {
                        Err(e) => action == Action::CommandRefused(e) && final(self).open_view()
                            == Some(before@),
                        Ok(op) => match applied(before@.book, op) {
                            Some(book) => {
                                &&& action == Action::Applied
                                &&& final(self).current matches Some(tx) && tx@.book == book
                                    && tx.date == before.date && tx.description
                                    == before.description
                            },
                            None => action == Action::OutOfRange && final(self).open_view()
                                == Some(before@),
                        },
                    }
                },
            },
    {
        match self.current.take() {
            None => match parse_transaction_header(line) {
                Ok(tx) => {
                    self.current = Some(tx);
                    Action::Opened
                },
                Err(e) => Action::HeaderRefused(e),
            },
            Some(mut tx) => {
                let words = split_words(line);
                if words.len() == 0 {
                    return Action::Finished(tx);
                }
                let action = match parse_command(line) {
                    Err(e) => Action::CommandRefused(e),
                    Ok(op) => if op.try_add_to_transation(&mut tx) {
                        Action::Applied
                    } else {
                        Action::OutOfRange
                    },
                };
                self.current = Some(tx);
                action
            },
        }
    }
}

} // verus!
