//! The command parser: a state machine that takes one word at a time, and
//! the parser of a transaction's header line.

use crate::book::{finalized, with_change, with_split, Bucket, Entry};
use crate::date::{parsed_date, Date};
use crate::decimal::{parsed_decimal, Decimal};
use crate::text::{is_digit, join_words, joined, split_words, texts_of, to_chars, words_of};
use crate::transaction::{Amount, Transaction};
use vstd::prelude::*;
use vstd::utf8::encode_utf8;

verus! {

/// Whether `regex` finds the pattern in the text; `None` where it does
/// not accept the pattern.
pub uninterp spec fn regex_match(pattern: Seq<char>, text: Seq<char>) -> Option<bool>;

/// `regex::Regex::new` on the pattern, then `Regex::is_match` on the text.
///
/// Trusted: the outcome depends on the pattern and the text alone.
#[verifier::external_body]
fn outside_is_match(pattern: &str, text: &str) -> (r: Option<bool>)
    ensures
        r == regex_match(pattern@, text@),
{
    match regex::Regex::new(pattern) {
        Ok(re) => Some(re.is_match(text)),
        Err(_) => None,
    }
}

/// The pattern that a text of one letter matches, and no other text.
pub open spec fn letter_pattern() -> Seq<char> {
    "^\\p{L}$"@
}

/// Whether the character is a letter of some script, as `regex` knows
/// the letters.
pub open spec fn is_letter(c: char) -> bool {
    regex_match(letter_pattern(), seq![c]) == Some(true)
}

/// A name of an account: a letter, then letters, digits and colons.
pub open spec fn is_account_name(word: Seq<char>) -> bool {
    &&& word.len() > 0
    &&& is_letter(word[0])
    &&& forall|i: int|
        1 <= i < word.len() ==> is_letter(#[trigger] word[i]) || is_digit(word[i]) || word[i]
            == ':'
}

/// A symbol of a commodity: a word that is not made of digits alone.
pub open spec fn is_currency(word: Seq<char>) -> bool {
    exists|i: int| 0 <= i < word.len() && !is_digit(#[trigger] word[i])
}

/// Whether the character is a letter.
pub fn is_letter_char(c: char) -> (b: bool)
    ensures
        b == is_letter(c),
{
    let mut text = String::new();
    text.push(c);
    assert(text@ =~= seq![c]);
    match outside_is_match("^\\p{L}$", text.as_str()) {
        Some(found) => found,
        None => false,
    }
}

/// Whether the word can name an account.
pub fn is_account_word(word: &str) -> (b: bool)
    ensures
        b == is_account_name(word@),
{
    let chars = to_chars(word);
    if chars.len() == 0 {
        return false;
    }
    if !is_letter_char(chars[0]) {
        return false;
    }
    let mut i: usize = 1;
    while i < chars.len()
        invariant
            1 <= i <= chars.len(),
            chars@ == word@,
            is_letter(chars@[0]),
            forall|j: int|
                1 <= j < i ==> is_letter(#[trigger] chars@[j]) || is_digit(chars@[j]) || chars@[j]
                    == ':',
        decreases chars.len() - i,
    {
        let c = chars[i];
        if !(c == ':' || ('0' <= c && c <= '9') || is_letter_char(c)) {
            return false;
        }
        i = i + 1;
    }
    true
}

/// Whether the word can stand for a commodity.
pub fn is_currency_word(word: &str) -> (b: bool)
    ensures
        b == is_currency(word@),
{
    let chars = to_chars(word);
    let mut i: usize = 0;
    while i < chars.len()
        invariant
            i <= chars.len(),
            chars@ == word@,
            forall|j: int| 0 <= j < i ==> is_digit(#[trigger] chars@[j]),
        decreases chars.len() - i,
    {
        let c = chars[i];
        if !('0' <= c && c <= '9') {
            assert(!is_digit(chars@[i as int]));
            return true;
        }
        i = i + 1;
    }
    false
}

/// The kind of word that a command wants next.
#[derive(Clone, Copy, Debug, PartialEq, Eq, Structural)]
pub enum TokenType {
    Operation,
    Account,
    Currency,
    Amount,
    EOL,
}

/// The kind of a command.
#[derive(Clone, Copy, Debug, PartialEq, Eq, Structural)]
pub enum OperationType {
    AddSimple,
    AddSplit,
    Finalize,
}

/// Why a word was refused.
#[derive(Clone, Copy, Debug, PartialEq, Eq, Structural)]
pub enum GrammarError {
    /// The first word is none of `a`, `s` and `f`.
    InvalidOperation,
    /// The word cannot name an account.
    InvalidAccount,
    /// The word is made of digits alone.
    InvalidCurrency,
    /// The word is no decimal number.
    InvalidAmount,
    /// The command was complete already.
    UnexpectedInput,
}

impl GrammarError {
    /// The text of `message`.
    pub open spec fn message_text(self) -> Seq<char> {
        match self {
            GrammarError::InvalidOperation => "Invalid operation type"@,
            GrammarError::InvalidAccount => "Account name contains invalid character"@,
            GrammarError::InvalidCurrency => "Currency contains invalid characters"@,
            GrammarError::InvalidAmount => "Invalid decimal number"@,
            GrammarError::UnexpectedInput => "Unexpected input at end of line"@,
        }
    }

    /// What to tell the user.
    pub fn message(&self) -> (text: String)
        ensures
            text@ == self.message_text(),
    {
        match self {
            GrammarError::InvalidOperation => "Invalid operation type".to_owned(),
            GrammarError::InvalidAccount => "Account name contains invalid character".to_owned(),
            GrammarError::InvalidCurrency => "Currency contains invalid characters".to_owned(),
            GrammarError::InvalidAmount => "Invalid decimal number".to_owned(),
            GrammarError::UnexpectedInput => "Unexpected input at end of line".to_owned(),
        }
    }
}

/// A change to a transaction, as a command asks for it.
#[derive(Clone, Debug, PartialEq)]
pub enum Operation<'a> {
    AddSimpleChange(&'a str, Amount),
    AddSplitChange(&'a str, &'a str, Amount),
    Finalize(&'a str),
}

/// An operation as a mathematical value.
pub enum OperationView {
    AddSimpleChange(Seq<char>, Entry),
    AddSplitChange(Seq<char>, Seq<char>, Entry),
    Finalize(Seq<char>),
}

impl<'a> View for Operation<'a> {
    type V = OperationView;

    open spec fn view(&self) -> OperationView {
        match *self {
            Operation::AddSimpleChange(account, amount) => OperationView::AddSimpleChange(
                account@,
                amount@,
            ),
            Operation::AddSplitChange(account, split_account, amount) => {
                OperationView::AddSplitChange(account@, split_account@, amount@)
            },
            Operation::Finalize(account) => OperationView::Finalize(account@),
        }
    }
}

/// What a parser has taken so far.
pub struct ParserState {
    pub next: TokenType,
    pub kind: Option<OperationType>,
    pub accounts: Seq<Seq<char>>,
    pub currency: Option<Seq<char>>,
    pub amount: Option<Decimal>,
}

/// The kind of command that an operation word stands for.
pub open spec fn operation_type(word: Seq<char>) -> Option<OperationType> {
    if word == seq!['a'] {
        Some(OperationType::AddSimple)
    } else if word == seq!['s'] {
        Some(OperationType::AddSplit)
    } else if word == seq!['f'] {
        Some(OperationType::Finalize)
    } else {
        None
    }
}

impl OperationType {
    /// Reads an operation word: `a` adds an amount, `s` splits one, `f`
    /// finalizes.
    pub fn parse(word: &str) -> (r: Result<OperationType, GrammarError>)
        ensures
            r == match operation_type(word@) {
                Some(kind) => Ok::<OperationType, GrammarError>(kind),
                None => Err::<OperationType, GrammarError>(GrammarError::InvalidOperation),
            },
    {
        let chars = to_chars(word);
        if chars.len() != 1 {
            return Err(GrammarError::InvalidOperation);
        }
        assert(word@ =~= seq![chars@[0]]);
        assert(seq!['a'][0] == 'a' && seq!['s'][0] == 's' && seq!['f'][0] == 'f');
        if chars[0] == 'a' {
            Ok(OperationType::AddSimple)
        } else if chars[0] == 's' {
            Ok(OperationType::AddSplit)
        } else if chars[0] == 'f' {
            Ok(OperationType::Finalize)
        } else {
            Err(GrammarError::InvalidOperation)
        }
    }
}

/// What is wanted after an account: a second account in a split that has
/// one, nothing more to finalize, else a commodity.
pub open spec fn after_account(kind: Option<OperationType>, accounts: nat) -> TokenType {
    if kind == Some(OperationType::AddSplit) && accounts == 1 {
        TokenType::Account
    } else if kind == Some(OperationType::Finalize) {
        TokenType::EOL
    } else {
        TokenType::Currency
    }
}

/// The state before any word.
pub open spec fn fresh() -> ParserState {
    ParserState {
        next: TokenType::Operation,
        kind: None,
        accounts: Seq::empty(),
        currency: None,
        amount: None,
    }
}

/// One transition: the state after a word, or why the word is refused.
pub open spec fn step(st: ParserState, word: Seq<char>) -> Result<ParserState, GrammarError> {
    match st.next {
        TokenType::Operation => match operation_type(word) {
            Some(kind) => Ok(ParserState { next: TokenType::Account, kind: Some(kind), ..st }),
            None => Err(GrammarError::InvalidOperation),
        },
        TokenType::Account => if is_account_name(word) {
            Ok(
                ParserState {
                    next: after_account(st.kind, st.accounts.len() + 1),
                    accounts: st.accounts.push(word),
                    ..st
                },
            )
        } else {
            Err(GrammarError::InvalidAccount)
        },
        TokenType::Currency => if is_currency(word) {
            Ok(ParserState { next: TokenType::Amount, currency: Some(word), ..st })
        } else {
            Err(GrammarError::InvalidCurrency)
        },
        TokenType::Amount => match parsed_decimal(word) {
            Some(d) => Ok(ParserState { next: TokenType::EOL, amount: Some(d), ..st }),
            None => Err(GrammarError::InvalidAmount),
        },
        TokenType::EOL => Err(GrammarError::UnexpectedInput),
    }
}

/// The states that the transitions reach from the fresh one.
pub open spec fn state_wf(st: ParserState) -> bool {
    match st.next {
        TokenType::Operation => st == fresh(),
        TokenType::Account => {
            &&& st.kind is Some
            &&& st.currency is None
            &&& st.amount is None
            &&& (st.accounts.len() == 0 || (st.kind == Some(OperationType::AddSplit)
                && st.accounts.len() == 1))
        },
        TokenType::Currency => {
            &&& st.currency is None
            &&& st.amount is None
            &&& (st.kind == Some(OperationType::AddSimple) && st.accounts.len() == 1 || st.kind
                == Some(OperationType::AddSplit) && st.accounts.len() == 2)
        },
        TokenType::Amount => {
            &&& st.currency is Some
            &&& st.amount is None
            &&& (st.kind == Some(OperationType::AddSimple) && st.accounts.len() == 1 || st.kind
                == Some(OperationType::AddSplit) && st.accounts.len() == 2)
        },
        TokenType::EOL => {
            ||| st.kind == Some(OperationType::Finalize) && st.accounts.len() == 1
                && st.currency is None && st.amount is None
            ||| st.kind == Some(OperationType::AddSimple) && st.accounts.len() == 1
                && st.currency is Some && st.amount is Some && st.amount->0.wf()
            ||| st.kind == Some(OperationType::AddSplit) && st.accounts.len() == 2
                && st.currency is Some && st.amount is Some && st.amount->0.wf()
        },
    }
}

/// The operation of a complete command; `None` while words are missing.
pub open spec fn completed(st: ParserState) -> Option<OperationView> {
    if st.next != TokenType::EOL {
        None
    } else {
        match st.kind {
            Some(OperationType::AddSimple) => Some(
                OperationView::AddSimpleChange(
                    st.accounts[0],
                    Entry { commodity: st.currency->0, quantity: st.amount->0 },
                ),
            ),
            Some(OperationType::AddSplit) => Some(
                OperationView::AddSplitChange(
                    st.accounts[0],
                    st.accounts[1],
                    Entry { commodity: st.currency->0, quantity: st.amount->0 },
                ),
            ),
            Some(OperationType::Finalize) => Some(OperationView::Finalize(st.accounts[0])),
            None => None,
        }
    }
}

/// The parser of one command. It takes the words one by one and says
/// after each which kind of word it wants next.
pub struct Parser<'a> {
    pub next: TokenType,
    pub op_type: Option<OperationType>,
    pub accounts: Vec<&'a str>,
    pub currency: Option<&'a str>,
    pub amount: Option<Decimal>,
}

impl<'a> View for Parser<'a> {
    type V = ParserState;

    open spec fn view(&self) -> ParserState {
        ParserState {
            next: self.next,
            kind: self.op_type,
            accounts: texts_of(self.accounts@),
            currency: match self.currency {
                Some(c) => Some(c@),
                None => None,
            },
            amount: self.amount,
        }
    }
}

impl<'a> Parser<'a> {
    /// The parser is in a state that the transitions reach.
    pub open spec fn wf(&self) -> bool {
        state_wf(self@)
    }

    /// A parser that has taken no word.
    pub fn new() -> (p: Parser<'a>)
        ensures
            p@ == fresh(),
            p.wf(),
    {
        let p = Parser {
            next: TokenType::Operation,
            op_type: None,
            accounts: Vec::new(),
            currency: None,
            amount: None,
        };
        assert(p@.accounts =~= Seq::<Seq<char>>::empty());
        p
    }

    /// The operation, once the command is complete; `None` before.
    pub fn operation(self) -> (r: Option<Operation<'a>>)
        requires
            self.wf(),
        ensures
            match r {
                Some(op) => Some(op@) == completed(self@),
                None => completed(self@) is None,
            },
            r is Some <==> self.next == TokenType::EOL,
    {
        if self.next != TokenType::EOL {
            return None;
        }
        assert(self@.accounts[0] == self.accounts@[0]@);
        match self.op_type {
            Some(OperationType::AddSimple) => match (self.currency, self.amount) {
                (Some(currency), Some(amount)) => Some(
                    Operation::AddSimpleChange(self.accounts[0], Amount(currency.to_owned(), amount)),
                ),
                _ => None,
            },
            Some(OperationType::AddSplit) => match (self.currency, self.amount) {
                (Some(currency), Some(amount)) => {
                    assert(self@.accounts[1] == self.accounts@[1]@);
                    Some(
                        Operation::AddSplitChange(
                            self.accounts[0],
                            self.accounts[1],
                            Amount(currency.to_owned(), amount),
                        ),
                    )
                },
                _ => None,
            },
            Some(OperationType::Finalize) => Some(Operation::Finalize(self.accounts[0])),
            None => None,
        }
    }

    /// Takes one word. A word that is refused leaves the parser as it was.
    pub fn parse_word(&mut self, word: &'a str) -> (r: Result<(), GrammarError>)
        requires
            old(self).wf(),
        ensures
            match step(old(self)@, word@) {
                Ok(st) => r is Ok && final(self)@ == st,
                Err(e) => r == Err::<(), GrammarError>(e) && final(self)@ == old(self)@,
            },
            final(self).wf(),
    {
        match self.next {
            TokenType::Operation => self.parse_op_type(word),
            TokenType::Account => self.parse_account(word),
            TokenType::Currency => self.parse_currency(word),
            TokenType::Amount => self.parse_amount(word),
            TokenType::EOL => Err(GrammarError::UnexpectedInput),
        }
    }

    /// Takes the operation word.
    fn parse_op_type(&mut self, word: &'a str) -> (r: Result<(), GrammarError>)
        requires
            old(self).wf(),
            old(self).next == TokenType::Operation,
        ensures
            match step(old(self)@, word@) {
                Ok(st) => r is Ok && final(self)@ == st,
                Err(e) => r == Err::<(), GrammarError>(e) && final(self)@ == old(self)@,
            },
            final(self).wf(),
    {
        match OperationType::parse(word) {
            Ok(kind) => {
                self.op_type = Some(kind);
                self.next = TokenType::Account;
                Ok(())
            },
            Err(e) => Err(e),
        }
    }

    /// Takes the name of an account.
    fn parse_account(&mut self, word: &'a str) -> (r: Result<(), GrammarError>)
        requires
            old(self).wf(),
            old(self).next == TokenType::Account,
        ensures
            match step(old(self)@, word@) {
                Ok(st) => r is Ok && final(self)@ == st,
                Err(e) => r == Err::<(), GrammarError>(e) && final(self)@ == old(self)@,
            },
            final(self).wf(),
    {
        if !is_account_word(word) {
            return Err(GrammarError::InvalidAccount);
        }
        self.accounts.push(word);
        assert(texts_of(self.accounts@) =~= texts_of(old(self).accounts@).push(word@));
        let split = match self.op_type {
            Some(OperationType::AddSplit) => true,
            _ => false,
        };
        let finalize = match self.op_type {
            Some(OperationType::Finalize) => true,
            _ => false,
        };
        if split && self.accounts.len() == 1 {
            self.next = TokenType::Account;
        } else if finalize {
            self.next = TokenType::EOL;
        } else {
            self.next = TokenType::Currency;
        }
        Ok(())
    }

    /// Takes the symbol of a commodity.
    fn parse_currency(&mut self, word: &'a str) -> (r: Result<(), GrammarError>)
        requires
            old(self).wf(),
            old(self).next == TokenType::Currency,
        ensures
            match step(old(self)@, word@) {
                Ok(st) => r is Ok && final(self)@ == st,
                Err(e) => r == Err::<(), GrammarError>(e) && final(self)@ == old(self)@,
            },
            final(self).wf(),
    {
        if !is_currency_word(word) {
            return Err(GrammarError::InvalidCurrency);
        }
        self.currency = Some(word);
        self.next = TokenType::Amount;
        Ok(())
    }

    /// Takes the quantity.
    fn parse_amount(&mut self, word: &'a str) -> (r: Result<(), GrammarError>)
        requires
            old(self).wf(),
            old(self).next == TokenType::Amount,
        ensures
            match step(old(self)@, word@) {
                Ok(st) => r is Ok && final(self)@ == st,
                Err(e) => r == Err::<(), GrammarError>(e) && final(self)@ == old(self)@,
            },
            final(self).wf(),
    {
        match Decimal::parse(word) {
            Some(d) => {
                self.amount = Some(d);
                self.next = TokenType::EOL;
                Ok(())
            },
            None => Err(GrammarError::InvalidAmount),
        }
    }
}

/// Why a command line gave no operation.
#[derive(Clone, Copy, Debug, PartialEq, Eq, Structural)]
pub enum CommandError {
    /// A word was refused.
    Refused(GrammarError),
    /// The line ended while a word of this kind was still wanted.
    Incomplete(TokenType),
}

/// Why a header line gave no transaction.
#[derive(Clone, Copy, Debug, PartialEq, Eq, Structural)]
pub enum HeaderError {
    /// The line has no word.
    Missing,
    /// The first word is no date.
    InvalidDate,
}

impl HeaderError {
    /// The text of `message`.
    pub open spec fn message_text(self) -> Seq<char> {
        match self {
            HeaderError::Missing => "No transaction header provided"@,
            HeaderError::InvalidDate => "Invalid date in transaction header"@,
        }
    }

    /// What to tell the user.
    pub fn message(&self) -> (text: String)
        ensures
            text@ == self.message_text(),
    {
        match self {
            HeaderError::Missing => "No transaction header provided".to_owned(),
            HeaderError::InvalidDate => "Invalid date in transaction header".to_owned(),
        }
    }
}

/// The state after a run of words, or the first refusal.
pub open spec fn fed(st: ParserState, words: Seq<Seq<char>>) -> Result<ParserState, GrammarError>
    decreases words.len(),
{
    if words.len() == 0 {
        Ok(st)
    } else {
        match step(st, words[0]) {
            Ok(next) => fed(next, words.skip(1)),
            Err(e) => Err(e),
        }
    }
}

/// What a state gives at the end of the line.
pub open spec fn concluded(st: ParserState) -> Result<OperationView, CommandError> {
    match completed(st) {
        Some(op) => Ok(op),
        None => Err(CommandError::Incomplete(st.next)),
    }
}

/// The operation that the words of a command stand for.
pub open spec fn command_of(words: Seq<Seq<char>>) -> Result<OperationView, CommandError> {
    match fed(fresh(), words) {
        Ok(st) => concluded(st),
        Err(e) => Err(CommandError::Refused(e)),
    }
}

/// The length of a text in bytes, as `str::len` gives it.
pub open spec fn byte_len(word: Seq<char>) -> int {
    (encode_utf8(word).len() as usize) as int
}

/// The kind of word wanted at the byte `cursor` of a line, of which
/// `consumed` bytes lie before `words`: each word counts with one
/// separator, and the words that end before the cursor are taken. `None`
/// where one of them is refused.
pub open spec fn expected_after(
    st: ParserState,
    words: Seq<Seq<char>>,
    consumed: int,
    cursor: int,
) -> Option<TokenType>
    decreases words.len(),
{
    if words.len() == 0 {
        Some(st.next)
    } else {
        let reach = consumed + byte_len(words[0]) + 1;
        if reach > cursor {
            Some(st.next)
        } else {
            match step(st, words[0]) {
                Ok(next) => expected_after(next, words.skip(1), reach, cursor),
                Err(_) => None,
            }
        }
    }
}

/// The amount of the operation, where it has one, is a well-formed
/// decimal.
pub open spec fn operation_wf(op: OperationView) -> bool {
    match op {
        OperationView::AddSimpleChange(_, e) => e.quantity.wf(),
        OperationView::AddSplitChange(_, _, e) => e.quantity.wf(),
        OperationView::Finalize(_) => true,
    }
}

/// The changes after an operation. `None` where it would have to round.
pub open spec fn applied(book: Seq<Bucket>, op: OperationView) -> Option<Seq<Bucket>> {
    match op {
        OperationView::AddSimpleChange(account, e) => with_change(book, account, e),
        OperationView::AddSplitChange(account, split_account, e) => with_split(
            book,
            account,
            split_account,
            e,
        ),
        OperationView::Finalize(account) => finalized(book, account),
    }
}

/// The same words always lead to the same state or the same refusal,
/// and so to the same operation or the same error.
pub proof fn lemma_parser_deterministic(first: Seq<Seq<char>>, second: Seq<Seq<char>>)
    requires
        first.len() == second.len(),
        forall|i: int| 0 <= i < first.len() ==> first[i] == second[i],
    ensures
        fed(fresh(), first) == fed(fresh(), second),
        command_of(first) == command_of(second),
{
    assert(first =~= second);
}

impl<'a> Operation<'a> {
    /// A copy of the operation.
    pub fn duplicate(&self) -> (r: Operation<'a>)
        ensures
            r@ == self@,
    {
        match self {
            Operation::AddSimpleChange(account, amount) => Operation::AddSimpleChange(
                account,
                amount.duplicate(),
            ),
            Operation::AddSplitChange(account, split_account, amount) => {
                Operation::AddSplitChange(account, split_account, amount.duplicate())
            },
            Operation::Finalize(account) => Operation::Finalize(account),
        }
    }

    /// Applies the operation to a transaction.
    pub fn add_to_transation(self, tx: &mut Transaction)
        requires
            old(tx).wf(),
            operation_wf(self@),
            applied(old(tx)@.book, self@) is Some,
        ensures
            Some(final(tx)@.book) == applied(old(tx)@.book, self@),
            final(tx).wf(),
            final(tx).date == old(tx).date,
            final(tx).description == old(tx).description,
    {
        match self {
            Operation::AddSimpleChange(account, amount) => tx.add_change(account, amount),
            Operation::AddSplitChange(account, split_account, amount) => {
                tx.add_split_change(account, split_account, amount)
            },
            Operation::Finalize(account) => tx.finalize(account),
        }
    }

    /// Applies the operation to a transaction where that needs no
    /// rounding. Returns `false`, and changes nothing, where it does.
    pub fn try_add_to_transation(self, tx: &mut Transaction) -> (done: bool)
        requires
            old(tx).wf(),
            operation_wf(self@),
        ensures
            done == applied(old(tx)@.book, self@) is Some,
            done ==> Some(final(tx)@.book) == applied(old(tx)@.book, self@),
            !done ==> final(tx)@ == old(tx)@,
            final(tx).wf(),
            final(tx).date == old(tx).date,
            final(tx).description == old(tx).description,
    {
        let mut trial = tx.duplicate();
        let done = match self.duplicate() {
            Operation::AddSimpleChange(account, amount) => trial.try_add_change(account, amount),
            Operation::AddSplitChange(account, split_account, amount) => {
                trial.try_add_split_change(account, split_account, amount)
            },
            Operation::Finalize(account) => trial.try_finalize(account),
        };
        if done {
            self.add_to_transation(tx);
        }
        done
    }
}

/// Feeds the words of a command to a fresh parser and returns the
/// operation. The first word that is refused ends the parse with its
/// error; a line that ends early gives the kind of word still wanted.
pub fn parse_words<'a>(words: &Vec<&'a str>) -> (r: Result<Operation<'a>, CommandError>)
    ensures
        match command_of(texts_of(words@)) {
            Ok(v) => r matches Ok(op) && op@ == v && operation_wf(v),
            Err(e) => r == Err::<Operation<'a>, CommandError>(e),
        },
{
    let ghost all = texts_of(words@);
    let mut parser = Parser::new();
    let mut k: usize = 0;
    assert(all.skip(0) =~= all);
    while k < words.len()
        invariant
            k <= words.len(),
            all == texts_of(words@),
            parser.wf(),
            fed(fresh(), all) == fed(parser@, all.skip(k as int)),
        decreases words.len() - k,
    {
        assert(all.skip(k as int)[0] == words@[k as int]@);
        assert(all.skip(k as int).skip(1) =~= all.skip(k + 1));
        match parser.parse_word(words[k]) {
            Ok(()) => {},
            Err(e) => {
                return Err(CommandError::Refused(e));
            },
        }
        k = k + 1;
    }
    let wanted = parser.next;
    match parser.operation() {
        Some(op) => Ok(op),
        None => Err(CommandError::Incomplete(wanted)),
    }
}

/// Parses a command line into its operation.
pub fn parse_command<'a>(line: &'a str) -> (r: Result<Operation<'a>, CommandError>)
    ensures
        match command_of(words_of(line@)) {
            Ok(v) => r matches Ok(op) && op@ == v && operation_wf(v),
            Err(e) => r == Err::<Operation<'a>, CommandError>(e),
        },
{
    let words = split_words(line);
    parse_words(&words)
}

/// The kind of word that the command wants at the byte `word_start` of
/// the line. `None` where a word before it is refused.
pub fn expected_token(line: &str, word_start: usize) -> (r: Option<TokenType>)
    ensures
        r == expected_after(fresh(), words_of(line@), 0, word_start as int),
{
    let words = split_words(line);
    let ghost all = texts_of(words@);
    let mut parser = Parser::new();
    let mut parsed: usize = 0;
    let mut k: usize = 0;
    assert(all.skip(0) =~= all);
    while k < words.len()
        invariant
            k <= words.len(),
            all == texts_of(words@),
            all == words_of(line@),
            parser.wf(),
            parsed <= word_start,
            expected_after(fresh(), all, 0, word_start as int) == expected_after(
                parser@,
                all.skip(k as int),
                parsed as int,
                word_start as int,
            ),
        decreases words.len() - k,
    {
        assert(all.skip(k as int)[0] == words@[k as int]@);
        assert(all.skip(k as int).skip(1) =~= all.skip(k + 1));
        let reach = match parsed.checked_add(words[k].len()) {
            Some(sum) => match sum.checked_add(1) {
                Some(reach) => reach,
                None => {
                    return Some(parser.next);
                },
            },
            None => {
                return Some(parser.next);
            },
        };
        if reach > word_start {
            return Some(parser.next);
        }
        if parser.parse_word(words[k]).is_err() {
            return None;
        }
        parsed = reach;
        k = k + 1;
    }
    Some(parser.next)
}

/// The transaction that a header line opens.
pub open spec fn header_of(line: Seq<char>) -> Result<(Date, Seq<char>), HeaderError> {
    let words = words_of(line);
    if words.len() == 0 {
        Err(HeaderError::Missing)
    } else {
        match parsed_date(words[0]) {
            Some(date) => Ok((date, joined(words.skip(1)))),
            None => Err(HeaderError::InvalidDate),
        }
    }
}

/// Parses a header line: a date, then the description. The words of the
/// description are joined by single spaces.
pub fn parse_transaction_header(line: &str) -> (r: Result<Transaction, HeaderError>)
    ensures
        match header_of(line@) {
            Ok((date, description)) => r matches Ok(tx) && tx.wf() && tx.date == date
                && tx.description@ == description && tx@.book == Seq::<Bucket>::empty(),
            Err(e) => r matches Err(f) && f == e,
        },
{
    let fields = split_words(line);
    if fields.len() == 0 {
        return Err(HeaderError::Missing);
    }
    assert(texts_of(fields@)[0] == fields@[0]@);
    match Date::parse(fields[0]) {
        Some(date) => Ok(Transaction::new(date, join_words(&fields, 1))),
        None => Err(HeaderError::InvalidDate),
    }
}

} // verus!
