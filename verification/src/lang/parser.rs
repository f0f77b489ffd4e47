//! From source text to filters: the tokenizer, and the reduction of a list of
//! tokens and filters by the precedence groups of a context.

use crate::lang::code::Code;
use crate::lang::context::Context;
use crate::lang::context::ContextView;
use crate::lang::context::PrecedenceGroup;
use crate::lang::filter::Filter;
use crate::lang::filter::FilterView;
use vstd::prelude::*;

verus! {

/// A lexical unit of source text.
#[derive(Debug)]
pub enum Token {
    /// An unrecognized character
    Invalid(char),
    /// An opening parenthesis `(`
    OpenParen,
    /// A closing parenthesis `)`
    CloseParen,
    /// The sequential execution operator `;;`, and all following code
    AndThen(Code),
    /// A sequence of one or more whitespace characters
    Whitespace,
}

/// A token as plain data.
pub enum TokenView {
    Invalid(char),
    OpenParen,
    CloseParen,
    AndThen(Seq<char>),
    Whitespace,
}

impl View for Token {
    type V = TokenView;

    open spec fn view(&self) -> TokenView {
        match self {
            Token::Invalid(c) => TokenView::Invalid(*c),
            Token::OpenParen => TokenView::OpenParen,
            Token::CloseParen => TokenView::CloseParen,
            Token::AndThen(code) => TokenView::AndThen(code@),
            Token::Whitespace => TokenView::Whitespace,
        }
    }
}

/// A token or filter, used by the in-place parsing algorithm.
#[derive(Debug)]
pub enum Tf {
    Token(Token),
    Filter(Filter),
}

/// A token or filter as plain data.
pub enum TfView {
    Token(TokenView),
    Filter(FilterView),
}

impl View for Tf {
    type V = TfView;

    open spec fn view(&self) -> TfView {
        match self {
            Tf::Token(token) => TfView::Token(token@),
            Tf::Filter(filter) => TfView::Filter(filter@),
        }
    }
}

/// The views of a list of tokens and filters, one by one.
pub open spec fn tf_views(items: Seq<Tf>) -> Seq<TfView> {
    Seq::new(items.len(), |i: int| items[i]@)
}

/// Why source text could not be parsed.
#[derive(Debug)]
pub enum ParseError {
    /// The text holds a character that starts no token.
    InvalidToken(char),
    /// A parenthesis was closed by a token of another kind.
    MismatchedParens(Token, Tf),
    /// The context's policy refused this filter.
    NotAllowed(Filter),
    /// The reductions left something other than exactly one filter.
    NotFullyParsed(Vec<Tf>),
    /// A parenthesis, given here, has no partner.
    UnbalancedParen(Token),
}

/// A parse error as plain data.
pub enum ParseErrorView {
    InvalidToken(char),
    MismatchedParens(TokenView, TfView),
    NotAllowed(FilterView),
    NotFullyParsed(Seq<TfView>),
    UnbalancedParen(TokenView),
}

impl View for ParseError {
    type V = ParseErrorView;

    open spec fn view(&self) -> ParseErrorView {
        match self {
            ParseError::InvalidToken(c) => ParseErrorView::InvalidToken(*c),
            ParseError::MismatchedParens(token, item) => ParseErrorView::MismatchedParens(token@, item@),
            ParseError::NotAllowed(filter) => ParseErrorView::NotAllowed(filter@),
            ParseError::NotFullyParsed(items) => ParseErrorView::NotFullyParsed(tf_views(items@)),
            ParseError::UnbalancedParen(token) => ParseErrorView::UnbalancedParen(token@),
        }
    }
}

/// The outcome of a parse as plain data.
pub open spec fn outcome_view(outcome: Result<Filter, ParseError>) -> Result<FilterView, ParseErrorView> {
    match outcome {
        Ok(filter) => Ok(filter@),
        Err(error) => Err(error@),
    }
}

// ---------------------------------------------------------------------------
// What the tokenizer yields
// ---------------------------------------------------------------------------

/// Tab, line feed, carriage return and space.
pub open spec fn is_blank(c: char) -> bool {
    c == '\t' || c == '\n' || c == '\r' || c == ' '
}

/// The text from the first line feed on: what follows the body of a comment.
pub open spec fn after_comment(text: Seq<char>) -> Seq<char>
    decreases text.len(),
{
    if text.len() == 0 || text[0] == '\n' {
        text
    } else {
        after_comment(text.drop_first())
    }
}

/// The first token of `text` and the text that is left behind it, or `None` at
/// the end of the text. A blank character is a whitespace token, and so is a
/// `#` with everything up to the end of its line. `;;` takes all the text that
/// follows it along, untouched, and leaves nothing behind.
pub open spec fn next_token(text: Seq<char>) -> Option<(TokenView, Seq<char>)> {
    if text.len() == 0 {
        None
    } else {
        let c = text[0];
        let rest = text.drop_first();
        if is_blank(c) {
            Some((TokenView::Whitespace, rest))
        } else if c == '#' {
            Some((TokenView::Whitespace, after_comment(rest)))
        } else if c == '(' {
            Some((TokenView::OpenParen, rest))
        } else if c == ')' {
            Some((TokenView::CloseParen, rest))
        } else if c == ';' && rest.len() > 0 && rest[0] == ';' {
            Some((TokenView::AndThen(rest.drop_first()), Seq::empty()))
        } else {
            Some((TokenView::Invalid(c), rest))
        }
    }
}

/// The text behind a comment body is no longer than the text it was cut from.
pub proof fn lemma_after_comment_shorter(text: Seq<char>)
    ensures
        after_comment(text).len() <= text.len(),
    decreases text.len(),
{
    if !(text.len() == 0 || text[0] == '\n') {
        lemma_after_comment_shorter(text.drop_first());
    }
}

/// All the tokens of `text`, in order.
pub open spec fn tokens_of(text: Seq<char>) -> Seq<TokenView>
    decreases text.len(),
    via tokens_of_decreases
{
    match next_token(text) {
        None => Seq::empty(),
        Some((token, rest)) => seq![token] + tokens_of(rest),
    }
}

#[via_fn]
proof fn tokens_of_decreases(text: Seq<char>) {
    if text.len() > 0 {
        lemma_after_comment_shorter(text.drop_first());
    }
}

/// A list of tokens as a list for the reductions to work on.
pub open spec fn token_items(tokens: Seq<TokenView>) -> Seq<TfView> {
    Seq::new(tokens.len(), |i: int| TfView::Token(tokens[i]))
}

// ---------------------------------------------------------------------------
// The tokenizer
// ---------------------------------------------------------------------------

/// Yields the tokens of a piece of source text one by one. Its view is the text
/// that has not been turned into tokens yet.
pub struct Tokens {
    code: Code,
}

impl View for Tokens {
    type V = Seq<char>;

    closed spec fn view(&self) -> Seq<char> {
        self.code@
    }
}

impl Tokens {
    /// A tokenizer at the start of `code`.
    pub fn new(code: Code) -> (tokens: Tokens)
        ensures
            tokens@ == code@,
    {
        Tokens { code }
    }

    /// The next token, or `None` at the end of the text.
    pub fn next(&mut self) -> (token: Option<Token>)
        ensures
            match next_token(old(self)@) {
                None => token is None && final(self)@ == old(self)@,
                Some((expected, rest)) => {
                    &&& token matches Some(found)
                    &&& found@ == expected
                    &&& final(self)@ == rest
                    &&& rest.len() < old(self)@.len()
                },
            },
    {
        proof {
            if old(self)@.len() > 0 {
                lemma_after_comment_shorter(old(self)@.drop_first());
            }
        }
        match self.code.next() {
            None => None,
            Some(c) => {
                if c == '\t' || c == '\n' || c == '\r' || c == ' ' {
                    Some(Token::Whitespace)
                } else if c == '#' {
                    let ghost body = self.code@;
                    loop
                        invariant_except_break
                            self.code.peeked() == 0,
                        invariant
                            after_comment(self.code@) == after_comment(body),
                        ensures
                            self.code@ == after_comment(body),
                        decreases self.code@.len(),
                    {
                        match self.code.peek() {
                            None => {
                                break ;
                            },
                            Some(inside) => {
                                if inside == '\n' {
                                    break ;
                                }
                                self.code.next();
                            },
                        }
                    }
                    Some(Token::Whitespace)
                } else if c == '(' {
                    Some(Token::OpenParen)
                } else if c == ')' {
                    Some(Token::CloseParen)
                } else if c == ';' {
                    match self.code.peek() {
                        Some(second) => {
                            if second == ';' {
                                self.code.next();
                                let mut rest = Code::default();
                                std::mem::swap(&mut self.code, &mut rest);
                                Some(Token::AndThen(rest))
                            } else {
                                Some(Token::Invalid(';'))
                            }
                        },
                        None => Some(Token::Invalid(';')),
                    }
                } else {
                    Some(Token::Invalid(c))
                }
            },
        }
    }
}

/// All the tokens of `code`, as the list that the reductions start from.
pub fn tokenize(code: Code) -> (items: Vec<Tf>)
    ensures
        tf_views(items@) == token_items(tokens_of(code@)),
{
    let mut tokens = Tokens::new(code);
    let mut items: Vec<Tf> = Vec::new();
    loop
        invariant
            token_items(tokens_of(code@)) == tf_views(items@) + token_items(tokens_of(tokens@)),
        ensures
            token_items(tokens_of(code@)) == tf_views(items@),
        decreases tokens@.len(),
    {
        match tokens.next() {
            None => {
                break ;
            },
            Some(token) => {
                items.push(Tf::Token(token));
            },
        }
    }
    items
}

// ---------------------------------------------------------------------------
// What the reductions yield
// ---------------------------------------------------------------------------

/// `filter` if the context's policy permits it, else the error that carries it.
pub open spec fn checked(context: ContextView, filter: FilterView) -> Result<FilterView, ParseErrorView> {
    if (context.permits)(filter) {
        Ok(filter)
    } else {
        Err(ParseErrorView::NotAllowed(filter))
    }
}

/// The character of the first invalid token of the list, if it has one.
pub open spec fn first_invalid(items: Seq<TfView>) -> Option<char>
    decreases items.len(),
{
    if items.len() == 0 {
        None
    } else {
        match items[0] {
            TfView::Token(TokenView::Invalid(c)) => Some(c),
            _ => first_invalid(items.drop_first()),
        }
    }
}

/// Whether the item is a whitespace token.
pub open spec fn is_blank_item(item: TfView) -> bool {
    item == TfView::Token(TokenView::Whitespace)
}

/// The list without the whitespace tokens at its start.
pub open spec fn trim_front(items: Seq<TfView>) -> Seq<TfView>
    decreases items.len(),
{
    if items.len() > 0 && is_blank_item(items[0]) {
        trim_front(items.drop_first())
    } else {
        items
    }
}

/// The list without the whitespace tokens at its end.
pub open spec fn trim_back(items: Seq<TfView>) -> Seq<TfView>
    decreases items.len(),
{
    if items.len() > 0 && is_blank_item(items.last()) {
        trim_back(items.drop_last())
    } else {
        items
    }
}

/// The list without the whitespace tokens at either end.
pub open spec fn trim_blank(items: Seq<TfView>) -> Seq<TfView> {
    trim_back(trim_front(items))
}

/// The list with `item` behind it, or the error that stopped the reduction of
/// the list.
pub open spec fn followed_by(left: Result<Seq<TfView>, ParseErrorView>, item: TfView) -> Result<
    Seq<TfView>,
    ParseErrorView,
> {
    match left {
        Ok(items) => Ok(items.push(item)),
        Err(error) => Err(error),
    }
}

/// The sequencing filter for a `;;` with the text `code` whose left neighbour
/// is `neighbour`, checked against the policy: a filter to the left becomes the
/// left operand; anything else, or nothing, makes the left operand empty. An
/// empty left operand is itself checked first.
pub open spec fn sequencing(context: ContextView, neighbour: Option<TfView>, code: Seq<char>) -> Result<
    FilterView,
    ParseErrorView,
> {
    match neighbour {
        Some(TfView::Filter(lhs)) => checked(context, FilterView::and_then(lhs, code)),
        _ => match checked(context, FilterView::Empty) {
            Ok(lhs) => checked(context, FilterView::and_then(lhs, code)),
            Err(error) => Err(error),
        },
    }
}

/// The list after every `;;` token in it has taken the item to its left as its
/// left operand. The list is worked on from its right end.
pub open spec fn reduce_and_then(items: Seq<TfView>, context: ContextView) -> Result<Seq<TfView>, ParseErrorView>
    decreases items.len(), 1nat,
{
    if items.len() == 0 {
        Ok(Seq::empty())
    } else {
        match items.last() {
            TfView::Token(TokenView::AndThen(code)) => absorb_left(items.drop_last(), code, context),
            other => followed_by(reduce_and_then(items.drop_last(), context), other),
        }
    }
}

/// What becomes of `left`, the list to the left of a `;;` with the text `code`:
/// whitespace next to the operator is passed over, the item before it is taken
/// as the operand, and the rest of the list is reduced in its turn.
pub open spec fn absorb_left(left: Seq<TfView>, code: Seq<char>, context: ContextView) -> Result<
    Seq<TfView>,
    ParseErrorView,
>
    decreases left.len(), 0nat,
{
    if left.len() == 0 {
        match sequencing(context, None, code) {
            Ok(filter) => Ok(seq![TfView::Filter(filter)]),
            Err(error) => Err(error),
        }
    } else if is_blank_item(left.last()) {
        absorb_left(left.drop_last(), code, context)
    } else {
        match sequencing(context, Some(left.last()), code) {
            Ok(filter) => followed_by(reduce_and_then(left.drop_last(), context), TfView::Filter(filter)),
            Err(error) => Err(error),
        }
    }
}

/// The place in `items` of the opening parenthesis that closes a group whose
/// closing parenthesis stands just behind `items`, with `depth` further groups
/// open on the way; `None` if there is no such parenthesis.
pub open spec fn matching_open(items: Seq<TfView>, depth: nat) -> Option<int>
    decreases items.len(),
{
    if items.len() == 0 {
        None
    } else {
        match items.last() {
            TfView::Token(TokenView::CloseParen) => matching_open(items.drop_last(), depth + 1),
            TfView::Token(TokenView::OpenParen) => if depth == 0 {
                Some(items.len() - 1)
            } else {
                matching_open(items.drop_last(), (depth - 1) as nat)
            },
            _ => matching_open(items.drop_last(), depth),
        }
    }
}

/// The matching parenthesis lies within the list.
pub proof fn lemma_matching_open_in_range(items: Seq<TfView>, depth: nat)
    ensures
        matching_open(items, depth) matches Some(open) ==> 0 <= open < items.len() && items[open]
            == TfView::Token(TokenView::OpenParen),
    decreases items.len(),
{
    if items.len() > 0 {
        match items.last() {
            TfView::Token(TokenView::CloseParen) => lemma_matching_open_in_range(items.drop_last(), depth + 1),
            TfView::Token(TokenView::OpenParen) => if depth != 0 {
                lemma_matching_open_in_range(items.drop_last(), (depth - 1) as nat)
            },
            _ => lemma_matching_open_in_range(items.drop_last(), depth),
        }
    }
}

/// The filter that a list of tokens and filters reduces to under `context`.
///
/// A list with an invalid token fails with the character of the first one.
/// Whitespace at either end is dropped, and an empty list is the empty filter.
/// Otherwise the precedence groups of the context reduce the list one after
/// another, from the highest precedence down, and exactly one filter must be
/// left; if not, the error carries what is left. Every filter is checked
/// against the policy as it is built.
pub open spec fn parse_items(items: Seq<TfView>, context: ContextView) -> Result<FilterView, ParseErrorView>
    decreases items.len(), 2nat, 0nat,
    via parse_items_decreases
{
    match first_invalid(items) {
        Some(c) => Err(ParseErrorView::InvalidToken(c)),
        None => {
            let trimmed = trim_blank(items);
            if trimmed.len() == 0 {
                checked(context, FilterView::Empty)
            } else {
                match reduce_groups(trimmed, context.groups(), context) {
                    Err(error) => Err(error),
                    Ok(rest) => if rest.len() == 1 && rest[0] is Filter {
                        Ok(rest[0]->Filter_0)
                    } else {
                        Err(ParseErrorView::NotFullyParsed(rest))
                    },
                }
            }
        },
    }
}

/// The list after the precedence groups `groups` have reduced it one after
/// another, the first group first. No reduction lengthens the list
/// (`lemma_reduce_groups_step`), so the branch for a lengthened list is never
/// taken; it is there for the definition to be seen to end.
pub open spec fn reduce_groups(items: Seq<TfView>, groups: Seq<PrecedenceGroup>, context: ContextView) -> Result<
    Seq<TfView>,
    ParseErrorView,
>
    decreases items.len(), 1nat, groups.len(),
{
    if groups.len() == 0 {
        Ok(items)
    } else {
        let reduced = match groups[0] {
            PrecedenceGroup::AndThen => reduce_and_then(items, context),
            PrecedenceGroup::Circumfix => reduce_circumfix(items, context),
        };
        match reduced {
            Err(error) => Err(error),
            Ok(next) => if next.len() <= items.len() {
                reduce_groups(next, groups.drop_first(), context)
            } else {
                Err(ParseErrorView::NotFullyParsed(next))
            },
        }
    }
}

/// The list after every parenthesised group in it has become one group filter
/// around what its inside parses to. The list is worked on from its right end;
/// an opening parenthesis without a partner stops the reduction where it is
/// met, a closing one where the search for its partner ends.
pub open spec fn reduce_circumfix(items: Seq<TfView>, context: ContextView) -> Result<Seq<TfView>, ParseErrorView>
    decreases items.len(), 0nat, 0nat,
    via reduce_circumfix_decreases
{
    if items.len() == 0 {
        Ok(Seq::empty())
    } else {
        let before = items.drop_last();
        match items.last() {
            TfView::Token(TokenView::OpenParen) => Err(ParseErrorView::UnbalancedParen(TokenView::OpenParen)),
            TfView::Token(TokenView::CloseParen) => match matching_open(before, 0) {
                None => Err(ParseErrorView::UnbalancedParen(TokenView::CloseParen)),
                Some(open) => match parse_items(before.skip(open + 1), context) {
                    Err(error) => Err(error),
                    Ok(inner) => match checked(context, FilterView::group(inner)) {
                        Err(error) => Err(error),
                        Ok(group) => followed_by(
                            reduce_circumfix(before.take(open), context),
                            TfView::Filter(group),
                        ),
                    },
                },
            },
            other => followed_by(reduce_circumfix(before, context), other),
        }
    }
}

/// Trimming does not lengthen a list.
pub proof fn lemma_trim_shorter(items: Seq<TfView>)
    ensures
        trim_front(items).len() <= items.len(),
        trim_back(items).len() <= items.len(),
        trim_blank(items).len() <= items.len(),
    decreases items.len(),
{
    if items.len() > 0 && is_blank_item(items[0]) {
        lemma_trim_shorter(items.drop_first());
    }
    if items.len() > 0 && is_blank_item(items.last()) {
        lemma_trim_shorter(items.drop_last());
    }
    lemma_trim_back_shorter(trim_front(items));
}

proof fn lemma_trim_back_shorter(items: Seq<TfView>)
    ensures
        trim_back(items).len() <= items.len(),
    decreases items.len(),
{
    if items.len() > 0 && is_blank_item(items.last()) {
        lemma_trim_back_shorter(items.drop_last());
    }
}

#[via_fn]
proof fn parse_items_decreases(items: Seq<TfView>, context: ContextView) {
    lemma_trim_shorter(items);
}

#[via_fn]
proof fn reduce_circumfix_decreases(items: Seq<TfView>, context: ContextView) {
    if items.len() > 0 {
        lemma_matching_open_in_range(items.drop_last(), 0);
    }
}

/// The filter that `text` parses to under `context`.
pub open spec fn parse_text(text: Seq<char>, context: ContextView) -> Result<FilterView, ParseErrorView> {
    parse_items(token_items(tokens_of(text)), context)
}

// ---------------------------------------------------------------------------
// The parser
// ---------------------------------------------------------------------------

/// The outcome of a reduction as plain data.
pub open spec fn reduction_view(outcome: Result<Vec<Tf>, ParseError>) -> Result<Seq<TfView>, ParseErrorView> {
    match outcome {
        Ok(items) => Ok(tf_views(items@)),
        Err(error) => Err(error@),
    }
}

/// A reduced list with the finished items `done` behind it.
pub open spec fn with_done(left: Result<Seq<TfView>, ParseErrorView>, done: Seq<TfView>) -> Result<
    Seq<TfView>,
    ParseErrorView,
> {
    match left {
        Ok(items) => Ok(items + done),
        Err(error) => Err(error),
    }
}

/// The view of an item that may be missing.
pub open spec fn neighbour_view(neighbour: Option<Tf>) -> Option<TfView> {
    match neighbour {
        Some(item) => Some(item@),
        None => None,
    }
}

/// The list in the opposite order.
fn reversed(items: Vec<Tf>) -> (turned: Vec<Tf>)
    ensures
        turned@ == items@.reverse(),
        tf_views(turned@) == tf_views(items@).reverse(),
{
    let ghost whole = items@;
    let mut items = items;
    let mut turned: Vec<Tf> = Vec::new();
    while items.len() > 0
        invariant
            items@ == whole.take(items@.len() as int),
            items@.len() + turned@.len() == whole.len(),
            forall|i: int| 0 <= i < turned@.len() ==> #[trigger] turned@[i] == whole[whole.len() - 1 - i],
        decreases items@.len(),
    {
        let item = items.pop().unwrap();
        turned.push(item);
    }
    turned
}

/// Whether the item is a whitespace token.
fn is_whitespace(item: &Tf) -> (blank: bool)
    ensures
        blank == is_blank_item(item@),
{
    match item {
        Tf::Token(Token::Whitespace) => true,
        _ => false,
    }
}

/// Hands `filter` out if the policy of `context` permits it.
fn checked_filter<P: Fn(&Filter) -> bool + Copy>(context: &Context<P>, filter: Filter) -> (outcome: Result<
    Filter,
    ParseError,
>)
    requires
        context.well_formed(),
    ensures
        outcome_view(outcome) == checked(context@, filter@),
{
    if context.allows(&filter) {
        Ok(filter)
    } else {
        Err(ParseError::NotAllowed(filter))
    }
}

/// Builds the sequencing filter for a `;;` with the text `code` from the item
/// to its left.
fn sequencing_filter<P: Fn(&Filter) -> bool + Copy>(context: &Context<P>, neighbour: Option<Tf>, code: Code) -> (outcome:
    Result<Filter, ParseError>)
    requires
        context.well_formed(),
    ensures
        outcome_view(outcome) == sequencing(context@, neighbour_view(neighbour), code@),
{
    match neighbour {
        Some(Tf::Filter(lhs)) => checked_filter(context, Filter::and_then(lhs, code)),
        _ => match checked_filter(context, Filter::Empty) {
            Ok(lhs) => checked_filter(context, Filter::and_then(lhs, code)),
            Err(error) => Err(error),
        },
    }
}

/// Lets every `;;` token of the list take the item to its left as its operand.
fn reduce_and_then_items<P: Fn(&Filter) -> bool + Copy>(items: Vec<Tf>, context: &Context<P>) -> (outcome: Result<
    Vec<Tf>,
    ParseError,
>)
    requires
        context.well_formed(),
    ensures
        reduction_view(outcome) == reduce_and_then(tf_views(items@), context@),
        outcome matches Ok(next) ==> next@.len() <= items@.len(),
{
    let mut rest = items;
    let mut done: Vec<Tf> = Vec::new();
    loop
        invariant
            context.well_formed(),
            rest@.len() + done@.len() <= items@.len(),
            reduce_and_then(tf_views(items@), context@) == with_done(
                reduce_and_then(tf_views(rest@), context@),
                tf_views(done@).reverse(),
            ),
        ensures
            rest@.len() == 0,
            done@.len() <= items@.len(),
            reduce_and_then(tf_views(items@), context@) == with_done(
                reduce_and_then(tf_views(rest@), context@),
                tf_views(done@).reverse(),
            ),
        decreases rest@.len(),
    {
        let ghost before = tf_views(rest@);
        let ghost finished = tf_views(done@).reverse();
        match rest.pop() {
            None => {
                break ;
            },
            Some(Tf::Token(Token::AndThen(code))) => {
                let ghost left = tf_views(rest@);
                assert(left =~= before.drop_last());
                loop
                    invariant
                        absorb_left(tf_views(rest@), code@, context@) == absorb_left(left, code@, context@),
                        rest@.len() <= left.len(),
                    ensures
                        rest@.len() > 0 ==> !is_blank_item(tf_views(rest@).last()),
                    decreases rest@.len(),
                {
                    if rest.len() > 0 && is_whitespace(&rest[rest.len() - 1]) {
                        let ghost wider = tf_views(rest@);
                        rest.pop();
                        assert(tf_views(rest@) =~= wider.drop_last());
                    } else {
                        break ;
                    }
                }
                let ghost operand_side = tf_views(rest@);
                let neighbour = rest.pop();
                assert(tf_views(rest@) =~= if operand_side.len() > 0 {
                    operand_side.drop_last()
                } else {
                    operand_side
                });
                match sequencing_filter(context, neighbour, code) {
                    Err(error) => {
                        return Err(error);
                    },
                    Ok(filter) => {
                        let ghost built = TfView::Filter(filter@);
                        done.push(Tf::Filter(filter));
                        assert(tf_views(done@).reverse() =~= seq![built] + finished);
                        assert(forall|l: Seq<TfView>| (#[trigger] l.push(built)) + finished =~= l + (seq![built] + finished));
                    },
                }
            },
            Some(other) => {
                let ghost kept = other@;
                assert(tf_views(rest@) =~= before.drop_last());
                done.push(other);
                assert(tf_views(done@).reverse() =~= seq![kept] + finished);
                assert(forall|l: Seq<TfView>| (#[trigger] l.push(kept)) + finished =~= l + (seq![kept] + finished));
            },
        }
    }
    Ok(reversed(done))
}

/// Turns every parenthesised group of the list into one group filter.
fn reduce_circumfix_items<P: Fn(&Filter) -> bool + Copy>(items: Vec<Tf>, context: &Context<P>) -> (outcome: Result<
    Vec<Tf>,
    ParseError,
>)
    requires
        context.well_formed(),
    ensures
        reduction_view(outcome) == reduce_circumfix(tf_views(items@), context@),
        outcome matches Ok(next) ==> next@.len() <= items@.len(),
    decreases items@.len(), 0nat,
{
    let mut rest = items;
    let mut done: Vec<Tf> = Vec::new();
    loop
        invariant
            context.well_formed(),
            rest@.len() + done@.len() <= items@.len(),
            reduce_circumfix(tf_views(items@), context@) == with_done(
                reduce_circumfix(tf_views(rest@), context@),
                tf_views(done@).reverse(),
            ),
        ensures
            rest@.len() == 0,
            done@.len() <= items@.len(),
            reduce_circumfix(tf_views(items@), context@) == with_done(
                reduce_circumfix(tf_views(rest@), context@),
                tf_views(done@).reverse(),
            ),
        decreases rest@.len(),
    {
        let ghost whole = tf_views(rest@);
        let ghost finished = tf_views(done@).reverse();
        match rest.pop() {
            None => {
                break ;
            },
            Some(Tf::Token(Token::OpenParen)) => {
                return Err(ParseError::UnbalancedParen(Token::OpenParen));
            },
            Some(Tf::Token(Token::CloseParen)) => {
                let ghost before = tf_views(rest@);
                assert(before =~= whole.drop_last());
                let mut inside: Vec<Tf> = Vec::new();
                let mut depth: usize = 0;
                let mut found = false;
                assert(before.len() == rest.len());
                loop
                    invariant_except_break
                        !found,
                        matching_open(before, 0) == matching_open(tf_views(rest@), depth as nat),
                        rest@.len() + inside@.len() == before.len(),
                        tf_views(inside@).reverse() == before.skip(rest@.len() as int),
                    invariant
                        before.len() <= usize::MAX,
                        depth <= inside@.len(),
                        rest@.len() + inside@.len() <= before.len(),
                        tf_views(rest@) == before.take(rest@.len() as int),
                    ensures
                        found ==> {
                            &&& matching_open(before, 0) == Some(rest@.len() as int)
                            &&& rest@.len() + inside@.len() + 1 == before.len()
                            &&& tf_views(inside@).reverse() == before.skip(rest@.len() as int + 1)
                        },
                        !found ==> matching_open(before, 0) is None,
                    decreases rest@.len(),
                {
                    let ghost wider = tf_views(rest@);
                    match rest.pop() {
                        None => {
                            break ;
                        },
                        Some(popped) => {
                            let ghost item = popped@;
                            assert(tf_views(rest@) =~= wider.drop_last());
                            assert(before.skip(rest@.len() as int) =~= seq![item] + before.skip(
                                rest@.len() as int + 1,
                            ));
                            match popped {
                                Tf::Token(Token::OpenParen) => {
                                    if depth == 0 {
                                        found = true;
                                        break ;
                                    }
                                    depth -= 1;
                                    inside.push(Tf::Token(Token::OpenParen));
                                },
                                Tf::Token(Token::CloseParen) => {
                                    depth += 1;
                                    inside.push(Tf::Token(Token::CloseParen));
                                },
                                other => {
                                    inside.push(other);
                                },
                            }
                        },
                    }
                }
                if !found {
                    return Err(ParseError::UnbalancedParen(Token::CloseParen));
                }
                let inner = reversed(inside);
                match parse_inner(inner, context) {
                    Err(error) => {
                        return Err(error);
                    },
                    Ok(filter) => match checked_filter(context, Filter::group(filter)) {
                        Err(error) => {
                            return Err(error);
                        },
                        Ok(group) => {
                            let ghost built = TfView::Filter(group@);
                            done.push(Tf::Filter(group));
                            assert(tf_views(done@).reverse() =~= seq![built] + finished);
                            assert(forall|l: Seq<TfView>| (#[trigger] l.push(built)) + finished =~= l + (seq![built] + finished));
                        },
                    },
                }
            },
            Some(other) => {
                let ghost kept = other@;
                assert(tf_views(rest@) =~= whole.drop_last());
                done.push(other);
                assert(tf_views(done@).reverse() =~= seq![kept] + finished);
                assert(forall|l: Seq<TfView>| (#[trigger] l.push(kept)) + finished =~= l + (seq![kept] + finished));
            },
        }
    }
    Ok(reversed(done))
}

/// Reduces a list of tokens and filters to one filter.
fn parse_inner<P: Fn(&Filter) -> bool + Copy>(items: Vec<Tf>, context: &Context<P>) -> (outcome: Result<
    Filter,
    ParseError,
>)
    requires
        context.well_formed(),
    ensures
        outcome_view(outcome) == parse_items(tf_views(items@), context@),
    decreases items@.len(), 1nat,
{
    let ghost whole = tf_views(items@);
    let ghost groups = context@.groups();
    let mut list = items;
    // an invalid token anywhere fails the parse before anything is reduced
    let mut at: usize = 0;
    assert(whole.skip(0) =~= whole);
    while at < list.len()
        invariant
            at <= list@.len(),
            whole == tf_views(items@),
            tf_views(list@) == whole,
            first_invalid(whole) == first_invalid(whole.skip(at as int)),
        decreases list@.len() - at,
    {
        assert(whole.skip(at as int).drop_first() =~= whole.skip(at as int + 1));
        match &list[at] {
            Tf::Token(Token::Invalid(c)) => {
                return Err(ParseError::InvalidToken(*c));
            },
            _ => {},
        }
        at += 1;
    }
    // whitespace at either end means nothing
    while list.len() > 0 && is_whitespace(&list[0])
        invariant
            list@.len() <= items@.len(),
            trim_front(tf_views(list@)) == trim_front(whole),
        decreases list@.len(),
    {
        let ghost wider = tf_views(list@);
        list.remove(0);
        assert(tf_views(list@) =~= wider.drop_first());
    }
    while list.len() > 0 && is_whitespace(&list[list.len() - 1])
        invariant
            list@.len() <= items@.len(),
            trim_back(tf_views(list@)) == trim_blank(whole),
        decreases list@.len(),
    {
        let ghost wider = tf_views(list@);
        list.pop();
        assert(tf_views(list@) =~= wider.drop_last());
    }
    if list.len() == 0 {
        return checked_filter(context, Filter::Empty);
    }
    // the precedence groups reduce the list, the highest precedence first
    let ghost trimmed = tf_views(list@);
    let count = context.group_count();
    let mut place: usize = 0;
    assert(groups.skip(0) =~= groups);
    while place < count
        invariant
            context.well_formed(),
            groups == context@.groups(),
            count == groups.len(),
            place <= count,
            list@.len() <= items@.len(),
            whole == tf_views(items@),
            first_invalid(whole) is None,
            trimmed == trim_blank(whole),
            trimmed.len() > 0,
            reduce_groups(trimmed, groups, context@) == reduce_groups(
                tf_views(list@),
                groups.skip(place as int),
                context@,
            ),
        decreases count - place,
    {
        assert(groups.skip(place as int).drop_first() =~= groups.skip(place as int + 1));
        let reduced = match context.group_at(place) {
            PrecedenceGroup::AndThen => reduce_and_then_items(list, context),
            PrecedenceGroup::Circumfix => reduce_circumfix_items(list, context),
        };
        match reduced {
            Err(error) => {
                return Err(error);
            },
            Ok(next) => {
                list = next;
            },
        }
        place += 1;
    }
    let ghost left_over = tf_views(list@);
    if list.len() == 1 {
        match list.pop() {
            Some(Tf::Filter(filter)) => Ok(filter),
            Some(Tf::Token(token)) => {
                let mut single: Vec<Tf> = Vec::new();
                single.push(Tf::Token(token));
                assert(tf_views(single@) =~= left_over);
                Err(ParseError::NotFullyParsed(single))
            },
            None => Ok(Filter::Empty),
        }
    } else {
        Err(ParseError::NotFullyParsed(list))
    }
}

/// Converts source text into an executable filter: the text is cut into
/// tokens, and the tokens are reduced by the precedence groups of `context`.
pub fn parse<P: Fn(&Filter) -> bool + Copy>(code: Code, context: Context<P>) -> (outcome: Result<Filter, ParseError>)
    requires
        context.well_formed(),
    ensures
        outcome_view(outcome) == parse_text(code@, context@),
{
    parse_inner(tokenize(code), &context)
}

// ---------------------------------------------------------------------------
// What every parse result has
// ---------------------------------------------------------------------------

/// A bound on the source text that an item holds: one more than the length of
/// the text of a `;;` token, the bound of a filter, and zero for anything else.
pub open spec fn item_bound(item: TfView) -> nat {
    match item {
        TfView::Token(TokenView::AndThen(code)) => code.len() + 1,
        TfView::Filter(filter) => filter.code_bound(),
        _ => 0,
    }
}

/// The item holds no more source text than `bound`, and a filter is well
/// formed.
pub open spec fn item_within(item: TfView, bound: nat) -> bool {
    &&& item_bound(item) <= bound
    &&& item matches TfView::Filter(filter) ==> filter.well_formed()
}

/// Every item of the list is within `bound`.
pub open spec fn items_within(items: Seq<TfView>, bound: nat) -> bool {
    forall|i: int| 0 <= i < items.len() ==> item_within(#[trigger] items[i], bound)
}

/// The tokens of a text hold less source text than the text is long.
pub proof fn lemma_tokens_within(text: Seq<char>, bound: nat)
    requires
        text.len() <= bound,
    ensures
        items_within(token_items(tokens_of(text)), bound),
    decreases text.len(),
{
    match next_token(text) {
        None => {},
        Some((token, rest)) => {
            lemma_after_comment_shorter(text.drop_first());
            lemma_tokens_within(rest, bound);
            let items = token_items(tokens_of(text));
            let later = token_items(tokens_of(rest));
            assert forall|i: int| 0 <= i < items.len() implies item_within(#[trigger] items[i], bound) by {
                if i > 0 {
                    assert(items[i] == later[i - 1]);
                }
            }
        },
    }
}

/// Trimming keeps a list within its bound.
pub proof fn lemma_trim_within(items: Seq<TfView>, bound: nat)
    requires
        items_within(items, bound),
    ensures
        items_within(trim_front(items), bound),
        items_within(trim_back(items), bound),
        items_within(trim_blank(items), bound),
    decreases items.len(),
{
    if items.len() > 0 && is_blank_item(items[0]) {
        lemma_trim_within(items.drop_first(), bound);
    }
    if items.len() > 0 && is_blank_item(items.last()) {
        lemma_drop_last_within(items, bound);
        lemma_trim_within(items.drop_last(), bound);
    }
    lemma_trim_back_within(trim_front(items), bound);
}

proof fn lemma_trim_back_within(items: Seq<TfView>, bound: nat)
    requires
        items_within(items, bound),
    ensures
        items_within(trim_back(items), bound),
    decreases items.len(),
{
    if items.len() > 0 && is_blank_item(items.last()) {
        lemma_drop_last_within(items, bound);
        lemma_trim_back_within(items.drop_last(), bound);
    }
}

/// A list without its last item, or cut at either end, stays within its bound.
pub proof fn lemma_drop_last_within(items: Seq<TfView>, bound: nat)
    requires
        items_within(items, bound),
        items.len() > 0,
    ensures
        items_within(items.drop_last(), bound),
        item_within(items.last(), bound),
        forall|n: int| 0 <= n <= items.len() ==> items_within(#[trigger] items.take(n), bound),
        forall|n: int| 0 <= n <= items.len() ==> items_within(#[trigger] items.skip(n), bound),
{
    assert forall|n: int| 0 <= n <= items.len() implies items_within(#[trigger] items.take(n), bound) by {}
    assert forall|n: int| 0 <= n <= items.len() implies items_within(#[trigger] items.skip(n), bound) by {}
}

/// A list with one more item within the bound stays within it.
pub proof fn lemma_followed_by_within(left: Result<Seq<TfView>, ParseErrorView>, item: TfView, bound: nat)
    requires
        left matches Ok(items) ==> items_within(items, bound),
        item_within(item, bound),
    ensures
        followed_by(left, item) matches Ok(items) ==> items_within(items, bound),
{
    match left {
        Ok(items) => {
            let longer = items.push(item);
            assert forall|i: int| 0 <= i < longer.len() implies item_within(#[trigger] longer[i], bound) by {}
        },
        Err(_) => {},
    }
}

/// The reduction of `;;` keeps a list within its bound and does not lengthen
/// it.
pub proof fn lemma_reduce_and_then_within(items: Seq<TfView>, context: ContextView, bound: nat)
    requires
        items_within(items, bound),
    ensures
        reduce_and_then(items, context) matches Ok(next) ==> items_within(next, bound) && next.len() <= items.len(),
    decreases items.len(), 1nat,
{
    if items.len() > 0 {
        lemma_drop_last_within(items, bound);
        match items.last() {
            TfView::Token(TokenView::AndThen(code)) => {
                lemma_absorb_left_within(items.drop_last(), code, context, bound);
            },
            other => {
                lemma_reduce_and_then_within(items.drop_last(), context, bound);
                lemma_followed_by_within(reduce_and_then(items.drop_last(), context), other, bound);
            },
        }
    }
}

/// A sequencing filter is within the bound that its text and its left operand
/// are within.
pub proof fn lemma_sequencing_within(context: ContextView, neighbour: Option<TfView>, code: Seq<char>, bound: nat)
    requires
        neighbour matches Some(item) ==> item_within(item, bound),
        code.len() + 1 <= bound,
    ensures
        sequencing(context, neighbour, code) matches Ok(filter) ==> item_within(TfView::Filter(filter), bound),
{
    match sequencing(context, neighbour, code) {
        Ok(filter) => {
            let lhs = match neighbour {
                Some(TfView::Filter(lhs)) => lhs,
                _ => FilterView::Empty,
            };
            assert(lhs.well_formed() && lhs.code_bound() <= bound);
        },
        Err(_) => {},
    }
}

/// Taking a left operand keeps a list within its bound and leaves it no longer
/// than it was with the operator.
pub proof fn lemma_absorb_left_within(left: Seq<TfView>, code: Seq<char>, context: ContextView, bound: nat)
    requires
        items_within(left, bound),
        code.len() + 1 <= bound,
    ensures
        absorb_left(left, code, context) matches Ok(next) ==> items_within(next, bound) && next.len() <= left.len()
            + 1,
    decreases left.len(), 0nat,
{
    if left.len() == 0 {
        lemma_sequencing_within(context, None, code, bound);
    } else {
        lemma_drop_last_within(left, bound);
        if is_blank_item(left.last()) {
            lemma_absorb_left_within(left.drop_last(), code, context, bound);
        } else {
            lemma_sequencing_within(context, Some(left.last()), code, bound);
            match sequencing(context, Some(left.last()), code) {
                Ok(filter) => {
                    lemma_reduce_and_then_within(left.drop_last(), context, bound);
                    lemma_followed_by_within(
                        reduce_and_then(left.drop_last(), context),
                        TfView::Filter(filter),
                        bound,
                    );
                },
                Err(_) => {},
            }
        }
    }
}

/// A parse result is well formed and holds no more source text than the items
/// it was made from.
pub proof fn lemma_parse_items_within(items: Seq<TfView>, context: ContextView, bound: nat)
    requires
        items_within(items, bound),
    ensures
        parse_items(items, context) matches Ok(filter) ==> filter.well_formed() && filter.code_bound() <= bound,
    decreases items.len(), 2nat, 0nat,
{
    lemma_trim_shorter(items);
    lemma_trim_within(items, bound);
    let trimmed = trim_blank(items);
    if first_invalid(items) is None && trimmed.len() > 0 {
        lemma_reduce_groups_within(trimmed, context.groups(), context, bound);
    }
}

/// The reductions keep a list within its bound and do not lengthen it.
pub proof fn lemma_reduce_groups_within(
    items: Seq<TfView>,
    groups: Seq<PrecedenceGroup>,
    context: ContextView,
    bound: nat,
)
    requires
        items_within(items, bound),
    ensures
        reduce_groups(items, groups, context) matches Ok(next) ==> items_within(next, bound) && next.len()
            <= items.len(),
    decreases items.len(), 1nat, groups.len(),
{
    if groups.len() > 0 {
        match groups[0] {
            PrecedenceGroup::AndThen => {
                lemma_reduce_and_then_within(items, context, bound);
            },
            PrecedenceGroup::Circumfix => {
                lemma_reduce_circumfix_within(items, context, bound);
            },
        }
        let reduced = match groups[0] {
            PrecedenceGroup::AndThen => reduce_and_then(items, context),
            PrecedenceGroup::Circumfix => reduce_circumfix(items, context),
        };
        match reduced {
            Ok(next) => {
                lemma_reduce_groups_within(next, groups.drop_first(), context, bound);
            },
            Err(_) => {},
        }
    }
}

/// The reduction of parentheses keeps a list within its bound and does not
/// lengthen it.
pub proof fn lemma_reduce_circumfix_within(items: Seq<TfView>, context: ContextView, bound: nat)
    requires
        items_within(items, bound),
    ensures
        reduce_circumfix(items, context) matches Ok(next) ==> items_within(next, bound) && next.len() <= items.len(),
    decreases items.len(), 0nat, 0nat,
{
    if items.len() > 0 {
        let before = items.drop_last();
        lemma_drop_last_within(items, bound);
        match items.last() {
            TfView::Token(TokenView::OpenParen) => {},
            TfView::Token(TokenView::CloseParen) => {
                lemma_matching_open_in_range(before, 0);
                match matching_open(before, 0) {
                    None => {},
                    Some(open) => {
                        lemma_drop_last_within(before, bound);
                        lemma_parse_items_within(before.skip(open + 1), context, bound);
                        lemma_reduce_circumfix_within(before.take(open), context, bound);
                        match parse_items(before.skip(open + 1), context) {
                            Ok(inner) => {
                                match checked(context, FilterView::group(inner)) {
                                    Ok(group) => {
                                        lemma_followed_by_within(
                                            reduce_circumfix(before.take(open), context),
                                            TfView::Filter(group),
                                            bound,
                                        );
                                    },
                                    Err(_) => {},
                                }
                            },
                            Err(_) => {},
                        }
                    },
                }
            },
            other => {
                lemma_reduce_circumfix_within(before, context, bound);
                lemma_followed_by_within(reduce_circumfix(before, context), other, bound);
            },
        }
    }
}

/// The filter that a text parses to is well formed, and every text that one of
/// its sequencing nodes keeps is shorter than the text itself.
pub proof fn lemma_parse_text_within(text: Seq<char>, context: ContextView)
    ensures
        parse_text(text, context) matches Ok(filter) ==> filter.well_formed() && filter.code_bound() <= text.len(),
{
    lemma_tokens_within(text, text.len());
    lemma_parse_items_within(token_items(tokens_of(text)), context, text.len());
}

// ---------------------------------------------------------------------------
// No reduction lengthens a list
// ---------------------------------------------------------------------------

/// The reduction of `;;` leaves a list no longer than it was.
pub proof fn lemma_reduce_and_then_shortens(items: Seq<TfView>, context: ContextView)
    ensures
        reduce_and_then(items, context) matches Ok(next) ==> next.len() <= items.len(),
    decreases items.len(), 1nat,
{
    if items.len() > 0 {
        match items.last() {
            TfView::Token(TokenView::AndThen(code)) => {
                lemma_absorb_left_shortens(items.drop_last(), code, context);
            },
            _ => {
                lemma_reduce_and_then_shortens(items.drop_last(), context);
            },
        }
    }
}

/// Taking a left operand leaves a list no longer than it was with the
/// operator.
pub proof fn lemma_absorb_left_shortens(left: Seq<TfView>, code: Seq<char>, context: ContextView)
    ensures
        absorb_left(left, code, context) matches Ok(next) ==> next.len() <= left.len() + 1,
    decreases left.len(), 0nat,
{
    if left.len() > 0 {
        if is_blank_item(left.last()) {
            lemma_absorb_left_shortens(left.drop_last(), code, context);
        } else {
            lemma_reduce_and_then_shortens(left.drop_last(), context);
        }
    }
}

/// The reduction of parentheses leaves a list no longer than it was.
pub proof fn lemma_reduce_circumfix_shortens(items: Seq<TfView>, context: ContextView)
    ensures
        reduce_circumfix(items, context) matches Ok(next) ==> next.len() <= items.len(),
    decreases items.len(),
{
    if items.len() > 0 {
        let before = items.drop_last();
        match items.last() {
            TfView::Token(TokenView::OpenParen) => {},
            TfView::Token(TokenView::CloseParen) => {
                lemma_matching_open_in_range(before, 0);
                match matching_open(before, 0) {
                    Some(open) => {
                        lemma_reduce_circumfix_shortens(before.take(open), context);
                    },
                    None => {},
                }
            },
            _ => {
                lemma_reduce_circumfix_shortens(before, context);
            },
        }
    }
}

/// The reductions of a list by the precedence groups never meet a lengthened
/// list: each step of `reduce_groups` goes on with the list that the group
/// before it left.
pub proof fn lemma_reduce_groups_step(items: Seq<TfView>, groups: Seq<PrecedenceGroup>, context: ContextView)
    requires
        groups.len() > 0,
    ensures
        reduce_groups(items, groups, context) == match (match groups[0] {
            PrecedenceGroup::AndThen => reduce_and_then(items, context),
            PrecedenceGroup::Circumfix => reduce_circumfix(items, context),
        }) {
            Ok(next) => reduce_groups(next, groups.drop_first(), context),
            Err(error) => Err(error),
        },
{
    lemma_reduce_and_then_shortens(items, context);
    lemma_reduce_circumfix_shortens(items, context);
}

} // verus!
