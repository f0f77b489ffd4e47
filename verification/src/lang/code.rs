//! Source text as a cursor that can look ahead without consuming.

use itertools::MultiPeek;
use std::vec::IntoIter;
use vstd::prelude::*;

verus! {

/// `itertools::MultiPeek`: an iterator that can show the items to come, any
/// number of them, before it yields them. Nothing of its inside is used here.
#[verifier::external_type_specification]
#[verifier::external_body]
#[verifier::reject_recursive_types(I)]
pub struct ExMultiPeek<I: Iterator>(MultiPeek<I>);

/// The characters that a cursor has yet to yield, in order.
pub uninterp spec fn pending(cursor: MultiPeek<IntoIter<char>>) -> Seq<char>;

/// How many of the pending characters the cursor has already shown by peeking
/// since the last character was taken.
pub uninterp spec fn lookahead(cursor: MultiPeek<IntoIter<char>>) -> nat;

/// `itertools::multipeek` over the characters of a vector: the new cursor yields
/// exactly those characters and has not looked ahead yet.
#[verifier::external_body]
fn cursor_over(chars: Vec<char>) -> (cursor: MultiPeek<IntoIter<char>>)
    ensures
        pending(cursor) == chars@,
        lookahead(cursor) == 0,
{
    itertools::multipeek(chars)
}

/// `MultiPeek::peek`: shows the pending character just behind those already
/// shown and moves the look-ahead one further; at the end of the text it shows
/// nothing and the look-ahead stays. Nothing is consumed.
#[verifier::external_body]
fn cursor_peek(cursor: &mut MultiPeek<IntoIter<char>>) -> (c: Option<char>)
    ensures
        pending(*final(cursor)) == pending(*old(cursor)),
        lookahead(*old(cursor)) < pending(*old(cursor)).len() ==> {
            &&& c == Some(pending(*old(cursor))[lookahead(*old(cursor)) as int])
            &&& lookahead(*final(cursor)) == lookahead(*old(cursor)) + 1
        },
        lookahead(*old(cursor)) >= pending(*old(cursor)).len() ==> {
            &&& c.is_none()
            &&& lookahead(*final(cursor)) == lookahead(*old(cursor))
        },
{
    cursor.peek().copied()
}

/// `MultiPeek::next`: takes the first pending character, if there is one, and
/// resets the look-ahead.
#[verifier::external_body]
fn cursor_next(cursor: &mut MultiPeek<IntoIter<char>>) -> (c: Option<char>)
    ensures
        lookahead(*final(cursor)) == 0,
        pending(*old(cursor)).len() > 0 ==> {
            &&& c == Some(pending(*old(cursor))[0])
            &&& pending(*final(cursor)) == pending(*old(cursor)).drop_first()
        },
        pending(*old(cursor)).len() == 0 ==> {
            &&& c.is_none()
            &&& pending(*final(cursor)) == pending(*old(cursor))
        },
{
    cursor.next()
}

/// `MultiPeek::clone`: the copy has the same pending characters and the same
/// look-ahead.
#[verifier::external_body]
fn cursor_clone(cursor: &MultiPeek<IntoIter<char>>) -> (copy: MultiPeek<IntoIter<char>>)
    ensures
        pending(copy) == pending(*cursor),
        lookahead(copy) == lookahead(*cursor),
{
    cursor.clone()
}

/// A handle on source text that yields its characters one by one and can look
/// ahead over them. Its view is the text that is still to be read.
#[derive(Debug)]
pub struct Code {
    cursor: MultiPeek<IntoIter<char>>,
}

impl View for Code {
    type V = Seq<char>;

    closed spec fn view(&self) -> Seq<char> {
        pending(self.cursor)
    }
}

impl Code {
    /// How far `peek` has looked past the next character to be read.
    pub closed spec fn peeked(&self) -> nat {
        lookahead(self.cursor)
    }

    /// A cursor at the start of `chars`.
    pub fn new(chars: Vec<char>) -> (code: Code)
        ensures
            code@ == chars@,
            code.peeked() == 0,
    {
        Code { cursor: cursor_over(chars) }
    }

    /// A cursor at the start of the text of `source`.
    pub fn from_text(source: &str) -> (code: Code)
        ensures
            code@ == source@,
            code.peeked() == 0,
    {
        let n: usize = source.unicode_len();
        let mut chars: Vec<char> = Vec::new();
        let mut i: usize = 0;
        while i < n
            invariant
                n == source@.len(),
                i <= n,
                chars@ == source@.take(i as int),
            decreases n - i,
        {
            chars.push(source.get_char(i));
            i += 1;
        }
        Code::new(chars)
    }

    /// Looks at the next character that has not been looked at yet, without
    /// consuming anything. Each call looks one character further, until `next`
    /// is called.
    pub fn peek(&mut self) -> (c: Option<char>)
        ensures
            final(self)@ == old(self)@,
            old(self).peeked() < old(self)@.len() ==> {
                &&& c == Some(old(self)@[old(self).peeked() as int])
                &&& final(self).peeked() == old(self).peeked() + 1
            },
            old(self).peeked() >= old(self)@.len() ==> {
                &&& c.is_none()
                &&& final(self).peeked() == old(self).peeked()
            },
    {
        cursor_peek(&mut self.cursor)
    }

    /// Consumes and returns the next character, and forgets how far `peek` had
    /// looked.
    pub fn next(&mut self) -> (c: Option<char>)
        ensures
            final(self).peeked() == 0,
            old(self)@.len() > 0 ==> c == Some(old(self)@[0]) && final(self)@ == old(self)@.drop_first(),
            old(self)@.len() == 0 ==> c.is_none() && final(self)@ == old(self)@,
    {
        cursor_next(&mut self.cursor)
    }

    /// The text that is still to be read, as a vector. The cursor stays where
    /// it is.
    pub fn remaining(&self) -> (chars: Vec<char>)
        ensures
            chars@ == self@,
    {
        let mut rest = cursor_clone(&self.cursor);
        let mut chars: Vec<char> = Vec::new();
        loop
            invariant
                chars@ + pending(rest) == self@,
            ensures
                chars@ == self@,
            decreases pending(rest).len(),
        {
            match cursor_next(&mut rest) {
                Some(c) => {
                    chars.push(c);
                },
                None => {
                    break;
                },
            }
        }
        chars
    }
}

impl Clone for Code {
    /// A cursor of its own over the text that is still to be read, which has
    /// not looked ahead yet.
    fn clone(&self) -> (copy: Code)
        ensures
            copy@ == self@,
            copy.peeked() == 0,
    {
        Code::new(self.remaining())
    }
}

impl Default for Code {
    /// A cursor over no text.
    fn default() -> (code: Code)
        ensures
            code@ == Seq::<char>::empty(),
            code.peeked() == 0,
    {
        Code::new(Vec::new())
    }
}

} // verus!
