//! The parser: a cursor over the input and one function for each production
//! of the grammar.

use vstd::prelude::*;
use vstd::std_specs::iter::IteratorSpec;
use crate::error::{ErrorKind, Keyword, ParseError};
use crate::grammar::{
    agreement, decimal_value, elements_at, is_digit, is_numeric, is_well_formed, keyword_at,
    members_at, number_at, number_run, points, space_run, string_at, text_run, value_at,
    Outcome,
};
use crate::outcomes::{value_lies_in_input, value_read_is_well_formed};
use crate::node::{views_of, Node, ObjectMap, Value};

verus! {

/// A cursor over a text that is read once, from left to right, one character
/// of lookahead at a time.
pub struct Parser {
    input: Vec<char>,
    pos: usize,
}

/// Whether a production that returned `result` and left the cursor at
/// `resting` did what the grammar finds: on success the node stands for the
/// value found and the cursor rests behind it; on failure the error is the
/// one found and the cursor rests where it lies.
pub open spec fn delivers(result: Result<Node, ParseError>, resting: int, found: Outcome<Value>) -> bool {
    match found {
        Ok((value, end)) => result matches Ok(node) && node@ == value && resting == end,
        Err(failure) => result matches Err(error) && error@ == failure && resting
            == failure.position,
    }
}

impl Parser {
    #[verifier::type_invariant]
    spec fn cursor_in_input(&self) -> bool {
        self.pos <= self.input.len()
    }

    /// The whole text, read and unread.
    pub closed spec fn input(&self) -> Seq<char> {
        self.input@
    }

    /// How many characters have been read.
    pub closed spec fn position(&self) -> int {
        self.pos as int
    }

    /// A parser at the start of the characters that `json` yields.
    ///
    /// The source is read to its end here, so it has to be one that ends: it
    /// keeps the laws of an iterator and has a measure that falls with every
    /// character it yields.
    pub fn new<T: Iterator<Item = char>>(json: T) -> (parser: Parser)
        requires
            json.obeys_prophetic_iter_laws(),
            json.decrease() is Some,
        ensures
            parser.input() == json.remaining(),
            parser.position() == 0,
    {
        let mut source = json;
        let mut input: Vec<char> = Vec::new();
        loop
            invariant_except_break
                source.obeys_prophetic_iter_laws(),
                source.decrease() is Some,
                input@ + source.remaining() == json.remaining(),
            ensures
                input@ == json.remaining(),
            decreases source.decrease()->0,
        {
            match source.next() {
                Some(c) => {
                    input.push(c);
                },
                None => {
                    break ;
                },
            }
        }
        Parser { input, pos: 0 }
    }

    /// Reads one value at the cursor and leaves the cursor behind it. What
    /// follows the value is left unread, so a further call reads the next
    /// value. After a failure the cursor rests where the failure lies.
    ///
    /// A value inside a value is read by a call inside a call: the calls nest
    /// as deep as the text does.
    pub fn parse(&mut self) -> (result: Result<Node, ParseError>)
        ensures
            final(self).input() == old(self).input(),
            match value_at(old(self).input(), old(self).position()) {
                Ok((value, span)) => result matches Ok(node) && node@ == value
                    && final(self).position() == old(self).position() + span,
                Err(failure) => result matches Err(error) && error@ == failure
                    && final(self).position() == failure.position,
            },
            old(self).position() <= final(self).position() <= final(self).input().len(),
            result matches Ok(node) ==> is_well_formed(node@),
    {
        proof {
            use_type_invariant(&*self);
            value_lies_in_input(self.input@, self.pos as int);
            value_read_is_well_formed(self.input@, self.pos as int);
        }
        self.value()
    }

    /// Moves the cursor over spaces, newlines and tabs to the next character
    /// that is none of them, or to the end.
    fn skip_space(&mut self)
        ensures
            final(self).input() == old(self).input(),
            final(self).position() == old(self).position() + space_run(
                old(self).input(),
                old(self).position(),
            ),
    {
        proof {
            use_type_invariant(&*self);
        }
        let mut i = self.pos;
        while i < self.input.len() && (self.input[i] == ' ' || self.input[i] == '\n'
            || self.input[i] == '\t')
            invariant
                self.pos <= i <= self.input@.len(),
                i - self.pos + space_run(self.input@, i as int) == space_run(
                    self.input@,
                    self.pos as int,
                ),
            decreases self.input@.len() - i,
        {
            i = i + 1;
        }
        self.pos = i;
    }

    /// Whether the next character is `wanted`. At the end of the input it is not.
    fn peek_is(&self, wanted: char) -> (yes: bool)
        ensures
            yes == (self.position() < self.input().len() && self.input()[self.position()]
                == wanted),
    {
        proof {
            use_type_invariant(self);
        }
        self.pos < self.input.len() && self.input[self.pos] == wanted
    }

    /// Reads the next character if it is `wanted`, and says whether it did.
    fn eat(&mut self, wanted: char) -> (eaten: bool)
        ensures
            final(self).input() == old(self).input(),
            eaten == (old(self).position() < old(self).input().len() && old(self).input()[old(
                self,
            ).position()] == wanted),
            final(self).position() == old(self).position() + if eaten {
                1int
            } else {
                0int
            },
    {
        proof {
            use_type_invariant(&*self);
        }
        if self.pos < self.input.len() && self.input[self.pos] == wanted {
            self.pos = self.pos + 1;
            true
        } else {
            false
        }
    }

    /// Reads a value of any kind, after the separating characters before it.
    fn value(&mut self) -> (result: Result<Node, ParseError>)
        ensures
            final(self).input() == old(self).input(),
            match value_at(old(self).input(), old(self).position()) {
                Ok((value, span)) => result matches Ok(node) && node@ == value
                    && final(self).position() == old(self).position() + span,
                Err(failure) => result matches Err(error) && error@ == failure
                    && final(self).position() == failure.position,
            },
        decreases old(self).input().len() - old(self).position(), 1nat,
    {
        self.skip_space();
        proof {
            use_type_invariant(&*self);
        }
        if self.pos >= self.input.len() {
            return Err(ParseError { kind: ErrorKind::UnexpectedEndOfInput, position: self.pos });
        }
        let first = self.input[self.pos];
        if '0' <= first && first <= '9' {
            self.number()
        } else if first == '"' {
            match self.string() {
                Ok(text) => Ok(Node::StringLiteral(text)),
                Err(error) => Err(error),
            }
        } else if first == '{' {
            self.object()
        } else if first == '[' {
            self.array()
        } else if first == 'n' {
            self.null()
        } else if first == 't' {
            self.parse_true()
        } else if first == 'f' {
            self.parse_false()
        } else {
            Err(ParseError { kind: ErrorKind::UnexpectedCharacter, position: self.pos })
        }
    }

    /// Reads a number: the longest run of digits and points, taken as an
    /// integer where it is one that fits and as a decimal otherwise.
    fn number(&mut self) -> (result: Result<Node, ParseError>)
        requires
            old(self).position() < old(self).input().len(),
            is_digit(old(self).input()[old(self).position()]),
        ensures
            final(self).input() == old(self).input(),
            delivers(
                result,
                final(self).position(),
                number_at(old(self).input(), old(self).position()),
            ),
    {
        proof {
            use_type_invariant(&*self);
        }
        let start = self.pos;
        let mut text = String::new();
        let mut dots: usize = 0;
        let mut value: u64 = 0;
        let mut fits = true;
        let mut i = start;
        while i < self.input.len() && (self.input[i] == '.' || ('0' <= self.input[i]
            && self.input[i] <= '9'))
            invariant
                start <= i <= self.input@.len(),
                is_digit(self.input@[start as int]),
                text@ == self.input@.subrange(start as int, i as int),
                i - start + number_run(self.input@, i as int) == number_run(
                    self.input@,
                    start as int,
                ),
                forall|j: int| 0 <= j < text@.len() ==> is_numeric(#[trigger] text@[j]),
                dots == points(text@),
                i > start ==> dots < i - start,
                fits ==> value == decimal_value(text@) && value <= i32::MAX,
                fits ==> forall|j: int| 0 <= j < text@.len() ==> is_digit(#[trigger] text@[j]),
                !fits ==> decimal_value(text@) > i32::MAX || exists|j: int|
                    0 <= j < text@.len() && !is_digit(#[trigger] text@[j]),
            decreases self.input@.len() - i,
        {
            let c = self.input[i];
            proof {
                let longer = text@.push(c);
                assert(longer.drop_last() == text@);
                if !fits && decimal_value(text@) <= i32::MAX {
                    let j = choose|j: int| 0 <= j < text@.len() && !is_digit(#[trigger] text@[j]);
                    assert(!is_digit(longer[j]));
                }
                if c == '.' {
                    assert(!is_digit(longer[i - start]));
                }
            }
            if c == '.' {
                dots = dots + 1;
                fits = false;
            } else if fits {
                let digit = (c as u32 - '0' as u32) as u64;
                let next = value * 10 + digit;
                if next > i32::MAX as u64 {
                    fits = false;
                } else {
                    value = next;
                }
            }
            text.push(c);
            i = i + 1;
        }
        if fits {
            self.pos = i;
            Ok(Node::IntLiteral(value as i32))
        } else if dots <= 1 {
            self.pos = i;
            Ok(Node::FloatLiteral(text))
        } else {
            Err(ParseError { kind: ErrorKind::MalformedNumber, position: start })
        }
    }

    /// Reads a string, from its opening quote to its closing quote, and
    /// returns what stands between them.
    fn string(&mut self) -> (result: Result<String, ParseError>)
        requires
            old(self).position() < old(self).input().len(),
            old(self).input()[old(self).position()] == '"',
        ensures
            final(self).input() == old(self).input(),
            match string_at(old(self).input(), old(self).position()) {
                Ok((text, end)) => result matches Ok(read) && read@ == text
                    && final(self).position() == end,
                Err(failure) => result matches Err(error) && error@ == failure
                    && final(self).position() == failure.position,
            },
    {
        proof {
            use_type_invariant(&*self);
        }
        let start = self.pos;
        let mut text = String::new();
        let mut i = start + 1;
        while i < self.input.len() && self.input[i] != '"'
            invariant
                start < i <= self.input@.len(),
                text@ == self.input@.subrange(start + 1, i as int),
                i - (start + 1) + text_run(self.input@, i as int) == text_run(
                    self.input@,
                    start + 1,
                ),
            decreases self.input@.len() - i,
        {
            text.push(self.input[i]);
            i = i + 1;
        }
        if i < self.input.len() {
            self.pos = i + 1;
            Ok(text)
        } else {
            Err(ParseError { kind: ErrorKind::UnterminatedString, position: start })
        }
    }

    /// Reads an object, from its opening brace to its closing brace.
    fn object(&mut self) -> (result: Result<Node, ParseError>)
        requires
            old(self).position() < old(self).input().len(),
            old(self).input()[old(self).position()] == '{',
        ensures
            final(self).input() == old(self).input(),
            delivers(
                result,
                final(self).position(),
                members_at(old(self).input(), old(self).position() + 1, Map::empty()),
            ),
            result is Ok ==> final(self).position() > old(self).position(),
        decreases old(self).input().len() - old(self).position(), 0nat,
    {
        proof {
            use_type_invariant(&*self);
        }
        self.pos = self.pos + 1;
        let mut members = ObjectMap::new();
        loop
            invariant
                self.input@ == old(self).input@,
                old(self).pos < self.pos <= self.input@.len(),
                members_at(self.input@, self.pos as int, members@) == members_at(
                    old(self).input@,
                    old(self).pos + 1,
                    Map::empty(),
                ),
            decreases self.input@.len() - self.pos,
        {
            self.skip_space();
            if !self.peek_is('"') {
                if self.eat('}') {
                    return Ok(Node::Object(members));
                } else {
                    return Err(
                        ParseError { kind: ErrorKind::UnexpectedToken, position: self.pos },
                    );
                }
            }
            let key = match self.string() {
                Ok(text) => text,
                Err(error) => {
                    return Err(error);
                },
            };
            self.skip_space();
            if !self.eat(':') {
                return Err(ParseError { kind: ErrorKind::ExpectedColon, position: self.pos });
            }
            let value = match self.value() {
                Ok(node) => node,
                Err(error) => {
                    return Err(error);
                },
            };
            if !self.eat(',') {
                return Err(ParseError { kind: ErrorKind::ExpectedComma, position: self.pos });
            }
            members.insert(key, value);
        }
    }

    /// Reads an array, from its opening bracket to its closing bracket.
    fn array(&mut self) -> (result: Result<Node, ParseError>)
        requires
            old(self).position() < old(self).input().len(),
            old(self).input()[old(self).position()] == '[',
        ensures
            final(self).input() == old(self).input(),
            delivers(
                result,
                final(self).position(),
                elements_at(old(self).input(), old(self).position() + 1, Seq::empty()),
            ),
            result is Ok ==> final(self).position() > old(self).position(),
        decreases old(self).input().len() - old(self).position(), 0nat,
    {
        proof {
            use_type_invariant(&*self);
        }
        self.pos = self.pos + 1;
        let mut elements: Vec<Node> = Vec::new();
        assert(views_of(elements@) =~= Seq::<Value>::empty());
        loop
            invariant
                self.input@ == old(self).input@,
                old(self).pos < self.pos <= self.input@.len(),
                elements_at(self.input@, self.pos as int, views_of(elements@)) == elements_at(
                    old(self).input@,
                    old(self).pos + 1,
                    Seq::empty(),
                ),
            decreases self.input@.len() - self.pos,
        {
            self.skip_space();
            if self.eat(']') {
                return Ok(Node::Array(elements));
            }
            proof {
                use_type_invariant(&*self);
            }
            let value = match self.value() {
                Ok(node) => node,
                Err(error) => {
                    return Err(error);
                },
            };
            self.skip_space();
            if !self.eat(',') {
                return Err(ParseError { kind: ErrorKind::ExpectedComma, position: self.pos });
            }
            proof {
                assert(views_of(elements@.push(value)) =~= views_of(elements@).push(value@));
            }
            elements.push(value);
        }
    }

    /// Reads the keyword `null`.
    fn null(&mut self) -> (result: Result<Node, ParseError>)
        ensures
            final(self).input() == old(self).input(),
            delivers(
                result,
                final(self).position(),
                keyword_at(old(self).input(), old(self).position(), Keyword::Null),
            ),
    {
        proof {
            reveal_with_fuel(agreement, 5);
        }
        if self.eat('n') && self.eat('u') && self.eat('l') && self.eat('l') {
            Ok(Node::NullLiteral)
        } else {
            Err(ParseError { kind: ErrorKind::MalformedLiteral(Keyword::Null), position: self.pos })
        }
    }

    /// Reads the keyword `true`.
    fn parse_true(&mut self) -> (result: Result<Node, ParseError>)
        ensures
            final(self).input() == old(self).input(),
            delivers(
                result,
                final(self).position(),
                keyword_at(old(self).input(), old(self).position(), Keyword::True),
            ),
    {
        proof {
            reveal_with_fuel(agreement, 5);
        }
        if self.eat('t') && self.eat('r') && self.eat('u') && self.eat('e') {
            Ok(Node::BoolLiteral(true))
        } else {
            Err(ParseError { kind: ErrorKind::MalformedLiteral(Keyword::True), position: self.pos })
        }
    }

    /// Reads the keyword `false`.
    fn parse_false(&mut self) -> (result: Result<Node, ParseError>)
        ensures
            final(self).input() == old(self).input(),
            delivers(
                result,
                final(self).position(),
                keyword_at(old(self).input(), old(self).position(), Keyword::False),
            ),
    {
        proof {
            reveal_with_fuel(agreement, 6);
        }
        if self.eat('f') && self.eat('a') && self.eat('l') && self.eat('s') && self.eat('e') {
            Ok(Node::BoolLiteral(false))
        } else {
            Err(ParseError { kind: ErrorKind::MalformedLiteral(Keyword::False), position: self.pos })
        }
    }
}

} // verus!
