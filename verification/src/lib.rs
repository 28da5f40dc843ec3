//! A streaming lexer for the Brainfuck language.
//!
//! The lexer consumes raw source bytes and produces the sequence of
//! significant-character tokens, discarding every byte that is not one of
//! the eight language symbols while tracking a 1-based line/column position
//! for diagnostics. It supports one-token lookahead through `peek`.
//!
//! Position convention: each token is stamped with the position of the byte
//! it was read from, so the first byte of the source is at line 1, column 1.
//! A skipped byte at end of input does not advance the position.

use vstd::prelude::*;

verus! {

/// Mathematical model of a source position: 1-based line and column.
pub ghost struct LocationModel {
    pub line: int,
    pub column: int,
}

/// Mathematical model of a token: a recognized character together with the
/// position of the byte it was read from.
pub ghost struct TokenModel {
    pub character: char,
    pub location: LocationModel,
}

/// The eight characters that are significant to the language; every other
/// character is skipped by the lexer.
pub open spec fn is_language_char(c: char) -> bool {
    c == '>' || c == '<' || c == '+' || c == '-' || c == '.' || c == ',' || c == '[' || c == ']'
}

/// The position of the byte that follows a byte read at `loc`: a newline
/// starts the next line at column one; any other byte moves one column right.
pub open spec fn advanced_location(loc: LocationModel, byte: u8) -> LocationModel {
    if byte == 10u8 {
        LocationModel { line: loc.line + 1, column: 1 }
    } else {
        LocationModel { line: loc.line, column: loc.column + 1 }
    }
}

/// The tokens that lexing `bytes` emits when the first byte of `bytes` sits
/// at position `loc`: the in-language bytes in order, each stamped with the
/// position of its byte.
pub open spec fn tokens_of(bytes: Seq<u8>, loc: LocationModel) -> Seq<TokenModel>
    decreases bytes.len(),
{
    if bytes.len() == 0 {
        Seq::empty()
    } else {
        let rest = tokens_of(bytes.drop_first(), advanced_location(loc, bytes[0]));
        if is_language_char(bytes[0] as char) {
            seq![TokenModel { character: bytes[0] as char, location: loc }] + rest
        } else {
            rest
        }
    }
}

/// The in-language characters of `bytes`, in order, with every other byte
/// elided.
pub open spec fn language_chars(bytes: Seq<u8>) -> Seq<char>
    decreases bytes.len(),
{
    if bytes.len() == 0 {
        Seq::empty()
    } else if is_language_char(bytes[0] as char) {
        seq![bytes[0] as char] + language_chars(bytes.drop_first())
    } else {
        language_chars(bytes.drop_first())
    }
}

/// A source with no in-language byte produces no tokens, whatever the
/// starting position: the first call to `next` reports end of input.
pub proof fn lemma_no_language_bytes_no_tokens(bytes: Seq<u8>, loc: LocationModel)
    requires
        forall|i: int| 0 <= i < bytes.len() ==> !is_language_char(#[trigger] bytes[i] as char),
    ensures
        tokens_of(bytes, loc).len() == 0,
    decreases bytes.len(),
{
    if bytes.len() > 0 {
        assert(!is_language_char(bytes[0] as char));
        assert(forall|i: int|
            0 <= i < bytes.drop_first().len() ==> !is_language_char(
                #[trigger] bytes.drop_first()[i] as char,
            )) by {
            assert(forall|i: int|
                0 <= i < bytes.drop_first().len() ==> bytes.drop_first()[i] == bytes[i + 1]);
        }
        lemma_no_language_bytes_no_tokens(bytes.drop_first(), advanced_location(loc, bytes[0]));
    }
}

/// The characters of the emitted tokens are exactly the in-language
/// characters of the source, in their original order.
pub proof fn lemma_tokens_carry_language_chars(bytes: Seq<u8>, loc: LocationModel)
    ensures
        tokens_of(bytes, loc).map_values(|t: TokenModel| t.character) == language_chars(bytes),
    decreases bytes.len(),
{
    if bytes.len() == 0 {
        assert(tokens_of(bytes, loc).map_values(|t: TokenModel| t.character) =~= language_chars(
            bytes,
        ));
    } else {
        let rest = bytes.drop_first();
        lemma_tokens_carry_language_chars(rest, advanced_location(loc, bytes[0]));
        assert(tokens_of(bytes, loc).map_values(|t: TokenModel| t.character) =~= language_chars(
            bytes,
        ));
    }
}

/// A 1-based line/column coordinate of a byte in the source.
#[derive(Debug, Clone, Copy, PartialEq, Eq, Structural)]
pub struct Location {
    pub line: usize,
    pub column: usize,
}

impl View for Location {
    type V = LocationModel;

    open spec fn view(&self) -> LocationModel {
        LocationModel { line: self.line as int, column: self.column as int }
    }
}

impl Default for Location {
    /// The position of the first byte of a source: line 1, column 1.
    fn default() -> (r: Self)
        ensures
            r.line == 1,
            r.column == 1,
    {
        Self { line: 1, column: 1 }
    }
}

impl Location {
    /// The position of the byte that follows a byte at `self`: consuming a
    /// newline moves to the next line at column one; consuming any other
    /// byte advances the column by one and leaves the line unchanged.
    pub fn advanced(self, byte: u8) -> (r: Self)
        requires
            self.line < usize::MAX,
            self.column < usize::MAX,
        ensures
            r@ == advanced_location(self@, byte),
            byte == 10 ==> r.line == self.line + 1 && r.column == 1,
            byte != 10 ==> r.line == self.line && r.column == self.column + 1,
    {
        if byte == 10u8 {
            Self { line: self.line + 1, column: 1 }
        } else {
            Self { line: self.line, column: self.column + 1 }
        }
    }
}

/// A recognized single-character lexical unit plus its source position.
#[derive(Debug, Clone, Copy, PartialEq, Eq, Structural)]
pub struct Token {
    pub character: char,
    pub location: Location,
}

impl View for Token {
    type V = TokenModel;

    open spec fn view(&self) -> TokenModel {
        TokenModel { character: self.character, location: self.location@ }
    }
}

/// A single-pass scanner over a byte source with one-token lookahead.
///
/// Its view is the sequence of tokens still to be returned: the buffered
/// lookahead token, if one is present, followed by the tokens of the bytes
/// not yet consumed.
pub struct Lexer {
    source: Vec<u8>,
    position: usize,
    location: Location,
    peeked_token: Option<Token>,
}

impl View for Lexer {
    type V = Seq<TokenModel>;

    closed spec fn view(&self) -> Seq<TokenModel> {
        let scanned = tokens_of(
            self.source@.skip(self.position as int),
            self.location@,
        );
        match self.peeked_token {
            Some(t) => seq![t@] + scanned,
            None => scanned,
        }
    }
}

impl Lexer {
    /// The lexer's position bookkeeping stays in bounds: the cursor never
    /// passes the end of the source, and line and column stay positive and
    /// small enough that advancing them cannot overflow.
    pub closed spec fn wf(&self) -> bool {
        &&& self.position <= self.source@.len()
        &&& self.source@.len() < usize::MAX
        &&& 1 <= self.location@.line
        &&& 1 <= self.location@.column
        &&& self.location@.line + self.location@.column <= self.position + 2
    }

    /// Whether a token is buffered as lookahead; at most one ever is.
    pub closed spec fn has_lookahead(&self) -> bool {
        self.peeked_token is Some
    }

    /// A lexer over `source`, positioned at line 1, column 1, with no
    /// lookahead buffered: its token stream is the tokens of `source`.
    pub fn new(source: Vec<u8>) -> (lexer: Self)
        requires
            source@.len() < usize::MAX,
        ensures
            lexer.wf(),
            !lexer.has_lookahead(),
            lexer@ == tokens_of(source@, LocationModel { line: 1, column: 1 }),
    {
        proof {
            assert(source@.skip(0) =~= source@);
        }
        Self { source, position: 0, location: Location::default(), peeked_token: None }
    }

    /// Whether a character is significant to the language; every other
    /// character is skipped.
    pub fn in_language(candidate: char) -> (r: bool)
        ensures
            r == is_language_char(candidate),
    {
        match candidate {
            '>' | '<' | '+' | '-' | '.' | ',' | '[' | ']' => true,
            _ => false,
        }
    }

    /// The next significant token, or `None` once the source is exhausted.
    /// Consumes the lookahead buffer first if one is present. Once the
    /// token stream is empty it stays empty: further calls keep returning
    /// `None`.
    pub fn next(&mut self) -> (token: Option<Token>)
        requires
            old(self).wf(),
        ensures
            final(self).wf(),
            !final(self).has_lookahead(),
            old(self)@.len() == 0 ==> token is None && final(self)@ == old(self)@,
            old(self)@.len() > 0 ==> (token matches Some(t) && t@ == old(self)@[0]
                && final(self)@ == old(self)@.drop_first()),
    {
        if self.peeked_token.is_some() {
            let token = self.peeked_token;
            self.peeked_token = None;
            proof {
                assert(old(self)@.drop_first() =~= self@);
            }
            return token;
        }
        while self.position < self.source.len()
            invariant
                self.wf(),
                !self.has_lookahead(),
                self.source@ == old(self).source@,
                self@ == old(self)@,
            decreases self.source@.len() - self.position,
        {
            let byte = self.source[self.position];
            let token_location = self.location;
            proof {
                lemma_tokens_of_step(self.source@, self.position as int, self.location@);
            }
            self.position = self.position + 1;
            self.location = self.location.advanced(byte);
            if Self::in_language(byte as char) {
                let token = Token { character: byte as char, location: token_location };
                proof {
                    assert(old(self)@[0] == token@);
                    assert(old(self)@.drop_first() =~= self@);
                }
                return Some(token);
            }
        }
        proof {
            assert(self.source@.skip(self.position as int) =~= Seq::<u8>::empty());
        }
        None
    }

    /// The next significant token without consuming it: the token stream is
    /// left unchanged, so repeated calls to `peek`, and the `next` call that
    /// follows, all return this same token. Returns `None` exactly when the
    /// source is exhausted.
    pub fn peek(&mut self) -> (token: Option<Token>)
        requires
            old(self).wf(),
        ensures
            final(self).wf(),
            final(self)@ == old(self)@,
            old(self)@.len() == 0 ==> token is None,
            old(self)@.len() > 0 ==> (token matches Some(t) && t@ == old(self)@[0]),
    {
        if let Some(token) = self.peeked_token {
            return Some(token);
        }
        let token = self.next();
        self.peeked_token = token;
        proof {
            if old(self)@.len() > 0 {
                assert(self@ =~= old(self)@);
            }
        }
        token
    }
}

/// Reading the bytes of a source one position forward turns the head token
/// of the stream, if the byte at that position is in-language, into the
/// emitted token, and otherwise leaves the stream unchanged.
proof fn lemma_tokens_of_step(bytes: Seq<u8>, i: int, loc: LocationModel)
    requires
        0 <= i < bytes.len(),
    ensures
        is_language_char(bytes[i] as char) ==> tokens_of(bytes.skip(i), loc) == seq![
            TokenModel { character: bytes[i] as char, location: loc },
        ] + tokens_of(bytes.skip(i + 1), advanced_location(loc, bytes[i])),
        !is_language_char(bytes[i] as char) ==> tokens_of(bytes.skip(i), loc) == tokens_of(
            bytes.skip(i + 1),
            advanced_location(loc, bytes[i]),
        ),
{
    assert(bytes.skip(i)[0] == bytes[i]);
    assert(bytes.skip(i).drop_first() =~= bytes.skip(i + 1));
}

} // verus!
