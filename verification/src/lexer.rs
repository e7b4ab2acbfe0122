//! The executable scanner: a cursor over an immutable byte buffer that
//! produces one token per call, exactly as the model in `scan` prescribes.

use vstd::prelude::*;
use vstd::string::StrSliceExecFns;
use vstd::utf8::{encode_utf8, is_ascii_chars, is_ascii_chars_encode_utf8};
use crate::scan::{
    is_digit, is_ws, is_word, scan_at, word_lexeme, ws_end, Lexeme,
};

verus! {

/// What `String::from_utf8_lossy` makes of a byte sequence. Left without a
/// definition: for the ASCII bytes the scanner mostly hands it, the wrapper
/// below pins the result exactly.
pub uninterp spec fn decoded(w: Seq<u8>) -> Seq<char>;

/// The characters of a sequence of ASCII bytes, one per byte.
pub open spec fn ascii_str(w: Seq<u8>) -> Seq<char> {
    Seq::new(w.len(), |i: int| w[i] as char)
}

/// Relies on `String::from_utf8_lossy`: the result is a function of the bytes
/// alone, and bytes below 128 are valid UTF-8 that decodes to the characters
/// with the same code points, one character per byte.
#[verifier::external_body]
fn bytes_to_string(v: &[u8]) -> (r: String)
    ensures
        r@ == decoded(v@),
        (forall|i: int| 0 <= i < v@.len() ==> v@[i] < 128) ==> r@ == ascii_str(v@),
{
    String::from_utf8_lossy(v).to_string()
}

/// A token: a classified unit of source text. Literal, identifier and comment
/// tokens carry their text; `StrLiteral` and `TokEof` are reserved and never
/// produced by the scanner.
#[derive(Debug, PartialEq)]
pub enum Token {
    // Keywords
    KwLet,
    KwFn,
    KwVoid,
    KwTrue,
    KwFalse,
    KwIf,
    KwElse,
    KwWhile,
    KwReturn,
    KwBreak,
    // Literals
    NumLiteral(String),
    StrLiteral(String),
    // Operators
    OpPlus,
    OpMinus,
    OpMult,
    OpDiv,
    OpMod,
    OpAnd,
    OpOr,
    OpNot,
    OpGt,
    OpGe,
    OpEq,
    OpNe,
    OpLt,
    OpLe,
    // Delimiters
    SemiColon,
    Colon,
    Comma,
    Assignment,
    Lparen,
    RParen,
    LSquirly,
    RSquirly,
    LBracket,
    RBracket,
    // Others
    Identifier(String),
    Comment(String),
    TokEof,
}

/// Whether the produced token `t` carries the classification and text that
/// the model's lexeme `l` calls for. Identifier and number text is ASCII by
/// construction, so it is pinned byte for byte; comment text may hold
/// arbitrary bytes and is what `decoded` makes of them.
pub open spec fn token_matches(t: Token, l: Lexeme) -> bool {
    match l {
        Lexeme::KwLet => t is KwLet,
        Lexeme::KwFn => t is KwFn,
        Lexeme::KwVoid => t is KwVoid,
        Lexeme::KwTrue => t is KwTrue,
        Lexeme::KwFalse => t is KwFalse,
        Lexeme::KwIf => t is KwIf,
        Lexeme::KwElse => t is KwElse,
        Lexeme::KwWhile => t is KwWhile,
        Lexeme::KwReturn => t is KwReturn,
        Lexeme::KwBreak => t is KwBreak,
        Lexeme::Num(w) => t matches Token::NumLiteral(x) && x@ == ascii_str(w),
        Lexeme::Ident(w) => t matches Token::Identifier(x) && x@ == ascii_str(w),
        Lexeme::OpPlus => t is OpPlus,
        Lexeme::OpMinus => t is OpMinus,
        Lexeme::OpMult => t is OpMult,
        Lexeme::OpDiv => t is OpDiv,
        Lexeme::OpMod => t is OpMod,
        Lexeme::OpAnd => t is OpAnd,
        Lexeme::OpOr => t is OpOr,
        Lexeme::OpNot => t is OpNot,
        Lexeme::OpGt => t is OpGt,
        Lexeme::OpGe => t is OpGe,
        Lexeme::OpEq => t is OpEq,
        Lexeme::OpNe => t is OpNe,
        Lexeme::OpLt => t is OpLt,
        Lexeme::OpLe => t is OpLe,
        Lexeme::SemiColon => t is SemiColon,
        Lexeme::Colon => t is Colon,
        Lexeme::Comma => t is Comma,
        Lexeme::Assignment => t is Assignment,
        Lexeme::Lparen => t is Lparen,
        Lexeme::RParen => t is RParen,
        Lexeme::LSquirly => t is LSquirly,
        Lexeme::RSquirly => t is RSquirly,
        Lexeme::LBracket => t is LBracket,
        Lexeme::RBracket => t is RBracket,
        Lexeme::Comment(w) => t matches Token::Comment(x) && x@ == decoded(w),
    }
}

/// The scanner: a cursor, a one-byte lookahead index, the byte under the
/// cursor, and the immutable input buffer.
pub struct Lexer {
    position: usize,
    read_position: usize,
    ch: Option<u8>,
    input: Vec<u8>,
}

impl Lexer {
    /// The input buffer as a byte sequence.
    pub closed spec fn bytes(&self) -> Seq<u8> {
        self.input@
    }

    /// The cursor: the index of the byte the next production step reads first.
    pub closed spec fn cursor(&self) -> int {
        self.position as int
    }

    /// The scanner's invariant. Inside the buffer the lookahead index sits one
    /// past the cursor and the current byte is the one under the cursor; once
    /// the cursor has passed the last byte, cursor and lookahead both rest at
    /// the buffer's length and the current byte is absent.
    pub closed spec fn wf(&self) -> bool {
        &&& self.position <= self.input@.len()
        &&& if (self.position as int) < self.input@.len() {
            self.read_position == self.position + 1 && self.ch == Some(
                self.input@[self.position as int],
            )
        } else {
            self.read_position == self.input@.len() && self.ch is None
        }
    }

    /// Builds a scanner over the raw bytes of `input`, with the cursor primed
    /// on the first byte.
    pub fn new(input: String) -> (l: Lexer)
        ensures
            l.wf(),
            l.cursor() == 0,
            l.bytes() == encode_utf8(input@),
            is_ascii_chars(input@) ==> l.bytes() == Seq::new(
                input@.len(),
                |i: int| input@[i] as u8,
            ),
    {
        proof {
            if is_ascii_chars(input@) {
                is_ascii_chars_encode_utf8(input@);
                assert(encode_utf8(input@) =~= Seq::new(input@.len(), |i: int| input@[i] as u8));
            }
        }
        let mut l = Lexer {
            position: 0,
            read_position: 0,
            ch: None,
            input: input.as_str().as_bytes_vec(),
        };
        l.read_char();
        l
    }

    /// Moves the cursor to the lookahead index and loads the byte there; past
    /// the end it parks the cursor at the buffer's length with no byte.
    fn read_char(&mut self)
        requires
            old(self).read_position <= old(self).input@.len(),
        ensures
            final(self).input == old(self).input,
            if (old(self).read_position as int) < old(self).input@.len() {
                final(self).position == old(self).read_position && final(self).read_position == old(
                    self,
                ).read_position + 1 && final(self).ch == Some(
                    old(self).input@[old(self).read_position as int],
                )
            } else {
                final(self).position == old(self).input@.len() && final(self).read_position == old(
                    self,
                ).input@.len() && final(self).ch is None
            },
    {
        if self.read_position >= self.input.len() {
            self.ch = None;
            self.position = self.input.len();
            self.read_position = self.input.len();
        } else {
            self.ch = Some(self.input[self.read_position]);
            self.position = self.read_position;
            self.read_position = self.read_position + 1;
        }
    }

    /// The byte at the lookahead index, if it is inside the buffer.
    fn peek(&self) -> (r: Option<u8>)
        requires
            self.read_position <= self.input@.len(),
        ensures
            r == if (self.read_position as int) < self.input@.len() {
                Some(self.input@[self.read_position as int])
            } else {
                None::<u8>
            },
    {
        if self.read_position >= self.input.len() {
            return None;
        }
        Some(self.input[self.read_position])
    }

    /// Advances the cursor past every whitespace byte under it.
    fn skip_whitespace(&mut self)
        requires
            old(self).wf(),
        ensures
            final(self).wf(),
            final(self).bytes() == old(self).bytes(),
            final(self).cursor() == ws_end(old(self).bytes(), old(self).cursor()),
    {
        let ghost s = self.input@;
        let ghost i0 = self.position as int;
        proof {
            crate::scan::lemma_run_end(s, i0, |b: u8| is_ws(b));
        }
        loop
            invariant
                self.wf(),
                self.input@ == s,
                0 <= self.position as int <= s.len(),
                ws_end(s, self.position as int) == ws_end(s, i0),
            ensures
                self.wf(),
                self.input@ == s,
                self.position as int == ws_end(s, i0),
            decreases s.len() - self.position,
        {
            match self.ch {
                Some(c) => {
                    if ws_byte(c) {
                        assert(ws_end(s, self.position as int) == ws_end(
                            s,
                            self.position as int + 1,
                        ));
                        self.read_char();
                    } else {
                        assert(ws_end(s, self.position as int) == self.position as int);
                        break ;
                    }
                },
                None => {
                    assert(ws_end(s, self.position as int) == self.position as int);
                    break ;
                },
            }
        }
    }

    /// Produces the next token of the input, or `None` once the cursor has
    /// consumed all input or when the byte under it matches no rule (the byte
    /// is then skipped): one step of the model's `scan_at`, which also names
    /// the position the cursor is advanced to.
    pub fn next_token(&mut self) -> (tok: Option<Token>)
        requires
            old(self).wf(),
        ensures
            final(self).wf(),
            final(self).bytes() == old(self).bytes(),
            final(self).cursor() == scan_at(old(self).bytes(), old(self).cursor()).1,
            match scan_at(old(self).bytes(), old(self).cursor()).0 {
                None => tok is None,
                Some(l) => tok matches Some(t) && token_matches(t, l),
            },
    {
        let ghost s = self.input@;
        self.skip_whitespace();
        let ghost j = self.position as int;
        let tok: Option<Token>;
        match self.ch {
            None => {
                tok = None;
            },
            Some(c) => {
                if c == ('+' as u8) {
                    tok = Some(Token::OpPlus);
                } else if c == ('-' as u8) {
                    tok = Some(Token::OpMinus);
                } else if c == ('*' as u8) {
                    tok = Some(Token::OpMult);
                } else if c == ('/' as u8) {
                    tok = Some(Token::OpDiv);
                } else if c == ('%' as u8) {
                    tok = Some(Token::OpMod);
                } else if c == ('&' as u8) {
                    tok = Some(Token::OpAnd);
                } else if c == ('|' as u8) {
                    tok = Some(Token::OpOr);
                } else if c == ('>' as u8) || c == ('=' as u8) || c == ('!' as u8) || c == (
                '<' as u8) {
                    let nx = self.peek();
                    let followed_by_eq = match nx {
                        Some(n2) => n2 == ('=' as u8),
                        None => false,
                    };
                    if followed_by_eq {
                        self.read_char();
                        tok = Some(
                            if c == ('>' as u8) {
                                Token::OpGe
                            } else if c == ('=' as u8) {
                                Token::OpEq
                            } else if c == ('!' as u8) {
                                Token::OpNe
                            } else {
                                Token::OpLe
                            },
                        );
                    } else {
                        tok = Some(
                            if c == ('>' as u8) {
                                Token::OpGt
                            } else if c == ('=' as u8) {
                                Token::Assignment
                            } else if c == ('!' as u8) {
                                Token::OpNot
                            } else {
                                Token::OpLt
                            },
                        );
                    }
                } else if c == (';' as u8) {
                    tok = Some(Token::SemiColon);
                } else if c == (':' as u8) {
                    tok = Some(Token::Colon);
                } else if c == (',' as u8) {
                    tok = Some(Token::Comma);
                } else if c == ('(' as u8) {
                    tok = Some(Token::Lparen);
                } else if c == (')' as u8) {
                    tok = Some(Token::RParen);
                } else if c == ('{' as u8) {
                    tok = Some(Token::LSquirly);
                } else if c == ('}' as u8) {
                    tok = Some(Token::RSquirly);
                } else if c == ('[' as u8) {
                    tok = Some(Token::LBracket);
                } else if c == (']' as u8) {
                    tok = Some(Token::RBracket);
                } else if c == ('?' as u8) {
                    proof {
                        crate::scan::lemma_run_end(s, j + 1, |b: u8| b != ('\n' as u8));
                        assert(crate::scan::comment_end(s, j) == crate::scan::comment_end(
                            s,
                            j + 1,
                        ));
                    }
                    let text = self.read_comment();
                    tok = Some(Token::Comment(text));
                } else if word_byte(c) {
                    proof {
                        crate::scan::lemma_run_end(s, j + 1, |b: u8| is_word(b));
                        assert(crate::scan::word_end(s, j) == crate::scan::word_end(s, j + 1));
                    }
                    let start = self.position;
                    let text = self.read_identifier();
                    let end = self.position + 1;
                    tok = Some(classify_word(&self.input, start, end, text));
                } else if digit_byte(c) {
                    proof {
                        crate::scan::lemma_run_end(s, j + 1, |b: u8| is_digit(b));
                        assert(crate::scan::digits_end(s, j) == crate::scan::digits_end(s, j + 1));
                        let d = crate::scan::digits_end(s, j);
                        if d < s.len() && s[d] == ('.' as u8) {
                            crate::scan::lemma_run_end(s, d + 1, |b: u8| is_digit(b));
                        }
                    }
                    let text = self.read_num();
                    tok = Some(Token::NumLiteral(text));
                } else {
                    tok = None;
                }
            },
        }
        self.read_char();
        tok
    }

    /// Captures the maximal run of letters and underscores that starts under
    /// the cursor, leaving the cursor on the run's last byte.
    fn read_identifier(&mut self) -> (r: String)
        requires
            old(self).wf(),
            old(self).cursor() < old(self).bytes().len(),
            is_word(old(self).bytes()[old(self).cursor()]),
        ensures
            final(self).wf(),
            final(self).bytes() == old(self).bytes(),
            ({
                let e = crate::scan::word_end(old(self).bytes(), old(self).cursor());
                &&& final(self).cursor() == e - 1
                &&& r@ == ascii_str(old(self).bytes().subrange(old(self).cursor(), e))
            }),
    {
        let ghost s = self.input@;
        let ghost st = self.position as int;
        let start = self.position;
        loop
            invariant
                self.wf(),
                self.input@ == s,
                st <= (self.position as int) && (self.position as int) < s.len(),
                is_word(s[self.position as int]),
                crate::scan::word_end(s, st) == crate::scan::word_end(s, self.position as int),
            ensures
                self.wf(),
                self.input@ == s,
                self.position as int == crate::scan::word_end(s, st) - 1,
            decreases s.len() - self.position,
        {
            let next = self.peek();
            match next {
                Some(c) => {
                    if word_byte(c) {
                        self.read_char();
                    } else {
                        assert(crate::scan::word_end(s, self.position as int + 1)
                            == self.position as int + 1);
                        assert(crate::scan::word_end(s, self.position as int)
                            == self.position as int + 1);
                        break ;
                    }
                },
                None => {
                    assert(crate::scan::word_end(s, self.position as int + 1)
                        == self.position as int + 1);
                    assert(crate::scan::word_end(s, self.position as int)
                        == self.position as int + 1);
                    break ;
                },
            }
        }
        proof {
            crate::scan::lemma_run_end(s, st, |b: u8| is_word(b));
        }
        let end = self.position + 1;
        let piece = vstd::slice::slice_subrange(self.input.as_slice(), start, end);
        assert(forall|i: int| 0 <= i < piece@.len() ==> piece@[i] < 128);
        bytes_to_string(piece)
    }

    /// Captures the numeric literal that starts under the cursor: a digit
    /// run, and when a decimal point follows, the point and any further
    /// digits. The cursor is left on the literal's last byte.
    fn read_num(&mut self) -> (r: String)
        requires
            old(self).wf(),
            old(self).cursor() < old(self).bytes().len(),
            is_digit(old(self).bytes()[old(self).cursor()]),
        ensures
            final(self).wf(),
            final(self).bytes() == old(self).bytes(),
            ({
                let e = crate::scan::num_end(old(self).bytes(), old(self).cursor());
                &&& final(self).cursor() == e - 1
                &&& r@ == ascii_str(old(self).bytes().subrange(old(self).cursor(), e))
            }),
    {
        let ghost s = self.input@;
        let ghost st = self.position as int;
        let start = self.position;
        loop
            invariant
                self.wf(),
                self.input@ == s,
                st <= (self.position as int) && (self.position as int) < s.len(),
                is_digit(s[self.position as int]),
                crate::scan::digits_end(s, st) == crate::scan::digits_end(s, self.position as int),
            ensures
                self.wf(),
                self.input@ == s,
                self.position as int == crate::scan::digits_end(s, st) - 1,
            decreases s.len() - self.position,
        {
            let next = self.peek();
            match next {
                Some(c) => {
                    if digit_byte(c) {
                        self.read_char();
                    } else {
                        assert(crate::scan::digits_end(s, self.position as int + 1)
                            == self.position as int + 1);
                        assert(crate::scan::digits_end(s, self.position as int)
                            == self.position as int + 1);
                        break ;
                    }
                },
                None => {
                    assert(crate::scan::digits_end(s, self.position as int + 1)
                        == self.position as int + 1);
                    assert(crate::scan::digits_end(s, self.position as int)
                        == self.position as int + 1);
                    break ;
                },
            }
        }
        proof {
            crate::scan::lemma_run_end(s, st, |b: u8| is_digit(b));
        }
        let ghost d = crate::scan::digits_end(s, st);
        let next = self.peek();
        if next == Some('.' as u8) {
            self.read_char();
            assert(self.position as int == d && d < s.len() && s[d] == ('.' as u8));
            loop
                invariant
                    self.wf(),
                    self.input@ == s,
                    d <= (self.position as int) && (self.position as int) < s.len(),
                    self.position as int == d || is_digit(s[self.position as int]),
                    crate::scan::digits_end(s, d + 1) == crate::scan::digits_end(
                        s,
                        self.position as int + 1,
                    ),
                ensures
                    self.wf(),
                    self.input@ == s,
                    self.position as int == crate::scan::digits_end(s, d + 1) - 1,
                decreases s.len() - self.position,
            {
                let next2 = self.peek();
                match next2 {
                    Some(c) => {
                        if digit_byte(c) {
                            self.read_char();
                        } else {
                            assert(crate::scan::digits_end(s, self.position as int + 1)
                                == self.position as int + 1);
                            break ;
                        }
                    },
                    None => {
                        assert(crate::scan::digits_end(s, self.position as int + 1)
                            == self.position as int + 1);
                        break ;
                    },
                }
            }
            proof {
                crate::scan::lemma_run_end(s, d + 1, |b: u8| is_digit(b));
            }
        }
        let end = self.position + 1;
        let piece = vstd::slice::slice_subrange(self.input.as_slice(), start, end);
        assert(forall|i: int| 0 <= i < piece@.len() ==> piece@[i] < 128);
        bytes_to_string(piece)
    }

    /// Captures the line comment that starts under the cursor: the marker and
    /// everything up to, but not including, the next newline or the end of
    /// the input. The cursor is left on the comment's last byte.
    fn read_comment(&mut self) -> (r: String)
        requires
            old(self).wf(),
            old(self).cursor() < old(self).bytes().len(),
            old(self).bytes()[old(self).cursor()] != ('\n' as u8),
        ensures
            final(self).wf(),
            final(self).bytes() == old(self).bytes(),
            ({
                let e = crate::scan::comment_end(old(self).bytes(), old(self).cursor());
                &&& final(self).cursor() == e - 1
                &&& r@ == decoded(old(self).bytes().subrange(old(self).cursor(), e))
            }),
    {
        let ghost s = self.input@;
        let ghost st = self.position as int;
        let start = self.position;
        loop
            invariant
                self.wf(),
                self.input@ == s,
                st <= (self.position as int) && (self.position as int) < s.len(),
                s[self.position as int] != ('\n' as u8),
                crate::scan::comment_end(s, st) == crate::scan::comment_end(
                    s,
                    self.position as int,
                ),
            ensures
                self.wf(),
                self.input@ == s,
                self.position as int == crate::scan::comment_end(s, st) - 1,
            decreases s.len() - self.position,
        {
            let next = self.peek();
            match next {
                Some(c) => {
                    if c != ('\n' as u8) {
                        self.read_char();
                    } else {
                        assert(crate::scan::comment_end(s, self.position as int + 1)
                            == self.position as int + 1);
                        assert(crate::scan::comment_end(s, self.position as int)
                            == self.position as int + 1);
                        break ;
                    }
                },
                None => {
                    assert(crate::scan::comment_end(s, self.position as int + 1)
                        == self.position as int + 1);
                    assert(crate::scan::comment_end(s, self.position as int)
                        == self.position as int + 1);
                    break ;
                },
            }
        }
        let end = self.position + 1;
        let piece = vstd::slice::slice_subrange(self.input.as_slice(), start, end);
        bytes_to_string(piece)
    }
}

/// Classifies a captured word against the fixed keyword set: the matching
/// keyword token, or an `Identifier` carrying `text`, which must spell the
/// word `v[start..end]`.
fn classify_word(v: &Vec<u8>, start: usize, end: usize, text: String) -> (t: Token)
    requires
        start < end <= v@.len(),
        text@ == ascii_str(v@.subrange(start as int, end as int)),
    ensures
        token_matches(t, word_lexeme(v@.subrange(start as int, end as int))),
{
    let ghost w = v@.subrange(start as int, end as int);
    let n = end - start;
    if n == 3 && v[start] == ('l' as u8) && v[start + 1] == ('e' as u8) && v[start + 2] == (
    't' as u8) {
        Token::KwLet
    } else if n == 2 && v[start] == ('f' as u8) && v[start + 1] == ('n' as u8) {
        Token::KwFn
    } else if n == 4 && v[start] == ('v' as u8) && v[start + 1] == ('o' as u8) && v[start + 2] == (
    'i' as u8) && v[start + 3] == ('d' as u8) {
        Token::KwVoid
    } else if n == 4 && v[start] == ('t' as u8) && v[start + 1] == ('r' as u8) && v[start + 2] == (
    'u' as u8) && v[start + 3] == ('e' as u8) {
        Token::KwTrue
    } else if n == 5 && v[start] == ('f' as u8) && v[start + 1] == ('a' as u8) && v[start + 2] == (
    'l' as u8) && v[start + 3] == ('s' as u8) && v[start + 4] == ('e' as u8) {
        Token::KwFalse
    } else if n == 2 && v[start] == ('i' as u8) && v[start + 1] == ('f' as u8) {
        Token::KwIf
    } else if n == 4 && v[start] == ('e' as u8) && v[start + 1] == ('l' as u8) && v[start + 2] == (
    's' as u8) && v[start + 3] == ('e' as u8) {
        Token::KwElse
    } else if n == 5 && v[start] == ('w' as u8) && v[start + 1] == ('h' as u8) && v[start + 2] == (
    'i' as u8) && v[start + 3] == ('l' as u8) && v[start + 4] == ('e' as u8) {
        Token::KwWhile
    } else if n == 6 && v[start] == ('r' as u8) && v[start + 1] == ('e' as u8) && v[start + 2] == (
    't' as u8) && v[start + 3] == ('u' as u8) && v[start + 4] == ('r' as u8) && v[start + 5] == (
    'n' as u8) {
        Token::KwReturn
    } else if n == 5 && v[start] == ('b' as u8) && v[start + 1] == ('r' as u8) && v[start + 2] == (
    'e' as u8) && v[start + 3] == ('a' as u8) && v[start + 4] == ('k' as u8) {
        Token::KwBreak
    } else {
        Token::Identifier(text)
    }
}

/// Whether `b` is ASCII whitespace, as `is_ws` says.
fn ws_byte(b: u8) -> (r: bool)
    ensures
        r == is_ws(b),
{
    b == (' ' as u8) || b == ('\t' as u8) || b == ('\n' as u8) || b == 12u8 || b == ('\r' as u8)
}

/// Whether `b` may appear in an identifier, as `is_word` says.
fn word_byte(b: u8) -> (r: bool)
    ensures
        r == is_word(b),
{
    (('a' as u8) <= b && b <= ('z' as u8)) || (('A' as u8) <= b && b <= ('Z' as u8)) || b == (
    '_' as u8)
}

/// Whether `b` is a decimal digit, as `is_digit` says.
fn digit_byte(b: u8) -> (r: bool)
    ensures
        r == is_digit(b),
{
    ('0' as u8) <= b && b <= ('9' as u8)
}

} // verus!
