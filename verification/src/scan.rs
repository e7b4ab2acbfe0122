//! The byte-level scanning model: which classes of bytes form which lexemes,
//! and what one production step yields at each position of the input.
//!
//! Everything here is ghost: the executable scanner in `lexer` promises in its
//! contracts to behave exactly as `scan_at` says.

use vstd::prelude::*;

verus! {

/// One scanned unit, carrying the raw bytes of its slice of the input where
/// the class keeps its text.
///
/// A `Comment` runs from the `?` marker itself to just before the next
/// newline, so the marker is part of the kept text.
pub enum Lexeme {
    KwLet,
    KwFn,
    KwVoid,
    KwTrue,
    KwFalse,
    KwIf,
    KwElse,
    KwWhile,
    KwReturn,
    KwBreak,
    Num(Seq<u8>),
    Ident(Seq<u8>),
    OpPlus,
    OpMinus,
    OpMult,
    OpDiv,
    OpMod,
    OpAnd,
    OpOr,
    OpNot,
    OpGt,
    OpGe,
    OpEq,
    OpNe,
    OpLt,
    OpLe,
    SemiColon,
    Colon,
    Comma,
    Assignment,
    Lparen,
    RParen,
    LSquirly,
    RSquirly,
    LBracket,
    RBracket,
    Comment(Seq<u8>),
}

/// ASCII whitespace: space, tab, line feed, form feed, carriage return.
pub open spec fn is_ws(b: u8) -> bool {
    b == (' ' as u8) || b == ('\t' as u8) || b == ('\n' as u8) || b == 12u8 || b == ('\r' as u8)
}

/// A byte that may appear in an identifier: a letter or an underscore.
/// Digits are deliberately excluded from identifier bodies.
pub open spec fn is_word(b: u8) -> bool {
    (('a' as u8) <= b && b <= ('z' as u8)) || (('A' as u8) <= b && b <= ('Z' as u8)) || b == ('_' as u8)
}

/// A decimal digit.
pub open spec fn is_digit(b: u8) -> bool {
    ('0' as u8) <= b && b <= ('9' as u8)
}

/// The end (exclusive) of the maximal run of bytes satisfying `p` that starts
/// at `i`: the first position at or after `i` whose byte fails `p`, or the
/// input's length when the run reaches the end.
pub open spec fn run_end(s: Seq<u8>, i: int, p: spec_fn(u8) -> bool) -> int
    decreases s.len() - i,
{
    if 0 <= i && i < s.len() && p(s[i]) {
        run_end(s, i + 1, p)
    } else {
        i
    }
}

/// `run_end` stays between `i` and the input's length, every byte of the run
/// satisfies `p`, and the byte just past the run (if any) fails `p`.
pub proof fn lemma_run_end(s: Seq<u8>, i: int, p: spec_fn(u8) -> bool)
    requires
        0 <= i <= s.len(),
    ensures
        i <= run_end(s, i, p) <= s.len(),
        forall|k: int| i <= k < run_end(s, i, p) ==> p(s[k]),
        run_end(s, i, p) < s.len() ==> !p(s[run_end(s, i, p)]),
    decreases s.len() - i,
{
    if i < s.len() && p(s[i]) {
        lemma_run_end(s, i + 1, p);
    }
}

/// Any position `j` bounding a `p`-run that starts at `i` and is not followed
/// by a `p`-byte is exactly `run_end(s, i, p)`.
pub proof fn lemma_run_end_is(s: Seq<u8>, i: int, j: int, p: spec_fn(u8) -> bool)
    requires
        0 <= i <= j <= s.len(),
        forall|k: int| i <= k < j ==> p(s[k]),
        j < s.len() ==> !p(s[j]),
    ensures
        run_end(s, i, p) == j,
    decreases j - i,
{
    if i < j {
        assert(p(s[i]));
        lemma_run_end_is(s, i + 1, j, p);
    }
}

/// Where the whitespace before the next lexeme ends.
pub open spec fn ws_end(s: Seq<u8>, i: int) -> int {
    run_end(s, i, |b: u8| is_ws(b))
}

/// Where the identifier or keyword word starting at `i` ends.
pub open spec fn word_end(s: Seq<u8>, i: int) -> int {
    run_end(s, i, |b: u8| is_word(b))
}

/// Where the digit run starting at `i` ends.
pub open spec fn digits_end(s: Seq<u8>, i: int) -> int {
    run_end(s, i, |b: u8| is_digit(b))
}

/// Where the line comment starting at `i` ends: just before the next newline,
/// or at the end of the input.
pub open spec fn comment_end(s: Seq<u8>, i: int) -> int {
    run_end(s, i, |b: u8| b != ('\n' as u8))
}

/// The end of a numeric literal starting at `i`: a digit run, then, when a
/// decimal point follows it, the point and a further (possibly empty) digit
/// run. A trailing point with no fractional digits stays part of the literal.
pub open spec fn num_end(s: Seq<u8>, i: int) -> int {
    let d = digits_end(s, i);
    if d < s.len() && s[d] == ('.' as u8) {
        digits_end(s, d + 1)
    } else {
        d
    }
}

pub open spec fn is_kw_let(w: Seq<u8>) -> bool {
    w.len() == 3 && w[0] == ('l' as u8) && w[1] == ('e' as u8) && w[2] == ('t' as u8)
}

pub open spec fn is_kw_fn(w: Seq<u8>) -> bool {
    w.len() == 2 && w[0] == ('f' as u8) && w[1] == ('n' as u8)
}

pub open spec fn is_kw_void(w: Seq<u8>) -> bool {
    w.len() == 4 && w[0] == ('v' as u8) && w[1] == ('o' as u8) && w[2] == ('i' as u8) && w[3] == (
    'd' as u8)
}

pub open spec fn is_kw_true(w: Seq<u8>) -> bool {
    w.len() == 4 && w[0] == ('t' as u8) && w[1] == ('r' as u8) && w[2] == ('u' as u8) && w[3] == (
    'e' as u8)
}

pub open spec fn is_kw_false(w: Seq<u8>) -> bool {
    w.len() == 5 && w[0] == ('f' as u8) && w[1] == ('a' as u8) && w[2] == ('l' as u8) && w[3] == (
    's' as u8) && w[4] == ('e' as u8)
}

pub open spec fn is_kw_if(w: Seq<u8>) -> bool {
    w.len() == 2 && w[0] == ('i' as u8) && w[1] == ('f' as u8)
}

pub open spec fn is_kw_else(w: Seq<u8>) -> bool {
    w.len() == 4 && w[0] == ('e' as u8) && w[1] == ('l' as u8) && w[2] == ('s' as u8) && w[3] == (
    'e' as u8)
}

pub open spec fn is_kw_while(w: Seq<u8>) -> bool {
    w.len() == 5 && w[0] == ('w' as u8) && w[1] == ('h' as u8) && w[2] == ('i' as u8) && w[3] == (
    'l' as u8) && w[4] == ('e' as u8)
}

pub open spec fn is_kw_return(w: Seq<u8>) -> bool {
    w.len() == 6 && w[0] == ('r' as u8) && w[1] == ('e' as u8) && w[2] == ('t' as u8) && w[3] == (
    'u' as u8) && w[4] == ('r' as u8) && w[5] == ('n' as u8)
}

pub open spec fn is_kw_break(w: Seq<u8>) -> bool {
    w.len() == 5 && w[0] == ('b' as u8) && w[1] == ('r' as u8) && w[2] == ('e' as u8) && w[3] == (
    'a' as u8) && w[4] == ('k' as u8)
}

/// Whether a captured word is one of the ten keywords.
pub open spec fn is_keyword(w: Seq<u8>) -> bool {
    ||| is_kw_let(w)
    ||| is_kw_fn(w)
    ||| is_kw_void(w)
    ||| is_kw_true(w)
    ||| is_kw_false(w)
    ||| is_kw_if(w)
    ||| is_kw_else(w)
    ||| is_kw_while(w)
    ||| is_kw_return(w)
    ||| is_kw_break(w)
}

/// Classifies a captured word: the matching keyword, or an identifier
/// carrying the word verbatim.
pub open spec fn word_lexeme(w: Seq<u8>) -> Lexeme {
    if is_kw_let(w) {
        Lexeme::KwLet
    } else if is_kw_fn(w) {
        Lexeme::KwFn
    } else if is_kw_void(w) {
        Lexeme::KwVoid
    } else if is_kw_true(w) {
        Lexeme::KwTrue
    } else if is_kw_false(w) {
        Lexeme::KwFalse
    } else if is_kw_if(w) {
        Lexeme::KwIf
    } else if is_kw_else(w) {
        Lexeme::KwElse
    } else if is_kw_while(w) {
        Lexeme::KwWhile
    } else if is_kw_return(w) {
        Lexeme::KwReturn
    } else if is_kw_break(w) {
        Lexeme::KwBreak
    } else {
        Lexeme::Ident(w)
    }
}

/// The lexeme of a byte that forms a token on its own, with no lookahead.
/// The four bytes `> = ! <` appear here with their one-byte reading; `scan_at`
/// prefers their two-byte reading when `=` follows.
pub open spec fn single_lexeme(b: u8) -> Option<Lexeme> {
    if b == ('+' as u8) {
        Some(Lexeme::OpPlus)
    } else if b == ('-' as u8) {
        Some(Lexeme::OpMinus)
    } else if b == ('*' as u8) {
        Some(Lexeme::OpMult)
    } else if b == ('/' as u8) {
        Some(Lexeme::OpDiv)
    } else if b == ('%' as u8) {
        Some(Lexeme::OpMod)
    } else if b == ('&' as u8) {
        Some(Lexeme::OpAnd)
    } else if b == ('|' as u8) {
        Some(Lexeme::OpOr)
    } else if b == ('!' as u8) {
        Some(Lexeme::OpNot)
    } else if b == ('>' as u8) {
        Some(Lexeme::OpGt)
    } else if b == ('<' as u8) {
        Some(Lexeme::OpLt)
    } else if b == ('=' as u8) {
        Some(Lexeme::Assignment)
    } else if b == (';' as u8) {
        Some(Lexeme::SemiColon)
    } else if b == (':' as u8) {
        Some(Lexeme::Colon)
    } else if b == (',' as u8) {
        Some(Lexeme::Comma)
    } else if b == ('(' as u8) {
        Some(Lexeme::Lparen)
    } else if b == (')' as u8) {
        Some(Lexeme::RParen)
    } else if b == ('{' as u8) {
        Some(Lexeme::LSquirly)
    } else if b == ('}' as u8) {
        Some(Lexeme::RSquirly)
    } else if b == ('[' as u8) {
        Some(Lexeme::LBracket)
    } else if b == (']' as u8) {
        Some(Lexeme::RBracket)
    } else {
        None
    }
}

/// A byte that pairs with a following `=` into a two-byte operator.
pub open spec fn is_fallback_op(b: u8) -> bool {
    b == ('>' as u8) || b == ('=' as u8) || b == ('!' as u8) || b == ('<' as u8)
}

/// The two-byte operator read when `=` follows one of `> = ! <`.
pub open spec fn long_lexeme(b: u8) -> Lexeme {
    if b == ('>' as u8) {
        Lexeme::OpGe
    } else if b == ('=' as u8) {
        Lexeme::OpEq
    } else if b == ('!' as u8) {
        Lexeme::OpNe
    } else {
        Lexeme::OpLe
    }
}

/// One production step at position `i`: skip whitespace, classify the byte
/// found there, and give the produced lexeme (`None` at the end of the input
/// and on an unrecognized byte, which is skipped) together with the position
/// at which the next step starts.
pub open spec fn scan_at(s: Seq<u8>, i: int) -> (Option<Lexeme>, int)
    recommends
        0 <= i <= s.len(),
{
    let j = ws_end(s, i);
    if j >= s.len() {
        (None, s.len() as int)
    } else {
        let b = s[j];
        if is_fallback_op(b) {
            if j + 1 < s.len() && s[j + 1] == ('=' as u8) {
                (Some(long_lexeme(b)), j + 2)
            } else {
                (single_lexeme(b), j + 1)
            }
        } else if single_lexeme(b) is Some {
            (single_lexeme(b), j + 1)
        } else if b == ('?' as u8) {
            let e = comment_end(s, j);
            (Some(Lexeme::Comment(s.subrange(j, e))), e)
        } else if is_word(b) {
            let e = word_end(s, j);
            (Some(word_lexeme(s.subrange(j, e))), e)
        } else if is_digit(b) {
            let e = num_end(s, j);
            (Some(Lexeme::Num(s.subrange(j, e))), e)
        } else {
            (None, j + 1)
        }
    }
}

/// A byte that begins some produced lexeme: an operator or delimiter, the
/// comment marker, a letter or underscore, or a digit.
pub open spec fn starts_token(b: u8) -> bool {
    single_lexeme(b) is Some || b == ('?' as u8) || is_word(b) || is_digit(b)
}

/// Each single-byte operator or delimiter, alone in the input, is produced as
/// the one matching token, and the step after it signals end of input.
pub proof fn lemma_single_char_lexeme(b: u8)
    requires
        single_lexeme(b) is Some,
    ensures
        scan_at(seq![b], 0) == (single_lexeme(b), 1int),
        scan_at(seq![b], 1).0 is None,
{
    let s = seq![b];
    assert(!is_ws(b));
    assert(ws_end(s, 0) == 0);
    assert(ws_end(s, 1) == 1);
}

/// Greedy disambiguation of `> = ! <`: with `=` immediately after, one
/// two-byte operator is produced and both bytes are consumed; with anything
/// else after (or nothing), the one-byte form is produced and the remainder
/// is left for the next step.
pub proof fn lemma_two_char_operator(s: Seq<u8>, i: int)
    requires
        0 <= i < s.len(),
        is_fallback_op(s[i]),
    ensures
        i + 1 < s.len() && s[i + 1] == ('=' as u8) ==> scan_at(s, i) == (
            Some(long_lexeme(s[i])),
            i + 2,
        ),
        !(i + 1 < s.len() && s[i + 1] == ('=' as u8)) ==> scan_at(s, i) == (
            single_lexeme(s[i]),
            i + 1,
        ),
{
    assert(!is_ws(s[i]));
    assert(ws_end(s, i) == i);
}

/// Each of the ten keywords, scanned in isolation, is produced as its keyword
/// lexeme and never as an identifier.
pub proof fn lemma_keyword_isolated(s: Seq<u8>)
    requires
        is_keyword(s),
    ensures
        scan_at(s, 0) == (Some(word_lexeme(s)), s.len() as int),
        !(word_lexeme(s) is Ident),
        scan_at(s, s.len() as int).0 is None,
        is_kw_let(s) ==> word_lexeme(s) == Lexeme::KwLet,
        is_kw_fn(s) ==> word_lexeme(s) == Lexeme::KwFn,
        is_kw_void(s) ==> word_lexeme(s) == Lexeme::KwVoid,
        is_kw_true(s) ==> word_lexeme(s) == Lexeme::KwTrue,
        is_kw_false(s) ==> word_lexeme(s) == Lexeme::KwFalse,
        is_kw_if(s) ==> word_lexeme(s) == Lexeme::KwIf,
        is_kw_else(s) ==> word_lexeme(s) == Lexeme::KwElse,
        is_kw_while(s) ==> word_lexeme(s) == Lexeme::KwWhile,
        is_kw_return(s) ==> word_lexeme(s) == Lexeme::KwReturn,
        is_kw_break(s) ==> word_lexeme(s) == Lexeme::KwBreak,
{
    assert(forall|k: int| 0 <= k < s.len() ==> is_word(s[k]));
    lemma_word_span(s);
}

/// A maximal run of letters and underscores that is no keyword, scanned in
/// isolation, is produced as exactly one identifier carrying the full run.
pub proof fn lemma_identifier_isolated(s: Seq<u8>)
    requires
        s.len() > 0,
        forall|k: int| 0 <= k < s.len() ==> is_word(s[k]),
        !is_keyword(s),
    ensures
        scan_at(s, 0) == (Some(Lexeme::Ident(s)), s.len() as int),
        scan_at(s, s.len() as int).0 is None,
{
    lemma_word_span(s);
}

/// Shared part of the two word laws: an all-word input scans to its
/// classification as one lexeme spanning the whole input.
proof fn lemma_word_span(s: Seq<u8>)
    requires
        s.len() > 0,
        forall|k: int| 0 <= k < s.len() ==> is_word(s[k]),
    ensures
        scan_at(s, 0) == (Some(word_lexeme(s)), s.len() as int),
        scan_at(s, s.len() as int).0 is None,
{
    assert(!is_ws(s[0]));
    assert(ws_end(s, 0) == 0);
    lemma_run_end_is(s, 0, s.len() as int, |b: u8| is_word(b));
    assert(s.subrange(0, s.len() as int) =~= s);
    assert(ws_end(s, s.len() as int) == s.len());
}

/// A digit run with no decimal point, scanned in isolation, is produced as
/// one numeric literal carrying the full digit text.
pub proof fn lemma_integer_literal(s: Seq<u8>)
    requires
        s.len() > 0,
        forall|k: int| 0 <= k < s.len() ==> is_digit(s[k]),
    ensures
        scan_at(s, 0) == (Some(Lexeme::Num(s)), s.len() as int),
        scan_at(s, s.len() as int).0 is None,
{
    assert(!is_ws(s[0]));
    assert(ws_end(s, 0) == 0);
    lemma_run_end_is(s, 0, s.len() as int, |b: u8| is_digit(b));
    assert(s.subrange(0, s.len() as int) =~= s);
    assert(ws_end(s, s.len() as int) == s.len());
}

/// A digit run, a decimal point and a further digit run, scanned in
/// isolation, are produced as one numeric literal spanning all three parts,
/// the point included. The fractional run may also be empty: a trailing
/// point stays part of the literal.
pub proof fn lemma_decimal_literal(a: Seq<u8>, f: Seq<u8>)
    requires
        a.len() > 0,
        forall|k: int| 0 <= k < a.len() ==> is_digit(a[k]),
        forall|k: int| 0 <= k < f.len() ==> is_digit(f[k]),
    ensures
        ({
            let s = a + seq![('.' as u8)] + f;
            scan_at(s, 0) == (Some(Lexeme::Num(s)), s.len() as int) && scan_at(
                s,
                s.len() as int,
            ).0 is None
        }),
{
    let s = a + seq![('.' as u8)] + f;
    assert(s.len() == a.len() + 1 + f.len());
    assert(forall|k: int| 0 <= k < a.len() ==> s[k] == a[k]);
    assert(s[a.len() as int] == ('.' as u8));
    assert(forall|k: int| a.len() + 1 <= k < s.len() ==> s[k] == f[k - a.len() - 1]);
    assert(is_digit(s[0]));
    assert(!is_ws(s[0]));
    assert(ws_end(s, 0) == 0);
    lemma_run_end_is(s, 0, a.len() as int, |b: u8| is_digit(b));
    lemma_run_end_is(s, a.len() as int + 1, s.len() as int, |b: u8| is_digit(b));
    assert(num_end(s, 0) == s.len());
    assert(s.subrange(0, s.len() as int) =~= s);
    assert(ws_end(s, s.len() as int) == s.len());
}

/// Whitespace before a token is skipped without changing what is produced,
/// and never by itself causes a spurious end-of-input signal: whenever a byte
/// that starts a lexeme follows the whitespace, a token is produced.
pub proof fn lemma_whitespace_skipped(s: Seq<u8>, i: int)
    requires
        0 <= i <= s.len(),
    ensures
        scan_at(s, i) == scan_at(s, ws_end(s, i)),
        ({
            let j = ws_end(s, i);
            j < s.len() && starts_token(s[j]) ==> scan_at(s, i).0 is Some
        }),
{
    lemma_run_end(s, i, |b: u8| is_ws(b));
    lemma_run_end_is(s, ws_end(s, i), ws_end(s, i), |b: u8| is_ws(b));
}

/// No emitted token carries interior whitespace where its class forbids it:
/// identifier and numeric text never holds a whitespace byte, and comment
/// text never holds a newline (a comment may well hold spaces).
pub proof fn lemma_no_whitespace_in_token(s: Seq<u8>, i: int)
    requires
        0 <= i <= s.len(),
    ensures
        match scan_at(s, i).0 {
            Some(Lexeme::Num(w)) => forall|k: int| 0 <= k < w.len() ==> !is_ws(w[k]),
            Some(Lexeme::Ident(w)) => forall|k: int| 0 <= k < w.len() ==> !is_ws(w[k]),
            Some(Lexeme::Comment(w)) => forall|k: int| 0 <= k < w.len() ==> w[k] != ('\n' as u8),
            _ => true,
        },
{
    lemma_run_end(s, i, |b: u8| is_ws(b));
    let j = ws_end(s, i);
    if j < s.len() {
        let b = s[j];
        if is_fallback_op(b) || single_lexeme(b) is Some {
        } else if b == ('?' as u8) {
            lemma_run_end(s, j, |x: u8| x != ('\n' as u8));
            assert(forall|k: int|
                0 <= k < s.subrange(j, comment_end(s, j)).len() ==> s.subrange(
                    j,
                    comment_end(s, j),
                )[k] == s[j + k]);
        } else if is_word(b) {
            lemma_run_end(s, j, |x: u8| is_word(x));
            assert(forall|k: int|
                0 <= k < s.subrange(j, word_end(s, j)).len() ==> s.subrange(j, word_end(s, j))[k]
                    == s[j + k]);
        } else if is_digit(b) {
            lemma_run_end(s, j, |x: u8| is_digit(x));
            let d = digits_end(s, j);
            if d < s.len() && s[d] == ('.' as u8) {
                lemma_run_end(s, d + 1, |x: u8| is_digit(x));
            }
            assert(forall|k: int|
                0 <= k < s.subrange(j, num_end(s, j)).len() ==> s.subrange(j, num_end(s, j))[k]
                    == s[j + k]);
        }
    }
}

/// A production step at a position inside the input always moves forward, and
/// never past the end.
pub proof fn lemma_scan_advances(s: Seq<u8>, i: int)
    requires
        0 <= i <= s.len(),
    ensures
        i <= scan_at(s, i).1 <= s.len(),
        i < s.len() ==> i < scan_at(s, i).1,
{
    lemma_run_end(s, i, |b: u8| is_ws(b));
    let j = ws_end(s, i);
    if j < s.len() {
        let b = s[j];
        lemma_run_end(s, j + 1, |x: u8| x != ('\n' as u8));
        lemma_run_end(s, j + 1, |x: u8| is_word(x));
        lemma_run_end(s, j + 1, |x: u8| is_digit(x));
        let d = digits_end(s, j);
        if d < s.len() && s[d] == ('.' as u8) {
            lemma_run_end(s, d + 1, |x: u8| is_digit(x));
        }
    }
}

/// The whole tokenization of `s` from position `i` on: every produced lexeme
/// in order, with unrecognized bytes and trailing whitespace skipped.
pub open spec fn tokens_from(s: Seq<u8>, i: int) -> Seq<Lexeme>
    decreases s.len() - i,
        via tokens_from_decreases
{
    if 0 <= i && i < s.len() {
        let r = scan_at(s, i);
        match r.0 {
            Some(l) => seq![l] + tokens_from(s, r.1),
            None => tokens_from(s, r.1),
        }
    } else {
        Seq::empty()
    }
}

#[via_fn]
proof fn tokens_from_decreases(s: Seq<u8>, i: int) {
    if 0 <= i && i < s.len() {
        lemma_scan_advances(s, i);
    }
}

/// The whole tokenization of an input.
pub open spec fn tokens_of(s: Seq<u8>) -> Seq<Lexeme> {
    tokens_from(s, 0)
}

/// The text of a lexeme: the bytes of the input slice it was produced from.
pub open spec fn lexeme_text(l: Lexeme) -> Seq<u8> {
    match l {
        Lexeme::KwLet => seq![('l' as u8), ('e' as u8), ('t' as u8)],
        Lexeme::KwFn => seq![('f' as u8), ('n' as u8)],
        Lexeme::KwVoid => seq![('v' as u8), ('o' as u8), ('i' as u8), ('d' as u8)],
        Lexeme::KwTrue => seq![('t' as u8), ('r' as u8), ('u' as u8), ('e' as u8)],
        Lexeme::KwFalse => seq![('f' as u8), ('a' as u8), ('l' as u8), ('s' as u8), ('e' as u8)],
        Lexeme::KwIf => seq![('i' as u8), ('f' as u8)],
        Lexeme::KwElse => seq![('e' as u8), ('l' as u8), ('s' as u8), ('e' as u8)],
        Lexeme::KwWhile => seq![('w' as u8), ('h' as u8), ('i' as u8), ('l' as u8), ('e' as u8)],
        Lexeme::KwReturn => seq![
            ('r' as u8),
            ('e' as u8),
            ('t' as u8),
            ('u' as u8),
            ('r' as u8),
            ('n' as u8),
        ],
        Lexeme::KwBreak => seq![('b' as u8), ('r' as u8), ('e' as u8), ('a' as u8), ('k' as u8)],
        Lexeme::Num(w) => w,
        Lexeme::Ident(w) => w,
        Lexeme::OpPlus => seq![('+' as u8)],
        Lexeme::OpMinus => seq![('-' as u8)],
        Lexeme::OpMult => seq![('*' as u8)],
        Lexeme::OpDiv => seq![('/' as u8)],
        Lexeme::OpMod => seq![('%' as u8)],
        Lexeme::OpAnd => seq![('&' as u8)],
        Lexeme::OpOr => seq![('|' as u8)],
        Lexeme::OpNot => seq![('!' as u8)],
        Lexeme::OpGt => seq![('>' as u8)],
        Lexeme::OpGe => seq![('>' as u8), ('=' as u8)],
        Lexeme::OpEq => seq![('=' as u8), ('=' as u8)],
        Lexeme::OpNe => seq![('!' as u8), ('=' as u8)],
        Lexeme::OpLt => seq![('<' as u8)],
        Lexeme::OpLe => seq![('<' as u8), ('=' as u8)],
        Lexeme::SemiColon => seq![(';' as u8)],
        Lexeme::Colon => seq![(':' as u8)],
        Lexeme::Comma => seq![(',' as u8)],
        Lexeme::Assignment => seq![('=' as u8)],
        Lexeme::Lparen => seq![('(' as u8)],
        Lexeme::RParen => seq![(')' as u8)],
        Lexeme::LSquirly => seq![('{' as u8)],
        Lexeme::RSquirly => seq![('}' as u8)],
        Lexeme::LBracket => seq![('[' as u8)],
        Lexeme::RBracket => seq![(']' as u8)],
        Lexeme::Comment(w) => w,
    }
}

/// Whether a lexeme could have been produced by a scan: its text is exactly
/// what one production step captures for its class.
pub open spec fn wf_lexeme(l: Lexeme) -> bool {
    match l {
        Lexeme::Num(w) => w.len() > 0 && is_digit(w[0]) && num_end(w, 0) == w.len(),
        Lexeme::Ident(w) => w.len() > 0 && is_word(w[0]) && word_end(w, 0) == w.len()
            && !is_keyword(w),
        Lexeme::Comment(w) => w.len() > 0 && w[0] == ('?' as u8) && comment_end(w, 0) == w.len(),
        _ => true,
    }
}

/// Whether a byte sequence holds no decimal point.
pub open spec fn no_dot(w: Seq<u8>) -> bool {
    forall|k: int| 0 <= k < w.len() ==> w[k] != ('.' as u8)
}

/// Whether a lexeme's text is a word: a keyword or an identifier.
pub open spec fn is_word_lexeme(l: Lexeme) -> bool {
    match l {
        Lexeme::KwLet => true,
        Lexeme::KwFn => true,
        Lexeme::KwVoid => true,
        Lexeme::KwTrue => true,
        Lexeme::KwFalse => true,
        Lexeme::KwIf => true,
        Lexeme::KwElse => true,
        Lexeme::KwWhile => true,
        Lexeme::KwReturn => true,
        Lexeme::KwBreak => true,
        Lexeme::Ident(_) => true,
        _ => false,
    }
}

/// Whether a scan of `a`'s text still cuts right after it when the byte `c`
/// follows: `c` must not extend `a` into a longer lexeme. A word must not be
/// followed by a word byte, a one-byte form of `> = ! <` not by `=`, and a
/// numeric literal not by a digit, nor by a point unless it already has one.
pub open spec fn boundary_ok(a: Lexeme, c: u8) -> bool {
    &&& ((a is OpGt || a is Assignment || a is OpNot || a is OpLt) ==> c != ('=' as u8))
    &&& (is_word_lexeme(a) ==> !is_word(c))
    &&& (a matches Lexeme::Num(w) ==> !is_digit(c) && (no_dot(w) ==> c != ('.' as u8)))
}

/// The text of a well-formed lexeme is never empty.
pub proof fn lemma_text_nonempty(l: Lexeme)
    requires
        wf_lexeme(l),
    ensures
        lexeme_text(l).len() > 0,
{
}

/// A run boundary is unmoved by bytes before the run's start.
proof fn lemma_run_end_shift(p: Seq<u8>, q: Seq<u8>, i: int, pr: spec_fn(u8) -> bool)
    requires
        0 <= i <= q.len(),
    ensures
        run_end(p + q, p.len() + i, pr) == p.len() + run_end(q, i, pr),
    decreases q.len() - i,
{
    let s = p + q;
    if i < q.len() && pr(q[i]) {
        assert(s[p.len() + i] == q[i]);
        lemma_run_end_shift(p, q, i + 1, pr);
    }
}

/// Scanning is local: a production step at a position reads nothing before
/// it, so bytes prepended to the input shift the step without changing it.
proof fn lemma_scan_at_shift(p: Seq<u8>, q: Seq<u8>, i: int)
    requires
        0 <= i <= q.len(),
    ensures
        scan_at(p + q, p.len() + i).0 == scan_at(q, i).0,
        scan_at(p + q, p.len() + i).1 == p.len() + scan_at(q, i).1,
{
    let s = p + q;
    lemma_run_end_shift(p, q, i, |b: u8| is_ws(b));
    let j = ws_end(q, i);
    lemma_run_end(q, i, |b: u8| is_ws(b));
    assert(ws_end(s, p.len() + i) == p.len() + j);
    if j < q.len() {
        let b = q[j as int];
        assert(s[p.len() + j] == b);
        if is_fallback_op(b) {
            if j + 1 < q.len() {
                assert(s[p.len() + j + 1] == q[j + 1]);
            }
        } else if single_lexeme(b) is Some {
        } else if b == ('?' as u8) {
            lemma_run_end_shift(p, q, j, |x: u8| x != ('\n' as u8));
            lemma_run_end(q, j, |x: u8| x != ('\n' as u8));
            let e = comment_end(q, j);
            assert(s.subrange(p.len() + j, p.len() + e) =~= q.subrange(j, e));
        } else if is_word(b) {
            lemma_run_end_shift(p, q, j, |x: u8| is_word(x));
            lemma_run_end(q, j, |x: u8| is_word(x));
            let e = word_end(q, j);
            assert(s.subrange(p.len() + j, p.len() + e) =~= q.subrange(j, e));
        } else if is_digit(b) {
            lemma_run_end_shift(p, q, j, |x: u8| is_digit(x));
            lemma_run_end(q, j, |x: u8| is_digit(x));
            let d = digits_end(q, j);
            assert(digits_end(s, p.len() + j) == p.len() + d);
            if d < q.len() {
                assert(s[p.len() + d] == q[d]);
            }
            if d < q.len() && q[d] == ('.' as u8) {
                lemma_run_end_shift(p, q, d + 1, |x: u8| is_digit(x));
                lemma_run_end(q, d + 1, |x: u8| is_digit(x));
            }
            let e = num_end(q, j);
            assert(num_end(s, p.len() + j) == p.len() + e);
            lemma_scan_advances(q, i);
            assert(s.subrange(p.len() + j, p.len() + e) =~= q.subrange(j, e));
        }
    }
}

/// The whole tokenization is local in the same way.
proof fn lemma_tokens_from_shift(p: Seq<u8>, q: Seq<u8>, i: int)
    requires
        0 <= i <= q.len(),
    ensures
        tokens_from(p + q, p.len() + i) == tokens_from(q, i),
    decreases q.len() - i,
{
    lemma_scan_at_shift(p, q, i);
    if i < q.len() {
        lemma_scan_advances(q, i);
        lemma_tokens_from_shift(p, q, scan_at(q, i).1);
    }
}

/// One step over a well-formed non-comment lexeme's text followed by
/// anything that respects its boundary produces exactly that lexeme and
/// stops right after its text.
pub proof fn lemma_scan_exact(l: Lexeme, rest: Seq<u8>)
    requires
        wf_lexeme(l),
        !(l is Comment),
        rest.len() > 0 ==> boundary_ok(l, rest[0]),
    ensures
        scan_at(lexeme_text(l) + rest, 0).0 == Some(l),
        scan_at(lexeme_text(l) + rest, 0).1 == lexeme_text(l).len(),
{
    let t = lexeme_text(l);
    let s = t + rest;
    assert(forall|k: int| 0 <= k < t.len() ==> s[k] == t[k]);
    assert(forall|k: int| t.len() <= k < s.len() ==> s[k] == rest[k - t.len()]);
    assert(!is_ws(s[0]));
    assert(ws_end(s, 0) == 0);
    match l {
        Lexeme::Num(w) => {
            lemma_run_end(w, 0, |x: u8| is_digit(x));
            let dw = digits_end(w, 0);
            if dw == w.len() {
                // no decimal point: the whole text is the digit run
                lemma_run_end_is(s, 0, w.len() as int, |x: u8| is_digit(x));
                assert(no_dot(w));
                assert(num_end(s, 0) == w.len());
            } else {
                assert(w[dw] == ('.' as u8));
                lemma_run_end(w, dw + 1, |x: u8| is_digit(x));
                assert(digits_end(w, dw + 1) == w.len());
                lemma_run_end_is(s, 0, dw, |x: u8| is_digit(x));
                lemma_run_end_is(s, dw + 1, w.len() as int, |x: u8| is_digit(x));
                assert(num_end(s, 0) == w.len());
            }
            assert(s.subrange(0, w.len() as int) =~= w);
        },
        Lexeme::Ident(w) => {
            lemma_run_end(w, 0, |x: u8| is_word(x));
            lemma_run_end_is(s, 0, w.len() as int, |x: u8| is_word(x));
            assert(s.subrange(0, w.len() as int) =~= w);
        },
        Lexeme::OpGe => {
            assert(s[1] == ('=' as u8));
        },
        Lexeme::OpEq => {
            assert(s[1] == ('=' as u8));
        },
        Lexeme::OpNe => {
            assert(s[1] == ('=' as u8));
        },
        Lexeme::OpLe => {
            assert(s[1] == ('=' as u8));
        },
        Lexeme::Comment(w) => {
        },
        _ => {
            if is_word_lexeme(l) {
                // a keyword: all its bytes are word bytes, nothing after extends it
                lemma_run_end_is(s, 0, t.len() as int, |x: u8| is_word(x));
                assert(s.subrange(0, t.len() as int) =~= t);
            }
        },
    }
}

/// The texts of a sequence of lexemes, concatenated with nothing between.
pub open spec fn concat_texts(ts: Seq<Lexeme>) -> Seq<u8>
    decreases ts.len(),
{
    if ts.len() == 0 {
        Seq::empty()
    } else {
        lexeme_text(ts[0]) + concat_texts(ts.drop_first())
    }
}

/// Round trip: concatenating the texts of well-formed, comment-free lexemes
/// whose neighbours respect each other's boundaries, and scanning the result,
/// reproduces exactly the same lexeme sequence. (Adjacent words, adjacent
/// numeric literals, and a one-byte form of `> = ! <` before a `=` would
/// merge, so such neighbours are excluded, as are comments, whose text only
/// a newline can end.)
pub proof fn lemma_round_trip(ts: Seq<Lexeme>)
    requires
        forall|k: int| 0 <= k < ts.len() ==> wf_lexeme(#[trigger] ts[k]) && !(ts[k] is Comment),
        forall|k: int|
            0 <= k < ts.len() - 1 ==> boundary_ok(#[trigger] ts[k], lexeme_text(ts[k + 1])[0]),
    ensures
        tokens_of(concat_texts(ts)) == ts,
    decreases ts.len(),
{
    if ts.len() == 0 {
        assert(tokens_from(Seq::<u8>::empty(), 0) =~= Seq::<Lexeme>::empty());
        assert(tokens_of(concat_texts(ts)) =~= ts);
    } else {
        let t0 = ts[0];
        let rest = ts.drop_first();
        let p = lexeme_text(t0);
        let q = concat_texts(rest);
        let s = concat_texts(ts);
        assert(s == p + q);
        lemma_text_nonempty(t0);
        if rest.len() > 0 {
            assert(rest[0] == ts[1]);
            lemma_text_nonempty(ts[1]);
            assert(q == lexeme_text(rest[0]) + concat_texts(rest.drop_first()));
            assert(q[0] == lexeme_text(ts[1])[0]);
            assert(boundary_ok(t0, q[0]));
        }
        lemma_scan_exact(t0, q);
        assert(scan_at(s, 0) == (Some(t0), p.len() as int));
        lemma_tokens_from_shift(p, q, 0);
        assert(tokens_from(s, p.len() as int) == tokens_from(q, 0));
        assert(forall|k: int|
            0 <= k < rest.len() ==> wf_lexeme(#[trigger] rest[k]) && !(rest[k] is Comment)) by {
            assert(forall|k: int| 0 <= k < rest.len() ==> rest[k] == ts[k + 1]);
        }
        assert(forall|k: int|
            0 <= k < rest.len() - 1 ==> boundary_ok(
                #[trigger] rest[k],
                lexeme_text(rest[k + 1])[0],
            )) by {
            assert(forall|k: int| 0 <= k < rest.len() ==> rest[k] == ts[k + 1]);
        }
        lemma_round_trip(rest);
        assert(tokens_of(s) == seq![t0] + rest);
        assert(seq![t0] + rest =~= ts);
    }
}

} // verus!

