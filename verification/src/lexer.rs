//! The tokenizer: a character-at-a-time state machine that turns chunked
//! text into JSON tokens with exact source positions.
//!
//! The whole scanner is modelled by the spec-level state [`LexSt`] and the
//! transition function [`lex_step`]; feeding a chunk is a fold of
//! `lex_step` over its characters ([`lex_scan`]), and end of input is
//! [`lex_finish`].  The executable [`Tokenizer`] refines that model
//! step for step, which is what makes the token stream provably
//! independent of how the input was chunked.

use vstd::prelude::*;

verus! {

/// Source position of a token.  `line_number` and `char_position` are
/// 1-based; `char_position` is the column at the end of the token.
/// `start` is the 0-based absolute offset of the token's first character
/// in the logical input, and `length` its width in code points.
#[derive(PartialEq, Eq, Debug, Clone, Copy)]
pub struct TokenInfo {
    pub line_number: usize,
    pub char_position: usize,
    pub start: usize,
    pub length: usize,
}

/// A lexical or syntactic failure: a human-readable message and, for an
/// unrecognized keyword, the fragment of input accumulated so far.
#[derive(PartialEq, Debug, Clone)]
pub struct ErrorInfo {
    pub message: String,
    pub fragment: Option<String>,
}

/// One lexical unit.  String and integer tokens carry their raw scanned
/// text: a string literal keeps its delimiting quotes and any escape
/// sequences verbatim, an integer keeps its digit run with no sign.
#[derive(PartialEq, Debug, Clone)]
pub enum MaybeToken {
    FalseLiteral,
    TrueLiteral,
    NullLiteral,
    StringLiteral(String),
    Integer(String),
    MinusSign,
    PlusSign,
    Exponent,
    Dot,
    LeftCurly,
    LeftBracket,
    RightCurly,
    RightBracket,
    Comma,
    Colon,
    Error(ErrorInfo),
}

/// Which literal keyword the scanner has committed to.
#[derive(PartialEq, Eq, Debug, Clone, Copy)]
pub enum KeywordKind {
    KwFalse,
    KwTrue,
    KwNull,
}

/// Mathematical value of a [`TokenInfo`].
#[verifier::ext_equal]
pub ghost struct PosSt {
    pub line: nat,
    pub col: nat,
    pub start: nat,
    pub length: nat,
}

/// Mathematical value of an [`ErrorInfo`].
#[verifier::ext_equal]
pub ghost struct ErrSt {
    pub message: Seq<char>,
    pub fragment: Option<Seq<char>>,
}

/// Mathematical value of a [`MaybeToken`].
#[verifier::ext_equal]
pub ghost enum TokenSt {
    False,
    True,
    Null,
    Text(Seq<char>),
    Digits(Seq<char>),
    Minus,
    Plus,
    Exp,
    Dot,
    LCurly,
    LBracket,
    RCurly,
    RBracket,
    Comma,
    Colon,
    ErrTok(ErrSt),
}

impl View for TokenInfo {
    type V = PosSt;

    open spec fn view(&self) -> PosSt {
        PosSt {
            line: self.line_number as nat,
            col: self.char_position as nat,
            start: self.start as nat,
            length: self.length as nat,
        }
    }
}

impl View for ErrorInfo {
    type V = ErrSt;

    open spec fn view(&self) -> ErrSt {
        ErrSt {
            message: self.message@,
            fragment: match self.fragment {
                Option::Some(f) => Option::Some(f@),
                Option::None => Option::None,
            },
        }
    }
}

impl View for MaybeToken {
    type V = TokenSt;

    open spec fn view(&self) -> TokenSt {
        match self {
            MaybeToken::FalseLiteral => TokenSt::False,
            MaybeToken::TrueLiteral => TokenSt::True,
            MaybeToken::NullLiteral => TokenSt::Null,
            MaybeToken::StringLiteral(s) => TokenSt::Text(s@),
            MaybeToken::Integer(s) => TokenSt::Digits(s@),
            MaybeToken::MinusSign => TokenSt::Minus,
            MaybeToken::PlusSign => TokenSt::Plus,
            MaybeToken::Exponent => TokenSt::Exp,
            MaybeToken::Dot => TokenSt::Dot,
            MaybeToken::LeftCurly => TokenSt::LCurly,
            MaybeToken::LeftBracket => TokenSt::LBracket,
            MaybeToken::RightCurly => TokenSt::RCurly,
            MaybeToken::RightBracket => TokenSt::RBracket,
            MaybeToken::Comma => TokenSt::Comma,
            MaybeToken::Colon => TokenSt::Colon,
            MaybeToken::Error(e) => TokenSt::ErrTok(e@),
        }
    }
}

/// The token stream as a mathematical sequence of (token, position) pairs.
pub open spec fn toks_view(s: Seq<(MaybeToken, TokenInfo)>) -> Seq<(TokenSt, PosSt)> {
    s.map(|i: int, p: (MaybeToken, TokenInfo)| (p.0@, p.1@))
}

pub broadcast proof fn lemma_toks_view_push(s: Seq<(MaybeToken, TokenInfo)>, x: (MaybeToken, TokenInfo))
    ensures
        #[trigger] toks_view(s.push(x)) =~= toks_view(s).push((x.0@, x.1@)),
{
}

/// The token the scanner is in the middle of, if any.  A keyword records
/// how many of its characters have been matched; a string records its raw
/// text so far including the opening quote; an integer records its digits.
#[verifier::ext_equal]
pub ghost enum BuildSt {
    Idle,
    Keyword(KeywordKind, nat),
    Text(Seq<char>),
    Digits(Seq<char>),
}

/// The full state of the scanner: the position cursor, the token being
/// built, the escape bookkeeping, the tokens emitted so far, and whether
/// scanning has stopped on a lexical error.
#[verifier::ext_equal]
pub ghost struct LexSt {
    pub line: nat,
    pub col: nat,
    pub start: nat,
    pub length: nat,
    pub building: BuildSt,
    pub pending_cr: bool,
    pub expect_escape: bool,
    pub pending_hex: nat,
    pub stopped: bool,
    pub seen: nat,
    pub out: Seq<(TokenSt, PosSt)>,
}

// ---------------------------------------------------------------------------
// Character classes and keyword tables
// ---------------------------------------------------------------------------

pub open spec fn is_carriage_return_sp(c: char) -> bool {
    c == '\r'
}

pub open spec fn is_linefeed_sp(c: char) -> bool {
    c == '\n'
}

pub open spec fn is_double_quote_sp(c: char) -> bool {
    c == '"'
}

pub open spec fn is_backslash_sp(c: char) -> bool {
    c == '\\'
}

pub open spec fn is_digit_sp(c: char) -> bool {
    c == '0' || c == '1' || c == '2' || c == '3' || c == '4' || c == '5' || c == '6' || c == '7'
        || c == '8' || c == '9'
}

pub open spec fn is_hex_digit_sp(c: char) -> bool {
    is_digit_sp(c) || c == 'a' || c == 'A' || c == 'b' || c == 'B' || c == 'c' || c == 'C'
        || c == 'd' || c == 'D' || c == 'e' || c == 'E' || c == 'f' || c == 'F'
}

/// The characters that may follow a backslash directly (everything legal
/// except `u`, which opens a four-digit hex escape).
pub open spec fn is_plain_escape_sp(c: char) -> bool {
    c == '"' || c == 'b' || c == '/' || c == '\\' || c == 'f' || c == 'n' || c == 'r' || c == 't'
}

pub fn is_carriage_return(c: char) -> (r: bool)
    ensures
        r == is_carriage_return_sp(c),
{
    c == '\r'
}

pub fn is_linefeed(c: char) -> (r: bool)
    ensures
        r == is_linefeed_sp(c),
{
    c == '\n'
}

pub fn is_double_quote(c: char) -> (r: bool)
    ensures
        r == is_double_quote_sp(c),
{
    c == '"'
}

pub fn is_backslash(c: char) -> (r: bool)
    ensures
        r == is_backslash_sp(c),
{
    c == '\\'
}

pub fn is_digit(c: char) -> (r: bool)
    ensures
        r == is_digit_sp(c),
{
    c == '0'
        || c == '1'
        || c == '2'
        || c == '3'
        || c == '4'
        || c == '5'
        || c == '6'
        || c == '7'
        || c == '8'
        || c == '9'
}

pub open spec fn kw_full(k: KeywordKind) -> Seq<char> {
    match k {
        KeywordKind::KwFalse => seq!['f', 'a', 'l', 's', 'e'],
        KeywordKind::KwTrue => seq!['t', 'r', 'u', 'e'],
        KeywordKind::KwNull => seq!['n', 'u', 'l', 'l'],
    }
}

pub open spec fn kw_len(k: KeywordKind) -> nat {
    kw_full(k).len()
}

pub open spec fn kw_tok_sp(k: KeywordKind) -> TokenSt {
    match k {
        KeywordKind::KwFalse => TokenSt::False,
        KeywordKind::KwTrue => TokenSt::True,
        KeywordKind::KwNull => TokenSt::Null,
    }
}

// ---------------------------------------------------------------------------
// Error messages
// ---------------------------------------------------------------------------

pub open spec fn msg_bad_hex(c: char) -> Seq<char> {
    "The character '"@ + seq![c]
        + "' is not valid in this context. Only hexadecimal digits (0-9, a-f, A-F) may follow \\u"@
}

pub open spec fn msg_bad_escape(c: char) -> Seq<char> {
    "Unsupported escaped character '"@ + seq![c]
        + "'. Only 'b', 'f', 'n', 'r', 't', 'u<4-digit hex>', '\\', or '\"' are allowed"@
}

pub open spec fn msg_multiline() -> Seq<char> {
    "Multi-line strings are not allowed"@
}

pub open spec fn msg_unrecognized() -> Seq<char> {
    "Unrecognized token"@
}

pub open spec fn msg_unexpected_char(c: char) -> Seq<char> {
    "Encountered an unexpected character '"@ + seq![c] + "'"@
}

pub open spec fn msg_empty_source() -> Seq<char> {
    "Source cannot be empty"@
}

// ---------------------------------------------------------------------------
// The scanner model
// ---------------------------------------------------------------------------

/// The state before any character has been seen.
pub open spec fn lex_init() -> LexSt {
    LexSt {
        line: 1,
        col: 1,
        start: 0,
        length: 0,
        building: BuildSt::Idle,
        pending_cr: false,
        expect_escape: false,
        pending_hex: 0,
        stopped: false,
        seen: 0,
        out: Seq::empty(),
    }
}

/// The position attached to a token or error emitted right now.
pub open spec fn cur_pos(st: LexSt) -> PosSt {
    PosSt { line: st.line, col: st.col, start: st.start, length: st.length }
}

/// Emit an error token at the current position and stop scanning.
pub open spec fn lex_fail(st: LexSt, message: Seq<char>, fragment: Option<Seq<char>>) -> LexSt {
    LexSt {
        building: BuildSt::Idle,
        stopped: true,
        out: st.out.push((TokenSt::ErrTok(ErrSt { message, fragment }), cur_pos(st))),
        ..st
    }
}

/// One character inside a string literal.
pub open spec fn lex_step_text(st: LexSt, s: Seq<char>, c: char) -> LexSt {
    if st.pending_hex > 0 {
        if is_hex_digit_sp(c) {
            LexSt {
                building: BuildSt::Text(s.push(c)),
                length: st.length + 1,
                col: st.col + 1,
                pending_hex: (st.pending_hex - 1) as nat,
                ..st
            }
        } else {
            lex_fail(st, msg_bad_hex(c), Option::None)
        }
    } else if st.expect_escape {
        if is_plain_escape_sp(c) {
            LexSt {
                building: BuildSt::Text(s.push(c)),
                length: st.length + 1,
                col: st.col + 1,
                expect_escape: false,
                ..st
            }
        } else if c == 'u' {
            LexSt {
                building: BuildSt::Text(s.push(c)),
                length: st.length + 1,
                col: st.col + 1,
                expect_escape: false,
                pending_hex: 4,
                ..st
            }
        } else {
            LexSt { expect_escape: false, ..lex_fail(st, msg_bad_escape(c), Option::None) }
        }
    } else if is_double_quote_sp(c) {
        LexSt {
            building: BuildSt::Idle,
            length: 0,
            col: st.col + 1,
            start: st.start + st.length + 1,
            out: st.out.push(
                (
                    TokenSt::Text(s.push(c)),
                    PosSt {
                        line: st.line,
                        col: st.col + 1,
                        start: st.start,
                        length: st.length + 1,
                    },
                ),
            ),
            ..st
        }
    } else if is_linefeed_sp(c) || is_carriage_return_sp(c) {
        lex_fail(st, msg_multiline(), Option::None)
    } else if is_backslash_sp(c) {
        LexSt {
            building: BuildSt::Text(s.push(c)),
            length: st.length + 1,
            col: st.col + 1,
            expect_escape: true,
            ..st
        }
    } else {
        LexSt { building: BuildSt::Text(s.push(c)), length: st.length + 1, col: st.col + 1, ..st }
    }
}

/// One character while matching the rest of `false`, `true` or `null`,
/// `m` characters having been matched already.
pub open spec fn lex_step_keyword(st: LexSt, k: KeywordKind, m: nat, c: char) -> LexSt {
    if m < kw_len(k) && c == kw_full(k)[m as int] {
        if m + 1 == kw_len(k) {
            LexSt {
                building: BuildSt::Idle,
                col: st.col + 1,
                start: st.start + st.length,
                length: 0,
                out: st.out.push((kw_tok_sp(k), cur_pos(st))),
                ..st
            }
        } else {
            LexSt { building: BuildSt::Keyword(k, m + 1), col: st.col + 1, ..st }
        }
    } else {
        lex_fail(st, msg_unrecognized(), Option::Some(kw_full(k).take(m as int)))
    }
}

/// The token started by `c`, when no token is in progress.
pub open spec fn simple_tok_sp(c: char) -> Option<TokenSt> {
    if c == '-' {
        Option::Some(TokenSt::Minus)
    } else if c == '+' {
        Option::Some(TokenSt::Plus)
    } else if c == '{' {
        Option::Some(TokenSt::LCurly)
    } else if c == '}' {
        Option::Some(TokenSt::RCurly)
    } else if c == '[' {
        Option::Some(TokenSt::LBracket)
    } else if c == ']' {
        Option::Some(TokenSt::RBracket)
    } else if c == ',' {
        Option::Some(TokenSt::Comma)
    } else if c == 'e' || c == 'E' {
        Option::Some(TokenSt::Exp)
    } else if c == '.' {
        Option::Some(TokenSt::Dot)
    } else if c == ':' {
        Option::Some(TokenSt::Colon)
    } else {
        Option::None
    }
}

/// One character with no token in progress and no pending carriage return.
pub open spec fn lex_step_idle(st: LexSt, c: char) -> LexSt {
    if c == 'f' {
        LexSt {
            building: BuildSt::Keyword(KeywordKind::KwFalse, 1),
            length: 5,
            col: st.col + 1,
            pending_cr: false,
            ..st
        }
    } else if c == 't' {
        LexSt {
            building: BuildSt::Keyword(KeywordKind::KwTrue, 1),
            length: 4,
            col: st.col + 1,
            pending_cr: false,
            ..st
        }
    } else if c == 'n' {
        LexSt {
            building: BuildSt::Keyword(KeywordKind::KwNull, 1),
            length: 4,
            col: st.col + 1,
            pending_cr: false,
            ..st
        }
    } else if is_double_quote_sp(c) {
        LexSt {
            building: BuildSt::Text(seq!['"']),
            length: 1,
            col: st.col + 1,
            pending_cr: false,
            ..st
        }
    } else if is_carriage_return_sp(c) {
        LexSt { pending_cr: true, line: st.line + 1, col: 1, start: st.start + 1, ..st }
    } else if is_linefeed_sp(c) {
        LexSt { line: st.line + 1, col: 1, start: st.start + 1, pending_cr: false, ..st }
    } else if c == ' ' || c == '\t' {
        LexSt { col: st.col + 1, start: st.start + 1, pending_cr: false, ..st }
    } else if simple_tok_sp(c) is Some {
        LexSt {
            col: st.col + 1,
            start: st.start + 1,
            length: 0,
            pending_cr: false,
            out: st.out.push(
                (
                    simple_tok_sp(c)->Some_0,
                    PosSt { line: st.line, col: st.col + 1, start: st.start, length: 1 },
                ),
            ),
            ..st
        }
    } else if is_digit_sp(c) {
        LexSt {
            building: BuildSt::Digits(seq![c]),
            length: 1,
            col: st.col + 1,
            pending_cr: false,
            ..st
        }
    } else {
        lex_fail(st, msg_unexpected_char(c), Option::None)
    }
}

/// Emit the integer whose digit run just ended.
pub open spec fn lex_emit_digits(st: LexSt, n: Seq<char>) -> LexSt {
    LexSt {
        building: BuildSt::Idle,
        start: st.start + st.length,
        length: 0,
        out: st.out.push((TokenSt::Digits(n), cur_pos(st))),
        ..st
    }
}

/// The scanner's transition on one character of input.  `seen` counts the
/// characters consumed before the scanner stopped; everything else is the
/// work of [`lex_step_core`].
pub open spec fn lex_step(st: LexSt, c: char) -> LexSt {
    if st.stopped {
        st
    } else {
        LexSt { seen: st.seen + 1, ..lex_step_core(st, c) }
    }
}

/// The scanner's transition on one character, apart from the `seen` count.
pub open spec fn lex_step_core(st: LexSt, c: char) -> LexSt {
    match st.building {
            BuildSt::Text(s) => lex_step_text(st, s, c),
            BuildSt::Digits(n) => if is_digit_sp(c) {
                LexSt {
                    building: BuildSt::Digits(n.push(c)),
                    length: st.length + 1,
                    col: st.col + 1,
                    ..st
                }
            } else {
                lex_step_idle(lex_emit_digits(st, n), c)
            },
            BuildSt::Keyword(k, m) => lex_step_keyword(st, k, m, c),
            BuildSt::Idle => if st.pending_cr {
                if is_linefeed_sp(c) {
                    LexSt { pending_cr: false, start: st.start + 1, ..st }
                } else {
                    lex_step_idle(LexSt { pending_cr: false, ..st }, c)
                }
            } else {
                lex_step_idle(st, c)
            },
    }
}

/// Folding the transition over a whole sequence of characters.
pub open spec fn lex_scan(st: LexSt, s: Seq<char>) -> LexSt
    decreases s.len(),
{
    if s.len() == 0 {
        st
    } else {
        lex_scan(lex_step(st, s[0]), s.drop_first())
    }
}

/// End of input: a pending digit run is still a complete integer; an
/// input on which the cursor never moved is the empty-source error.
pub open spec fn lex_finish(st: LexSt) -> LexSt {
    if st.stopped {
        st
    } else if st.building is Digits {
        LexSt {
            building: BuildSt::Idle,
            stopped: true,
            out: st.out.push((TokenSt::Digits(st.building->Digits_0), cur_pos(st))),
            ..st
        }
    } else if st.line == 1 && st.col == 1 {
        LexSt {
            stopped: true,
            out: st.out.push(
                (
                    TokenSt::ErrTok(ErrSt { message: msg_empty_source(), fragment: Option::None }),
                    cur_pos(st),
                ),
            ),
            ..st
        }
    } else {
        LexSt { stopped: true, ..st }
    }
}

// ---------------------------------------------------------------------------
// Well-formedness of scanner states
// ---------------------------------------------------------------------------

/// How many characters of the committed keyword are still unmatched.
pub open spec fn kw_remaining(st: LexSt) -> nat {
    match st.building {
        BuildSt::Keyword(k, m) => (kw_len(k) - m) as nat,
        _ => 0,
    }
}

/// The number of characters the scanner has consumed: the cursor's
/// absolute offset plus the width of the token in progress, minus the
/// keyword characters it has committed to but not yet seen.
pub open spec fn lex_consumed(st: LexSt) -> int {
    st.start + st.length - kw_remaining(st)
}

/// Bounds on an emitted position, against the count of characters seen:
/// they keep every position's arithmetic inside `usize` downstream.
pub open spec fn pos_wf(p: PosSt, seen: int) -> bool {
    &&& p.line + p.col <= seen + 2
    &&& p.start + p.length <= seen + 4
}

/// Well-formedness of an emitted token: its position is bounded and a
/// string literal always carries both its quotes.
pub open spec fn tok_wf(t: (TokenSt, PosSt), seen: int) -> bool {
    &&& t.0 is Text ==> t.0->Text_0.len() >= 2
    &&& pos_wf(t.1, seen)
}

/// The scanner invariant: position counters are bounded by the number of
/// characters seen, the token in progress is consistent with the width
/// counter, and every emitted token is well formed.
pub open spec fn lex_wf(st: LexSt) -> bool {
    &&& (forall|i: int| 0 <= i < st.out.len() ==> tok_wf(#[trigger] st.out[i], st.seen as int))
    &&& !st.stopped ==> {
        &&& st.line >= 1 && st.col >= 1
        &&& st.line + st.col <= lex_consumed(st) + 2
        &&& lex_consumed(st) <= st.seen
        &&& match st.building {
            BuildSt::Idle => st.length == 0,
            BuildSt::Keyword(k, m) => 1 <= m < kw_len(k) && st.length == kw_len(k),
            BuildSt::Text(s) => st.length == s.len() && s.len() >= 1,
            BuildSt::Digits(n) => st.length == n.len() && n.len() >= 1,
        }
        &&& st.building is Text ==> st.building->Text_0[0] == '"'
    }
}

/// One step preserves the invariant and consumes at most one character.
pub proof fn lemma_step_wf(st: LexSt, c: char)
    requires
        lex_wf(st),
    ensures
        lex_wf(lex_step(st, c)),
        st.seen <= lex_step(st, c).seen <= st.seen + 1,
        st.out.len() <= lex_step(st, c).out.len(),
{
    let st2 = lex_step(st, c);
    assert forall|i: int| 0 <= i < st2.out.len() implies tok_wf(#[trigger] st2.out[i], st2.seen as int) by {
        if i < st.out.len() {
            assert(tok_wf(st.out[i], st.seen as int));
            assert(st2.out[i] == st.out[i]);
        }
    }
}

/// Scanning a sequence preserves the invariant and consumes at most its
/// length.
pub proof fn lemma_scan_wf(st: LexSt, s: Seq<char>)
    requires
        lex_wf(st),
    ensures
        lex_wf(lex_scan(st, s)),
        st.seen <= lex_scan(st, s).seen <= st.seen + s.len(),
    decreases s.len(),
{
    if s.len() > 0 {
        lemma_step_wf(st, s[0]);
        lemma_scan_wf(lex_step(st, s[0]), s.drop_first());
    }
}

/// Finishing preserves the invariant and consumes nothing.
pub proof fn lemma_finish_wf(st: LexSt)
    requires
        lex_wf(st),
    ensures
        lex_wf(lex_finish(st)),
        lex_finish(st).seen == st.seen,
{
    let st2 = lex_finish(st);
    assert forall|i: int| 0 <= i < st2.out.len() implies tok_wf(#[trigger] st2.out[i], st2.seen as int) by {
        if i < st.out.len() {
            assert(tok_wf(st.out[i], st.seen as int));
            assert(st2.out[i] == st.out[i]);
        }
    }
}

// ---------------------------------------------------------------------------
// Emitted offsets never go backwards
// ---------------------------------------------------------------------------

/// The absolute `start` offsets of successive emitted tokens are
/// monotonically non-decreasing.
pub open spec fn starts_ordered(out: Seq<(TokenSt, PosSt)>) -> bool {
    forall|i: int| 0 <= i && i + 1 < out.len() ==> (#[trigger] out[i].1).start <= out[i + 1].1.start
}

/// The offsets emitted so far are ordered and never ahead of the cursor.
pub open spec fn lex_starts_wf(st: LexSt) -> bool {
    &&& starts_ordered(st.out)
    &&& (st.out.len() > 0 && !st.stopped ==> st.out.last().1.start <= st.start)
}

proof fn lemma_step_starts(st: LexSt, c: char)
    requires
        lex_starts_wf(st),
    ensures
        lex_starts_wf(lex_step(st, c)),
{
    let st2 = lex_step(st, c);
    assert forall|i: int| 0 <= i && i + 1 < st2.out.len() implies (#[trigger] st2.out[i].1).start
        <= st2.out[i + 1].1.start by {
        if i + 1 < st.out.len() {
            assert(st.out[i].1.start <= st.out[i + 1].1.start);
        } else if st.out.len() > 0 {
            assert(st.out.last().1.start == st2.out[st.out.len() - 1].1.start);
        }
    }
}

proof fn lemma_scan_starts(st: LexSt, s: Seq<char>)
    requires
        lex_starts_wf(st),
    ensures
        lex_starts_wf(lex_scan(st, s)),
    decreases s.len(),
{
    if s.len() > 0 {
        lemma_step_starts(st, s[0]);
        lemma_scan_starts(lex_step(st, s[0]), s.drop_first());
    }
}

proof fn lemma_finish_starts(st: LexSt)
    requires
        lex_starts_wf(st),
    ensures
        starts_ordered(lex_finish(st).out),
{
    let st2 = lex_finish(st);
    assert forall|i: int| 0 <= i && i + 1 < st2.out.len() implies (#[trigger] st2.out[i].1).start
        <= st2.out[i + 1].1.start by {
        if i + 1 < st.out.len() {
            assert(st.out[i].1.start <= st.out[i + 1].1.start);
        } else if st.out.len() > 0 {
            assert(st.out.last().1.start == st2.out[st.out.len() - 1].1.start);
        }
    }
}

/// Across any whole scan, the `start` offset of each emitted token is
/// monotonically non-decreasing from one token to the next.
pub proof fn lemma_token_starts_monotone(chunks: Seq<Seq<char>>)
    ensures
        starts_ordered(lex_chunks_spec(chunks)),
{
    lemma_scan_starts(lex_init(), concat_chunks(chunks));
    lemma_finish_starts(lex_scan(lex_init(), concat_chunks(chunks)));
}

// ---------------------------------------------------------------------------
// Scanning is a fold: chunk boundaries cannot matter
// ---------------------------------------------------------------------------

/// The concatenation of a sequence of chunks.
pub open spec fn concat_chunks(chunks: Seq<Seq<char>>) -> Seq<char>
    decreases chunks.len(),
{
    if chunks.len() == 0 {
        Seq::empty()
    } else {
        chunks[0] + concat_chunks(chunks.drop_first())
    }
}

/// The machine limit on input size: all position arithmetic must stay
/// inside `usize`.
pub open spec fn chunks_ok(chunks: Seq<Seq<char>>) -> bool {
    concat_chunks(chunks).len() + 7 <= usize::MAX
}

/// The token stream of a chunked input: the scan of the concatenated
/// text, finished.
pub open spec fn lex_chunks_spec(chunks: Seq<Seq<char>>) -> Seq<(TokenSt, PosSt)> {
    lex_finish(lex_scan(lex_init(), concat_chunks(chunks))).out
}

/// A single chunk concatenates to itself.
pub proof fn lemma_concat_chunks_one(s: Seq<char>)
    ensures
        concat_chunks(seq![s]) == s,
{
    assert(seq![s].len() == 1);
    assert(seq![s][0] == s);
    assert(seq![s].drop_first() =~= Seq::<Seq<char>>::empty());
    assert(concat_chunks(seq![s]) == s + concat_chunks(Seq::<Seq<char>>::empty()));
    assert(s + Seq::<char>::empty() =~= s);
}

pub proof fn lemma_scan_append(st: LexSt, a: Seq<char>, b: Seq<char>)
    ensures
        lex_scan(st, a + b) == lex_scan(lex_scan(st, a), b),
    decreases a.len(),
{
    if a.len() == 0 {
        assert(a + b =~= b);
    } else {
        assert((a + b)[0] == a[0]);
        assert((a + b).drop_first() =~= a.drop_first() + b);
        lemma_scan_append(lex_step(st, a[0]), a.drop_first(), b);
    }
}

pub proof fn lemma_scan_snoc(st: LexSt, s: Seq<char>, c: char)
    ensures
        lex_scan(st, s.push(c)) == lex_step(lex_scan(st, s), c),
{
    assert(s.push(c) =~= s + seq![c]);
    lemma_scan_append(st, s, seq![c]);
    assert(lex_scan(lex_step(lex_scan(st, s), c), seq![c].drop_first()) == lex_step(
        lex_scan(st, s),
        c,
    ));
}

pub proof fn lemma_concat_chunks_snoc(chunks: Seq<Seq<char>>, i: int)
    requires
        0 <= i < chunks.len(),
    ensures
        concat_chunks(chunks.take(i + 1)) == concat_chunks(chunks.take(i)) + chunks[i],
    decreases i,
{
    if i == 0 {
        assert(chunks.take(1) =~= seq![chunks[0]]);
        assert(seq![chunks[0]].drop_first() =~= Seq::<Seq<char>>::empty());
        assert(seq![chunks[0]][0] == chunks[0]);
        assert(concat_chunks(seq![chunks[0]]) == chunks[0] + concat_chunks(Seq::<Seq<char>>::empty()));
        assert(chunks[0] + Seq::<char>::empty() =~= chunks[0]);
        assert(concat_chunks(chunks.take(0)) =~= Seq::<char>::empty());
        assert(concat_chunks(chunks.take(0)) + chunks[0] =~= chunks[0]);
    } else {
        lemma_concat_chunks_snoc(chunks.drop_first(), i - 1);
        assert(chunks.take(i + 1).drop_first() =~= chunks.drop_first().take(i));
        assert(chunks.take(i).drop_first() =~= chunks.drop_first().take(i - 1));
        assert(chunks.take(i + 1)[0] == chunks[0]);
        assert(chunks.take(i)[0] == chunks[0]);
        assert(chunks[0] + (concat_chunks(chunks.drop_first().take(i - 1)) + chunks.drop_first()[i
            - 1]) =~= (chunks[0] + concat_chunks(chunks.drop_first().take(i - 1)))
            + chunks.drop_first()[i - 1]);
    }
}

/// A prefix of the chunks never concatenates to more than the whole.
pub proof fn lemma_concat_chunks_take_len(chunks: Seq<Seq<char>>, i: int)
    requires
        0 <= i <= chunks.len(),
    ensures
        concat_chunks(chunks.take(i)).len() <= concat_chunks(chunks).len(),
    decreases chunks.len() - i,
{
    if i == chunks.len() {
        assert(chunks.take(i) =~= chunks);
    } else {
        lemma_concat_chunks_snoc(chunks, i);
        lemma_concat_chunks_take_len(chunks, i + 1);
    }
}

/// Chunk boundaries are irrelevant: two chunkings of the same text give
/// the same token stream, including a `\r\n` pair split across a chunk
/// boundary, which still counts as a single newline.
pub proof fn lemma_chunking_irrelevant(chunks1: Seq<Seq<char>>, chunks2: Seq<Seq<char>>)
    requires
        concat_chunks(chunks1) == concat_chunks(chunks2),
    ensures
        lex_chunks_spec(chunks1) == lex_chunks_spec(chunks2),
{
}

// ---------------------------------------------------------------------------
// The executable tokenizer
// ---------------------------------------------------------------------------

/// Relies on String::push: appends exactly one character at the end.
#[verifier::external_body]
pub(crate) fn push_char_str(s: &mut String, c: char)
    ensures
        final(s)@ == old(s)@.push(c),
{
    s.push(c);
}

fn is_hex_digit(c: char) -> (r: bool)
    ensures
        r == is_hex_digit_sp(c),
{
    is_digit(c) || c == 'a' || c == 'A' || c == 'b' || c == 'B' || c == 'c' || c == 'C' || c == 'd'
        || c == 'D' || c == 'e' || c == 'E' || c == 'f' || c == 'F'
}

fn is_plain_escape(c: char) -> (r: bool)
    ensures
        r == is_plain_escape_sp(c),
{
    c == '"' || c == 'b' || c == '/' || c == '\\' || c == 'f' || c == 'n' || c == 'r' || c == 't'
}

fn kw_length(k: KeywordKind) -> (r: usize)
    ensures
        r == kw_len(k),
{
    match k {
        KeywordKind::KwFalse => 5,
        KeywordKind::KwTrue => 4,
        KeywordKind::KwNull => 4,
    }
}

fn kw_char(k: KeywordKind, i: usize) -> (c: char)
    requires
        i < kw_len(k),
    ensures
        c == kw_full(k)[i as int],
{
    match k {
        KeywordKind::KwFalse => if i == 0 {
            'f'
        } else if i == 1 {
            'a'
        } else if i == 2 {
            'l'
        } else if i == 3 {
            's'
        } else {
            'e'
        },
        KeywordKind::KwTrue => if i == 0 {
            't'
        } else if i == 1 {
            'r'
        } else if i == 2 {
            'u'
        } else {
            'e'
        },
        KeywordKind::KwNull => if i == 0 {
            'n'
        } else if i == 1 {
            'u'
        } else {
            'l'
        },
    }
}

fn kw_token(k: KeywordKind) -> (t: MaybeToken)
    ensures
        t@ == kw_tok_sp(k),
{
    match k {
        KeywordKind::KwFalse => MaybeToken::FalseLiteral,
        KeywordKind::KwTrue => MaybeToken::TrueLiteral,
        KeywordKind::KwNull => MaybeToken::NullLiteral,
    }
}

/// The first `m` characters of the keyword, for the error fragment.
fn kw_prefix(k: KeywordKind, m: usize) -> (r: String)
    requires
        m <= kw_len(k),
    ensures
        r@ == kw_full(k).take(m as int),
{
    let mut r = String::new();
    let mut i: usize = 0;
    while i < m
        invariant
            i <= m <= kw_len(k),
            r@ == kw_full(k).take(i as int),
        decreases m - i,
    {
        push_char_str(&mut r, kw_char(k, i));
        proof {
            assert(kw_full(k).take(i as int).push(kw_full(k)[i as int]) =~= kw_full(k).take(
                i + 1,
            ));
        }
        i = i + 1;
    }
    r
}

fn build_msg_bad_hex(c: char) -> (r: String)
    ensures
        r@ == msg_bad_hex(c),
{
    let mut m = String::from_str("The character '");
    push_char_str(&mut m, c);
    m.append(
        "' is not valid in this context. Only hexadecimal digits (0-9, a-f, A-F) may follow \\u",
    );
    proof {
        assert(m@ =~= msg_bad_hex(c));
    }
    m
}

fn build_msg_bad_escape(c: char) -> (r: String)
    ensures
        r@ == msg_bad_escape(c),
{
    let mut m = String::from_str("Unsupported escaped character '");
    push_char_str(&mut m, c);
    m.append("'. Only 'b', 'f', 'n', 'r', 't', 'u<4-digit hex>', '\\', or '\"' are allowed");
    proof {
        assert(m@ =~= msg_bad_escape(c));
    }
    m
}

fn build_msg_unexpected_char(c: char) -> (r: String)
    ensures
        r@ == msg_unexpected_char(c),
{
    let mut m = String::from_str("Encountered an unexpected character '");
    push_char_str(&mut m, c);
    m.append("'");
    proof {
        assert(m@ =~= msg_unexpected_char(c));
    }
    m
}

/// The executable counterpart of [`BuildSt`].
enum Building {
    Idle,
    Keyword(KeywordKind, usize),
    Text(String),
    Digits(String),
}

impl View for Building {
    type V = BuildSt;

    closed spec fn view(&self) -> BuildSt {
        match self {
            Building::Idle => BuildSt::Idle,
            Building::Keyword(k, m) => BuildSt::Keyword(*k, *m as nat),
            Building::Text(s) => BuildSt::Text(s@),
            Building::Digits(n) => BuildSt::Digits(n@),
        }
    }
}

/// The streaming tokenizer.  Feed it chunks with [`Tokenizer::push_chunk`],
/// close the input with [`Tokenizer::finish`], and collect the emitted
/// tokens.  Its whole behaviour is the model: after construction the state
/// is [`lex_init`], after a chunk it is [`lex_scan`] of the old state, and
/// after finishing it is [`lex_finish`].
pub struct Tokenizer {
    line_number: usize,
    char_position: usize,
    start: usize,
    length: usize,
    building: Building,
    pending_cr: bool,
    expect_escape: bool,
    pending_hex: u8,
    stopped: bool,
    chars_seen: usize,
    tokens: Vec<(MaybeToken, TokenInfo)>,
}

impl View for Tokenizer {
    type V = LexSt;

    closed spec fn view(&self) -> LexSt {
        LexSt {
            line: self.line_number as nat,
            col: self.char_position as nat,
            start: self.start as nat,
            length: self.length as nat,
            building: self.building@,
            pending_cr: self.pending_cr,
            expect_escape: self.expect_escape,
            pending_hex: self.pending_hex as nat,
            stopped: self.stopped,
            seen: self.chars_seen as nat,
            out: toks_view(self.tokens@),
        }
    }
}

impl Tokenizer {
    /// A fresh scanner at line 1, column 1, offset 0.
    pub fn new() -> (t: Tokenizer)
        ensures
            t@ == lex_init(),
            lex_wf(t@),
    {
        let t = Tokenizer {
            line_number: 1,
            char_position: 1,
            start: 0,
            length: 0,
            building: Building::Idle,
            pending_cr: false,
            expect_escape: false,
            pending_hex: 0,
            stopped: false,
            chars_seen: 0,
            tokens: Vec::new(),
        };
        proof {
            assert(t@ =~~= lex_init());
        }
        t
    }

    /// The position a token emitted right now would carry.
    fn cur_info(&self) -> (r: TokenInfo)
        ensures
            r@ == cur_pos(self@),
    {
        TokenInfo {
            line_number: self.line_number,
            char_position: self.char_position,
            start: self.start,
            length: self.length,
        }
    }

    /// Emit an error token at the current position and stop.
    fn emit_error(&mut self, message: String, fragment: Option<String>)
        requires
            old(self).building@ is Idle,
        ensures
            final(self)@ == lex_fail(
                old(self)@,
                message@,
                match fragment {
                    Option::Some(f) => Option::Some(f@),
                    Option::None => Option::None,
                },
            ),
    {
        let info = self.cur_info();
        self.tokens.push((MaybeToken::Error(ErrorInfo { message, fragment }), info));
        self.stopped = true;
        proof {
            broadcast use lemma_toks_view_push;

            assert(self@ =~~= lex_fail(
                old(self)@,
                message@,
                match fragment {
                    Option::Some(f) => Option::Some(f@),
                    Option::None => Option::None,
                },
            ));
        }
    }

    /// Feed one character of input.
    #[verifier::rlimit(100)]
    pub fn push_char(&mut self, c: char)
        requires
            lex_wf(old(self)@),
            old(self)@.seen + 7 <= usize::MAX,
        ensures
            final(self)@ == lex_step(old(self)@, c),
            lex_wf(final(self)@),
    {
        proof {
            lemma_step_wf(old(self)@, c);
        }
        if self.stopped {
            return ;
        }
        self.chars_seen = self.chars_seen + 1;
        let mut b = Building::Idle;
        core::mem::swap(&mut b, &mut self.building);
        match b {
            Building::Text(mut s) => {
                if self.pending_hex > 0 {
                    if is_hex_digit(c) {
                        push_char_str(&mut s, c);
                        self.length = self.length + 1;
                        self.char_position = self.char_position + 1;
                        self.pending_hex = self.pending_hex - 1;
                        self.building = Building::Text(s);
                        proof {
                            assert(self@ =~~= lex_step(old(self)@, c));
                        }
                    } else {
                        let m = build_msg_bad_hex(c);
                        self.emit_error(m, Option::None);
                        proof {
                            assert(self@ =~~= lex_step(old(self)@, c));
                        }
                    }
                } else if self.expect_escape {
                    self.expect_escape = false;
                    if is_plain_escape(c) {
                        push_char_str(&mut s, c);
                        self.length = self.length + 1;
                        self.char_position = self.char_position + 1;
                        self.building = Building::Text(s);
                        proof {
                            assert(self@ =~~= lex_step(old(self)@, c));
                        }
                    } else if c == 'u' {
                        push_char_str(&mut s, c);
                        self.length = self.length + 1;
                        self.char_position = self.char_position + 1;
                        self.pending_hex = 4;
                        self.building = Building::Text(s);
                        proof {
                            assert(self@ =~~= lex_step(old(self)@, c));
                        }
                    } else {
                        let m = build_msg_bad_escape(c);
                        self.emit_error(m, Option::None);
                        proof {
                            assert(self@ =~~= lex_step(old(self)@, c));
                        }
                    }
                } else if is_double_quote(c) {
                    push_char_str(&mut s, c);
                    self.length = self.length + 1;
                    self.char_position = self.char_position + 1;
                    let info = self.cur_info();
                    self.tokens.push((MaybeToken::StringLiteral(s), info));
                    self.start = self.start + self.length;
                    self.length = 0;
                    proof {
                        broadcast use lemma_toks_view_push;

                        assert(self@ =~~= lex_step(old(self)@, c));
                    }
                } else if is_linefeed(c) || is_carriage_return(c) {
                    let m = String::from_str("Multi-line strings are not allowed");
                    self.emit_error(m, Option::None);
                    proof {
                        assert(self@ =~~= lex_step(old(self)@, c));
                    }
                } else if is_backslash(c) {
                    self.expect_escape = true;
                    push_char_str(&mut s, c);
                    self.length = self.length + 1;
                    self.char_position = self.char_position + 1;
                    self.building = Building::Text(s);
                    proof {
                        assert(self@ =~~= lex_step(old(self)@, c));
                    }
                } else {
                    push_char_str(&mut s, c);
                    self.length = self.length + 1;
                    self.char_position = self.char_position + 1;
                    self.building = Building::Text(s);
                    proof {
                        assert(self@ =~~= lex_step(old(self)@, c));
                    }
                }
            },
            Building::Keyword(k, m) => {
                if c == kw_char(k, m) {
                    if m + 1 == kw_length(k) {
                        let info = self.cur_info();
                        self.tokens.push((kw_token(k), info));
                        self.char_position = self.char_position + 1;
                        self.start = self.start + self.length;
                        self.length = 0;
                        proof {
                            broadcast use lemma_toks_view_push;

                            assert(self@ =~~= lex_step(old(self)@, c));
                        }
                    } else {
                        self.building = Building::Keyword(k, m + 1);
                        self.char_position = self.char_position + 1;
                        proof {
                            assert(self@ =~~= lex_step(old(self)@, c));
                        }
                    }
                } else {
                    let frag = kw_prefix(k, m);
                    let msg = String::from_str("Unrecognized token");
                    self.emit_error(msg, Option::Some(frag));
                    proof {
                        assert(self@ =~~= lex_step(old(self)@, c));
                    }
                }
            },
            Building::Digits(mut n) => {
                if is_digit(c) {
                    push_char_str(&mut n, c);
                    self.length = self.length + 1;
                    self.char_position = self.char_position + 1;
                    self.building = Building::Digits(n);
                    proof {
                        assert(self@ =~~= lex_step(old(self)@, c));
                    }
                } else {
                    let info = self.cur_info();
                    self.tokens.push((MaybeToken::Integer(n), info));
                    self.start = self.start + self.length;
                    self.length = 0;
                    proof {
                        broadcast use lemma_toks_view_push;

                    }
                    self.idle_char(c);
                    proof {
                        assert(self@ =~~= lex_step(old(self)@, c));
                    }
                }
            },
            Building::Idle => {
                if self.pending_cr {
                    self.pending_cr = false;
                    if is_linefeed(c) {
                        self.start = self.start + 1;
                        proof {
                            assert(self@ =~~= lex_step(old(self)@, c));
                        }
                        return ;
                    }
                }
                self.idle_char(c);
                proof {
                    assert(self@ =~~= lex_step(old(self)@, c));
                }
            },
        }
    }

    /// Process one character with no token in progress.
    fn idle_char(&mut self, c: char)
        requires
            old(self).building@ is Idle,
            !old(self)@.stopped,
            old(self)@.line >= 1 && old(self)@.col >= 1,
            old(self)@.line + old(self)@.col <= old(self)@.seen + 2,
            old(self)@.start + old(self)@.length <= old(self)@.seen + 4,
            old(self)@.seen + 6 <= usize::MAX,
        ensures
            final(self)@ == lex_step_idle(old(self)@, c),
    {
        if c == 'f' {
            self.building = Building::Keyword(KeywordKind::KwFalse, 1);
            self.length = 5;
            self.pending_cr = false;
            self.char_position = self.char_position + 1;
            proof {
                assert(self@ =~~= lex_step_idle(old(self)@, c));
            }
        } else if c == 't' {
            self.building = Building::Keyword(KeywordKind::KwTrue, 1);
            self.length = 4;
            self.pending_cr = false;
            self.char_position = self.char_position + 1;
            proof {
                assert(self@ =~~= lex_step_idle(old(self)@, c));
            }
        } else if c == 'n' {
            self.building = Building::Keyword(KeywordKind::KwNull, 1);
            self.length = 4;
            self.pending_cr = false;
            self.char_position = self.char_position + 1;
            proof {
                assert(self@ =~~= lex_step_idle(old(self)@, c));
            }
        } else if is_double_quote(c) {
            let mut s = String::new();
            push_char_str(&mut s, c);
            self.building = Building::Text(s);
            self.length = 1;
            self.pending_cr = false;
            self.char_position = self.char_position + 1;
            proof {
                assert(s@ =~= seq!['"']);
                assert(self@ =~~= lex_step_idle(old(self)@, c));
            }
        } else if is_carriage_return(c) {
            self.pending_cr = true;
            self.line_number = self.line_number + 1;
            self.char_position = 1;
            self.start = self.start + 1;
            proof {
                assert(self@ =~~= lex_step_idle(old(self)@, c));
            }
        } else if is_linefeed(c) {
            self.line_number = self.line_number + 1;
            self.char_position = 1;
            self.start = self.start + 1;
            self.pending_cr = false;
            proof {
                assert(self@ =~~= lex_step_idle(old(self)@, c));
            }
        } else if c == ' ' || c == '\t' {
            self.char_position = self.char_position + 1;
            self.start = self.start + 1;
            self.pending_cr = false;
            proof {
                assert(self@ =~~= lex_step_idle(old(self)@, c));
            }
        } else {
            let simple: Option<MaybeToken> = match c {
                '-' => Option::Some(MaybeToken::MinusSign),
                '+' => Option::Some(MaybeToken::PlusSign),
                '{' => Option::Some(MaybeToken::LeftCurly),
                '}' => Option::Some(MaybeToken::RightCurly),
                '[' => Option::Some(MaybeToken::LeftBracket),
                ']' => Option::Some(MaybeToken::RightBracket),
                ',' => Option::Some(MaybeToken::Comma),
                'e' | 'E' => Option::Some(MaybeToken::Exponent),
                '.' => Option::Some(MaybeToken::Dot),
                ':' => Option::Some(MaybeToken::Colon),
                _ => Option::None,
            };
            match simple {
                Option::Some(t) => {
                    self.length = 1;
                    self.char_position = self.char_position + 1;
                    self.pending_cr = false;
                    let info = self.cur_info();
                    self.tokens.push((t, info));
                    self.start = self.start + 1;
                    self.length = 0;
                    proof {
                        broadcast use lemma_toks_view_push;

                        assert(self@ =~~= lex_step_idle(old(self)@, c));
                    }
                },
                Option::None => {
                    if is_digit(c) {
                        self.char_position = self.char_position + 1;
                        self.length = 1;
                        self.pending_cr = false;
                        let mut n = String::new();
                        push_char_str(&mut n, c);
                        self.building = Building::Digits(n);
                        proof {
                            assert(n@ =~= seq![c]);
                            assert(self@ =~~= lex_step_idle(old(self)@, c));
                        }
                    } else {
                        let m = build_msg_unexpected_char(c);
                        self.emit_error(m, Option::None);
                        proof {
                            assert(self@ =~~= lex_step_idle(old(self)@, c));
                        }
                    }
                },
            }
        }
    }

    /// Feed a whole chunk of input, character by character.
    pub fn push_chunk(&mut self, s: &str)
        requires
            lex_wf(old(self)@),
            old(self)@.seen + s@.len() + 7 <= usize::MAX,
        ensures
            final(self)@ == lex_scan(old(self)@, s@),
            lex_wf(final(self)@),
            final(self)@.seen <= old(self)@.seen + s@.len(),
    {
        let n = s.unicode_len();
        let mut i: usize = 0;
        proof {
            assert(s@.take(0) =~= Seq::<char>::empty());
        }
        while i < n
            invariant
                i <= n,
                n == s@.len(),
                self@ == lex_scan(old(self)@, s@.take(i as int)),
                lex_wf(self@),
                self@.seen <= old(self)@.seen + i,
                old(self)@.seen + s@.len() + 7 <= usize::MAX,
            decreases n - i,
        {
            let c = s.get_char(i);
            proof {
                lemma_scan_snoc(old(self)@, s@.take(i as int), c);
                assert(s@.take(i as int).push(s@[i as int]) =~= s@.take(i + 1));
            }
            self.push_char(c);
            i = i + 1;
        }
        proof {
            assert(s@.take(n as int) =~= s@);
        }
    }

    /// Close the input: a pending digit run is emitted as a complete
    /// integer, and an input on which the cursor never moved yields the
    /// empty-source error.
    pub fn finish(&mut self)
        requires
            lex_wf(old(self)@),
        ensures
            final(self)@ == lex_finish(old(self)@),
            lex_wf(final(self)@),
    {
        proof {
            lemma_finish_wf(old(self)@);
        }
        if self.stopped {
            proof {
                assert(self@ =~~= lex_finish(old(self)@));
            }
            return ;
        }
        let mut b = Building::Idle;
        core::mem::swap(&mut b, &mut self.building);
        match b {
            Building::Digits(n) => {
                let info = self.cur_info();
                self.tokens.push((MaybeToken::Integer(n), info));
                self.stopped = true;
                proof {
                    broadcast use lemma_toks_view_push;

                    assert(self@ =~~= lex_finish(old(self)@));
                }
            },
            other => {
                self.building = other;
                if self.line_number == 1 && self.char_position == 1 {
                    let msg = String::from_str("Source cannot be empty");
                    let info = self.cur_info();
                    self.tokens.push(
                        (MaybeToken::Error(ErrorInfo { message: msg, fragment: Option::None }), info),
                    );
                    self.stopped = true;
                    proof {
                        broadcast use lemma_toks_view_push;

                        assert(self@ =~~= lex_finish(old(self)@));
                    }
                } else {
                    self.stopped = true;
                    proof {
                        assert(self@ =~~= lex_finish(old(self)@));
                    }
                }
            },
        }
    }

    /// The tokens emitted so far, in order.
    pub fn tokens(&self) -> (r: &Vec<(MaybeToken, TokenInfo)>)
        ensures
            toks_view(r@) == self@.out,
    {
        &self.tokens
    }

    /// Give up the scanner and keep its emitted tokens.
    pub fn into_tokens(self) -> (r: Vec<(MaybeToken, TokenInfo)>)
        ensures
            toks_view(r@) == self@.out,
    {
        self.tokens
    }
}

/// Scans a chunked input from start to finish and returns its tokens.
///
/// The token stream equals the scan of the concatenated text: where the
/// chunk boundaries fall cannot influence it.
pub fn lex(chunks: &Vec<String>) -> (r: Vec<(MaybeToken, TokenInfo)>)
    requires
        chunks_ok(chunks@.map(|i: int, s: String| s@)),
    ensures
        toks_view(r@) == lex_chunks_spec(chunks@.map(|i: int, s: String| s@)),
{
    let ghost cs = chunks@.map(|i: int, s: String| s@);
    let mut t = Tokenizer::new();
    let mut i: usize = 0;
    proof {
        assert(cs.take(0) =~= Seq::<Seq<char>>::empty());
    }
    while i < chunks.len()
        invariant
            i <= chunks.len(),
            cs == chunks@.map(|i: int, s: String| s@),
            chunks_ok(cs),
            t@ == lex_scan(lex_init(), concat_chunks(cs.take(i as int))),
            lex_wf(t@),
            t@.seen <= concat_chunks(cs.take(i as int)).len(),
        decreases chunks.len() - i,
    {
        let c: &String = &chunks[i];
        proof {
            lemma_concat_chunks_snoc(cs, i as int);
            lemma_concat_chunks_take_len(cs, i + 1);
            lemma_scan_append(lex_init(), concat_chunks(cs.take(i as int)), cs[i as int]);
            assert(cs[i as int] == c@);
        }
        t.push_chunk(c.as_str());
        i = i + 1;
    }
    proof {
        assert(cs.take(chunks@.len() as int) =~= cs);
    }
    t.finish();
    t.into_tokens()
}

} // verus!
