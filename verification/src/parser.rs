//! The parser: recursive descent over the token stream, emitting a flat
//! stream of structural tags.
//!
//! The grammar is `value = object | array | string | number | true |
//! false | null`.  The token source cannot be rewound, so a matcher that
//! reads one token too many leaves the cursor on that token for its
//! caller — the "leftover token" protocol.  Every matcher is specified by
//! a spec-level function over the token model; on the first grammar
//! violation or relayed lexical error the stream ends with exactly one
//! error tag.

use vstd::prelude::*;

verus! {

use crate::lexer::{
    ErrSt, MaybeToken, PosSt, TokenInfo, TokenSt, toks_view,
};

pub type TagInfo = crate::lexer::TokenInfo;

pub type ErrorInfo = crate::lexer::ErrorInfo;

pub type TokenPair = (MaybeToken, TokenInfo);

pub type TagVec = Vec<Tag>;

/// One structural parse event.  Keys and string values have their quotes
/// stripped but escape sequences preserved; numbers carry their
/// reassembled text with the exponent marker normalized to `E`.
#[derive(PartialEq, Debug, Clone)]
pub enum Tag {
    BeginObject,
    EndObject,
    BeginArray,
    EndArray,
    ObjectKey(String),
    StringLiteral(String),
    Number(String),
    TrueLiteral,
    FalseLiteral,
    NullLiteral,
    Error(ErrorInfo, TagInfo),
}

/// Mathematical value of a [`Tag`].
#[verifier::ext_equal]
pub ghost enum TagSt {
    BeginObject,
    EndObject,
    BeginArray,
    EndArray,
    ObjectKey(Seq<char>),
    Text(Seq<char>),
    Num(Seq<char>),
    True,
    False,
    Null,
    ErrTag(ErrSt, PosSt),
}

impl View for Tag {
    type V = TagSt;

    open spec fn view(&self) -> TagSt {
        match self {
            Tag::BeginObject => TagSt::BeginObject,
            Tag::EndObject => TagSt::EndObject,
            Tag::BeginArray => TagSt::BeginArray,
            Tag::EndArray => TagSt::EndArray,
            Tag::ObjectKey(s) => TagSt::ObjectKey(s@),
            Tag::StringLiteral(s) => TagSt::Text(s@),
            Tag::Number(s) => TagSt::Num(s@),
            Tag::TrueLiteral => TagSt::True,
            Tag::FalseLiteral => TagSt::False,
            Tag::NullLiteral => TagSt::Null,
            Tag::Error(e, p) => TagSt::ErrTag(e@, p@),
        }
    }
}

/// The tag stream as a mathematical sequence.
pub open spec fn tags_view(s: Seq<Tag>) -> Seq<TagSt> {
    s.map(|i: int, t: Tag| t@)
}

pub broadcast proof fn lemma_tags_view_push(s: Seq<Tag>, x: Tag)
    ensures
        #[trigger] tags_view(s.push(x)) =~= tags_view(s).push(x@),
{
}

/// What one matching attempt produced: whether the production matched,
/// failed fatally, or was simply not this production; the cursor after
/// the attempt; and the tags emitted by it.
#[derive(PartialEq, Eq, Debug, Clone, Copy)]
pub enum Outcome {
    Matched,
    NoMatch,
    Failed,
}

/// The result of a spec-level matcher: status, new cursor, emitted tags.
#[verifier::ext_equal]
pub ghost struct PRes {
    pub status: Outcome,
    pub next: int,
    pub tags: Seq<TagSt>,
}

// ---------------------------------------------------------------------------
// Positions, messages, small helpers
// ---------------------------------------------------------------------------

/// The synthetic position one column past a token, used when the stream
/// ends where more tokens were expected.  Its length is 0; no emitted
/// token's position has length 0 otherwise.
pub open spec fn eos_pos(p: PosSt) -> PosSt {
    PosSt { line: p.line, col: p.col + 1, start: p.start + p.length, length: 0 }
}

/// An error tag without a source fragment.
pub open spec fn err_tag(message: Seq<char>, p: PosSt) -> TagSt {
    TagSt::ErrTag(ErrSt { message, fragment: Option::None }, p)
}

/// A lexical error token relayed into the tag stream unchanged.
pub open spec fn relay_tag(t: (TokenSt, PosSt)) -> TagSt {
    TagSt::ErrTag(t.0->ErrTok_0, t.1)
}

/// The string token's text without its delimiting quotes.
pub open spec fn strip_quotes_sp(s: Seq<char>) -> Seq<char> {
    s.subrange(1, s.len() - 1)
}

pub open spec fn msg_eos() -> Seq<char> {
    "Encountered end of stream, but more tokens expected"@
}

pub open spec fn msg_minus_digits() -> Seq<char> {
    "Syntax error. Expected digits after '-'"@
}

pub open spec fn msg_frac_digits() -> Seq<char> {
    "Syntax error. Expected fractional digits after '.'"@
}

pub open spec fn msg_exp_digits() -> Seq<char> {
    "Syntax error. Expected digits after exponent character"@
}

pub open spec fn msg_obj_comma() -> Seq<char> {
    "Syntax error. Encountered unexpected ',' in object"@
}

pub open spec fn msg_obj_trailing() -> Seq<char> {
    "Expected another key-value pair after comma, but found a '}'"@
}

pub open spec fn msg_obj_pair() -> Seq<char> {
    "Expected another key-value pair"@
}

pub open spec fn msg_obj_sep() -> Seq<char> {
    "Expected comma or closing curly brace"@
}

pub open spec fn msg_obj_general() -> Seq<char> {
    "Expected key-value pair or closing curly brace"@
}

pub open spec fn msg_arr_comma() -> Seq<char> {
    "Syntax error. Encountered unexpected ',' in array"@
}

pub open spec fn msg_arr_trailing() -> Seq<char> {
    "Expected another value after comma, but found a ']'"@
}

pub open spec fn msg_arr_sep() -> Seq<char> {
    "Expected comma or closing bracket"@
}

pub open spec fn msg_arr_value() -> Seq<char> {
    "Expected value or closing bracket"@
}

pub open spec fn msg_no_value() -> Seq<char> {
    "Expected a value"@
}

/// `Expected ':' after the key '<key>'`, for the already stripped key.
pub open spec fn msg_missing_colon(key: Seq<char>) -> Seq<char> {
    "Expected ':' after the key '"@ + key + "'"@
}

/// `A value is required after `"<key>": ``, for the already stripped key.
pub open spec fn msg_value_required(key: Seq<char>) -> Seq<char> {
    "A value is required after `\""@ + key + "\": `"@
}

/// Clamp a matcher's resulting cursor into `[lo, n]`; the executable
/// matchers always return a cursor in that range, so this changes
/// nothing for any stream they are run on, but it makes termination of
/// the mutually recursive spec functions evident.
pub open spec fn next_in(lo: int, j: int, n: int) -> int {
    if j < lo {
        lo
    } else if j > n {
        n
    } else {
        j
    }
}

// ---------------------------------------------------------------------------
// The grammar, as spec-level matchers
// ---------------------------------------------------------------------------
//
// Every matcher takes the token stream and a cursor.  A `spec_xxx(toks, j)`
// whose production starts at token `j` is entered with that token already
// consumed (cursor `j + 1`); `next` in its result is the cursor after the
// whole attempt, which on a leftover token stays on that token.

/// `true`, `false` or `null` as a value.
pub open spec fn spec_literal(toks: Seq<(TokenSt, PosSt)>, j: int) -> PRes {
    match toks[j].0 {
        TokenSt::False => PRes { status: Outcome::Matched, next: j + 1, tags: seq![TagSt::False] },
        TokenSt::True => PRes { status: Outcome::Matched, next: j + 1, tags: seq![TagSt::True] },
        TokenSt::Null => PRes { status: Outcome::Matched, next: j + 1, tags: seq![TagSt::Null] },
        _ => PRes { status: Outcome::NoMatch, next: j + 1, tags: Seq::empty() },
    }
}

/// A string token as a value: its quotes are stripped, escape sequences
/// are passed through verbatim.
pub open spec fn spec_string(toks: Seq<(TokenSt, PosSt)>, j: int) -> PRes {
    if toks[j].0 is Text {
        PRes {
            status: Outcome::Matched,
            next: j + 1,
            tags: seq![TagSt::Text(strip_quotes_sp(toks[j].0->Text_0))],
        }
    } else {
        PRes { status: Outcome::NoMatch, next: j + 1, tags: Seq::empty() }
    }
}

/// After a complete mantissa: an exponent marker at cursor `i` extends
/// the number, anything else is the caller's leftover token.
pub open spec fn spec_exp_at(toks: Seq<(TokenSt, PosSt)>, i: int, text: Seq<char>) -> PRes {
    if toks[i].0 is Exp {
        let etext = text + seq!['E'];
        if i + 1 >= toks.len() {
            PRes {
                status: Outcome::Failed,
                next: i + 1,
                tags: seq![err_tag(msg_exp_digits(), toks[i].1)],
            }
        } else if toks[i + 1].0 is ErrTok {
            PRes { status: Outcome::Failed, next: i + 2, tags: seq![relay_tag(toks[i + 1])] }
        } else if toks[i + 1].0 is Plus || toks[i + 1].0 is Minus {
            let stext = etext + (if toks[i + 1].0 is Plus {
                seq!['+']
            } else {
                seq!['-']
            });
            if i + 2 >= toks.len() {
                PRes {
                    status: Outcome::Failed,
                    next: i + 2,
                    tags: seq![err_tag(msg_exp_digits(), toks[i + 1].1)],
                }
            } else if toks[i + 2].0 is ErrTok {
                PRes { status: Outcome::Failed, next: i + 3, tags: seq![relay_tag(toks[i + 2])] }
            } else if toks[i + 2].0 is Digits {
                PRes {
                    status: Outcome::Matched,
                    next: i + 3,
                    tags: seq![TagSt::Num(stext + toks[i + 2].0->Digits_0)],
                }
            } else {
                PRes {
                    status: Outcome::Failed,
                    next: i + 3,
                    tags: seq![err_tag(msg_minus_digits(), toks[i + 2].1)],
                }
            }
        } else if toks[i + 1].0 is Digits {
            PRes {
                status: Outcome::Matched,
                next: i + 2,
                tags: seq![TagSt::Num(etext + toks[i + 1].0->Digits_0)],
            }
        } else {
            PRes {
                status: Outcome::Failed,
                next: i + 2,
                tags: seq![err_tag(msg_minus_digits(), toks[i + 1].1)],
            }
        }
    } else {
        PRes { status: Outcome::Matched, next: i, tags: seq![TagSt::Num(text)] }
    }
}

/// After a fraction: pull one token to look for an exponent; end of
/// stream here completes the number.
pub open spec fn spec_exp_part(toks: Seq<(TokenSt, PosSt)>, i: int, text: Seq<char>) -> PRes {
    if i >= toks.len() {
        PRes { status: Outcome::Matched, next: i, tags: seq![TagSt::Num(text)] }
    } else if toks[i].0 is ErrTok {
        PRes { status: Outcome::Failed, next: i + 1, tags: seq![relay_tag(toks[i])] }
    } else {
        spec_exp_at(toks, i, text)
    }
}

/// After the integer part: an optional fraction, then an optional
/// exponent; end of stream completes the number.
pub open spec fn spec_number_tail(toks: Seq<(TokenSt, PosSt)>, i: int, text: Seq<char>) -> PRes {
    if i >= toks.len() {
        PRes { status: Outcome::Matched, next: i, tags: seq![TagSt::Num(text)] }
    } else if toks[i].0 is ErrTok {
        PRes { status: Outcome::Failed, next: i + 1, tags: seq![relay_tag(toks[i])] }
    } else if toks[i].0 is Dot {
        if i + 1 >= toks.len() {
            PRes {
                status: Outcome::Failed,
                next: i + 1,
                tags: seq![err_tag(msg_eos(), eos_pos(toks[i].1))],
            }
        } else if toks[i + 1].0 is ErrTok {
            PRes { status: Outcome::Failed, next: i + 2, tags: seq![relay_tag(toks[i + 1])] }
        } else if toks[i + 1].0 is Digits {
            spec_exp_part(toks, i + 2, text + seq!['.'] + toks[i + 1].0->Digits_0)
        } else {
            PRes {
                status: Outcome::Failed,
                next: i + 2,
                tags: seq![err_tag(msg_frac_digits(), toks[i].1)],
            }
        }
    } else {
        spec_exp_at(toks, i, text)
    }
}

/// A number starting at token `j`: `-`? digits, `.` digits?, exponent?.
/// The emitted tag carries the reassembled text.
pub open spec fn spec_number(toks: Seq<(TokenSt, PosSt)>, j: int) -> PRes {
    if toks[j].0 is Minus {
        if j + 1 >= toks.len() {
            PRes {
                status: Outcome::Failed,
                next: j + 1,
                tags: seq![err_tag(msg_eos(), eos_pos(toks[j].1))],
            }
        } else if toks[j + 1].0 is ErrTok {
            PRes { status: Outcome::Failed, next: j + 2, tags: seq![relay_tag(toks[j + 1])] }
        } else if toks[j + 1].0 is Digits {
            spec_number_tail(toks, j + 2, seq!['-'] + toks[j + 1].0->Digits_0)
        } else {
            PRes {
                status: Outcome::Failed,
                next: j + 2,
                tags: seq![err_tag(msg_minus_digits(), toks[j + 1].1)],
            }
        }
    } else if toks[j].0 is Digits {
        spec_number_tail(toks, j + 1, toks[j].0->Digits_0)
    } else {
        PRes { status: Outcome::NoMatch, next: j + 1, tags: Seq::empty() }
    }
}

/// A JSON value starting at token `j`.
pub open spec fn spec_value(toks: Seq<(TokenSt, PosSt)>, j: int) -> PRes
    decreases toks.len() - j, 3int,
{
    if !(0 <= j < toks.len()) {
        PRes { status: Outcome::NoMatch, next: j + 1, tags: Seq::empty() }
    } else if toks[j].0 is LCurly {
        spec_object(toks, j)
    } else if toks[j].0 is LBracket {
        spec_array(toks, j)
    } else if toks[j].0 is Text {
        spec_string(toks, j)
    } else if toks[j].0 is False || toks[j].0 is True || toks[j].0 is Null {
        spec_literal(toks, j)
    } else {
        spec_number(toks, j)
    }
}

/// An object starting at the `{` at token `j`.
pub open spec fn spec_object(toks: Seq<(TokenSt, PosSt)>, j: int) -> PRes
    decreases toks.len() - j, 2int,
{
    if 0 <= j < toks.len() && toks[j].0 is LCurly {
        let inner = spec_obj_items(toks, j + 1, false, false, toks[j].1);
        PRes {
            status: if inner.status is Matched {
                Outcome::Matched
            } else {
                Outcome::Failed
            },
            next: inner.next,
            tags: seq![TagSt::BeginObject] + inner.tags,
        }
    } else {
        PRes { status: Outcome::NoMatch, next: j + 1, tags: Seq::empty() }
    }
}

/// The members of an object after its `{`, at cursor `i`.  `sep` says a
/// comma or `}` may come next (a pair was just completed); `pair` says a
/// comma was just consumed, so another pair is required.  End-of-stream
/// errors inside the object are positioned after the opening `{`, whose
/// position is `lpos`.
pub open spec fn spec_obj_items(
    toks: Seq<(TokenSt, PosSt)>,
    i: int,
    sep: bool,
    pair: bool,
    lpos: PosSt,
) -> PRes
    decreases toks.len() - i, 4int,
{
    if i >= toks.len() {
        PRes { status: Outcome::Failed, next: i, tags: seq![err_tag(msg_eos(), eos_pos(lpos))] }
    } else if toks[i].0 is ErrTok {
        PRes { status: Outcome::Failed, next: i + 1, tags: seq![relay_tag(toks[i])] }
    } else if toks[i].0 is Text {
        let key = toks[i].0->Text_0;
        let prefix = seq![TagSt::ObjectKey(strip_quotes_sp(key))];
        let kv = spec_kv_rest(toks, i + 1, key, toks[i].1);
        if kv.status is Matched {
            let rest = spec_obj_items(
                toks,
                next_in(i + 1, kv.next, toks.len() as int),
                true,
                false,
                lpos,
            );
            PRes { status: rest.status, next: rest.next, tags: prefix + kv.tags + rest.tags }
        } else {
            PRes { status: Outcome::Failed, next: kv.next, tags: prefix + kv.tags }
        }
    } else if toks[i].0 is Comma {
        if sep {
            spec_obj_items(toks, i + 1, false, true, lpos)
        } else {
            PRes {
                status: Outcome::Failed,
                next: i + 1,
                tags: seq![err_tag(msg_obj_comma(), toks[i].1)],
            }
        }
    } else if toks[i].0 is RCurly {
        if pair {
            PRes {
                status: Outcome::Failed,
                next: i + 1,
                tags: seq![err_tag(msg_obj_trailing(), toks[i].1)],
            }
        } else {
            PRes { status: Outcome::Matched, next: i + 1, tags: seq![TagSt::EndObject] }
        }
    } else {
        if pair {
            PRes {
                status: Outcome::Failed,
                next: i + 1,
                tags: seq![err_tag(msg_obj_pair(), toks[i].1)],
            }
        } else if sep {
            PRes {
                status: Outcome::Failed,
                next: i + 1,
                tags: seq![err_tag(msg_obj_sep(), toks[i].1)],
            }
        } else {
            PRes {
                status: Outcome::Failed,
                next: i + 1,
                tags: seq![err_tag(msg_obj_general(), toks[i].1)],
            }
        }
    }
}

/// A key's `: value`, after the key at cursor `i - 1` has emitted its
/// `ObjectKey` tag.  `key` is the raw key token text, `key_pos` its
/// position.
pub open spec fn spec_kv_rest(
    toks: Seq<(TokenSt, PosSt)>,
    i: int,
    key: Seq<char>,
    key_pos: PosSt,
) -> PRes
    decreases toks.len() - i, 0int,
{
    if i >= toks.len() {
        PRes { status: Outcome::Failed, next: i, tags: seq![err_tag(msg_eos(), eos_pos(key_pos))] }
    } else if toks[i].0 is ErrTok {
        PRes { status: Outcome::Failed, next: i + 1, tags: seq![relay_tag(toks[i])] }
    } else if toks[i].0 is Colon {
        if i + 1 >= toks.len() {
            PRes {
                status: Outcome::Failed,
                next: i + 1,
                tags: seq![err_tag(msg_eos(), eos_pos(toks[i].1))],
            }
        } else if toks[i + 1].0 is ErrTok {
            PRes { status: Outcome::Failed, next: i + 2, tags: seq![relay_tag(toks[i + 1])] }
        } else {
            let v = spec_value(toks, i + 1);
            if v.status is Matched {
                PRes { status: Outcome::Matched, next: v.next, tags: v.tags }
            } else if v.status is NoMatch {
                PRes {
                    status: Outcome::Failed,
                    next: v.next,
                    tags: v.tags + seq![
                        err_tag(msg_value_required(strip_quotes_sp(key)), toks[i].1),
                    ],
                }
            } else {
                PRes { status: Outcome::Failed, next: v.next, tags: v.tags }
            }
        }
    } else {
        PRes {
            status: Outcome::Failed,
            next: i + 1,
            tags: seq![err_tag(msg_missing_colon(strip_quotes_sp(key)), toks[i].1)],
        }
    }
}

/// An array starting at the `[` at token `j`.
pub open spec fn spec_array(toks: Seq<(TokenSt, PosSt)>, j: int) -> PRes
    decreases toks.len() - j, 2int,
{
    if 0 <= j < toks.len() && toks[j].0 is LBracket {
        let inner = spec_arr_items(toks, j + 1, false, false, toks[j].1);
        PRes {
            status: if inner.status is Matched {
                Outcome::Matched
            } else {
                Outcome::Failed
            },
            next: inner.next,
            tags: seq![TagSt::BeginArray] + inner.tags,
        }
    } else {
        PRes { status: Outcome::NoMatch, next: j + 1, tags: Seq::empty() }
    }
}

/// The elements of an array after its `[`, at cursor `i`.  `sep` says a
/// comma or `]` may come next; `val` says a comma was just consumed, so
/// another value is required.  End-of-stream errors inside the array are
/// positioned after the opening `[`, whose position is `lpos`.
pub open spec fn spec_arr_items(
    toks: Seq<(TokenSt, PosSt)>,
    i: int,
    sep: bool,
    val: bool,
    lpos: PosSt,
) -> PRes
    decreases toks.len() - i, 4int,
{
    if i >= toks.len() {
        PRes { status: Outcome::Failed, next: i, tags: seq![err_tag(msg_eos(), eos_pos(lpos))] }
    } else if toks[i].0 is ErrTok {
        PRes { status: Outcome::Failed, next: i + 1, tags: seq![relay_tag(toks[i])] }
    } else if toks[i].0 is Comma {
        if sep {
            spec_arr_items(toks, i + 1, false, true, lpos)
        } else {
            PRes {
                status: Outcome::Failed,
                next: i + 1,
                tags: seq![err_tag(msg_arr_comma(), toks[i].1)],
            }
        }
    } else if toks[i].0 is RBracket {
        if val {
            PRes {
                status: Outcome::Failed,
                next: i + 1,
                tags: seq![err_tag(msg_arr_trailing(), toks[i].1)],
            }
        } else {
            PRes { status: Outcome::Matched, next: i + 1, tags: seq![TagSt::EndArray] }
        }
    } else {
        if sep {
            PRes {
                status: Outcome::Failed,
                next: i + 1,
                tags: seq![err_tag(msg_arr_sep(), toks[i].1)],
            }
        } else {
            let v = spec_value(toks, i);
            if v.status is Matched {
                let rest = spec_arr_items(
                    toks,
                    next_in(i + 1, v.next, toks.len() as int),
                    true,
                    false,
                    lpos,
                );
                PRes { status: rest.status, next: rest.next, tags: v.tags + rest.tags }
            } else if v.status is NoMatch {
                PRes {
                    status: Outcome::Failed,
                    next: v.next,
                    tags: v.tags + seq![err_tag(msg_arr_value(), toks[i].1)],
                }
            } else {
                PRes { status: Outcome::Failed, next: v.next, tags: v.tags }
            }
        }
    }
}

/// The whole parse: one JSON value; a leading lexical error is relayed;
/// tokens after the first complete value are not examined.
pub open spec fn parse_spec(toks: Seq<(TokenSt, PosSt)>) -> Seq<TagSt> {
    if toks.len() == 0 {
        Seq::empty()
    } else if toks[0].0 is ErrTok {
        seq![relay_tag(toks[0])]
    } else {
        let v = spec_value(toks, 0);
        if v.status is NoMatch {
            v.tags + seq![err_tag(msg_no_value(), toks[0].1)]
        } else {
            v.tags
        }
    }
}

// ---------------------------------------------------------------------------
// Well-formed token streams
// ---------------------------------------------------------------------------

/// What the parser needs of a token: a string token carries both its
/// quotes, and position arithmetic for the end-of-stream position stays
/// inside `usize`.  Every token the tokenizer emits satisfies this.
pub open spec fn tok_ok(t: (TokenSt, PosSt)) -> bool {
    &&& t.0 is Text ==> t.0->Text_0.len() >= 2
    &&& t.1.col + 1 <= usize::MAX
    &&& t.1.start + t.1.length <= usize::MAX
}

pub open spec fn wf_toks(toks: Seq<(TokenSt, PosSt)>) -> bool {
    forall|i: int| 0 <= i < toks.len() ==> tok_ok(#[trigger] toks[i])
}

// ---------------------------------------------------------------------------
// The executable matchers
// ---------------------------------------------------------------------------

/// A fresh copy of a lexical error's payload, for relaying it.
fn clone_error_info(e: &ErrorInfo) -> (r: ErrorInfo)
    ensures
        r@ == e@,
{
    ErrorInfo {
        message: e.message.clone(),
        fragment: match &e.fragment {
            Option::Some(f) => Option::Some(f.clone()),
            Option::None => Option::None,
        },
    }
}

fn push_tag(output: &mut Vec<Tag>, t: Tag)
    ensures
        tags_view(final(output)@) == tags_view(old(output)@) + seq![t@],
{
    let ghost tv = t@;
    output.push(t);
    proof {
        broadcast use lemma_tags_view_push;

        assert(tags_view(output@) =~= tags_view(old(output)@) + seq![tv]);
    }
}

fn push_err(output: &mut Vec<Tag>, message: String, info: &TokenInfo)
    ensures
        tags_view(final(output)@) == tags_view(old(output)@) + seq![err_tag(message@, info@)],
{
    push_tag(output, Tag::Error(ErrorInfo { message, fragment: Option::None }, *info));
}

/// The string token's text without its two delimiting quotes; stripping
/// `""` gives the empty string.
pub fn strip_string_quotes(s: &str) -> (r: String)
    requires
        s@.len() >= 2,
    ensures
        r@ == strip_quotes_sp(s@),
{
    let n = s.unicode_len();
    let sub = s.substring_char(1, n - 1);
    sub.to_owned()
}

fn build_msg_missing_colon(key: &str) -> (r: String)
    ensures
        r@ == msg_missing_colon(key@),
{
    let mut m = String::from_str("Expected ':' after the key '");
    m.append(key);
    m.append("'");
    proof {
        assert(m@ =~= msg_missing_colon(key@));
    }
    m
}

fn build_msg_value_required(key: &str) -> (r: String)
    ensures
        r@ == msg_value_required(key@),
{
    let mut m = String::from_str("A value is required after `\"");
    m.append(key);
    m.append("\": `");
    proof {
        assert(m@ =~= msg_value_required(key@));
    }
    m
}

/// Pulls the next token if there is one.  A lexical error token is
/// relayed into the tag stream and aborts the parse; a missing token is
/// not an error here, because in some places the stream may simply end.
pub fn try_next_token(source: &Vec<TokenPair>, i: usize, output: &mut Vec<Tag>) -> (r: Result<
    Option<usize>,
    (),
>)
    requires
        i <= source@.len(),
    ensures
        match r {
            Result::Ok(o) => match o {
                Option::Some(j) => j == i && i < source@.len() && !(toks_view(source@)[i as int].0
                    is ErrTok) && final(output)@ == old(output)@,
                Option::None => i == source@.len() && final(output)@ == old(output)@,
            },
            Result::Err(()) => i < source@.len() && toks_view(source@)[i as int].0 is ErrTok
                && tags_view(final(output)@) == tags_view(old(output)@) + seq![
                relay_tag(toks_view(source@)[i as int]),
            ],
        },
{
    if i == source.len() {
        Result::Ok(Option::None)
    } else {
        match &source[i].0 {
            MaybeToken::Error(e) => {
                let e2 = clone_error_info(e);
                push_tag(output, Tag::Error(e2, source[i].1));
                Result::Err(())
            },
            _ => Result::Ok(Option::Some(i)),
        }
    }
}

/// Pulls the next token, which must exist: if the stream has ended an
/// error tag is emitted one column past `last_token_info`.
pub fn require_next_token(
    source: &Vec<TokenPair>,
    i: usize,
    output: &mut Vec<Tag>,
    last_token_info: &TokenInfo,
) -> (r: Result<usize, ()>)
    requires
        i <= source@.len(),
        last_token_info@.col + 1 <= usize::MAX,
        last_token_info@.start + last_token_info@.length <= usize::MAX,
    ensures
        match r {
            Result::Ok(j) => j == i && i < source@.len() && !(toks_view(source@)[i as int].0
                is ErrTok) && final(output)@ == old(output)@,
            Result::Err(()) => tags_view(final(output)@) == tags_view(old(output)@) + seq![
                if i < source@.len() {
                    relay_tag(toks_view(source@)[i as int])
                } else {
                    err_tag(msg_eos(), eos_pos(last_token_info@))
                },
            ] && (i < source@.len() ==> toks_view(source@)[i as int].0 is ErrTok),
        },
{
    let r = try_next_token(source, i, output);
    match r {
        Result::Err(()) => Result::Err(()),
        Result::Ok(o) => match o {
            Option::Some(j) => Result::Ok(j),
            Option::None => {
                let dupe = TokenInfo {
                    line_number: last_token_info.line_number,
                    char_position: last_token_info.char_position + 1,
                    start: last_token_info.start + last_token_info.length,
                    length: 0,
                };
                let m = String::from_str("Encountered end of stream, but more tokens expected");
                push_err(output, m, &dupe);
                Result::Err(())
            },
        },
    }
}

/// The digits of an integer token, or a refusal.
pub fn require_integer(next_token: &MaybeToken) -> (r: Result<String, ()>)
    ensures
        match r {
            Result::Ok(n) => next_token@ is Digits && n@ == next_token@->Digits_0,
            Result::Err(()) => !(next_token@ is Digits),
        },
{
    match next_token {
        MaybeToken::Integer(n) => Result::Ok(n.clone()),
        _ => Result::Err(()),
    }
}

/// A `true`, `false` or `null` token as a value.
pub fn try_literal(tokens: &Vec<TokenPair>, j: usize, output: &mut Vec<Tag>) -> (r: bool)
    requires
        j < tokens@.len(),
    ensures
        ({
            let res = spec_literal(toks_view(tokens@), j as int);
            r == (res.status is Matched) && tags_view(final(output)@) == tags_view(old(output)@)
                + res.tags
        }),
{
    let matching: Option<Tag> = match &tokens[j].0 {
        MaybeToken::FalseLiteral => Option::Some(Tag::FalseLiteral),
        MaybeToken::TrueLiteral => Option::Some(Tag::TrueLiteral),
        MaybeToken::NullLiteral => Option::Some(Tag::NullLiteral),
        _ => Option::None,
    };
    match matching {
        Option::Some(t) => {
            push_tag(output, t);
            proof {
                assert(tags_view(output@) =~= tags_view(old(output)@) + spec_literal(
                    toks_view(tokens@),
                    j as int,
                ).tags);
            }
            true
        },
        Option::None => {
            proof {
                assert(tags_view(output@) =~= tags_view(old(output)@) + spec_literal(
                    toks_view(tokens@),
                    j as int,
                ).tags);
            }
            false
        },
    }
}

/// A string token as a value, with its quotes stripped.
pub fn try_string(tokens: &Vec<TokenPair>, j: usize, output: &mut Vec<Tag>) -> (r: bool)
    requires
        j < tokens@.len(),
        wf_toks(toks_view(tokens@)),
    ensures
        ({
            let res = spec_string(toks_view(tokens@), j as int);
            r == (res.status is Matched) && tags_view(final(output)@) == tags_view(old(output)@)
                + res.tags
        }),
{
    proof {
        assert(tok_ok(toks_view(tokens@)[j as int]));
    }
    match &tokens[j].0 {
        MaybeToken::StringLiteral(s) => {
            let stripped = strip_string_quotes(s.as_str());
            push_tag(output, Tag::StringLiteral(stripped));
            proof {
                assert(tags_view(output@) =~= tags_view(old(output)@) + spec_string(
                    toks_view(tokens@),
                    j as int,
                ).tags);
            }
            true
        },
        _ => {
            proof {
                assert(tags_view(output@) =~= tags_view(old(output)@) + spec_string(
                    toks_view(tokens@),
                    j as int,
                ).tags);
            }
            false
        },
    }
}

/// After a complete mantissa at cursor `i`: continue into an exponent,
/// or emit the number and leave the token at `i` for the caller.
fn exp_at(tokens: &Vec<TokenPair>, i: usize, text: String, output: &mut Vec<Tag>) -> (r: (
    Outcome,
    usize,
))
    requires
        i < tokens@.len(),
        !(toks_view(tokens@)[i as int].0 is ErrTok),
        wf_toks(toks_view(tokens@)),
    ensures
        ({
            let res = spec_exp_at(toks_view(tokens@), i as int, text@);
            r.0 == res.status && r.1 == res.next && i <= r.1 <= tokens@.len() && tags_view(
                final(output)@,
            ) == tags_view(old(output)@) + res.tags
        }),
{
    let ghost toks = toks_view(tokens@);
    let ghost text0 = text@;
    let n_toks = tokens.len();
    let mut text = text;
    match &tokens[i].0 {
        MaybeToken::Exponent => {
            crate::lexer::push_char_str(&mut text, 'E');
            if i + 1 == n_toks {
                let m = String::from_str("Syntax error. Expected digits after exponent character");
                push_err(output, m, &tokens[i].1);
                return (Outcome::Failed, i + 1);
            }
            match &tokens[i + 1].0 {
                MaybeToken::Error(e) => {
                    let e2 = clone_error_info(e);
                    push_tag(output, Tag::Error(e2, tokens[i + 1].1));
                    (Outcome::Failed, i + 2)
                },
                MaybeToken::PlusSign | MaybeToken::MinusSign => {
                    let plus = match &tokens[i + 1].0 {
                        MaybeToken::PlusSign => true,
                        _ => false,
                    };
                    crate::lexer::push_char_str(&mut text, if plus { '+' } else { '-' });
                    if i + 2 == n_toks {
                        let m = String::from_str(
                            "Syntax error. Expected digits after exponent character",
                        );
                        push_err(output, m, &tokens[i + 1].1);
                        return (Outcome::Failed, i + 2);
                    }
                    match &tokens[i + 2].0 {
                        MaybeToken::Error(e) => {
                            let e2 = clone_error_info(e);
                            push_tag(output, Tag::Error(e2, tokens[i + 2].1));
                            (Outcome::Failed, i + 3)
                        },
                        MaybeToken::Integer(n) => {
                            text.append(n.as_str());
                            push_tag(output, Tag::Number(text));
                            proof {
                                assert(tags_view(output@) =~~= tags_view(old(output)@) + spec_exp_at(
                                    toks,
                                    i as int,
                                    text0,
                                ).tags);
                            }
                            (Outcome::Matched, i + 3)
                        },
                        _ => {
                            let m = String::from_str("Syntax error. Expected digits after '-'");
                            push_err(output, m, &tokens[i + 2].1);
                            (Outcome::Failed, i + 3)
                        },
                    }
                },
                MaybeToken::Integer(n) => {
                    text.append(n.as_str());
                    push_tag(output, Tag::Number(text));
                    proof {
                        assert(tags_view(output@) =~~= tags_view(old(output)@) + spec_exp_at(
                            toks,
                            i as int,
                            text0,
                        ).tags);
                    }
                    (Outcome::Matched, i + 2)
                },
                _ => {
                    let m = String::from_str("Syntax error. Expected digits after '-'");
                    push_err(output, m, &tokens[i + 1].1);
                    (Outcome::Failed, i + 2)
                },
            }
        },
        _ => {
            push_tag(output, Tag::Number(text));
            (Outcome::Matched, i)
        },
    }
}

/// After a fraction at cursor `i`: look for an exponent; end of stream
/// completes the number.
fn exp_part(tokens: &Vec<TokenPair>, i: usize, text: String, output: &mut Vec<Tag>) -> (r: (
    Outcome,
    usize,
))
    requires
        i <= tokens@.len(),
        wf_toks(toks_view(tokens@)),
    ensures
        ({
            let res = spec_exp_part(toks_view(tokens@), i as int, text@);
            r.0 == res.status && r.1 == res.next && i <= r.1 <= tokens@.len() && tags_view(
                final(output)@,
            ) == tags_view(old(output)@) + res.tags
        }),
{
    let _toks_len = tokens.len();
    let nx = try_next_token(tokens, i, output);
    match nx {
        Result::Err(()) => (Outcome::Failed, i + 1),
        Result::Ok(o) => match o {
            Option::None => {
                push_tag(output, Tag::Number(text));
                (Outcome::Matched, i)
            },
            Option::Some(j) => exp_at(tokens, j, text, output),
        },
    }
}

/// After the integer part at cursor `i`: an optional fraction, then an
/// optional exponent; end of stream completes the number.
fn number_tail(tokens: &Vec<TokenPair>, i: usize, text: String, output: &mut Vec<Tag>) -> (r: (
    Outcome,
    usize,
))
    requires
        i <= tokens@.len(),
        wf_toks(toks_view(tokens@)),
    ensures
        ({
            let res = spec_number_tail(toks_view(tokens@), i as int, text@);
            r.0 == res.status && r.1 == res.next && i <= r.1 <= tokens@.len() && tags_view(
                final(output)@,
            ) == tags_view(old(output)@) + res.tags
        }),
{
    let ghost toks = toks_view(tokens@);
    let n_toks = tokens.len();
    let nx = try_next_token(tokens, i, output);
    match nx {
        Result::Err(()) => (Outcome::Failed, i + 1),
        Result::Ok(o) => match o {
            Option::None => {
                push_tag(output, Tag::Number(text));
                (Outcome::Matched, i)
            },
            Option::Some(j) => {
                match &tokens[j].0 {
                    MaybeToken::Dot => {
                        proof {
                            assert(tok_ok(toks[j as int]));
                        }
                        let hopefully_int = require_next_token(tokens, j + 1, output, &tokens[j].1);
                        match hopefully_int {
                            Result::Err(()) => (
                                Outcome::Failed,
                                if j + 1 < n_toks {
                                    j + 2
                                } else {
                                    j + 1
                                },
                            ),
                            Result::Ok(k) => {
                                let intval = require_integer(&tokens[k].0);
                                match intval {
                                    Result::Ok(n) => {
                                        let ghost text0 = text@;
                                        let mut text = text;
                                        crate::lexer::push_char_str(&mut text, '.');
                                        text.append(n.as_str());
                                        proof {
                                            assert(text@ =~= text0 + seq!['.']
                                                + toks[k as int].0->Digits_0);
                                        }
                                        exp_part(tokens, k + 1, text, output)
                                    },
                                    Result::Err(()) => {
                                        let m = String::from_str(
                                            "Syntax error. Expected fractional digits after '.'",
                                        );
                                        push_err(output, m, &tokens[j].1);
                                        (Outcome::Failed, k + 1)
                                    },
                                }
                            },
                        }
                    },
                    _ => exp_at(tokens, j, text, output),
                }
            },
        },
    }
}

/// A number starting at token `j`: `-`? digits, `.` digits?, exponent?.
/// A token pulled while probing for the fraction or exponent and found
/// not to belong to the number is left for the caller (the cursor in the
/// result stays on it).
pub fn try_number(tokens: &Vec<TokenPair>, j: usize, output: &mut Vec<Tag>) -> (r: (Outcome, usize))
    requires
        j < tokens@.len(),
        wf_toks(toks_view(tokens@)),
    ensures
        ({
            let res = spec_number(toks_view(tokens@), j as int);
            r.0 == res.status && r.1 == res.next && j < r.1 <= tokens@.len() && tags_view(
                final(output)@,
            ) == tags_view(old(output)@) + res.tags
        }),
{
    let ghost toks = toks_view(tokens@);
    let n_toks = tokens.len();
    match &tokens[j].0 {
        MaybeToken::MinusSign => {
            proof {
                assert(tok_ok(toks[j as int]));
            }
            let nx = require_next_token(tokens, j + 1, output, &tokens[j].1);
            match nx {
                Result::Err(()) => (
                    Outcome::Failed,
                    if j + 1 < n_toks {
                        j + 2
                    } else {
                        j + 1
                    },
                ),
                Result::Ok(k) => {
                    let intval = require_integer(&tokens[k].0);
                    match intval {
                        Result::Ok(n) => {
                            let mut text = String::new();
                            crate::lexer::push_char_str(&mut text, '-');
                            text.append(n.as_str());
                            proof {
                                assert(text@ =~= seq!['-'] + toks[k as int].0->Digits_0);
                            }
                            number_tail(tokens, k + 1, text, output)
                        },
                        Result::Err(()) => {
                            let m = String::from_str("Syntax error. Expected digits after '-'");
                            push_err(output, m, &tokens[k].1);
                            (Outcome::Failed, k + 1)
                        },
                    }
                },
            }
        },
        MaybeToken::Integer(n) => {
            let mut text = String::new();
            text.append(n.as_str());
            proof {
                assert(text@ =~= toks[j as int].0->Digits_0);
            }
            number_tail(tokens, j + 1, text, output)
        },
        _ => (Outcome::NoMatch, j + 1),
    }
}

/// One `key: value` member, the key at cursor `i - 1` already consumed.
/// Emits the `ObjectKey` tag, requires the colon and the value, and
/// relays the value matcher's leftover token through its cursor.
pub fn require_object_kv_pair(
    tokens: &Vec<TokenPair>,
    key: &String,
    key_info: &TokenInfo,
    i: usize,
    output: &mut Vec<Tag>,
) -> (r: (Outcome, usize))
    requires
        i <= tokens@.len(),
        wf_toks(toks_view(tokens@)),
        key@.len() >= 2,
        key_info@.col + 1 <= usize::MAX,
        key_info@.start + key_info@.length <= usize::MAX,
    ensures
        ({
            let res = spec_kv_rest(toks_view(tokens@), i as int, key@, key_info@);
            r.0 == res.status && r.1 == res.next && i <= r.1 <= tokens@.len() && tags_view(
                final(output)@,
            ) == tags_view(old(output)@) + seq![TagSt::ObjectKey(strip_quotes_sp(key@))]
                + res.tags
        }),
    decreases tokens@.len() - i, 0int,
{
    let ghost toks = toks_view(tokens@);
    let n_toks = tokens.len();
    let stripped_name = strip_string_quotes(key.as_str());
    push_tag(output, Tag::ObjectKey(stripped_name.clone()));
    let nx = require_next_token(tokens, i, output, key_info);
    match nx {
        Result::Err(()) => (
            Outcome::Failed,
            if i < n_toks {
                i + 1
            } else {
                i
            },
        ),
        Result::Ok(j) => {
            match &tokens[j].0 {
                MaybeToken::Colon => {
                    proof {
                        assert(tok_ok(toks[j as int]));
                    }
                    let vx = require_next_token(tokens, j + 1, output, &tokens[j].1);
                    match vx {
                        Result::Err(()) => (
                            Outcome::Failed,
                            if j + 1 < n_toks {
                                j + 2
                            } else {
                                j + 1
                            },
                        ),
                        Result::Ok(k) => {
                            let (st, nx2) = try_value(tokens, k, output);
                            match st {
                                Outcome::Matched => (Outcome::Matched, nx2),
                                Outcome::NoMatch => {
                                    let m = build_msg_value_required(stripped_name.as_str());
                                    push_err(output, m, &tokens[j].1);
                                    (Outcome::Failed, nx2)
                                },
                                Outcome::Failed => (Outcome::Failed, nx2),
                            }
                        },
                    }
                },
                _ => {
                    let m = build_msg_missing_colon(stripped_name.as_str());
                    push_err(output, m, &tokens[j].1);
                    (Outcome::Failed, j + 1)
                },
            }
        },
    }
}

/// The members of an object after its `{`, at cursor `i`; see
/// [`spec_obj_items`] for the `sep`/`pair` bookkeeping.
fn object_items(
    tokens: &Vec<TokenPair>,
    i: usize,
    sep: bool,
    pair: bool,
    lcurly: &TokenInfo,
    output: &mut Vec<Tag>,
) -> (r: (Outcome, usize))
    requires
        i <= tokens@.len(),
        wf_toks(toks_view(tokens@)),
        lcurly@.col + 1 <= usize::MAX,
        lcurly@.start + lcurly@.length <= usize::MAX,
    ensures
        ({
            let res = spec_obj_items(toks_view(tokens@), i as int, sep, pair, lcurly@);
            r.0 == res.status && r.1 == res.next && i <= r.1 <= tokens@.len() && tags_view(
                final(output)@,
            ) == tags_view(old(output)@) + res.tags
        }),
    decreases tokens@.len() - i, 4int,
{
    let ghost toks = toks_view(tokens@);
    let n_toks = tokens.len();
    let nx = require_next_token(tokens, i, output, lcurly);
    match nx {
        Result::Err(()) => (
            Outcome::Failed,
            if i < n_toks {
                i + 1
            } else {
                i
            },
        ),
        Result::Ok(j) => {
            match &tokens[j].0 {
                MaybeToken::StringLiteral(key_name) => {
                    proof {
                        assert(tok_ok(toks[j as int]));
                    }
                    let (st, k) = require_object_kv_pair(
                        tokens,
                        key_name,
                        &tokens[j].1,
                        j + 1,
                        output,
                    );
                    match st {
                        Outcome::Matched => {
                            proof {
                                assert(next_in(
                                    j + 1,
                                    spec_kv_rest(toks, j + 1, key_name@, toks[j as int].1).next,
                                    toks.len() as int,
                                ) == k as int);
                            }
                            let r = object_items(tokens, k, true, false, lcurly, output);
                            proof {
                                assert(tags_view(output@) =~= tags_view(old(output)@)
                                    + spec_obj_items(toks, i as int, sep, pair, lcurly@).tags);
                            }
                            r
                        },
                        _ => (Outcome::Failed, k),
                    }
                },
                MaybeToken::Comma => {
                    if sep {
                        object_items(tokens, j + 1, false, true, lcurly, output)
                    } else {
                        let m = String::from_str(
                            "Syntax error. Encountered unexpected ',' in object",
                        );
                        push_err(output, m, &tokens[j].1);
                        (Outcome::Failed, j + 1)
                    }
                },
                MaybeToken::RightCurly => {
                    if pair {
                        let m = String::from_str(
                            "Expected another key-value pair after comma, but found a '}'",
                        );
                        push_err(output, m, &tokens[j].1);
                        (Outcome::Failed, j + 1)
                    } else {
                        push_tag(output, Tag::EndObject);
                        (Outcome::Matched, j + 1)
                    }
                },
                _ => {
                    if pair {
                        let m = String::from_str("Expected another key-value pair");
                        push_err(output, m, &tokens[j].1);
                    } else if sep {
                        let m = String::from_str("Expected comma or closing curly brace");
                        push_err(output, m, &tokens[j].1);
                    } else {
                        let m = String::from_str("Expected key-value pair or closing curly brace");
                        push_err(output, m, &tokens[j].1);
                    }
                    (Outcome::Failed, j + 1)
                },
            }
        },
    }
}

/// An object value starting at the token `j`, which must be `{` for the
/// production to match.
pub fn try_object(tokens: &Vec<TokenPair>, j: usize, output: &mut Vec<Tag>) -> (r: (Outcome, usize))
    requires
        j < tokens@.len(),
        wf_toks(toks_view(tokens@)),
    ensures
        ({
            let res = spec_object(toks_view(tokens@), j as int);
            r.0 == res.status && r.1 == res.next && j < r.1 <= tokens@.len() && tags_view(
                final(output)@,
            ) == tags_view(old(output)@) + res.tags
        }),
    decreases tokens@.len() - j, 2int,
{
    let ghost toks = toks_view(tokens@);
    let _toks_len = tokens.len();
    match &tokens[j].0 {
        MaybeToken::LeftCurly => {
            proof {
                assert(tok_ok(toks[j as int]));
            }
            push_tag(output, Tag::BeginObject);
            let (st, nx) = object_items(tokens, j + 1, false, false, &tokens[j].1, output);
            let r = match st {
                Outcome::Matched => Outcome::Matched,
                _ => Outcome::Failed,
            };
            proof {
                assert(tags_view(output@) =~= tags_view(old(output)@) + spec_object(
                    toks,
                    j as int,
                ).tags);
            }
            (r, nx)
        },
        _ => (Outcome::NoMatch, j + 1),
    }
}

/// The elements of an array after its `[`, at cursor `i`; see
/// [`spec_arr_items`] for the `sep`/`val` bookkeeping.
fn array_items(
    tokens: &Vec<TokenPair>,
    i: usize,
    sep: bool,
    val: bool,
    lbracket: &TokenInfo,
    output: &mut Vec<Tag>,
) -> (r: (Outcome, usize))
    requires
        i <= tokens@.len(),
        wf_toks(toks_view(tokens@)),
        lbracket@.col + 1 <= usize::MAX,
        lbracket@.start + lbracket@.length <= usize::MAX,
    ensures
        ({
            let res = spec_arr_items(toks_view(tokens@), i as int, sep, val, lbracket@);
            r.0 == res.status && r.1 == res.next && i <= r.1 <= tokens@.len() && tags_view(
                final(output)@,
            ) == tags_view(old(output)@) + res.tags
        }),
    decreases tokens@.len() - i, 4int,
{
    let ghost toks = toks_view(tokens@);
    let n_toks = tokens.len();
    let nx = require_next_token(tokens, i, output, lbracket);
    match nx {
        Result::Err(()) => (
            Outcome::Failed,
            if i < n_toks {
                i + 1
            } else {
                i
            },
        ),
        Result::Ok(j) => {
            match &tokens[j].0 {
                MaybeToken::Comma => {
                    if sep {
                        array_items(tokens, j + 1, false, true, lbracket, output)
                    } else {
                        let m = String::from_str(
                            "Syntax error. Encountered unexpected ',' in array",
                        );
                        push_err(output, m, &tokens[j].1);
                        (Outcome::Failed, j + 1)
                    }
                },
                MaybeToken::RightBracket => {
                    if val {
                        let m = String::from_str(
                            "Expected another value after comma, but found a ']'",
                        );
                        push_err(output, m, &tokens[j].1);
                        (Outcome::Failed, j + 1)
                    } else {
                        push_tag(output, Tag::EndArray);
                        (Outcome::Matched, j + 1)
                    }
                },
                _ => {
                    if sep {
                        let m = String::from_str("Expected comma or closing bracket");
                        push_err(output, m, &tokens[j].1);
                        (Outcome::Failed, j + 1)
                    } else {
                        let (st, nx2) = try_value(tokens, j, output);
                        match st {
                            Outcome::Matched => {
                                proof {
                                    assert(next_in(
                                        j + 1,
                                        spec_value(toks, j as int).next,
                                        toks.len() as int,
                                    ) == nx2 as int);
                                }
                                let r = array_items(tokens, nx2, true, false, lbracket, output);
                                proof {
                                    assert(tags_view(output@) =~= tags_view(old(output)@)
                                        + spec_arr_items(toks, i as int, sep, val, lbracket@).tags);
                                }
                                r
                            },
                            Outcome::NoMatch => {
                                let m = String::from_str("Expected value or closing bracket");
                                push_err(output, m, &tokens[j].1);
                                (Outcome::Failed, nx2)
                            },
                            Outcome::Failed => (Outcome::Failed, nx2),
                        }
                    }
                },
            }
        },
    }
}

/// An array value starting at the token `j`, which must be `[` for the
/// production to match.
pub fn try_array(tokens: &Vec<TokenPair>, j: usize, output: &mut Vec<Tag>) -> (r: (Outcome, usize))
    requires
        j < tokens@.len(),
        wf_toks(toks_view(tokens@)),
    ensures
        ({
            let res = spec_array(toks_view(tokens@), j as int);
            r.0 == res.status && r.1 == res.next && j < r.1 <= tokens@.len() && tags_view(
                final(output)@,
            ) == tags_view(old(output)@) + res.tags
        }),
    decreases tokens@.len() - j, 2int,
{
    let ghost toks = toks_view(tokens@);
    let _toks_len = tokens.len();
    match &tokens[j].0 {
        MaybeToken::LeftBracket => {
            proof {
                assert(tok_ok(toks[j as int]));
            }
            push_tag(output, Tag::BeginArray);
            let (st, nx) = array_items(tokens, j + 1, false, false, &tokens[j].1, output);
            let r = match st {
                Outcome::Matched => Outcome::Matched,
                _ => Outcome::Failed,
            };
            proof {
                assert(tags_view(output@) =~= tags_view(old(output)@) + spec_array(
                    toks,
                    j as int,
                ).tags);
            }
            (r, nx)
        },
        _ => (Outcome::NoMatch, j + 1),
    }
}

/// Any JSON value starting at token `j`: each production is tried in
/// turn, and a token pulled past the value's end is left on the cursor.
pub fn try_value(tokens: &Vec<TokenPair>, j: usize, output: &mut Vec<Tag>) -> (r: (Outcome, usize))
    requires
        j < tokens@.len(),
        wf_toks(toks_view(tokens@)),
    ensures
        ({
            let res = spec_value(toks_view(tokens@), j as int);
            r.0 == res.status && r.1 == res.next && j < r.1 <= tokens@.len() && tags_view(
                final(output)@,
            ) == tags_view(old(output)@) + res.tags
        }),
    decreases tokens@.len() - j, 3int,
{
    let _toks_len = tokens.len();
    match &tokens[j].0 {
        MaybeToken::LeftCurly => try_object(tokens, j, output),
        MaybeToken::LeftBracket => try_array(tokens, j, output),
        MaybeToken::StringLiteral(_) => {
            let worked = try_string(tokens, j, output);
            ((
                if worked {
                    Outcome::Matched
                } else {
                    Outcome::NoMatch
                },
                j + 1,
            ))
        },
        MaybeToken::FalseLiteral | MaybeToken::TrueLiteral | MaybeToken::NullLiteral => {
            let worked = try_literal(tokens, j, output);
            ((
                if worked {
                    Outcome::Matched
                } else {
                    Outcome::NoMatch
                },
                j + 1,
            ))
        },
        _ => try_number(tokens, j, output),
    }
}

/// Parses one JSON document from a finished token stream into its tag
/// stream.  A leading lexical error token is relayed verbatim; any
/// grammar violation ends the stream with exactly one error tag; tokens
/// after the first complete value are not examined.
pub fn parse(token_source: &Vec<TokenPair>) -> (tags: Vec<Tag>)
    requires
        wf_toks(toks_view(token_source@)),
    ensures
        tags_view(tags@) == parse_spec(toks_view(token_source@)),
{
    let ghost toks = toks_view(token_source@);
    let mut output: Vec<Tag> = Vec::new();
    proof {
        assert(tags_view(output@) =~= Seq::<TagSt>::empty());
    }
    if token_source.len() == 0 {
        return output;
    }
    match &token_source[0].0 {
        MaybeToken::Error(e) => {
            let e2 = clone_error_info(e);
            push_tag(&mut output, Tag::Error(e2, token_source[0].1));
            proof {
                assert(tags_view(output@) =~= parse_spec(toks));
            }
        },
        _ => {
            let (st, _leftover) = try_value(token_source, 0, &mut output);
            match st {
                Outcome::NoMatch => {
                    let m = String::from_str("Expected a value");
                    push_err(&mut output, m, &token_source[0].1);
                    proof {
                        assert(tags_view(output@) =~= parse_spec(toks));
                    }
                },
                _ => {
                    proof {
                        assert(tags_view(output@) =~= parse_spec(toks));
                    }
                },
            }
        },
    }
    output
}

// ---------------------------------------------------------------------------
// Nesting of the tag stream
// ---------------------------------------------------------------------------

/// What one tag does to the nesting depth: `BeginObject`/`BeginArray`
/// open a level, `EndObject`/`EndArray` close one, everything else is
/// flat.
pub open spec fn tag_delta(t: TagSt) -> int {
    match t {
        TagSt::BeginObject => 1,
        TagSt::BeginArray => 1,
        TagSt::EndObject => -1,
        TagSt::EndArray => -1,
        _ => 0,
    }
}

/// The nesting depth after a whole sequence of tags.
pub open spec fn depth_sum(s: Seq<TagSt>) -> int
    decreases s.len(),
{
    if s.len() == 0 {
        0
    } else {
        depth_sum(s.drop_last()) + tag_delta(s.last())
    }
}

/// A streaming depth counter over `s` never goes negative and returns to
/// zero at the end.
pub open spec fn balanced(s: Seq<TagSt>) -> bool {
    &&& depth_sum(s) == 0
    &&& forall|i: int| 0 <= i <= s.len() ==> depth_sum(#[trigger] s.take(i)) >= 0
}

/// The tags that finish one open level: the counter stays nonnegative on
/// every proper prefix and ends one below where it started.
pub open spec fn closes_one(s: Seq<TagSt>) -> bool {
    &&& depth_sum(s) == -1
    &&& forall|i: int| 0 <= i < s.len() ==> depth_sum(#[trigger] s.take(i)) >= 0
}

proof fn lemma_depth_sum_app(a: Seq<TagSt>, b: Seq<TagSt>)
    ensures
        depth_sum(a + b) == depth_sum(a) + depth_sum(b),
    decreases b.len(),
{
    if b.len() == 0 {
        assert(a + b =~= a);
    } else {
        lemma_depth_sum_app(a, b.drop_last());
        assert((a + b).drop_last() =~= a + b.drop_last());
        assert((a + b).last() == b.last());
    }
}

proof fn lemma_depth_sum_single(t: TagSt)
    ensures
        depth_sum(seq![t]) == tag_delta(t),
{
    assert(seq![t].len() == 1);
    assert(seq![t].drop_last() =~= Seq::<TagSt>::empty());
    assert(seq![t].last() == t);
    assert(depth_sum(Seq::<TagSt>::empty()) == 0);
}

proof fn lemma_balanced_app(a: Seq<TagSt>, b: Seq<TagSt>)
    requires
        balanced(a),
        balanced(b),
    ensures
        balanced(a + b),
{
    lemma_depth_sum_app(a, b);
    assert forall|i: int| 0 <= i <= (a + b).len() implies depth_sum(#[trigger] (a + b).take(i))
        >= 0 by {
        if i <= a.len() {
            assert((a + b).take(i) =~= a.take(i));
        } else {
            assert((a + b).take(i) =~= a + b.take(i - a.len()));
            lemma_depth_sum_app(a, b.take(i - a.len()));
        }
    }
}

proof fn lemma_balanced_closes(a: Seq<TagSt>, b: Seq<TagSt>)
    requires
        balanced(a),
        closes_one(b),
    ensures
        closes_one(a + b),
{
    lemma_depth_sum_app(a, b);
    assert forall|i: int| 0 <= i < (a + b).len() implies depth_sum(#[trigger] (a + b).take(i))
        >= 0 by {
        if i <= a.len() {
            assert((a + b).take(i) =~= a.take(i));
        } else {
            assert((a + b).take(i) =~= a + b.take(i - a.len()));
            lemma_depth_sum_app(a, b.take(i - a.len()));
        }
    }
}

proof fn lemma_open_then_closes(t: TagSt, b: Seq<TagSt>)
    requires
        tag_delta(t) == 1,
        closes_one(b),
    ensures
        balanced(seq![t] + b),
{
    lemma_depth_sum_app(seq![t], b);
    lemma_depth_sum_single(t);
    assert forall|i: int| 0 <= i <= (seq![t] + b).len() implies depth_sum(
        #[trigger] (seq![t] + b).take(i),
    ) >= 0 by {
        if i == 0 {
            assert((seq![t] + b).take(0) =~= Seq::<TagSt>::empty());
        } else {
            assert((seq![t] + b).take(i) =~= seq![t] + b.take(i - 1));
            lemma_depth_sum_app(seq![t], b.take(i - 1));
            if i - 1 == b.len() {
                assert(b.take(i - 1) =~= b);
            }
        }
    }
}

proof fn lemma_single_balanced(t: TagSt)
    requires
        tag_delta(t) == 0,
    ensures
        balanced(seq![t]),
{
    lemma_depth_sum_single(t);
    assert forall|i: int| 0 <= i <= 1 implies depth_sum(#[trigger] seq![t].take(i)) >= 0 by {
        if i == 0 {
            assert(seq![t].take(0) =~= Seq::<TagSt>::empty());
        } else {
            assert(seq![t].take(1) =~= seq![t]);
        }
    }
}

proof fn lemma_single_closes(t: TagSt)
    requires
        tag_delta(t) == -1,
    ensures
        closes_one(seq![t]),
{
    lemma_depth_sum_single(t);
    assert forall|i: int| 0 <= i < 1 implies depth_sum(#[trigger] seq![t].take(i)) >= 0 by {
        assert(seq![t].take(0) =~= Seq::<TagSt>::empty());
    }
}

/// A matched number emits one flat tag.
proof fn lemma_number_balanced(toks: Seq<(TokenSt, PosSt)>, j: int)
    requires
        spec_number(toks, j).status is Matched,
    ensures
        balanced(spec_number(toks, j).tags),
{
    let res = spec_number(toks, j);
    assert(res.tags.len() == 1 && tag_delta(res.tags[0]) == 0);
    assert(res.tags =~= seq![res.tags[0]]);
    lemma_single_balanced(res.tags[0]);
}

/// A matched value emits a balanced tag sequence.
pub proof fn lemma_value_balanced(toks: Seq<(TokenSt, PosSt)>, j: int)
    requires
        spec_value(toks, j).status is Matched,
    ensures
        balanced(spec_value(toks, j).tags),
    decreases toks.len() - j, 3int,
{
    if !(0 <= j < toks.len()) {
    } else if toks[j].0 is LCurly {
        let inner = spec_obj_items(toks, j + 1, false, false, toks[j].1);
        lemma_obj_items_closes(toks, j + 1, false, false, toks[j].1);
        lemma_open_then_closes(TagSt::BeginObject, inner.tags);
    } else if toks[j].0 is LBracket {
        let inner = spec_arr_items(toks, j + 1, false, false, toks[j].1);
        lemma_arr_items_closes(toks, j + 1, false, false, toks[j].1);
        lemma_open_then_closes(TagSt::BeginArray, inner.tags);
    } else if toks[j].0 is Text {
        let res = spec_string(toks, j);
        assert(res.tags =~= seq![res.tags[0]]);
        lemma_single_balanced(res.tags[0]);
    } else if toks[j].0 is False || toks[j].0 is True || toks[j].0 is Null {
        let res = spec_literal(toks, j);
        assert(res.tags =~= seq![res.tags[0]]);
        lemma_single_balanced(res.tags[0]);
    } else {
        lemma_number_balanced(toks, j);
    }
}

/// A matched `key: value` member emits a balanced tag sequence.
proof fn lemma_kv_rest_balanced(toks: Seq<(TokenSt, PosSt)>, i: int, key: Seq<char>, key_pos: PosSt)
    requires
        spec_kv_rest(toks, i, key, key_pos).status is Matched,
    ensures
        balanced(spec_kv_rest(toks, i, key, key_pos).tags),
    decreases toks.len() - i, 0int,
{
    lemma_value_balanced(toks, i + 1);
}

/// The member list of an object, once matched, closes exactly the level
/// its `{` opened and never dips below it.
proof fn lemma_obj_items_closes(
    toks: Seq<(TokenSt, PosSt)>,
    i: int,
    sep: bool,
    pair: bool,
    lpos: PosSt,
)
    requires
        spec_obj_items(toks, i, sep, pair, lpos).status is Matched,
    ensures
        closes_one(spec_obj_items(toks, i, sep, pair, lpos).tags),
    decreases toks.len() - i, 4int,
{
    if i >= toks.len() {
    } else if toks[i].0 is ErrTok {
    } else if toks[i].0 is Text {
        let key = toks[i].0->Text_0;
        let prefix = seq![TagSt::ObjectKey(strip_quotes_sp(key))];
        let kv = spec_kv_rest(toks, i + 1, key, toks[i].1);
        if kv.status is Matched {
            let nx = next_in(i + 1, kv.next, toks.len() as int);
            let rest = spec_obj_items(toks, nx, true, false, lpos);
            lemma_kv_rest_balanced(toks, i + 1, key, toks[i].1);
            lemma_obj_items_closes(toks, nx, true, false, lpos);
            lemma_single_balanced(TagSt::ObjectKey(strip_quotes_sp(key)));
            lemma_balanced_app(prefix, kv.tags);
            lemma_balanced_closes(prefix + kv.tags, rest.tags);
            assert((prefix + kv.tags) + rest.tags =~= prefix + kv.tags + rest.tags);
        }
    } else if toks[i].0 is Comma {
        if sep {
            lemma_obj_items_closes(toks, i + 1, false, true, lpos);
        }
    } else if toks[i].0 is RCurly {
        if !pair {
            lemma_single_closes(TagSt::EndObject);
        }
    }
}

/// The element list of an array, once matched, closes exactly the level
/// its `[` opened and never dips below it.
proof fn lemma_arr_items_closes(
    toks: Seq<(TokenSt, PosSt)>,
    i: int,
    sep: bool,
    val: bool,
    lpos: PosSt,
)
    requires
        spec_arr_items(toks, i, sep, val, lpos).status is Matched,
    ensures
        closes_one(spec_arr_items(toks, i, sep, val, lpos).tags),
    decreases toks.len() - i, 4int,
{
    if i >= toks.len() {
    } else if toks[i].0 is ErrTok {
    } else if toks[i].0 is Comma {
        if sep {
            lemma_arr_items_closes(toks, i + 1, false, true, lpos);
        }
    } else if toks[i].0 is RBracket {
        if !val {
            lemma_single_closes(TagSt::EndArray);
        }
    } else {
        if !sep {
            let v = spec_value(toks, i);
            if v.status is Matched {
                let nx = next_in(i + 1, v.next, toks.len() as int);
                lemma_value_balanced(toks, i);
                lemma_arr_items_closes(toks, nx, true, false, lpos);
                lemma_balanced_closes(v.tags, spec_arr_items(toks, nx, true, false, lpos).tags);
            }
        }
    }
}

/// A syntactically valid document: the token stream opens with a real
/// token and one whole JSON value matches from it.
pub open spec fn doc_matches(toks: Seq<(TokenSt, PosSt)>) -> bool {
    toks.len() > 0 && !(toks[0].0 is ErrTok) && spec_value(toks, 0).status is Matched
}

/// For a syntactically valid document the `BeginObject`/`EndObject` and
/// `BeginArray`/`EndArray` tags nest correctly: a streaming depth
/// counter over the tag stream never goes negative and returns to zero
/// at the end.
pub proof fn lemma_parse_balanced(toks: Seq<(TokenSt, PosSt)>)
    requires
        doc_matches(toks),
    ensures
        balanced(parse_spec(toks)),
{
    lemma_value_balanced(toks, 0);
}

// ---------------------------------------------------------------------------
// The first error ends the stream
// ---------------------------------------------------------------------------

pub open spec fn is_err_tag(t: TagSt) -> bool {
    t is ErrTag
}

/// No tag in `s` is an error tag.
pub open spec fn error_free(s: Seq<TagSt>) -> bool {
    forall|i: int| 0 <= i < s.len() ==> !is_err_tag(#[trigger] s[i])
}

/// `s` is a run of valid tags with exactly one error tag, at its end.
pub open spec fn one_error_last(s: Seq<TagSt>) -> bool {
    s.len() > 0 && is_err_tag(s.last()) && error_free(s.drop_last())
}

proof fn lemma_error_free_app(a: Seq<TagSt>, b: Seq<TagSt>)
    requires
        error_free(a),
        error_free(b),
    ensures
        error_free(a + b),
{
    assert forall|i: int| 0 <= i < (a + b).len() implies !is_err_tag(#[trigger] (a + b)[i]) by {
        if i < a.len() {
            assert((a + b)[i] == a[i]);
        } else {
            assert((a + b)[i] == b[i - a.len()]);
        }
    }
}

proof fn lemma_one_error_app(a: Seq<TagSt>, b: Seq<TagSt>)
    requires
        error_free(a),
        one_error_last(b),
    ensures
        one_error_last(a + b),
{
    assert((a + b).last() == b.last());
    assert((a + b).drop_last() =~= a + b.drop_last());
    lemma_error_free_app(a, b.drop_last());
}

/// A single tag is either one terminal error or error free.
proof fn lemma_singleton_classify(s: Seq<TagSt>)
    requires
        s.len() == 1,
    ensures
        is_err_tag(s[0]) ==> one_error_last(s),
        !is_err_tag(s[0]) ==> error_free(s),
{
    assert(s.drop_last() =~= Seq::<TagSt>::empty());
    assert(s.last() == s[0]);
}

/// A number attempt emits no tag, one number tag, or one terminal error.
proof fn lemma_number_errors(toks: Seq<(TokenSt, PosSt)>, j: int)
    ensures
        spec_number(toks, j).status is Failed ==> one_error_last(spec_number(toks, j).tags),
        !(spec_number(toks, j).status is Failed) ==> error_free(spec_number(toks, j).tags),
{
    let res = spec_number(toks, j);
    if res.status is NoMatch {
        assert(res.tags.len() == 0);
    } else {
        assert(res.tags.len() == 1 && (res.status is Failed <==> is_err_tag(res.tags[0])));
        lemma_singleton_classify(res.tags);
    }
}

/// A value's tags are error free when it matches, and otherwise end with
/// the single error that stopped the parse.
pub proof fn lemma_value_errors(toks: Seq<(TokenSt, PosSt)>, j: int)
    ensures
        spec_value(toks, j).status is Failed ==> one_error_last(spec_value(toks, j).tags),
        !(spec_value(toks, j).status is Failed) ==> error_free(spec_value(toks, j).tags),
    decreases toks.len() - j, 3int,
{
    let res = spec_value(toks, j);
    if !(0 <= j < toks.len()) {
    } else if toks[j].0 is LCurly {
        let inner = spec_obj_items(toks, j + 1, false, false, toks[j].1);
        lemma_obj_items_errors(toks, j + 1, false, false, toks[j].1);
        if inner.status is Matched {
            lemma_error_free_app(seq![TagSt::BeginObject], inner.tags);
        } else {
            lemma_one_error_app(seq![TagSt::BeginObject], inner.tags);
        }
    } else if toks[j].0 is LBracket {
        let inner = spec_arr_items(toks, j + 1, false, false, toks[j].1);
        lemma_arr_items_errors(toks, j + 1, false, false, toks[j].1);
        if inner.status is Matched {
            lemma_error_free_app(seq![TagSt::BeginArray], inner.tags);
        } else {
            lemma_one_error_app(seq![TagSt::BeginArray], inner.tags);
        }
    } else if toks[j].0 is Text {
        lemma_singleton_classify(spec_string(toks, j).tags);
    } else if toks[j].0 is False || toks[j].0 is True || toks[j].0 is Null {
        lemma_singleton_classify(spec_literal(toks, j).tags);
    } else {
        lemma_number_errors(toks, j);
    }
}

proof fn lemma_kv_rest_errors(toks: Seq<(TokenSt, PosSt)>, i: int, key: Seq<char>, key_pos: PosSt)
    ensures
        spec_kv_rest(toks, i, key, key_pos).status is Failed ==> one_error_last(
            spec_kv_rest(toks, i, key, key_pos).tags,
        ),
        !(spec_kv_rest(toks, i, key, key_pos).status is Failed) ==> error_free(
            spec_kv_rest(toks, i, key, key_pos).tags,
        ),
    decreases toks.len() - i, 0int,
{
    let res = spec_kv_rest(toks, i, key, key_pos);
    if i >= toks.len() {
        lemma_singleton_classify(res.tags);
    } else if toks[i].0 is ErrTok {
        lemma_singleton_classify(res.tags);
    } else if toks[i].0 is Colon {
        if i + 1 >= toks.len() {
            lemma_singleton_classify(res.tags);
        } else if toks[i + 1].0 is ErrTok {
            lemma_singleton_classify(res.tags);
        } else {
            let v = spec_value(toks, i + 1);
            lemma_value_errors(toks, i + 1);
            if v.status is NoMatch {
                lemma_singleton_classify(
                    seq![err_tag(msg_value_required(strip_quotes_sp(key)), toks[i].1)],
                );
                lemma_one_error_app(
                    v.tags,
                    seq![err_tag(msg_value_required(strip_quotes_sp(key)), toks[i].1)],
                );
            }
        }
    } else {
        lemma_singleton_classify(res.tags);
    }
}

proof fn lemma_obj_items_errors(
    toks: Seq<(TokenSt, PosSt)>,
    i: int,
    sep: bool,
    pair: bool,
    lpos: PosSt,
)
    ensures
        spec_obj_items(toks, i, sep, pair, lpos).status is Matched ==> error_free(
            spec_obj_items(toks, i, sep, pair, lpos).tags,
        ),
        !(spec_obj_items(toks, i, sep, pair, lpos).status is Matched) ==> one_error_last(
            spec_obj_items(toks, i, sep, pair, lpos).tags,
        ),
    decreases toks.len() - i, 4int,
{
    let res = spec_obj_items(toks, i, sep, pair, lpos);
    if i >= toks.len() {
        lemma_singleton_classify(res.tags);
    } else if toks[i].0 is ErrTok {
        lemma_singleton_classify(res.tags);
    } else if toks[i].0 is Text {
        let key = toks[i].0->Text_0;
        let prefix = seq![TagSt::ObjectKey(strip_quotes_sp(key))];
        let kv = spec_kv_rest(toks, i + 1, key, toks[i].1);
        lemma_kv_rest_errors(toks, i + 1, key, toks[i].1);
        if kv.status is Matched {
            let nx = next_in(i + 1, kv.next, toks.len() as int);
            let rest = spec_obj_items(toks, nx, true, false, lpos);
            lemma_obj_items_errors(toks, nx, true, false, lpos);
            lemma_error_free_app(prefix, kv.tags);
            if rest.status is Matched {
                lemma_error_free_app(prefix + kv.tags, rest.tags);
            } else {
                lemma_one_error_app(prefix + kv.tags, rest.tags);
            }
            assert((prefix + kv.tags) + rest.tags =~= prefix + kv.tags + rest.tags);
        } else {
            lemma_one_error_app(prefix, kv.tags);
        }
    } else if toks[i].0 is Comma {
        if sep {
            lemma_obj_items_errors(toks, i + 1, false, true, lpos);
        } else {
            lemma_singleton_classify(res.tags);
        }
    } else if toks[i].0 is RCurly {
        lemma_singleton_classify(res.tags);
    } else {
        lemma_singleton_classify(res.tags);
    }
}

proof fn lemma_arr_items_errors(
    toks: Seq<(TokenSt, PosSt)>,
    i: int,
    sep: bool,
    val: bool,
    lpos: PosSt,
)
    ensures
        spec_arr_items(toks, i, sep, val, lpos).status is Matched ==> error_free(
            spec_arr_items(toks, i, sep, val, lpos).tags,
        ),
        !(spec_arr_items(toks, i, sep, val, lpos).status is Matched) ==> one_error_last(
            spec_arr_items(toks, i, sep, val, lpos).tags,
        ),
    decreases toks.len() - i, 4int,
{
    let res = spec_arr_items(toks, i, sep, val, lpos);
    if i >= toks.len() {
        lemma_singleton_classify(res.tags);
    } else if toks[i].0 is ErrTok {
        lemma_singleton_classify(res.tags);
    } else if toks[i].0 is Comma {
        if sep {
            lemma_arr_items_errors(toks, i + 1, false, true, lpos);
        } else {
            lemma_singleton_classify(res.tags);
        }
    } else if toks[i].0 is RBracket {
        lemma_singleton_classify(res.tags);
    } else {
        if sep {
            lemma_singleton_classify(res.tags);
        } else {
            let v = spec_value(toks, i);
            lemma_value_errors(toks, i);
            if v.status is Matched {
                let nx = next_in(i + 1, v.next, toks.len() as int);
                let rest = spec_arr_items(toks, nx, true, false, lpos);
                lemma_arr_items_errors(toks, nx, true, false, lpos);
                if rest.status is Matched {
                    lemma_error_free_app(v.tags, rest.tags);
                } else {
                    lemma_one_error_app(v.tags, rest.tags);
                }
            } else if v.status is NoMatch {
                lemma_singleton_classify(seq![err_tag(msg_arr_value(), toks[i].1)]);
                lemma_one_error_app(v.tags, seq![err_tag(msg_arr_value(), toks[i].1)]);
            }
        }
    }
}

/// The first error is terminal: whatever the token stream, a consumer
/// sees a possibly empty run of valid tags and then either the end of
/// the stream or exactly one error tag, which ends it.
pub proof fn lemma_parse_one_error(toks: Seq<(TokenSt, PosSt)>)
    ensures
        error_free(parse_spec(toks)) || one_error_last(parse_spec(toks)),
{
    if toks.len() == 0 {
    } else if toks[0].0 is ErrTok {
        lemma_singleton_classify(parse_spec(toks));
    } else {
        let v = spec_value(toks, 0);
        lemma_value_errors(toks, 0);
        if v.status is NoMatch {
            lemma_singleton_classify(seq![err_tag(msg_no_value(), toks[0].1)]);
            lemma_one_error_app(v.tags, seq![err_tag(msg_no_value(), toks[0].1)]);
        }
    }
}

// ---------------------------------------------------------------------------
// Draining a finished tag stream
// ---------------------------------------------------------------------------

/// A one-way, non-restartable drain over a finished tag stream, the shape
/// in which a consumer sees the parser's output: each pull hands out the
/// next tag exactly once, and once the stream is exhausted every further
/// pull yields nothing — stream end, not an error.
pub struct TagStream {
    tags: Vec<Tag>,
}

impl TagStream {
    /// The tags still to be handed out, in order.
    pub closed spec fn remaining(&self) -> Seq<TagSt> {
        tags_view(self.tags@)
    }

    /// A drain over a whole tag stream.
    pub fn new(tags: Vec<Tag>) -> (s: TagStream)
        ensures
            s.remaining() == tags_view(tags@),
    {
        TagStream { tags }
    }

    /// The next tag, or nothing at stream end.  Pulling from an
    /// exhausted stream changes nothing and keeps yielding nothing:
    /// draining an already drained stream is a no-op, not an error.
    pub fn next(&mut self) -> (r: Option<Tag>)
        ensures
            old(self).remaining().len() == 0 ==> r is None && final(self).remaining()
                == old(self).remaining(),
            old(self).remaining().len() > 0 ==> (r matches Option::Some(t) && t@ == old(
                self,
            ).remaining()[0] && final(self).remaining() == old(self).remaining().drop_first()),
    {
        if self.tags.len() == 0 {
            Option::None
        } else {
            let t = self.tags.remove(0);
            proof {
                assert(tags_view(self.tags@) =~= tags_view(old(self).tags@).drop_first());
            }
            Option::Some(t)
        }
    }
}

} // verus!
