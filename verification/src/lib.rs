//! A streaming JSON lexer and parser.
//!
//! The input arrives as a sequence of text chunks whose boundaries are
//! arbitrary: a chunk may end in the middle of a token, of an escape
//! sequence, or between the two halves of a `\r\n` pair.  The lexer turns
//! the chunks into tokens with exact line/column/offset positions, and the
//! parser turns the tokens into a flat stream of structural tags.  Both are
//! specified against mathematical models of their state machines, so the
//! token stream is proved to depend only on the concatenated text, and the
//! tag stream of a successful parse is proved to nest correctly.

pub mod lexer;
pub mod parser;

use vstd::prelude::*;

verus! {

use crate::lexer::{
    MaybeToken, TokenInfo, chunks_ok, lex_chunks_spec, lex_finish, lex_init, lex_scan, lex_wf,
    concat_chunks, lemma_finish_wf, lemma_scan_wf, tok_wf,
};
use crate::parser::{
    Tag, TagSt, balanced, doc_matches, error_free, lemma_parse_balanced, lemma_parse_one_error,
    one_error_last, parse_spec, tags_view, tok_ok, wf_toks,
};

/// The tag stream of the whole pipeline on a chunked input: the
/// concatenated text is scanned into tokens and the tokens are parsed.
pub open spec fn parse_pipeline_spec(chunks: Seq<Seq<char>>) -> Seq<TagSt> {
    parse_spec(lex_chunks_spec(chunks))
}

/// Every token the scanner emits is well formed for the parser: string
/// tokens keep both quotes, and position arithmetic stays inside `usize`.
pub proof fn lemma_lex_tokens_wf(chunks: Seq<Seq<char>>)
    requires
        chunks_ok(chunks),
    ensures
        wf_toks(lex_chunks_spec(chunks)),
{
    let text = concat_chunks(chunks);
    let scanned = lex_scan(lex_init(), text);
    let fin = lex_finish(scanned);
    assert(lex_wf(lex_init()));
    lemma_scan_wf(lex_init(), text);
    lemma_finish_wf(scanned);
    assert forall|i: int| 0 <= i < fin.out.len() implies tok_ok(#[trigger] fin.out[i]) by {
        assert(tok_wf(fin.out[i], fin.seen as int));
        assert(fin.seen <= text.len());
    }
}

/// For any chunked input whose concatenated text is a syntactically
/// valid document, the pipeline's begin/end tags nest correctly: a
/// streaming depth counter never goes negative and returns to zero at
/// the end of the stream.
pub proof fn lemma_pipeline_balanced(chunks: Seq<Seq<char>>)
    requires
        doc_matches(lex_chunks_spec(chunks)),
    ensures
        balanced(parse_pipeline_spec(chunks)),
{
    lemma_parse_balanced(lex_chunks_spec(chunks));
}

/// On any chunked input at all, the pipeline's tag stream is a possibly
/// empty run of valid tags followed by at most one error tag, which ends
/// the stream.
pub proof fn lemma_pipeline_one_error(chunks: Seq<Seq<char>>)
    ensures
        error_free(parse_pipeline_spec(chunks)) || one_error_last(parse_pipeline_spec(chunks)),
{
    lemma_parse_one_error(lex_chunks_spec(chunks));
}

/// Runs the whole pipeline on a chunked input: lexing, then parsing.
///
/// The result is exactly the parse of the token stream of the
/// concatenated text; by `lexer::lemma_chunking_irrelevant` it does not
/// depend on where the chunk boundaries fall.
pub fn parse(utf8_source: &Vec<String>) -> (tags: Vec<Tag>)
    requires
        chunks_ok(utf8_source@.map(|i: int, s: String| s@)),
    ensures
        tags_view(tags@) == parse_pipeline_spec(utf8_source@.map(|i: int, s: String| s@)),
{
    let tokens: Vec<(MaybeToken, TokenInfo)> = crate::lexer::lex(utf8_source);
    proof {
        lemma_lex_tokens_wf(utf8_source@.map(|i: int, s: String| s@));
    }
    crate::parser::parse(&tokens)
}

} // verus!
