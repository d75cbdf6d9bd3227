//! Nushell's lexer, as the formatter sees it.
//!
//! The tokens come from `nu_parser::lex`; each is kept as its kind and its
//! byte span in the lexed text.
use std::sync::Arc;

use nu_parser::LiteBlock;
use nu_protocol::ParseError;
use nu_protocol::ast::Block;
use nu_protocol::engine::{EngineState, StateWorkingSet};
use vstd::prelude::*;

use crate::laws::tokens_cover_lines;
use crate::text::{byte_len, chars_of, push_chars, string_of};

verus! {

/// The error that Nushell's lexer reports.
#[verifier::external_type_specification]
#[verifier::external_body]
pub struct ExParseError(ParseError);

/// The kinds of token that Nushell's lexer tells apart
/// (the variants of `nu_parser::TokenContents`, in their order).
#[derive(Clone, Copy, Debug, PartialEq, Eq, Structural)]
pub enum TokenKind {
    Item,
    Comment,
    Pipe,
    PipePipe,
    AssignmentOperator,
    ErrGreaterPipe,
    OutErrGreaterPipe,
    Semicolon,
    OutGreaterThan,
    OutGreaterGreaterThan,
    ErrGreaterThan,
    ErrGreaterGreaterThan,
    OutErrGreaterThan,
    OutErrGreaterGreaterThan,
    Eol,
}

/// A token: its kind and the byte range `start..end` that it covers in the lexed text.
#[derive(Clone, Copy, Debug, PartialEq, Eq, Structural)]
pub struct LexToken {
    pub kind: TokenKind,
    pub start: usize,
    pub end: usize,
}

/// The lexer's output for a whole document.
#[derive(Debug)]
pub struct LexedDocument {
    pub tokens: Vec<LexToken>,
    pub lex_error: Option<ParseError>,
}

/// Whether `b` is a byte offset of `s` at which a character starts (or `s` ends).
pub open spec fn is_char_offset(s: Seq<char>, b: int) -> bool {
    exists|i: int| 0 <= i <= s.len() && byte_len(s.take(i)) == b
}

/// What `nu_parser::lex` returns for a text (lexed from offset 0, with no extra
/// whitespace or special bytes, keeping comments): each token as the position of
/// its kind in `TokenContents` and its span, and whether an error was reported.
pub uninterp spec fn nu_lex(source: Seq<char>) -> (Seq<(u8, usize, usize)>, bool);

/// The kind that stands at a position of `TokenContents`.
pub open spec fn kind_at(code: u8) -> TokenKind {
    if code == 0 {
        TokenKind::Item
    } else if code == 1 {
        TokenKind::Comment
    } else if code == 2 {
        TokenKind::Pipe
    } else if code == 3 {
        TokenKind::PipePipe
    } else if code == 4 {
        TokenKind::AssignmentOperator
    } else if code == 5 {
        TokenKind::ErrGreaterPipe
    } else if code == 6 {
        TokenKind::OutErrGreaterPipe
    } else if code == 7 {
        TokenKind::Semicolon
    } else if code == 8 {
        TokenKind::OutGreaterThan
    } else if code == 9 {
        TokenKind::OutGreaterGreaterThan
    } else if code == 10 {
        TokenKind::ErrGreaterThan
    } else if code == 11 {
        TokenKind::ErrGreaterGreaterThan
    } else if code == 12 {
        TokenKind::OutErrGreaterThan
    } else if code == 13 {
        TokenKind::OutErrGreaterGreaterThan
    } else {
        TokenKind::Eol
    }
}

/// The token that a raw lexer entry stands for.
pub open spec fn token_of(raw: (u8, usize, usize)) -> LexToken {
    LexToken { kind: kind_at(raw.0), start: raw.1, end: raw.2 }
}

/// The tokens of a text, as the formatter sees them.
pub open spec fn lexed_tokens(source: Seq<char>) -> Seq<LexToken> {
    nu_lex(source).0.map_values(|raw: (u8, usize, usize)| token_of(raw))
}

/// Whether every token lies inside the text and starts and ends where characters start.
pub open spec fn spans_fit(source: Seq<char>, tokens: Seq<LexToken>) -> bool {
    forall|k: int|
        #![trigger tokens[k]]
        0 <= k < tokens.len() ==> {
            &&& tokens[k].start <= tokens[k].end <= byte_len(source)
            &&& is_char_offset(source, tokens[k].start as int)
            &&& is_char_offset(source, tokens[k].end as int)
        }
}

/// Calls `nu_parser::lex` on the UTF-8 bytes of `file_text`.
///
/// Trusted: the tokens and the error flag are what `nu_lex` names. Of the
/// spans the contract claims what the lexer's source shows: every token starts
/// at the text's start, at a previous token's end or right after an ASCII byte,
/// and ends right after an ASCII byte or at the text's end, so its span lies in
/// the text and falls on character boundaries; and each kind is one of the 15
/// positions of `TokenContents`. Of a text lexed without error it also claims
/// `tokens_cover_lines`: `lex_internal` skips only spaces, tabs, carriage
/// returns and line breaks between tokens, `lex_item` gives each token the
/// whole run of bytes it consumed, and a comment runs to the end of its line,
/// so on a line that no token reaches past, the tokens inside the line carry
/// all of its visible characters in order, a comment last. Which tokens come
/// out is not stated otherwise.
#[verifier::external_body]
fn lex_source(file_text: &str) -> (res: (Vec<(u8, usize, usize)>, Option<ParseError>))
    ensures
        res.0@ == nu_lex(file_text@).0,
        res.1.is_some() == nu_lex(file_text@).1,
        forall|k: int|
            #![trigger res.0@[k]]
            0 <= k < res.0@.len() ==> {
                &&& res.0@[k].0 < 15
                &&& res.0@[k].1 <= res.0@[k].2 <= byte_len(file_text@)
                &&& is_char_offset(file_text@, res.0@[k].1 as int)
                &&& is_char_offset(file_text@, res.0@[k].2 as int)
            },
        res.1 is None ==> tokens_cover_lines(file_text@),
{
    let (tokens, lex_error) = nu_parser::lex(file_text.as_bytes(), 0, &[], &[], false);
    let tokens = tokens.iter().map(|t| (t.contents as u8, t.span.start, t.span.end)).collect();
    (tokens, lex_error)
}

fn kind_of_code(code: u8) -> (k: TokenKind)
    ensures
        k == kind_at(code),
{
    match code {
        0 => TokenKind::Item,
        1 => TokenKind::Comment,
        2 => TokenKind::Pipe,
        3 => TokenKind::PipePipe,
        4 => TokenKind::AssignmentOperator,
        5 => TokenKind::ErrGreaterPipe,
        6 => TokenKind::OutErrGreaterPipe,
        7 => TokenKind::Semicolon,
        8 => TokenKind::OutGreaterThan,
        9 => TokenKind::OutGreaterGreaterThan,
        10 => TokenKind::ErrGreaterThan,
        11 => TokenKind::ErrGreaterGreaterThan,
        12 => TokenKind::OutErrGreaterThan,
        13 => TokenKind::OutErrGreaterGreaterThan,
        _ => TokenKind::Eol,
    }
}

/// Lexes a document with Nushell's lexer.
pub fn lex_document(file_text: &str) -> (res: LexedDocument)
    ensures
        res.tokens@ == lexed_tokens(file_text@),
        res.lex_error.is_some() == nu_lex(file_text@).1,
        spans_fit(file_text@, res.tokens@),
        res.lex_error is None ==> tokens_cover_lines(file_text@),
{
    let (raw, lex_error) = lex_source(file_text);
    let mut tokens: Vec<LexToken> = Vec::new();
    let mut i: usize = 0;
    while i < raw.len()
        invariant
            0 <= i <= raw.len(),
            raw@ == nu_lex(file_text@).0,
            tokens@ == raw@.take(i as int).map_values(|r: (u8, usize, usize)| token_of(r)),
            forall|k: int|
                #![trigger raw@[k]]
                0 <= k < raw@.len() ==> {
                    &&& raw@[k].1 <= raw@[k].2 <= byte_len(file_text@)
                    &&& is_char_offset(file_text@, raw@[k].1 as int)
                    &&& is_char_offset(file_text@, raw@[k].2 as int)
                },
        decreases raw.len() - i,
    {
        let (code, start, end) = raw[i];
        tokens.push(LexToken { kind: kind_of_code(code), start, end });
        proof {
            assert(raw@.take(i + 1).map_values(|r: (u8, usize, usize)| token_of(r)) =~= raw@.take(
                i as int,
            ).map_values(|r: (u8, usize, usize)| token_of(r)).push(token_of(raw@[i as int])));
        }
        i = i + 1;
    }
    assert(raw@.take(raw@.len() as int) =~= raw@);
    proof {
        let toks = tokens@;
        assert forall|k: int| #![trigger toks[k]] 0 <= k < toks.len() implies {
            &&& toks[k].start <= toks[k].end <= byte_len(file_text@)
            &&& is_char_offset(file_text@, toks[k].start as int)
            &&& is_char_offset(file_text@, toks[k].end as int)
        } by {
            assert(toks[k] == token_of(raw@[k]));
        }
    }
    LexedDocument { tokens, lex_error }
}


/// The lite parser's grouping of tokens into pipelines and commands.
#[verifier::external_type_specification]
#[verifier::external_body]
pub struct ExLiteBlock(LiteBlock);

/// Nushell's parsed syntax tree of a document.
#[verifier::external_type_specification]
#[verifier::external_body]
pub struct ExBlock(Block);

/// A document run through the lexer and the lite parser.
#[derive(Debug)]
pub struct LiteParsedDocument {
    pub block: LiteBlock,
    pub lex_error: Option<ParseError>,
    pub lite_error: Option<ParseError>,
}

/// A document run through the lexer, the lite parser and the full parser.
#[derive(Debug)]
pub struct ParsedDocument {
    pub lexed: LexedDocument,
    pub lite_block: LiteBlock,
    pub lite_error: Option<ParseError>,
    pub ast: Arc<Block>,
    pub parse_errors: Vec<ParseError>,
    /// The file name that the parser was given.
    pub parsed_name: Option<String>,
    /// The text that the parser was given.
    pub parsed_text: String,
}

/// Whether `nu_parser::lite_parse`, run on the tokens that `nu_parser::lex`
/// gives for a text, reports an error.
pub uninterp spec fn nu_lite_parse_error(source: Seq<char>) -> bool;

/// Calls `nu_parser::lite_parse` on the tokens that `nu_parser::lex` gives for
/// `file_text` (as `lex_source` lexes it), with a fresh `EngineState`.
/// Trusted: whether an error comes back is what `nu_lite_parse_error` names
/// (the lite parser reads only the tokens and the text). Nothing is claimed of
/// the block, which the library only carries.
#[verifier::external_body]
fn lite_parse_text(file_text: &str) -> (res: (LiteBlock, Option<ParseError>))
    ensures
        res.1.is_some() == nu_lite_parse_error(file_text@),
{
    let engine_state = EngineState::new();
    let working_set = StateWorkingSet::new(&engine_state);
    let (tokens, _) = nu_parser::lex(file_text.as_bytes(), 0, &[], &[], false);
    nu_parser::lite_parse(&tokens, &working_set)
}

/// Calls `nu_parser::parse` on the bytes of `file_text` (scoped), under the
/// name `file_name`, with a fresh `EngineState`, and returns the tree, the
/// parse errors that the working set collected, and the name and text that it
/// handed to the parser. Trusted: the name and text handed over are the
/// arguments. Nothing is claimed of the tree or the errors: the parser reads
/// the files that `source` and `use` name, so what it reports depends on the
/// disk as well as on the text.
#[verifier::external_body]
fn parse_text(file_name: Option<&str>, file_text: &str) -> (res: (
    Arc<Block>,
    Vec<ParseError>,
    Option<String>,
    String,
))
    ensures
        match file_name {
            Some(n) => res.2 matches Some(m) && m@ == n@,
            None => res.2 is None,
        },
        res.3@ == file_text@,
{
    let engine_state = EngineState::new();
    let mut working_set = StateWorkingSet::new(&engine_state);
    let ast = nu_parser::parse(&mut working_set, file_name, file_text.as_bytes(), true);
    (ast, working_set.parse_errors, file_name.map(String::from), file_text.to_string())
}

/// The `Debug` text of a parse error, as `format!("{:?}")` writes it.
/// Trusted, with nothing claimed of the text.
#[verifier::external_body]
fn debug_text(error: &ParseError) -> String {
    format!("{error:?}")
}

/// Lexes and lite-parses a document.
pub fn lite_parse_document(file_text: &str) -> (res: LiteParsedDocument)
    ensures
        res.lex_error.is_some() == nu_lex(file_text@).1,
        res.lite_error.is_some() == nu_lite_parse_error(file_text@),
{
    let lexed = lex_document(file_text);
    let (block, lite_error) = lite_parse_text(file_text);
    LiteParsedDocument { block, lex_error: lexed.lex_error, lite_error }
}

/// Lexes, lite-parses and parses a document.
pub fn parse_document(file_name: Option<&str>, file_text: &str) -> (res: ParsedDocument)
    ensures
        res.lexed.tokens@ == lexed_tokens(file_text@),
        res.lexed.lex_error.is_some() == nu_lex(file_text@).1,
        res.lite_error.is_some() == nu_lite_parse_error(file_text@),
        match file_name {
            Some(n) => res.parsed_name matches Some(m) && m@ == n@,
            None => res.parsed_name is None,
        },
        res.parsed_text@ == file_text@,
{
    let lexed = lex_document(file_text);
    let (lite_block, lite_error) = lite_parse_text(file_text);
    let (ast, parse_errors, parsed_name, parsed_text) = parse_text(file_name, file_text);
    ParsedDocument { lexed, lite_block, lite_error, ast, parse_errors, parsed_name, parsed_text }
}

/// The stage at which a document failed to parse.
#[derive(Clone, Copy, Debug, PartialEq, Eq, Structural)]
pub enum ParseStage {
    Lex,
    LiteParse,
    Parse,
}

/// A document that did not parse cleanly, and the first stage that reported an error.
#[derive(Debug)]
pub struct ParseFailure {
    pub file_name: String,
    pub stage: ParseStage,
    pub document: ParsedDocument,
}

/// The words that name a stage in a failure's message.
pub open spec fn stage_label(stage: ParseStage) -> Seq<char> {
    match stage {
        ParseStage::Lex => ": lex error: "@,
        ParseStage::LiteParse => ": lite parse error: "@,
        ParseStage::Parse => ": parse error: "@,
    }
}

impl ParseFailure {
    /// The failure as text: the file name, the stage, and the `Debug` text of
    /// the first error of that stage.
    pub fn message(&self) -> (res: String)
        ensures
            (self.file_name@ + stage_label(self.stage)).is_prefix_of(res@),
    {
        let label = match self.stage {
            ParseStage::Lex => ": lex error: ",
            ParseStage::LiteParse => ": lite parse error: ",
            ParseStage::Parse => ": parse error: ",
        };
        let detail = match self.stage {
            ParseStage::Lex => match &self.document.lexed.lex_error {
                Some(e) => debug_text(e),
                None => String::new(),
            },
            ParseStage::LiteParse => match &self.document.lite_error {
                Some(e) => debug_text(e),
                None => String::new(),
            },
            ParseStage::Parse => if self.document.parse_errors.len() > 0 {
                debug_text(&self.document.parse_errors[0])
            } else {
                String::new()
            },
        };
        let mut out = chars_of(self.file_name.as_str());
        push_chars(&mut out, chars_of(label).as_slice());
        proof {
            reveal_strlit(": lex error: ");
            reveal_strlit(": lite parse error: ");
            reveal_strlit(": parse error: ");
            assert(out@ == self.file_name@ + stage_label(self.stage));
        }
        let prefix_len = out.len();
        push_chars(&mut out, chars_of(detail.as_str()).as_slice());
        proof {
            assert(out@.take(prefix_len as int) =~= self.file_name@ + stage_label(self.stage));
        }
        string_of(out.as_slice())
    }
}

/// The first stage, in the order lexer, lite parser, parser, whose error a
/// parsed document carries.
pub open spec fn first_failure(doc: ParsedDocument) -> Option<ParseStage> {
    if doc.lexed.lex_error.is_some() {
        Some(ParseStage::Lex)
    } else if doc.lite_error.is_some() {
        Some(ParseStage::LiteParse)
    } else if doc.parse_errors@.len() > 0 {
        Some(ParseStage::Parse)
    } else {
        None
    }
}

/// Parses a document and succeeds only when no stage reported an error;
/// otherwise the failure names the first stage that did.
pub fn assert_parses(file_name: &str, file_text: &str) -> (res: Result<ParsedDocument, ParseFailure>)
    ensures
        match res {
            Ok(doc) => first_failure(doc) is None && doc.lexed.tokens@ == lexed_tokens(file_text@),
            Err(failure) => first_failure(failure.document) == Some(failure.stage)
                && failure.document.lexed.tokens@ == lexed_tokens(file_text@),
        },
        (res matches Err(failure) && failure.stage == ParseStage::Lex) <==> nu_lex(file_text@).1,
        (res matches Err(failure) && failure.stage == ParseStage::LiteParse) <==> (!nu_lex(
            file_text@,
        ).1 && nu_lite_parse_error(file_text@)),
        match res {
            Ok(doc) => (doc.parsed_name matches Some(m) && m@ == file_name@) && doc.parsed_text@ == file_text@,
            Err(failure) => failure.file_name@ == file_name@ && (failure.document.parsed_name matches Some(
                m,
            ) && m@ == file_name@) && failure.document.parsed_text@ == file_text@,
        },
{
    let parsed = parse_document(Some(file_name), file_text);
    if parsed.lexed.lex_error.is_some() {
        return Err(ParseFailure { file_name: string_of(chars_of(file_name).as_slice()), stage: ParseStage::Lex, document: parsed });
    }
    if parsed.lite_error.is_some() {
        return Err(ParseFailure { file_name: string_of(chars_of(file_name).as_slice()), stage: ParseStage::LiteParse, document: parsed });
    }
    if parsed.parse_errors.len() > 0 {
        return Err(ParseFailure { file_name: string_of(chars_of(file_name).as_slice()), stage: ParseStage::Parse, document: parsed });
    }
    Ok(parsed)
}
} // verus!
