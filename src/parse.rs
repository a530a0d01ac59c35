//! Parsing source text into a module tree. The grammar is swc's TypeScript
//! parser. This module sorts swc's errors into the library's error kinds and
//! locates them in the input: a fatal error stops parsing and no tree is
//! returned; errors the parser recovered from come back beside the tree.
use vstd::prelude::*;
use vstd::string::StringSliceAdditionalSpecFns;
use swc_core::common::{FileName, SourceMap, Spanned};
use swc_ecma_parser::error::{Error as SwcError, SyntaxError as Sx};
use swc_ecma_parser::{Parser, StringInput, Syntax};

verus! {

#[verifier::external_type_specification]
#[verifier::external_body]
pub struct ExModule(swc_core::ecma::ast::Module);

/// swc's syntax errors, told apart as far as the error kinds need.
#[derive(Clone, Copy, Debug, PartialEq, Eq, Structural)]
pub enum SwcErrorClass {
    /// The input ended where more was required.
    Eof,
    /// A character that begins no token.
    UnexpectedChar,
    /// A token where one of a few listed others was required.
    UnexpectedTokenWithSuggestions,
    /// A token other than the one required.
    Expected,
    /// A string literal that the input ends inside.
    UnterminatedStrLit,
    /// An escape sequence that a string literal does not allow.
    InvalidStrEscape,
    /// Any other syntax error.
    Other,
}

/// How parsing failed.
#[derive(Clone, Copy, Debug, PartialEq, Eq, Structural)]
pub enum ParseErrorKind {
    /// A token or character that fits nowhere at that point.
    UnexpectedToken,
    /// The input ended inside a construct.
    UnexpectedEof,
    /// The tokens do not form the construct they begin.
    InvalidSyntax,
    /// The text does not form a token: a string left open, a bad escape.
    Lexical,
}

/// A parse failure: its kind, the byte offset in the input where it was found
/// and the line (from 1) that holds that offset.
#[derive(Clone, Copy, Debug, PartialEq, Eq, Structural)]
pub struct ParseError {
    pub kind: ParseErrorKind,
    pub position: u32,
    pub line: u64,
}

/// A module and the errors the parser recovered from while reading it. A
/// caller should not trust the tree while `diagnostics` is not empty.
#[derive(Debug)]
pub struct ParsedModule {
    pub module: swc_core::ecma::ast::Module,
    pub diagnostics: Vec<ParseError>,
}

/// What swc's parser reports on `src`: the class and source-map position of
/// the fatal error, if one stopped it; those of the errors it recovered from;
/// and the position at which the file starts in the source map.
pub uninterp spec fn swc_outcome(src: Seq<char>) -> (
    Option<(SwcErrorClass, u32)>,
    Seq<(SwcErrorClass, u32)>,
    u32,
);

/// Relies on swc_ecma_parser's `Parser::parse_module` and `take_errors` over a
/// fresh source file of swc_common's `SourceMap`, and on `Error::kind` and
/// `Spanned::span` to read each error: the result depends on the text alone.
#[verifier::external_body]
fn swc_parse(input: &str) -> (r: (
    Result<swc_core::ecma::ast::Module, (SwcErrorClass, u32)>,
    Vec<(SwcErrorClass, u32)>,
    u32,
))
    ensures
        r.0 is Ok <==> swc_outcome(input@).0 is None,
        r.0 is Err ==> swc_outcome(input@).0 == Some(r.0->Err_0),
        r.1@ == swc_outcome(input@).1,
        r.2 == swc_outcome(input@).2,
{
    let cm = SourceMap::default();
    let fm = cm.new_source_file(FileName::Anon.into(), input.to_string());
    let mut p = Parser::new(Syntax::Typescript(Default::default()), StringInput::from(&*fm), None);
    let info = |e: &SwcError| (match e.kind() {
        Sx::Eof => SwcErrorClass::Eof,
        Sx::UnexpectedChar { .. } => SwcErrorClass::UnexpectedChar,
        Sx::UnexpectedTokenWithSuggestions { .. } => SwcErrorClass::UnexpectedTokenWithSuggestions,
        Sx::Expected(..) => SwcErrorClass::Expected,
        Sx::UnterminatedStrLit => SwcErrorClass::UnterminatedStrLit,
        Sx::InvalidStrEscape => SwcErrorClass::InvalidStrEscape,
        _ => SwcErrorClass::Other,
    }, e.span().lo.0);
    (p.parse_module().map_err(|e| info(&e)), p.take_errors().iter().map(info).collect(), fm.start_pos.0)
}

pub open spec fn class_kind(c: SwcErrorClass) -> ParseErrorKind {
    match c {
        SwcErrorClass::Eof => ParseErrorKind::UnexpectedEof,
        SwcErrorClass::UnexpectedChar => ParseErrorKind::UnexpectedToken,
        SwcErrorClass::UnexpectedTokenWithSuggestions => ParseErrorKind::UnexpectedToken,
        SwcErrorClass::Expected => ParseErrorKind::UnexpectedToken,
        SwcErrorClass::UnterminatedStrLit => ParseErrorKind::Lexical,
        SwcErrorClass::InvalidStrEscape => ParseErrorKind::Lexical,
        SwcErrorClass::Other => ParseErrorKind::InvalidSyntax,
    }
}

/// The error kind of a class of swc's errors: the end of input, a stray
/// character or a token other than a required one are unexpected; a string
/// left open or a bad escape is lexical; anything else is a construct that
/// does not parse.
pub fn classify(c: SwcErrorClass) -> (r: ParseErrorKind)
    ensures
        r == class_kind(c),
{
    match c {
        SwcErrorClass::Eof => ParseErrorKind::UnexpectedEof,
        SwcErrorClass::UnexpectedChar => ParseErrorKind::UnexpectedToken,
        SwcErrorClass::UnexpectedTokenWithSuggestions => ParseErrorKind::UnexpectedToken,
        SwcErrorClass::Expected => ParseErrorKind::UnexpectedToken,
        SwcErrorClass::UnterminatedStrLit => ParseErrorKind::Lexical,
        SwcErrorClass::InvalidStrEscape => ParseErrorKind::Lexical,
        SwcErrorClass::Other => ParseErrorKind::InvalidSyntax,
    }
}

/// The number of line feeds among the first `n` bytes of `b`.
pub open spec fn newlines_before(b: Seq<u8>, n: int) -> nat
    decreases n,
{
    if n <= 0 || n > b.len() {
        0
    } else {
        newlines_before(b, n - 1) + if b[n - 1] == 10u8 {
            1nat
        } else {
            0nat
        }
    }
}

/// The offset within the file of source-map position `at`, for a file that
/// starts at `file_start`; a position before the file counts as its start.
pub open spec fn file_offset(at: u32, file_start: u32) -> u32 {
    if at >= file_start {
        (at - file_start) as u32
    } else {
        0
    }
}

/// The length of the byte-order mark that `b` starts with, if any. swc's
/// source map drops it, so positions in the map count from after it.
pub open spec fn bom_len(b: Seq<u8>) -> u32 {
    if b.len() >= 3 && b[0] == 0xEFu8 && b[1] == 0xBBu8 && b[2] == 0xBFu8 {
        3
    } else {
        0
    }
}

/// The byte offset in the input `b` of source-map position `at`, for a file
/// that starts at `file_start` (an offset past `u32::MAX` counts as it).
pub open spec fn input_offset(b: Seq<u8>, at: u32, file_start: u32) -> u32 {
    if file_offset(at, file_start) + bom_len(b) <= u32::MAX {
        (file_offset(at, file_start) + bom_len(b)) as u32
    } else {
        u32::MAX
    }
}

/// The line, from 1, of byte `offset` of `b`; an offset past the end counts
/// as the end.
pub open spec fn line_of(b: Seq<u8>, offset: int) -> int {
    1 + newlines_before(b, if offset <= b.len() { offset } else { b.len() as int }) as int
}

/// The error that swc's report `d` on `src` becomes.
pub open spec fn error_of(src: Seq<u8>, d: (SwcErrorClass, u32), file_start: u32) -> ParseError {
    ParseError {
        kind: class_kind(d.0),
        position: input_offset(src, d.1, file_start),
        line: line_of(src, input_offset(src, d.1, file_start) as int) as u64,
    }
}

/// The line, from 1, that holds byte `offset` of `src`.
pub fn line_at(src: &str, offset: u32) -> (r: u64)
    ensures
        r == line_of(src.spec_bytes(), offset as int),
{
    let b = src.as_bytes();
    let end: usize = if (offset as usize) <= b.len() {
        offset as usize
    } else {
        b.len()
    };
    let mut count: u64 = 0;
    let mut i: usize = 0;
    while i < end
        invariant
            end <= b@.len(),
            b@ == src.spec_bytes(),
            i <= end,
            end <= offset,
            count == newlines_before(b@, i as int),
            count <= i,
        decreases end - i,
    {
        if b[i] == 10u8 {
            count = count + 1;
        }
        i = i + 1;
    }
    count + 1
}

/// The error reported for a failure of kind `kind` found at position `at` of
/// a source map whose file, the text `src`, starts at `file_start`: the
/// position becomes a byte offset in `src`, a leading byte-order mark included.
pub fn parse_error_at(src: &str, kind: ParseErrorKind, at: u32, file_start: u32) -> (r: ParseError)
    ensures
        r.kind == kind,
        r.position == input_offset(src.spec_bytes(), at, file_start),
        r.line == line_of(src.spec_bytes(), r.position as int),
{
    let in_file = if at >= file_start {
        at - file_start
    } else {
        0
    };
    let b = src.as_bytes();
    let bom: u32 = if b.len() >= 3 && b[0] == 0xEFu8 && b[1] == 0xBBu8 && b[2] == 0xBFu8 {
        3
    } else {
        0
    };
    let position = if in_file <= u32::MAX - bom {
        in_file + bom
    } else {
        u32::MAX
    };
    ParseError { kind, position, line: line_at(src, position) }
}

/// The error that swc's report `d` on `src` becomes.
pub fn report(src: &str, d: (SwcErrorClass, u32), file_start: u32) -> (r: ParseError)
    ensures
        r == error_of(src.spec_bytes(), d, file_start),
{
    parse_error_at(src, classify(d.0), d.1, file_start)
}

/// Parses `input` as a module. A fatal error gives that error and no tree;
/// otherwise the tree comes back with the errors the parser recovered from.
pub fn parse(input: &str) -> (r: Result<ParsedModule, ParseError>)
    ensures
        r is Ok <==> swc_outcome(input@).0 is None,
        r is Err ==> r->Err_0 == error_of(
            input.spec_bytes(),
            swc_outcome(input@).0->Some_0,
            swc_outcome(input@).2,
        ),
        r is Ok ==> r->Ok_0.diagnostics@.len() == swc_outcome(input@).1.len() && forall|i: int|
            0 <= i < swc_outcome(input@).1.len() ==> #[trigger] r->Ok_0.diagnostics@[i]
                == error_of(input.spec_bytes(), swc_outcome(input@).1[i], swc_outcome(input@).2),
{
    let (result, recovered, file_start) = swc_parse(input);
    match result {
        Ok(module) => {
            let mut diagnostics: Vec<ParseError> = Vec::new();
            let mut i: usize = 0;
            while i < recovered.len()
                invariant
                    i <= recovered@.len(),
                    recovered@ == swc_outcome(input@).1,
                    file_start == swc_outcome(input@).2,
                    diagnostics@.len() == i,
                    forall|j: int|
                        0 <= j < i ==> #[trigger] diagnostics@[j] == error_of(
                            input.spec_bytes(),
                            recovered@[j],
                            file_start,
                        ),
                decreases recovered.len() - i,
            {
                diagnostics.push(report(input, recovered[i], file_start));
                i = i + 1;
            }
            Ok(ParsedModule { module, diagnostics })
        },
        Err(d) => Err(report(input, d, file_start)),
    }
}

} // verus!
