//! Parsing of R source text into a lossless syntax tree.
//!
//! A text is scanned into tokens, each with the trivia in front of it, and
//! the tokens are parsed into a tree whose leaves are the tokens. Nothing of
//! the text is lost on the way: the text of the tree is the text that was
//! parsed. Parsing never fails. What cannot be read ends up in `Error` and
//! `Missing` nodes, with a diagnostic for each.
use crate::parser::diagnostic::Diagnostic;
use crate::parser::faults::lemma_program_balanced;
use crate::parser::grammar::program;
use crate::parser::order::{lemma_program_ordered, ordered};
use crate::parser::parse::parse_program;
use crate::parser::pratt::build_table;
use crate::parser::scanner::{
    leading_trivia_of, lemma_scan_on_char_boundaries, lemma_scan_wf, line_ends_trail,
    on_char_boundaries, scan, scan_model, ScanModel, Scanned,
};
use crate::parser::text::{lemma_tree_text, offset, push_tree, tree_text};
use crate::parser::tiling::lemma_program;
use crate::parser::token::{TokenKind, Trivia};
use crate::parser::tree::{faults, Node, NodeKind, NodeModel};
use vstd::prelude::*;
use vstd::string::StringSliceAdditionalSpecFns;
use vstd::utf8::encode_utf8_valid_utf8;

pub mod diagnostic;
pub mod faults;
pub mod grammar;
pub mod lexeme;
pub mod operators;
pub mod order;
pub mod parse;
pub mod pratt;
pub mod scanner;
pub mod text;
pub mod tiling;
pub mod token;
pub mod tree;

verus! {

/// The parser for R source text.
#[derive(Clone, Copy)]
pub struct RParser;

/// What parsing a text yields: the scan, the tree over its tokens, and the
/// diagnostics in the order in which they arose.
pub struct ParseResult {
    pub scan: Scanned,
    pub root: Node,
    pub diagnostics: Vec<Diagnostic>,
}

/// The mathematical value of a parse result.
pub struct ParseModel {
    pub scan: ScanModel,
    pub root: NodeModel,
    pub diagnostics: Seq<Diagnostic>,
}

impl View for ParseResult {
    type V = ParseModel;

    open spec fn view(&self) -> ParseModel {
        ParseModel { scan: self.scan@, root: self.root@, diagnostics: self.diagnostics@ }
    }
}

/// The parse of a text.
pub open spec fn parse_model(src: Seq<u8>) -> ParseModel {
    let scan = scan_model(src);
    let tree = program(scan.tokens);
    ParseModel { scan, root: tree.0, diagnostics: tree.1.diags }
}

impl ParseModel {
    /// The result belongs to a text of `len` bytes: the scan covers the text,
    /// and the tree is a well-formed `Program` over all tokens of the scan.
    pub open spec fn wf(self, len: int) -> bool {
        &&& self.scan.wf(len)
        &&& self.root.wf()
        &&& self.root.kind == NodeKind::Program
        &&& self.root.lo == 0
        &&& self.root.hi == self.scan.tokens.len()
    }

    /// The text of the tree, rebuilt from `src` token by token.
    pub open spec fn text(self, src: Seq<u8>) -> Seq<u8> {
        tree_text(self.root, self.scan, src)
    }
}

/// The text of a result that belongs to `src` is `src`.
pub proof fn lemma_text_of_wf(tree: ParseModel, src: Seq<u8>)
    requires
        tree.wf(src.len() as int),
    ensures
        tree.text(src) == src,
{
    lemma_tree_text(tree.root, tree.scan, src);
    assert(tree.scan.token_ok(0));
    assert(src.subrange(0, src.len() as int) =~= src);
}

/// The parse of a text belongs to the text: the scan covers it from the first
/// byte to the last, and the tree is a well-formed `Program` over every token.
pub proof fn lemma_parse_wf(src: Seq<u8>)
    requires
        src.len() <= usize::MAX,
    ensures
        parse_model(src).wf(src.len() as int),
{
    lemma_scan_wf(src);
    lemma_program(scan_model(src).tokens);
}

/// Round trip: the text of the tree of a text's parse, rebuilt token by token
/// with all trivia, is the text.
pub proof fn lemma_round_trip(src: Seq<u8>)
    requires
        src.len() <= usize::MAX,
    ensures
        parse_model(src).text(src) == src,
{
    lemma_parse_wf(src);
    lemma_text_of_wf(parse_model(src), src);
}

/// Faults and diagnostics: the tree of a text's parse holds exactly one
/// `Error` or `Missing` node for each diagnostic. So a parse without
/// diagnostics has a tree without such nodes, and the other way round.
pub proof fn lemma_faults_match_diagnostics(src: Seq<u8>)
    ensures
        faults(parse_model(src).root) == parse_model(src).diagnostics.len(),
{
    lemma_program_balanced(scan_model(src).tokens);
}

/// Precedence: in the tree of a text's parse every operator has operands that
/// the operator table lets it have. A binary operator stands over nothing
/// looser on either side, over its own tier only on the side to which the
/// tier groups, and a prefix operator over no looser binary operator.
pub proof fn lemma_parse_ordered(src: Seq<u8>)
    ensures
        ordered(parse_model(src).scan.tokens, parse_model(src).root),
{
    lemma_program_ordered(scan_model(src).tokens);
}

/// Determinism: the parse of a text, tree and diagnostics, depends on nothing
/// but the text.
pub proof fn lemma_deterministic(a: Seq<u8>, b: Seq<u8>)
    requires
        a == b,
    ensures
        parse_model(a) == parse_model(b),
{
}

/// Reparsing: parsing the text rebuilt from a text's parse gives that parse
/// again, tree and diagnostics.
pub proof fn lemma_reparse(src: Seq<u8>)
    requires
        src.len() <= usize::MAX,
    ensures
        parse_model(parse_model(src).text(src)) == parse_model(src),
{
    lemma_round_trip(src);
}

impl RParser {
    /// Parses a text.
    ///
    /// The result is the parse that `parse_model` defines. It belongs to the
    /// text, the text of its tree is the text that was parsed, its tree holds
    /// one `Error` or `Missing` node for each diagnostic, every operator in it
    /// has operands that the operator table lets it have, what stands in
    /// front of a line end trails the line that it ends, and no token or
    /// trivia record begins or ends inside a character.
    pub fn parse(src: &str) -> (r: ParseResult)
        ensures
            r@ == parse_model(src.spec_bytes()),
            r@.wf(src.spec_bytes().len() as int),
            r@.text(src.spec_bytes()) == src.spec_bytes(),
            faults(r@.root) == r@.diagnostics.len(),
            ordered(r@.scan.tokens, r@.root),
            line_ends_trail(r@.scan),
            on_char_boundaries(r@.scan, src.spec_bytes()),
    {
        let bytes = src.as_bytes();
        proof {
            encode_utf8_valid_utf8(src@);
            assert(bytes@.len() == bytes.len());
            lemma_scan_on_char_boundaries(bytes@);
        }
        RParser::parse_bytes(bytes)
    }

    /// Parses a text given as bytes. Bytes that are not part of any character
    /// are treated like letters.
    pub fn parse_bytes(src: &[u8]) -> (r: ParseResult)
        ensures
            r@ == parse_model(src@),
            r@.wf(src@.len() as int),
            r@.text(src@) == src@,
            faults(r@.root) == r@.diagnostics.len(),
            ordered(r@.scan.tokens, r@.root),
            line_ends_trail(r@.scan),
    {
        let table = build_table();
        let scanned = scan(src);
        let (root, cur) = parse_program(&scanned.tokens, &table);
        let r = ParseResult { scan: scanned, root, diagnostics: cur.diags };
        proof {
            lemma_text_of_wf(r@, src@);
            lemma_faults_match_diagnostics(src@);
            lemma_parse_ordered(src@);
        }
        r
    }
}

impl ParseResult {
    /// Rebuilds the text from the tree: every token with its trivia, in
    /// source order, cut out of `src`. For the result of parsing `src` this
    /// is `src`.
    pub fn reconstruct(&self, src: &[u8]) -> (out: Vec<u8>)
        ensures
            out@ == self@.text(src@),
            self@.wf(src@.len() as int) ==> out@ == src@,
    {
        let mut out: Vec<u8> = Vec::new();
        push_tree(&mut out, &self.root, &self.scan, src);
        proof {
            assert(out@ =~= self@.text(src@));
            if self@.wf(src@.len() as int) {
                lemma_text_of_wf(self@, src@);
            }
        }
        out
    }

    /// The trivia in front of the first token of `node`, in source order.
    /// Nothing for a node that begins behind the last token.
    pub fn leading_trivia(&self, node: &Node) -> (out: Vec<Trivia>)
        ensures
            out@ == leading_trivia_of(self@.scan, node@.lo),
    {
        let mut out: Vec<Trivia> = Vec::new();
        if node.lo < self.scan.tokens.len() {
            let t = self.scan.tokens[node.lo];
            if t.trivia_from <= t.trivia_to && t.trivia_to <= self.scan.trivia.len() {
                let mut j: usize = t.trivia_from;
                while j < t.trivia_to
                    invariant
                        t.trivia_from <= j <= t.trivia_to <= self.scan.trivia.len(),
                        out@ == self.scan.trivia@.subrange(t.trivia_from as int, j as int),
                    decreases t.trivia_to - j,
                {
                    out.push(self.scan.trivia[j]);
                    j += 1;
                    assert(out@ =~= self.scan.trivia@.subrange(t.trivia_from as int, j as int));
                }
            }
        }
        assert(out@ =~= leading_trivia_of(self@.scan, node@.lo));
        out
    }

    /// The trivia behind the last token of `node` on its line: those in front
    /// of the line end that follows the node. Nothing if no line end follows.
    pub fn trailing_trivia(&self, node: &Node) -> (out: Vec<Trivia>)
        ensures
            out@ == trailing_trivia_of(self@.scan, node@.hi),
    {
        let mut out: Vec<Trivia> = Vec::new();
        if node.hi < self.scan.tokens.len() {
            let t = self.scan.tokens[node.hi];
            let ends = match t.kind {
                TokenKind::Newline => true,
                _ => false,
            };
            if ends && t.trivia_from <= t.trivia_to && t.trivia_to <= self.scan.trivia.len() {
                let mut j: usize = t.trivia_from;
                while j < t.trivia_to
                    invariant
                        t.trivia_from <= j <= t.trivia_to <= self.scan.trivia.len(),
                        out@ == self.scan.trivia@.subrange(t.trivia_from as int, j as int),
                    decreases t.trivia_to - j,
                {
                    out.push(self.scan.trivia[j]);
                    j += 1;
                    assert(out@ =~= self.scan.trivia@.subrange(t.trivia_from as int, j as int));
                }
            }
        }
        assert(out@ =~= trailing_trivia_of(self@.scan, node@.hi));
        out
    }

    /// The bytes that `node` covers, trivia included: from where the trivia
    /// of its first token begin to where those of the token behind its last
    /// begin. Nothing for a node that does not lie among the tokens.
    pub fn byte_span(&self, node: &Node) -> (r: Option<(usize, usize)>)
        ensures
            r == if node@.lo <= node@.hi <= self@.scan.tokens.len() && self@.scan.tokens.len() > 0 {
                Some((offset(self@.scan, node@.lo) as usize, offset(self@.scan, node@.hi) as usize))
            } else {
                None::<(usize, usize)>
            },
    {
        let n = self.scan.tokens.len();
        if n > 0 && node.lo <= node.hi && node.hi <= n {
            let from = if node.lo < n {
                self.scan.tokens[node.lo].lead
            } else {
                self.scan.tokens[n - 1].end
            };
            let to = if node.hi < n {
                self.scan.tokens[node.hi].lead
            } else {
                self.scan.tokens[n - 1].end
            };
            Some((from, to))
        } else {
            None
        }
    }

    /// Whether parsing recorded any diagnostic.
    pub fn has_errors(&self) -> (r: bool)
        ensures
            r == (self@.diagnostics.len() > 0),
    {
        self.diagnostics.len() > 0
    }
}

/// The trivia in front of token `i` if it is a line end.
pub open spec fn trailing_trivia_of(scan: ScanModel, i: int) -> Seq<Trivia> {
    if 0 <= i < scan.tokens.len() && scan.tokens[i].kind == TokenKind::Newline {
        leading_trivia_of(scan, i)
    } else {
        Seq::empty()
    }
}

} // verus!
