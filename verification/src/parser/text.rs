//! The text of a tree: every token with its trivia, in source order.
//!
//! The text is defined by walking the tree. For the tree of a scanned text it
//! is the text itself, byte for byte.
use crate::parser::scanner::{trivia_joined, trivia_tile, ScanModel, Scanned};
use crate::parser::token::{Token, Trivia};
use crate::parser::tree::{joined, tiles, Node, NodeModel};
use vstd::prelude::*;
use vstd::slice::slice_subrange;

verus! {

/// The bytes `[start, end)` of `src`; nothing if that is no range of `src`.
pub open spec fn span_text(src: Seq<u8>, start: int, end: int) -> Seq<u8> {
    if 0 <= start <= end <= src.len() {
        src.subrange(start, end)
    } else {
        Seq::empty()
    }
}

/// The text of the trivia records `from..to`, one after the other.
pub open spec fn trivia_text(trivia: Seq<Trivia>, src: Seq<u8>, from: int, to: int) -> Seq<u8>
    decreases to - from,
{
    if 0 <= from < to <= trivia.len() {
        trivia_text(trivia, src, from, to - 1) + span_text(
            src,
            trivia[to - 1].start as int,
            trivia[to - 1].end as int,
        )
    } else {
        Seq::empty()
    }
}

/// The text of token `i`: its leading trivia, then its own text.
pub open spec fn token_text(scan: ScanModel, src: Seq<u8>, i: int) -> Seq<u8> {
    if 0 <= i < scan.tokens.len() {
        trivia_text(
            scan.trivia,
            src,
            scan.tokens[i].trivia_from as int,
            scan.tokens[i].trivia_to as int,
        ) + span_text(src, scan.tokens[i].start as int, scan.tokens[i].end as int)
    } else {
        Seq::empty()
    }
}

/// The text of a tree: that of its one token if it is a leaf, nothing if it
/// is empty, else the text of its children in order.
pub open spec fn tree_text(node: NodeModel, scan: ScanModel, src: Seq<u8>) -> Seq<u8>
    decreases node, 0nat,
{
    if node.children.len() == 0 {
        if node.hi == node.lo + 1 {
            token_text(scan, src, node.lo)
        } else {
            Seq::empty()
        }
    } else {
        nodes_text(node.children, scan, src, node.children.len())
    }
}

/// The text of the first `n` of `nodes`, in order.
pub open spec fn nodes_text(nodes: Seq<NodeModel>, scan: ScanModel, src: Seq<u8>, n: nat) -> Seq<u8>
    decreases nodes, n,
{
    if 0 < n <= nodes.len() {
        nodes_text(nodes, scan, src, (n - 1) as nat) + tree_text(nodes[n - 1], scan, src)
    } else {
        Seq::empty()
    }
}

/// Where token `i` and its trivia begin; for `i` past the last token, where
/// the last token ends.
pub open spec fn offset(scan: ScanModel, i: int) -> int {
    if 0 <= i < scan.tokens.len() {
        scan.tokens[i].lead as int
    } else {
        scan.tokens.last().end as int
    }
}

proof fn lemma_offsets_step(scan: ScanModel, len: int, i: int, j: int)
    requires
        scan.wf(len),
        0 <= i <= j <= scan.tokens.len(),
    ensures
        offset(scan, i) <= offset(scan, j),
    decreases j - i,
{
    if i < j {
        assert(scan.token_ok(i));
        if i + 1 < scan.tokens.len() {
            assert(scan.token_ok(i + 1));
        }
        lemma_offsets_step(scan, len, i + 1, j);
    }
}

/// In a complete scan the tokens begin one after the other, inside the text.
pub proof fn lemma_offsets_ascend(scan: ScanModel, len: int, i: int, j: int)
    requires
        scan.wf(len),
        0 <= i <= j <= scan.tokens.len(),
    ensures
        0 <= offset(scan, i) <= offset(scan, j) <= len,
{
    lemma_offsets_step(scan, len, i, j);
    lemma_offsets_step(scan, len, j, scan.tokens.len() as int);
}

/// Trivia that lie end to end over `[lo, hi)` spell exactly these bytes.
pub proof fn lemma_trivia_text(trivia: Seq<Trivia>, src: Seq<u8>, from: int, to: int, lo: int, hi: int)
    requires
        trivia_tile(trivia, from, to, lo, hi),
        0 <= lo,
        hi <= src.len(),
    ensures
        lo <= hi,
        trivia_text(trivia, src, from, to) == src.subrange(lo, hi),
    decreases to - from,
{
    if from < to {
        let mid = trivia[to - 1].start as int;
        assert(trivia[to - 1].start < trivia[to - 1].end);
        if from < to - 1 {
            assert(trivia_joined(trivia, to - 2));
            assert(trivia_tile(trivia, from, to - 1, lo, mid)) by {
                assert forall|j: int| from <= j < to - 1 - 1 implies #[trigger] trivia_joined(
                    trivia,
                    j,
                ) by {
                    assert(trivia_joined(trivia, j));
                }
            }
        } else {
            assert(trivia_tile(trivia, from, to - 1, lo, mid));
        }
        lemma_trivia_text(trivia, src, from, to - 1, lo, mid);
        assert(src.subrange(lo, mid) + src.subrange(mid, hi) =~= src.subrange(lo, hi));
    } else {
        assert(src.subrange(lo, hi) =~= Seq::empty());
    }
}

/// A token of a complete scan spells the bytes from where its trivia begin to
/// where the next token's begin.
pub proof fn lemma_token_text(scan: ScanModel, src: Seq<u8>, i: int)
    requires
        scan.wf(src.len() as int),
        0 <= i < scan.tokens.len(),
    ensures
        token_text(scan, src, i) == src.subrange(offset(scan, i), offset(scan, i + 1)),
{
    let t = scan.tokens[i];
    assert(scan.token_ok(i));
    if i + 1 < scan.tokens.len() {
        assert(scan.token_ok(i + 1));
    }
    lemma_offsets_ascend(scan, src.len() as int, i, i + 1);
    lemma_offsets_ascend(scan, src.len() as int, i + 1, scan.tokens.len() as int);
    lemma_trivia_text(
        scan.trivia,
        src,
        t.trivia_from as int,
        t.trivia_to as int,
        t.lead as int,
        t.start as int,
    );
    assert(src.subrange(t.lead as int, t.start as int) + src.subrange(t.start as int, t.end as int)
        =~= src.subrange(t.lead as int, t.end as int));
}

/// A well-formed tree over tokens of a complete scan spells the bytes from
/// where its first token begins to where the token behind its last begins.
pub proof fn lemma_tree_text(node: NodeModel, scan: ScanModel, src: Seq<u8>)
    requires
        scan.wf(src.len() as int),
        node.wf(),
        node.hi <= scan.tokens.len(),
    ensures
        tree_text(node, scan, src) == src.subrange(offset(scan, node.lo), offset(scan, node.hi)),
    decreases node, 0nat,
{
    lemma_offsets_ascend(scan, src.len() as int, node.lo, node.hi);
    if node.children.len() == 0 {
        if node.hi == node.lo + 1 {
            lemma_token_text(scan, src, node.lo);
        } else {
            assert(src.subrange(offset(scan, node.lo), offset(scan, node.hi)) =~= Seq::empty());
        }
    } else {
        lemma_nodes_text(node.children, scan, src, node.children.len(), node.lo, node.hi);
    }
}

/// The first `n` of nodes that lie end to end spell the bytes from where the
/// first begins to where the `n`-th ends.
pub proof fn lemma_nodes_text(
    nodes: Seq<NodeModel>,
    scan: ScanModel,
    src: Seq<u8>,
    n: nat,
    lo: int,
    hi: int,
)
    requires
        scan.wf(src.len() as int),
        tiles(nodes, lo, hi),
        hi <= scan.tokens.len(),
        0 < n <= nodes.len(),
    ensures
        nodes[n - 1].hi <= hi,
        nodes_text(nodes, scan, src, n) == src.subrange(offset(scan, lo), offset(scan, nodes[n - 1].hi)),
    decreases nodes, n,
{
    let last = nodes[n - 1];
    assert(last.wf());
    lemma_tiles_within(nodes, lo, hi, n - 1);
    lemma_tree_text(last, scan, src);
    if n == 1 {
        assert(nodes_text(nodes, scan, src, 0) =~= Seq::empty());
        assert(nodes_text(nodes, scan, src, 1) =~= tree_text(last, scan, src));
    } else {
        lemma_nodes_text(nodes, scan, src, (n - 1) as nat, lo, hi);
        assert(joined(nodes, n - 2));
        lemma_offsets_ascend(scan, src.len() as int, lo, last.lo);
        lemma_offsets_ascend(scan, src.len() as int, last.lo, last.hi);
        lemma_offsets_ascend(scan, src.len() as int, last.hi, scan.tokens.len() as int);
        assert(src.subrange(offset(scan, lo), offset(scan, last.lo)) + src.subrange(
            offset(scan, last.lo),
            offset(scan, last.hi),
        ) =~= src.subrange(offset(scan, lo), offset(scan, last.hi)));
    }
}

/// Each of the nodes that lie end to end over `[lo, hi)` lies inside it.
pub proof fn lemma_tiles_within(nodes: Seq<NodeModel>, lo: int, hi: int, k: int)
    requires
        tiles(nodes, lo, hi),
        0 <= k < nodes.len(),
    ensures
        lo <= nodes[k].lo <= nodes[k].hi <= hi,
{
    lemma_tiles_from(nodes, lo, hi, k);
    lemma_tiles_upto(nodes, lo, hi, k);
    assert(nodes[k].wf());
}

proof fn lemma_tiles_from(nodes: Seq<NodeModel>, lo: int, hi: int, k: int)
    requires
        tiles(nodes, lo, hi),
        0 <= k < nodes.len(),
    ensures
        lo <= nodes[k].lo,
    decreases k,
{
    if k > 0 {
        lemma_tiles_from(nodes, lo, hi, k - 1);
        assert(joined(nodes, k - 1));
        assert(nodes[k - 1].wf());
    }
}

proof fn lemma_tiles_upto(nodes: Seq<NodeModel>, lo: int, hi: int, k: int)
    requires
        tiles(nodes, lo, hi),
        0 <= k < nodes.len(),
    ensures
        nodes[k].hi <= hi,
    decreases nodes.len() - k,
{
    if k < nodes.len() - 1 {
        lemma_tiles_upto(nodes, lo, hi, k + 1);
        assert(joined(nodes, k));
        assert(nodes[k + 1].wf());
    }
}

/// The bytes `[start, end)` of `src`, borrowed; nothing if that is no range
/// of `src`.
pub fn span_of<'a>(src: &'a [u8], start: usize, end: usize) -> (t: &'a [u8])
    ensures
        t@ == span_text(src@, start as int, end as int),
{
    if start <= end && end <= src.len() {
        slice_subrange(src, start, end)
    } else {
        let t = slice_subrange(src, 0, 0);
        assert(t@ =~= Seq::<u8>::empty());
        t
    }
}

impl Token {
    /// The token's own text, borrowed from the text it was scanned from.
    pub fn text<'a>(&self, src: &'a [u8]) -> (t: &'a [u8])
        ensures
            t@ == span_text(src@, self.start as int, self.end as int),
    {
        span_of(src, self.start, self.end)
    }
}

impl Trivia {
    /// The text of the record, borrowed from the text it was scanned from.
    pub fn text<'a>(&self, src: &'a [u8]) -> (t: &'a [u8])
        ensures
            t@ == span_text(src@, self.start as int, self.end as int),
    {
        span_of(src, self.start, self.end)
    }
}

/// Appends the bytes `[start, end)` of `src`, if that is a range of `src`.
fn push_span(out: &mut Vec<u8>, src: &[u8], start: usize, end: usize)
    ensures
        final(out)@ == old(out)@ + span_text(src@, start as int, end as int),
{
    if start <= end && end <= src.len() {
        out.extend_from_slice(slice_subrange(src, start, end));
    } else {
        assert(out@ =~= old(out)@ + Seq::<u8>::empty());
    }
}

/// Appends the text of the trivia records `from..to`.
fn push_trivia(out: &mut Vec<u8>, trivia: &Vec<Trivia>, src: &[u8], from: usize, to: usize)
    ensures
        final(out)@ == old(out)@ + trivia_text(trivia@, src@, from as int, to as int),
{
    if from < to && to <= trivia.len() {
        let mut j: usize = from;
        assert(out@ =~= old(out)@ + trivia_text(trivia@, src@, from as int, j as int));
        while j < to
            invariant
                from <= j <= to <= trivia.len(),
                out@ == old(out)@ + trivia_text(trivia@, src@, from as int, j as int),
            decreases to - j,
        {
            let ghost before = out@;
            push_span(out, src, trivia[j].start, trivia[j].end);
            j += 1;
            assert(out@ =~= old(out)@ + trivia_text(trivia@, src@, from as int, j as int));
        }
    } else {
        assert(out@ =~= old(out)@ + Seq::<u8>::empty());
    }
}

/// Appends the text of token `i`: its leading trivia, then its own text.
fn push_token(out: &mut Vec<u8>, scan: &Scanned, src: &[u8], i: usize)
    ensures
        final(out)@ == old(out)@ + token_text(scan@, src@, i as int),
{
    if i < scan.tokens.len() {
        let t = scan.tokens[i];
        push_trivia(out, &scan.trivia, src, t.trivia_from, t.trivia_to);
        push_span(out, src, t.start, t.end);
        assert(out@ =~= old(out)@ + token_text(scan@, src@, i as int));
    } else {
        assert(out@ =~= old(out)@ + Seq::<u8>::empty());
    }
}

/// Appends the text of a tree: every token under it with its trivia, in
/// source order.
pub fn push_tree(out: &mut Vec<u8>, node: &Node, scan: &Scanned, src: &[u8])
    ensures
        final(out)@ == old(out)@ + tree_text(node@, scan@, src@),
    decreases node,
{
    let n = node.children.len();
    if n == 0 {
        if node.lo < node.hi && node.hi - node.lo == 1 {
            push_token(out, scan, src, node.lo);
        } else {
            assert(out@ =~= old(out)@ + Seq::<u8>::empty());
        }
    } else {
        let mut i: usize = 0;
        assert(out@ =~= old(out)@ + nodes_text(node@.children, scan@, src@, 0));
        while i < n
            invariant
                n == node.children.len(),
                i <= n,
                out@ == old(out)@ + nodes_text(node@.children, scan@, src@, i as nat),
            decreases n - i,
        {
            push_tree(out, &node.children[i], scan, src);
            i += 1;
            assert(out@ =~= old(out)@ + nodes_text(node@.children, scan@, src@, i as nat));
        }
    }
}

} // verus!
