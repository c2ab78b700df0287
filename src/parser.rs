use crate::grammar::{Grammar, Node, TokenId};
use crate::reader::{MemoTable, Reader, ReadingResult, eps_node, epsilon, read, read_leaf, read_state, reader_ok};
use crate::traces::TraceList;
use std::rc::Rc;
use vstd::prelude::*;

verus! {

/// The outcome of a run of the driver: the trace of the longest accepted
/// prefix, its length, and how many tokens were looked at.
pub struct ParsingResult {
    pub success: Option<Rc<TraceList>>,
    pub success_len: usize,
    pub nb_tokens_read: usize,
}

impl ParsingResult {
    /// Whether the accepted prefix spans every token looked at.
    pub fn is_complete(&self) -> (r: bool)
        ensures
            r == (self.success_len == self.nb_tokens_read),
    {
        self.success_len == self.nb_tokens_read
    }
}

/// The driver from token `i` of `toks` on, in state `state`, with the best
/// acceptance so far `success` spanning `success_len` tokens.
pub open spec fn run(
    g: Grammar,
    state: Option<Rc<Reader>>,
    toks: Seq<TokenId>,
    i: int,
    success: Option<Rc<TraceList>>,
    success_len: int,
) -> ParsingResult
    decreases toks.len() - i,
{
    if i < 0 || i >= toks.len() {
        ParsingResult {
            success,
            success_len: success_len as usize,
            nb_tokens_read: toks.len() as usize,
        }
    } else {
        match state {
            None => ParsingResult {
                success,
                success_len: success_len as usize,
                nb_tokens_read: (i + 1) as usize,
            },
            Some(r) => {
                let res = read_state(g, *r, toks[i]);
                match res.success {
                    Some(_) => run(g, res.ongoing, toks, i + 1, res.success, i + 1),
                    None => run(g, res.ongoing, toks, i + 1, success, success_len),
                }
            },
        }
    }
}

/// The result of the state `state`, if any, on `tok`.
pub open spec fn step(g: Grammar, state: Option<Rc<Reader>>, tok: TokenId) -> ReadingResult {
    match state {
        Some(r) => read_state(g, *r, tok),
        None => crate::reader::dead(),
    }
}

/// What `parse` returns for the tokens `toks` and the grammar node `root`.
pub open spec fn parse_spec(g: Grammar, toks: Seq<TokenId>, root: usize) -> ParsingResult {
    let e = eps_node(g, root, root);
    run(g, e.ongoing, toks, 0, e.success, 0)
}

/// Feeds `tokens` to node `root` until its state dies or the tokens run out,
/// keeping the longest accepted prefix.
pub fn parse(g: &Grammar, memo: &mut MemoTable, tokens: &[TokenId], root: usize) -> (r: ParsingResult)
    requires
        g.wf(),
        old(memo).wf(*g),
        root < g.nodes@.len(),
    ensures
        final(memo).wf(*g),
        r == parse_spec(*g, tokens@, root),
        r.success_len <= r.nb_tokens_read <= tokens@.len(),
{
    let eps = epsilon(g, memo, root);
    let mut reader = eps.ongoing;
    let mut success = eps.success;
    let mut success_len: usize = 0;
    let mut i: usize = 0;
    while i < tokens.len()
        invariant
            g.wf(),
            memo.wf(*g),
            i <= tokens@.len(),
            success_len <= i,
            reader matches Some(x) ==> reader_ok(*g, *x),
            run(*g, reader, tokens@, i as int, success, success_len as int) == parse_spec(*g, tokens@, root),
        decreases tokens.len() - i,
    {
        let cur = match reader {
            Some(x) => x,
            None => {
                proof {
                    lemma_run_bounds(*g, reader, tokens@, i as int, success, success_len as int);
                }
                return ParsingResult { success, success_len, nb_tokens_read: i + 1 };
            },
        };
        let res = read(g, memo, &*cur, tokens[i]);
        if res.success.is_some() {
            success = res.success;
            success_len = i + 1;
        }
        reader = res.ongoing;
        i = i + 1;
    }
    ParsingResult { success, success_len, nb_tokens_read: tokens.len() }
}

proof fn lemma_run_bounds(
    g: Grammar,
    state: Option<Rc<Reader>>,
    toks: Seq<TokenId>,
    i: int,
    success: Option<Rc<TraceList>>,
    success_len: int,
)
    requires
        0 <= success_len <= i <= toks.len(),
        toks.len() <= usize::MAX,
    ensures
        run(g, state, toks, i, success, success_len).success_len <= run(
            g,
            state,
            toks,
            i,
            success,
            success_len,
        ).nb_tokens_read <= toks.len(),
    decreases toks.len() - i,
{
    if i < toks.len() && state is Some {
        let res = step(g, state, toks[i]);
        {
            if res.success is Some {
                lemma_run_bounds(g, res.ongoing, toks, i + 1, res.success, i + 1);
            } else {
                lemma_run_bounds(g, res.ongoing, toks, i + 1, success, success_len);
            }
        }
    }
}


/// A run either keeps the acceptance it started with or ends with one that
/// spans more than `i` tokens.
proof fn lemma_run_grows(
    g: Grammar,
    state: Option<Rc<Reader>>,
    toks: Seq<TokenId>,
    i: int,
    success: Option<Rc<TraceList>>,
    success_len: int,
)
    requires
        0 <= success_len <= i <= toks.len(),
        toks.len() <= usize::MAX,
    ensures
        ({
            let p = run(g, state, toks, i, success, success_len);
            (p.success == success && p.success_len == success_len) || p.success_len > i
        }),
    decreases toks.len() - i,
{
    if i < toks.len() && state is Some {
        let res = step(g, state, toks[i]);
        if res.success is Some {
            lemma_run_grows(g, res.ongoing, toks, i + 1, res.success, i + 1);
        } else {
            lemma_run_grows(g, res.ongoing, toks, i + 1, success, success_len);
        }
    }
}

/// Cutting the tokens anywhere after the accepted prefix changes neither the
/// acceptance nor its length.
proof fn lemma_run_prefix(
    g: Grammar,
    state: Option<Rc<Reader>>,
    toks: Seq<TokenId>,
    i: int,
    success: Option<Rc<TraceList>>,
    success_len: int,
    j: int,
)
    requires
        0 <= success_len <= i <= toks.len(),
        toks.len() <= usize::MAX,
        run(g, state, toks, i, success, success_len).success_len <= j <= toks.len(),
    ensures
        run(g, state, toks.take(j), i, success, success_len).success == run(
            g,
            state,
            toks,
            i,
            success,
            success_len,
        ).success,
        run(g, state, toks.take(j), i, success, success_len).success_len == run(
            g,
            state,
            toks,
            i,
            success,
            success_len,
        ).success_len,
    decreases toks.len() - i,
{
    if i < toks.len() && state is Some {
        let res = step(g, state, toks[i]);
        let s2 = if res.success is Some { res.success } else { success };
        let l2 = if res.success is Some { i + 1 } else { success_len };
        assert(run(g, state, toks, i, success, success_len) == run(g, res.ongoing, toks, i + 1, s2, l2));
        if i < j {
            assert(toks.take(j)[i] == toks[i]);
            lemma_run_prefix(g, res.ongoing, toks, i + 1, s2, l2, j);
        } else {
            lemma_run_grows(g, res.ongoing, toks, i + 1, s2, l2);
        }
    }
}

/// Prefix consistency: when `parse` accepts a prefix of `toks`, parsing that
/// prefix alone accepts all of it, with the same trace.
pub proof fn lemma_prefix_consistency(g: Grammar, toks: Seq<TokenId>, root: usize)
    requires
        g.wf(),
        root < g.nodes@.len(),
        toks.len() <= usize::MAX,
    ensures
        ({
            let p = parse_spec(g, toks, root);
            let q = parse_spec(g, toks.take(p.success_len as int), root);
            q.success == p.success && q.success_len == p.success_len
        }),
{
    let e = eps_node(g, root, root);
    lemma_run_bounds(g, e.ongoing, toks, 0, e.success, 0);
    let p = parse_spec(g, toks, root);
    lemma_run_prefix(g, e.ongoing, toks, 0, e.success, 0, p.success_len as int);
}


/// Two handles that read every token alike give runs that agree, whatever
/// node's empty-input result they stand in.
proof fn lemma_handles_agree(g: Grammar, n: usize, h1: usize, h2: usize, toks: Seq<TokenId>)
    requires
        g.wf(),
        n < g.nodes@.len(),
        h1 < g.nodes@.len(),
        h2 < g.nodes@.len(),
        forall|tok: TokenId| #[trigger] read_leaf(g, h1, tok) == read_leaf(g, h2, tok),
    ensures
        ({
            let e1 = eps_node(g, n, h1);
            let e2 = eps_node(g, n, h2);
            run(g, e1.ongoing, toks, 0, e1.success, 0) == run(g, e2.ongoing, toks, 0, e2.success, 0)
        }),
    decreases g.rank@[n as int],
{
    assert(g.node_ok(n as int));
    match g.nodes@[n as int] {
        Node::Token(_) | Node::Class(_) => {
            let e1 = eps_node(g, n, h1);
            let e2 = eps_node(g, n, h2);
            if toks.len() > 0 {
                assert(read_state(g, *e1.ongoing->0, toks[0]) == read_leaf(g, h1, toks[0]));
                assert(read_state(g, *e2.ongoing->0, toks[0]) == read_leaf(g, h2, toks[0]));
            }
        },
        Node::Memo(m) => {
            lemma_handles_agree(g, m.reader, h1, h2, toks);
        },
        _ => {
            assert(eps_node(g, n, h1) == eps_node(g, n, h2));
        },
    }
}

/// Memoization is a cache, not a change of meaning: a memoization node
/// accepts, on every input, exactly what its body accepts, with the same
/// traces, spans and counts of tokens read. (`parse` itself returns the same
/// result whatever its caches hold.)
pub proof fn lemma_memo_transparent(g: Grammar, m: usize, toks: Seq<TokenId>)
    requires
        g.wf(),
        m < g.nodes@.len(),
        g.nodes@[m as int] is Memo,
    ensures
        parse_spec(g, toks, m) == parse_spec(g, toks, g.nodes@[m as int]->Memo_0.reader),
{
    assert(g.node_ok(m as int));
    let b = g.nodes@[m as int]->Memo_0.reader;
    assert(eps_node(g, m, m) == eps_node(g, b, m));
    assert forall|tok: TokenId| #[trigger] read_leaf(g, m, tok) == read_leaf(g, b, tok) by {}
    lemma_handles_agree(g, b, m, b, toks);
}

} // verus!
