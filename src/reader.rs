use crate::grammar::{ConditionalTokenReader, Grammar, LoopOrdering, Node, TokenId, win_rank};
use crate::list::List;
use crate::traces::{Policy, StackedReader, Trace, TraceEnding, TraceList};
use std::rc::Rc;
use vstd::arithmetic::div_mod::lemma_fundamental_div_mod_converse;
use vstd::prelude::*;

verus! {

/// One state of the parsing automaton: what remains to be read of a grammar
/// node after some input.
pub enum Reader {
    /// A token or class node waiting for its token, reached through the
    /// handle it holds (the node itself, or a memoization node over it).
    Leaf(usize),
    /// Sequence `node` at element `cursor`, whose state is `cur`; `stacked`
    /// holds the traces of the elements before it.
    List { node: usize, cursor: usize, cur: Rc<Reader>, stacked: Rc<StackedReader> },
    /// Repetition `node` in iteration `cursor`, whose state is `variant`;
    /// `stacked` holds the traces of the completed iterations.
    Loop { node: usize, cursor: usize, variant: Rc<Reader>, stacked: Rc<StackedReader> },
    /// Choice `node` with the cases still alive.
    Switch { node: usize, cases: Rc<Cases> },
    /// The body of an optional node, which was entered.
    Opt(Rc<Reader>),
    /// Two live paths of a sequence.
    ListPolicy(ListPolicyReader),
    /// Two live paths of a repetition.
    LoopPolicy(LoopPolicyReader),
}

/// The live cases of a choice, each with its index among the node's cases.
pub enum Cases {
    Nil,
    Cons(Rc<Reader>, usize, Rc<Cases>),
}

/// Two live paths: one that completed an element and went on, one that is
/// still extending that element.
pub struct PolicyReader {
    pub succeeded: Rc<Reader>,
    pub still_ongoing: Rc<Reader>,
    pub success_trace: Rc<TraceList>,
    pub trace_index: usize,
    pub policy: Policy,
}

/// Two live paths of a sequence: the next element opened, or the current
/// one still extending. Sequences break ties as `Longest` does.
pub struct ListPolicyReader(pub PolicyReader);

/// Two live paths of a repetition: one more iteration begun, or the current
/// one still extending; ties go by the repetition's policy.
pub struct LoopPolicyReader(pub PolicyReader);

/// What a reader reports for some input: the trace of an acceptance that ends
/// here, and the state to continue in.
pub struct ReadingResult {
    pub success: Option<Rc<TraceList>>,
    pub ongoing: Option<Rc<Reader>>,
}

impl ReadingResult {
    /// A dead result: no acceptance, no continuation.
    pub fn none() -> (r: ReadingResult)
        ensures
            r == dead(),
    {
        ReadingResult { success: None, ongoing: None }
    }

    /// A copy that shares the traces and states.
    pub fn copy(&self) -> (r: ReadingResult)
        ensures
            r == *self,
    {
        ReadingResult {
            success: match &self.success {
                Some(s) => Some(s.clone()),
                None => None,
            },
            ongoing: match &self.ongoing {
                Some(o) => Some(o.clone()),
                None => None,
            },
        }
    }
}

impl ConditionalTokenReader {
    /// The result of a class node on a token that it accepts.
    pub fn success() -> (r: ReadingResult)
        ensures
            r == accept_token(),
    {
        ReadingResult { success: Some(Rc::new(List::Nil(TraceEnding::Token))), ongoing: None }
    }

    /// The result of a class node on a token that it rejects.
    pub fn fail() -> (r: ReadingResult)
        ensures
            r == dead(),
    {
        ReadingResult::none()
    }
}

/// No acceptance and no continuation.
pub open spec fn dead() -> ReadingResult {
    ReadingResult { success: None, ongoing: None }
}

/// Acceptance of the token just read, with nothing left to wait for.
pub open spec fn accept_token() -> ReadingResult {
    ReadingResult { success: Some(Rc::new(TraceList::Nil(TraceEnding::Token))), ongoing: None }
}

/// The trace of an optional node that was skipped.
pub open spec fn skip_trace() -> Rc<TraceList> {
    Rc::new(TraceList::Cons(Trace::Switch(0, Policy::Longest), Rc::new(TraceList::Nil(TraceEnding::Epsilon))))
}

/// The trace of a repetition with no iteration.
pub open spec fn zero_loop_trace(policy: Policy) -> Rc<TraceList> {
    Rc::new(TraceList::Cons(Trace::Switch(0, policy), Rc::new(TraceList::Nil(TraceEnding::Epsilon))))
}

/// The trace that closes a sequence or repetition over `stacked`.
pub open spec fn close_trace(stacked: Rc<StackedReader>) -> Rc<TraceList> {
    Rc::new(TraceList::Cons(Trace::Tmp(stacked), Rc::new(TraceList::Nil(TraceEnding::Stacked))))
}

/// The index recorded for iteration `cursor`: the cursor itself, or its
/// negation modulo the word size for a decreasing repetition.
pub open spec fn loop_index(cursor: usize, ordering: LoopOrdering) -> usize {
    match ordering {
        LoopOrdering::Increasing => cursor,
        LoopOrdering::Decreasing => if cursor == 0 { 0 } else { (usize::MAX - cursor + 1) as usize },
    }
}

/// `c + 1`, kept at the largest `usize`.
pub open spec fn sat_inc(c: usize) -> usize {
    if c < usize::MAX { (c + 1) as usize } else { c }
}

/// The sequence elements of node `n`, empty if it is no sequence.
pub open spec fn elts_of(g: Grammar, n: usize) -> Seq<usize> {
    match g.nodes@[n as int] {
        Node::List(l) => l.elts@,
        _ => Seq::empty(),
    }
}

/// The merge of two live paths; either alone when the other is dead.
pub open spec fn merge(
    is_loop: bool,
    succeeded: Option<Rc<Reader>>,
    still_ongoing: Option<Rc<Reader>>,
    success_trace: Rc<TraceList>,
    trace_index: usize,
    policy: Policy,
) -> Option<Rc<Reader>> {
    match (succeeded, still_ongoing) {
        (Some(a), Some(b)) => {
            let p = PolicyReader {
                succeeded: a,
                still_ongoing: b,
                success_trace,
                trace_index,
                policy,
            };
            Some(
                Rc::new(
                    if is_loop {
                        Reader::LoopPolicy(LoopPolicyReader(p))
                    } else {
                        Reader::ListPolicy(ListPolicyReader(p))
                    },
                ),
            )
        },
        (Some(a), None) => Some(a),
        (None, b) => b,
    }
}

/// The acceptance kept when the still-extending path accepts with `ongoing`
/// and the path that went on accepts with `succeeded` at the same position.
/// In a repetition the path that went on has one more iteration: `Longest`
/// keeps it, `Shortest` keeps the other. In a sequence the still-extending
/// path has the longer element: `Longest` keeps it, `Shortest` the other.
pub open spec fn between(
    is_loop: bool,
    policy: Policy,
    ongoing: Option<Rc<TraceList>>,
    succeeded: Option<Rc<TraceList>>,
) -> Option<Rc<TraceList>> {
    match (ongoing, succeeded) {
        (Some(a), Some(b)) => match policy {
            Policy::Longest => if is_loop { Some(b) } else { Some(a) },
            Policy::Shortest => if is_loop { Some(a) } else { Some(b) },
        },
        (Some(a), None) => Some(a),
        (None, b) => b,
    }
}

/// The result of a choice: the first accepting case, and the live cases.
pub open spec fn switch_result(
    node: usize,
    policy: Policy,
    found: Option<(Rc<TraceList>, usize)>,
    live: Cases,
) -> ReadingResult {
    ReadingResult {
        success: match found {
            Some((t, i)) => Some(Rc::new(TraceList::Cons(Trace::Switch(i, policy), t))),
            None => None,
        },
        ongoing: match live {
            Cases::Nil => None,
            _ => Some(Rc::new(Reader::Switch { node, cases: Rc::new(live) })),
        },
    }
}

/// Sequence `node` at element `cursor` continuing in `o`, if there is `o`.
pub open spec fn list_state(
    node: usize,
    cursor: usize,
    stacked: Rc<StackedReader>,
    o: Option<Rc<Reader>>,
) -> Option<Rc<Reader>> {
    match o {
        Some(cur) => Some(Rc::new(Reader::List { node, cursor, cur, stacked })),
        None => None,
    }
}

/// Repetition `node` in iteration `cursor` continuing in `o`, if there is `o`.
pub open spec fn loop_state(
    node: usize,
    cursor: usize,
    stacked: Rc<StackedReader>,
    o: Option<Rc<Reader>>,
) -> Option<Rc<Reader>> {
    match o {
        Some(variant) => Some(Rc::new(Reader::Loop { node, cursor, variant, stacked })),
        None => None,
    }
}

/// The empty-input result of node `n`, reached through the handle `this`.
pub open spec fn eps_node(g: Grammar, n: usize, this: usize) -> ReadingResult
    decreases g.rank@[n as int] + 1, 0int, 0int,
    when g.wf() && n < g.nodes@.len()
    via eps_node_decreases
{
    match g.nodes@[n as int] {
        Node::Token(_) | Node::Class(_) => ReadingResult {
            success: None,
            ongoing: Some(Rc::new(Reader::Leaf(this))),
        },
        Node::Epsilon(_) => ReadingResult {
            success: Some(Rc::new(TraceList::Nil(TraceEnding::Epsilon))),
            ongoing: None,
        },
        Node::Optional(o) => {
            let r = eps_node(g, o.reader, o.reader);
            ReadingResult {
                success: Some(skip_trace()),
                ongoing: match r.ongoing {
                    Some(x) => Some(Rc::new(Reader::Opt(x))),
                    None => None,
                },
            }
        },
        Node::List(_) => eps_list(g, n, 0, Rc::new(List::Nil(()))),
        Node::Loop(lp) => ReadingResult {
            success: Some(zero_loop_trace(lp.policy)),
            ongoing: loop_state(n, 0, Rc::new(List::Nil(())), eps_node(g, lp.ref_, lp.ref_).ongoing),
        },
        Node::Switch(sw) => {
            let (found, live) = eps_cases(g, n, 0);
            switch_result(n, sw.policy, found, live)
        },
        Node::Ref(r) => match r.val {
            Some(t) => eps_node(g, t, t),
            None => dead(),
        },
        Node::Tagger(t) => eps_node(g, t.reader, t.reader),
        Node::Memo(m) => eps_node(g, m.reader, this),
    }
}

/// The empty-input result of sequence `n` from element `c` on, with the
/// traces of the elements before `c` in `stacked`.
pub open spec fn eps_list(g: Grammar, n: usize, c: int, stacked: Rc<StackedReader>) -> ReadingResult
    decreases win_rank(g, elts_of(g, n), c), 0int, elts_of(g, n).len() - c,
    when g.wf() && n < g.nodes@.len()
    via eps_list_decreases
{
    let elts = elts_of(g, n);
    if c < 0 || c >= elts.len() {
        dead()
    } else {
        let e = elts[c];
        let r = eps_node(g, e, e);
        let ongoing = list_state(n, c as usize, stacked, r.ongoing);
        match r.success {
            None => ReadingResult { success: None, ongoing },
            Some(t) => {
                let st = Rc::new(List::Cons(t, stacked));
                if c + 1 == elts.len() {
                    ReadingResult { success: Some(close_trace(st)), ongoing }
                } else if !g.nullable@[e as int] {
                    ReadingResult { success: None, ongoing }
                } else {
                    let f = eps_list(g, n, c + 1, st);
                    ReadingResult {
                        success: f.success,
                        ongoing: merge(false, f.ongoing, ongoing, t, c as usize, Policy::Longest),
                    }
                }
            },
        }
    }
}

/// The empty-input results of the cases of choice `n` from index `i` on: the
/// first acceptance, and the live cases.
pub open spec fn eps_cases(g: Grammar, n: usize, i: int) -> (Option<(Rc<TraceList>, usize)>, Cases)
    decreases g.rank@[n as int], 1int, cases_of(g, n).len() - i,
    when g.wf() && n < g.nodes@.len()
    via eps_cases_decreases
{
    let cases = cases_of(g, n);
    if i < 0 || i >= cases.len() {
        (None, Cases::Nil)
    } else {
        let r = eps_node(g, cases[i], cases[i]);
        let (found, live) = eps_cases(g, n, i + 1);
        (
            match r.success {
                Some(t) => Some((t, i as usize)),
                None => found,
            },
            match r.ongoing {
                Some(o) => Cases::Cons(o, i as usize, Rc::new(live)),
                None => live,
            },
        )
    }
}

#[via_fn]
proof fn eps_node_decreases(g: Grammar, n: usize, this: usize) {
    assert(g.node_ok(n as int));
    if let Node::List(l) = g.nodes@[n as int] {
        assert(elts_of(g, n) == l.elts@);
    }
}

#[via_fn]
proof fn eps_list_decreases(g: Grammar, n: usize, c: int, stacked: Rc<StackedReader>) {
    assert(g.node_ok(n as int));
    let elts = elts_of(g, n);
    if 0 <= c < elts.len() {
        let e = elts[c];
        assert(e < g.nodes@.len());
        assert(win_rank(g, elts, c) >= g.rank@[e as int] + 1);
        if g.nullable@[e as int] {
            assert(win_rank(g, elts, c) >= win_rank(g, elts, c + 1));
        }
    }
}

#[via_fn]
proof fn eps_cases_decreases(g: Grammar, n: usize, i: int) {
    assert(g.node_ok(n as int));
    let cases = cases_of(g, n);
    if 0 <= i < cases.len() {
        assert(cases[i] < g.nodes@.len());
    }
}

/// The cases of choice node `n`, empty if it is no choice.
pub open spec fn cases_of(g: Grammar, n: usize) -> Seq<usize> {
    match g.nodes@[n as int] {
        Node::Switch(sw) => sw.cases@,
        _ => Seq::empty(),
    }
}

/// The policy of node `n`: its own for a repetition or choice.
pub open spec fn policy_of(g: Grammar, n: usize) -> Policy {
    match g.nodes@[n as int] {
        Node::Switch(sw) => sw.policy,
        Node::Loop(lp) => lp.policy,
        _ => Policy::Longest,
    }
}


/// The result of the token or class node `h` (seen through any memoization
/// wrappers) on the token `tok`.
pub open spec fn read_leaf(g: Grammar, h: usize, tok: TokenId) -> ReadingResult
    decreases g.rank@[h as int],
    when g.wf() && h < g.nodes@.len()
    via read_leaf_decreases
{
    match g.nodes@[h as int] {
        Node::Token(t) => if t.token_ref == tok { accept_token() } else { dead() },
        Node::Class(c) => if tok < c.matching@.len() && c.matching@[tok as int] {
            accept_token()
        } else {
            dead()
        },
        Node::Memo(m) => read_leaf(g, m.reader, tok),
        _ => dead(),
    }
}

#[via_fn]
proof fn read_leaf_decreases(g: Grammar, h: usize, tok: TokenId) {
    assert(g.node_ok(h as int));
}

/// What sequence `n` becomes when element `c` gave `r`.
pub open spec fn list_after(
    g: Grammar,
    n: usize,
    c: usize,
    stacked: Rc<StackedReader>,
    r: ReadingResult,
) -> ReadingResult {
    let ongoing = list_state(n, c, stacked, r.ongoing);
    match r.success {
        None => ReadingResult { success: None, ongoing },
        Some(t) => {
            let st = Rc::new(List::Cons(t, stacked));
            if c + 1 >= elts_of(g, n).len() {
                ReadingResult { success: Some(close_trace(st)), ongoing }
            } else {
                let f = eps_list(g, n, c + 1, st);
                ReadingResult {
                    success: f.success,
                    ongoing: merge(false, f.ongoing, ongoing, t, c, Policy::Longest),
                }
            }
        },
    }
}

/// What repetition `n` becomes when iteration `c` gave `r`.
pub open spec fn loop_after(
    g: Grammar,
    n: usize,
    c: usize,
    stacked: Rc<StackedReader>,
    r: ReadingResult,
) -> ReadingResult {
    match g.nodes@[n as int] {
        Node::Loop(lp) => {
            let ongoing = loop_state(n, c, stacked, r.ongoing);
            match r.success {
                None => ReadingResult { success: None, ongoing },
                Some(t) => {
                    let st = Rc::new(List::Cons(t, stacked));
                    let next = loop_state(n, sat_inc(c), st, eps_node(g, lp.ref_, lp.ref_).ongoing);
                    ReadingResult {
                        success: Some(
                            Rc::new(
                                TraceList::Cons(
                                    Trace::Switch(loop_index(c, lp.ordering), lp.policy),
                                    close_trace(st),
                                ),
                            ),
                        ),
                        ongoing: merge(true, next, ongoing, t, sat_inc(c), lp.policy),
                    }
                },
            }
        },
        _ => dead(),
    }
}

/// The result of state `r` on the token `tok`.
pub open spec fn read_state(g: Grammar, r: Reader, tok: TokenId) -> ReadingResult
    decreases r,
{
    match r {
        Reader::Leaf(h) => if g.wf() && h < g.nodes@.len() { read_leaf(g, h, tok) } else { dead() },
        Reader::List { node, cursor, cur, stacked } => list_after(
            g,
            node,
            cursor,
            stacked,
            read_state(g, *cur, tok),
        ),
        Reader::Loop { node, cursor, variant, stacked } => loop_after(
            g,
            node,
            cursor,
            stacked,
            read_state(g, *variant, tok),
        ),
        Reader::Switch { node, cases } => {
            let (found, live) = read_cases(g, *cases, tok);
            switch_result(node, policy_of(g, node), found, live)
        },
        Reader::Opt(inner) => {
            let res = read_state(g, *inner, tok);
            ReadingResult {
                success: match res.success {
                    Some(t) => Some(Rc::new(TraceList::Cons(Trace::Switch(1, Policy::Longest), t))),
                    None => None,
                },
                ongoing: match res.ongoing {
                    Some(o) => Some(Rc::new(Reader::Opt(o))),
                    None => None,
                },
            }
        },
        Reader::ListPolicy(p) => decide(
            false,
            p.0,
            read_state(g, *p.0.still_ongoing, tok),
            read_state(g, *p.0.succeeded, tok),
        ),
        Reader::LoopPolicy(p) => decide(
            true,
            p.0,
            read_state(g, *p.0.still_ongoing, tok),
            read_state(g, *p.0.succeeded, tok),
        ),
    }
}

/// The results of the live cases `cs` on `tok`: the first acceptance, and
/// the cases still alive.
pub open spec fn read_cases(g: Grammar, cs: Cases, tok: TokenId) -> (
    Option<(Rc<TraceList>, usize)>,
    Cases,
)
    decreases cs,
{
    match cs {
        Cases::Nil => (None, Cases::Nil),
        Cases::Cons(r, i, rest) => {
            let res = read_state(g, *r, tok);
            let (found, live) = read_cases(g, *rest, tok);
            (
                match res.success {
                    Some(t) => Some((t, i)),
                    None => found,
                },
                match res.ongoing {
                    Some(o) => Cases::Cons(o, i, Rc::new(live)),
                    None => live,
                },
            )
        },
    }
}

/// The result of two live paths, given what each made of the token.
pub open spec fn decide(
    is_loop: bool,
    p: PolicyReader,
    on_ongoing: ReadingResult,
    on_succeeded: ReadingResult,
) -> ReadingResult {
    ReadingResult {
        success: between(is_loop, p.policy, on_ongoing.success, on_succeeded.success),
        ongoing: merge(
            is_loop,
            on_succeeded.ongoing,
            on_ongoing.ongoing,
            p.success_trace,
            p.trace_index,
            p.policy,
        ),
    }
}

/// Every node that the state `r` names exists and has the kind it needs.
pub open spec fn reader_ok(g: Grammar, r: Reader) -> bool
    decreases r,
{
    let len = g.nodes@.len();
    match r {
        Reader::Leaf(h) => h < len,
        Reader::List { node, cursor, cur, stacked } => node < len && g.nodes@[node as int] is List
            && cursor < elts_of(g, node).len() && reader_ok(g, *cur),
        Reader::Loop { node, cursor, variant, stacked } => node < len && g.nodes@[node as int] is Loop
            && reader_ok(g, *variant),
        Reader::Switch { node, cases } => node < len && g.nodes@[node as int] is Switch && cases_ok(
            g,
            *cases,
        ),
        Reader::Opt(inner) => reader_ok(g, *inner),
        Reader::ListPolicy(p) => reader_ok(g, *p.0.succeeded) && reader_ok(g, *p.0.still_ongoing),
        Reader::LoopPolicy(p) => reader_ok(g, *p.0.succeeded) && reader_ok(g, *p.0.still_ongoing),
    }
}

/// Every live case is a fit state.
pub open spec fn cases_ok(g: Grammar, cs: Cases) -> bool
    decreases cs,
{
    match cs {
        Cases::Nil => true,
        Cases::Cons(r, _, rest) => reader_ok(g, *r) && cases_ok(g, *rest),
    }
}

/// The continuation of `r`, if any, is a fit state.
pub open spec fn result_ok(g: Grammar, r: ReadingResult) -> bool {
    match r.ongoing {
        Some(o) => reader_ok(g, *o),
        None => true,
    }
}


/// Caches of the memoization nodes: their empty-input results, and their
/// results on each token identity below `stride`, at `node * stride + token`.
pub struct MemoTable {
    pub eps: Vec<Option<ReadingResult>>,
    pub reads: Vec<Option<ReadingResult>>,
    pub stride: usize,
}

impl MemoTable {
    /// Every cached result is the one the grammar defines.
    pub open spec fn wf(self, g: Grammar) -> bool {
        &&& self.eps@.len() == g.nodes@.len()
        &&& self.reads@.len() == g.nodes@.len() * self.stride
        &&& forall|n: int|
            0 <= n < self.eps@.len() && #[trigger] self.eps@[n] is Some ==> g.nodes@[n] is Memo
                && self.eps@[n]->0 == eps_node(g, n as usize, n as usize) && result_ok(g, self.eps@[n]->0)
        &&& forall|k: int|
            0 <= k < self.reads@.len() && #[trigger] self.reads@[k] is Some ==> self.reads@[k]->0
                == read_leaf(g, (k / self.stride as int) as usize, (k % self.stride as int) as usize)
                && result_ok(g, self.reads@[k]->0)
    }

    /// Empty caches for `g`, caching token results up to the largest bound
    /// of its memoization nodes, or none if the table would not fit.
    pub fn new(g: &Grammar) -> (m: MemoTable)
        ensures
            m.wf(*g),
            g.nodes@.len() * max_nb(g.nodes@, g.nodes@.len() as int) <= usize::MAX ==> m.stride == max_nb(
                g.nodes@,
                g.nodes@.len() as int,
            ),
            g.nodes@.len() * max_nb(g.nodes@, g.nodes@.len() as int) > usize::MAX ==> m.stride == 0,
            forall|n: int| 0 <= n < m.eps@.len() ==> #[trigger] m.eps@[n] is None,
            forall|k: int| 0 <= k < m.reads@.len() ==> #[trigger] m.reads@[k] is None,
    {
        let len = g.nodes.len();
        let mut stride: usize = 0;
        let mut eps: Vec<Option<ReadingResult>> = Vec::new();
        let mut n: usize = 0;
        while n < len
            invariant
                n <= len,
                len == g.nodes@.len(),
                eps@.len() == n,
                stride == max_nb(g.nodes@, n as int),
                forall|k: int| 0 <= k < n ==> #[trigger] eps@[k] is None,
            decreases len - n,
        {
            if let Node::Memo(m) = &g.nodes[n] {
                if m.nb > stride {
                    stride = m.nb;
                }
            }
            eps.push(None);
            n = n + 1;
        }
        let total = match len.checked_mul(stride) {
            Some(t) => t,
            None => {
                stride = 0;
                0
            },
        };
        assert(total == len * stride) by (nonlinear_arith)
            requires
                stride == 0 ==> total == 0,
                stride != 0 ==> total == len * stride,
        ;
        let mut reads: Vec<Option<ReadingResult>> = Vec::new();
        let mut k: usize = 0;
        while k < total
            invariant
                k <= total,
                reads@.len() == k,
                forall|j: int| 0 <= j < k ==> #[trigger] reads@[j] is None,
            decreases total - k,
        {
            reads.push(None);
            k = k + 1;
        }
        MemoTable { eps, reads, stride }
    }
}

/// The largest bound among the memoization nodes of the first `k` nodes.
pub open spec fn max_nb(nodes: Seq<Node>, k: int) -> nat
    decreases k,
{
    if k <= 0 {
        0
    } else {
        let rest = max_nb(nodes, k - 1);
        match nodes[k - 1] {
            Node::Memo(m) => if m.nb > rest { m.nb as nat } else { rest },
            _ => rest,
        }
    }
}

fn merge_exec(
    is_loop: bool,
    succeeded: Option<Rc<Reader>>,
    still_ongoing: Option<Rc<Reader>>,
    success_trace: Rc<TraceList>,
    trace_index: usize,
    policy: Policy,
) -> (r: Option<Rc<Reader>>)
    ensures
        r == merge(is_loop, succeeded, still_ongoing, success_trace, trace_index, policy),
{
    match (succeeded, still_ongoing) {
        (Some(a), Some(b)) => {
            let p = PolicyReader { succeeded: a, still_ongoing: b, success_trace, trace_index, policy };
            Some(
                Rc::new(
                    if is_loop {
                        Reader::LoopPolicy(LoopPolicyReader(p))
                    } else {
                        Reader::ListPolicy(ListPolicyReader(p))
                    },
                ),
            )
        },
        (Some(a), None) => Some(a),
        (None, b) => b,
    }
}

fn between_exec(
    is_loop: bool,
    policy: Policy,
    ongoing: Option<Rc<TraceList>>,
    succeeded: Option<Rc<TraceList>>,
) -> (r: Option<Rc<TraceList>>)
    ensures
        r == between(is_loop, policy, ongoing, succeeded),
{
    match (ongoing, succeeded) {
        (Some(a), Some(b)) => match policy {
            Policy::Longest => if is_loop {
                Some(b)
            } else {
                Some(a)
            },
            Policy::Shortest => if is_loop {
                Some(a)
            } else {
                Some(b)
            },
        },
        (Some(a), None) => Some(a),
        (None, b) => b,
    }
}

fn switch_result_exec(
    node: usize,
    policy: Policy,
    found: Option<(Rc<TraceList>, usize)>,
    live: Cases,
) -> (r: ReadingResult)
    ensures
        r == switch_result(node, policy, found, live),
{
    let success = match found {
        Some((t, i)) => Some(Rc::new(List::Cons(Trace::Switch(i, policy), t))),
        None => None,
    };
    let ongoing = match live {
        Cases::Nil => None,
        other => Some(Rc::new(Reader::Switch { node, cases: Rc::new(other) })),
    };
    ReadingResult { success, ongoing }
}

fn list_state_exec(node: usize, cursor: usize, stacked: Rc<StackedReader>, o: Option<Rc<Reader>>) -> (r:
    Option<Rc<Reader>>)
    ensures
        r == list_state(node, cursor, stacked, o),
{
    match o {
        Some(cur) => Some(Rc::new(Reader::List { node, cursor, cur, stacked })),
        None => None,
    }
}

fn loop_state_exec(node: usize, cursor: usize, stacked: Rc<StackedReader>, o: Option<Rc<Reader>>) -> (r:
    Option<Rc<Reader>>)
    ensures
        r == loop_state(node, cursor, stacked, o),
{
    match o {
        Some(variant) => Some(Rc::new(Reader::Loop { node, cursor, variant, stacked })),
        None => None,
    }
}

fn close_trace_exec(stacked: Rc<StackedReader>) -> (r: Rc<TraceList>)
    ensures
        r == close_trace(stacked),
{
    Rc::new(List::Cons(Trace::Tmp(stacked), Rc::new(List::Nil(TraceEnding::Stacked))))
}

fn eps_node_exec(g: &Grammar, memo: &mut MemoTable, n: usize, this: usize) -> (r: ReadingResult)
    requires
        g.wf(),
        old(memo).wf(*g),
        n < g.nodes@.len(),
        this < g.nodes@.len(),
    ensures
        final(memo).wf(*g),
        r == eps_node(*g, n, this),
        result_ok(*g, r),
    decreases g.rank@[n as int] + 1, 0int, 0int,
{
    proof {
        assert(g.node_ok(n as int));
    }
    match &g.nodes[n] {
        Node::Token(_) | Node::Class(_) => ReadingResult {
            success: None,
            ongoing: Some(Rc::new(Reader::Leaf(this))),
        },
        Node::Epsilon(_) => ReadingResult {
            success: Some(Rc::new(List::Nil(TraceEnding::Epsilon))),
            ongoing: None,
        },
        Node::Optional(o) => {
            let r = eps_node_exec(g, memo, o.reader, o.reader);
            ReadingResult {
                success: Some(
                    Rc::new(List::Cons(Trace::Switch(0, Policy::Longest), Rc::new(List::Nil(TraceEnding::Epsilon)))),
                ),
                ongoing: match r.ongoing {
                    Some(x) => Some(Rc::new(Reader::Opt(x))),
                    None => None,
                },
            }
        },
        Node::List(l) => {
            proof {
                assert(elts_of(*g, n) == l.elts@);
            }
            eps_list_exec(g, memo, n, 0, Rc::new(List::Nil(())))
        },
        Node::Loop(lp) => {
            let fv = eps_node_exec(g, memo, lp.ref_, lp.ref_);
            ReadingResult {
                success: Some(
                    Rc::new(List::Cons(Trace::Switch(0, lp.policy), Rc::new(List::Nil(TraceEnding::Epsilon)))),
                ),
                ongoing: loop_state_exec(n, 0, Rc::new(List::Nil(())), fv.ongoing),
            }
        },
        Node::Switch(sw) => {
            let (found, live) = eps_cases_exec(g, memo, n, 0);
            switch_result_exec(n, sw.policy, found, live)
        },
        Node::Ref(r) => match r.val {
            Some(t) => eps_node_exec(g, memo, t, t),
            None => ReadingResult::none(),
        },
        Node::Tagger(t) => eps_node_exec(g, memo, t.reader, t.reader),
        Node::Memo(m) => {
            if this == n {
                if let Some(cached) = &memo.eps[n] {
                    return cached.copy();
                }
                let r = eps_node_exec(g, memo, m.reader, this);
                memo.eps.set(n, Some(r.copy()));
                r
            } else {
                eps_node_exec(g, memo, m.reader, this)
            }
        },
    }
}

fn eps_list_exec(g: &Grammar, memo: &mut MemoTable, n: usize, c: usize, stacked: Rc<StackedReader>) -> (r:
    ReadingResult)
    requires
        g.wf(),
        old(memo).wf(*g),
        n < g.nodes@.len(),
    ensures
        final(memo).wf(*g),
        r == eps_list(*g, n, c as int, stacked),
        result_ok(*g, r),
    decreases win_rank(*g, elts_of(*g, n), c as int), 0int, elts_of(*g, n).len() - c,
{
    proof {
        assert(g.node_ok(n as int));
    }
    let elts: &Vec<usize> = match &g.nodes[n] {
        Node::List(l) => &l.elts,
        _ => {
            return ReadingResult::none();
        },
    };
    assert(elts@ == elts_of(*g, n));
    assert(g.nodes@[n as int] is List);
    if c >= elts.len() {
        return ReadingResult::none();
    }
    let e = elts[c];
    proof {
        assert(win_rank(*g, elts@, c as int) >= g.rank@[e as int] + 1);
    }
    let r = eps_node_exec(g, memo, e, e);
    let ongoing = list_state_exec(n, c, stacked.clone(), r.ongoing);
    proof {
        if ongoing is Some {
            assert(reader_ok(*g, *ongoing->0));
        }
        assert(result_ok(*g, ReadingResult { success: None, ongoing }));
    }
    match r.success {
        None => ReadingResult { success: None, ongoing },
        Some(t) => {
            let st = Rc::new(List::Cons(t.clone(), stacked));
            if c + 1 == elts.len() {
                ReadingResult { success: Some(close_trace_exec(st)), ongoing }
            } else {
                proof {
                    lemma_accepting_is_nullable(*g, e, e);
                    assert(g.nullable@[e as int]);
                    assert(win_rank(*g, elts@, c as int) >= win_rank(*g, elts@, c + 1));
                }
                let f = eps_list_exec(g, memo, n, c + 1, st);
                ReadingResult {
                    success: f.success,
                    ongoing: merge_exec(false, f.ongoing, ongoing, t, c, Policy::Longest),
                }
            }
        },
    }
}

fn eps_cases_exec(g: &Grammar, memo: &mut MemoTable, n: usize, i: usize) -> (r: (
    Option<(Rc<TraceList>, usize)>,
    Cases,
))
    requires
        g.wf(),
        old(memo).wf(*g),
        n < g.nodes@.len(),
    ensures
        final(memo).wf(*g),
        r == eps_cases(*g, n, i as int),
        cases_ok(*g, r.1),
    decreases g.rank@[n as int], 1int, cases_of(*g, n).len() - i,
{
    proof {
        assert(g.node_ok(n as int));
    }
    let cases: &Vec<usize> = match &g.nodes[n] {
        Node::Switch(sw) => &sw.cases,
        _ => {
            return (None, Cases::Nil);
        },
    };
    assert(cases@ == cases_of(*g, n));
    if i >= cases.len() {
        return (None, Cases::Nil);
    }
    let c = cases[i];
    let r = eps_node_exec(g, memo, c, c);
    let (found, live) = eps_cases_exec(g, memo, n, i + 1);
    let found2 = match r.success {
        Some(t) => Some((t, i)),
        None => found,
    };
    let live2 = match r.ongoing {
        Some(o) => Cases::Cons(o, i, Rc::new(live)),
        None => live,
    };
    (found2, live2)
}


fn read_leaf_exec(g: &Grammar, memo: &mut MemoTable, h: usize, tok: TokenId) -> (r: ReadingResult)
    requires
        g.wf(),
        old(memo).wf(*g),
        h < g.nodes@.len(),
    ensures
        final(memo).wf(*g),
        final(memo).stride == old(memo).stride,
        r == read_leaf(*g, h, tok),
        result_ok(*g, r),
    decreases g.rank@[h as int],
{
    proof {
        assert(g.node_ok(h as int));
    }
    match &g.nodes[h] {
        Node::Token(t) => if t.token_ref == tok {
            ConditionalTokenReader::success()
        } else {
            ReadingResult::none()
        },
        Node::Class(c) => if tok < c.matching.len() && c.matching[tok] {
            ConditionalTokenReader::success()
        } else {
            ReadingResult::none()
        },
        Node::Memo(m) => {
            let stride = memo.stride;
            if tok < stride {
                let len = g.nodes.len();
                let total = memo.reads.len();
                assert(h * stride + tok < total && h * stride <= h * stride + tok) by (nonlinear_arith)
                    requires
                        h < len,
                        tok < stride,
                        total == len * stride,
                ;
                let k = h * stride + tok;
                proof {
                    lemma_fundamental_div_mod_converse(k as int, stride as int, h as int, tok as int);
                }
                if let Some(cached) = &memo.reads[k] {
                    return cached.copy();
                }
                let r = read_leaf_exec(g, memo, m.reader, tok);
                memo.reads.set(k, Some(r.copy()));
                r
            } else {
                read_leaf_exec(g, memo, m.reader, tok)
            }
        },
        _ => ReadingResult::none(),
    }
}

fn list_after_exec(
    g: &Grammar,
    memo: &mut MemoTable,
    n: usize,
    c: usize,
    stacked: Rc<StackedReader>,
    r: ReadingResult,
) -> (res: ReadingResult)
    requires
        g.wf(),
        old(memo).wf(*g),
        n < g.nodes@.len(),
        g.nodes@[n as int] is List,
        c < elts_of(*g, n).len(),
        result_ok(*g, r),
    ensures
        final(memo).wf(*g),
        res == list_after(*g, n, c, stacked, r),
        result_ok(*g, res),
{
    let len: usize = match &g.nodes[n] {
        Node::List(l) => l.elts.len(),
        _ => 0,
    };
    let ongoing = list_state_exec(n, c, stacked.clone(), r.ongoing);
    proof {
        if ongoing is Some {
            assert(reader_ok(*g, *ongoing->0));
        }
    }
    match r.success {
        None => ReadingResult { success: None, ongoing },
        Some(t) => {
            let st = Rc::new(List::Cons(t.clone(), stacked));
            if c + 1 >= len {
                ReadingResult { success: Some(close_trace_exec(st)), ongoing }
            } else {
                let f = eps_list_exec(g, memo, n, c + 1, st);
                ReadingResult {
                    success: f.success,
                    ongoing: merge_exec(false, f.ongoing, ongoing, t, c, Policy::Longest),
                }
            }
        },
    }
}

fn loop_after_exec(
    g: &Grammar,
    memo: &mut MemoTable,
    n: usize,
    c: usize,
    stacked: Rc<StackedReader>,
    r: ReadingResult,
) -> (res: ReadingResult)
    requires
        g.wf(),
        old(memo).wf(*g),
        n < g.nodes@.len(),
        g.nodes@[n as int] is Loop,
        result_ok(*g, r),
    ensures
        final(memo).wf(*g),
        res == loop_after(*g, n, c, stacked, r),
        result_ok(*g, res),
{
    proof {
        assert(g.node_ok(n as int));
    }
    let (body, policy, ordering) = match &g.nodes[n] {
        Node::Loop(lp) => (lp.ref_, lp.policy, lp.ordering),
        _ => {
            return ReadingResult::none();
        },
    };
    let ongoing = loop_state_exec(n, c, stacked.clone(), r.ongoing);
    proof {
        if ongoing is Some {
            assert(reader_ok(*g, *ongoing->0));
        }
    }
    match r.success {
        None => ReadingResult { success: None, ongoing },
        Some(t) => {
            let st = Rc::new(List::Cons(t.clone(), stacked));
            let next_cursor = if c < usize::MAX { c + 1 } else { c };
            let fv = eps_node_exec(g, memo, body, body);
            let next = loop_state_exec(n, next_cursor, st.clone(), fv.ongoing);
            proof {
                if next is Some {
                    assert(reader_ok(*g, *next->0));
                }
            }
            let index: usize = match ordering {
                LoopOrdering::Increasing => c,
                LoopOrdering::Decreasing => if c == 0 { 0 } else { usize::MAX - c + 1 },
            };
            ReadingResult {
                success: Some(Rc::new(List::Cons(Trace::Switch(index, policy), close_trace_exec(st)))),
                ongoing: merge_exec(true, next, ongoing, t, next_cursor, policy),
            }
        },
    }
}

fn decide_exec(is_loop: bool, p: &PolicyReader, on_ongoing: ReadingResult, on_succeeded: ReadingResult) -> (r:
    ReadingResult)
    ensures
        r == decide(is_loop, *p, on_ongoing, on_succeeded),
{
    ReadingResult {
        success: between_exec(is_loop, p.policy, on_ongoing.success, on_succeeded.success),
        ongoing: merge_exec(
            is_loop,
            on_succeeded.ongoing,
            on_ongoing.ongoing,
            p.success_trace.clone(),
            p.trace_index,
            p.policy,
        ),
    }
}

fn read_exec(g: &Grammar, memo: &mut MemoTable, r: &Reader, tok: TokenId) -> (res: ReadingResult)
    requires
        g.wf(),
        old(memo).wf(*g),
        reader_ok(*g, *r),
    ensures
        final(memo).wf(*g),
        res == read_state(*g, *r, tok),
        result_ok(*g, res),
    decreases *r,
{
    match r {
        Reader::Leaf(h) => read_leaf_exec(g, memo, *h, tok),
        Reader::List { node, cursor, cur, stacked } => {
            let res = read_exec(g, memo, &**cur, tok);
            list_after_exec(g, memo, *node, *cursor, stacked.clone(), res)
        },
        Reader::Loop { node, cursor, variant, stacked } => {
            let res = read_exec(g, memo, &**variant, tok);
            loop_after_exec(g, memo, *node, *cursor, stacked.clone(), res)
        },
        Reader::Switch { node, cases } => {
            let (found, live) = read_cases_exec(g, memo, &**cases, tok);
            let policy = match &g.nodes[*node] {
                Node::Switch(sw) => sw.policy,
                Node::Loop(lp) => lp.policy,
                _ => Policy::Longest,
            };
            let res = switch_result_exec(*node, policy, found, live);
            proof {
                if res.ongoing is Some {
                    assert(reader_ok(*g, *res.ongoing->0));
                }
            }
            res
        },
        Reader::Opt(inner) => {
            let res = read_exec(g, memo, &**inner, tok);
            ReadingResult {
                success: match res.success {
                    Some(t) => Some(Rc::new(List::Cons(Trace::Switch(1, Policy::Longest), t))),
                    None => None,
                },
                ongoing: match res.ongoing {
                    Some(o) => Some(Rc::new(Reader::Opt(o))),
                    None => None,
                },
            }
        },
        Reader::ListPolicy(p) => {
            let a = read_exec(g, memo, &*p.0.still_ongoing, tok);
            let b = read_exec(g, memo, &*p.0.succeeded, tok);
            decide_exec(false, &p.0, a, b)
        },
        Reader::LoopPolicy(p) => {
            let a = read_exec(g, memo, &*p.0.still_ongoing, tok);
            let b = read_exec(g, memo, &*p.0.succeeded, tok);
            decide_exec(true, &p.0, a, b)
        },
    }
}

fn read_cases_exec(g: &Grammar, memo: &mut MemoTable, cs: &Cases, tok: TokenId) -> (r: (
    Option<(Rc<TraceList>, usize)>,
    Cases,
))
    requires
        g.wf(),
        old(memo).wf(*g),
        cases_ok(*g, *cs),
    ensures
        final(memo).wf(*g),
        r == read_cases(*g, *cs, tok),
        cases_ok(*g, r.1),
    decreases *cs,
{
    match cs {
        Cases::Nil => (None, Cases::Nil),
        Cases::Cons(r, i, rest) => {
            let res = read_exec(g, memo, &**r, tok);
            let (found, live) = read_cases_exec(g, memo, &**rest, tok);
            let found2 = match res.success {
                Some(t) => Some((t, *i)),
                None => found,
            };
            let live2 = match res.ongoing {
                Some(o) => Cases::Cons(o, *i, Rc::new(live)),
                None => live,
            };
            (found2, live2)
        },
    }
}

/// The empty-input result of node `n`: whether it accepts the empty input
/// (with the trace of that match), and the state that waits for more.
pub fn epsilon(g: &Grammar, memo: &mut MemoTable, n: usize) -> (r: ReadingResult)
    requires
        g.wf(),
        old(memo).wf(*g),
        n < g.nodes@.len(),
    ensures
        final(memo).wf(*g),
        r == eps_node(*g, n, n),
        result_ok(*g, r),
{
    eps_node_exec(g, memo, n, n)
}

/// The result of state `r` on one token: whether the construct is complete
/// once the token is consumed (with its trace), and the state that waits for
/// more.
pub fn read(g: &Grammar, memo: &mut MemoTable, r: &Reader, tok: TokenId) -> (res: ReadingResult)
    requires
        g.wf(),
        old(memo).wf(*g),
        reader_ok(*g, *r),
    ensures
        final(memo).wf(*g),
        res == read_state(*g, *r, tok),
        result_ok(*g, res),
{
    read_exec(g, memo, r, tok)
}

/// Adds `node` to `g` and returns its handle.
pub fn rc_reader(g: &mut Grammar, node: Node) -> (id: usize)
    requires
        old(g).nodes@.len() < usize::MAX,
    ensures
        id == old(g).nodes@.len(),
        final(g).nodes@ == old(g).nodes@.push(node),
{
    g.add(node)
}

/// Adds `node` to `g` behind a memoization node caching the token
/// identities below `nb`, and returns the handle of the latter.
pub fn rc_memo_reader(g: &mut Grammar, node: Node, nb: usize) -> (id: usize)
    requires
        old(g).nodes@.len() < usize::MAX - 1,
    ensures
        id == old(g).nodes@.len() + 1,
        final(g).nodes@ == old(g).nodes@.push(node).push(
            Node::Memo(crate::grammar::Memoized { reader: (id - 1) as usize, nb }),
        ),
{
    let inner = g.add(node);
    g.add(Node::Memo(crate::grammar::Memoized { reader: inner, nb }))
}


/// When iteration `c` of repetition `n` completes on a token and could also
/// go on, both paths stay alive: `succeeded` has begun iteration `c + 1`
/// with the completed iteration stacked, `still_ongoing` goes on with
/// iteration `c`.
pub proof fn lemma_loop_keeps_both(g: Grammar, n: usize, c: usize, stacked: Rc<StackedReader>, r: ReadingResult)
    requires
        g.wf(),
        n < g.nodes@.len(),
        g.nodes@[n as int] is Loop,
        r.success is Some,
        r.ongoing is Some,
        eps_node(g, g.nodes@[n as int]->Loop_0.ref_, g.nodes@[n as int]->Loop_0.ref_).ongoing is Some,
    ensures
        ({
            let lp = g.nodes@[n as int]->Loop_0;
            let t = r.success->0;
            let fresh = eps_node(g, lp.ref_, lp.ref_).ongoing->0;
            loop_after(g, n, c, stacked, r).ongoing == Some(
                Rc::new(
                    Reader::LoopPolicy(
                        LoopPolicyReader(
                            PolicyReader {
                                succeeded: Rc::new(
                                    Reader::Loop {
                                        node: n,
                                        cursor: sat_inc(c),
                                        variant: fresh,
                                        stacked: Rc::new(List::Cons(t, stacked)),
                                    },
                                ),
                                still_ongoing: Rc::new(
                                    Reader::Loop { node: n, cursor: c, variant: r.ongoing->0, stacked },
                                ),
                                success_trace: t,
                                trace_index: sat_inc(c),
                                policy: lp.policy,
                            },
                        ),
                    ),
                ),
            )
        }),
{
}

/// When both paths of a repetition accept the same token, `Longest` keeps
/// the acceptance of the path with one more iteration and `Shortest` that of
/// the path that extended the current iteration; when only one accepts, its
/// acceptance is kept.
pub proof fn lemma_loop_tie_break(g: Grammar, p: PolicyReader, tok: TokenId)
    ensures
        ({
            let on_ongoing = read_state(g, *p.still_ongoing, tok);
            let on_succeeded = read_state(g, *p.succeeded, tok);
            let res = read_state(g, Reader::LoopPolicy(LoopPolicyReader(p)), tok);
            &&& on_ongoing.success is Some && on_succeeded.success is Some ==> res.success == match p.policy {
                Policy::Longest => on_succeeded.success,
                Policy::Shortest => on_ongoing.success,
            }
            &&& on_ongoing.success is Some && on_succeeded.success is None ==> res.success == on_ongoing.success
            &&& on_ongoing.success is None ==> res.success == on_succeeded.success
        }),
{
}


/// A node whose empty-input result accepts is marked nullable; hence the
/// empty-input computation of a sequence never stops at an element that
/// accepted the empty input.
pub proof fn lemma_accepting_is_nullable(g: Grammar, n: usize, this: usize)
    requires
        g.wf(),
        n < g.nodes@.len(),
    ensures
        eps_node(g, n, this).success is Some ==> g.nullable@[n as int],
    decreases g.rank@[n as int] + 1, 0int, 0int,
{
    assert(g.node_ok(n as int));
    match g.nodes@[n as int] {
        Node::List(l) => {
            assert(elts_of(g, n) == l.elts@);
            lemma_list_accepting(g, n, 0, Rc::new(List::Nil(())));
            if eps_node(g, n, this).success is Some {
                assert(g.nullable_rule(n as int));
            }
        },
        Node::Switch(sw) => {
            lemma_cases_accepting(g, n, 0);
            if eps_node(g, n, this).success is Some {
                let i = choose|i: int|
                    0 <= i < cases_of(g, n).len() && #[trigger] g.nullable@[cases_of(g, n)[i] as int];
                assert(g.nullable@[sw.cases@[i] as int]);
                assert(g.nullable_rule(n as int));
            }
        },
        Node::Ref(r) => {
            if let Some(t) = r.val {
                lemma_accepting_is_nullable(g, t, t);
            }
        },
        Node::Tagger(t) => {
            lemma_accepting_is_nullable(g, t.reader, t.reader);
        },
        Node::Memo(m) => {
            lemma_accepting_is_nullable(g, m.reader, this);
        },
        _ => {},
    }
    if eps_node(g, n, this).success is Some {
        assert(g.nullable_rule(n as int));
    }
}

/// When a sequence accepts the empty input from element `c` on, every
/// element from `c` on is marked nullable.
proof fn lemma_list_accepting(g: Grammar, n: usize, c: int, stacked: Rc<StackedReader>)
    requires
        g.wf(),
        n < g.nodes@.len(),
    ensures
        eps_list(g, n, c, stacked).success is Some ==> forall|j: int|
            c <= j < elts_of(g, n).len() ==> #[trigger] g.nullable@[elts_of(g, n)[j] as int],
    decreases win_rank(g, elts_of(g, n), c), 0int, elts_of(g, n).len() - c,
{
    assert(g.node_ok(n as int));
    let elts = elts_of(g, n);
    if 0 <= c < elts.len() {
        let e = elts[c];
        assert(e < g.nodes@.len());
        assert(win_rank(g, elts, c) >= g.rank@[e as int] + 1);
        lemma_accepting_is_nullable(g, e, e);
        let r = eps_node(g, e, e);
        if r.success is Some && c + 1 < elts.len() && g.nullable@[e as int] {
            assert(win_rank(g, elts, c) >= win_rank(g, elts, c + 1));
            let st = Rc::new(List::Cons(r.success->0, stacked));
            lemma_list_accepting(g, n, c + 1, st);
        }
    }
}

/// When the cases of a choice from index `i` on accept the empty input, one
/// of them is marked nullable.
proof fn lemma_cases_accepting(g: Grammar, n: usize, i: int)
    requires
        g.wf(),
        n < g.nodes@.len(),
    ensures
        eps_cases(g, n, i).0 is Some ==> exists|j: int|
            i <= j < cases_of(g, n).len() && #[trigger] g.nullable@[cases_of(g, n)[j] as int],
    decreases g.rank@[n as int], 1int, cases_of(g, n).len() - i,
{
    assert(g.node_ok(n as int));
    let cases = cases_of(g, n);
    if 0 <= i < cases.len() {
        assert(cases[i] < g.nodes@.len());
        lemma_accepting_is_nullable(g, cases[i], cases[i]);
        lemma_cases_accepting(g, n, i + 1);
    }
}

} // verus!
