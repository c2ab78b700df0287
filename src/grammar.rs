use crate::traces::Policy;
use vstd::prelude::*;

verus! {

/// The identity of a token: an index into fixed-size tables.
pub type TokenId = usize;

/// A small positive integer naming an interned string.
pub type Symbol = usize;

/// An optional label of a grammar node, used only to name tree nodes.
pub type Tag = Option<Symbol>;

/// The direction in which a repetition numbers its iterations in traces.
#[derive(Clone, Copy, Debug, PartialEq, Eq, Structural)]
pub enum LoopOrdering {
    Increasing,
    Decreasing,
}

/// Accepts exactly one token, the one with identity `token_ref`.
pub struct TokenReader {
    pub token_ref: TokenId,
    pub tag: Tag,
}

/// Accepts exactly one token whose identity is marked in `matching`.
pub struct ConditionalTokenReader {
    pub matching: Vec<bool>,
    pub tag: Tag,
}

/// Accepts the empty input only.
pub struct EpsilonReader {}

/// Zero or one occurrence of the node `reader`.
pub struct OptionalReader {
    pub reader: usize,
}

/// The nodes `elts`, one after the other.
pub struct ListReader {
    pub elts: Vec<usize>,
    pub tag: Tag,
}

/// Any number of occurrences of the node `ref_`.
pub struct LoopReader {
    pub ref_: usize,
    pub policy: Policy,
    pub ordering: LoopOrdering,
    pub tag: Tag,
}

/// One of the nodes `cases`, the first that accepts winning.
pub struct SwitchReader_ {
    pub cases: Vec<usize>,
    pub policy: Policy,
    pub tag: Tag,
}

/// A cell standing for a node that is patched in later, to close cycles.
pub struct RefReader {
    pub val: Option<usize>,
}

/// The node `reader`, labelled `sym` in trees.
pub struct TaggerReader {
    pub reader: usize,
    pub sym: Symbol,
}

/// The node `reader` with its results cached; `nb` bounds the token identities
/// whose results are cached.
pub struct Memoized {
    pub reader: usize,
    pub nb: usize,
}

/// A grammar node.
pub enum Node {
    Token(TokenReader),
    Class(ConditionalTokenReader),
    Epsilon(EpsilonReader),
    Optional(OptionalReader),
    List(ListReader),
    Loop(LoopReader),
    Switch(SwitchReader_),
    Ref(RefReader),
    Tagger(TaggerReader),
    Memo(Memoized),
}

/// An arena of grammar nodes that refer to each other by index.
///
/// `nullable` and `rank` are computed by `freeze`: `rank` decreases along every
/// path by which computing the empty-input result of a node reaches another
/// node, which is what makes that computation terminate.
pub struct Grammar {
    pub nodes: Vec<Node>,
    pub nullable: Vec<bool>,
    pub rank: Vec<usize>,
}

impl TokenReader {
    /// A reader of the token `token_ref`.
    pub fn new(token_ref: TokenId, tag: Tag) -> (r: Self)
        ensures
            r.token_ref == token_ref,
            r.tag == tag,
    {
        TokenReader { token_ref, tag }
    }
}

impl OptionalReader {
    /// Zero or one occurrence of `reader`.
    pub fn new(reader: usize) -> (r: Self)
        ensures
            r.reader == reader,
    {
        OptionalReader { reader }
    }
}

impl ListReader {
    /// The sequence `elts`; it must not be empty.
    pub fn new(elts: Vec<usize>, tag: Tag) -> (r: Self)
        ensures
            r.elts == elts,
            r.tag == tag,
    {
        ListReader { elts, tag }
    }
}

impl LoopReader {
    /// Any number of occurrences of `ref_`.
    pub fn new(ref_: usize, policy: Policy, ordering: LoopOrdering, tag: Tag) -> (r: Self)
        ensures
            r.ref_ == ref_,
            r.policy == policy,
            r.ordering == ordering,
            r.tag == tag,
    {
        LoopReader { ref_, policy, ordering, tag }
    }
}

impl SwitchReader_ {
    /// A choice among `cases`.
    pub fn new(cases: Vec<usize>, policy: Policy, tag: Tag) -> (r: Self)
        ensures
            r.cases == cases,
            r.policy == policy,
            r.tag == tag,
    {
        SwitchReader_ { cases, policy, tag }
    }
}

impl RefReader {
    /// An unpatched cell.
    pub fn new() -> (r: Self)
        ensures
            r.val is None,
    {
        RefReader { val: None }
    }

    /// Patches the reference cell `this` to stand for `val`; any other node is
    /// left as it is.
    pub fn set(g: &mut Grammar, this: usize, val: usize) -> (r: usize)
        ensures
            r == this,
            final(g).nodes@.len() == old(g).nodes@.len(),
            this < old(g).nodes@.len() && old(g).nodes@[this as int] is Ref ==> final(g).nodes@
                == old(g).nodes@.update(this as int, Node::Ref(RefReader { val: Some(val) })),
            !(this < old(g).nodes@.len() && old(g).nodes@[this as int] is Ref)
                ==> final(g).nodes@ == old(g).nodes@,
    {
        if this < g.nodes.len() {
            let is_ref = match &g.nodes[this] {
                Node::Ref(_) => true,
                _ => false,
            };
            if is_ref {
                g.nodes.set(this, Node::Ref(RefReader { val: Some(val) }));
            }
        }
        this
    }
}

impl TaggerReader {
    /// `reader`, labelled `sym`.
    pub fn new(reader: usize, sym: Symbol) -> (r: Self)
        ensures
            r.reader == reader,
            r.sym == sym,
    {
        TaggerReader { reader, sym }
    }
}

/// Whether `id` is one of `tokens`.
pub open spec fn listed(tokens: Seq<TokenId>, id: int) -> bool {
    exists|j: int| 0 <= j < tokens.len() && tokens[j] == id
}

fn is_listed(tokens: &Vec<TokenId>, id: usize) -> (r: bool)
    ensures
        r == listed(tokens@, id as int),
{
    let mut j: usize = 0;
    while j < tokens.len()
        invariant
            j <= tokens.len(),
            forall|k: int| 0 <= k < j ==> tokens@[k] != id,
        decreases tokens.len() - j,
    {
        if tokens[j] == id {
            return true;
        }
        j = j + 1;
    }
    false
}

impl ConditionalTokenReader {
    /// Accepts the tokens whose identity, below `nb`, is one of `tokens`.
    pub fn inclusive(tokens: Vec<TokenId>, nb: usize, tag: Tag) -> (r: Self)
        ensures
            r.matching@.len() == nb,
            forall|i: int| 0 <= i < nb ==> r.matching@[i] == listed(tokens@, i),
            r.tag == tag,
    {
        let mut matching: Vec<bool> = Vec::new();
        let mut i: usize = 0;
        while i < nb
            invariant
                i <= nb,
                matching@.len() == i,
                forall|k: int| 0 <= k < i ==> matching@[k] == listed(tokens@, k),
            decreases nb - i,
        {
            let b = is_listed(&tokens, i);
            matching.push(b);
            i = i + 1;
        }
        ConditionalTokenReader { matching, tag }
    }

    /// Accepts the tokens whose identity, below `nb`, is none of `tokens`.
    pub fn exclude(tokens: Vec<TokenId>, nb: usize, tag: Tag) -> (r: Self)
        ensures
            r.matching@.len() == nb,
            forall|i: int| 0 <= i < nb ==> r.matching@[i] == !listed(tokens@, i),
            r.tag == tag,
    {
        let mut matching: Vec<bool> = Vec::new();
        let mut i: usize = 0;
        while i < nb
            invariant
                i <= nb,
                matching@.len() == i,
                forall|k: int| 0 <= k < i ==> matching@[k] == !listed(tokens@, k),
            decreases nb - i,
        {
            let b = is_listed(&tokens, i);
            matching.push(!b);
            i = i + 1;
        }
        ConditionalTokenReader { matching, tag }
    }
}


/// The largest rank of a node reachable, through the empty-input computation,
/// from position `c` of the sequence `elts`, plus one; zero if none.
pub open spec fn win_rank(g: Grammar, elts: Seq<usize>, c: int) -> nat
    decreases elts.len() - c,
{
    if c < 0 || c >= elts.len() {
        0
    } else {
        let e = elts[c];
        let here = g.rank@[e as int] as nat + 1;
        let rest = if g.nullable@[e as int] { win_rank(g, elts, c + 1) } else { 0 };
        if here >= rest { here } else { rest }
    }
}

/// Whether `node` accepts the empty input when the nodes accept it as `nl`
/// says.
pub open spec fn nullable_rule_of(nl: Seq<bool>, node: Node) -> bool {
    match node {
        Node::Token(_) | Node::Class(_) => false,
        Node::Epsilon(_) | Node::Optional(_) | Node::Loop(_) => true,
        Node::List(l) => forall|i: int| 0 <= i < l.elts@.len() ==> #[trigger] nl[l.elts@[i] as int],
        Node::Switch(sw) => exists|i: int| 0 <= i < sw.cases@.len() && #[trigger] nl[sw.cases@[i] as int],
        Node::Ref(r) => match r.val {
            Some(t) => nl[t as int],
            None => false,
        },
        Node::Tagger(t) => nl[t.reader as int],
        Node::Memo(m) => nl[m.reader as int],
    }
}

/// The children of `node` are among the first `len` nodes, a sequence has
/// at least one element, and `node` is no reference cell.
pub open spec fn children_ok(node: Node, len: int) -> bool {
    match node {
        Node::Token(_) | Node::Class(_) | Node::Epsilon(_) => true,
        Node::Optional(o) => o.reader < len,
        Node::List(l) => l.elts@.len() > 0 && forall|i: int| 0 <= i < l.elts@.len() ==> #[trigger] l.elts@[i] < len,
        Node::Loop(lp) => lp.ref_ < len,
        Node::Switch(sw) => forall|i: int| 0 <= i < sw.cases@.len() ==> #[trigger] sw.cases@[i] < len,
        Node::Ref(_) => false,
        Node::Tagger(t) => t.reader < len,
        Node::Memo(m) => m.reader < len,
    }
}

/// One more than the largest rank among `cases` from index `i` on; zero if
/// none.
pub open spec fn cases_rank(g: Grammar, cases: Seq<usize>, i: int) -> nat
    decreases cases.len() - i,
{
    if i < 0 || i >= cases.len() {
        0
    } else {
        let here = g.rank@[cases[i] as int] as nat + 1;
        let rest = cases_rank(g, cases, i + 1);
        if here >= rest { here } else { rest }
    }
}

/// The least rank that `node` may have among the nodes of `g`.
pub open spec fn rank_need(g: Grammar, node: Node) -> nat {
    match node {
        Node::Token(_) | Node::Class(_) | Node::Epsilon(_) | Node::Ref(_) => 0,
        Node::Optional(o) => g.rank@[o.reader as int] as nat + 1,
        Node::List(l) => win_rank(g, l.elts@, 0),
        Node::Loop(lp) => g.rank@[lp.ref_ as int] as nat + 1,
        Node::Switch(sw) => cases_rank(g, sw.cases@, 0),
        Node::Tagger(t) => g.rank@[t.reader as int] as nat + 1,
        Node::Memo(m) => g.rank@[m.reader as int] as nat + 1,
    }
}

proof fn lemma_cases_rank(g: Grammar, cases: Seq<usize>, i: int, j: int)
    requires
        0 <= i <= j < cases.len(),
    ensures
        cases_rank(g, cases, i) >= g.rank@[cases[j] as int] + 1,
    decreases j - i,
{
    if i < j {
        lemma_cases_rank(g, cases, i + 1, j);
    }
}

/// `win_rank` reads only the marks and ranks of the elements.
proof fn lemma_win_rank_frame(g1: Grammar, g2: Grammar, elts: Seq<usize>, c: int)
    requires
        forall|i: int|
            c <= i < elts.len() ==> #[trigger] g1.rank@[elts[i] as int] == g2.rank@[elts[i] as int]
                && g1.nullable@[elts[i] as int] == g2.nullable@[elts[i] as int],
    ensures
        win_rank(g1, elts, c) == win_rank(g2, elts, c),
    decreases elts.len() - c,
{
    if 0 <= c < elts.len() {
        lemma_win_rank_frame(g1, g2, elts, c + 1);
    }
}

proof fn lemma_cases_rank_frame(g1: Grammar, g2: Grammar, cases: Seq<usize>, i: int)
    requires
        forall|k: int| i <= k < cases.len() ==> #[trigger] g1.rank@[cases[k] as int] == g2.rank@[cases[k] as int],
    ensures
        cases_rank(g1, cases, i) == cases_rank(g2, cases, i),
    decreases cases.len() - i,
{
    if 0 <= i < cases.len() {
        lemma_cases_rank_frame(g1, g2, cases, i + 1);
    }
}

/// A node whose children lie among the first `len` nodes keeps its
/// well-formedness and its rule when the marks and ranks of those nodes stay.
proof fn lemma_node_frame(g1: Grammar, g2: Grammar, n: int, len: int)
    requires
        0 <= n < len,
        len <= g1.nodes@.len(),
        len <= g2.nodes@.len(),
        g1.nodes@[n] == g2.nodes@[n],
        g1.node_ok(n) || g1.nodes@[n] == Node::Ref(RefReader { val: None }),
        g1.node_ok(n) ==> children_bounded(g1.nodes@[n], len),
        forall|k: int| 0 <= k < len ==> #[trigger] g1.rank@[k] == g2.rank@[k],
        forall|k: int| 0 <= k < len ==> #[trigger] g1.nullable@[k] == g2.nullable@[k],
    ensures
        g1.node_ok(n) ==> g2.node_ok(n),
        g1.nullable_rule(n) == g2.nullable_rule(n),
{
    if let Node::List(l) = g1.nodes@[n] {
        if g1.node_ok(n) {
            lemma_win_rank_frame(g1, g2, l.elts@, 0);
        }
    }
    if let Node::Switch(sw) = g1.nodes@[n] {
        if g1.nullable_rule(n) {
            let i = choose|i: int| 0 <= i < sw.cases@.len() && #[trigger] g1.nullable@[sw.cases@[i] as int];
            assert(g2.nullable@[sw.cases@[i] as int]);
        }
        if g2.nullable_rule(n) {
            let i = choose|i: int| 0 <= i < sw.cases@.len() && #[trigger] g2.nullable@[sw.cases@[i] as int];
            assert(g1.nullable@[sw.cases@[i] as int]);
        }
    }
    if let Node::List(l) = g1.nodes@[n] {
        if g1.nullable_rule(n) {
            assert forall|i: int| 0 <= i < l.elts@.len() implies #[trigger] g2.nullable@[l.elts@[i] as int] by {
                assert(g1.nullable@[l.elts@[i] as int]);
            }
        }
        if g2.nullable_rule(n) {
            assert forall|i: int| 0 <= i < l.elts@.len() implies #[trigger] g1.nullable@[l.elts@[i] as int] by {
                assert(g2.nullable@[l.elts@[i] as int]);
            }
        }
    }
}

/// The rule of `node` reads only the marks of its children.
proof fn lemma_rule_frame(nl1: Seq<bool>, nl2: Seq<bool>, node: Node, len: int)
    requires
        children_bounded(node, len),
        forall|k: int| 0 <= k < len ==> #[trigger] nl1[k] == nl2[k],
    ensures
        nullable_rule_of(nl1, node) == nullable_rule_of(nl2, node),
{
    if let Node::Switch(sw) = node {
        if nullable_rule_of(nl1, node) {
            let i = choose|i: int| 0 <= i < sw.cases@.len() && #[trigger] nl1[sw.cases@[i] as int];
            assert(nl2[sw.cases@[i] as int]);
        }
        if nullable_rule_of(nl2, node) {
            let i = choose|i: int| 0 <= i < sw.cases@.len() && #[trigger] nl2[sw.cases@[i] as int];
            assert(nl1[sw.cases@[i] as int]);
        }
    }
    if let Node::List(l) = node {
        if nullable_rule_of(nl1, node) {
            assert forall|i: int| 0 <= i < l.elts@.len() implies #[trigger] nl2[l.elts@[i] as int] by {
                assert(nl1[l.elts@[i] as int]);
            }
        }
        if nullable_rule_of(nl2, node) {
            assert forall|i: int| 0 <= i < l.elts@.len() implies #[trigger] nl1[l.elts@[i] as int] by {
                assert(nl2[l.elts@[i] as int]);
            }
        }
    }
}

/// The children of `node`, a patched reference cell included, lie among the
/// first `len` nodes.
pub open spec fn children_bounded(node: Node, len: int) -> bool {
    match node {
        Node::Token(_) | Node::Class(_) | Node::Epsilon(_) => true,
        Node::Optional(o) => o.reader < len,
        Node::List(l) => forall|i: int| 0 <= i < l.elts@.len() ==> #[trigger] l.elts@[i] < len,
        Node::Loop(lp) => lp.ref_ < len,
        Node::Switch(sw) => forall|i: int| 0 <= i < sw.cases@.len() ==> #[trigger] sw.cases@[i] < len,
        Node::Ref(r) => match r.val {
            Some(t) => t < len,
            None => true,
        },
        Node::Tagger(t) => t.reader < len,
        Node::Memo(m) => m.reader < len,
    }
}

/// The shape a node needs: its children exist, a sequence is not empty, and
/// a reference cell is patched.
pub open spec fn shape_ok(node: Node, len: int) -> bool {
    &&& children_bounded(node, len)
    &&& match node {
        Node::List(l) => l.elts@.len() > 0,
        Node::Ref(r) => r.val is Some,
        _ => true,
    }
}

/// Node `m` is one that the empty-input result of `node` is computed from,
/// when the nodes accept the empty input as `nl` says.
pub open spec fn edge(node: Node, nl: Seq<bool>, m: int) -> bool {
    match node {
        Node::Optional(o) => m == o.reader,
        Node::Loop(lp) => m == lp.ref_,
        Node::Tagger(t) => m == t.reader,
        Node::Memo(x) => m == x.reader,
        Node::Ref(r) => match r.val {
            Some(t) => m == t,
            None => false,
        },
        Node::Switch(sw) => exists|i: int| 0 <= i < sw.cases@.len() && #[trigger] sw.cases@[i] == m,
        Node::List(l) => exists|j: int|
            0 <= j < l.elts@.len() && #[trigger] l.elts@[j] == m && forall|i: int|
                0 <= i < j ==> #[trigger] nl[l.elts@[i] as int],
        _ => false,
    }
}

proof fn lemma_win_rank_le(g: Grammar, elts: Seq<usize>, c: int, b: int)
    requires
        0 <= c,
        forall|j: int|
            c <= j < elts.len() && (forall|i: int| c <= i < j ==> #[trigger] g.nullable@[elts[i] as int])
                ==> #[trigger] g.rank@[elts[j] as int] + 1 <= b,
    ensures
        win_rank(g, elts, c) <= b || (c >= elts.len() && b < 0),
    decreases elts.len() - c,
{
    if c < elts.len() {
        assert(g.rank@[elts[c] as int] + 1 <= b);
        if g.nullable@[elts[c] as int] {
            assert forall|j: int|
                c + 1 <= j < elts.len() && (forall|i: int| c + 1 <= i < j ==> #[trigger] g.nullable@[elts[i] as int])
                implies #[trigger] g.rank@[elts[j] as int] + 1 <= b by {
                assert forall|i: int| c <= i < j implies #[trigger] g.nullable@[elts[i] as int] by {
                    if i > c {
                    }
                }
            }
            lemma_win_rank_le(g, elts, c + 1, b);
        }
    }
}

proof fn lemma_win_rank_ge(g: Grammar, elts: Seq<usize>, c: int, j: int)
    requires
        0 <= c <= j < elts.len(),
        forall|i: int| c <= i < j ==> #[trigger] g.nullable@[elts[i] as int],
    ensures
        win_rank(g, elts, c) >= g.rank@[elts[j] as int] + 1,
    decreases j - c,
{
    if c < j {
        assert(g.nullable@[elts[c] as int]);
        lemma_win_rank_ge(g, elts, c + 1, j);
    }
}

/// In a well-formed grammar, the nodes a node's empty-input result is
/// computed from, under marks below those of the grammar, rank lower.
proof fn lemma_edge_ranks(h: Grammar, nl: Seq<bool>, n: int, m: int)
    requires
        h.wf(),
        0 <= n < h.nodes@.len(),
        edge(h.nodes@[n], nl, m),
        forall|k: int| 0 <= k < h.nodes@.len() && #[trigger] nl[k] ==> h.nullable@[k],
    ensures
        0 <= m < h.nodes@.len(),
        h.rank@[m] < h.rank@[n],
{
    assert(h.node_ok(n));
    if let Node::List(l) = h.nodes@[n] {
        let j = choose|j: int|
            0 <= j < l.elts@.len() && #[trigger] l.elts@[j] == m && forall|i: int|
                0 <= i < j ==> #[trigger] nl[l.elts@[i] as int];
        assert forall|i: int| 0 <= i < j implies #[trigger] h.nullable@[l.elts@[i] as int] by {
            assert(nl[l.elts@[i] as int]);
            assert(l.elts@[i] < h.nodes@.len());
        }
        lemma_win_rank_ge(h, l.elts@, 0, j);
    }
    if let Node::Switch(sw) = h.nodes@[n] {
        let i = choose|i: int| 0 <= i < sw.cases@.len() && #[trigger] sw.cases@[i] == m;
        assert(sw.cases@[i] < h.nodes@.len());
    }
}

/// The rule of a node only gains from more marks.
proof fn lemma_rule_monotone(nl1: Seq<bool>, nl2: Seq<bool>, node: Node, len: int)
    requires
        children_bounded(node, len),
        forall|k: int| 0 <= k < len && #[trigger] nl1[k] ==> nl2[k],
        nullable_rule_of(nl1, node),
    ensures
        nullable_rule_of(nl2, node),
{
    if let Node::Switch(sw) = node {
        let i = choose|i: int| 0 <= i < sw.cases@.len() && #[trigger] nl1[sw.cases@[i] as int];
        assert(nl2[sw.cases@[i] as int]);
    }
    if let Node::List(l) = node {
        assert forall|i: int| 0 <= i < l.elts@.len() implies #[trigger] nl2[l.elts@[i] as int] by {
            assert(nl1[l.elts@[i] as int]);
        }
    }
}

/// When every node left undone has an edge to another node left undone,
/// no well-formed grammar has these nodes: a lower and lower rank would be
/// needed.
proof fn lemma_stuck_level(h: Grammar, nl: Seq<bool>, done: Seq<bool>, v: nat)
    requires
        h.wf(),
        done.len() == h.nodes@.len(),
        forall|k: int| 0 <= k < h.nodes@.len() && #[trigger] nl[k] ==> h.nullable@[k],
        forall|n: int|
            0 <= n < h.nodes@.len() && !#[trigger] done[n] ==> exists|m: int|
                #[trigger] edge(h.nodes@[n], nl, m) && 0 <= m < h.nodes@.len() && !done[m],
    ensures
        forall|n: int| 0 <= n < h.nodes@.len() && !#[trigger] done[n] ==> h.rank@[n] > v,
    decreases v,
{
    assert forall|n: int| 0 <= n < h.nodes@.len() && !#[trigger] done[n] implies h.rank@[n] > v by {
        let m = choose|m: int| #[trigger] edge(h.nodes@[n], nl, m) && 0 <= m < h.nodes@.len() && !done[m];
        lemma_edge_ranks(h, nl, n, m);
        if v > 0 {
            lemma_stuck_level(h, nl, done, (v - 1) as nat);
            assert(!done[m]);
        }
    }
}

/// The number of marks set in `s` among its first `k`.
pub open spec fn trues(s: Seq<bool>, k: int) -> nat
    decreases k,
{
    if k <= 0 {
        0
    } else {
        trues(s, k - 1) + if s[k - 1] { 1nat } else { 0nat }
    }
}

proof fn lemma_trues_set(s: Seq<bool>, n: int, k: int)
    requires
        0 <= n < s.len(),
        0 <= k <= s.len(),
        !s[n],
    ensures
        trues(s.update(n, true), k) == trues(s, k) + if n < k { 1nat } else { 0nat },
    decreases k,
{
    if k > 0 {
        lemma_trues_set(s, n, k - 1);
    }
}

proof fn lemma_trues_bound(s: Seq<bool>, k: int)
    requires
        0 <= k <= s.len(),
    ensures
        trues(s, k) <= k,
        trues(s, k) == k ==> forall|i: int| 0 <= i < k ==> #[trigger] s[i],
    decreases k,
{
    if k > 0 {
        lemma_trues_bound(s, k - 1);
    }
}

proof fn lemma_trues_zero(s: Seq<bool>, k: int)
    requires
        0 <= k <= s.len(),
        forall|i: int| 0 <= i < k ==> !#[trigger] s[i],
    ensures
        trues(s, k) == 0,
    decreases k,
{
    if k > 0 {
        lemma_trues_zero(s, k - 1);
    }
}

proof fn lemma_edge_bounded(node: Node, nl: Seq<bool>, m: int, len: int)
    requires
        children_bounded(node, len),
        edge(node, nl, m),
    ensures
        0 <= m < len,
{
    if let Node::Switch(sw) = node {
        let i = choose|i: int| 0 <= i < sw.cases@.len() && #[trigger] sw.cases@[i] == m;
        assert(sw.cases@[i] < len);
    }
    if let Node::List(l) = node {
        let j = choose|j: int|
            0 <= j < l.elts@.len() && #[trigger] l.elts@[j] == m && forall|i: int|
                0 <= i < j ==> #[trigger] nl[l.elts@[i] as int];
        assert(l.elts@[j] < len);
    }
}

proof fn lemma_ok_shape(g: Grammar, n: int)
    requires
        0 <= n < g.nodes@.len(),
        g.node_ok(n),
    ensures
        shape_ok(g.nodes@[n], g.nodes@.len() as int),
{
}

/// A node whose every edge leads to a lower rank is well formed.
proof fn lemma_edges_ok(g: Grammar, n: int)
    requires
        0 <= n < g.nodes@.len(),
        g.rank@.len() == g.nodes@.len(),
        g.nullable@.len() == g.nodes@.len(),
        shape_ok(g.nodes@[n], g.nodes@.len() as int),
        forall|m: int|
            #[trigger] edge(g.nodes@[n], g.nullable@, m) ==> 0 <= m < g.nodes@.len() && g.rank@[m] < g.rank@[n],
    ensures
        g.node_ok(n),
{
    if let Node::List(l) = g.nodes@[n] {
        assert forall|j: int|
            0 <= j < l.elts@.len() && (forall|i: int| 0 <= i < j ==> #[trigger] g.nullable@[l.elts@[i] as int])
            implies #[trigger] g.rank@[l.elts@[j] as int] + 1 <= g.rank@[n] by {
            assert(edge(g.nodes@[n], g.nullable@, l.elts@[j] as int));
        }
        lemma_win_rank_le(g, l.elts@, 0, g.rank@[n] as int);
    }
    if let Node::Switch(sw) = g.nodes@[n] {
        assert forall|i: int| 0 <= i < sw.cases@.len() implies #[trigger] sw.cases@[i] < g.nodes@.len()
            && g.rank@[sw.cases@[i] as int] < g.rank@[n] by {
            assert(edge(g.nodes@[n], g.nullable@, sw.cases@[i] as int));
        }
    }
    match g.nodes@[n] {
        Node::Optional(o) => assert(edge(g.nodes@[n], g.nullable@, o.reader as int)),
        Node::Loop(lp) => assert(edge(g.nodes@[n], g.nullable@, lp.ref_ as int)),
        Node::Tagger(t) => assert(edge(g.nodes@[n], g.nullable@, t.reader as int)),
        Node::Memo(x) => assert(edge(g.nodes@[n], g.nullable@, x.reader as int)),
        Node::Ref(r) => {
            if let Some(t) = r.val {
                assert(edge(g.nodes@[n], g.nullable@, t as int));
            }
        },
        _ => {},
    }
}

/// Every edge of node `n` leads to a node done in an earlier round.
pub open spec fn ready(g: Grammar, done: Seq<bool>, round: int, n: int) -> bool {
    forall|m: int|
        #[trigger] edge(g.nodes@[n], g.nullable@, m) ==> 0 <= m < g.nodes@.len() && done[m] && g.rank@[m] < round
}

impl Grammar {
    /// The node `n` exists, its children exist, and its rank exceeds the rank
    /// of every node that its empty-input result is computed from.
    pub open spec fn node_ok(self, n: int) -> bool {
        let len = self.nodes@.len();
        let rank = self.rank@;
        match self.nodes@[n] {
            Node::Token(_) | Node::Class(_) | Node::Epsilon(_) => true,
            Node::Optional(o) => o.reader < len && rank[o.reader as int] < rank[n],
            Node::List(l) => l.elts@.len() > 0 && (forall|i: int|
                0 <= i < l.elts@.len() ==> #[trigger] l.elts@[i] < len) && win_rank(self, l.elts@, 0)
                <= rank[n],
            Node::Loop(lp) => lp.ref_ < len && rank[lp.ref_ as int] < rank[n],
            Node::Switch(sw) => forall|i: int|
                0 <= i < sw.cases@.len() ==> #[trigger] sw.cases@[i] < len && rank[sw.cases@[i] as int]
                    < rank[n],
            Node::Ref(r) => match r.val {
                Some(t) => t < len && rank[t as int] < rank[n],
                None => false,
            },
            Node::Tagger(t) => t.reader < len && rank[t.reader as int] < rank[n],
            Node::Memo(m) => m.reader < len && rank[m.reader as int] < rank[n],
        }
    }

    /// Whether node `n` accepts the empty input when its children do as
    /// `nullable` says.
    pub open spec fn nullable_rule(self, n: int) -> bool {
        nullable_rule_of(self.nullable@, self.nodes@[n])
    }

    /// Every node is well formed, every reference cell is patched, and every
    /// node whose rule makes it accept the empty input is marked so.
    pub open spec fn wf(self) -> bool {
        &&& self.nullable@.len() == self.nodes@.len()
        &&& self.rank@.len() == self.nodes@.len()
        &&& forall|n: int| 0 <= n < self.nodes@.len() ==> #[trigger] self.node_ok(n)
        &&& forall|n: int| 0 <= n < self.nodes@.len() && #[trigger] self.nullable_rule(n) ==> self.nullable@[n]
    }

    /// An empty grammar.
    pub fn new() -> (g: Self)
        ensures
            g.nodes@.len() == 0,
            g.wf(),
            g.wf_pending(Set::empty()),
    {
        Grammar { nodes: Vec::new(), nullable: Vec::new(), rank: Vec::new() }
    }

    /// Adds `node`; the grammar must be frozen again before use.
    pub fn add(&mut self, node: Node) -> (id: usize)
        requires
            old(self).nodes@.len() < usize::MAX,
        ensures
            id == old(self).nodes@.len(),
            final(self).nodes@ == old(self).nodes@.push(node),
    {
        let id = self.nodes.len();
        self.nodes.push(node);
        id
    }

    /// Well formed, except that the reference cells in `pending` are not
    /// patched yet; ranks stay within the number of nodes.
    pub open spec fn wf_pending(self, pending: Set<int>) -> bool {
        &&& self.nullable@.len() == self.nodes@.len()
        &&& self.rank@.len() == self.nodes@.len()
        &&& forall|n: int| 0 <= n < self.nodes@.len() ==> #[trigger] self.node_ok(n) || pending.contains(n)
        &&& forall|n: int| 0 <= n < self.nodes@.len() && #[trigger] self.nullable_rule(n) ==> self.nullable@[n]
        &&& forall|k: int| 0 <= k < self.nodes@.len() ==> #[trigger] self.rank@[k] <= self.nodes@.len()
        &&& forall|n: int|
            #[trigger] pending.contains(n) ==> 0 <= n < self.nodes@.len() && self.nodes@[n] == Node::Ref(
                RefReader { val: None },
            ) && !self.nullable@[n]
    }

    proof fn lemma_ok_bounded(self, n: int)
        requires
            0 <= n < self.nodes@.len(),
            self.node_ok(n),
        ensures
            children_bounded(self.nodes@[n], self.nodes@.len() as int),
    {
    }

    /// With no cell pending, the grammar is well formed.
    pub proof fn lemma_wf_pending_empty(self)
        requires
            self.wf_pending(Set::empty()),
        ensures
            self.wf(),
    {
    }

    /// Decides the rule of `node` under the current marks.
    fn rule_exec(&self, node: &Node) -> (b: bool)
        requires
            self.nullable@.len() == self.nodes@.len(),
            children_bounded(*node, self.nodes@.len() as int),
        ensures
            b == nullable_rule_of(self.nullable@, *node),
    {
        let len = self.nodes.len();
        match node {
            Node::Token(_) | Node::Class(_) => false,
            Node::Epsilon(_) | Node::Optional(_) | Node::Loop(_) => true,
            Node::List(l) => {
                let mut i: usize = 0;
                while i < l.elts.len()
                    invariant
                        i <= l.elts@.len(),
                        *node == Node::List(*l),
                        self.nullable@.len() == len,
                        forall|k: int| 0 <= k < l.elts@.len() ==> #[trigger] l.elts@[k] < len,
                        forall|k: int| 0 <= k < i ==> #[trigger] self.nullable@[l.elts@[k] as int],
                    decreases l.elts.len() - i,
                {
                    if !self.nullable[l.elts[i]] {
                        proof {
                            assert(!self.nullable@[l.elts@[i as int] as int]);
                        }
                        return false;
                    }
                    i = i + 1;
                }
                true
            },
            Node::Switch(sw) => {
                let mut i: usize = 0;
                while i < sw.cases.len()
                    invariant
                        i <= sw.cases@.len(),
                        *node == Node::Switch(*sw),
                        self.nullable@.len() == len,
                        forall|k: int| 0 <= k < sw.cases@.len() ==> #[trigger] sw.cases@[k] < len,
                        forall|k: int| 0 <= k < i ==> !#[trigger] self.nullable@[sw.cases@[k] as int],
                    decreases sw.cases.len() - i,
                {
                    if self.nullable[sw.cases[i]] {
                        proof {
                            assert(self.nullable@[sw.cases@[i as int] as int]);
                        }
                        return true;
                    }
                    i = i + 1;
                }
                false
            },
            Node::Ref(r) => match r.val {
                Some(t) => self.nullable[t],
                None => false,
            },
            Node::Tagger(t) => self.nullable[t.reader],
            Node::Memo(m) => self.nullable[m.reader],
        }
    }

    /// Computes `rank_need` of `node`.
    fn need_exec(&self, node: &Node) -> (r: usize)
        requires
            self.nullable@.len() == self.nodes@.len(),
            self.rank@.len() == self.nodes@.len(),
            self.nodes@.len() < usize::MAX - 1,
            forall|k: int| 0 <= k < self.nodes@.len() ==> #[trigger] self.rank@[k] <= self.nodes@.len(),
            children_ok(*node, self.nodes@.len() as int),
        ensures
            r == rank_need(*self, *node),
            r <= self.nodes@.len() + 1,
    {
        let len = self.nodes.len();
        match node {
            Node::Token(_) | Node::Class(_) | Node::Epsilon(_) | Node::Ref(_) => 0,
            Node::Optional(o) => self.rank[o.reader] + 1,
            Node::Loop(lp) => self.rank[lp.ref_] + 1,
            Node::Tagger(t) => self.rank[t.reader] + 1,
            Node::Memo(m) => self.rank[m.reader] + 1,
            Node::List(l) => {
                let mut w: usize = 0;
                let mut c: usize = l.elts.len();
                while c > 0
                    invariant
                        c <= l.elts@.len(),
                        w == win_rank(*self, l.elts@, c as int),
                        w <= len + 1,
                        self.nullable@.len() == len,
                        self.rank@.len() == len,
                        len < usize::MAX - 1,
                        forall|i: int| 0 <= i < l.elts@.len() ==> #[trigger] l.elts@[i] < len,
                        forall|k: int| 0 <= k < len ==> #[trigger] self.rank@[k] <= len,
                    decreases c,
                {
                    c = c - 1;
                    let e = l.elts[c];
                    let r = self.rank[e];
                    let rest = if self.nullable[e] { w } else { 0 };
                    w = if r + 1 >= rest { r + 1 } else { rest };
                }
                w
            },
            Node::Switch(sw) => {
                let mut w: usize = 0;
                let mut c: usize = sw.cases.len();
                while c > 0
                    invariant
                        c <= sw.cases@.len(),
                        w == cases_rank(*self, sw.cases@, c as int),
                        w <= len + 1,
                        self.rank@.len() == len,
                        len < usize::MAX - 1,
                        forall|i: int| 0 <= i < sw.cases@.len() ==> #[trigger] sw.cases@[i] < len,
                        forall|k: int| 0 <= k < len ==> #[trigger] self.rank@[k] <= len,
                    decreases c,
                {
                    c = c - 1;
                    let r = self.rank[sw.cases[c]];
                    w = if r + 1 >= w { r + 1 } else { w };
                }
                w
            },
        }
    }

    /// Adds `node`, whose children must exist already, with the mark and
    /// rank it needs, keeping the grammar well formed but for `pending`.
    pub fn push_node(&mut self, node: Node, Ghost(pending): Ghost<Set<int>>) -> (id: usize)
        requires
            old(self).wf_pending(pending),
            old(self).nodes@.len() < usize::MAX - 1,
            children_ok(node, old(self).nodes@.len() as int),
        ensures
            id == old(self).nodes@.len(),
            final(self).nodes@ == old(self).nodes@.push(node),
            final(self).rank@ == old(self).rank@.push(rank_need(*old(self), node) as usize),
            final(self).nullable@ == old(self).nullable@.push(nullable_rule_of(old(self).nullable@, node)),
            final(self).wf_pending(pending),
    {
        let id = self.nodes.len();
        let b = self.rule_exec(&node);
        let r = self.need_exec(&node);
        let ghost g1 = *self;
        let ghost nd = node;
        self.nodes.push(node);
        self.nullable.push(b);
        self.rank.push(r);
        proof {
            let g2 = *self;
            let len = id as int;
            assert forall|n: int| 0 <= n < len implies #[trigger] g2.node_ok(n) || pending.contains(n) by {
                if g1.node_ok(n) {
                    g1.lemma_ok_bounded(n);
                }
                lemma_node_frame(g1, g2, n, len);
            }
            assert forall|n: int| 0 <= n < len && #[trigger] g2.nullable_rule(n) implies g2.nullable@[n] by {
                if g1.node_ok(n) {
                    g1.lemma_ok_bounded(n);
                }
                lemma_node_frame(g1, g2, n, len);
            }
            assert(g2.nodes@[len] == nd);
            if nd is List {
                lemma_win_rank_frame(g1, g2, nd->List_0.elts@, 0);
            }
            if nd is Switch {
                let cs = nd->Switch_0.cases@;
                assert forall|i: int| 0 <= i < cs.len() implies #[trigger] cs[i] < len + 1
                    && g2.rank@[cs[i] as int] < g2.rank@[len] by {
                    lemma_cases_rank(g1, cs, 0, i);
                }
            }
            assert(g2.node_ok(len));
            lemma_rule_frame(g1.nullable@, g2.nullable@, nd, len);
            assert(g2.nullable_rule(len) == g2.nullable@[len]);
        }
        id
    }

    /// Adds an unpatched reference cell with rank `rank`, to be patched with
    /// `set_pending`.
    pub fn push_ref(&mut self, rank: usize, Ghost(pending): Ghost<Set<int>>) -> (id: usize)
        requires
            old(self).wf_pending(pending),
            old(self).nodes@.len() < usize::MAX - 1,
            rank <= old(self).nodes@.len() + 1,
        ensures
            id == old(self).nodes@.len(),
            final(self).nodes@ == old(self).nodes@.push(Node::Ref(RefReader { val: None })),
            final(self).rank@ == old(self).rank@.push(rank),
            final(self).nullable@ == old(self).nullable@.push(false),
            final(self).wf_pending(pending.insert(id as int)),
    {
        let id = self.nodes.len();
        let ghost g1 = *self;
        self.nodes.push(Node::Ref(RefReader { val: None }));
        self.nullable.push(false);
        self.rank.push(rank);
        proof {
            let g2 = *self;
            let len = id as int;
            assert forall|n: int| 0 <= n < len + 1 implies #[trigger] g2.node_ok(n) || pending.insert(len).contains(n) by {
                if n < len {
                    if g1.node_ok(n) {
                        g1.lemma_ok_bounded(n);
                    }
                    lemma_node_frame(g1, g2, n, len);
                }
            }
            assert forall|n: int| 0 <= n < len + 1 && #[trigger] g2.nullable_rule(n) implies g2.nullable@[n] by {
                if n < len {
                    if g1.node_ok(n) {
                        g1.lemma_ok_bounded(n);
                    }
                    lemma_node_frame(g1, g2, n, len);
                }
            }
        }
        id
    }

    /// Patches the pending cell `r` to stand for `target`, which must not
    /// accept the empty input and must rank below `r`.
    pub fn set_pending(&mut self, r: usize, target: usize, Ghost(pending): Ghost<Set<int>>)
        requires
            old(self).wf_pending(pending),
            pending.contains(r as int),
            target < old(self).nodes@.len(),
            old(self).rank@[target as int] < old(self).rank@[r as int],
            !old(self).nullable@[target as int],
        ensures
            final(self).nodes@ == old(self).nodes@.update(r as int, Node::Ref(RefReader { val: Some(target) })),
            final(self).rank@ == old(self).rank@,
            final(self).nullable@ == old(self).nullable@,
            final(self).wf_pending(pending.remove(r as int)),
    {
        let ghost g1 = *self;
        self.nodes.set(r, Node::Ref(RefReader { val: Some(target) }));
        proof {
            let g2 = *self;
            let len = g1.nodes@.len() as int;
            assert forall|n: int| 0 <= n < len implies #[trigger] g2.node_ok(n) || pending.remove(r as int).contains(n) by {
                if n != r {
                    if g1.node_ok(n) {
                        g1.lemma_ok_bounded(n);
                    }
                    lemma_node_frame(g1, g2, n, len);
                }
            }
            assert forall|n: int| 0 <= n < len && #[trigger] g2.nullable_rule(n) implies g2.nullable@[n] by {
                if n != r {
                    if g1.node_ok(n) {
                        g1.lemma_ok_bounded(n);
                    }
                    lemma_node_frame(g1, g2, n, len);
                }
            }
        }
    }

    /// Computes `win_rank` for the sequence `elts` from position 0.
    fn win_rank_exec(&self, elts: &Vec<usize>) -> (r: usize)
        requires
            self.nullable@.len() == self.nodes@.len(),
            self.rank@.len() == self.nodes@.len(),
            forall|i: int| 0 <= i < elts@.len() ==> #[trigger] elts@[i] < self.nodes@.len(),
            forall|k: int| 0 <= k < self.rank@.len() ==> #[trigger] self.rank@[k] < usize::MAX,
        ensures
            r == win_rank(*self, elts@, 0),
    {
        let mut w: usize = 0;
        let mut c: usize = elts.len();
        while c > 0
            invariant
                c <= elts@.len(),
                w == win_rank(*self, elts@, c as int),
                self.nullable@.len() == self.nodes@.len(),
                self.rank@.len() == self.nodes@.len(),
                forall|i: int| 0 <= i < elts@.len() ==> #[trigger] elts@[i] < self.nodes@.len(),
                forall|k: int| 0 <= k < self.rank@.len() ==> #[trigger] self.rank@[k] < usize::MAX,
            decreases c,
        {
            c = c - 1;
            let e = elts[c];
            let r = self.rank[e];
            let rest = if self.nullable[e] { w } else { 0 };
            w = if r + 1 >= rest { r + 1 } else { rest };
        }
        w
    }

    /// Decides `node_ok` for node `n`.
    fn check_node(&self, n: usize) -> (r: bool)
        requires
            n < self.nodes@.len(),
            self.nullable@.len() == self.nodes@.len(),
            self.rank@.len() == self.nodes@.len(),
            forall|k: int| 0 <= k < self.rank@.len() ==> #[trigger] self.rank@[k] < usize::MAX,
        ensures
            r == self.node_ok(n as int),
    {
        let len = self.nodes.len();
        let rn = self.rank[n];
        match &self.nodes[n] {
            Node::Token(_) | Node::Class(_) | Node::Epsilon(_) => true,
            Node::Optional(o) => o.reader < len && self.rank[o.reader] < rn,
            Node::List(l) => {
                if l.elts.len() == 0 {
                    return false;
                }
                let mut i: usize = 0;
                while i < l.elts.len()
                    invariant
                        i <= l.elts@.len(),
                        n < len,
                        len == self.nodes@.len(),
                        self.nodes@[n as int] == Node::List(*l),
                        forall|k: int| 0 <= k < i ==> #[trigger] l.elts@[k] < len,
                    decreases l.elts.len() - i,
                {
                    if l.elts[i] >= len {
                        proof {
                            assert(!(l.elts@[i as int] < len));
                        }
                        return false;
                    }
                    i = i + 1;
                }
                self.win_rank_exec(&l.elts) <= rn
            },
            Node::Loop(lp) => lp.ref_ < len && self.rank[lp.ref_] < rn,
            Node::Switch(sw) => {
                let mut i: usize = 0;
                while i < sw.cases.len()
                    invariant
                        i <= sw.cases@.len(),
                        self.rank@.len() == len,
                        len == self.nodes@.len(),
                        n < len,
                        self.nodes@[n as int] == Node::Switch(*sw),
                        rn == self.rank@[n as int],
                        forall|k: int|
                            0 <= k < i ==> #[trigger] sw.cases@[k] < len && self.rank@[sw.cases@[k] as int]
                                < rn,
                    decreases sw.cases.len() - i,
                {
                    let e = sw.cases[i];
                    if e >= len || self.rank[e] >= rn {
                        proof {
                            assert(!(sw.cases@[i as int] < len && self.rank@[sw.cases@[i as int] as int] < rn));
                        }
                        return false;
                    }
                    i = i + 1;
                }
                true
            },
            Node::Ref(r) => match r.val {
                Some(t) => t < len && self.rank[t] < rn,
                None => false,
            },
            Node::Tagger(t) => t.reader < len && self.rank[t.reader] < rn,
            Node::Memo(m) => m.reader < len && self.rank[m.reader] < rn,
        }
    }

    /// Decides whether the mark of node `n` agrees with its rule, where the
    /// rule holds.
    fn check_nullable(&self, n: usize) -> (r: bool)
        requires
            n < self.nodes@.len(),
            self.nullable@.len() == self.nodes@.len(),
            self.node_ok(n as int),
        ensures
            r == (self.nullable_rule(n as int) ==> self.nullable@[n as int]),
    {
        if self.nullable[n] {
            return true;
        }
        let len = self.nodes.len();
        match &self.nodes[n] {
            Node::Token(_) | Node::Class(_) => true,
            Node::Epsilon(_) | Node::Optional(_) | Node::Loop(_) => false,
            Node::List(l) => {
                let mut i: usize = 0;
                while i < l.elts.len()
                    invariant
                        i <= l.elts@.len(),
                        n < len,
                        len == self.nodes@.len(),
                        self.nullable@.len() == len,
                        !self.nullable@[n as int],
                        self.nodes@[n as int] == Node::List(*l),
                        forall|k: int| 0 <= k < l.elts@.len() ==> #[trigger] l.elts@[k] < len,
                        forall|k: int| 0 <= k < i ==> #[trigger] self.nullable@[l.elts@[k] as int],
                    decreases l.elts.len() - i,
                {
                    if !self.nullable[l.elts[i]] {
                        proof {
                            assert(!self.nullable@[l.elts@[i as int] as int]);
                            assert(!self.nullable_rule(n as int));
                        }
                        return true;
                    }
                    i = i + 1;
                }
                false
            },
            Node::Switch(sw) => {
                let mut i: usize = 0;
                while i < sw.cases.len()
                    invariant
                        i <= sw.cases@.len(),
                        n < len,
                        len == self.nodes@.len(),
                        self.nullable@.len() == len,
                        !self.nullable@[n as int],
                        self.nodes@[n as int] == Node::Switch(*sw),
                        forall|k: int| 0 <= k < sw.cases@.len() ==> #[trigger] sw.cases@[k] < len,
                        forall|k: int| 0 <= k < i ==> !#[trigger] self.nullable@[sw.cases@[k] as int],
                    decreases sw.cases.len() - i,
                {
                    if self.nullable[sw.cases[i]] {
                        proof {
                            assert(self.nullable@[sw.cases@[i as int] as int]);
                        }
                        return false;
                    }
                    i = i + 1;
                }
                true
            },
            Node::Ref(r) => match r.val {
                Some(t) => !self.nullable[t],
                None => true,
            },
            Node::Tagger(t) => !self.nullable[t.reader],
            Node::Memo(m) => !self.nullable[m.reader],
        }
    }

    /// Decides whether the grammar is well formed with its current marks and
    /// ranks, none of which may be the largest `usize`.
    fn check_all(&self) -> (r: bool)
        ensures
            r == (self.wf() && forall|k: int| 0 <= k < self.rank@.len() ==> self.rank@[k] < usize::MAX),
    {
        let len = self.nodes.len();
        if self.nullable.len() != len || self.rank.len() != len {
            return false;
        }
        let mut k: usize = 0;
        while k < len
            invariant
                k <= len,
                self.rank@.len() == len,
                forall|j: int| 0 <= j < k ==> #[trigger] self.rank@[j] < usize::MAX,
            decreases len - k,
        {
            if self.rank[k] == usize::MAX {
                return false;
            }
            k = k + 1;
        }
        let mut n: usize = 0;
        while n < len
            invariant
                n <= len,
                len == self.nodes@.len(),
                self.nullable@.len() == len,
                self.rank@.len() == len,
                forall|j: int| 0 <= j < self.rank@.len() ==> #[trigger] self.rank@[j] < usize::MAX,
                forall|j: int| 0 <= j < n ==> #[trigger] self.node_ok(j),
                forall|j: int| 0 <= j < n && #[trigger] self.nullable_rule(j) ==> self.nullable@[j],
            decreases len - n,
        {
            if !self.check_node(n) || !self.check_nullable(n) {
                proof {
                    assert(!(self.node_ok(n as int) && (self.nullable_rule(n as int) ==> self.nullable@[n as int])));
                }
                return false;
            }
            n = n + 1;
        }
        true
    }

    /// Decides `shape_ok` for node `n`.
    fn shape_exec(&self, n: usize) -> (r: bool)
        requires
            n < self.nodes@.len(),
        ensures
            r == shape_ok(self.nodes@[n as int], self.nodes@.len() as int),
    {
        let len = self.nodes.len();
        match &self.nodes[n] {
            Node::Token(_) | Node::Class(_) | Node::Epsilon(_) => true,
            Node::Optional(o) => o.reader < len,
            Node::Loop(lp) => lp.ref_ < len,
            Node::Tagger(t) => t.reader < len,
            Node::Memo(m) => m.reader < len,
            Node::Ref(r) => match r.val {
                Some(t) => t < len,
                None => false,
            },
            Node::List(l) => {
                if l.elts.len() == 0 {
                    return false;
                }
                let mut i: usize = 0;
                while i < l.elts.len()
                    invariant
                        i <= l.elts@.len(),
                        len == self.nodes@.len(),
                        n < len,
                        self.nodes@[n as int] == Node::List(*l),
                        forall|k: int| 0 <= k < i ==> #[trigger] l.elts@[k] < len,
                    decreases l.elts.len() - i,
                {
                    if l.elts[i] >= len {
                        proof {
                            assert(!(l.elts@[i as int] < len));
                        }
                        return false;
                    }
                    i = i + 1;
                }
                true
            },
            Node::Switch(sw) => {
                let mut i: usize = 0;
                while i < sw.cases.len()
                    invariant
                        i <= sw.cases@.len(),
                        len == self.nodes@.len(),
                        n < len,
                        self.nodes@[n as int] == Node::Switch(*sw),
                        forall|k: int| 0 <= k < i ==> #[trigger] sw.cases@[k] < len,
                    decreases sw.cases.len() - i,
                {
                    if sw.cases[i] >= len {
                        proof {
                            assert(!(sw.cases@[i as int] < len));
                        }
                        return false;
                    }
                    i = i + 1;
                }
                true
            },
        }
    }

    /// Decides `ready` for node `n`.
    fn ready_exec(&self, n: usize, done: &Vec<bool>, round: usize) -> (r: bool)
        requires
            n < self.nodes@.len(),
            self.nullable@.len() == self.nodes@.len(),
            self.rank@.len() == self.nodes@.len(),
            done@.len() == self.nodes@.len(),
            shape_ok(self.nodes@[n as int], self.nodes@.len() as int),
        ensures
            r == ready(*self, done@, round as int, n as int),
    {
        let len = self.nodes.len();
        let child: usize = match &self.nodes[n] {
            Node::Optional(o) => o.reader,
            Node::Loop(lp) => lp.ref_,
            Node::Tagger(t) => t.reader,
            Node::Memo(m) => m.reader,
            Node::Ref(r) => match r.val {
                Some(t) => t,
                None => len,
            },
            Node::Token(_) | Node::Class(_) | Node::Epsilon(_) => {
                return true;
            },
            Node::List(l) => {
                let mut j: usize = 0;
                while j < l.elts.len()
                    invariant
                        j <= l.elts@.len(),
                        len == self.nodes@.len(),
                        n < len,
                        self.nodes@[n as int] == Node::List(*l),
                        self.nullable@.len() == len,
                        self.rank@.len() == len,
                        done@.len() == len,
                        forall|k: int| 0 <= k < l.elts@.len() ==> #[trigger] l.elts@[k] < len,
                        forall|k: int|
                            0 <= k < j ==> #[trigger] done@[l.elts@[k] as int] && self.rank@[l.elts@[k] as int]
                                < round && self.nullable@[l.elts@[k] as int],
                    decreases l.elts.len() - j,
                {
                    let e = l.elts[j];
                    if !(done[e] && self.rank[e] < round) {
                        proof {
                            assert forall|i: int| 0 <= i < j implies #[trigger] self.nullable@[l.elts@[i] as int] by {
                                assert(done@[l.elts@[i] as int]);
                            }
                            assert(edge(self.nodes@[n as int], self.nullable@, e as int));
                        }
                        return false;
                    }
                    if !self.nullable[e] {
                        proof {
                            assert forall|m: int| #[trigger] edge(self.nodes@[n as int], self.nullable@, m) implies 0 <= m
                                < len && done@[m] && self.rank@[m] < round by {
                                let jj = choose|jj: int|
                                    0 <= jj < l.elts@.len() && #[trigger] l.elts@[jj] == m && forall|i: int|
                                        0 <= i < jj ==> #[trigger] self.nullable@[l.elts@[i] as int];
                                if jj > j {
                                    assert(self.nullable@[l.elts@[j as int] as int]);
                                }
                                if jj < j {
                                    assert(done@[l.elts@[jj] as int]);
                                }
                            }
                        }
                        return true;
                    }
                    j = j + 1;
                }
                proof {
                    assert forall|m: int| #[trigger] edge(self.nodes@[n as int], self.nullable@, m) implies 0 <= m
                        < len && done@[m] && self.rank@[m] < round by {
                        let jj = choose|jj: int|
                            0 <= jj < l.elts@.len() && #[trigger] l.elts@[jj] == m && forall|i: int|
                                0 <= i < jj ==> #[trigger] self.nullable@[l.elts@[i] as int];
                        assert(done@[l.elts@[jj] as int]);
                    }
                }
                return true;
            },
            Node::Switch(sw) => {
                let mut i: usize = 0;
                while i < sw.cases.len()
                    invariant
                        i <= sw.cases@.len(),
                        len == self.nodes@.len(),
                        n < len,
                        self.nodes@[n as int] == Node::Switch(*sw),
                        self.rank@.len() == len,
                        done@.len() == len,
                        forall|k: int| 0 <= k < sw.cases@.len() ==> #[trigger] sw.cases@[k] < len,
                        forall|k: int| 0 <= k < i ==> done@[#[trigger] sw.cases@[k] as int],
                        forall|k: int| 0 <= k < i ==> self.rank@[#[trigger] sw.cases@[k] as int] < round,
                    decreases sw.cases.len() - i,
                {
                    let c = sw.cases[i];
                    if !(done[c] && self.rank[c] < round) {
                        proof {
                            assert(edge(self.nodes@[n as int], self.nullable@, c as int));
                        }
                        return false;
                    }
                    proof {
                        assert(done@[sw.cases@[i as int] as int] && self.rank@[sw.cases@[i as int] as int] < round);
                    }
                    i = i + 1;
                }
                proof {
                    assert forall|m: int| #[trigger] edge(self.nodes@[n as int], self.nullable@, m) implies 0 <= m
                        < len && done@[m] && self.rank@[m] < round by {
                        let k = choose|k: int| 0 <= k < sw.cases@.len() && #[trigger] sw.cases@[k] == m;
                        assert(done@[sw.cases@[k] as int]);
                    }
                }
                return true;
            },
        };
        let r = child < len && done[child] && self.rank[child] < round;
        proof {
            if !r {
                assert(edge(self.nodes@[n as int], self.nullable@, child as int));
            }
        }
        r
    }

    /// Marks the nodes that accept the empty input (the least such marking)
    /// and ranks the nodes round by round, each after the nodes its
    /// empty-input result is computed from; returns whether the grammar is
    /// then well formed. It succeeds whenever some marking and ranking make
    /// the grammar well formed, and keeps a grammar that already is. It fails
    /// when a reference cell is unpatched, a child is missing, a sequence is
    /// empty, or a node can reach itself without consuming a token.
    #[verifier::rlimit(100)]
    #[verifier::spinoff_prover]
    pub fn freeze(&mut self) -> (ok: bool)
        ensures
            final(self).nodes@ == old(self).nodes@,
            ok == final(self).wf(),
            old(self).wf() && (forall|k: int| 0 <= k < old(self).rank@.len() ==> old(self).rank@[k] < usize::MAX)
                ==> ok,
            (exists|h: Grammar| h.nodes@ == old(self).nodes@ && h.wf()) ==> ok,
    {
        if self.check_all() {
            return true;
        }
        let len = self.nodes.len();
        let ghost stale = !(old(self).wf() && forall|k: int|
            0 <= k < old(self).rank@.len() ==> old(self).rank@[k] < usize::MAX);
        let mut n: usize = 0;
        while n < len
            invariant
                self.nodes@ == old(self).nodes@,
                len == self.nodes@.len(),
                stale,
                forall|k: int| 0 <= k < n ==> shape_ok(#[trigger] self.nodes@[k], len as int),
            decreases len - n,
        {
            if !self.shape_exec(n) {
                proof {
                    assert forall|h: Grammar| h.nodes@ == old(self).nodes@ implies !h.wf() by {
                        if h.wf() {
                            assert(h.node_ok(n as int));
                            lemma_ok_shape(h, n as int);
                        }
                    }
                    if self.wf() {
                        assert(self.node_ok(n as int));
                        lemma_ok_shape(*self, n as int);
                    }
                }
                return false;
            }
            n = n + 1;
        }
        let mut nl: Vec<bool> = Vec::new();
        let mut rk: Vec<usize> = Vec::new();
        let mut done: Vec<bool> = Vec::new();
        let mut i: usize = 0;
        while i < len
            invariant
                i <= len,
                nl@.len() == i,
                rk@.len() == i,
                done@.len() == i,
                forall|k: int| 0 <= k < i ==> !#[trigger] nl@[k],
                forall|k: int| 0 <= k < i ==> #[trigger] rk@[k] == 0,
                forall|k: int| 0 <= k < i ==> !#[trigger] done@[k],
            decreases len - i,
        {
            nl.push(false);
            rk.push(0);
            done.push(false);
            i = i + 1;
        }
        self.nullable = nl;
        self.rank = rk;
        proof {
            lemma_trues_bound(self.nullable@, len as int);
        }
        loop
            invariant
                self.nodes@ == old(self).nodes@,
                len == self.nodes@.len(),
                self.nullable@.len() == len,
                self.rank@.len() == len,
                done@.len() == len,
                stale,
                forall|k: int| 0 <= k < len ==> shape_ok(#[trigger] self.nodes@[k], len as int),
                forall|k: int| 0 <= k < len ==> #[trigger] self.rank@[k] == 0,
                forall|k: int| 0 <= k < len ==> !#[trigger] done@[k],
                trues(self.nullable@, len as int) <= len,
                forall|h: Grammar|
                    h.nodes@ == old(self).nodes@ && #[trigger] h.wf() ==> forall|k: int|
                        0 <= k < len && #[trigger] self.nullable@[k] ==> h.nullable@[k],
            ensures
                forall|k: int| 0 <= k < len && #[trigger] self.nullable_rule(k) ==> self.nullable@[k],
            decreases len - trues(self.nullable@, len as int),
        {
            let mut changed = false;
            let ghost start = self.nullable@;
            let mut n: usize = 0;
            while n < len
                invariant
                    self.nodes@ == old(self).nodes@,
                    len == self.nodes@.len(),
                    self.nullable@.len() == len,
                    self.rank@.len() == len,
                    done@.len() == len,
                    stale,
                    n <= len,
                    start.len() == len,
                    forall|k: int| 0 <= k < len ==> shape_ok(#[trigger] self.nodes@[k], len as int),
                    forall|k: int| 0 <= k < len ==> #[trigger] self.rank@[k] == 0,
                    forall|k: int| 0 <= k < len ==> !#[trigger] done@[k],
                    trues(self.nullable@, len as int) <= len,
                    trues(self.nullable@, len as int) >= trues(start, len as int),
                    changed ==> trues(self.nullable@, len as int) > trues(start, len as int),
                    !changed ==> self.nullable@ == start,
                    !changed ==> forall|k: int| 0 <= k < n && #[trigger] self.nullable_rule(k) ==> self.nullable@[k],
                    forall|h: Grammar|
                        h.nodes@ == old(self).nodes@ && #[trigger] h.wf() ==> forall|k: int|
                            0 <= k < len && #[trigger] self.nullable@[k] ==> h.nullable@[k],
                decreases len - n,
            {
                if !self.nullable[n] && self.rule_exec(&self.nodes[n]) {
                    proof {
                        lemma_trues_set(self.nullable@, n as int, len as int);
                        lemma_trues_bound(self.nullable@.update(n as int, true), len as int);
                        assert forall|h: Grammar| h.nodes@ == old(self).nodes@ && #[trigger] h.wf() implies h.nullable@[n as int] by {
                            lemma_rule_monotone(self.nullable@, h.nullable@, self.nodes@[n as int], len as int);
                            assert(h.nullable_rule(n as int));
                        }
                    }
                    self.nullable.set(n, true);
                    changed = true;
                }
                n = n + 1;
            }
            if !changed {
                break;
            }
        }
        let mut round: usize = 0;
        proof {
            assert forall|k: int| 0 <= k < len && nullable_rule_of(self.nullable@, #[trigger] self.nodes@[k])
                implies self.nullable@[k] by {
                assert(self.nullable_rule(k));
            }
            lemma_trues_bound(done@, len as int);
            assert(trues(done@, len as int) == 0) by {
                lemma_trues_zero(done@, len as int);
            }
        }
        loop
            invariant
                self.nodes@ == old(self).nodes@,
                len == self.nodes@.len(),
                self.nullable@.len() == len,
                self.rank@.len() == len,
                done@.len() == len,
                stale,
                forall|k: int| 0 <= k < len ==> shape_ok(#[trigger] self.nodes@[k], len as int),
                forall|k: int| 0 <= k < len && nullable_rule_of(self.nullable@, #[trigger] self.nodes@[k]) ==> self.nullable@[k],
                forall|h: Grammar|
                    h.nodes@ == old(self).nodes@ && #[trigger] h.wf() ==> forall|k: int|
                        0 <= k < len && #[trigger] self.nullable@[k] ==> h.nullable@[k],
                round <= trues(done@, len as int),
                trues(done@, len as int) <= len,
                forall|k: int| 0 <= k < len && #[trigger] done@[k] ==> self.rank@[k] < round,
                forall|k: int| 0 <= k < len ==> #[trigger] self.rank@[k] <= round,
                forall|k: int|
                    0 <= k < len && #[trigger] done@[k] ==> forall|m: int|
                        #[trigger] edge(self.nodes@[k], self.nullable@, m) ==> 0 <= m < len && done@[m]
                            && self.rank@[m] < self.rank@[k],
            ensures
                forall|k: int| 0 <= k < len ==> #[trigger] done@[k],
                self.nodes@ == old(self).nodes@,
                self.nullable@.len() == len,
                self.rank@.len() == len,
                round <= len,
                forall|k: int| 0 <= k < len ==> shape_ok(#[trigger] self.nodes@[k], len as int),
                forall|k: int| 0 <= k < len && nullable_rule_of(self.nullable@, #[trigger] self.nodes@[k]) ==> self.nullable@[k],
                forall|k: int| 0 <= k < len && #[trigger] done@[k] ==> self.rank@[k] < round,
                forall|k: int|
                    0 <= k < len && #[trigger] done@[k] ==> forall|m: int|
                        #[trigger] edge(self.nodes@[k], self.nullable@, m) ==> 0 <= m < len && done@[m]
                            && self.rank@[m] < self.rank@[k],
            decreases len - trues(done@, len as int),
        {
            let mut changed = false;
            let ghost start = done@;
            let mut n: usize = 0;
            while n < len
                invariant
                    self.nodes@ == old(self).nodes@,
                    len == self.nodes@.len(),
                    self.nullable@.len() == len,
                    self.rank@.len() == len,
                    done@.len() == len,
                    start.len() == len,
                    stale,
                    n <= len,
                    forall|k: int| 0 <= k < len ==> shape_ok(#[trigger] self.nodes@[k], len as int),
                    forall|k: int| 0 <= k < len && nullable_rule_of(self.nullable@, #[trigger] self.nodes@[k]) ==> self.nullable@[k],
                    forall|h: Grammar|
                        h.nodes@ == old(self).nodes@ && #[trigger] h.wf() ==> forall|k: int|
                            0 <= k < len && #[trigger] self.nullable@[k] ==> h.nullable@[k],
                    round <= trues(start, len as int),
                    trues(done@, len as int) <= len,
                    trues(done@, len as int) >= trues(start, len as int),
                    changed ==> trues(done@, len as int) > trues(start, len as int),
                    !changed ==> done@ == start,
                    !changed ==> forall|k: int|
                        0 <= k < n && !#[trigger] done@[k] ==> !ready(*self, done@, round as int, k),
                    forall|k: int| 0 <= k < len && #[trigger] start[k] ==> done@[k] && self.rank@[k] < round,
                    forall|k: int| 0 <= k < len ==> #[trigger] self.rank@[k] <= round,
                    forall|k: int|
                        0 <= k < len && #[trigger] done@[k] ==> forall|m: int|
                            #[trigger] edge(self.nodes@[k], self.nullable@, m) ==> 0 <= m < len && done@[m]
                                && self.rank@[m] < self.rank@[k],
                    forall|k: int| 0 <= k < len && #[trigger] done@[k] && !start[k] ==> self.rank@[k] == round,
                decreases len - n,
            {
                if !done[n] && self.ready_exec(n, &done, round) {
                    proof {
                        lemma_trues_set(done@, n as int, len as int);
                        lemma_trues_bound(done@.update(n as int, true), len as int);
                    }
                    done.set(n, true);
                    self.rank.set(n, round);
                    changed = true;
                }
                n = n + 1;
            }
            if !changed {
                proof {
                    if exists|j: int| 0 <= j < len && !#[trigger] done@[j] {
                        assert forall|j: int| 0 <= j < len && !#[trigger] done@[j] implies exists|m: int|
                            #[trigger] edge(self.nodes@[j], self.nullable@, m) && 0 <= m < len && !done@[m] by {
                            assert(!ready(*self, done@, round as int, j));
                            let m = choose|m: int|
                                #[trigger] edge(self.nodes@[j], self.nullable@, m) && !(0 <= m < len && done@[m]
                                    && self.rank@[m] < round);
                            lemma_edge_bounded(self.nodes@[j], self.nullable@, m, len as int);
                        }
                        let j = choose|j: int| 0 <= j < len && !#[trigger] done@[j];
                        assert forall|h: Grammar| h.nodes@ == old(self).nodes@ implies !h.wf() by {
                            if h.wf() {
                                lemma_stuck_level(h, self.nullable@, done@, h.rank@[j] as nat);
                            }
                        }
                        if self.wf() {
                            lemma_stuck_level(*self, self.nullable@, done@, self.rank@[j] as nat);
                        }
                    }
                }
                let ghost stuck = exists|j: int| 0 <= j < len && !#[trigger] done@[j];
                let mut k: usize = 0;
                while k < len
                    invariant
                        k <= len,
                        done@.len() == len,
                        len == self.nodes@.len(),
                        self.nodes@ == old(self).nodes@,
                        forall|j: int| 0 <= j < k ==> #[trigger] done@[j],
                        stuck == exists|j: int| 0 <= j < len && !#[trigger] done@[j],
                        stuck ==> !self.wf(),
                        stuck ==> forall|h: Grammar| h.nodes@ == old(self).nodes@ ==> !#[trigger] h.wf(),
                    decreases len - k,
                {
                    if !done[k] {
                        return false;
                    }
                    k = k + 1;
                }
                break;
            }
            round = round + 1;
        }
        proof {
            assert forall|n: int| 0 <= n < len implies #[trigger] self.node_ok(n) by {
                assert(done@[n]);
                lemma_edges_ok(*self, n);
            }
            assert forall|k: int| 0 <= k < len && #[trigger] self.nullable_rule(k) implies self.nullable@[k] by {
                assert(nullable_rule_of(self.nullable@, self.nodes@[k]));
            }
            assert forall|k: int| 0 <= k < self.rank@.len() implies self.rank@[k] < usize::MAX by {
                assert(done@[k]);
            }
        }
        true
    }
}

} // verus!
