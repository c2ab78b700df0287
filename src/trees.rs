use crate::grammar::{Grammar, Node, Tag};
use crate::list::List;
use crate::traces::{
    StackedReader, Trace, TraceEnding, TraceList, marker_size, stacked_size, token_endings, trace_size,
};
use std::rc::Rc;
use vstd::prelude::*;

verus! {

/// A reconstructed parse tree over input elements of type `T`.
#[derive(Debug, PartialEq, Eq)]
pub enum Tree<T> {
    Nil,
    Leaf(T, Tag),
    Node(Vec<Tree<T>>, Tag),
}

/// The mathematical form of a tree.
pub enum TreeV<T> {
    Nil,
    Leaf(T, Tag),
    Node(Seq<TreeV<T>>, Tag),
}

/// The mathematical form of `t`.
pub open spec fn tree_view<T>(t: Tree<T>) -> TreeV<T>
    decreases t,
{
    match t {
        Tree::Nil => TreeV::Nil,
        Tree::Leaf(x, tag) => TreeV::Leaf(x, tag),
        Tree::Node(v, tag) => TreeV::Node(
            Seq::new(v@.len(), |i: int| if 0 <= i < v@.len() { tree_view(v@[i]) } else { TreeV::Nil }),
            tag,
        ),
    }
}

/// The mathematical forms of the trees `v`.
pub open spec fn views<T>(v: Seq<Tree<T>>) -> Seq<TreeV<T>> {
    Seq::new(v.len(), |i: int| tree_view(v[i]))
}

proof fn lemma_node_view<T>(v: Vec<Tree<T>>, tag: Tag)
    ensures
        tree_view(Tree::Node(v, tag)) == TreeV::Node(views(v@), tag),
{
    let t = tree_view(Tree::Node(v, tag));
    assert(t->Node_0 =~= views(v@));
}

/// The tag of a tree: that of its root.
pub open spec fn tag_of<T>(t: TreeV<T>) -> Tag {
    match t {
        TreeV::Nil => None,
        TreeV::Leaf(_, tag) => tag,
        TreeV::Node(_, tag) => tag,
    }
}

/// Which subtrees a traversal picks: leaves, the highest tagged subtrees, or
/// both (a tagged node hides what lies below it).
pub enum Pick {
    Leaves,
    Tagged,
    TaggedAndLeaves,
}

/// The subtrees that `pick` selects below the root of `t`, in order.
pub open spec fn below<T>(t: TreeV<T>, pick: Pick) -> Seq<TreeV<T>>
    decreases t, 1int, 0int,
{
    match t {
        TreeV::Node(kids, _) => select(t, 0, pick),
        _ => Seq::empty(),
    }
}

/// The subtrees that `pick` selects from child `i` of `t` on.
pub open spec fn select<T>(t: TreeV<T>, i: int, pick: Pick) -> Seq<TreeV<T>>
    decreases t, 0int, t->Node_0.len() - i,
{
    if t is Node && 0 <= i < t->Node_0.len() {
        let c = t->Node_0[i];
        let here = match pick {
            Pick::Leaves => match c {
                TreeV::Nil => Seq::empty(),
                TreeV::Leaf(_, _) => seq![c],
                TreeV::Node(_, _) => below(c, pick),
            },
            Pick::Tagged => if tag_of(c) is Some { seq![c] } else { below(c, pick) },
            Pick::TaggedAndLeaves => match c {
                TreeV::Nil => Seq::empty(),
                TreeV::Leaf(_, _) => seq![c],
                TreeV::Node(_, tag) => if tag is Some { seq![c] } else { below(c, pick) },
            },
        };
        here.add(select(t, i + 1, pick))
    } else {
        Seq::empty()
    }
}

/// The trees that a sequence of references points to.
pub open spec fn ref_views<T>(s: Seq<&Tree<T>>) -> Seq<TreeV<T>> {
    Seq::new(s.len(), |i: int| tree_view(*s[i]))
}

fn collect<'a, T>(t: &'a Tree<T>, pick: &Pick, out: &mut Vec<&'a Tree<T>>)
    ensures
        ref_views(final(out)@) == ref_views(old(out)@).add(below(tree_view(*t), *pick)),
    decreases *t,
{
    proof {
        assert(ref_views(out@).add(Seq::empty()) =~= ref_views(out@));
    }
    if let Tree::Node(kids, tag) = t {
        let ghost tv = tree_view(*t);
        proof {
            lemma_node_view(*kids, *tag);
        }
        let ghost start = ref_views(out@);
        let mut i: usize = 0;
        while i < kids.len()
            invariant
                i <= kids@.len(),
                *t == Tree::Node(*kids, *tag),
                tv == tree_view(*t),
                tv == TreeV::Node(views(kids@), *tag),
                start.add(below(tv, *pick)) == ref_views(out@).add(select(tv, i as int, *pick)),
            decreases kids.len() - i,
        {
            let c = &kids[i];
            let ghost cv = tree_view(*c);
            let ghost before = ref_views(out@);
            proof {
                assert(tv->Node_0[i as int] == cv);
            }
            let take_self = match pick {
                Pick::Leaves => match c {
                    Tree::Leaf(_, _) => 1u8,
                    Tree::Node(_, _) => 2u8,
                    Tree::Nil => 0u8,
                },
                Pick::Tagged => if c.tag().is_some() {
                    1u8
                } else {
                    2u8
                },
                Pick::TaggedAndLeaves => match c {
                    Tree::Leaf(_, _) => 1u8,
                    Tree::Node(_, tag) => if tag.is_some() {
                        1u8
                    } else {
                        2u8
                    },
                    Tree::Nil => 0u8,
                },
            };
            if take_self == 1 {
                out.push(c);
                proof {
                    assert(ref_views(out@) =~= before.push(cv));
                    assert(before.push(cv).add(select(tv, i + 1, *pick)) =~= before.add(
                        seq![cv].add(select(tv, i + 1, *pick)),
                    ));
                }
            } else if take_self == 2 {
                proof {
                    vstd::std_specs::vec::axiom_vec_index_decreases(*kids, i as int);
                }
                collect(c, pick, out);
                proof {
                    assert(ref_views(out@).add(select(tv, i + 1, *pick)) =~= before.add(
                        below(cv, *pick).add(select(tv, i + 1, *pick)),
                    ));
                }
            } else {
                proof {
                    assert(below(cv, *pick) =~= Seq::<TreeV<T>>::empty());
                    assert(Seq::<TreeV<T>>::empty().add(select(tv, i + 1, *pick)) =~= select(tv, i + 1, *pick));
                }
            }
            i = i + 1;
        }
        proof {
            assert(ref_views(out@).add(Seq::empty()) =~= ref_views(out@));
        }
    }
}

impl<T> Tree<T> {
    /// The leaves below the root, in order.
    pub fn leaves(&self) -> (r: Vec<&Tree<T>>)
        ensures
            ref_views(r@) == below(tree_view(*self), Pick::Leaves),
    {
        let mut out: Vec<&Tree<T>> = Vec::new();
        proof {
            assert(ref_views(out@) =~= Seq::<TreeV<T>>::empty());
        }
        collect(self, &Pick::Leaves, &mut out);
        proof {
            assert(ref_views(out@) =~= below(tree_view(*self), Pick::Leaves));
        }
        out
    }

    /// The highest tagged subtrees below the root, in order.
    pub fn tagged(&self) -> (r: Vec<&Tree<T>>)
        ensures
            ref_views(r@) == below(tree_view(*self), Pick::Tagged),
    {
        let mut out: Vec<&Tree<T>> = Vec::new();
        proof {
            assert(ref_views(out@) =~= Seq::<TreeV<T>>::empty());
        }
        collect(self, &Pick::Tagged, &mut out);
        proof {
            assert(ref_views(out@) =~= below(tree_view(*self), Pick::Tagged));
        }
        out
    }

    /// The leaves and highest tagged nodes below the root, in order.
    pub fn tagged_and_leaves(&self) -> (r: Vec<&Tree<T>>)
        ensures
            ref_views(r@) == below(tree_view(*self), Pick::TaggedAndLeaves),
    {
        let mut out: Vec<&Tree<T>> = Vec::new();
        proof {
            assert(ref_views(out@) =~= Seq::<TreeV<T>>::empty());
        }
        collect(self, &Pick::TaggedAndLeaves, &mut out);
        proof {
            assert(ref_views(out@) =~= below(tree_view(*self), Pick::TaggedAndLeaves));
        }
        out
    }

    /// The tag of the root.
    pub fn tag(&self) -> (r: Tag)
        ensures
            r == tag_of(tree_view(*self)),
    {
        match self {
            Tree::Nil => None,
            Tree::Leaf(_, tag) => *tag,
            Tree::Node(_, tag) => *tag,
        }
    }
}

/// The label that node `n` gives the trees built from it.
pub open spec fn node_tag(g: Grammar, n: usize) -> Tag
    decreases g.rank@[n as int],
    when g.wf() && n < g.nodes@.len()
    via node_tag_decreases
{
    match g.nodes@[n as int] {
        Node::Token(t) => t.tag,
        Node::Class(c) => c.tag,
        Node::List(l) => l.tag,
        Node::Loop(lp) => lp.tag,
        Node::Switch(sw) => sw.tag,
        Node::Ref(r) => match r.val {
            Some(t) => node_tag(g, t),
            None => None,
        },
        Node::Tagger(t) => Some(t.sym),
        Node::Memo(m) => node_tag(g, m.reader),
        Node::Epsilon(_) | Node::Optional(_) => None,
    }
}

#[via_fn]
proof fn node_tag_decreases(g: Grammar, n: usize) {
    assert(g.node_ok(n as int));
}

/// The label of node `n`.
pub fn tag(g: &Grammar, n: usize) -> (r: Tag)
    requires
        g.wf(),
        n < g.nodes@.len(),
    ensures
        r == node_tag(*g, n),
    decreases g.rank@[n as int],
{
    proof {
        assert(g.node_ok(n as int));
    }
    match &g.nodes[n] {
        Node::Token(t) => t.tag,
        Node::Class(c) => c.tag,
        Node::List(l) => l.tag,
        Node::Loop(lp) => lp.tag,
        Node::Switch(sw) => sw.tag,
        Node::Ref(r) => match r.val {
            Some(t) => tag(g, t),
            None => None,
        },
        Node::Tagger(t) => Some(t.sym),
        Node::Memo(m) => tag(g, m.reader),
        Node::Epsilon(_) | Node::Optional(_) => None,
    }
}

/// What a labelled-choice marker with index `case` designates at a node: a
/// case of a choice, with the choice's tag, or another iteration of the same
/// repetition.
pub enum SwitchBuilder {
    Case(usize, Tag),
    Loop,
}

/// The meaning of a choice marker with index `case` at node `n`, seen
/// through memoization nodes and reference cells; none if `n` makes no choice
/// or has no such case.
pub open spec fn switch_builder_of(g: Grammar, n: usize, case: usize) -> Option<SwitchBuilder>
    decreases g.rank@[n as int],
    when g.wf() && n < g.nodes@.len()
    via switch_builder_decreases
{
    match g.nodes@[n as int] {
        Node::Switch(sw) => if case < sw.cases@.len() {
            Some(SwitchBuilder::Case(sw.cases@[case as int], sw.tag))
        } else {
            None
        },
        Node::Loop(_) => Some(SwitchBuilder::Loop),
        Node::Memo(m) => switch_builder_of(g, m.reader, case),
        Node::Ref(r) => match r.val {
            Some(t) => switch_builder_of(g, t, case),
            None => None,
        },
        _ => None,
    }
}

#[via_fn]
proof fn switch_builder_decreases(g: Grammar, n: usize, case: usize) {
    assert(g.node_ok(n as int));
}

/// The meaning of a choice marker with index `case` at node `n`.
pub fn switch_builder(g: &Grammar, n: usize, case: usize) -> (r: Option<SwitchBuilder>)
    requires
        g.wf(),
        n < g.nodes@.len(),
    ensures
        r == switch_builder_of(*g, n, case),
        r matches Some(SwitchBuilder::Case(c, _)) ==> c < g.nodes@.len(),
    decreases g.rank@[n as int],
{
    proof {
        assert(g.node_ok(n as int));
    }
    match &g.nodes[n] {
        Node::Switch(sw) => if case < sw.cases.len() {
            Some(SwitchBuilder::Case(sw.cases[case], sw.tag))
        } else {
            None
        },
        Node::Loop(_) => Some(SwitchBuilder::Loop),
        Node::Memo(m) => switch_builder(g, m.reader, case),
        Node::Ref(r) => match r.val {
            Some(t) => switch_builder(g, t, case),
            None => None,
        },
        _ => None,
    }
}

/// How many children a node with a fixed list of children builds from the
/// sub-traces of its elements: at most one per element for a sequence, any
/// number for a repetition.
pub open spec fn child_bound(g: Grammar, n: usize) -> int {
    match g.nodes@[n as int] {
        Node::List(l) => l.elts@.len() as int,
        Node::Loop(_) => usize::MAX as int,
        _ => 0,
    }
}

/// The node that builds child `k` of node `n`.
pub open spec fn child_builder(g: Grammar, n: usize, k: int) -> usize {
    match g.nodes@[n as int] {
        Node::List(l) => l.elts@[k],
        Node::Loop(lp) => lp.ref_,
        _ => n,
    }
}

/// The tree that node `n` builds from trace `t`, reading input elements from
/// position `pos` of `toks`, and the position after them.
pub open spec fn build<T>(g: Grammar, n: usize, t: TraceList, toks: Seq<T>, pos: int) -> (TreeV<T>, int)
    decreases trace_size(t), g.rank@[n as int] + 1,
    when g.wf() && n < g.nodes@.len()
    via build_decreases::<T>
{
    match g.nodes@[n as int] {
        Node::Ref(r) => match r.val {
            Some(x) => build(g, x, t, toks, pos),
            None => (TreeV::Nil, pos),
        },
        Node::Memo(m) => build(g, m.reader, t, toks, pos),
        Node::Tagger(tg) => {
            let (sub, p) = build(g, tg.reader, t, toks, pos);
            (TreeV::Node(seq![sub], Some(tg.sym)), p)
        },
        Node::Optional(o) => match t {
            List::Cons(Trace::Switch(k, _), tail) => if k == 1 {
                build(g, o.reader, *tail, toks, pos)
            } else {
                (TreeV::Nil, pos)
            },
            _ => (TreeV::Nil, pos),
        },
        _ => match t {
            List::Nil(TraceEnding::Token) => if 0 <= pos < toks.len() {
                (TreeV::Leaf(toks[pos], node_tag(g, n)), pos + 1)
            } else {
                (TreeV::Nil, pos)
            },
            List::Nil(_) => (TreeV::Nil, pos),
            List::Cons(Trace::Switch(i, _), tail) => match g.nodes@[n as int] {
                Node::Switch(sw) => if i < sw.cases@.len() {
                    let (sub, p) = build(g, sw.cases@[i as int], *tail, toks, pos);
                    (
                        match sw.tag {
                            Some(_) => TreeV::Node(seq![sub], sw.tag),
                            None => sub,
                        },
                        p,
                    )
                } else {
                    (TreeV::Nil, pos)
                },
                Node::Loop(_) => build(g, n, *tail, toks, pos),
                _ => (TreeV::Nil, pos),
            },
            List::Cons(Trace::Tmp(st), _) => {
                let (kids, p) = build_stacked(g, n, *st, toks, pos);
                (TreeV::Node(kids, node_tag(g, n)), p)
            },
            List::Cons(Trace::Rec(_), _) => {
                let (kids, p) = build_inline(g, n, t, toks, pos, Seq::empty());
                (TreeV::Node(kids, node_tag(g, n)), p)
            },
        },
    }
}

/// The children that node `n` builds from an accumulator of element traces,
/// the oldest first.
pub open spec fn build_stacked<T>(g: Grammar, n: usize, st: StackedReader, toks: Seq<T>, pos: int) -> (
    Seq<TreeV<T>>,
    int,
)
    decreases stacked_size(st), 0int,
    when g.wf() && n < g.nodes@.len()
    via build_stacked_decreases::<T>
{
    match st {
        List::Nil(_) => (Seq::empty(), pos),
        List::Cons(l, rest) => {
            let (kids, p) = build_stacked(g, n, *rest, toks, pos);
            if kids.len() < child_bound(g, n) {
                let (c, p2) = build(g, child_builder(g, n, kids.len() as int), *l, toks, p);
                (kids.push(c), p2)
            } else {
                (kids, p)
            }
        },
    }
}

/// The children that node `n` builds from a trace whose markers each hold an
/// element trace inline, after the children `kids` already built.
pub open spec fn build_inline<T>(
    g: Grammar,
    n: usize,
    t: TraceList,
    toks: Seq<T>,
    pos: int,
    kids: Seq<TreeV<T>>,
) -> (Seq<TreeV<T>>, int)
    decreases trace_size(t), 0int,
    when g.wf() && n < g.nodes@.len()
    via build_inline_decreases::<T>
{
    match t {
        List::Cons(Trace::Rec(l), tail) => if kids.len() < child_bound(g, n) {
            let (c, p) = build(g, child_builder(g, n, kids.len() as int), *l, toks, pos);
            build_inline(g, n, *tail, toks, p, kids.push(c))
        } else {
            (kids, pos)
        },
        _ => (kids, pos),
    }
}

#[via_fn]
proof fn build_decreases<T>(g: Grammar, n: usize, t: TraceList, toks: Seq<T>, pos: int) {
    assert(g.node_ok(n as int));
    if let List::Cons(m, tail) = t {
        if let Trace::Tmp(st) = m {
            assert(marker_size(m) == 1 + stacked_size(*st));
            assert(stacked_size(*st) < trace_size(t));
        }
        if let Node::Switch(sw) = g.nodes@[n as int] {
            if let Trace::Switch(i, _) = m {
                if i < sw.cases@.len() {
                    assert(sw.cases@[i as int] < g.nodes@.len());
                }
            }
        }
    }
}

#[via_fn]
proof fn build_stacked_decreases<T>(g: Grammar, n: usize, st: StackedReader, toks: Seq<T>, pos: int) {
    assert(g.node_ok(n as int));
}

#[via_fn]
proof fn build_inline_decreases<T>(
    g: Grammar,
    n: usize,
    t: TraceList,
    toks: Seq<T>,
    pos: int,
    kids: Seq<TreeV<T>>,
) {
    assert(g.node_ok(n as int));
    if t is Cons && t->Cons_0 is Rec {
        assert(marker_size(t->Cons_0) == 1 + trace_size(*t->Cons_0->Rec_0));
    }
}


fn single<T>(sub: Tree<T>, tag: Tag) -> (r: Tree<T>)
    ensures
        tree_view(r) == TreeV::Node(seq![tree_view(sub)], tag),
{
    let mut v: Vec<Tree<T>> = Vec::new();
    v.push(sub);
    proof {
        lemma_node_view(v, tag);
        assert(views(v@) =~= seq![tree_view(sub)]);
    }
    Tree::Node(v, tag)
}

fn node_of<T>(kids: Vec<Tree<T>>, tag: Tag) -> (r: Tree<T>)
    ensures
        tree_view(r) == TreeV::Node(views(kids@), tag),
{
    proof {
        lemma_node_view(kids, tag);
    }
    Tree::Node(kids, tag)
}

fn build_exec<T: Copy>(g: &Grammar, n: usize, t: &TraceList, toks: &[T], pos: usize) -> (r: (Tree<T>, usize))
    requires
        g.wf(),
        n < g.nodes@.len(),
        pos <= toks@.len(),
    ensures
        (tree_view(r.0), r.1 as int) == build(*g, n, *t, toks@, pos as int),
        r.1 <= toks@.len(),
    decreases trace_size(*t), g.rank@[n as int] + 1,
{
    proof {
        assert(g.node_ok(n as int));
    }
    match &g.nodes[n] {
        Node::Ref(r) => match r.val {
            Some(x) => build_exec(g, x, t, toks, pos),
            None => (Tree::Nil, pos),
        },
        Node::Memo(m) => build_exec(g, m.reader, t, toks, pos),
        Node::Tagger(tg) => {
            let (sub, p) = build_exec(g, tg.reader, t, toks, pos);
            (single(sub, Some(tg.sym)), p)
        },
        Node::Optional(o) => match t {
            List::Cons(Trace::Switch(k, _), tail) => if *k == 1 {
                build_exec(g, o.reader, &**tail, toks, pos)
            } else {
                (Tree::Nil, pos)
            },
            _ => (Tree::Nil, pos),
        },
        _ => match t {
            List::Nil(TraceEnding::Token) => if pos < toks.len() {
                (Tree::Leaf(toks[pos], tag(g, n)), pos + 1)
            } else {
                (Tree::Nil, pos)
            },
            List::Nil(_) => (Tree::Nil, pos),
            List::Cons(Trace::Switch(i, _), tail) => match &g.nodes[n] {
                Node::Switch(sw) => if *i < sw.cases.len() {
                    let (sub, p) = build_exec(g, sw.cases[*i], &**tail, toks, pos);
                    match sw.tag {
                        Some(_) => (single(sub, sw.tag), p),
                        None => (sub, p),
                    }
                } else {
                    (Tree::Nil, pos)
                },
                Node::Loop(_) => build_exec(g, n, &**tail, toks, pos),
                _ => (Tree::Nil, pos),
            },
            List::Cons(Trace::Tmp(st), _) => {
                proof {
                    assert(marker_size(Trace::Tmp(*st)) == 1 + stacked_size(**st));
                }
                let (kids, p) = build_stacked_exec(g, n, &**st, toks, pos);
                (node_of(kids, tag(g, n)), p)
            },
            List::Cons(Trace::Rec(_), _) => {
                let mut kids: Vec<Tree<T>> = Vec::new();
                proof {
                    assert(views(kids@) =~= Seq::<TreeV<T>>::empty());
                }
                let p = build_inline_exec(g, n, t, toks, pos, &mut kids);
                (node_of(kids, tag(g, n)), p)
            },
        },
    }
}

fn build_stacked_exec<T: Copy>(g: &Grammar, n: usize, st: &StackedReader, toks: &[T], pos: usize) -> (r: (
    Vec<Tree<T>>,
    usize,
))
    requires
        g.wf(),
        n < g.nodes@.len(),
        pos <= toks@.len(),
    ensures
        (views(r.0@), r.1 as int) == build_stacked(*g, n, *st, toks@, pos as int),
        r.1 <= toks@.len(),
    decreases stacked_size(*st), 0int,
{
    proof {
        assert(g.node_ok(n as int));
    }
    match st {
        List::Nil(_) => {
            let v: Vec<Tree<T>> = Vec::new();
            proof {
                assert(views(v@) =~= Seq::<TreeV<T>>::empty());
            }
            (v, pos)
        },
        List::Cons(l, rest) => {
            let (mut kids, p) = build_stacked_exec(g, n, &**rest, toks, pos);
            let k = kids.len();
            let child: Option<usize> = match &g.nodes[n] {
                Node::List(ls) => if k < ls.elts.len() {
                    Some(ls.elts[k])
                } else {
                    None
                },
                Node::Loop(lp) => if k < usize::MAX {
                    Some(lp.ref_)
                } else {
                    None
                },
                _ => None,
            };
            match child {
                Some(c) => {
                    let (tree, p2) = build_exec(g, c, &**l, toks, p);
                    let ghost before = views(kids@);
                    kids.push(tree);
                    proof {
                        assert(views(kids@) =~= before.push(tree_view(tree)));
                    }
                    (kids, p2)
                },
                None => (kids, p),
            }
        },
    }
}

fn build_inline_exec<T: Copy>(
    g: &Grammar,
    n: usize,
    t: &TraceList,
    toks: &[T],
    pos: usize,
    kids: &mut Vec<Tree<T>>,
) -> (r: usize)
    requires
        g.wf(),
        n < g.nodes@.len(),
        pos <= toks@.len(),
    ensures
        (views(final(kids)@), r as int) == build_inline(*g, n, *t, toks@, pos as int, views(old(kids)@)),
        r <= toks@.len(),
    decreases trace_size(*t), 0int,
{
    proof {
        assert(g.node_ok(n as int));
    }
    match t {
        List::Cons(Trace::Rec(l), tail) => {
            let k = kids.len();
            let child: Option<usize> = match &g.nodes[n] {
                Node::List(ls) => if k < ls.elts.len() {
                    Some(ls.elts[k])
                } else {
                    None
                },
                Node::Loop(lp) => if k < usize::MAX {
                    Some(lp.ref_)
                } else {
                    None
                },
                _ => None,
            };
            match child {
                Some(c) => {
                    proof {
                        assert(marker_size(Trace::Rec(*l)) == 1 + trace_size(**l));
                    }
                    let (tree, p) = build_exec(g, c, &**l, toks, pos);
                    let ghost before = views(kids@);
                    kids.push(tree);
                    proof {
                        assert(views(kids@) =~= before.push(tree_view(tree)));
                    }
                    build_inline_exec(g, n, &**tail, toks, p, kids)
                },
                None => pos,
            }
        },
        _ => pos,
    }
}

/// Replays `traces` against grammar node `n`, taking leaves from `tokens`,
/// into a labelled tree; `tokens` holds an element for every token ending of
/// the trace.
pub fn tree_from_trace<T: Copy>(g: &Grammar, n: usize, traces: &Rc<TraceList>, tokens: &[T]) -> (r: Tree<T>)
    requires
        g.wf(),
        n < g.nodes@.len(),
        token_endings(**traces) <= tokens@.len(),
    ensures
        tree_view(r) == build(*g, n, **traces, tokens@, 0).0,
{
    let (tree, _) = build_exec(g, n, &**traces, tokens, 0);
    tree
}


/// Reconstruction is deterministic: two trees rebuilt from the same grammar,
/// node, trace and input are the same tree.
pub proof fn lemma_tree_deterministic<T>(
    g: Grammar,
    n: usize,
    t: TraceList,
    toks: Seq<T>,
    r1: Tree<T>,
    r2: Tree<T>,
)
    requires
        g.wf(),
        n < g.nodes@.len(),
        tree_view(r1) == build(g, n, t, toks, 0).0,
        tree_view(r2) == build(g, n, t, toks, 0).0,
    ensures
        tree_view(r1) == tree_view(r2),
{
}

} // verus!
