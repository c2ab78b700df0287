use crate::list::List;
use std::rc::Rc;
use vstd::prelude::*;

verus! {

/// Tie-break between a continuation that already completed an element and one
/// that is still extending it, when both accept at the same position.
#[derive(Clone, Copy, Debug, PartialEq, Eq, Structural)]
pub enum Policy {
    Shortest,
    Longest,
}

/// How a trace ends: a consumed token, an empty match, or a flush of the
/// per-element accumulator of a sequence or repetition.
#[derive(Clone, Copy, Debug, PartialEq, Eq, Structural)]
pub enum TraceEnding {
    Token,
    Epsilon,
    Stacked,
}

/// One marker of a trace.
#[derive(Debug, PartialEq, Eq)]
pub enum Trace {
    /// The branch taken at a choice point, with the policy that selected it.
    Switch(usize, Policy),
    /// The sub-traces of a fixed-arity node, inline and in order.
    Rec(Rc<TraceList>),
    /// The sub-traces of a sequence or repetition, most recent first.
    Tmp(Rc<StackedReader>),
}

/// A trace: markers from the outermost decision inwards, then an ending.
pub type TraceList = List<Trace, TraceEnding>;

/// The accumulator of completed element traces of a sequence or repetition,
/// most recent first.
pub type StackedReader = List<Rc<TraceList>, ()>;

impl StackedReader {
    /// An empty accumulator.
    pub fn without_parent() -> (r: Self)
        ensures
            r == List::<Rc<TraceList>, ()>::Nil(()),
    {
        List::Nil(())
    }

    /// The accumulator `parent` with `prev_success` on top.
    pub fn new(parent: Rc<StackedReader>, prev_success: Rc<TraceList>) -> (r: Self)
        ensures
            r == List::Cons(prev_success, parent),
    {
        List::Cons(prev_success, parent)
    }
}

/// The trace of a single consumed token.
pub fn token_trace() -> (r: Rc<TraceList>)
    ensures
        *r == TraceList::Nil(TraceEnding::Token),
{
    Rc::new(List::Nil(TraceEnding::Token))
}

/// The trace of an empty match.
pub fn epsilon_trace() -> (r: Rc<TraceList>)
    ensures
        *r == TraceList::Nil(TraceEnding::Epsilon),
{
    Rc::new(List::Nil(TraceEnding::Epsilon))
}

/// The trace that closes a sequence or repetition, flushing `stacked`.
pub fn stacked_trace(stacked: Rc<StackedReader>) -> (r: Rc<TraceList>)
    ensures
        *r == TraceList::Cons(Trace::Tmp(stacked), Rc::new(TraceList::Nil(TraceEnding::Stacked))),
{
    Rc::new(List::Cons(Trace::Tmp(stacked), Rc::new(List::Nil(TraceEnding::Stacked))))
}

/// A size measure on traces, decreasing into every sub-trace.
pub open spec fn trace_size(t: TraceList) -> nat
    decreases t,
{
    match t {
        List::Nil(_) => 1,
        List::Cons(m, tail) => 1 + marker_size(m) + trace_size(*tail),
    }
}

/// The size of a marker, with what it holds.
pub open spec fn marker_size(m: Trace) -> nat
    decreases m,
{
    match m {
        Trace::Switch(_, _) => 1,
        Trace::Rec(l) => 1 + trace_size(*l),
        Trace::Tmp(s) => 1 + stacked_size(*s),
    }
}

/// The size of an accumulator, with the traces it holds.
pub open spec fn stacked_size(s: StackedReader) -> nat
    decreases s,
{
    match s {
        List::Nil(_) => 1,
        List::Cons(l, rest) => 1 + trace_size(*l) + stacked_size(*rest),
    }
}


/// How many token endings a trace holds, in all its sub-traces: an upper
/// bound on the input elements that replaying it consumes.
pub open spec fn token_endings(t: TraceList) -> nat
    decreases t,
{
    match t {
        List::Nil(TraceEnding::Token) => 1,
        List::Nil(_) => 0,
        List::Cons(m, tail) => marker_endings(m) + token_endings(*tail),
    }
}

pub open spec fn marker_endings(m: Trace) -> nat
    decreases m,
{
    match m {
        Trace::Switch(_, _) => 0,
        Trace::Rec(l) => token_endings(*l),
        Trace::Tmp(s) => stacked_endings(*s),
    }
}

pub open spec fn stacked_endings(s: StackedReader) -> nat
    decreases s,
{
    match s {
        List::Nil(_) => 0,
        List::Cons(l, rest) => token_endings(*l) + stacked_endings(*rest),
    }
}

/// What is left of `budget` once the token endings of `t` are taken from it,
/// if enough.
pub fn endings_within(t: &TraceList, budget: usize) -> (r: Option<usize>)
    ensures
        token_endings(*t) <= budget <==> r is Some,
        r matches Some(left) ==> left == budget - token_endings(*t),
    decreases *t,
{
    match t {
        List::Nil(TraceEnding::Token) => if budget >= 1 {
            Some(budget - 1)
        } else {
            None
        },
        List::Nil(_) => Some(budget),
        List::Cons(m, tail) => {
            proof {
                assert(token_endings(*t) == marker_endings(*m) + token_endings(**tail));
            }
            let b = match m {
                Trace::Switch(_, _) => Some(budget),
                Trace::Rec(l) => {
                    proof {
                        assert(marker_endings(*m) == token_endings(**l));
                    }
                    endings_within(&**l, budget)
                },
                Trace::Tmp(s) => {
                    proof {
                        assert(marker_endings(*m) == stacked_endings(**s));
                    }
                    stacked_within(&**s, budget)
                },
            };
            match b {
                Some(b) => endings_within(&**tail, b),
                None => None,
            }
        },
    }
}

fn stacked_within(s: &StackedReader, budget: usize) -> (r: Option<usize>)
    ensures
        stacked_endings(*s) <= budget <==> r is Some,
        r matches Some(left) ==> left == budget - stacked_endings(*s),
    decreases *s,
{
    match s {
        List::Nil(_) => Some(budget),
        List::Cons(l, rest) => match endings_within(&**l, budget) {
            Some(b) => stacked_within(&**rest, b),
            None => None,
        },
    }
}

} // verus!
