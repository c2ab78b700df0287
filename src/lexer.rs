use crate::grammar::{Grammar, Symbol, TokenId};
use crate::list::List;
use crate::parser::{parse, parse_spec};
use crate::reader::MemoTable;
use crate::traces::{Trace, TraceList};
use crate::trees::{SwitchBuilder, node_tag, switch_builder, switch_builder_of, tag};
use std::rc::Rc;
use vstd::prelude::*;
use vstd::slice::slice_subrange;

verus! {

/// A token found by the lexer: the name of the case that matched, its trace,
/// the byte range it spans, and the index of the case.
pub struct Token {
    pub name: Symbol,
    pub traces: Rc<TraceList>,
    pub start: usize,
    pub stop: usize,
    pub id: TokenId,
}

/// No case of the lexer matches at `start`; `stop` is where it gave up.
pub struct NoToken {
    pub start: usize,
    pub stop: usize,
}

/// Splits bytes into tokens, one longest match at a time.
pub struct TokenIter {
    pub bytes_consumed: usize,
    pub ids: Vec<TokenId>,
    pub lexer: usize,
}

/// The tag of the node of case `i` of the choice that node `n` stands for.
pub open spec fn case_tag(g: Grammar, n: usize, i: usize) -> Option<Symbol> {
    match switch_builder_of(g, n, i) {
        Some(SwitchBuilder::Case(c, _)) => node_tag(g, c),
        _ => None,
    }
}

/// The case index recorded first in a trace, 0 if it starts otherwise.
pub open spec fn first_case(t: TraceList) -> usize {
    match t {
        List::Cons(Trace::Switch(i, _), _) => i,
        _ => 0,
    }
}

/// What the lexer `lexer` finds in `ids` at `pos`: nothing at the end, a
/// token for the longest non-empty match, or the range it could not classify.
/// A token is named by the tag of its case, 0 for a case without tag.
pub open spec fn lex_step(g: Grammar, lexer: usize, ids: Seq<TokenId>, pos: int) -> Option<
    Result<Token, NoToken>,
> {
    if pos >= ids.len() {
        None
    } else {
        let p = parse_spec(g, ids.subrange(pos, ids.len() as int), lexer);
        if p.success is Some && p.success_len > 0 {
            let tr = p.success->0;
            let id = first_case(*tr);
            Some(
                Ok(
                    Token {
                        name: match case_tag(g, lexer, id) {
                            Some(s) => s,
                            None => 0,
                        },
                        traces: tr,
                        start: pos as usize,
                        stop: (pos + p.success_len) as usize,
                        id,
                    },
                ),
            )
        } else {
            Some(Err(NoToken { start: pos as usize, stop: (pos + p.nb_tokens_read) as usize }))
        }
    }
}

impl TokenIter {
    /// The next token, or the failure that ends tokenization; the position
    /// moves past a token and stays on a failure.
    pub fn next(&mut self, g: &Grammar, memo: &mut MemoTable) -> (r: Option<Result<Token, NoToken>>)
        requires
            g.wf(),
            old(memo).wf(*g),
            old(self).lexer < g.nodes@.len(),
            old(self).bytes_consumed <= old(self).ids@.len(),
        ensures
            final(memo).wf(*g),
            r == lex_step(*g, old(self).lexer, old(self).ids@, old(self).bytes_consumed as int),
            final(self).ids == old(self).ids,
            final(self).lexer == old(self).lexer,
            final(self).bytes_consumed == match r {
                Some(Ok(t)) => t.stop,
                _ => old(self).bytes_consumed,
            },
            old(self).bytes_consumed < final(self).bytes_consumed <= final(self).ids@.len() || r is None
                || r matches Some(Err(_)),
    {
        let len = self.ids.len();
        let pos = self.bytes_consumed;
        if pos >= len {
            return None;
        }
        let rest = slice_subrange(self.ids.as_slice(), pos, len);
        let p = parse(g, memo, rest, self.lexer);
        match p.success {
            Some(tr) => {
                if p.success_len > 0 {
                    let id = match &*tr {
                        List::Cons(Trace::Switch(i, _), _) => *i,
                        _ => 0,
                    };
                    let name = match switch_builder(g, self.lexer, id) {
                        Some(SwitchBuilder::Case(c, _)) => match tag(g, c) {
                            Some(s) => s,
                            None => 0,
                        },
                        _ => 0,
                    };
                    let token = Token { name, traces: tr, start: pos, stop: pos + p.success_len, id };
                    self.bytes_consumed = pos + p.success_len;
                    Some(Ok(token))
                } else {
                    Some(Err(NoToken { start: pos, stop: pos + p.nb_tokens_read }))
                }
            },
            None => Some(Err(NoToken { start: pos, stop: pos + p.nb_tokens_read })),
        }
    }
}

/// The identities of bytes: their values.
pub open spec fn byte_ids(bytes: Seq<u8>) -> Seq<TokenId> {
    Seq::new(bytes.len(), |i: int| bytes[i] as usize)
}

/// A tokenizer over `bytes` with the lexer node `lexer`.
pub fn tokenize(bytes: &[u8], lexer: usize) -> (it: TokenIter)
    ensures
        it.ids@ == byte_ids(bytes@),
        it.bytes_consumed == 0,
        it.lexer == lexer,
{
    let mut ids: Vec<TokenId> = Vec::new();
    let mut i: usize = 0;
    while i < bytes.len()
        invariant
            i <= bytes@.len(),
            ids@ == byte_ids(bytes@).take(i as int),
        decreases bytes.len() - i,
    {
        ids.push(bytes[i] as usize);
        i = i + 1;
        proof {
            assert(ids@ =~= byte_ids(bytes@).take(i as int));
        }
    }
    proof {
        assert(ids@ =~= byte_ids(bytes@));
    }
    TokenIter { bytes_consumed: 0, ids, lexer }
}

} // verus!
