use crate::grammar::{
    ConditionalTokenReader, Grammar, ListReader, LoopOrdering, LoopReader, Memoized, Node,
    OptionalReader, SwitchReader_, Symbol, Tag, TokenId, TokenReader, cases_rank, children_ok,
    nullable_rule_of, rank_need, win_rank,
};
use crate::trees::{SwitchBuilder, node_tag, switch_builder_of};
use crate::lexer::{NoToken, Token, TokenIter, byte_ids, case_tag, lex_step, tokenize};
use crate::parser::{parse, parse_spec};
use crate::reader::MemoTable;
use crate::traces::{endings_within, token_endings};
use crate::trees::{Tree, build, tree_from_trace, tree_view};
use crate::symbols::SymbolTable;
use crate::traces::Policy;
use vstd::prelude::*;

verus! {

/// The tokens that the lexer `lexer` finds in `ids` from `pos` on, leaving
/// out those named `ws`, or the first failure.
pub open spec fn lex_all(g: Grammar, lexer: usize, ids: Seq<TokenId>, pos: int, ws: Symbol) -> Result<
    Seq<Token>,
    NoToken,
>
    decreases ids.len() - pos,
{
    match lex_step(g, lexer, ids, pos) {
        None => Ok(Seq::empty()),
        Some(Err(e)) => Err(e),
        Some(Ok(t)) => if pos < t.stop <= ids.len() {
            match lex_all(g, lexer, ids, t.stop as int, ws) {
                Ok(rest) => Ok(if t.name != ws { seq![t].add(rest) } else { rest }),
                Err(e) => Err(e),
            }
        } else {
            Err(NoToken { start: pos as usize, stop: pos as usize })
        },
    }
}

/// Tokenizes `bytes` with the lexer `lexer`, dropping the tokens named `WS`.
pub fn tokenize_to_vec(
    g: &Grammar,
    memo: &mut MemoTable,
    bytes: &[u8],
    lexer: usize,
    table: &mut SymbolTable,
) -> (r: Result<Vec<Token>, NoToken>)
    requires
        g.wf(),
        old(memo).wf(*g),
        lexer < g.nodes@.len(),
        old(table).wf(),
        old(table).strings().len() < usize::MAX,
    ensures
        final(memo).wf(*g),
        final(table).wf(),
        exists|ws: Symbol|
            1 <= ws < final(table).strings().len() && final(table).strings()[ws as int] == "WS"@ && match r {
                Ok(v) => lex_all(*g, lexer, byte_ids(bytes@), 0, ws) == Ok::<Seq<Token>, NoToken>(v@),
                Err(e) => lex_all(*g, lexer, byte_ids(bytes@), 0, ws) == Err::<Seq<Token>, NoToken>(e),
            },
{
    let ws = table.get("WS");
    let mut it: TokenIter = tokenize(bytes, lexer);
    let mut out: Vec<Token> = Vec::new();
    let ghost ids = byte_ids(bytes@);
    proof {
        if let Ok(rest) = lex_all(*g, lexer, ids, 0, ws) {
            assert(out@.add(rest) =~= rest);
        }
    }
    loop
        invariant
            g.wf(),
            lexer < g.nodes@.len(),
            table.wf(),
            1 <= ws < table.strings().len(),
            table.strings()[ws as int] == "WS"@,
            memo.wf(*g),
            it.lexer == lexer,
            it.ids@ == ids,
            ids == byte_ids(bytes@),
            it.bytes_consumed <= ids.len(),
            match lex_all(*g, lexer, ids, it.bytes_consumed as int, ws) {
                Ok(rest) => lex_all(*g, lexer, ids, 0, ws) == Ok::<Seq<Token>, NoToken>(out@.add(rest)),
                Err(e) => lex_all(*g, lexer, ids, 0, ws) == Err::<Seq<Token>, NoToken>(e),
            },
        decreases ids.len() - it.bytes_consumed,
    {
        let ghost pos = it.bytes_consumed as int;
        let step = it.next(g, memo);
        proof {
            assert(step == lex_step(*g, lexer, ids, pos));
        }
        match step {
            None => {
                proof {
                    assert(lex_all(*g, lexer, ids, pos, ws) == Ok::<Seq<Token>, NoToken>(Seq::empty()));
                    assert(out@.add(Seq::<Token>::empty()) =~= out@);
                    assert(lex_all(*g, lexer, ids, 0, ws) == Ok::<Seq<Token>, NoToken>(out@));
                }
                let r: Result<Vec<Token>, NoToken> = Ok(out);
                proof {
                    assert(ids == byte_ids(bytes@));
                    assert(1 <= ws < table.strings().len() && table.strings()[ws as int] == "WS"@ && match r {
                        Ok(v) => lex_all(*g, lexer, byte_ids(bytes@), 0, ws) == Ok::<Seq<Token>, NoToken>(v@),
                        Err(e) => lex_all(*g, lexer, byte_ids(bytes@), 0, ws) == Err::<Seq<Token>, NoToken>(e),
                    });
                }
                return r;
            },
            Some(Err(e)) => {
                proof {
                    assert(lex_all(*g, lexer, ids, pos, ws) == Err::<Seq<Token>, NoToken>(e));
                }
                let r: Result<Vec<Token>, NoToken> = Err(e);
                proof {
                    assert(ids == byte_ids(bytes@));
                    assert(1 <= ws < table.strings().len() && table.strings()[ws as int] == "WS"@ && match r {
                        Ok(v) => lex_all(*g, lexer, byte_ids(bytes@), 0, ws) == Ok::<Seq<Token>, NoToken>(v@),
                        Err(e) => lex_all(*g, lexer, byte_ids(bytes@), 0, ws) == Err::<Seq<Token>, NoToken>(e),
                    });
                }
                return r;
            },
            Some(Ok(t)) => {
                let ghost before = out@;
                if t.name != ws {
                    out.push(t);
                    proof {
                        let rest = lex_all(*g, lexer, ids, it.bytes_consumed as int, ws);
                        if let Ok(rs) = rest {
                            assert(before.add(seq![t].add(rs)) =~= out@.add(rs));
                        }
                    }
                }
            },
        }
    }
}


/// The symbol of `name` as a tag.
fn tag(table: &mut SymbolTable, name: &str) -> (r: Tag)
    requires
        old(table).wf(),
        old(table).strings().len() < usize::MAX,
    ensures
        final(table).wf(),
        old(table).strings().len() <= final(table).strings().len() <= old(table).strings().len() + 1,
        forall|k: int| 0 <= k < old(table).strings().len() ==> #[trigger] final(table).strings()[k] == old(table).strings()[k],
        r matches Some(s) && s < final(table).strings().len() && final(table).strings()[s as int] == name@,
{
    Some(table.get(name))
}

/// Adds `node` through the checked builder.
fn add_node(g: &mut Grammar, node: Node, Ghost(p): Ghost<Set<int>>) -> (id: usize)
    requires
        old(g).wf_pending(p),
        old(g).nodes@.len() < usize::MAX - 16,
        children_ok(node, old(g).nodes@.len() as int),
    ensures
        id == old(g).nodes@.len(),
        final(g).nodes@ == old(g).nodes@.push(node),
        final(g).rank@ == old(g).rank@.push(rank_need(*old(g), node) as usize),
        final(g).nullable@ == old(g).nullable@.push(nullable_rule_of(old(g).nullable@, node)),
        final(g).wf_pending(p),
{
    g.push_node(node, Ghost(p))
}

/// A reader of the byte `c`.
fn char_reader(g: &mut Grammar, c: u8, tag: Tag, Ghost(p): Ghost<Set<int>>) -> (id: usize)
    requires
        old(g).wf_pending(p),
        old(g).nodes@.len() < usize::MAX - 16,
    ensures
        id == old(g).nodes@.len(),
        final(g).nodes@ == old(g).nodes@.push(Node::Token(TokenReader { token_ref: c as usize, tag })),
        final(g).rank@ == old(g).rank@.push(0),
        final(g).nullable@ == old(g).nullable@.push(false),
        final(g).wf_pending(p),
{
    add_node(g, Node::Token(TokenReader::new(c as usize, tag)), Ghost(p))
}

/// A reader of the lexer token with index `tok`.
fn token_reader(g: &mut Grammar, tok: TokenId, Ghost(p): Ghost<Set<int>>) -> (id: usize)
    requires
        old(g).wf_pending(p),
        old(g).nodes@.len() < usize::MAX - 16,
    ensures
        id == old(g).nodes@.len(),
        final(g).nodes@ == old(g).nodes@.push(Node::Token(TokenReader { token_ref: tok, tag: None })),
        final(g).rank@ == old(g).rank@.push(0),
        final(g).nullable@ == old(g).nullable@.push(false),
        final(g).wf_pending(p),
{
    add_node(g, Node::Token(TokenReader::new(tok, None)), Ghost(p))
}

/// A reader of a class of bytes.
fn class_reader(g: &mut Grammar, bytes: Vec<TokenId>, tag: Tag, Ghost(p): Ghost<Set<int>>) -> (id: usize)
    requires
        old(g).wf_pending(p),
        old(g).nodes@.len() < usize::MAX - 16,
    ensures
        id == old(g).nodes@.len(),
        final(g).nodes@.len() == old(g).nodes@.len() + 1,
        final(g).nodes@[id as int] is Class,
        final(g).nodes@[id as int]->Class_0.tag == tag,
        forall|k: int| 0 <= k < old(g).nodes@.len() ==> #[trigger] final(g).nodes@[k] == old(g).nodes@[k],
        forall|k: int| 0 <= k < old(g).nodes@.len() ==> #[trigger] final(g).rank@[k] == old(g).rank@[k],
        forall|k: int| 0 <= k < old(g).nodes@.len() ==> #[trigger] final(g).nullable@[k] == old(g).nullable@[k],
        final(g).wf_pending(p),
{
    add_node(g, Node::Class(ConditionalTokenReader::inclusive(bytes, 256, tag)), Ghost(p))
}

/// A memoized reader of the bytes of `word`, in order.
fn str_reader(g: &mut Grammar, word: Vec<u8>, tag: Tag, Ghost(p): Ghost<Set<int>>) -> (id: usize)
    requires
        old(g).wf_pending(p),
        old(g).nodes@.len() < usize::MAX - 32,
        0 < word@.len() <= 8,
    ensures
        old(g).nodes@.len() < id < final(g).nodes@.len() <= old(g).nodes@.len() + 10,
        final(g).nodes@[id as int] == Node::Memo(Memoized { reader: (id - 1) as usize, nb: 256 }),
        final(g).nodes@[id - 1] is List,
        final(g).nodes@[id - 1]->List_0.tag == tag,
        forall|k: int| 0 <= k < old(g).nodes@.len() ==> #[trigger] final(g).nodes@[k] == old(g).nodes@[k],
        forall|k: int| 0 <= k < old(g).nodes@.len() ==> #[trigger] final(g).rank@[k] == old(g).rank@[k],
        forall|k: int| 0 <= k < old(g).nodes@.len() ==> #[trigger] final(g).nullable@[k] == old(g).nullable@[k],
        final(g).wf_pending(p),
{
    let start = g.nodes.len();
    let mut elts: Vec<usize> = Vec::new();
    let mut i: usize = 0;
    while i < word.len()
        invariant
            i <= word@.len(),
            0 < word@.len() <= 8,
            start == old(g).nodes@.len(),
            start < usize::MAX - 32,
            g.nodes@.len() == start + i,
            elts@.len() == i,
            forall|k: int| 0 <= k < i ==> #[trigger] elts@[k] < g.nodes@.len(),
            forall|k: int| 0 <= k < start ==> #[trigger] g.nodes@[k] == old(g).nodes@[k],
            forall|k: int| 0 <= k < start ==> #[trigger] g.rank@[k] == old(g).rank@[k],
            forall|k: int| 0 <= k < start ==> #[trigger] g.nullable@[k] == old(g).nullable@[k],
            g.wf_pending(p),
        decreases word.len() - i,
    {
        let c = char_reader(g, word[i], None, Ghost(p));
        elts.push(c);
        i = i + 1;
    }
    let l = add_node(g, Node::List(ListReader::new(elts, tag)), Ghost(p));
    add_node(g, Node::Memo(Memoized { reader: l, nb: 256 }), Ghost(p))
}

/// `g2` and `t2` extend `g1` and `t1`: nodes, marks, ranks and strings
/// already there stay.
pub open spec fn grows(g1: Grammar, g2: Grammar, t1: SymbolTable, t2: SymbolTable) -> bool {
    &&& g1.nodes@.len() <= g2.nodes@.len()
    &&& forall|k: int| 0 <= k < g1.nodes@.len() ==> #[trigger] g2.nodes@[k] == g1.nodes@[k]
    &&& forall|k: int| 0 <= k < g1.nodes@.len() ==> #[trigger] g2.rank@[k] == g1.rank@[k]
    &&& forall|k: int| 0 <= k < g1.nodes@.len() ==> #[trigger] g2.nullable@[k] == g1.nullable@[k]
    &&& t1.strings().len() <= t2.strings().len()
    &&& forall|k: int| 0 <= k < t1.strings().len() ==> #[trigger] t2.strings()[k] == t1.strings()[k]
}

/// The tag that node `n` carries itself, or through a memoization node over
/// an earlier sequence.
pub open spec fn own_tag(g: Grammar, n: usize) -> Tag {
    match g.nodes@[n as int] {
        Node::Token(x) => x.tag,
        Node::Class(c) => c.tag,
        Node::List(l) => l.tag,
        Node::Switch(sw) => sw.tag,
        Node::Memo(m) => if m.reader < n {
            match g.nodes@[m.reader as int] {
                Node::List(l) => l.tag,
                _ => None,
            }
        } else {
            None
        },
        _ => None,
    }
}

/// Node `n` exists and carries a tag naming `name`.
pub open spec fn named(g: Grammar, t: SymbolTable, n: usize, name: Seq<char>) -> bool {
    n < g.nodes@.len() && match own_tag(g, n) {
        Some(s) => s < t.strings().len() && t.strings()[s as int] == name,
        None => false,
    }
}

proof fn lemma_named_grows(g1: Grammar, g2: Grammar, t1: SymbolTable, t2: SymbolTable, n: usize, name: Seq<char>)
    requires
        grows(g1, g2, t1, t2),
        named(g1, t1, n, name),
    ensures
        named(g2, t2, n, name),
{
    if let Node::Memo(m) = g1.nodes@[n as int] {
        assert(g2.nodes@[m.reader as int] == g1.nodes@[m.reader as int]);
    }
}

proof fn lemma_named_tag(g: Grammar, t: SymbolTable, n: usize, name: Seq<char>)
    requires
        g.wf(),
        named(g, t, n, name),
    ensures
        node_tag(g, n) == own_tag(g, n),
{
    assert(g.node_ok(n as int));
    if let Node::Memo(m) = g.nodes@[n as int] {
        assert(g.node_ok(m.reader as int));
        assert(node_tag(g, n) == node_tag(g, m.reader));
        if let Node::List(l) = g.nodes@[m.reader as int] {
            assert(node_tag(g, m.reader) == l.tag);
        }
    }
}

/// The six punctuation readers `{ } , : [ ]`, each tagged with its byte.
fn punctuation(g: &mut Grammar, table: &mut SymbolTable, Ghost(p): Ghost<Set<int>>) -> (v: Vec<usize>)
    requires
        old(g).wf_pending(p),
        old(g).nodes@.len() < usize::MAX - 64,
        old(table).wf(),
        old(table).strings().len() < usize::MAX - 16,
    ensures
        final(g).wf_pending(p),
        final(table).wf(),
        grows(*old(g), *final(g), *old(table), *final(table)),
        final(g).nodes@.len() <= old(g).nodes@.len() + 6,
        final(table).strings().len() <= old(table).strings().len() + 6,
        v@.len() == 6,
        named(*final(g), *final(table), v@[0], "{"@),
        named(*final(g), *final(table), v@[1], "}"@),
        named(*final(g), *final(table), v@[2], ","@),
        named(*final(g), *final(table), v@[3], ":"@),
        named(*final(g), *final(table), v@[4], "["@),
        named(*final(g), *final(table), v@[5], "]"@),
{
    let t = tag(table, "{");
    let a = char_reader(g, 123, t, Ghost(p));
    let t = tag(table, "}");
    let b = char_reader(g, 125, t, Ghost(p));
    let t = tag(table, ",");
    let c = char_reader(g, 44, t, Ghost(p));
    let t = tag(table, ":");
    let d = char_reader(g, 58, t, Ghost(p));
    let t = tag(table, "[");
    let e = char_reader(g, 91, t, Ghost(p));
    let t = tag(table, "]");
    let f = char_reader(g, 93, t, Ghost(p));
    vec![a, b, c, d, e, f]
}

/// The keyword readers `true false null`, each tagged with its word.
fn keywords(g: &mut Grammar, table: &mut SymbolTable, Ghost(p): Ghost<Set<int>>) -> (v: Vec<usize>)
    requires
        old(g).wf_pending(p),
        old(g).nodes@.len() < usize::MAX - 64,
        old(table).wf(),
        old(table).strings().len() < usize::MAX - 16,
    ensures
        final(g).wf_pending(p),
        final(table).wf(),
        grows(*old(g), *final(g), *old(table), *final(table)),
        final(g).nodes@.len() <= old(g).nodes@.len() + 30,
        final(table).strings().len() <= old(table).strings().len() + 3,
        v@.len() == 3,
        named(*final(g), *final(table), v@[0], "true"@),
        named(*final(g), *final(table), v@[1], "false"@),
        named(*final(g), *final(table), v@[2], "null"@),
{
    let t = tag(table, "true");
    let a = str_reader(g, vec![116, 114, 117, 101], t, Ghost(p));
    let t = tag(table, "false");
    let b = str_reader(g, vec![102, 97, 108, 115, 101], t, Ghost(p));
    let t = tag(table, "null");
    let c = str_reader(g, vec![110, 117, 108, 108], t, Ghost(p));
    vec![a, b, c]
}

/// The readers of white space, numbers and strings, tagged `WS`, `NUMBER`
/// and `STRING`.
#[verifier::rlimit(100)]
#[verifier::spinoff_prover]
fn ws_number_string(g: &mut Grammar, table: &mut SymbolTable, Ghost(p): Ghost<Set<int>>) -> (v: Vec<usize>)
    requires
        old(g).wf_pending(p),
        old(g).nodes@.len() < usize::MAX - 64,
        old(table).wf(),
        old(table).strings().len() < usize::MAX - 16,
    ensures
        final(g).wf_pending(p),
        final(table).wf(),
        grows(*old(g), *final(g), *old(table), *final(table)),
        final(g).nodes@.len() <= old(g).nodes@.len() + 30,
        final(table).strings().len() <= old(table).strings().len() + 3,
        v@.len() == 3,
        named(*final(g), *final(table), v@[0], "WS"@),
        named(*final(g), *final(table), v@[1], "NUMBER"@),
        named(*final(g), *final(table), v@[2], "STRING"@),
{
    let t_ws = tag(table, "WS");
    let ws = class_reader(g, vec![32, 9, 10, 13], t_ws, Ghost(p));
    let digit = class_reader(g, vec![48, 49, 50, 51, 52, 53, 54, 55, 56, 57], None, Ghost(p));
    let digits = add_node(g, Node::Loop(LoopReader::new(digit, Policy::Longest, LoopOrdering::Increasing, None)), Ghost(p));
    let integer = add_node(g, Node::List(ListReader::new(vec![digit, digits], None)), Ghost(p));
    let e = class_reader(g, vec![101, 69], None, Ghost(p));
    let sign = class_reader(g, vec![43, 45], None, Ghost(p));
    let opt_sign = add_node(g, Node::Optional(OptionalReader::new(sign)), Ghost(p));
    let exp = add_node(g, Node::List(ListReader::new(vec![e, opt_sign, integer], None)), Ghost(p));
    let minus = char_reader(g, 45, None, Ghost(p));
    let opt_minus = add_node(g, Node::Optional(OptionalReader::new(minus)), Ghost(p));
    let dot = char_reader(g, 46, None, Ghost(p));
    let frac = add_node(g, Node::List(ListReader::new(vec![dot, integer], None)), Ghost(p));
    let opt_frac = add_node(g, Node::Optional(OptionalReader::new(frac)), Ghost(p));
    let opt_exp = add_node(g, Node::Optional(OptionalReader::new(exp)), Ghost(p));
    let t_number = tag(table, "NUMBER");
    let number = add_node(
        g,
        Node::List(ListReader::new(vec![opt_minus, integer, opt_frac, opt_exp], t_number)),
        Ghost(p),
    );
    let hex = class_reader(
        g,
        vec![48, 49, 50, 51, 52, 53, 54, 55, 56, 57, 65, 66, 67, 68, 69, 70, 97, 98, 99, 100, 101, 102],
        None,
        Ghost(p),
    );
    let u = char_reader(g, 117, None, Ghost(p));
    let unicode = add_node(g, Node::List(ListReader::new(vec![u, hex, hex, hex, hex], None)), Ghost(p));
    let escaped = class_reader(g, vec![34, 92, 110, 116], None, Ghost(p));
    let esc_body = add_node(
        g,
        Node::Switch(SwitchReader_::new(vec![escaped, unicode], Policy::Longest, None)),
        Ghost(p),
    );
    let backslash = char_reader(g, 92, None, Ghost(p));
    let esc = add_node(g, Node::List(ListReader::new(vec![backslash, esc_body], None)), Ghost(p));
    let plain = add_node(g, Node::Class(ConditionalTokenReader::exclude(vec![92, 34], 256, None)), Ghost(p));
    let str_char = add_node(g, Node::Switch(SwitchReader_::new(vec![esc, plain], Policy::Longest, None)), Ghost(p));
    let str_chars = add_node(
        g,
        Node::Loop(LoopReader::new(str_char, Policy::Longest, LoopOrdering::Increasing, None)),
        Ghost(p),
    );
    let double_quote = char_reader(g, 34, None, Ghost(p));
    let t_string = tag(table, "STRING");
    let string = add_node(
        g,
        Node::List(ListReader::new(vec![double_quote, str_chars, double_quote], t_string)),
        Ghost(p),
    );
    vec![ws, number, string]
}

/// The twelve token readers of the lexer, in order, with their names.
pub open spec fn lexer_cases_named(g: Grammar, t: SymbolTable, cases: Seq<usize>) -> bool {
    &&& cases.len() == 12
    &&& named(g, t, cases[0], "{"@)
    &&& named(g, t, cases[1], "}"@)
    &&& named(g, t, cases[2], ","@)
    &&& named(g, t, cases[3], ":"@)
    &&& named(g, t, cases[4], "["@)
    &&& named(g, t, cases[5], "]"@)
    &&& named(g, t, cases[6], "true"@)
    &&& named(g, t, cases[7], "false"@)
    &&& named(g, t, cases[8], "null"@)
    &&& named(g, t, cases[9], "WS"@)
    &&& named(g, t, cases[10], "NUMBER"@)
    &&& named(g, t, cases[11], "STRING"@)
}

/// Node `lexer` is a memoization node over a choice among the twelve token
/// readers.
pub open spec fn lexer_shape(g: Grammar, t: SymbolTable, lexer: usize) -> bool {
    &&& lexer < g.nodes@.len()
    &&& g.nodes@[lexer as int] is Memo
    &&& g.nodes@[lexer as int]->Memo_0.reader < lexer
    &&& g.nodes@[g.nodes@[lexer as int]->Memo_0.reader as int] is Switch
    &&& lexer_cases_named(g, t, g.nodes@[g.nodes@[lexer as int]->Memo_0.reader as int]->Switch_0.cases@)
}

proof fn lemma_cases_grows(g1: Grammar, g2: Grammar, t1: SymbolTable, t2: SymbolTable, cs: Seq<usize>)
    requires
        grows(g1, g2, t1, t2),
        lexer_cases_named(g1, t1, cs),
    ensures
        lexer_cases_named(g2, t2, cs),
{
    lemma_named_grows(g1, g2, t1, t2, cs[0], "{"@);
    lemma_named_grows(g1, g2, t1, t2, cs[1], "}"@);
    lemma_named_grows(g1, g2, t1, t2, cs[2], ","@);
    lemma_named_grows(g1, g2, t1, t2, cs[3], ":"@);
    lemma_named_grows(g1, g2, t1, t2, cs[4], "["@);
    lemma_named_grows(g1, g2, t1, t2, cs[5], "]"@);
    lemma_named_grows(g1, g2, t1, t2, cs[6], "true"@);
    lemma_named_grows(g1, g2, t1, t2, cs[7], "false"@);
    lemma_named_grows(g1, g2, t1, t2, cs[8], "null"@);
    lemma_named_grows(g1, g2, t1, t2, cs[9], "WS"@);
    lemma_named_grows(g1, g2, t1, t2, cs[10], "NUMBER"@);
    lemma_named_grows(g1, g2, t1, t2, cs[11], "STRING"@);
}

proof fn lemma_lexer_grows(g1: Grammar, g2: Grammar, t1: SymbolTable, t2: SymbolTable, lexer: usize)
    requires
        grows(g1, g2, t1, t2),
        lexer_shape(g1, t1, lexer),
    ensures
        lexer_shape(g2, t2, lexer),
{
    let lc = g1.nodes@[lexer as int]->Memo_0.reader;
    assert(g2.nodes@[lc as int] == g1.nodes@[lc as int]);
    lemma_cases_grows(g1, g2, t1, t2, g1.nodes@[lc as int]->Switch_0.cases@);
}

/// The lexer: a memoization node over the choice among the twelve token
/// readers.
fn lexer(g: &mut Grammar, table: &mut SymbolTable, Ghost(p): Ghost<Set<int>>) -> (lexer: usize)
    requires
        old(g).wf_pending(p),
        old(g).nodes@.len() < usize::MAX - 256,
        old(table).wf(),
        old(table).strings().len() < usize::MAX - 32,
    ensures
        final(g).wf_pending(p),
        final(table).wf(),
        grows(*old(g), *final(g), *old(table), *final(table)),
        final(g).nodes@.len() <= old(g).nodes@.len() + 80,
        final(table).strings().len() <= old(table).strings().len() + 12,
        lexer_shape(*final(g), *final(table), lexer),
{
    let ghost g0 = *g;
    let ghost t0 = *table;
    let a = punctuation(g, table, Ghost(p));
    let ghost g1 = *g;
    let ghost t1 = *table;
    let b = keywords(g, table, Ghost(p));
    let ghost g2 = *g;
    let ghost t2 = *table;
    let c = ws_number_string(g, table, Ghost(p));
    let cases = vec![a[0], a[1], a[2], a[3], a[4], a[5], b[0], b[1], b[2], c[0], c[1], c[2]];
    let ghost g3 = *g;
    let ghost t3 = *table;
    proof {
        lemma_named_grows(g1, g2, t1, t2, a@[0], "{"@);
        lemma_named_grows(g1, g2, t1, t2, a@[1], "}"@);
        lemma_named_grows(g1, g2, t1, t2, a@[2], ","@);
        lemma_named_grows(g1, g2, t1, t2, a@[3], ":"@);
        lemma_named_grows(g1, g2, t1, t2, a@[4], "["@);
        lemma_named_grows(g1, g2, t1, t2, a@[5], "]"@);
        assert(grows(g1, g3, t1, t3));
        lemma_named_grows(g2, g3, t2, t3, a@[0], "{"@);
        lemma_named_grows(g2, g3, t2, t3, a@[1], "}"@);
        lemma_named_grows(g2, g3, t2, t3, a@[2], ","@);
        lemma_named_grows(g2, g3, t2, t3, a@[3], ":"@);
        lemma_named_grows(g2, g3, t2, t3, a@[4], "["@);
        lemma_named_grows(g2, g3, t2, t3, a@[5], "]"@);
        lemma_named_grows(g2, g3, t2, t3, b@[0], "true"@);
        lemma_named_grows(g2, g3, t2, t3, b@[1], "false"@);
        lemma_named_grows(g2, g3, t2, t3, b@[2], "null"@);
        assert(lexer_cases_named(g3, t3, cases@));
    }
    let ghost cs = cases@;
    let lc = add_node(g, Node::Switch(SwitchReader_::new(cases, Policy::Longest, None)), Ghost(p));
    let lexer = add_node(g, Node::Memo(Memoized { reader: lc, nb: 256 }), Ghost(p));
    proof {
        assert(grows(g3, *g, t3, *table));
        lemma_cases_grows(g3, *g, t3, *table, cs);
        assert(g.nodes@[lc as int]->Switch_0.cases@ == cs);
        assert(grows(g0, *g, t0, *table));
    }
    lexer
}

/// The containers `[ value, ... ]` and `{ STRING : value, ... }` over the
/// pending reference cell `value`, tagged `array` and `obj`.
#[verifier::rlimit(100)]
#[verifier::spinoff_prover]
fn containers(g: &mut Grammar, table: &mut SymbolTable, value: usize, Ghost(p): Ghost<Set<int>>) -> (r: (
    usize,
    usize,
))
    requires
        old(g).wf_pending(p),
        p.contains(value as int),
        old(g).nodes@.len() < usize::MAX - 256,
        old(table).wf(),
        old(table).strings().len() < usize::MAX - 16,
    ensures
        final(g).wf_pending(p),
        final(table).wf(),
        grows(*old(g), *final(g), *old(table), *final(table)),
        final(g).nodes@.len() <= old(g).nodes@.len() + 32,
        final(table).strings().len() <= old(table).strings().len() + 3,
        named(*final(g), *final(table), r.0, "obj"@),
        named(*final(g), *final(table), r.1, "array"@),
        final(g).rank@[r.0 as int] == 1,
        final(g).rank@[r.1 as int] == 1,
        !final(g).nullable@[r.0 as int],
        !final(g).nullable@[r.1 as int],
{
    let t_left_bracket = token_reader(g, 4, Ghost(p));
    let t_comma1 = token_reader(g, 2, Ghost(p));
    let more_values_item = add_node(g, Node::List(ListReader::new(vec![t_comma1, value], None)), Ghost(p));
    let more_values = add_node(
        g,
        Node::Loop(LoopReader::new(more_values_item, Policy::Longest, LoopOrdering::Increasing, None)),
        Ghost(p),
    );
    let values = add_node(g, Node::List(ListReader::new(vec![value, more_values], None)), Ghost(p));
    let opt_values = add_node(g, Node::Optional(OptionalReader::new(values)), Ghost(p));
    let t_right_bracket = token_reader(g, 5, Ghost(p));
    let t_array = tag(table, "array");
    let elts = vec![t_left_bracket, opt_values, t_right_bracket];
    assert(win_rank(*g, elts@, 0) == 1);
    let array = add_node(g, Node::List(ListReader::new(elts, t_array)), Ghost(p));
    let ghost ga = *g;
    let ghost ta = *table;
    let t_str = token_reader(g, 11, Ghost(p));
    let t_colon1 = token_reader(g, 3, Ghost(p));
    let t_pair = tag(table, "pair");
    let pair = add_node(g, Node::List(ListReader::new(vec![t_str, t_colon1, value], t_pair)), Ghost(p));
    let t_left_brace = token_reader(g, 0, Ghost(p));
    let t_comma2 = token_reader(g, 2, Ghost(p));
    let more_pairs_item = add_node(g, Node::List(ListReader::new(vec![t_comma2, pair], None)), Ghost(p));
    let more_pairs_loop = add_node(
        g,
        Node::Loop(LoopReader::new(more_pairs_item, Policy::Longest, LoopOrdering::Increasing, None)),
        Ghost(p),
    );
    let more_pairs = add_node(g, Node::Memo(Memoized { reader: more_pairs_loop, nb: 12 }), Ghost(p));
    let pairs = add_node(g, Node::List(ListReader::new(vec![pair, more_pairs], None)), Ghost(p));
    let opt_pairs = add_node(g, Node::Optional(OptionalReader::new(pairs)), Ghost(p));
    let t_right_brace = token_reader(g, 1, Ghost(p));
    let t_obj = tag(table, "obj");
    let elts = vec![t_left_brace, opt_pairs, t_right_brace];
    assert(win_rank(*g, elts@, 0) == 1);
    let obj = add_node(g, Node::List(ListReader::new(elts, t_obj)), Ghost(p));
    proof {
        lemma_named_grows(ga, *g, ta, *table, array, "array"@);
    }
    (obj, array)
}

/// Case `i` of the choice that `n` stands for is a node tagged with `name`.
pub open spec fn case_named(g: Grammar, table: SymbolTable, n: usize, i: usize, name: Seq<char>) -> bool {
    match case_tag(g, n, i) {
        Some(s) => s < table.strings().len() && table.strings()[s as int] == name,
        None => false,
    }
}

/// Case `i` of the choice that `n` stands for reads the lexer token `tok`.
pub open spec fn case_reads(g: Grammar, n: usize, i: usize, tok: TokenId) -> bool {
    match switch_builder_of(g, n, i) {
        Some(SwitchBuilder::Case(c, _)) => c < g.nodes@.len() && g.nodes@[c as int] == Node::Token(
            TokenReader { token_ref: tok, tag: None },
        ),
        _ => false,
    }
}

/// The choice that `n` stands for has exactly `k` cases and is tagged `name`.
pub open spec fn choice_named(g: Grammar, table: SymbolTable, n: usize, k: usize, name: Seq<char>) -> bool {
    &&& switch_builder_of(g, n, k) is None
    &&& match switch_builder_of(g, n, 0) {
        Some(SwitchBuilder::Case(_, Some(s))) => s < table.strings().len() && table.strings()[s as int] == name,
        _ => false,
    }
}

proof fn lemma_lexer_named(g: Grammar, t: SymbolTable, lexer: usize)
    requires
        g.wf(),
        lexer_shape(g, t, lexer),
    ensures
        case_named(g, t, lexer, 0, "{"@),
        case_named(g, t, lexer, 1, "}"@),
        case_named(g, t, lexer, 2, ","@),
        case_named(g, t, lexer, 3, ":"@),
        case_named(g, t, lexer, 4, "["@),
        case_named(g, t, lexer, 5, "]"@),
        case_named(g, t, lexer, 6, "true"@),
        case_named(g, t, lexer, 7, "false"@),
        case_named(g, t, lexer, 8, "null"@),
        case_named(g, t, lexer, 9, "WS"@),
        case_named(g, t, lexer, 10, "NUMBER"@),
        case_named(g, t, lexer, 11, "STRING"@),
        switch_builder_of(g, lexer, 12) is None,
{
    assert(g.node_ok(lexer as int));
    let lc = g.nodes@[lexer as int]->Memo_0.reader;
    assert(g.node_ok(lc as int));
    let cs = g.nodes@[lc as int]->Switch_0.cases@;
    let sw = g.nodes@[lc as int]->Switch_0;
    assert forall|i: usize| i < 12 implies switch_builder_of(g, lexer, i) == Some(
        SwitchBuilder::Case(cs[i as int], sw.tag),
    ) by {
        assert(switch_builder_of(g, lexer, i) == switch_builder_of(g, lc, i));
    }
    assert(switch_builder_of(g, lexer, 12) == switch_builder_of(g, lc, 12));
    lemma_named_tag(g, t, cs[0], "{"@);
    lemma_named_tag(g, t, cs[1], "}"@);
    lemma_named_tag(g, t, cs[2], ","@);
    lemma_named_tag(g, t, cs[3], ":"@);
    lemma_named_tag(g, t, cs[4], "["@);
    lemma_named_tag(g, t, cs[5], "]"@);
    lemma_named_tag(g, t, cs[6], "true"@);
    lemma_named_tag(g, t, cs[7], "false"@);
    lemma_named_tag(g, t, cs[8], "null"@);
    lemma_named_tag(g, t, cs[9], "WS"@);
    lemma_named_tag(g, t, cs[10], "NUMBER"@);
    lemma_named_tag(g, t, cs[11], "STRING"@);
}

/// A JSON grammar in one arena: a lexer over bytes, whose cases are the
/// tokens `{ } , : [ ] true false null WS NUMBER STRING` in this order, each
/// tagged with its name, and a grammar of values over the indices of those
/// tokens. Returns the grammar, the lexer and the value node: a reference
/// cell patched to the choice `value` over STRING, NUMBER, `obj`, `array`,
/// true, false and null.
#[verifier::rlimit(100)]
#[verifier::spinoff_prover]
pub fn json_grammar(table: &mut SymbolTable) -> (r: Option<(Grammar, usize, usize)>)
    requires
        old(table).wf(),
        old(table).strings().len() < usize::MAX - 32,
    ensures
        final(table).wf(),
        r is Some,
        r matches Some((g, lexer, json)) && {
            let t = *final(table);
            &&& g.wf()
            &&& lexer < g.nodes@.len()
            &&& json < g.nodes@.len()
            &&& case_named(g, t, lexer, 0, "{"@)
            &&& case_named(g, t, lexer, 1, "}"@)
            &&& case_named(g, t, lexer, 2, ","@)
            &&& case_named(g, t, lexer, 3, ":"@)
            &&& case_named(g, t, lexer, 4, "["@)
            &&& case_named(g, t, lexer, 5, "]"@)
            &&& case_named(g, t, lexer, 6, "true"@)
            &&& case_named(g, t, lexer, 7, "false"@)
            &&& case_named(g, t, lexer, 8, "null"@)
            &&& case_named(g, t, lexer, 9, "WS"@)
            &&& case_named(g, t, lexer, 10, "NUMBER"@)
            &&& case_named(g, t, lexer, 11, "STRING"@)
            &&& switch_builder_of(g, lexer, 12) is None
            &&& g.nodes@[json as int] is Ref
            &&& choice_named(g, t, json, 7, "value"@)
            &&& case_reads(g, json, 0, 11)
            &&& case_reads(g, json, 1, 10)
            &&& case_named(g, t, json, 2, "obj"@)
            &&& case_named(g, t, json, 3, "array"@)
            &&& case_reads(g, json, 4, 6)
            &&& case_reads(g, json, 5, 7)
            &&& case_reads(g, json, 6, 8)
        },
{
    let ghost p = Set::<int>::empty();
    let mut g = Grammar::new();
    let lexer = lexer(&mut g, table, Ghost(p));
    let ghost gl = g;
    let ghost tl = *table;
    let value = g.push_ref(3, Ghost(p));
    let ghost p1 = p.insert(value as int);
    let (obj, array) = containers(&mut g, table, value, Ghost(p1));
    let ghost gc = g;
    let ghost tc = *table;
    let v_string = token_reader(&mut g, 11, Ghost(p1));
    let v_number = token_reader(&mut g, 10, Ghost(p1));
    let v_true = token_reader(&mut g, 6, Ghost(p1));
    let v_false = token_reader(&mut g, 7, Ghost(p1));
    let v_null = token_reader(&mut g, 8, Ghost(p1));
    let t_value = tag(table, "value");
    let cases = vec![v_string, v_number, obj, array, v_true, v_false, v_null];
    proof {
        reveal_with_fuel(cases_rank, 8);
        assert(cases_rank(g, cases@, 0) == 2);
    }
    let value_cases = add_node(&mut g, Node::Switch(SwitchReader_::new(cases, Policy::Longest, t_value)), Ghost(p1));
    let ghost gs = g;
    g.set_pending(value, value_cases, Ghost(p1));
    proof {
        assert(p1.remove(value as int) =~= Set::<int>::empty());
        g.lemma_wf_pending_empty();
        let t = *table;
        assert(grows(gc, gs, tc, t));
        lemma_named_grows(gc, gs, tc, t, obj, "obj"@);
        lemma_named_grows(gc, gs, tc, t, array, "array"@);
        assert(grows(gl, g, tl, t));
        lemma_lexer_grows(gl, g, tl, t, lexer);
        lemma_lexer_named(g, t, lexer);
        assert(g.node_ok(value as int));
        assert(g.node_ok(value_cases as int));
        let cs = g.nodes@[value_cases as int]->Switch_0.cases@;
        assert forall|i: usize| i < 7 implies switch_builder_of(g, value, i) == Some(
            SwitchBuilder::Case(cs[i as int], t_value),
        ) by {
            assert(switch_builder_of(g, value, i) == switch_builder_of(g, value_cases, i));
        }
        assert(switch_builder_of(g, value, 7) == switch_builder_of(g, value_cases, 7));
        assert(named(g, t, obj, "obj"@));
        assert(named(g, t, array, "array"@));
        lemma_named_tag(g, t, obj, "obj"@);
        lemma_named_tag(g, t, array, "array"@);
    }
    Some((g, lexer, value))
}

/// The identities of the tokens `toks`.
pub open spec fn token_ids(toks: Seq<Token>) -> Seq<TokenId> {
    Seq::new(toks.len(), |i: int| toks[i].id)
}

/// The positions `0..n`, the leaves of a tree over a list of `n` tokens.
pub open spec fn positions(n: nat) -> Seq<usize> {
    Seq::new(n, |i: int| i as usize)
}

/// What parsing the tokens `toks` from node `json` and rebuilding the tree
/// over their positions gives: the tokens and the tree when the parse
/// accepts a prefix and the tokens cover its trace, nothing otherwise.
pub open spec fn parsed_tree(g: Grammar, json: usize, toks: Seq<Token>, r: Option<(Vec<Token>, Tree<usize>)>) -> bool {
    match parse_spec(g, token_ids(toks), json).success {
        Some(tr) => if token_endings(*tr) <= toks.len() {
            r matches Some((v, tree)) && v@ == toks && tree_view(tree) == build(g, json, *tr, positions(toks.len()), 0).0
        } else {
            r is None
        },
        None => r is None,
    }
}

/// Lexes `bytes` with `lexer`, dropping white space, parses the tokens from
/// node `json`, and rebuilds the tree of the longest accepted prefix, whose
/// leaves are positions in the token list.
pub fn lex_parse_build(
    g: &Grammar,
    memo: &mut MemoTable,
    lexer: usize,
    json: usize,
    bytes: &[u8],
    table: &mut SymbolTable,
) -> (r: Option<(Vec<Token>, Tree<usize>)>)
    requires
        g.wf(),
        old(memo).wf(*g),
        lexer < g.nodes@.len(),
        json < g.nodes@.len(),
        old(table).wf(),
        old(table).strings().len() < usize::MAX,
    ensures
        final(memo).wf(*g),
        final(table).wf(),
        exists|ws: Symbol|
            1 <= ws < final(table).strings().len() && final(table).strings()[ws as int] == "WS"@ && match lex_all(
                *g,
                lexer,
                byte_ids(bytes@),
                0,
                ws,
            ) {
                Ok(toks) => parsed_tree(*g, json, toks, r),
                Err(_) => r is None,
            },
{
    let res = tokenize_to_vec(g, memo, bytes, lexer, table);
    let ghost ws = choose|ws: Symbol|
        1 <= ws < table.strings().len() && table.strings()[ws as int] == "WS"@ && match res {
            Ok(v) => lex_all(*g, lexer, byte_ids(bytes@), 0, ws) == Ok::<Seq<Token>, NoToken>(v@),
            Err(e) => lex_all(*g, lexer, byte_ids(bytes@), 0, ws) == Err::<Seq<Token>, NoToken>(e),
        };
    let toks = match res {
        Ok(t) => t,
        Err(_) => {
            return None;
        },
    };
    let n = toks.len();
    let mut ids: Vec<TokenId> = Vec::new();
    let mut positions_v: Vec<usize> = Vec::new();
    let mut i: usize = 0;
    while i < n
        invariant
            i <= n,
            n == toks@.len(),
            ids@ == token_ids(toks@).take(i as int),
            positions_v@ == positions(n as nat).take(i as int),
        decreases n - i,
    {
        ids.push(toks[i].id);
        positions_v.push(i);
        i = i + 1;
        proof {
            assert(ids@ =~= token_ids(toks@).take(i as int));
            assert(positions_v@ =~= positions(n as nat).take(i as int));
        }
    }
    proof {
        assert(ids@ =~= token_ids(toks@));
        assert(positions_v@ =~= positions(n as nat));
    }
    let p = parse(g, memo, ids.as_slice(), json);
    let r = match p.success {
        None => None,
        Some(tr) => match endings_within(&*tr, n) {
            None => None,
            Some(_) => {
                let tree = tree_from_trace(g, json, &tr, positions_v.as_slice());
                Some((toks, tree))
            },
        },
    };
    r
}

} // verus!
