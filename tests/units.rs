use derivparse::grammar::{
    ConditionalTokenReader, EpsilonReader, Grammar, ListReader, LoopOrdering, LoopReader, Node,
    OptionalReader, RefReader, SwitchReader_, TokenReader,
};
use derivparse::reader::rc_memo_reader;
use derivparse::traces::Policy;
use derivparse::trees::{switch_builder, SwitchBuilder};
use derivparse::json::{json_grammar, lex_parse_build, tokenize_to_vec};
use derivparse::list::{push, List};
use derivparse::parser::parse;
use derivparse::reader::{epsilon, rc_reader, MemoTable, ReadingResult};
use derivparse::symbols::SymbolTable;
use derivparse::traces::{epsilon_trace, stacked_trace, token_trace, StackedReader, Trace, TraceEnding};
use derivparse::trees::{tree_from_trace, Tree};
use std::rc::Rc;

#[test]
fn symbols_are_interned_once() {
    let mut table = SymbolTable::new();
    let a = table.get("a");
    let b = table.get("b");
    assert_eq!(a, 1);
    assert_eq!(b, 2);
    assert_eq!(table.get("a"), a);
    assert_eq!(table.val(a), "a");
    assert_eq!(table.val(b), "b");
    assert_eq!(table.val(0), "");
}

#[test]
fn class_tables() {
    let inc = ConditionalTokenReader::inclusive(vec![1, 3], 5, None);
    assert_eq!(inc.matching, vec![false, true, false, true, false]);
    let exc = ConditionalTokenReader::exclude(vec![1, 3], 5, Some(2));
    assert_eq!(exc.matching, vec![true, false, true, false, true]);
    assert_eq!(exc.tag, Some(2));
    let ok = ConditionalTokenReader::success();
    assert_eq!(ok.success, Some(token_trace()));
    assert!(ok.ongoing.is_none());
    let ko = ConditionalTokenReader::fail();
    assert!(ko.success.is_none() && ko.ongoing.is_none());
    let none = ReadingResult::none();
    assert!(none.success.is_none() && none.ongoing.is_none());
}

#[test]
fn class_rejects_ids_beyond_its_table() {
    let mut g = Grammar::new();
    let class = rc_reader(&mut g, Node::Class(ConditionalTokenReader::exclude(vec![], 4, None)));
    assert!(g.freeze());
    let mut memo = MemoTable::new(&g);
    assert_eq!(parse(&g, &mut memo, &[3], class).success_len, 1);
    assert!(parse(&g, &mut memo, &[4], class).success.is_none());
}

#[test]
fn unpatched_reference_is_refused() {
    let mut g = Grammar::new();
    let r = rc_reader(&mut g, Node::Ref(RefReader::new()));
    let a = rc_reader(&mut g, Node::Token(TokenReader::new(97, None)));
    let _ = rc_reader(&mut g, Node::List(ListReader::new(vec![a, r], None)));
    assert!(!g.freeze());
    RefReader::set(&mut g, r, a);
    assert!(g.freeze());
}

#[test]
fn left_recursion_is_refused() {
    let mut g = Grammar::new();
    let r = rc_reader(&mut g, Node::Ref(RefReader::new()));
    let a = rc_reader(&mut g, Node::Token(TokenReader::new(97, None)));
    let l = rc_reader(&mut g, Node::List(ListReader::new(vec![r, a], None)));
    RefReader::set(&mut g, r, l);
    assert!(!g.freeze());
}

#[test]
fn empty_sequence_is_refused() {
    let mut g = Grammar::new();
    let _ = rc_reader(&mut g, Node::List(ListReader::new(vec![], None)));
    assert!(!g.freeze());
}

#[test]
fn epsilon_results() {
    let mut g = Grammar::new();
    let e = rc_reader(&mut g, Node::Epsilon(EpsilonReader {}));
    let a = rc_reader(&mut g, Node::Token(TokenReader::new(97, None)));
    let opt = rc_reader(&mut g, Node::Optional(OptionalReader::new(a)));
    assert!(g.freeze());
    let mut memo = MemoTable::new(&g);
    let r = epsilon(&g, &mut memo, e);
    assert_eq!(r.success, Some(epsilon_trace()));
    assert!(r.ongoing.is_none());
    let r = epsilon(&g, &mut memo, a);
    assert!(r.success.is_none());
    assert!(r.ongoing.is_some());
    let r = epsilon(&g, &mut memo, opt);
    assert_eq!(
        r.success,
        Some(Rc::new(List::Cons(Trace::Switch(0, Policy::Longest), epsilon_trace())))
    );
    assert!(r.ongoing.is_some());
}

#[test]
fn two_optionals_in_a_row() {
    let mut g = Grammar::new();
    let a = rc_reader(&mut g, Node::Token(TokenReader::new(97, None)));
    let b = rc_reader(&mut g, Node::Token(TokenReader::new(98, None)));
    let c = rc_reader(&mut g, Node::Token(TokenReader::new(99, None)));
    let oa = rc_reader(&mut g, Node::Optional(OptionalReader::new(a)));
    let ob = rc_reader(&mut g, Node::Optional(OptionalReader::new(b)));
    let root = rc_reader(&mut g, Node::List(ListReader::new(vec![oa, ob, c], None)));
    assert!(g.freeze());
    let mut memo = MemoTable::new(&g);
    for (input, leaves) in [("c", 1usize), ("ac", 2), ("bc", 2), ("abc", 3)] {
        let toks: Vec<usize> = input.bytes().map(|x| x as usize).collect();
        let res = parse(&g, &mut memo, &toks, root);
        assert_eq!(res.success_len, toks.len());
        let tree = tree_from_trace(&g, root, res.success.as_ref().unwrap(), &toks);
        assert_eq!(tree.leaves().len(), leaves);
    }
    let res = parse(&g, &mut memo, &[98, 97, 99], root);
    assert_eq!(res.success_len, 0);
    assert!(res.success.is_none());
}

#[test]
fn stacked_accumulator() {
    let empty: StackedReader = StackedReader::without_parent();
    assert!(empty.is_nil());
    let one = StackedReader::new(Rc::new(empty), token_trace());
    assert_eq!(one.len(), 1);
    assert_eq!(one.peek(), Some(&token_trace()));
    let closed = stacked_trace(Rc::new(one));
    assert!(matches!(&*closed, List::Cons(Trace::Tmp(_), _)));
    let l: Rc<List<usize, ()>> = Rc::new(List::Nil(()));
    let l = push(&push(&l, 1), 2);
    assert_eq!(l.len(), 2);
    assert_eq!(l.get(0), Some(&2));
    assert_eq!(l.get(1), Some(&1));
    assert_eq!(l.get(2), None);
    assert_eq!(*token_trace(), List::Nil(TraceEnding::Token));
}

#[test]
fn json_tokens_and_tree() {
    let mut table = SymbolTable::new();
    let (g, lexer, json) = json_grammar(&mut table).unwrap();
    let mut memo = MemoTable::new(&g);
    let toks = match tokenize_to_vec(&g, &mut memo, "[1, 2]".as_bytes(), lexer, &mut table) {
        Ok(t) => t,
        Err(_) => panic!("expected tokens"),
    };
    let ids: Vec<usize> = toks.iter().map(|t| t.id).collect();
    assert_eq!(ids, vec![4, 10, 2, 10, 5]);
    assert_eq!(table.val(toks[1].name), "NUMBER");
    assert_eq!((toks[3].start, toks[3].stop), (4, 5));
    let res = parse(&g, &mut memo, &ids, json);
    assert_eq!(res.success_len, 5);
    let tree = tree_from_trace(&g, json, res.success.as_ref().unwrap(), &ids);
    assert_eq!(table.val(tree.tag().unwrap()), "value");
    let inner = tree.tagged();
    assert_eq!(inner.len(), 1);
    assert_eq!(table.val(inner[0].tag().unwrap()), "array");
    let parts = inner[0].tagged_and_leaves();
    assert_eq!(parts.len(), 5);
    assert!(matches!(parts[0], Tree::Leaf(4, None)));
    assert_eq!(table.val(parts[1].tag().unwrap()), "value");
}

#[test]
fn json_lexer_reports_bad_byte() {
    let mut table = SymbolTable::new();
    let (g, lexer, _) = json_grammar(&mut table).unwrap();
    let mut memo = MemoTable::new(&g);
    match tokenize_to_vec(&g, &mut memo, "[tru]".as_bytes(), lexer, &mut table) {
        Ok(_) => panic!("expected no token"),
        Err(e) => {
            assert_eq!(e.start, 1);
            assert_eq!(e.stop, 5);
        }
    }
}

#[test]
fn list_cursor_walks_from_head() {
    let l: Rc<List<usize, ()>> = Rc::new(List::Nil(()));
    let l = push(&push(&push(&l, 3), 2), 1);
    let mut it = l.iter();
    assert_eq!(it.next(), Some(&1));
    assert_eq!(it.next(), Some(&2));
    assert_eq!(it.next(), Some(&3));
    assert_eq!(it.next(), None);
    assert_eq!(it.next(), None);
}

#[test]
fn choice_markers_resolve_through_wrappers() {
    let mut g = Grammar::new();
    let a = rc_reader(&mut g, Node::Token(TokenReader::new(97, Some(5))));
    let b = rc_reader(&mut g, Node::Token(TokenReader::new(98, None)));
    let sw = rc_memo_reader(&mut g, Node::Switch(SwitchReader_::new(vec![a, b], Policy::Shortest, Some(7))), 256);
    let r = rc_reader(&mut g, Node::Ref(RefReader::new()));
    RefReader::set(&mut g, r, sw);
    let lp = rc_reader(&mut g, Node::Loop(LoopReader::new(a, Policy::Longest, LoopOrdering::Increasing, None)));
    assert!(g.freeze());
    assert!(matches!(switch_builder(&g, r, 1), Some(SwitchBuilder::Case(x, Some(7))) if x == b));
    assert!(matches!(switch_builder(&g, sw, 0), Some(SwitchBuilder::Case(x, Some(7))) if x == a));
    assert!(switch_builder(&g, sw, 2).is_none());
    assert!(matches!(switch_builder(&g, lp, 4), Some(SwitchBuilder::Loop)));
    assert!(switch_builder(&g, a, 0).is_none());
    assert_eq!(derivparse::trees::tag(&g, r), Some(7));
}

#[test]
fn pop_shares_the_tail() {
    let base: Rc<List<usize, u8>> = Rc::new(List::Nil(7));
    let l = push(&push(&base, 2), 1);
    let (tail, head) = l.pop().unwrap();
    assert_eq!(*head, 1);
    assert_eq!(tail.peek(), Some(&2));
    let (rest, second) = tail.pop().unwrap();
    assert_eq!(*second, 2);
    assert!(rest.is_nil());
    assert!(rest.pop().is_none());
    assert_eq!(*rest, List::Nil(7));
}

#[test]
fn empty_match_is_no_token() {
    let mut g = Grammar::new();
    let a = rc_reader(&mut g, Node::Token(TokenReader::new(97, Some(1))));
    let many = rc_reader(
        &mut g,
        Node::Loop(LoopReader::new(a, Policy::Longest, LoopOrdering::Increasing, None)),
    );
    let lexer = rc_reader(&mut g, Node::Switch(SwitchReader_::new(vec![many], Policy::Longest, None)));
    assert!(g.freeze());
    let mut memo = MemoTable::new(&g);
    let mut it = derivparse::lexer::tokenize("aab".as_bytes(), lexer);
    match it.next(&g, &mut memo) {
        Some(Ok(t)) => {
            assert_eq!((t.start, t.stop, t.id), (0, 2, 0));
            assert_eq!(t.name, 0);
        }
        _ => panic!("expected a token"),
    }
    match it.next(&g, &mut memo) {
        Some(Err(e)) => assert_eq!((e.start, e.stop), (2, 3)),
        _ => panic!("expected no token"),
    }
    assert_eq!(it.bytes_consumed, 2);
    let mut done = derivparse::lexer::tokenize("".as_bytes(), lexer);
    assert!(done.next(&g, &mut memo).is_none());
}

#[test]
fn json_lex_parse_build() {
    let mut table = SymbolTable::new();
    let (g, lexer, json) = json_grammar(&mut table).unwrap();
    let mut memo = MemoTable::new(&g);
    let (toks, tree) = lex_parse_build(&g, &mut memo, lexer, json, "[1,2]".as_bytes(), &mut table).unwrap();
    assert_eq!(toks.len(), 5);
    assert_eq!(table.val(tree.tag().unwrap()), "value");
    let leaves: Vec<usize> = tree
        .leaves()
        .iter()
        .map(|t| match t {
            Tree::Leaf(p, _) => *p,
            _ => usize::MAX,
        })
        .collect();
    assert_eq!(leaves, vec![0, 1, 2, 3, 4]);
    let array = tree.tagged();
    assert_eq!(table.val(array[0].tag().unwrap()), "array");
    let values = array[0].tagged();
    assert_eq!(values.len(), 2);
    assert_eq!(table.val(values[0].tag().unwrap()), "value");
    assert!(lex_parse_build(&g, &mut memo, lexer, json, "[1,".as_bytes(), &mut table).is_none());
    assert!(lex_parse_build(&g, &mut memo, lexer, json, "[1 @".as_bytes(), &mut table).is_none());
}

#[test]
fn json_lexer_case_names() {
    let mut table = SymbolTable::new();
    let (g, lexer, json) = json_grammar(&mut table).unwrap();
    let names = ["{", "}", ",", ":", "[", "]", "true", "false", "null", "WS", "NUMBER", "STRING"];
    for (i, name) in names.iter().enumerate() {
        match switch_builder(&g, lexer, i) {
            Some(SwitchBuilder::Case(c, None)) => {
                assert_eq!(table.val(derivparse::trees::tag(&g, c).unwrap()), *name)
            }
            _ => panic!("expected a case"),
        }
    }
    assert!(switch_builder(&g, lexer, 12).is_none());
    assert!(switch_builder(&g, json, 6).is_some());
    assert!(switch_builder(&g, json, 7).is_none());
}
