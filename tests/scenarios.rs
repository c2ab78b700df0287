use derivparse::grammar::{
    ConditionalTokenReader, Grammar, ListReader, LoopOrdering, LoopReader, Node, OptionalReader,
    RefReader, SwitchReader_, TokenReader,
};
use derivparse::lexer::tokenize;
use derivparse::list::List;
use derivparse::parser::parse;
use derivparse::reader::{rc_reader, MemoTable};
use derivparse::symbols::SymbolTable;
use derivparse::traces::{Policy, Trace};
use derivparse::trees::{tree_from_trace, Tree};

fn ids(s: &str) -> Vec<usize> {
    s.bytes().map(|b| b as usize).collect()
}

fn token(g: &mut Grammar, c: u8) -> usize {
    rc_reader(g, Node::Token(TokenReader::new(c as usize, None)))
}

fn word(g: &mut Grammar, w: &str, tag: Option<usize>) -> usize {
    let elts: Vec<usize> = w.bytes().map(|b| token(g, b)).collect();
    rc_reader(g, Node::List(ListReader::new(elts, tag)))
}

fn leaf_count(t: &Tree<usize>) -> usize {
    match t {
        Tree::Nil => 0,
        Tree::Leaf(..) => 1,
        Tree::Node(kids, _) => kids.iter().map(leaf_count).sum(),
    }
}

#[test]
fn parentheses_round_trip() {
    let mut g = Grammar::new();
    let open = token(&mut g, b'(');
    let close = token(&mut g, b')');
    let root = rc_reader(&mut g, Node::List(ListReader::new(vec![open, close], None)));
    assert!(g.freeze());
    let mut memo = MemoTable::new(&g);
    let input = ids("()");
    let res = parse(&g, &mut memo, &input, root);
    assert_eq!(res.success_len, 2);
    assert_eq!(res.nb_tokens_read, 2);
    assert!(res.is_complete());
    let tree = tree_from_trace(&g, root, res.success.as_ref().unwrap(), &input);
    match tree {
        Tree::Node(kids, None) => {
            assert_eq!(kids.len(), 2);
            assert!(matches!(kids[0], Tree::Leaf(40, None)));
            assert!(matches!(kids[1], Tree::Leaf(41, None)));
        }
        _ => panic!("expected a node"),
    }
}

#[test]
fn digits_then_no_token() {
    let mut table = SymbolTable::new();
    let number_tag = table.get("NUMBER");
    let mut g = Grammar::new();
    let digit = rc_reader(
        &mut g,
        Node::Class(ConditionalTokenReader::inclusive((48..58).collect(), 256, None)),
    );
    let more = rc_reader(
        &mut g,
        Node::Loop(LoopReader::new(digit, Policy::Longest, LoopOrdering::Increasing, None)),
    );
    let number = rc_reader(&mut g, Node::List(ListReader::new(vec![digit, more], Some(number_tag))));
    let lexer = rc_reader(&mut g, Node::Switch(SwitchReader_::new(vec![number], Policy::Longest, None)));
    assert!(g.freeze());
    let mut memo = MemoTable::new(&g);
    let mut it = tokenize("123a".as_bytes(), lexer);
    let first = it.next(&g, &mut memo).unwrap();
    let tok = match first {
        Ok(t) => t,
        Err(_) => panic!("expected a token"),
    };
    assert_eq!(tok.start, 0);
    assert_eq!(tok.stop, 3);
    assert_eq!(tok.name, number_tag);
    assert_eq!(table.val(tok.name), "NUMBER");
    match it.next(&g, &mut memo).unwrap() {
        Err(e) => {
            assert_eq!(e.start, 3);
            assert_eq!(e.stop, 4);
        }
        Ok(_) => panic!("expected no token"),
    }
}

#[test]
fn true_or_false_choice() {
    let mut g = Grammar::new();
    let t = word(&mut g, "true", None);
    let f = word(&mut g, "false", None);
    let root = rc_reader(&mut g, Node::Switch(SwitchReader_::new(vec![t, f], Policy::Longest, None)));
    assert!(g.freeze());
    let mut memo = MemoTable::new(&g);
    let res = parse(&g, &mut memo, &ids("true"), root);
    assert_eq!(res.success_len, 4);
    let trace = res.success.unwrap();
    assert!(matches!(*trace, List::Cons(Trace::Switch(0, Policy::Longest), _)));
    let res = parse(&g, &mut memo, &ids("false"), root);
    assert_eq!(res.success_len, 5);
    assert!(matches!(*res.success.unwrap(), List::Cons(Trace::Switch(1, Policy::Longest), _)));
}

#[test]
fn recursive_array_of_literals() {
    let mut table = SymbolTable::new();
    let array_tag = table.get("array");
    let literal_tag = table.get("literal");
    let object_tag = table.get("object");
    let mut g = Grammar::new();
    let value = rc_reader(&mut g, Node::Ref(RefReader::new()));
    let lbrace = token(&mut g, b'{');
    let rbrace = token(&mut g, b'}');
    let object = rc_reader(&mut g, Node::List(ListReader::new(vec![lbrace, rbrace], Some(object_tag))));
    let literal = rc_reader(
        &mut g,
        Node::Class(ConditionalTokenReader::inclusive((48..58).collect(), 256, Some(literal_tag))),
    );
    let lbracket = token(&mut g, b'[');
    let rbracket = token(&mut g, b']');
    let comma = token(&mut g, b',');
    let next = rc_reader(&mut g, Node::List(ListReader::new(vec![comma, value], None)));
    let nexts = rc_reader(
        &mut g,
        Node::Loop(LoopReader::new(next, Policy::Longest, LoopOrdering::Increasing, None)),
    );
    let values = rc_reader(&mut g, Node::List(ListReader::new(vec![value, nexts], None)));
    let opt_values = rc_reader(&mut g, Node::Optional(OptionalReader::new(values)));
    let array = rc_reader(
        &mut g,
        Node::List(ListReader::new(vec![lbracket, opt_values, rbracket], Some(array_tag))),
    );
    let cases = rc_reader(
        &mut g,
        Node::Switch(SwitchReader_::new(vec![object, array, literal], Policy::Longest, None)),
    );
    RefReader::set(&mut g, value, cases);
    assert!(g.freeze());
    let mut memo = MemoTable::new(&g);
    let input = ids("[1,2]");
    let res = parse(&g, &mut memo, &input, value);
    assert_eq!(res.success_len, 5);
    let tree = tree_from_trace(&g, value, res.success.as_ref().unwrap(), &input);
    assert_eq!(tree.tag(), Some(array_tag));
    let tagged = tree.tagged();
    assert_eq!(tagged.len(), 2);
    assert!(matches!(tagged[0], Tree::Leaf(49, Some(t)) if *t == literal_tag));
    assert!(matches!(tagged[1], Tree::Leaf(50, Some(t)) if *t == literal_tag));
    assert_eq!(leaf_count(&tree), 5);
}

#[test]
fn optional_minus_then_digit() {
    let mut g = Grammar::new();
    let minus = token(&mut g, b'-');
    let opt = rc_reader(&mut g, Node::Optional(OptionalReader::new(minus)));
    let digit = rc_reader(
        &mut g,
        Node::Class(ConditionalTokenReader::inclusive((48..58).collect(), 256, None)),
    );
    let root = rc_reader(&mut g, Node::List(ListReader::new(vec![opt, digit], None)));
    assert!(g.freeze());
    let mut memo = MemoTable::new(&g);
    let with = ids("-5");
    let res = parse(&g, &mut memo, &with, root);
    assert_eq!(res.success_len, 2);
    let tree = tree_from_trace(&g, root, res.success.as_ref().unwrap(), &with);
    match tree {
        Tree::Node(kids, _) => {
            assert!(matches!(kids[0], Tree::Leaf(45, None)));
            assert!(matches!(kids[1], Tree::Leaf(53, None)));
        }
        _ => panic!("expected a node"),
    }
    let without = ids("5");
    let res = parse(&g, &mut memo, &without, root);
    assert_eq!(res.success_len, 1);
    let tree = tree_from_trace(&g, root, res.success.as_ref().unwrap(), &without);
    match tree {
        Tree::Node(kids, _) => {
            assert!(matches!(kids[0], Tree::Nil));
            assert!(matches!(kids[1], Tree::Leaf(53, None)));
        }
        _ => panic!("expected a node"),
    }
}
