use derivparse::grammar::{
    ConditionalTokenReader, Grammar, ListReader, LoopOrdering, LoopReader, Node, OptionalReader,
    SwitchReader_, TokenReader,
};
use derivparse::list::List;
use derivparse::parser::parse;
use derivparse::reader::{rc_memo_reader, rc_reader, MemoTable};
use derivparse::traces::{Policy, Trace};
use derivparse::trees::{tree_from_trace, Tree};

fn bytes(s: &str) -> Vec<usize> {
    s.bytes().map(|b| b as usize).collect()
}

fn tok(g: &mut Grammar, c: u8) -> usize {
    rc_reader(g, Node::Token(TokenReader::new(c as usize, None)))
}

fn seq_of(g: &mut Grammar, w: &str) -> usize {
    let elts: Vec<usize> = w.bytes().map(|b| tok(g, b)).collect();
    rc_reader(g, Node::List(ListReader::new(elts, None)))
}

#[test]
fn prefix_is_accepted_alone() {
    let mut g = Grammar::new();
    let root = seq_of(&mut g, "ab");
    assert!(g.freeze());
    let mut memo = MemoTable::new(&g);
    let long = parse(&g, &mut memo, &bytes("abx"), root);
    assert_eq!(long.success_len, 2);
    assert_eq!(long.nb_tokens_read, 3);
    assert!(!long.is_complete());
    let short = parse(&g, &mut memo, &bytes("ab"), root);
    assert_eq!(short.success_len, 2);
    assert_eq!(short.success, long.success);
}

#[test]
fn memoized_grammar_parses_alike() {
    let mut plain = Grammar::new();
    let a = tok(&mut plain, b'a');
    let b = tok(&mut plain, b'b');
    let body = rc_reader(&mut plain, Node::Switch(SwitchReader_::new(vec![a, b], Policy::Longest, None)));
    let root = rc_reader(
        &mut plain,
        Node::Loop(LoopReader::new(body, Policy::Longest, LoopOrdering::Increasing, None)),
    );
    assert!(plain.freeze());

    let mut cached = Grammar::new();
    let a = tok(&mut cached, b'a');
    let b = tok(&mut cached, b'b');
    let body = rc_memo_reader(
        &mut cached,
        Node::Switch(SwitchReader_::new(vec![a, b], Policy::Longest, None)),
        256,
    );
    let memo_root = rc_memo_reader(
        &mut cached,
        Node::Loop(LoopReader::new(body, Policy::Longest, LoopOrdering::Increasing, None)),
        256,
    );
    assert!(cached.freeze());

    let mut m1 = MemoTable::new(&plain);
    let mut m2 = MemoTable::new(&cached);
    for input in ["abba", "aab", "abc", ""] {
        let toks = bytes(input);
        let r1 = parse(&plain, &mut m1, &toks, root);
        let r2 = parse(&cached, &mut m2, &toks, memo_root);
        let r3 = parse(&cached, &mut m2, &toks, memo_root);
        assert_eq!(r1.success, r2.success);
        assert_eq!(r1.success_len, r2.success_len);
        assert_eq!(r1.nb_tokens_read, r2.nb_tokens_read);
        assert_eq!(r2.success, r3.success);
        assert_eq!(r2.success_len, r3.success_len);
    }
}

#[test]
fn memoized_token_reads_alike() {
    let mut g = Grammar::new();
    let class = rc_memo_reader(
        &mut g,
        Node::Class(ConditionalTokenReader::inclusive(vec![120, 121], 256, None)),
        256,
    );
    assert!(g.freeze());
    let mut memo = MemoTable::new(&g);
    for _ in 0..2 {
        let hit = parse(&g, &mut memo, &bytes("y"), class);
        assert_eq!(hit.success_len, 1);
        assert_eq!(hit.success, Some(std::rc::Rc::new(List::Nil(derivparse::traces::TraceEnding::Token))));
        let miss = parse(&g, &mut memo, &bytes("z"), class);
        assert!(miss.success.is_none());
        assert_eq!(miss.nb_tokens_read, 1);
    }
}

#[test]
fn tree_rebuilt_twice_is_equal() {
    let mut g = Grammar::new();
    let minus = tok(&mut g, b'-');
    let opt = rc_reader(&mut g, Node::Optional(OptionalReader::new(minus)));
    let digit = tok(&mut g, b'7');
    let root = rc_reader(&mut g, Node::List(ListReader::new(vec![opt, digit], Some(3))));
    assert!(g.freeze());
    let mut memo = MemoTable::new(&g);
    let input = bytes("-7");
    let res = parse(&g, &mut memo, &input, root);
    let trace = res.success.unwrap();
    let t1 = tree_from_trace(&g, root, &trace, &input);
    let t2 = tree_from_trace(&g, root, &trace, &input);
    assert_eq!(t1, t2);
    assert_eq!(t1, Tree::Node(vec![Tree::Leaf(45, None), Tree::Leaf(55, None)], Some(3)));
}

fn a_or_aa_loop(policy: Policy) -> (Grammar, usize) {
    let mut g = Grammar::new();
    let a = tok(&mut g, b'a');
    let aa = seq_of(&mut g, "aa");
    let body = rc_reader(&mut g, Node::Switch(SwitchReader_::new(vec![a, aa], Policy::Longest, None)));
    let root = rc_reader(
        &mut g,
        Node::Loop(LoopReader::new(body, policy, LoopOrdering::Increasing, Some(9))),
    );
    assert!(g.freeze());
    (g, root)
}

#[test]
fn longest_keeps_one_more_iteration() {
    let (g, root) = a_or_aa_loop(Policy::Longest);
    let mut memo = MemoTable::new(&g);
    let input = bytes("aa");
    let res = parse(&g, &mut memo, &input, root);
    assert_eq!(res.success_len, 2);
    let tree = tree_from_trace(&g, root, res.success.as_ref().unwrap(), &input);
    assert_eq!(tree, Tree::Node(vec![Tree::Leaf(97, None), Tree::Leaf(97, None)], Some(9)));
}

#[test]
fn shortest_keeps_the_extended_iteration() {
    let (g, root) = a_or_aa_loop(Policy::Shortest);
    let mut memo = MemoTable::new(&g);
    let input = bytes("aa");
    let res = parse(&g, &mut memo, &input, root);
    assert_eq!(res.success_len, 2);
    let tree = tree_from_trace(&g, root, res.success.as_ref().unwrap(), &input);
    assert_eq!(
        tree,
        Tree::Node(vec![Tree::Node(vec![Tree::Leaf(97, None), Tree::Leaf(97, None)], None)], Some(9))
    );
}

#[test]
fn decreasing_loop_negates_the_index() {
    let mut g = Grammar::new();
    let a = tok(&mut g, b'a');
    let root = rc_reader(
        &mut g,
        Node::Loop(LoopReader::new(a, Policy::Longest, LoopOrdering::Decreasing, None)),
    );
    assert!(g.freeze());
    let mut memo = MemoTable::new(&g);
    let one = parse(&g, &mut memo, &bytes("a"), root);
    assert!(matches!(*one.success.unwrap(), List::Cons(Trace::Switch(0, Policy::Longest), _)));
    let two = parse(&g, &mut memo, &bytes("aa"), root);
    assert!(matches!(*two.success.unwrap(), List::Cons(Trace::Switch(usize::MAX, Policy::Longest), _)));
    let three = parse(&g, &mut memo, &bytes("aaa"), root);
    assert!(matches!(
        *three.success.unwrap(),
        List::Cons(Trace::Switch(i, Policy::Longest), _) if i == usize::MAX - 1
    ));
}
