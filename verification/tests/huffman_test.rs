use cshannon::code::Letter;
use cshannon::encoding::from_pairs;
use cshannon::encoding::huffman::{
    build_tree, letters, new, read_letter, ConcreteNode, Forest, Node, Parent,
};
use cshannon::model;
use cshannon::tokens::test_utils::I32Token;

#[test]
fn huffman_empty() {
    assert!(new(model::with_frequencies::<I32Token>(&[]))
        .unwrap()
        .alphabet()
        .is_empty());
}

#[test]
fn two_tokens() {
    let m = model::with_frequencies(&[(I32Token(1), 4), (I32Token(2), 3)]);
    let t = new(m).unwrap();
    assert_eq!(t.alphabet().len(), 2);
    let want = from_pairs(&[
        (I32Token(1), Letter::new(&[0b1000_0000], 1)),
        (I32Token(2), Letter::new(&[0b0100_0000], 2)),
    ])
    .unwrap();
    assert_eq!(t, want);
}

#[test]
fn three_tokens_huge_first() {
    let m = model::with_frequencies(&[(I32Token(1), 40), (I32Token(2), 3), (I32Token(3), 2)]);
    let t = new(m).unwrap();
    assert_eq!(t.alphabet().len(), 3);
    let want = from_pairs(&[
        (I32Token(1), Letter::new(&[0b1000_0000], 1)),
        (I32Token(2), Letter::new(&[0b0100_0000], 2)),
        (I32Token(3), Letter::new(&[0b0010_0000], 3)),
    ])
    .unwrap();
    assert_eq!(t, want);
}

#[test]
fn three_tokens_similar() {
    let m = model::with_frequencies(&[(I32Token(1), 4), (I32Token(2), 3), (I32Token(3), 2)]);
    let t = new(m).unwrap();
    assert_eq!(t.alphabet().len(), 3);
    let want = from_pairs(&[
        (I32Token(1), Letter::new(&[0b0100_0000], 2)),
        (I32Token(2), Letter::new(&[0b1100_0000], 2)),
        (I32Token(3), Letter::new(&[0b1000_0000], 2)),
    ])
    .unwrap();
    assert_eq!(t, want);
}

#[test]
fn four_tokens_balanced_tree() {
    let m = model::with_frequencies(&[
        (I32Token(1), 5),
        (I32Token(2), 4),
        (I32Token(3), 3),
        (I32Token(4), 2),
    ]);
    let t = new(m).unwrap();
    assert_eq!(t.alphabet().len(), 4);
    let want = from_pairs(&[
        (I32Token(1), Letter::new(&[0b1100_0000], 2)),
        (I32Token(2), Letter::new(&[0b1000_0000], 2)),
        (I32Token(3), Letter::new(&[0b0100_0000], 2)),
        (I32Token(4), Letter::new(&[0b0010_0000], 3)),
    ])
    .unwrap();
    assert_eq!(t, want);
}

#[test]
fn huffman_one_token() {
    let m = model::with_frequencies(&[(I32Token(7), 3)]);
    let t = new(m).unwrap();
    assert_eq!(
        t.map(),
        &vec![(I32Token(7), Letter::new(&[0b1000_0000], 1))]
    );
}

#[test]
fn huffman_ties() {
    // Of roots with the same value the lower one is taken first, and of
    // those of the same height the one that has waited longest.
    assert_eq!(
        letters(&vec![1, 1, 1, 1]),
        vec![
            Letter::new(&[0b0010_0000], 3),
            Letter::new(&[0b0100_0000], 2),
            Letter::new(&[0b1000_0000], 2),
            Letter::new(&[0b1100_0000], 2),
        ]
    );
    assert_eq!(
        letters(&vec![2, 1, 1]),
        vec![
            Letter::new(&[0b0100_0000], 2),
            Letter::new(&[0b1000_0000], 2),
            Letter::new(&[0b1100_0000], 2),
        ]
    );
}

#[test]
fn huffman_tree_nodes() {
    let forest = build_tree(&vec![5, 4, 3, 2]);
    assert_eq!(forest.nodes.len(), 7);
    assert_eq!(
        forest.nodes[3],
        ConcreteNode {
            parent: Some(Parent::Zero(Node(4))),
            value: 2,
            height: 0
        }
    );
    assert_eq!(
        forest.nodes[2],
        ConcreteNode {
            parent: Some(Parent::One(Node(4))),
            value: 3,
            height: 0
        }
    );
    assert_eq!(
        forest.nodes[4],
        ConcreteNode {
            parent: Some(Parent::Zero(Node(6))),
            value: 5,
            height: 1
        }
    );
    assert_eq!(
        forest.nodes[6],
        ConcreteNode {
            parent: None,
            value: 14,
            height: 2
        }
    );
    assert_eq!(Node(3).parent(&forest), Some(Parent::Zero(Node(4))));
    assert_eq!(Parent::One(Node(4)).into_node(), Node(4));
    assert_eq!(read_letter(&forest, Node(0)), Letter::new(&[0b1100_0000], 2));
    assert_eq!(read_letter(&forest, Node(3)), Letter::new(&[0b0010_0000], 3));
}

#[test]
fn huffman_node_with_children() {
    let mut forest = Forest { nodes: Vec::new() };
    let a = Node::new(&mut forest, 3);
    let b = Node::new(&mut forest, 9);
    let c = Node::with_children(&mut forest, &a, &b);
    assert_eq!(c, Node(2));
    assert_eq!(a.parent(&forest), Some(Parent::Zero(c)));
    assert_eq!(b.parent(&forest), Some(Parent::One(c)));
    assert_eq!(c.parent(&forest), None);
    assert_eq!(
        forest.nodes[2],
        ConcreteNode {
            parent: None,
            value: 12,
            height: 1
        }
    );
    let d = Node::new(&mut forest, 1);
    let e = Node::with_children(&mut forest, &d, &c);
    assert_eq!(forest.nodes[e.0].height, 2);
    assert_eq!(forest.nodes[e.0].value, 13);
    assert!(forest.nodes[d.0].before(&forest.nodes[a.0]));
    assert!(forest.nodes[a.0].before(&forest.nodes[c.0]));
    assert!(!forest.nodes[c.0].before(&forest.nodes[c.0]));
}
