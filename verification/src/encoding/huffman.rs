//! Create a new [Huffman encoding].
//!
//! [Huffman encoding]: https://en.wikipedia.org/wiki/Huffman_coding

use crate::assoc::{entry_views, spec_keys};
use crate::code::alphabet::{all_wf, countable, valid_code, views};
use crate::code::bits::{all_zero, is_prefix};
use crate::code::letter::Letter;
use crate::encoding::{from_letters, spec_by_letter, spec_zip, Encoding};
use crate::error::Error;
use crate::model::{freqs_of, lemma_sorted, spec_freqs, spec_sorted, Model};
use crate::sums::{lemma_sum_nonnegative, lemma_sum_push, lemma_sum_remove, sum};
use crate::tokens::Token;
use vstd::prelude::*;

verus! {

/// A node of the Huffman forest, by its place in the forest.
#[derive(Clone, Copy, Debug, PartialEq, Eq)]
pub struct Node(pub usize);

/// The node above a node, and the bit that leads from there to the node.
#[derive(Clone, Copy, Debug, PartialEq, Eq)]
pub enum Parent {
    Zero(Node),
    One(Node),
}

/// What the forest holds of a node.
#[derive(Clone, Copy, Debug, PartialEq, Eq)]
pub struct ConcreteNode {
    pub parent: Option<Parent>,
    pub value: u64,
    pub height: usize,
}

/// The nodes of the trees that the Huffman scheme grows, leaves first.
#[derive(Clone, Debug, PartialEq, Eq)]
pub struct Forest {
    pub nodes: Vec<ConcreteNode>,
}

impl Parent {
    /// The node above.
    pub open spec fn spec_node(self) -> Node {
        match self {
            Parent::Zero(n) => n,
            Parent::One(n) => n,
        }
    }

    /// The bit that leads down from the node above.
    pub open spec fn spec_bit(self) -> bool {
        self is One
    }

    /// The node above.
    pub fn into_node(self) -> (n: Node)
        ensures
            n == self.spec_node(),
    {
        match self {
            Parent::Zero(n) => n,
            Parent::One(n) => n,
        }
    }
}

/// The order in which the scheme takes nodes: smaller value first, and
/// of equal values the lower node first, which keeps the tree flat.
pub open spec fn spec_before(a: ConcreteNode, b: ConcreteNode) -> bool {
    a.value < b.value || (a.value == b.value && a.height < b.height)
}

/// The position in `queue` of the node to take next: the first of those
/// that no other comes before.
pub open spec fn spec_min_pos(nodes: Seq<ConcreteNode>, queue: Seq<Node>) -> int
    decreases queue.len(),
{
    if queue.len() <= 1 {
        0
    } else {
        let best = spec_min_pos(nodes, queue.drop_last());
        if spec_before(nodes[queue.last().0 as int], nodes[queue[best].0 as int]) {
            queue.len() - 1
        } else {
            best
        }
    }
}

/// The queue without the node at place `i`.
#[verifier::opaque]
pub open spec fn spec_without(queue: Seq<Node>, i: int) -> Seq<Node> {
    queue.remove(i)
}

/// The forest with a new node above `zero` and `one`.
pub open spec fn spec_with_children(nodes: Seq<ConcreteNode>, zero: Node, one: Node) -> Seq<
    ConcreteNode,
> {
    let z = nodes[zero.0 as int];
    let o = nodes[one.0 as int];
    let top = Node(nodes.len() as usize);
    let height = if z.height >= o.height {
        z.height + 1
    } else {
        o.height + 1
    };
    nodes.update(
        zero.0 as int,
        ConcreteNode { parent: Some(Parent::Zero(top)), value: z.value, height: z.height },
    ).update(
        one.0 as int,
        ConcreteNode { parent: Some(Parent::One(top)), value: o.value, height: o.height },
    ).push(
        ConcreteNode { parent: None, value: (z.value + o.value) as u64, height: height as usize },
    )
}

/// The forest and the queue of its roots after the scheme has merged
/// trees until one is left: each time the two roots first in order are
/// taken from the queue, the first as the `zero` child and the second as
/// the `one` child of a new root, which joins the queue at its end.
pub open spec fn spec_merged(nodes: Seq<ConcreteNode>, queue: Seq<Node>) -> Seq<ConcreteNode>
    decreases queue.len(),
{
    if queue.len() <= 1 {
        nodes
    } else {
        let i = spec_min_pos(nodes, queue);
        let zero = queue[i];
        let rest = spec_without(queue, i);
        let j = spec_min_pos(nodes, rest);
        let one = rest[j];
        let top = Node(nodes.len() as usize);
        proof {
            lemma_min_pos(nodes, queue);
            lemma_without(queue, i);
            lemma_min_pos(nodes, rest);
            lemma_without(rest, j);
        }
        spec_merged(spec_with_children(nodes, zero, one), spec_without(rest, j).push(top))
    }
}

/// A forest of leaves, one for each of `freqs`, in their order.
pub open spec fn spec_leaves(freqs: Seq<u64>) -> Seq<ConcreteNode> {
    Seq::new(freqs.len(), |i: int| ConcreteNode { parent: None, value: freqs[i], height: 0 })
}

/// The nodes with the places `0` up to `n`, in their order.
pub open spec fn spec_first_nodes(n: nat) -> Seq<Node> {
    Seq::new(n, |i: int| Node(i as usize))
}

/// The Huffman tree for leaves with the values `freqs`.
pub open spec fn spec_tree(freqs: Seq<u64>) -> Seq<ConcreteNode> {
    spec_merged(spec_leaves(freqs), spec_first_nodes(freqs.len()))
}

/// Whether each node of `nodes` that has a node above it has it at a later
/// place of `nodes`.
pub open spec fn upward(nodes: Seq<ConcreteNode>) -> bool {
    forall|i: int|
        0 <= i < nodes.len() ==> match (#[trigger] nodes[i]).parent {
            None => true,
            Some(p) => i < p.spec_node().0 < nodes.len(),
        }
}

/// The bits on the way down from the root of its tree to the node at
/// place `i`.
pub open spec fn spec_path(nodes: Seq<ConcreteNode>, i: int) -> Seq<bool>
    decreases nodes.len() - i,
{
    if 0 <= i < nodes.len() {
        match nodes[i].parent {
            None => Seq::empty(),
            Some(p) => if i < p.spec_node().0 < nodes.len() {
                spec_path(nodes, p.spec_node().0 as int).push(p.spec_bit())
            } else {
                Seq::empty()
            },
        }
    } else {
        Seq::empty()
    }
}

/// The letter for a path: the path itself, or the path with a `1` bit at
/// its end where the path holds no `1` bit.
pub open spec fn spec_fixed(path: Seq<bool>) -> Seq<bool> {
    if all_zero(path) {
        path.push(true)
    } else {
        path
    }
}

/// The letter of the leaf at place `i` of a tree.
pub open spec fn spec_letter(nodes: Seq<ConcreteNode>, i: int) -> Seq<bool> {
    spec_fixed(spec_path(nodes, i))
}

/// The letters of the Huffman code for tokens with the frequencies `freqs`,
/// in the order of the tokens.
pub open spec fn spec_letters(freqs: Seq<u64>) -> Seq<Seq<bool>> {
    Seq::new(freqs.len(), |i: int| spec_letter(spec_tree(freqs), i))
}

/// The bits of the steps of a way up, in the order of the way down.
pub open spec fn spec_bits_down(path: Seq<Parent>) -> Seq<bool> {
    Seq::new(path.len(), |k: int| path[path.len() - 1 - k].spec_bit())
}

/// Create a new Huffman encoding: the tokens of the model, from the most
/// frequent on, get the letters of the leaves of the Huffman tree for
/// their frequencies.
///
/// Fails with [`Error::TooManyTokens`] where the tree for the tokens would
/// have more nodes than can be counted.
pub fn new<T: Token>(m: Model<T>) -> (res: Result<Encoding<T>, Error>)
    requires
        m.wf(),
    ensures
        2 * m.spec_entries().len() <= usize::MAX ==> res is Ok && res->Ok_0.wf()
            && res->Ok_0.spec_map() == spec_by_letter(
            spec_zip(
                spec_keys(spec_sorted(m.spec_entries())),
                spec_letters(spec_freqs(spec_sorted(m.spec_entries()))),
            ),
        ),
        2 * m.spec_entries().len() > usize::MAX ==> res is Err && res->Err_0
            == Error::TooManyTokens,
        res is Ok ==> valid_code(res->Ok_0.spec_alphabet()),
{
    if m.len() > usize::MAX / 2 {
        return Err(Error::TooManyTokens);
    }
    let sorted = m.sorted();
    let freqs = freqs_of(&sorted);
    proof {
        lemma_sorted(m.spec_entries());
    }
    let letters = letters(&freqs);
    proof {
        assert(views(letters@).len() == letters@.len());
        assert(entry_views(sorted@).len() == sorted@.len());
    }
    from_letters(&sorted, letters)
}

/// The letters of the Huffman code for tokens with the frequencies
/// `freqs`, in the order of the tokens.
pub fn letters(freqs: &Vec<u64>) -> (res: Vec<Letter>)
    requires
        2 * freqs@.len() <= usize::MAX,
        sum(freqs@) <= u64::MAX,
    ensures
        all_wf(res@),
        views(res@) == spec_letters(freqs@),
        valid_code(views(res@)),
{
    proof {
        lemma_letters_valid(freqs@);
    }
    let mut res: Vec<Letter> = Vec::with_capacity(freqs.len());
    if freqs.len() == 0 {
        assert(views(res@) =~= spec_letters(freqs@));
        return res;
    }
    let forest = build_tree(freqs);
    proof {
        lemma_tree(freqs@);
    }
    let mut i: usize = 0;
    while i < freqs.len()
        invariant
            i <= freqs@.len(),
            freqs@.len() <= forest.nodes@.len(),
            forest.nodes@ == spec_tree(freqs@),
            upward(forest.nodes@),
            all_wf(res@),
            res@.len() == i,
            forall|k: int| 0 <= k < i ==> (#[trigger] res@[k])@ == spec_letter(forest.nodes@, k),
        decreases freqs@.len() - i,
    {
        let l = read_letter(&forest, Node(i));
        res.push(l);
        i = i + 1;
    }
    assert(views(res@) =~= spec_letters(freqs@));
    res
}

/// Reads the letter of a leaf: the bits on the way down from the root to
/// the leaf, and a `1` bit after them where none of them is `1`, since a
/// letter without a `1` bit is not allowed.
pub fn read_letter(forest: &Forest, leaf: Node) -> (letter: Letter)
    requires
        leaf.0 < forest.nodes@.len(),
        upward(forest.nodes@),
    ensures
        letter.wf(),
        letter@ == spec_letter(forest.nodes@, leaf.0 as int),
{
    let mut path: Vec<Parent> = Vec::new();
    let mut node = leaf;
    proof {
        assert(spec_path(forest.nodes@, leaf.0 as int) + spec_bits_down(path@) =~= spec_path(
            forest.nodes@,
            leaf.0 as int,
        ));
    }
    loop
        invariant
            upward(forest.nodes@),
            leaf.0 <= node.0 < forest.nodes@.len(),
            path@.len() <= node.0 - leaf.0,
            spec_path(forest.nodes@, leaf.0 as int) == spec_path(forest.nodes@, node.0 as int)
                + spec_bits_down(path@),
        ensures
            forest.nodes@[node.0 as int].parent is None,
        decreases forest.nodes@.len() - node.0,
    {
        match node.parent(forest) {
            None => {
                break ;
            },
            Some(p) => {
                let ghost before = path@;
                path.push(p);
                proof {
                    let up = spec_path(forest.nodes@, p.spec_node().0 as int);
                    assert(spec_bits_down(path@) =~= seq![p.spec_bit()] + spec_bits_down(before));
                    assert(up.push(p.spec_bit()) + spec_bits_down(before) =~= up + spec_bits_down(
                        path@,
                    ));
                }
                node = p.into_node();
            },
        }
    }
    let ghost down = spec_bits_down(path@);
    proof {
        assert(spec_path(forest.nodes@, node.0 as int) =~= Seq::<bool>::empty());
        assert(spec_path(forest.nodes@, leaf.0 as int) =~= down);
        assert(forest.nodes.len() == forest.nodes@.len());
    }
    let mut letter = Letter::with_capacity(path.len() as u64);
    let mut saw_one = false;
    let mut k: usize = path.len();
    proof {
        assert(down.take(0) =~= Seq::<bool>::empty());
    }
    while k > 0
        invariant
            k <= path@.len() < usize::MAX,
            down == spec_bits_down(path@),
            letter.wf(),
            letter@ == down.take(path@.len() - k),
            saw_one == !all_zero(letter@),
        decreases k,
    {
        k = k - 1;
        let ghost before = letter@;
        match path[k] {
            Parent::Zero(_) => {
                letter.push0();
                proof {
                    if saw_one {
                        let x = choose|x: int| 0 <= x < before.len() && before[x];
                        assert(letter@[x]);
                    }
                }
            },
            Parent::One(_) => {
                saw_one = true;
                letter.push1();
                proof {
                    assert(letter@[before.len() as int]);
                }
            },
        }
        proof {
            assert(letter@ =~= down.take(path@.len() - k));
        }
    }
    proof {
        assert(down.take(path@.len() as int) =~= down);
    }
    if !saw_one {
        // An all-zeroes letter is not allowed.
        letter.push1();
    }
    letter
}

/// Grows the Huffman tree for leaves with the values `freqs`: as long as
/// there are two trees, the two whose roots come first in order become
/// the children of a new root.
pub fn build_tree(freqs: &Vec<u64>) -> (forest: Forest)
    requires
        freqs@.len() >= 1,
        2 * freqs@.len() <= usize::MAX,
        sum(freqs@) <= u64::MAX,
    ensures
        forest.nodes@ == spec_tree(freqs@),
{
    let mut forest = init_leaves(freqs);
    let mut pq = init_pq(&forest);
    let ghost n = freqs@.len() as int;
    let ghost total = sum(freqs@);
    proof {
        lemma_leaves_inv(freqs@);
    }
    loop
        invariant
            forest_inv(forest.nodes@, pq@, n, total),
            pq@.len() >= 1,
            spec_merged(forest.nodes@, pq@) == spec_tree(freqs@),
        decreases pq@.len(),
    {
        let ghost nodes0 = forest.nodes@;
        let ghost queue0 = pq@;
        let zero = pop_min(&forest, &mut pq);
        proof {
            lemma_min_pos(nodes0, queue0);
            lemma_without(queue0, spec_min_pos(nodes0, queue0));
        }
        if pq.len() == 0 {
            return forest;
        }
        proof {
            lemma_merge_keeps(nodes0, queue0, n, total);
            let rest = pq@;
            lemma_min_pos(nodes0, rest);
            lemma_without(rest, spec_min_pos(nodes0, rest));
            assert forall|k: int| 0 <= k < rest.len() implies (#[trigger] rest[k]).0
                < nodes0.len() by {
                assert(rest[k] == queue0[spec_place(spec_min_pos(nodes0, queue0), k)]);
            }
        }
        let one = pop_min(&forest, &mut pq);
        let top = Node::with_children(&mut forest, &zero, &one);
        pq.push(top);
    }
}

/// A forest of leaves, one for each of `freqs`, in their order.
fn init_leaves(freqs: &Vec<u64>) -> (forest: Forest)
    ensures
        forest.nodes@ == spec_leaves(freqs@),
{
    let mut forest = Forest { nodes: Vec::with_capacity(freqs.len()) };
    let mut i: usize = 0;
    while i < freqs.len()
        invariant
            i <= freqs@.len(),
            forest.nodes@ == spec_leaves(freqs@.take(i as int)),
        decreases freqs@.len() - i,
    {
        let _ = Node::new(&mut forest, freqs[i]);
        assert(forest.nodes@ =~= spec_leaves(freqs@.take(i + 1)));
        i = i + 1;
    }
    assert(freqs@.take(i as int) =~= freqs@);
    forest
}

/// The queue of the roots of a forest of leaves.
fn init_pq(forest: &Forest) -> (pq: Vec<Node>)
    ensures
        pq@ == spec_first_nodes(forest.nodes@.len()),
{
    let mut pq: Vec<Node> = Vec::with_capacity(forest.nodes.len());
    let mut i: usize = 0;
    while i < forest.nodes.len()
        invariant
            i <= forest.nodes@.len(),
            pq@ == spec_first_nodes(i as nat),
        decreases forest.nodes@.len() - i,
    {
        pq.push(Node(i));
        assert(pq@ =~= spec_first_nodes((i + 1) as nat));
        i = i + 1;
    }
    pq
}

/// Takes out of the queue the node that the scheme takes next.
fn pop_min(forest: &Forest, pq: &mut Vec<Node>) -> (node: Node)
    requires
        old(pq)@.len() > 0,
        forall|k: int| 0 <= k < old(pq)@.len() ==> (#[trigger] old(pq)@[k]).0 < forest.nodes@.len(),
    ensures
        node == old(pq)@[spec_min_pos(forest.nodes@, old(pq)@)],
        final(pq)@ == spec_without(old(pq)@, spec_min_pos(forest.nodes@, old(pq)@)),
{
    reveal(spec_without);
    let mut best: usize = 0;
    let mut k: usize = 1;
    proof {
        assert(spec_min_pos(forest.nodes@, pq@.take(1)) == 0);
    }
    while k < pq.len()
        invariant
            pq@ == old(pq)@,
            forall|k: int| 0 <= k < pq@.len() ==> (#[trigger] pq@[k]).0 < forest.nodes@.len(),
            1 <= k <= pq@.len(),
            best < k,
            best == spec_min_pos(forest.nodes@, pq@.take(k as int)),
        decreases pq@.len() - k,
    {
        proof {
            let upto = pq@.take(k + 1);
            assert(upto.drop_last() =~= pq@.take(k as int));
            assert(upto.last() == pq@[k as int]);
            assert(upto[best as int] == pq@[best as int]);
        }
        if forest.nodes[pq[k].0].before(&forest.nodes[pq[best].0]) {
            best = k;
        }
        k = k + 1;
    }
    proof {
        assert(pq@.take(k as int) =~= pq@);
    }
    pq.remove(best)
}

impl Node {
    /// A new root without children, with the given value.
    pub fn new(forest: &mut Forest, value: u64) -> (node: Self)
        ensures
            node.0 == old(forest).nodes@.len(),
            final(forest).nodes@ == old(forest).nodes@.push(
                ConcreteNode { parent: None, value, height: 0 },
            ),
    {
        let node = Node(forest.nodes.len());
        forest.nodes.push(ConcreteNode { parent: None, value, height: 0 });
        node
    }

    /// A new root above the roots `zero` and `one`. Its value is the sum of
    /// theirs, and it is one higher than the higher of them.
    pub fn with_children(forest: &mut Forest, zero: &Node, one: &Node) -> (node: Self)
        requires
            zero.0 < old(forest).nodes@.len(),
            one.0 < old(forest).nodes@.len(),
            zero.0 != one.0,
            old(forest).nodes@[zero.0 as int].parent is None,
            old(forest).nodes@[one.0 as int].parent is None,
            old(forest).nodes@[zero.0 as int].value + old(forest).nodes@[one.0 as int].value
                <= u64::MAX,
            old(forest).nodes@[zero.0 as int].height < usize::MAX,
            old(forest).nodes@[one.0 as int].height < usize::MAX,
        ensures
            node.0 == old(forest).nodes@.len(),
            final(forest).nodes@ == spec_with_children(old(forest).nodes@, *zero, *one),
    {
        let node = Node::new(forest, zero.value(forest) + one.value(forest));
        node.set0(forest, zero);
        node.set1(forest, one);
        assert(forest.nodes@ =~= spec_with_children(old(forest).nodes@, *zero, *one));
        node
    }

    /// The node above this node, if it has one, with the bit that leads
    /// from there to this node.
    pub fn parent(&self, forest: &Forest) -> (p: Option<Parent>)
        requires
            self.0 < forest.nodes@.len(),
        ensures
            p == forest.nodes@[self.0 as int].parent,
    {
        forest.nodes[self.0].parent
    }

    /// Makes the root `zero` the child of this node for the bit `0`.
    fn set0(&self, forest: &mut Forest, zero: &Node)
        requires
            self.0 < old(forest).nodes@.len(),
            zero.0 < old(forest).nodes@.len(),
            zero.0 != self.0,
            old(forest).nodes@[zero.0 as int].parent is None,
            old(forest).nodes@[zero.0 as int].height < usize::MAX,
        ensures
            final(forest).nodes@ == old(forest).nodes@.update(
                zero.0 as int,
                ConcreteNode {
                    parent: Some(Parent::Zero(*self)),
                    value: old(forest).nodes@[zero.0 as int].value,
                    height: old(forest).nodes@[zero.0 as int].height,
                },
            ).update(
                self.0 as int,
                ConcreteNode {
                    parent: old(forest).nodes@[self.0 as int].parent,
                    value: old(forest).nodes@[self.0 as int].value,
                    height: if old(forest).nodes@[self.0 as int].height <= old(
                        forest,
                    ).nodes@[zero.0 as int].height {
                        (old(forest).nodes@[zero.0 as int].height + 1) as usize
                    } else {
                        old(forest).nodes@[self.0 as int].height
                    },
                },
            ),
    {
        let inner = forest.nodes[zero.0];
        forest.nodes.set(
            zero.0,
            ConcreteNode {
                parent: Some(Parent::Zero(*self)),
                value: inner.value,
                height: inner.height,
            },
        );
        self.maybe_bump_height(forest, inner.height)
    }

    /// Makes the root `one` the child of this node for the bit `1`.
    fn set1(&self, forest: &mut Forest, one: &Node)
        requires
            self.0 < old(forest).nodes@.len(),
            one.0 < old(forest).nodes@.len(),
            one.0 != self.0,
            old(forest).nodes@[one.0 as int].parent is None,
            old(forest).nodes@[one.0 as int].height < usize::MAX,
        ensures
            final(forest).nodes@ == old(forest).nodes@.update(
                one.0 as int,
                ConcreteNode {
                    parent: Some(Parent::One(*self)),
                    value: old(forest).nodes@[one.0 as int].value,
                    height: old(forest).nodes@[one.0 as int].height,
                },
            ).update(
                self.0 as int,
                ConcreteNode {
                    parent: old(forest).nodes@[self.0 as int].parent,
                    value: old(forest).nodes@[self.0 as int].value,
                    height: if old(forest).nodes@[self.0 as int].height <= old(
                        forest,
                    ).nodes@[one.0 as int].height {
                        (old(forest).nodes@[one.0 as int].height + 1) as usize
                    } else {
                        old(forest).nodes@[self.0 as int].height
                    },
                },
            ),
    {
        let inner = forest.nodes[one.0];
        forest.nodes.set(
            one.0,
            ConcreteNode {
                parent: Some(Parent::One(*self)),
                value: inner.value,
                height: inner.height,
            },
        );
        self.maybe_bump_height(forest, inner.height)
    }

    /// Makes this node higher than a child of the height `child_height`,
    /// if it is not yet.
    fn maybe_bump_height(&self, forest: &mut Forest, child_height: usize)
        requires
            self.0 < old(forest).nodes@.len(),
            child_height < usize::MAX,
        ensures
            final(forest).nodes@ == old(forest).nodes@.update(
                self.0 as int,
                ConcreteNode {
                    parent: old(forest).nodes@[self.0 as int].parent,
                    value: old(forest).nodes@[self.0 as int].value,
                    height: if old(forest).nodes@[self.0 as int].height <= child_height {
                        (child_height + 1) as usize
                    } else {
                        old(forest).nodes@[self.0 as int].height
                    },
                },
            ),
    {
        let inner = forest.nodes[self.0];
        if inner.height <= child_height {
            forest.nodes.set(
                self.0,
                ConcreteNode {
                    parent: inner.parent,
                    value: inner.value,
                    height: child_height + 1,
                },
            );
        }
        assert(forest.nodes@ =~= old(forest).nodes@.update(
            self.0 as int,
            ConcreteNode {
                parent: old(forest).nodes@[self.0 as int].parent,
                value: old(forest).nodes@[self.0 as int].value,
                height: if old(forest).nodes@[self.0 as int].height <= child_height {
                    (child_height + 1) as usize
                } else {
                    old(forest).nodes@[self.0 as int].height
                },
            },
        ));
    }

    /// The value of this node.
    fn value(&self, forest: &Forest) -> (v: u64)
        requires
            self.0 < forest.nodes@.len(),
        ensures
            v == forest.nodes@[self.0 as int].value,
    {
        forest.nodes[self.0].value
    }
}

impl ConcreteNode {
    /// Whether the scheme takes this node before `other`.
    pub fn before(&self, other: &ConcreteNode) -> (b: bool)
        ensures
            b == spec_before(*self, *other),
    {
        // Smaller value and smaller height are both good, so the order
        // goes the same way in the two fields.
        self.value < other.value || (self.value == other.value && self.height < other.height)
    }
}

/// The node to take next is one of the queue.
pub proof fn lemma_min_pos(nodes: Seq<ConcreteNode>, queue: Seq<Node>)
    requires
        queue.len() > 0,
    ensures
        0 <= spec_min_pos(nodes, queue) < queue.len(),
        forall|k: int|
            0 <= k < queue.len() ==> !spec_before(
                nodes[(#[trigger] queue[k]).0 as int],
                nodes[queue[spec_min_pos(nodes, queue)].0 as int],
            ),
    decreases queue.len(),
{
    if queue.len() > 1 {
        let front = queue.drop_last();
        lemma_min_pos(nodes, front);
        let best = spec_min_pos(nodes, front);
        assert forall|k: int| 0 <= k < queue.len() implies !spec_before(
            nodes[(#[trigger] queue[k]).0 as int],
            nodes[queue[spec_min_pos(nodes, queue)].0 as int],
        ) by {
            if k < front.len() {
                assert(front[k] == queue[k]);
            }
        }
    }
}

/// The nodes of a queue without one node are the other nodes, in their
/// order.
pub proof fn lemma_without(queue: Seq<Node>, i: int)
    requires
        0 <= i < queue.len(),
    ensures
        spec_without(queue, i).len() == queue.len() - 1,
        forall|k: int|
            0 <= k < queue.len() - 1 ==> #[trigger] spec_without(queue, i)[k] == queue[if k < i {
                k
            } else {
                k + 1
            }],
{
    reveal(spec_without);
}

/// The values of the nodes of `queue`, in their order.
pub open spec fn spec_values(nodes: Seq<ConcreteNode>, queue: Seq<Node>) -> Seq<u64> {
    Seq::new(queue.len(), |k: int| nodes[queue[k].0 as int].value)
}

/// Whether `queue` holds just the roots of the forest, each once.
pub open spec fn queue_ok(nodes: Seq<ConcreteNode>, queue: Seq<Node>) -> bool {
    &&& queue.no_duplicates()
    &&& forall|k: int|
        0 <= k < queue.len() ==> (#[trigger] queue[k]).0 < nodes.len()
            && nodes[queue[k].0 as int].parent is None
    &&& forall|i: int|
        0 <= i < nodes.len() && (#[trigger] nodes[i]).parent is None ==> queue.contains(
            Node(i as usize),
        )
}

/// Whether the nodes above the nodes of the forest stand after them and
/// after the `n` leaves, no two nodes hang at the same side of a node,
/// and no node is higher than its place.
pub open spec fn shape_ok(nodes: Seq<ConcreteNode>, n: int) -> bool {
    &&& forall|i: int|
        0 <= i < nodes.len() ==> (#[trigger] nodes[i]).height <= i && (nodes[i].parent matches Some(
            p,
        ) ==> i < p.spec_node().0 < nodes.len() && n <= p.spec_node().0)
    &&& forall|i: int, j: int|
        0 <= i < j < nodes.len() && (#[trigger] nodes[i]).parent is Some && (
        #[trigger] nodes[j]).parent is Some && nodes[i].parent.unwrap().spec_node()
            == nodes[j].parent.unwrap().spec_node() ==> nodes[i].parent.unwrap().spec_bit()
            != nodes[j].parent.unwrap().spec_bit()
}

/// What holds of the forest and the queue of its roots while trees are
/// merged, for `n` leaves with values that sum up to `total`.
pub open spec fn forest_inv(
    nodes: Seq<ConcreteNode>,
    queue: Seq<Node>,
    n: int,
    total: int,
) -> bool {
    &&& 1 <= n <= nodes.len()
    &&& 2 * n <= usize::MAX
    &&& nodes.len() + queue.len() == 2 * n
    &&& queue_ok(nodes, queue)
    &&& shape_ok(nodes, n)
    &&& sum(spec_values(nodes, queue)) == total
    &&& total <= u64::MAX
}

/// Where the node at place `k` of a queue without the node at place `i`
/// stands in the queue.
pub open spec fn spec_place(i: int, k: int) -> int {
    if k < i {
        k
    } else {
        k + 1
    }
}

/// One merge keeps the queue the queue of the roots.
proof fn lemma_merge_keeps_queue(nodes: Seq<ConcreteNode>, queue: Seq<Node>, i: int, j: int)
    requires
        queue_ok(nodes, queue),
        nodes.len() < usize::MAX,
        0 <= i < queue.len(),
        0 <= j < queue.len() - 1,
    ensures
        queue[i] != spec_without(queue, i)[j],
        queue_ok(
            spec_with_children(nodes, queue[i], spec_without(queue, i)[j]),
            spec_without(spec_without(queue, i), j).push(Node(nodes.len() as usize)),
        ),
{
    let rest = spec_without(queue, i);
    lemma_without(queue, i);
    let zero = queue[i];
    let one = rest[j];
    let rest2 = spec_without(rest, j);
    lemma_without(rest, j);
    let top = Node(nodes.len() as usize);
    let queue2 = rest2.push(top);
    let nodes2 = spec_with_children(nodes, zero, one);
    let len = nodes.len() as int;
    let jq = spec_place(i, j);
    assert(one == queue[jq]);
    assert(zero != one);
    assert forall|k: int| 0 <= k < rest2.len() implies #[trigger] rest2[k] == queue[spec_place(
        i,
        spec_place(j, k),
    )] by {
        assert(rest2[k] == rest[spec_place(j, k)]);
    }
    assert forall|k: int| 0 <= k < rest2.len() implies (#[trigger] rest2[k]) != zero && rest2[k]
        != one && rest2[k].0 < len && nodes[rest2[k].0 as int].parent is None by {
        let q = spec_place(i, spec_place(j, k));
        assert(rest2[k] == queue[q]);
        assert(q != i && q != jq);
    }
    assert(queue2.no_duplicates()) by {
        assert forall|a: int, b: int| 0 <= a < queue2.len() && 0 <= b < queue2.len() && a
            != b implies queue2[a] != queue2[b] by {
            if a < rest2.len() && b < rest2.len() {
                let aq = spec_place(i, spec_place(j, a));
                let bq = spec_place(i, spec_place(j, b));
                assert(rest2[a] == queue[aq] && rest2[b] == queue[bq]);
                assert(aq != bq);
            } else if a < rest2.len() {
                assert(rest2[a].0 < len);
            } else {
                assert(rest2[b].0 < len);
            }
        }
    }
    assert forall|k: int| 0 <= k < queue2.len() implies (#[trigger] queue2[k]).0 < nodes2.len()
        && nodes2[queue2[k].0 as int].parent is None by {
        if k < rest2.len() {
            assert(queue2[k] == rest2[k]);
        }
    }
    assert forall|x: int|
        0 <= x < nodes2.len() && (#[trigger] nodes2[x]).parent is None implies queue2.contains(
        Node(x as usize),
    ) by {
        if x < len {
            assert(x != zero.0 && x != one.0);
            assert(nodes[x] == nodes2[x]);
            let q = choose|q: int| 0 <= q < queue.len() && queue[q] == Node(x as usize);
            assert(q != i && q != jq);
            let qr = if q < i {
                q
            } else {
                q - 1
            };
            let k = if qr < j {
                qr
            } else {
                qr - 1
            };
            assert(spec_place(i, spec_place(j, k)) == q);
            assert(rest2[k] == queue[q]);
            assert(queue2[k] == Node(x as usize));
        } else {
            assert(queue2[rest2.len() as int] == top);
        }
    }
}

/// One merge keeps the shape of the forest.
proof fn lemma_merge_keeps_shape(nodes: Seq<ConcreteNode>, n: int, zero: Node, one: Node)
    requires
        shape_ok(nodes, n),
        n <= nodes.len() < usize::MAX,
        zero.0 < nodes.len(),
        one.0 < nodes.len(),
        zero != one,
        nodes[zero.0 as int].parent is None,
        nodes[one.0 as int].parent is None,
    ensures
        shape_ok(spec_with_children(nodes, zero, one), n),
{
    let nodes2 = spec_with_children(nodes, zero, one);
    let len = nodes.len() as int;
    assert forall|x: int| 0 <= x < nodes2.len() implies (#[trigger] nodes2[x]).height <= x && (
    nodes2[x].parent matches Some(p) ==> x < p.spec_node().0 < nodes2.len() && n
        <= p.spec_node().0) by {
        if x < len {
            assert(nodes[x].height <= x);
        } else {
            assert(nodes[zero.0 as int].height <= zero.0);
            assert(nodes[one.0 as int].height <= one.0);
        }
    }
    assert forall|x: int, y: int|
        0 <= x < y < nodes2.len() && (#[trigger] nodes2[x]).parent is Some && (
        #[trigger] nodes2[y]).parent is Some && nodes2[x].parent.unwrap().spec_node()
            == nodes2[y].parent.unwrap().spec_node() implies nodes2[x].parent.unwrap().spec_bit()
        != nodes2[y].parent.unwrap().spec_bit() by {
        if x == zero.0 || x == one.0 {
            if y != zero.0 && y != one.0 {
                assert(nodes[y] == nodes2[y]);
            }
        } else if y == zero.0 || y == one.0 {
            assert(nodes[x] == nodes2[x]);
        } else {
            assert(nodes[x] == nodes2[x]);
            assert(nodes[y] == nodes2[y]);
        }
    }
}

/// One merge keeps the sum of the values of the roots.
proof fn lemma_merge_keeps_sum(nodes: Seq<ConcreteNode>, queue: Seq<Node>, i: int, j: int)
    requires
        queue_ok(nodes, queue),
        nodes.len() < usize::MAX,
        0 <= i < queue.len(),
        0 <= j < queue.len() - 1,
        sum(spec_values(nodes, queue)) <= u64::MAX,
    ensures
        nodes[queue[i].0 as int].value + nodes[spec_without(queue, i)[j].0 as int].value <= sum(
            spec_values(nodes, queue),
        ),
        sum(
            spec_values(
                spec_with_children(nodes, queue[i], spec_without(queue, i)[j]),
                spec_without(spec_without(queue, i), j).push(Node(nodes.len() as usize)),
            ),
        ) == sum(spec_values(nodes, queue)),
{
    let rest = spec_without(queue, i);
    lemma_without(queue, i);
    let zero = queue[i];
    let one = rest[j];
    let rest2 = spec_without(rest, j);
    lemma_without(rest, j);
    let top = Node(nodes.len() as usize);
    let queue2 = rest2.push(top);
    let nodes2 = spec_with_children(nodes, zero, one);
    let jq = spec_place(i, j);
    assert(one == queue[jq]);
    let vals = spec_values(nodes, queue);
    let vals1 = spec_values(nodes, rest);
    let vals2 = spec_values(nodes, rest2);
    lemma_sum_remove(vals, i);
    assert(vals1 =~= vals.remove(i)) by {
        assert forall|k: int| 0 <= k < vals1.len() implies vals1[k] == vals.remove(i)[k] by {
            assert(rest[k] == queue[spec_place(i, k)]);
        }
    }
    lemma_sum_remove(vals1, j);
    assert(vals2 =~= vals1.remove(j)) by {
        assert forall|k: int| 0 <= k < vals2.len() implies vals2[k] == vals1.remove(j)[k] by {
            assert(rest2[k] == rest[spec_place(j, k)]);
        }
    }
    let vz = nodes[zero.0 as int].value;
    let vo = nodes[one.0 as int].value;
    assert(vals[i] == vz);
    assert(vals1[j] == vo);
    lemma_sum_nonnegative(vals2);
    lemma_sum_push(vals2, (vz + vo) as u64);
    assert(spec_values(nodes2, queue2) =~= vals2.push((vz + vo) as u64)) by {
        assert forall|k: int| 0 <= k < rest2.len() implies spec_values(nodes2, queue2)[k]
            == vals2[k] by {
            let q = spec_place(i, spec_place(j, k));
            assert(rest2[k] == rest[spec_place(j, k)]);
            assert(rest[spec_place(j, k)] == queue[q]);
            assert(q != i && q != jq);
            assert(queue[q] != queue[i] && queue[q] != queue[jq]);
            assert(queue2[k] == rest2[k]);
        }
        assert(queue2[rest2.len() as int] == top);
    }
}

/// One merge keeps what holds of the forest and its queue.
pub proof fn lemma_merge_keeps(nodes: Seq<ConcreteNode>, queue: Seq<Node>, n: int, total: int)
    requires
        forest_inv(nodes, queue, n, total),
        queue.len() >= 2,
    ensures
        ({
            let i = spec_min_pos(nodes, queue);
            let rest = spec_without(queue, i);
            let j = spec_min_pos(nodes, rest);
            let zero = queue[i];
            let one = rest[j];
            &&& 0 <= i < queue.len()
            &&& rest.len() == queue.len() - 1
            &&& 0 <= j < rest.len()
            &&& zero != one
            &&& zero.0 < nodes.len()
            &&& one.0 < nodes.len()
            &&& nodes[zero.0 as int].parent is None
            &&& nodes[one.0 as int].parent is None
            &&& nodes[zero.0 as int].value + nodes[one.0 as int].value <= total
            &&& nodes[zero.0 as int].height < nodes.len()
            &&& nodes[one.0 as int].height < nodes.len()
            &&& nodes.len() < usize::MAX
            &&& forest_inv(
                spec_with_children(nodes, zero, one),
                spec_without(rest, j).push(Node(nodes.len() as usize)),
                n,
                total,
            )
        }),
{
    let i = spec_min_pos(nodes, queue);
    lemma_min_pos(nodes, queue);
    let rest = spec_without(queue, i);
    lemma_without(queue, i);
    lemma_min_pos(nodes, rest);
    let j = spec_min_pos(nodes, rest);
    lemma_without(rest, j);
    let zero = queue[i];
    let one = rest[j];
    assert(one == queue[spec_place(i, j)]);
    lemma_merge_keeps_queue(nodes, queue, i, j);
    lemma_merge_keeps_sum(nodes, queue, i, j);
    lemma_merge_keeps_shape(nodes, n, zero, one);
    assert(nodes[zero.0 as int].height <= zero.0);
    assert(nodes[one.0 as int].height <= one.0);
}

/// A forest of leaves and the queue of its roots are in the state from
/// which the merging starts.
pub proof fn lemma_leaves_inv(freqs: Seq<u64>)
    requires
        freqs.len() >= 1,
        2 * freqs.len() <= usize::MAX,
        sum(freqs) <= u64::MAX,
    ensures
        forest_inv(
            spec_leaves(freqs),
            spec_first_nodes(freqs.len()),
            freqs.len() as int,
            sum(freqs),
        ),
{
    let nodes = spec_leaves(freqs);
    let queue = spec_first_nodes(freqs.len());
    assert(spec_values(nodes, queue) =~= freqs);
    assert forall|i: int|
        0 <= i < nodes.len() && (#[trigger] nodes[i]).parent is None implies queue.contains(
        Node(i as usize),
    ) by {
        assert(queue[i] == Node(i as usize));
    }
}

/// What holds of the forest when the merging is done: it is one tree, in
/// which the first `n` nodes are the leaves.
pub open spec fn tree_inv(nodes: Seq<ConcreteNode>, n: int) -> bool {
    &&& 1 <= n <= nodes.len() < 2 * n
    &&& forall|i: int|
        0 <= i < nodes.len() ==> ((#[trigger] nodes[i]).parent matches Some(p) ==> i
            < p.spec_node().0 < nodes.len() && n <= p.spec_node().0)
    &&& forall|i: int, j: int|
        0 <= i < j < nodes.len() && (#[trigger] nodes[i]).parent is Some && (
        #[trigger] nodes[j]).parent is Some && nodes[i].parent.unwrap().spec_node()
            == nodes[j].parent.unwrap().spec_node() ==> nodes[i].parent.unwrap().spec_bit()
            != nodes[j].parent.unwrap().spec_bit()
    &&& forall|i: int, j: int|
        0 <= i < nodes.len() && 0 <= j < nodes.len() && (#[trigger] nodes[i]).parent is None && (
        #[trigger] nodes[j]).parent is None ==> i == j
}

/// Merging until one tree is left gives a tree.
pub proof fn lemma_merged_tree(nodes: Seq<ConcreteNode>, queue: Seq<Node>, n: int, total: int)
    requires
        forest_inv(nodes, queue, n, total),
        queue.len() >= 1,
    ensures
        tree_inv(spec_merged(nodes, queue), n),
    decreases queue.len(),
{
    if queue.len() == 1 {
        assert forall|i: int, j: int|
            0 <= i < nodes.len() && 0 <= j < nodes.len() && (#[trigger] nodes[i]).parent is None
                && (#[trigger] nodes[j]).parent is None implies i == j by {
            assert(queue.contains(Node(i as usize)));
            assert(queue.contains(Node(j as usize)));
        }
    } else {
        lemma_merge_keeps(nodes, queue, n, total);
        let i = spec_min_pos(nodes, queue);
        let rest = spec_without(queue, i);
        let j = spec_min_pos(nodes, rest);
        lemma_merged_tree(
            spec_with_children(nodes, queue[i], rest[j]),
            spec_without(rest, j).push(Node(nodes.len() as usize)),
            n,
            total,
        );
    }
}

/// The Huffman tree is a tree.
pub proof fn lemma_tree(freqs: Seq<u64>)
    requires
        freqs.len() >= 1,
        2 * freqs.len() <= usize::MAX,
        sum(freqs) <= u64::MAX,
    ensures
        tree_inv(spec_tree(freqs), freqs.len() as int),
{
    lemma_leaves_inv(freqs);
    lemma_merged_tree(
        spec_leaves(freqs),
        spec_first_nodes(freqs.len()),
        freqs.len() as int,
        sum(freqs),
    );
}

/// In a tree, no two nodes have the same path from the root.
pub proof fn lemma_path_injective(nodes: Seq<ConcreteNode>, n: int, x: int, y: int)
    requires
        tree_inv(nodes, n),
        0 <= x < nodes.len(),
        0 <= y < nodes.len(),
        spec_path(nodes, x) == spec_path(nodes, y),
    ensures
        x == y,
    decreases nodes.len() - x,
{
    match nodes[x].parent {
        None => {
            if nodes[y].parent is Some {
                assert(spec_path(nodes, y).len() > 0);
            }
        },
        Some(px) => {
            assert(spec_path(nodes, x).len() > 0);
            let py = nodes[y].parent.unwrap();
            let ux = spec_path(nodes, px.spec_node().0 as int);
            let uy = spec_path(nodes, py.spec_node().0 as int);
            assert(ux.push(px.spec_bit()) == uy.push(py.spec_bit()));
            assert(ux =~= ux.push(px.spec_bit()).drop_last());
            assert(uy =~= uy.push(py.spec_bit()).drop_last());
            assert(px.spec_bit() == ux.push(px.spec_bit()).last());
            assert(py.spec_bit() == uy.push(py.spec_bit()).last());
            lemma_path_injective(nodes, n, px.spec_node().0 as int, py.spec_node().0 as int);
        },
    }
}

/// Whether the node at place `a` is the node at place `y` or stands above
/// it.
pub open spec fn is_above(nodes: Seq<ConcreteNode>, a: int, y: int) -> bool
    decreases nodes.len() - y,
{
    a == y || (0 <= y < nodes.len() && (nodes[y].parent matches Some(p) && y < p.spec_node().0
        < nodes.len() && is_above(nodes, a, p.spec_node().0 as int)))
}

/// In a tree, a node whose path starts the path of another stands above
/// the other.
pub proof fn lemma_prefix_above(nodes: Seq<ConcreteNode>, n: int, x: int, y: int)
    requires
        tree_inv(nodes, n),
        0 <= x < nodes.len(),
        0 <= y < nodes.len(),
        is_prefix(spec_path(nodes, x), spec_path(nodes, y)),
    ensures
        is_above(nodes, x, y),
    decreases nodes.len() - y,
{
    let px = spec_path(nodes, x);
    let py = spec_path(nodes, y);
    if px.len() == py.len() {
        assert(px =~= py);
        lemma_path_injective(nodes, n, x, y);
    } else {
        let p = nodes[y].parent.unwrap();
        let up = spec_path(nodes, p.spec_node().0 as int);
        assert(py == up.push(p.spec_bit()));
        assert(px =~= up.take(px.len() as int));
        lemma_prefix_above(nodes, n, x, p.spec_node().0 as int);
    }
}

/// In a tree, a leaf stands above no other node.
pub proof fn lemma_leaf_above(nodes: Seq<ConcreteNode>, n: int, x: int, y: int)
    requires
        tree_inv(nodes, n),
        0 <= x < n,
        0 <= y < nodes.len(),
        is_above(nodes, x, y),
    ensures
        x == y,
    decreases nodes.len() - y,
{
    if x != y {
        let p = nodes[y].parent.unwrap();
        lemma_leaf_above(nodes, n, x, p.spec_node().0 as int);
    }
}

/// The path of a node is no longer than the number of nodes behind it.
pub proof fn lemma_path_len(nodes: Seq<ConcreteNode>, n: int, i: int)
    requires
        tree_inv(nodes, n),
        0 <= i < nodes.len(),
    ensures
        spec_path(nodes, i).len() <= nodes.len() - 1 - i,
    decreases nodes.len() - i,
{
    if let Some(p) = nodes[i].parent {
        lemma_path_len(nodes, n, p.spec_node().0 as int);
    }
}

/// The letters of the leaves of a tree are a valid code.
pub proof fn lemma_tree_letters_valid(nodes: Seq<ConcreteNode>, n: int)
    requires
        tree_inv(nodes, n),
    ensures
        valid_code(Seq::new(n as nat, |i: int| spec_letter(nodes, i))),
{
    let letters = Seq::new(n as nat, |i: int| spec_letter(nodes, i));
    assert forall|i: int, j: int|
        0 <= i < letters.len() && 0 <= j < letters.len() && i != j implies !is_prefix(
        #[trigger] letters[i],
        #[trigger] letters[j],
    ) by {
        let pi = spec_path(nodes, i);
        let pj = spec_path(nodes, j);
        if is_prefix(pi, pj) {
            lemma_prefix_above(nodes, n, i, j);
            lemma_leaf_above(nodes, n, i, j);
        }
        if is_prefix(pj, pi) {
            lemma_prefix_above(nodes, n, j, i);
            lemma_leaf_above(nodes, n, j, i);
        }
        let li = spec_fixed(pi);
        let lj = spec_fixed(pj);
        if is_prefix(li, lj) {
            if !all_zero(pi) {
                if all_zero(pj) {
                    if pi.len() <= pj.len() {
                        assert(pi =~= pj.take(pi.len() as int));
                    } else {
                        assert(pj =~= pi.take(pj.len() as int));
                    }
                }
            } else {
                if !all_zero(pj) {
                    assert(pi =~= pj.take(pi.len() as int));
                } else {
                    assert(pi =~= pj.take(pi.len() as int));
                }
            }
        }
    }
    assert forall|i: int| 0 <= i < letters.len() implies !all_zero(#[trigger] letters[i]) by {
        let pi = spec_path(nodes, i);
        if all_zero(pi) {
            assert(pi.push(true)[pi.len() as int]);
        }
    }
}

/// The Huffman code is a valid code.
pub proof fn lemma_letters_valid(freqs: Seq<u64>)
    requires
        2 * freqs.len() <= usize::MAX,
        sum(freqs) <= u64::MAX,
    ensures
        valid_code(spec_letters(freqs)),
{
    if freqs.len() >= 1 {
        lemma_tree(freqs);
        lemma_tree_letters_valid(spec_tree(freqs), freqs.len() as int);
        assert(spec_letters(freqs) =~= Seq::new(
            freqs.len(),
            |i: int| spec_letter(spec_tree(freqs), i),
        ));
    }
}

/// A letter of the Huffman code has no more bits than can be counted.
pub proof fn lemma_letters_short(freqs: Seq<u64>)
    requires
        2 * freqs.len() <= usize::MAX,
        sum(freqs) <= u64::MAX,
    ensures
        countable(spec_letters(freqs)),
{
    if freqs.len() >= 1 {
        lemma_tree(freqs);
        assert forall|i: int| 0 <= i < freqs.len() implies (#[trigger] spec_letters(
            freqs,
        )[i]).len() <= u64::MAX by {
            lemma_path_len(spec_tree(freqs), freqs.len() as int, i);
        }
    }
}

} // verus!
