//! Code trees: built by repeatedly joining the two front entries of a weighted
//! list, and searched for the path (left = 0, right = 1) to a symbol.
use vstd::prelude::*;
use crate::util::token::Token;

verus! {

/// A node of a code tree. A leaf carries a symbol; a branch carries the sum of
/// its children's weights.
#[derive(Debug)]
pub struct Node {
    pub parent: Option<Box<Node>>,
    /// Subtree reached by a 0.
    pub left: Option<Box<Node>>,
    /// Subtree reached by a 1.
    pub right: Option<Box<Node>>,
    pub symbol: Option<char>,
    pub count: usize,
}

/// A leaf holding `symbol` with weight `count`.
pub open spec fn leaf(symbol: char, count: usize) -> Node {
    Node { parent: None, left: None, right: None, symbol: Some(symbol), count }
}

/// The branch joining `left` and `right`.
pub open spec fn branch(left: Node, right: Node) -> Node {
    Node {
        parent: None,
        left: Some(Box::new(left)),
        right: Some(Box::new(right)),
        symbol: None,
        count: (left.count + right.count) as usize,
    }
}

/// Whether a search for `c` in `node` finds a leaf (a node with a symbol ends
/// the search there).
pub open spec fn has_symbol(node: Node, c: char) -> bool
    decreases node,
{
    match node.symbol {
        Some(s) => s == c,
        None => {
            (match node.left {
                Some(l) => has_symbol(*l, c),
                None => false,
            }) || (match node.right {
                Some(r) => has_symbol(*r, c),
                None => false,
            })
        },
    }
}

/// The code found for `c` below `node` when the path so far spells `code`:
/// each step left doubles it and each step right doubles it and adds one,
/// keeping the low eight bits; the leftmost leaf holding `c` wins.
pub open spec fn search_code(node: Node, c: char, code: u8) -> Option<u8>
    decreases node,
{
    match node.symbol {
        Some(s) => if s == c {
            Some(code)
        } else {
            None
        },
        None => {
            let l = match node.left {
                Some(l) => search_code(*l, c, ((2 * code) % 256) as u8),
                None => None,
            };
            let r = match node.right {
                Some(r) => search_code(*r, c, ((2 * code) % 256 + 1) as u8),
                None => None,
            };
            if l is Some {
                l
            } else {
                r
            }
        },
    }
}

/// The symbol that `bits` lead to from `node`, each bit choosing a side
/// (0 = left, anything else = right): the walk names a symbol only when it
/// stops on a node with a symbol exactly as the bits run out.
pub open spec fn walk(node: Node, bits: Seq<u8>) -> Option<char>
    decreases bits.len(),
{
    if bits.len() == 0 {
        node.symbol
    } else if node.symbol is Some {
        None
    } else {
        let next = if bits[0] == 0 {
            node.left
        } else {
            node.right
        };
        match next {
            Some(n) => walk(*n, bits.drop_first()),
            None => None,
        }
    }
}

/// The symbol a code names in a tree. A tree that is a single leaf has the
/// one-digit code `0`, so there any single bit names its symbol; otherwise
/// the bits are walked from the root.
pub open spec fn tree_decode(root: Node, bits: Seq<u8>) -> Option<char> {
    if root.symbol is Some {
        if bits.len() == 1 {
            root.symbol
        } else {
            None
        }
    } else {
        walk(root, bits)
    }
}

/// Number of nodes of a tree.
pub open spec fn tree_size(node: Node) -> nat
    decreases node,
{
    1 + match node.left {
        Some(l) => tree_size(*l),
        None => 0,
    } + match node.right {
        Some(r) => tree_size(*r),
        None => 0,
    }
}

/// Number of nodes of the trees of a queue.
pub open spec fn queue_size(queue: Seq<Node>) -> nat
    decreases queue.len(),
{
    if queue.len() == 0 {
        0
    } else {
        queue_size(queue.drop_last()) + tree_size(queue.last())
    }
}

/// The children of a node, left first.
pub open spec fn children(node: Node) -> Seq<Node> {
    (match node.left {
        Some(l) => seq![*l],
        None => seq![],
    }) + (match node.right {
        Some(r) => seq![*r],
        None => seq![],
    })
}

/// Whether a node has no children.
pub open spec fn is_leaf_node(node: Node) -> bool {
    node.left is None && node.right is None
}

pub proof fn lemma_queue_size_concat(a: Seq<Node>, b: Seq<Node>)
    ensures
        queue_size(a + b) == queue_size(a) + queue_size(b),
    decreases b.len(),
{
    if b.len() == 0 {
        assert(a + b =~= a);
    } else {
        lemma_queue_size_concat(a, b.drop_last());
        assert((a + b).drop_last() =~= a + b.drop_last());
    }
}

/// Visiting the front node of a queue and queueing its children removes
/// exactly one node from the queue's trees.
pub proof fn lemma_queue_step(queue: Seq<Node>)
    requires
        queue.len() > 0,
    ensures
        queue_size(queue.drop_first() + children(queue[0])) + 1 == queue_size(queue),
{
    let n = queue[0];
    assert(queue =~= seq![n] + queue.drop_first());
    lemma_queue_size_concat(seq![n], queue.drop_first());
    lemma_queue_size_concat(queue.drop_first(), children(n));
    lemma_queue_size_single(n);
    let l = match n.left {
        Some(l) => seq![*l],
        None => Seq::<Node>::empty(),
    };
    let r = match n.right {
        Some(r) => seq![*r],
        None => Seq::<Node>::empty(),
    };
    assert(children(n) =~= l + r);
    lemma_queue_size_concat(l, r);
    match n.left {
        Some(x) => lemma_queue_size_single(*x),
        None => {},
    }
    match n.right {
        Some(x) => lemma_queue_size_single(*x),
        None => {},
    }
}

pub proof fn lemma_queue_size_single(n: Node)
    ensures
        queue_size(seq![n]) == tree_size(n),
{
    assert(seq![n].drop_last() =~= Seq::<Node>::empty());
    assert(queue_size(Seq::<Node>::empty()) == 0);
}

/// The leaves met when the trees of a queue are visited breadth first (a
/// node taken from the front, its children queued at the back, left first),
/// each with its symbol and weight.
pub open spec fn bfs_leaves(queue: Seq<Node>) -> Seq<(char, usize)>
    decreases queue_size(queue),
{
    if queue.len() == 0 {
        seq![]
    } else {
        let n = queue[0];
        proof {
            lemma_queue_step(queue);
        }
        let rest = bfs_leaves(queue.drop_first() + children(n));
        if is_leaf_node(n) {
            seq![(n.symbol->0, n.count)] + rest
        } else {
            rest
        }
    }
}

/// Every node without children below `node` carries a symbol.
pub open spec fn leaves_named(node: Node) -> bool
    decreases node,
{
    &&& is_leaf_node(node) ==> node.symbol is Some
    &&& match node.left {
        Some(l) => leaves_named(*l),
        None => true,
    }
    &&& match node.right {
        Some(r) => leaves_named(*r),
        None => true,
    }
}

/// The leaves a table starts from, in table order.
pub open spec fn leaves_of(table: Seq<Token>) -> Seq<Node> {
    table.map_values(|t: Token| leaf(t.symbol, t.probability))
}

/// Sum of the weights of a list of nodes.
pub open spec fn count_sum(list: Seq<Node>) -> int
    decreases list.len(),
{
    if list.len() == 0 {
        0
    } else {
        count_sum(list.drop_last()) + list.last().count
    }
}

/// Sum of the weights of a table.
pub open spec fn weight_sum(table: Seq<Token>) -> int
    decreases table.len(),
{
    if table.len() == 0 {
        0
    } else {
        weight_sum(table.drop_last()) + table.last().probability
    }
}

/// Index of the first node heavier than `w` (the length if there is none).
pub open spec fn first_heavier(list: Seq<Node>, w: int) -> nat
    decreases list.len(),
{
    if list.len() == 0 {
        0
    } else if list[0].count > w {
        0
    } else {
        1 + first_heavier(list.drop_first(), w)
    }
}

/// One joining step: the two front nodes are joined and the branch is put
/// before the first remaining node heavier than it.
pub open spec fn join_front(list: Seq<Node>) -> Seq<Node>
    recommends
        list.len() >= 2,
{
    let b = branch(list[0], list[1]);
    let rest = list.subrange(2, list.len() as int);
    rest.insert(first_heavier(rest, b.count as int) as int, b)
}

/// The tree grown from a list by joining until one node is left.
pub open spec fn build(list: Seq<Node>) -> Node
    recommends
        list.len() >= 1,
    decreases list.len(),
{
    if list.len() <= 1 {
        list[0]
    } else {
        proof {
            let b = branch(list[0], list[1]);
            lemma_first_heavier_bound(list.subrange(2, list.len() as int), b.count as int);
            assert(join_front(list).len() == list.len() - 1);
        }
        build(join_front(list))
    }
}

pub proof fn lemma_first_heavier_bound(list: Seq<Node>, w: int)
    ensures
        first_heavier(list, w) <= list.len(),
        forall|j: int| 0 <= j < first_heavier(list, w) ==> list[j].count <= w,
        first_heavier(list, w) < list.len() ==> list[first_heavier(list, w) as int].count > w,
    decreases list.len(),
{
    if list.len() > 0 && list[0].count <= w {
        lemma_first_heavier_bound(list.drop_first(), w);
        assert forall|j: int| 0 <= j < first_heavier(list, w) implies list[j].count <= w by {
            if j > 0 {
                assert(list[j] == list.drop_first()[j - 1]);
            }
        }
    }
}


/// Some node of the list leads a search for `c` to a leaf.
pub open spec fn list_has_symbol(list: Seq<Node>, c: char) -> bool {
    exists|i: int| 0 <= i < list.len() && has_symbol(#[trigger] list[i], c)
}

/// Joining keeps exactly the symbols of the list reachable.
pub proof fn lemma_join_front_symbols(list: Seq<Node>, c: char)
    requires
        list.len() >= 2,
    ensures
        list_has_symbol(join_front(list), c) == list_has_symbol(list, c),
        join_front(list).len() == list.len() - 1,
{
    let b = branch(list[0], list[1]);
    let rest = list.subrange(2, list.len() as int);
    let i = first_heavier(rest, b.count as int) as int;
    lemma_first_heavier_bound(rest, b.count as int);
    let j = join_front(list);
    assert(has_symbol(b, c) == (has_symbol(list[0], c) || has_symbol(list[1], c)));
    if list_has_symbol(list, c) {
        let k = choose|k: int| 0 <= k < list.len() && has_symbol(#[trigger] list[k], c);
        if k >= 2 {
            if k - 2 < i {
                assert(j[k - 2] == list[k]);
            } else {
                assert(j[k - 1] == list[k]);
            }
        } else {
            assert(j[i] == b);
        }
    }
    if list_has_symbol(j, c) {
        let k = choose|k: int| 0 <= k < j.len() && has_symbol(#[trigger] j[k], c);
        if k < i {
            assert(list[k + 2] == j[k]);
        } else if k == i {
            assert(j[k] == b);
            if has_symbol(list[0], c) {
                assert(has_symbol(list[0], c));
            } else {
                assert(has_symbol(list[1], c));
            }
        } else {
            assert(list[k + 1] == j[k]);
        }
    }
}

/// The built tree reaches exactly the symbols of its starting list.
pub proof fn lemma_build_symbols(list: Seq<Node>, c: char)
    requires
        list.len() >= 1,
    ensures
        has_symbol(build(list), c) == list_has_symbol(list, c),
    decreases list.len(),
{
    if list.len() <= 1 {
        if has_symbol(list[0], c) {
            assert(has_symbol(list[0], c));
        }
    } else {
        lemma_join_front_symbols(list, c);
        lemma_build_symbols(join_front(list), c);
    }
}

/// A search succeeds exactly when the symbol is reachable.
pub proof fn lemma_search_finds(node: Node, c: char, code: u8)
    ensures
        search_code(node, c, code) is Some <==> has_symbol(node, c),
    decreases node,
{
    if node.symbol is None {
        if let Some(l) = node.left {
            lemma_search_finds(*l, c, ((2 * code) % 256) as u8);
        }
        if let Some(r) = node.right {
            lemma_search_finds(*r, c, ((2 * code) % 256 + 1) as u8);
        }
    }
}

/// Whether the nodes are in order of weight, lightest first.
pub open spec fn sorted_by_count(list: Seq<Node>) -> bool {
    forall|i: int, j: int| 0 <= i < j < list.len() ==> #[trigger] list[i].count <= #[trigger] list[j].count
}

/// The leading nodes that `first_heavier` counts weigh at most `w`, the next
/// one more.
proof fn lemma_first_heavier_split(list: Seq<Node>, w: int)
    ensures
        first_heavier(list, w) <= list.len(),
        forall|i: int| 0 <= i < first_heavier(list, w) ==> #[trigger] list[i].count <= w,
        first_heavier(list, w) < list.len() ==> list[first_heavier(list, w) as int].count > w,
    decreases list.len(),
{
    if list.len() > 0 && list[0].count <= w {
        lemma_first_heavier_split(list.drop_first(), w);
        assert forall|i: int| 0 <= i < first_heavier(list, w) implies #[trigger] list[i].count <= w by {
            if i > 0 {
                assert(list[i] == list.drop_first()[i - 1]);
            }
        }
    }
}

/// Joining the two lightest nodes of a list in order of weight keeps it in
/// order: the branch, weighing what its two children weigh together, comes
/// after every remaining node no heavier than it and before every heavier
/// one.
pub proof fn lemma_join_keeps_order(list: Seq<Node>)
    requires
        list.len() >= 2,
        sorted_by_count(list),
        list[0].count + list[1].count <= usize::MAX,
    ensures
        sorted_by_count(join_front(list)),
        join_front(list).len() == list.len() - 1,
        join_front(list).contains(branch(list[0], list[1])),
        forall|i: int| 0 <= i < join_front(list).len() ==> #[trigger] join_front(list)[i] == branch(list[0], list[1])
            || list.subrange(2, list.len() as int).contains(join_front(list)[i]),
{
    let b = branch(list[0], list[1]);
    let rest = list.subrange(2, list.len() as int);
    let w = b.count as int;
    assert(w == list[0].count + list[1].count);
    lemma_first_heavier_split(rest, w);
    let p = first_heavier(rest, w) as int;
    let q = rest.insert(p, b);
    assert(q == join_front(list));
    assert forall|i: int, j: int| 0 <= i < j < q.len() implies #[trigger] q[i].count <= #[trigger] q[j].count by {
        if j < p {
            assert(q[i] == rest[i] && q[j] == rest[j]);
            assert(rest[i] == list[i + 2] && rest[j] == list[j + 2]);
        } else if j == p {
            assert(q[i] == rest[i] && q[j] == b);
        } else if i < p {
            assert(q[i] == rest[i] && q[j] == rest[j - 1]);
            assert(rest[i] == list[i + 2] && rest[j - 1] == list[j + 1]);
        } else if i == p {
            assert(q[i] == b && q[j] == rest[j - 1]);
            assert(rest[p].count > w);
            assert(rest[p] == list[p + 2] && rest[j - 1] == list[j + 1]);
            if j - 1 > p {
                assert(list[p + 2].count <= list[j + 1].count);
            }
        } else {
            assert(q[i] == rest[i - 1] && q[j] == rest[j - 1]);
            assert(rest[i - 1] == list[i + 1] && rest[j - 1] == list[j + 1]);
        }
    }
    assert(q[p] == b);
    assert forall|i: int| 0 <= i < q.len() implies #[trigger] q[i] == b || rest.contains(q[i]) by {
        if i < p {
            assert(q[i] == rest[i]);
        } else if i > p {
            assert(q[i] == rest[i - 1]);
        }
    }
}

/// The tree built from a non-empty table finds a code for exactly the
/// symbols of the table.
pub proof fn lemma_tree_codes_table(table: Seq<Token>, c: char)
    requires
        table.len() >= 1,
    ensures
        search_code(build(leaves_of(table)), c, 0) is Some <==> exists|i: int|
            0 <= i < table.len() && #[trigger] table[i].symbol == c,
{
    let leaves = leaves_of(table);
    lemma_build_symbols(leaves, c);
    lemma_search_finds(build(leaves), c, 0);
    if exists|i: int| 0 <= i < table.len() && #[trigger] table[i].symbol == c {
        let i = choose|i: int| 0 <= i < table.len() && #[trigger] table[i].symbol == c;
        assert(has_symbol(leaves[i], c));
    }
    if list_has_symbol(leaves, c) {
        let i = choose|i: int| 0 <= i < leaves.len() && #[trigger] has_symbol(leaves[i], c);
        assert(table[i].symbol == c);
    }
}

pub proof fn lemma_count_sum_concat(a: Seq<Node>, b: Seq<Node>)
    ensures
        count_sum(a + b) == count_sum(a) + count_sum(b),
    decreases b.len(),
{
    if b.len() > 0 {
        lemma_count_sum_concat(a, b.drop_last());
        assert((a + b).drop_last() =~= a + b.drop_last());
    } else {
        assert(a + b =~= a);
    }
}

pub proof fn lemma_count_sum_nonneg(a: Seq<Node>)
    ensures
        count_sum(a) >= 0,
    decreases a.len(),
{
    if a.len() > 0 {
        lemma_count_sum_nonneg(a.drop_last());
    }
}

/// Joining keeps the total weight (when it fits in a `usize`).
pub proof fn lemma_join_front_count(list: Seq<Node>)
    requires
        list.len() >= 2,
        count_sum(list) <= usize::MAX,
    ensures
        count_sum(join_front(list)) == count_sum(list),
        list[0].count + list[1].count <= usize::MAX,
{
    let b = branch(list[0], list[1]);
    let rest = list.subrange(2, list.len() as int);
    let i = first_heavier(rest, b.count as int) as int;
    lemma_first_heavier_bound(rest, b.count as int);
    assert(list =~= seq![list[0], list[1]] + rest);
    lemma_count_sum_concat(seq![list[0], list[1]], rest);
    assert(seq![list[0], list[1]].drop_last() =~= seq![list[0]]);
    assert(seq![list[0]].drop_last() =~= Seq::<Node>::empty());
    assert(count_sum(Seq::<Node>::empty()) == 0);
    assert(count_sum(seq![list[0]]) == count_sum(Seq::<Node>::empty()) + list[0].count);
    assert(count_sum(seq![list[0], list[1]]) == count_sum(seq![list[0]]) + list[1].count);
    lemma_count_sum_nonneg(rest);
    let j = join_front(list);
    assert(j =~= rest.subrange(0, i) + seq![b] + rest.subrange(i, rest.len() as int));
    lemma_count_sum_concat(rest.subrange(0, i) + seq![b], rest.subrange(i, rest.len() as int));
    lemma_count_sum_concat(rest.subrange(0, i), seq![b]);
    lemma_count_sum_concat(rest.subrange(0, i), rest.subrange(i, rest.len() as int));
    assert(rest =~= rest.subrange(0, i) + rest.subrange(i, rest.len() as int));
    assert(seq![b].drop_last() =~= Seq::<Node>::empty());
    assert(count_sum(seq![b]) == count_sum(Seq::<Node>::empty()) + b.count);
}

impl Node {
    /// A leaf.
    pub fn new(symbol: char, count: usize) -> (n: Node)
        ensures
            n == leaf(symbol, count),
    {
        Node { parent: None, left: None, right: None, symbol: Some(symbol), count }
    }

    /// The branch joining two nodes; its weight is the sum of theirs.
    pub fn new_branch(left: Node, right: Node) -> (n: Node)
        requires
            left.count + right.count <= usize::MAX,
        ensures
            n == branch(left, right),
    {
        Node {
            count: left.count + right.count,
            parent: None,
            left: Some(Box::new(left)),
            right: Some(Box::new(right)),
            symbol: None,
        }
    }

    pub fn set_parent(&mut self, parent: Node)
        ensures
            final(self).parent == Some(Box::new(parent)),
            final(self).left == old(self).left,
            final(self).right == old(self).right,
            final(self).symbol == old(self).symbol,
            final(self).count == old(self).count,
    {
        self.parent = Some(Box::new(parent));
    }

    pub fn get_count(&self) -> (c: usize)
        ensures
            c == self.count,
    {
        self.count
    }

    /// The node's symbol, or a space for a branch.
    pub fn get_symbol(&self) -> (c: char)
        ensures
            c == match self.symbol {
                Some(s) => s,
                None => ' ',
            },
    {
        match self.symbol {
            Some(s) => s,
            None => ' ',
        }
    }

    pub fn is_leaf(&self) -> (b: bool)
        ensures
            b == (self.left is None && self.right is None),
    {
        self.left.is_none() && self.right.is_none()
    }
}

/// A code tree.
pub struct BinaryTree {
    pub root: Node,
}

impl BinaryTree {
    /// Builds the tree of a non-empty table: the leaves are taken in table
    /// order; while more than one node is left, the two front nodes are joined
    /// and the branch is put before the first remaining node heavier than it.
    pub fn new(table: Vec<Token>) -> (tree: BinaryTree)
        requires
            table.len() > 0,
            weight_sum(table@) <= usize::MAX,
        ensures
            tree.root == build(leaves_of(table@)),
    {
        let mut list: Vec<Node> = Vec::new();
        let mut i: usize = 0;
        while i < table.len()
            invariant
                i <= table.len(),
                list@ =~= leaves_of(table@.take(i as int)),
                count_sum(list@) == weight_sum(table@.take(i as int)),
            decreases table.len() - i,
        {
            proof {
                assert(table@.take(i + 1).drop_last() =~= table@.take(i as int));
            }
            list.push(Node::new(table[i].get_symbol(), table[i].get_probability()));
            proof {
                assert(list@.drop_last() =~= leaves_of(table@.take(i as int)));
            }
            i = i + 1;
        }
        proof {
            assert(table@.take(i as int) =~= table@);
        }
        let ghost goal = build(leaves_of(table@));
        while list.len() > 1
            invariant
                list.len() >= 1,
                build(list@) == goal,
                count_sum(list@) <= usize::MAX,
            decreases list.len(),
        {
            let ghost before = list@;
            proof {
                lemma_join_front_count(before);
            }
            let left = list.remove(0);
            let right = list.remove(0);
            proof {
                assert(list@ =~= before.subrange(2, before.len() as int));
            }
            let joined = Node::new_branch(left, right);
            let index = first_heavier_index(&list, joined.count);
            proof {
                lemma_first_heavier_bound(list@, joined.count as int);
            }
            list.insert(index, joined);
            proof {
                assert(list@ =~= join_front(before));
            }
        }
        let root = list.remove(0);
        BinaryTree { root }
    }

    pub fn get_root(&self) -> (root: &Node)
        ensures
            *root == self.root,
    {
        &self.root
    }

    /// The code of the leftmost leaf holding `value`, if any.
    pub fn search(root: &Node, value: char) -> (code: Option<u8>)
        ensures
            code == search_code(*root, value, 0),
    {
        BinaryTree::bfs_search(root, value, 0)
    }

    fn bfs_search(root: &Node, value: char, code: u8) -> (found: Option<u8>)
        ensures
            found == search_code(*root, value, code),
        decreases root,
    {
        match root.symbol {
            Some(s) => {
                if s == value {
                    Some(code)
                } else {
                    None
                }
            },
            None => {
                let shifted: u8 = code << 1;
                assert(shifted == ((2 * code) % 256) as u8 && shifted < 255) by (bit_vector)
                    requires
                        shifted == code << 1,
                ;
                let left_branch = match &root.left {
                    Some(l) => BinaryTree::bfs_search(l, value, shifted),
                    None => None,
                };
                let right_branch = match &root.right {
                    Some(r) => BinaryTree::bfs_search(r, value, shifted + 1),
                    None => None,
                };
                if left_branch.is_some() {
                    left_branch
                } else {
                    right_branch
                }
            },
        }
    }
    /// Reads a code: the symbol the bits lead to in the tree, if they end on
    /// one (see `tree_decode`).
    pub fn decode(tree: BinaryTree, input: &Vec<u8>) -> (symbol: Option<char>)
        ensures
            symbol == tree_decode(tree.root, input@),
    {
        match tree.root.symbol {
            Some(s) => {
                if input.len() == 1 {
                    Some(s)
                } else {
                    None
                }
            },
            None => {
                proof {
                    assert(input@.skip(0) =~= input@);
                }
                walk_from(&tree.root, input, 0)
            },
        }
    }
    /// The leaves of the tree, breadth first (left before right on each
    /// level), each with its symbol and weight.
    pub fn traversal(&self) -> (leaves: Vec<(char, usize)>)
        requires
            leaves_named(self.root),
        ensures
            leaves@ == bfs_leaves(seq![self.root]),
    {
        let mut queue: Vec<&Node> = Vec::new();
        queue.push(&self.root);
        let mut head: usize = 0;
        let mut leaves: Vec<(char, usize)> = Vec::new();
        let ghost goal = bfs_leaves(seq![self.root]);
        proof {
            assert(queue@.skip(0).map_values(|r: &Node| *r) =~= seq![self.root]);
            assert(leaves@ + goal =~= goal);
        }
        while head < queue.len()
            invariant
                head <= queue.len(),
                leaves@ + bfs_leaves(queue@.skip(head as int).map_values(|r: &Node| *r)) == goal,
                forall|q: int| head <= q < queue@.len() ==> leaves_named(*#[trigger] queue@[q]),
            decreases queue_size(queue@.skip(head as int).map_values(|r: &Node| *r)),
        {
            let ghost pending = queue@.skip(head as int).map_values(|r: &Node| *r);
            let first: &Node = queue[head];
            head = head + 1;
            proof {
                assert(pending[0] == *first);
                lemma_queue_step(pending);
            }
            if first.left.is_none() && first.right.is_none() {
                let s = match first.symbol {
                    Some(s) => s,
                    None => ' ',
                };
                let ghost before = leaves@;
                leaves.push((s, first.count));
                proof {
                    assert(leaves@ =~= before + seq![(first.symbol->0, first.count)]);
                }
            }
            match &first.left {
                Some(l) => {
                    queue.push(&**l);
                },
                None => {},
            }
            match &first.right {
                Some(r) => {
                    queue.push(&**r);
                },
                None => {},
            }
            proof {
                assert(queue@.skip(head as int).map_values(|r: &Node| *r) =~= pending.drop_first() + children(*first));
                let now = bfs_leaves(queue@.skip(head as int).map_values(|r: &Node| *r));
                assert(leaves@ + now =~= goal);
            }
        }
        proof {
            assert(queue@.skip(head as int).map_values(|r: &Node| *r) =~= Seq::<Node>::empty());
            assert(leaves@ + Seq::<(char, usize)>::empty() =~= leaves@);
        }
        leaves
    }
}

/// The walk from `node` along the bits of `bits` from position `i` on.
fn walk_from(node: &Node, bits: &Vec<u8>, i: usize) -> (symbol: Option<char>)
    requires
        i <= bits.len(),
    ensures
        symbol == walk(*node, bits@.skip(i as int)),
    decreases bits.len() - i,
{
    if i == bits.len() {
        node.symbol
    } else if node.symbol.is_some() {
        None
    } else {
        proof {
            assert(bits@.skip(i as int)[0] == bits@[i as int]);
            assert(bits@.skip(i as int).drop_first() =~= bits@.skip(i + 1));
        }
        let next = if bits[i] == 0 {
            &node.left
        } else {
            &node.right
        };
        match next {
            Some(n) => walk_from(n, bits, i + 1),
            None => None,
        }
    }
}

/// Index of the first node heavier than `w`.
fn first_heavier_index(list: &Vec<Node>, w: usize) -> (i: usize)
    ensures
        i == first_heavier(list@, w as int),
{
    let mut i: usize = 0;
    proof {
        assert(list@.subrange(0, list.len() as int) =~= list@);
    }
    while i < list.len() && list[i].count <= w
        invariant
            i <= list.len(),
            first_heavier(list@, w as int) == i + first_heavier(list@.subrange(i as int, list.len() as int), w as int),
        decreases list.len() - i,
    {
        proof {
            let tail = list@.subrange(i as int, list.len() as int);
            assert(tail.drop_first() =~= list@.subrange(i + 1, list.len() as int));
        }
        i = i + 1;
    }
    proof {
        assert(list@.subrange(0, list.len() as int) =~= list@);
    }
    i
}

} // verus!
