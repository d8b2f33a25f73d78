use vstd::prelude::*;
use vstd::set_lib::lemma_set_disjoint_lens;

verus! {

/// One node of a height-balanced search tree. `height` caches the height of
/// the subtree rooted here: a leaf has height 1, an absent child height 0.
pub struct Node {
    pub value: i32,
    pub left: Option<Box<Node>>,
    pub right: Option<Box<Node>>,
    pub height: i32,
}

/// Height of a subtree, computed from its shape.
pub open spec fn link_height(t: Option<Box<Node>>) -> nat
    decreases t,
{
    match t {
        None => 0,
        Some(n) => 1 + vstd::math::max(
            link_height(n.left) as int,
            link_height(n.right) as int,
        ) as nat,
    }
}

/// The values stored in a subtree.
pub open spec fn link_values(t: Option<Box<Node>>) -> Set<i32>
    decreases t,
{
    match t {
        None => Set::empty(),
        Some(n) => link_values(n.left).union(link_values(n.right)).insert(n.value),
    }
}

/// Number of nodes in a subtree.
pub open spec fn link_size(t: Option<Box<Node>>) -> nat
    decreases t,
{
    match t {
        None => 0,
        Some(n) => link_size(n.left) + link_size(n.right) + 1,
    }
}

/// Search-tree order: every value left of a node is smaller than the node's
/// value, every value right of it is greater.
pub open spec fn is_ordered(t: Option<Box<Node>>) -> bool
    decreases t,
{
    match t {
        None => true,
        Some(n) => {
            &&& forall|x: i32| #[trigger] link_values(n.left).contains(x) ==> x < n.value
            &&& forall|x: i32| #[trigger] link_values(n.right).contains(x) ==> x > n.value
            &&& is_ordered(n.left)
            &&& is_ordered(n.right)
        },
    }
}

/// Height balance: at every node the heights of the two subtrees differ by at
/// most one.
pub open spec fn is_balanced(t: Option<Box<Node>>) -> bool
    decreases t,
{
    match t {
        None => true,
        Some(n) => {
            &&& -1 <= link_height(n.left) - link_height(n.right) <= 1
            &&& is_balanced(n.left)
            &&& is_balanced(n.right)
        },
    }
}

/// Every node's `height` field equals the height of its subtree.
pub open spec fn heights_cached(t: Option<Box<Node>>) -> bool
    decreases t,
{
    match t {
        None => true,
        Some(n) => {
            &&& n.height as int == link_height(t) as int
            &&& heights_cached(n.left)
            &&& heights_cached(n.right)
        },
    }
}

/// The three invariants of a well-formed subtree.
pub open spec fn is_avl(t: Option<Box<Node>>) -> bool {
    is_ordered(t) && is_balanced(t) && heights_cached(t)
}

/// The `height` field of the root of a subtree, 0 when it is absent.
pub open spec fn cached_height(t: Option<Box<Node>>) -> int {
    match t {
        None => 0,
        Some(n) => n.height as int,
    }
}

/// A node over the given children, with its height field set from them.
pub open spec fn mk(value: i32, left: Option<Box<Node>>, right: Option<Box<Node>>) -> Node {
    Node {
        value,
        left,
        right,
        height: (1 + vstd::math::max(link_height(left) as int, link_height(right) as int)) as i32,
    }
}

/// The Fibonacci numbers, with `fib(0) == 0` and `fib(1) == 1`.
pub open spec fn fib(n: nat) -> nat
    decreases n,
{
    if n == 0 {
        0
    } else if n == 1 {
        1
    } else {
        fib((n - 1) as nat) + fib((n - 2) as nat)
    }
}

proof fn lemma_fib_monotonic(i: nat, j: nat)
    requires
        i <= j,
    ensures
        fib(i) <= fib(j),
    decreases j,
{
    if i < j {
        lemma_fib_monotonic(i, (j - 1) as nat);
    }
}

proof fn lemma_fib_doubles(k: nat)
    ensures
        fib(2 * k + 2) >= vstd::arithmetic::power2::pow2(k),
    decreases k,
{
    if k == 0 {
        vstd::arithmetic::power2::lemma2_to64();
        assert(fib(2) == fib(1) + fib(0));
    } else {
        lemma_fib_doubles((k - 1) as nat);
        vstd::arithmetic::power2::lemma_pow2_unfold(k);
        lemma_fib_monotonic(2 * k, 2 * k + 1);
        assert(fib(2 * k + 2) == fib(2 * k + 1) + fib(2 * k as nat));
    }
}

/// A balanced subtree of height `h` holds at least `fib(h + 2) - 1` nodes.
proof fn lemma_size_lower_bound(t: Option<Box<Node>>)
    requires
        is_balanced(t),
    ensures
        fib(link_height(t) + 2) <= link_size(t) + 1,
    decreases t,
{
    if let Some(n) = t {
        lemma_size_lower_bound(n.left);
        lemma_size_lower_bound(n.right);
        let hl = link_height(n.left);
        let hr = link_height(n.right);
        let h = link_height(t);
        assert(fib(h + 2) == fib(h + 1) + fib(h as nat));
        if hl >= hr {
            lemma_fib_monotonic(h as nat, hr + 2);
        } else {
            lemma_fib_monotonic(h as nat, hl + 2);
        }
    } else {
        assert(fib(2) == fib(1) + fib(0));
    }
}

/// An ordered subtree whose values lie strictly between `lo` and `hi` has at
/// most `hi - lo - 1` nodes.
proof fn lemma_size_upper_bound(t: Option<Box<Node>>, lo: int, hi: int)
    requires
        is_ordered(t),
        lo < hi,
        forall|x: i32| #[trigger] link_values(t).contains(x) ==> lo < x < hi,
    ensures
        link_size(t) <= hi - lo - 1,
    decreases t,
{
    if let Some(n) = t {
        assert(link_values(t).contains(n.value));
        assert forall|x: i32| #[trigger] link_values(n.left).contains(x) implies lo < x < n.value by {
            assert(link_values(t).contains(x));
        }
        assert forall|x: i32| #[trigger] link_values(n.right).contains(x) implies n.value < x < hi by {
            assert(link_values(t).contains(x));
        }
        lemma_size_upper_bound(n.left, lo, n.value as int);
        lemma_size_upper_bound(n.right, n.value as int, hi);
    }
}

/// A well-formed subtree is shallow: its height stays far below the range of
/// the `height` field.
proof fn lemma_height_small(t: Option<Box<Node>>)
    requires
        is_ordered(t),
        is_balanced(t),
    ensures
        link_height(t) <= 65,
{
    lemma_size_lower_bound(t);
    lemma_size_upper_bound(t, i32::MIN - 1, i32::MAX + 1);
    if link_height(t) > 65 {
        lemma_fib_doubles(33);
        vstd::arithmetic::power2::lemma2_to64();
        vstd::arithmetic::power2::lemma_pow2_unfold(33);
        lemma_fib_monotonic(68, link_height(t) + 2);
    }
}

/// The children of a well-formed node are well formed.
proof fn lemma_children(t: Option<Box<Node>>)
    requires
        is_avl(t),
        t is Some,
    ensures
        is_avl(t.unwrap().left),
        is_avl(t.unwrap().right),
{
}

/// A node built by `mk` over subtrees with correct cached heights has correct
/// cached heights too.
proof fn lemma_mk_cached(value: i32, left: Option<Box<Node>>, right: Option<Box<Node>>)
    requires
        heights_cached(left),
        heights_cached(right),
        link_height(left) < 100,
        link_height(right) < 100,
    ensures
        heights_cached(Some(Box::new(mk(value, left, right)))),
        link_height(Some(Box::new(mk(value, left, right)))) == 1 + vstd::math::max(
            link_height(left) as int,
            link_height(right) as int,
        ),
{
}

/// A node built by `mk` over well-formed, correctly ordered subtrees whose
/// heights differ by at most one is well formed, and holds their values and
/// its own.
proof fn lemma_mk(value: i32, left: Option<Box<Node>>, right: Option<Box<Node>>)
    requires
        is_avl(left),
        is_avl(right),
        forall|x: i32| #[trigger] link_values(left).contains(x) ==> x < value,
        forall|x: i32| #[trigger] link_values(right).contains(x) ==> x > value,
        -1 <= link_height(left) - link_height(right) <= 1,
        link_height(left) < 100,
        link_height(right) < 100,
    ensures
        is_avl(Some(Box::new(mk(value, left, right)))),
        link_values(Some(Box::new(mk(value, left, right)))) == link_values(left).union(
            link_values(right),
        ).insert(value),
        link_height(Some(Box::new(mk(value, left, right)))) == 1 + vstd::math::max(
            link_height(left) as int,
            link_height(right) as int,
        ),
{
    lemma_mk_cached(value, left, right);
}

impl View for Node {
    type V = Set<i32>;

    /// The values held by the subtree rooted at this node.
    open spec fn view(&self) -> Set<i32> {
        link_values(Some(Box::new(*self)))
    }
}

impl Node {
    /// The subtree rooted at this node meets all three invariants.
    pub open spec fn wf(self) -> bool {
        is_avl(Some(Box::new(self)))
    }

    /// A leaf holding `value`.
    pub fn new(value: i32) -> (n: Node)
        ensures
            n == mk(value, None, None),
            n.wf(),
            n@ == set![value],
    {
        let n = Node { value, left: None, right: None, height: 1 };
        assert(link_values(None) == Set::<i32>::empty());
        assert(link_height(None) == 0);
        assert(is_ordered(None) && is_balanced(None) && heights_cached(None));
        assert(n@ =~= set![value]);
        n
    }

    /// The cached height of a subtree, 0 when it is absent.
    pub fn height(node: &Option<Box<Node>>) -> (h: i32)
        ensures
            h == cached_height(*node),
    {
        match node {
            Some(n) => n.height,
            None => 0,
        }
    }

    /// Height of the left subtree minus height of the right subtree.
    pub fn balance_factor(&self) -> (b: i32)
        requires
            heights_cached(self.left),
            heights_cached(self.right),
        ensures
            b == link_height(self.left) - link_height(self.right),
    {
        Node::height(&self.left) - Node::height(&self.right)
    }

    /// Sets the height field from the children's cached heights.
    fn update_height(&mut self)
        requires
            heights_cached(old(self).left),
            heights_cached(old(self).right),
            link_height(old(self).left) < i32::MAX,
            link_height(old(self).right) < i32::MAX,
        ensures
            *final(self) == mk(old(self).value, old(self).left, old(self).right),
    {
        let hl = Node::height(&self.left);
        let hr = Node::height(&self.right);
        self.height = if hl >= hr { hl + 1 } else { hr + 1 };
    }

    /// Promotes the left child above this node.
    fn rotate_right(self) -> (r: Box<Node>)
        requires
            self.left is Some,
            heights_cached(self.left),
            heights_cached(self.right),
            link_height(self.left) < 100,
            link_height(self.right) < 100,
        ensures
            ({
                let l = *self.left.unwrap();
                *r == mk(l.value, l.left, Some(Box::new(mk(self.value, l.right, self.right))))
            }),
    {
        let mut node = self;
        let mut left_child = *node.left.take().unwrap();
        node.left = left_child.right.take();
        node.update_height();
        left_child.right = Some(Box::new(node));
        left_child.update_height();
        Box::new(left_child)
    }

    /// Promotes the right child above this node.
    fn rotate_left(self) -> (r: Box<Node>)
        requires
            self.right is Some,
            heights_cached(self.left),
            heights_cached(self.right),
            link_height(self.left) < 100,
            link_height(self.right) < 100,
        ensures
            ({
                let rc = *self.right.unwrap();
                *r == mk(rc.value, Some(Box::new(mk(self.value, self.left, rc.left))), rc.right)
            }),
    {
        let mut node = self;
        let mut right_child = *node.right.take().unwrap();
        node.right = right_child.left.take();
        node.update_height();
        right_child.left = Some(Box::new(node));
        right_child.update_height();
        Box::new(right_child)
    }

    /// Recomputes this node's height and restores the balance of the subtree
    /// rooted here by one or two rotations, returning the new subtree root.
    fn balance(self) -> (r: Box<Node>)
        requires
            is_avl(self.left),
            is_avl(self.right),
            forall|x: i32| #[trigger] link_values(self.left).contains(x) ==> x < self.value,
            forall|x: i32| #[trigger] link_values(self.right).contains(x) ==> x > self.value,
            -2 <= link_height(self.left) - link_height(self.right) <= 2,
        ensures
            r.wf(),
            r@ == link_values(self.left).union(link_values(self.right)).insert(self.value),
            -1 <= link_height(self.left) - link_height(self.right) <= 1 ==> *r == mk(
                self.value,
                self.left,
                self.right,
            ),
            vstd::math::max(link_height(self.left) as int, link_height(self.right) as int)
                <= link_height(Some(r)) <= 1 + vstd::math::max(
                link_height(self.left) as int,
                link_height(self.right) as int,
            ),
    {
        let ghost v = self.value;
        let ghost lt = self.left;
        let ghost rt = self.right;
        proof {
            lemma_height_small(lt);
            lemma_height_small(rt);
        }
        let mut node = self;
        node.update_height();
        let balance = node.balance_factor();
        if balance > 1 {
            let left = *node.left.take().unwrap();
            assert(link_values(lt).contains(left.value));
            if left.balance_factor() < 0 {
                let ghost b = *left.right.unwrap();
                proof {
                    lemma_children(lt);
                    lemma_children(left.right);
                    assert forall|x: i32| #[trigger] link_values(b.left).contains(x) implies x
                        > left.value && x < v by {
                        assert(link_values(left.right).contains(x));
                        assert(link_values(lt).contains(x));
                    }
                    assert forall|x: i32| #[trigger] link_values(b.right).contains(x) implies x
                        > left.value && x < v by {
                        assert(link_values(left.right).contains(x));
                        assert(link_values(lt).contains(x));
                    }
                    assert(link_values(left.right).contains(b.value));
                    assert(link_values(lt).contains(b.value));
                    lemma_mk(left.value, left.left, b.left);
                    lemma_mk(v, b.right, rt);
                    lemma_mk_cached(b.value, Some(Box::new(mk(left.value, left.left, b.left))), b.right);
                    lemma_mk(
                        b.value,
                        Some(Box::new(mk(left.value, left.left, b.left))),
                        Some(Box::new(mk(v, b.right, rt))),
                    );
                }
                node.left = Some(left.rotate_left());
            } else {
                proof {
                    lemma_children(lt);
                    assert forall|x: i32| #[trigger] link_values(left.right).contains(x) implies x
                        > left.value && x < v by {
                        assert(link_values(lt).contains(x));
                    }
                    lemma_mk(v, left.right, rt);
                    lemma_mk(left.value, left.left, Some(Box::new(mk(v, left.right, rt))));
                }
                node.left = Some(Box::new(left));
            }
            node.rotate_right()
        } else if balance < -1 {
            let right = *node.right.take().unwrap();
            assert(link_values(rt).contains(right.value));
            if right.balance_factor() > 0 {
                let ghost c = *right.left.unwrap();
                proof {
                    lemma_children(rt);
                    lemma_children(right.left);
                    assert forall|x: i32| #[trigger] link_values(c.left).contains(x) implies x
                        < right.value && x > v by {
                        assert(link_values(right.left).contains(x));
                        assert(link_values(rt).contains(x));
                    }
                    assert forall|x: i32| #[trigger] link_values(c.right).contains(x) implies x
                        < right.value && x > v by {
                        assert(link_values(right.left).contains(x));
                        assert(link_values(rt).contains(x));
                    }
                    assert(link_values(right.left).contains(c.value));
                    assert(link_values(rt).contains(c.value));
                    lemma_mk(v, lt, c.left);
                    lemma_mk(right.value, c.right, right.right);
                    lemma_mk_cached(c.value, c.left, Some(Box::new(mk(right.value, c.right, right.right))));
                    lemma_mk(
                        c.value,
                        Some(Box::new(mk(v, lt, c.left))),
                        Some(Box::new(mk(right.value, c.right, right.right))),
                    );
                }
                node.right = Some(right.rotate_right());
            } else {
                proof {
                    lemma_children(rt);
                    assert forall|x: i32| #[trigger] link_values(right.left).contains(x) implies x
                        < right.value && x > v by {
                        assert(link_values(rt).contains(x));
                    }
                    lemma_mk(v, lt, right.left);
                    lemma_mk(right.value, Some(Box::new(mk(v, lt, right.left))), right.right);
                }
                node.right = Some(Box::new(right));
            }
            node.rotate_left()
        } else {
            proof {
                lemma_mk(v, lt, rt);
            }
            Box::new(node)
        }
    }

    /// Inserts `value` into the subtree rooted at this node and returns the
    /// rebalanced subtree. A value already present leaves the subtree as it is.
    pub fn insert(self, value: i32) -> (r: Box<Node>)
        requires
            self.wf(),
        ensures
            r.wf(),
            r@ == self@.insert(value),
            self@.contains(value) ==> *r == self,
            link_height(Some(Box::new(self))) <= link_height(Some(r)) <= link_height(
                Some(Box::new(self)),
            ) + 1,
        decreases self,
    {
        let ghost old_node = self;
        proof {
            lemma_children(Some(Box::new(self)));
        }
        let mut node = self;
        if value < node.value {
            node.left = match node.left.take() {
                Some(left) => Some((*left).insert(value)),
                None => Some(Box::new(Node::new(value))),
            };
            proof {
                assert(!link_values(old_node.right).contains(value));
                assert(link_values(None) == Set::<i32>::empty());
                assert(link_height(None) == 0);
            }
        } else if value > node.value {
            node.right = match node.right.take() {
                Some(right) => Some((*right).insert(value)),
                None => Some(Box::new(Node::new(value))),
            };
            proof {
                assert(!link_values(old_node.left).contains(value));
                assert(link_values(None) == Set::<i32>::empty());
                assert(link_height(None) == 0);
            }
        }
        let r = node.balance();
        proof {
            assert(r@ =~= old_node@.insert(value));
        }
        r
    }

    /// Whether `value` is stored in the subtree rooted at this node.
    pub fn search(&self, value: i32) -> (found: bool)
        requires
            is_ordered(Some(Box::new(*self))),
        ensures
            found == self@.contains(value),
        decreases *self,
    {
        assert(link_values(None) == Set::<i32>::empty());
        if value == self.value {
            true
        } else if value < self.value {
            match &self.left {
                Some(left) => {
                    assert(!link_values(self.right).contains(value));
                    left.search(value)
                },
                None => {
                    assert(!link_values(self.right).contains(value));
                    false
                },
            }
        } else {
            match &self.right {
                Some(right) => {
                    assert(!link_values(self.left).contains(value));
                    right.search(value)
                },
                None => {
                    assert(!link_values(self.left).contains(value));
                    false
                },
            }
        }
    }
}

/// An ordered set of `i32` values kept as a height-balanced search tree.
pub struct Tree {
    root: Option<Box<Node>>,
}

impl Tree {
    /// The root of the tree, absent when it is empty.
    pub closed spec fn link(&self) -> Option<Box<Node>> {
        self.root
    }

    /// Order, balance and cached heights hold throughout the tree.
    pub open spec fn wf(&self) -> bool {
        is_avl(self.link())
    }

    /// Height of the tree: 0 when empty, 1 for a single node.
    pub open spec fn height(&self) -> nat {
        link_height(self.link())
    }

    /// An empty tree.
    pub fn new() -> (t: Tree)
        ensures
            t.wf(),
            t@ == Set::<i32>::empty(),
            t.height() == 0,
    {
        let t = Tree { root: None };
        assert(link_values(None) == Set::<i32>::empty());
        assert(link_height(None) == 0);
        assert(is_ordered(None) && is_balanced(None) && heights_cached(None));
        t
    }

    /// Adds `value` to the tree and rebalances it. Inserting a value that is
    /// already present changes nothing.
    pub fn insert(&mut self, value: i32)
        requires
            old(self).wf(),
        ensures
            final(self).wf(),
            final(self)@ == old(self)@.insert(value),
            old(self)@.contains(value) ==> *final(self) == *old(self),
            old(self).height() <= final(self).height() <= old(self).height() + 1,
    {
        self.root = match self.root.take() {
            Some(root) => Some((*root).insert(value)),
            None => {
                proof {
                    assert(link_values(None) == Set::<i32>::empty());
                    assert(link_height(None) == 0);
                }
                Some(Box::new(Node::new(value)))
            },
        };
    }

    /// Whether `value` is in the tree.
    pub fn search(&self, value: i32) -> (found: bool)
        requires
            self.wf(),
        ensures
            found == self@.contains(value),
    {
        match &self.root {
            Some(root) => root.search(value),
            None => {
                assert(link_values(None) == Set::<i32>::empty());
                false
            },
        }
    }

    /// The root node, absent when the tree is empty.
    pub fn root(&self) -> (r: &Option<Box<Node>>)
        ensures
            *r == self.link(),
    {
        &self.root
    }
}

impl View for Tree {
    type V = Set<i32>;

    /// The values stored in the tree.
    open spec fn view(&self) -> Set<i32> {
        link_values(self.link())
    }
}

/// In an ordered subtree every node holds a distinct value, so the number of
/// nodes is the number of values.
proof fn lemma_size_is_len(t: Option<Box<Node>>)
    requires
        is_ordered(t),
    ensures
        link_values(t).finite(),
        link_values(t).len() == link_size(t),
    decreases t,
{
    if let Some(n) = t {
        lemma_size_is_len(n.left);
        lemma_size_is_len(n.right);
        let l = link_values(n.left);
        let r = link_values(n.right);
        assert(l.disjoint(r)) by {
            assert forall|x: i32| l.contains(x) implies !r.contains(x) by {
                assert(x < n.value);
            }
        }
        lemma_set_disjoint_lens(l, r);
        assert(!l.union(r).contains(n.value)) by {
            if l.contains(n.value) {
                assert(n.value < n.value);
            }
            if r.contains(n.value) {
                assert(n.value > n.value);
            }
        }
    } else {
        assert(link_values(t) == Set::<i32>::empty());
    }
}

/// Height bound of balanced trees: a well-formed tree of height `h` holding
/// `n` values has `fib(h + 2) <= n + 1`, that is
/// `h <= 1.44 * log2(n + 2)` roughly.
pub proof fn lemma_height_bound(tree: Tree)
    requires
        tree.wf(),
    ensures
        fib(tree.height() + 2) <= tree@.len() + 1,
{
    lemma_size_lower_bound(tree.link());
    lemma_size_is_len(tree.link());
}

/// Search after a run of insertions: if `trees[0]` is empty and each
/// `trees[i + 1]` is `trees[i]` with `values[i]` inserted, as `Tree::new` and
/// `Tree::insert` guarantee, the last tree contains exactly the inserted
/// values, so `Tree::search` finds `q` if and only if it was inserted.
pub proof fn lemma_search_after_inserts(trees: Seq<Tree>, values: Seq<i32>, q: i32)
    requires
        trees.len() == values.len() + 1,
        trees[0]@ == Set::<i32>::empty(),
        forall|i: int| 0 <= i < values.len() ==> #[trigger] trees[i + 1]@ == trees[i]@.insert(values[i]),
    ensures
        trees.last()@.contains(q) <==> values.contains(q),
    decreases values.len(),
{
    if values.len() > 0 {
        let k = values.len() - 1;
        lemma_search_after_inserts(trees.drop_last(), values.drop_last(), q);
        assert(trees[k + 1]@ == trees[k]@.insert(values[k]));
        assert(trees.drop_last().last() == trees[k]);
        if values.drop_last().contains(q) {
            let j = choose|j: int| 0 <= j < values.drop_last().len() && values.drop_last()[j] == q;
            assert(values[j] == q);
        }
        if values.contains(q) && q != values[k] {
            let j = choose|j: int| 0 <= j < values.len() && values[j] == q;
            assert(values.drop_last()[j] == q);
        }
    }
}

} // verus!
