use vstd::prelude::*;
use vstd::multiset::Multiset;

verus! {

broadcast use vstd::multiset::group_multiset_axioms;

/// One node of a [`Tree`]: a value, the subtree of smaller values on its
/// left and the subtree of values at least as large on its right.
pub struct TreeNode {
    pub value: i32,
    pub left: Option<Box<TreeNode>>,
    pub right: Option<Box<TreeNode>>,
}

/// The values held by an optional subtree, with their multiplicities.
pub open spec fn contents(t: Option<Box<TreeNode>>) -> Multiset<i32>
    decreases t,
{
    match t {
        None => Multiset::empty(),
        Some(n) => contents(n.left).add(contents(n.right)).insert(n.value),
    }
}

/// Every value of `t` is smaller than `bound`.
pub open spec fn all_below(t: Option<Box<TreeNode>>, bound: i32) -> bool {
    forall|x: i32| #[trigger] contents(t).contains(x) ==> x < bound
}

/// Every value of `t` is at least `bound`.
pub open spec fn all_at_least(t: Option<Box<TreeNode>>, bound: i32) -> bool {
    forall|x: i32| #[trigger] contents(t).contains(x) ==> bound <= x
}

/// The search-tree order: at every node, the left subtree holds smaller
/// values and the right subtree values at least as large.
pub open spec fn is_search_tree(t: Option<Box<TreeNode>>) -> bool
    decreases t,
{
    match t {
        None => true,
        Some(n) => {
            &&& all_below(n.left, n.value)
            &&& all_at_least(n.right, n.value)
            &&& is_search_tree(n.left)
            &&& is_search_tree(n.right)
        },
    }
}

/// A node holding `value` and nothing below it.
pub open spec fn leaf(value: i32) -> TreeNode {
    TreeNode { value, left: None, right: None }
}

/// The node `n` with `v` added as a new leaf at the end of its search path:
/// to the left of every node whose value is larger than `v`, to the right
/// of every other node.
pub open spec fn node_with(n: TreeNode, v: i32) -> TreeNode
    decreases n,
{
    if v < n.value {
        TreeNode { left: tree_with(n.left, v), ..n }
    } else {
        TreeNode { right: tree_with(n.right, v), ..n }
    }
}

/// The subtree `t` with `v` added as a new leaf at the end of its search path.
pub open spec fn tree_with(t: Option<Box<TreeNode>>, v: i32) -> Option<Box<TreeNode>>
    decreases t,
{
    match t {
        None => Some(Box::new(leaf(v))),
        Some(n) => Some(Box::new(node_with(*n, v))),
    }
}

/// The node `n` after a deletion of `v`: if `n` holds `v` it keeps its value
/// and loses both subtrees; otherwise the deletion goes on along the search
/// path, and the first node there that holds `v` is cut off with all below it.
pub open spec fn node_without(n: TreeNode, v: i32) -> TreeNode
    decreases n,
{
    if n.value == v {
        TreeNode { left: None, right: None, ..n }
    } else if v < n.value {
        TreeNode { left: tree_without(n.left, v), ..n }
    } else {
        TreeNode { right: tree_without(n.right, v), ..n }
    }
}

/// The subtree `t` with the first node on the search path of `v` that holds
/// `v` cut off, together with everything below it.
pub open spec fn tree_without(t: Option<Box<TreeNode>>, v: i32) -> Option<Box<TreeNode>>
    decreases t,
{
    match t {
        None => None,
        Some(n) => if n.value == v {
            None
        } else {
            Some(Box::new(node_without(*n, v)))
        },
    }
}

/// The values of `t` in print order: each node before its left subtree,
/// and the left subtree before the right one.
pub open spec fn preorder(t: Option<Box<TreeNode>>) -> Seq<i32>
    decreases t,
{
    match t {
        None => Seq::empty(),
        Some(n) => seq![n.value] + preorder(n.left) + preorder(n.right),
    }
}

impl TreeNode {
    /// A fresh node holding `value`, with no subtrees.
    pub fn new(value: i32) -> (node: Box<Self>)
        ensures
            *node == leaf(value),
    {
        Box::new(TreeNode { value, left: None, right: None })
    }

    /// Adds `value` below this node, as a new leaf at the end of its search
    /// path.
    pub fn insert(&mut self, value: i32)
        ensures
            *final(self) == node_with(*old(self), value),
            adds_leaf(Some(Box::new(*old(self))), Some(Box::new(*final(self))), value),
            contents(Some(Box::new(*final(self)))) == contents(Some(Box::new(*old(self)))).insert(value),
        decreases *old(self),
    {
        proof {
            lemma_insert_adds_leaf(Some(Box::new(*old(self))), value);
            lemma_adds_leaf_contents(Some(Box::new(*old(self))), tree_with(Some(Box::new(*old(self))), value), value);
        }
        if value < self.value {
            match self.left.take() {
                None => {
                    self.left = Some(TreeNode::new(value));
                },
                Some(mut left_node) => {
                    left_node.insert(value);
                    self.left = Some(left_node);
                },
            }
        } else {
            match self.right.take() {
                None => {
                    self.right = Some(TreeNode::new(value));
                },
                Some(mut right_node) => {
                    right_node.insert(value);
                    self.right = Some(right_node);
                },
            }
        }
    }

    /// Deletes `value` below this node. Returns whether this node itself
    /// holds `value`, in which case its subtrees are dropped and the caller
    /// is to cut it off; otherwise the first node holding `value` on the
    /// search path, if any, is cut off with everything below it.
    pub fn delete(&mut self, value: i32) -> (found: bool)
        ensures
            found == (old(self).value == value),
            *final(self) == node_without(*old(self), value),
            found ==> final(self).value == value && final(self).left is None && final(self).right is None,
            !found ==> Some(Box::new(*final(self))) == tree_without(Some(Box::new(*old(self))), value),
            !found && is_search_tree(Some(Box::new(*old(self))))
                && contents(Some(Box::new(*old(self)))).contains(value) ==> exists|cut: Option<Box<TreeNode>>|
                #![trigger cuts_off(Some(Box::new(*old(self))), Some(Box::new(*final(self))), cut)]
                cuts_off(Some(Box::new(*old(self))), Some(Box::new(*final(self))), cut)
                    && cut.unwrap().value == value,
        decreases *old(self),
    {
        proof {
            if old(self).value != value && is_search_tree(Some(Box::new(*old(self))))
                && contents(Some(Box::new(*old(self)))).contains(value) {
                lemma_delete_cuts_one_subtree(Some(Box::new(*old(self))), value);
            }
        }
        if self.value == value {
            self.left = None;
            self.right = None;
            return true;
        } else if self.value > value {
            match self.left.take() {
                None => {},
                Some(mut left_node) => {
                    if !left_node.delete(value) {
                        self.left = Some(left_node);
                    }
                },
            }
        } else if self.value < value {
            match self.right.take() {
                None => {},
                Some(mut right_node) => {
                    if !right_node.delete(value) {
                        self.right = Some(right_node);
                    }
                },
            }
        }
        false
    }

    /// Appends the values of the subtree at `node` to `out` in print order.
    pub fn print(node: &TreeNode, out: &mut Vec<i32>)
        ensures
            final(out)@ == old(out)@ + preorder(Some(Box::new(*node))),
            final(out)@ == old(out)@ + seq![node.value] + preorder(node.left) + preorder(node.right),
        decreases *node,
    {
        out.push(node.value);
        if let Some(left_node) = &node.left {
            TreeNode::print(left_node, out);
        }
        assert(out@ =~= old(out)@ + seq![node.value] + preorder(node.left));
        if let Some(right_node) = &node.right {
            TreeNode::print(right_node, out);
        }
        assert(out@ =~= old(out)@ + seq![node.value] + preorder(node.left) + preorder(node.right));
        assert(preorder(Some(Box::new(*node))) == seq![node.value] + preorder(node.left) + preorder(node.right));
        assert(out@ =~= old(out)@ + preorder(Some(Box::new(*node))));
    }
}

/// Adding a value keeps the search-tree order, and the tree then holds
/// exactly what it held before and one more copy of that value.
pub proof fn lemma_insert_keeps_order(t: Option<Box<TreeNode>>, v: i32)
    requires
        is_search_tree(t),
    ensures
        is_search_tree(tree_with(t, v)),
        contents(tree_with(t, v)) =~= contents(t).insert(v),
    decreases t,
{
    match t {
        None => {
            assert(contents(tree_with(t, v)) =~= Multiset::empty().add(Multiset::empty()).insert(v));
            assert(contents(None::<Box<TreeNode>>) =~= Multiset::empty());
            assert(is_search_tree(Some(Box::new(leaf(v)))));
        },
        Some(n) => {
            if v < n.value {
                lemma_insert_keeps_order(n.left, v);
                assert forall|x: i32| #[trigger] contents(tree_with(n.left, v)).contains(x) implies x
                    < n.value by {
                    assert(contents(n.left).contains(x) || x == v);
                }
            } else {
                lemma_insert_keeps_order(n.right, v);
                assert forall|x: i32| #[trigger] contents(tree_with(n.right, v)).contains(x) implies n.value
                    <= x by {
                    assert(contents(n.right).contains(x) || x == v);
                }
            }
        },
    }
}

/// Deleting a value keeps the search-tree order, removes every copy of
/// that value, and adds nothing: what is left is part of what was there.
pub proof fn lemma_delete_removes_value(t: Option<Box<TreeNode>>, v: i32)
    requires
        is_search_tree(t),
    ensures
        is_search_tree(tree_without(t, v)),
        !contents(tree_without(t, v)).contains(v),
        contents(tree_without(t, v)).subset_of(contents(t)),
    decreases t,
{
    match t {
        None => {
            assert(tree_without(t, v) == t);
        },
        Some(n) => {
            if n.value == v {
                assert(contents(None::<Box<TreeNode>>) =~= Multiset::empty());
            } else if v < n.value {
                lemma_delete_removes_value(n.left, v);
                assert(!contents(n.right).contains(v));
                assert forall|x: i32| #[trigger] contents(tree_without(n.left, v)).contains(x) implies x
                    < n.value by {
                    assert(contents(tree_without(n.left, v)).count(x) <= contents(n.left).count(x));
                    assert(contents(n.left).contains(x));
                }
            } else {
                lemma_delete_removes_value(n.right, v);
                assert(!contents(n.left).contains(v));
                assert forall|x: i32| #[trigger] contents(tree_without(n.right, v)).contains(x) implies n.value
                    <= x by {
                    assert(contents(tree_without(n.right, v)).count(x) <= contents(n.right).count(x));
                    assert(contents(n.right).contains(x));
                }
            }
        },
    }
}

/// Deleting a value that the tree does not hold leaves the tree as it was.
pub proof fn lemma_delete_absent_is_noop(t: Option<Box<TreeNode>>, v: i32)
    requires
        !contents(t).contains(v),
    ensures
        tree_without(t, v) == t,
    decreases t,
{
    match t {
        None => {},
        Some(n) => {
            if v < n.value {
                lemma_delete_absent_is_noop(n.left, v);
            } else if n.value < v {
                lemma_delete_absent_is_noop(n.right, v);
            }
        },
    }
}

/// Printing lists every value of the tree, each as often as the tree holds it.
pub proof fn lemma_print_lists_contents(t: Option<Box<TreeNode>>)
    ensures
        preorder(t).to_multiset() =~= contents(t),
    decreases t,
{
    broadcast use vstd::seq_lib::group_to_multiset_ensures;

    match t {
        None => {
            assert(preorder(t) =~= Seq::<i32>::empty());
        },
        Some(n) => {
            lemma_print_lists_contents(n.left);
            lemma_print_lists_contents(n.right);
            let l = preorder(n.left);
            let r = preorder(n.right);
            vstd::seq_lib::lemma_multiset_commutative(seq![n.value] + l, r);
            vstd::seq_lib::lemma_multiset_commutative(seq![n.value], l);
            assert(seq![n.value] =~= Seq::<i32>::empty().push(n.value));
        },
    }
}

/// `after` is `before` with one new leaf holding `v` hung in one of its
/// empty child slots: every node of `before` keeps its place, its value and
/// its children, except for that one slot.
pub open spec fn adds_leaf(before: Option<Box<TreeNode>>, after: Option<Box<TreeNode>>, v: i32) -> bool
    decreases before,
{
    match before {
        None => after == Some(Box::new(leaf(v))),
        Some(n) => match after {
            None => false,
            Some(m) => m.value == n.value && ((m.left == n.left && adds_leaf(n.right, m.right, v))
                || (m.right == n.right && adds_leaf(n.left, m.left, v))),
        },
    }
}

/// `after` is `before` with its subtree `cut` (a whole subtree of `before`)
/// replaced by nothing: every other node keeps its place, value and children.
pub open spec fn cuts_off(before: Option<Box<TreeNode>>, after: Option<Box<TreeNode>>, cut: Option<Box<TreeNode>>) -> bool
    decreases before,
{
    match before {
        None => false,
        Some(n) => (cut == before && after is None) || match after {
            None => false,
            Some(m) => m.value == n.value && ((m.left == n.left && cuts_off(n.right, m.right, cut))
                || (m.right == n.right && cuts_off(n.left, m.left, cut))),
        },
    }
}

/// Hanging one leaf holding `v` into a tree adds one copy of `v` and
/// nothing else.
pub proof fn lemma_adds_leaf_contents(before: Option<Box<TreeNode>>, after: Option<Box<TreeNode>>, v: i32)
    requires
        adds_leaf(before, after, v),
    ensures
        contents(after) =~= contents(before).insert(v),
    decreases before,
{
    match before {
        None => {
            assert(contents(None::<Box<TreeNode>>) =~= Multiset::empty());
        },
        Some(n) => {
            let m = after.unwrap();
            if m.left == n.left && adds_leaf(n.right, m.right, v) {
                lemma_adds_leaf_contents(n.right, m.right, v);
            } else {
                lemma_adds_leaf_contents(n.left, m.left, v);
            }
        },
    }
}

/// Cutting off a subtree removes exactly the values of that subtree.
pub proof fn lemma_cuts_off_contents(before: Option<Box<TreeNode>>, after: Option<Box<TreeNode>>, cut: Option<Box<TreeNode>>)
    requires
        cuts_off(before, after, cut),
    ensures
        cut is Some,
        contents(before) =~= contents(after).add(contents(cut)),
    decreases before,
{
    let n = before.unwrap();
    if cut == before && after is None {
        assert(contents(None::<Box<TreeNode>>) =~= Multiset::empty());
    } else {
        let m = after.unwrap();
        if m.left == n.left && cuts_off(n.right, m.right, cut) {
            lemma_cuts_off_contents(n.right, m.right, cut);
        } else {
            lemma_cuts_off_contents(n.left, m.left, cut);
        }
    }
}

/// Insertion hangs exactly one new leaf holding the value into the tree,
/// and moves no node that was there.
pub proof fn lemma_insert_adds_leaf(t: Option<Box<TreeNode>>, v: i32)
    ensures
        adds_leaf(t, tree_with(t, v), v),
    decreases t,
{
    match t {
        None => {},
        Some(n) => {
            if v < n.value {
                lemma_insert_adds_leaf(n.left, v);
            } else {
                lemma_insert_adds_leaf(n.right, v);
            }
        },
    }
}

/// In a search tree there is only one place for a new leaf that keeps the
/// order: two trees that both add a leaf holding `v` and both keep the
/// order are the same tree.
pub proof fn lemma_leaf_place_is_unique(
    t: Option<Box<TreeNode>>,
    a: Option<Box<TreeNode>>,
    b: Option<Box<TreeNode>>,
    v: i32,
)
    requires
        is_search_tree(t),
        adds_leaf(t, a, v),
        adds_leaf(t, b, v),
        is_search_tree(a),
        is_search_tree(b),
    ensures
        a == b,
    decreases t,
{
    match t {
        None => {},
        Some(n) => {
            let ma = a.unwrap();
            let mb = b.unwrap();
            if v < n.value {
                if !(ma.right == n.right && adds_leaf(n.left, ma.left, v)) {
                    lemma_adds_leaf_contents(n.right, ma.right, v);
                    assert(contents(ma.right).contains(v));
                    assert(false);
                }
                if !(mb.right == n.right && adds_leaf(n.left, mb.left, v)) {
                    lemma_adds_leaf_contents(n.right, mb.right, v);
                    assert(contents(mb.right).contains(v));
                    assert(false);
                }
                lemma_leaf_place_is_unique(n.left, ma.left, mb.left, v);
            } else {
                if !(ma.left == n.left && adds_leaf(n.right, ma.right, v)) {
                    lemma_adds_leaf_contents(n.left, ma.left, v);
                    assert(contents(ma.left).contains(v));
                    assert(false);
                }
                if !(mb.left == n.left && adds_leaf(n.right, mb.right, v)) {
                    lemma_adds_leaf_contents(n.left, mb.left, v);
                    assert(contents(mb.left).contains(v));
                    assert(false);
                }
                lemma_leaf_place_is_unique(n.right, ma.right, mb.right, v);
            }
            assert(*ma == *mb);
        },
    }
}

/// Deleting a value that a search tree holds cuts off one whole subtree,
/// rooted at a node that holds the value, and leaves every other node in
/// place: the tree loses exactly the values of that subtree.
pub proof fn lemma_delete_cuts_one_subtree(t: Option<Box<TreeNode>>, v: i32)
    requires
        is_search_tree(t),
        contents(t).contains(v),
    ensures
        exists|cut: Option<Box<TreeNode>>|
            #![trigger cuts_off(t, tree_without(t, v), cut)]
            cuts_off(t, tree_without(t, v), cut) && cut.unwrap().value == v
                && contents(t) =~= contents(tree_without(t, v)).add(contents(cut)),
    decreases t,
{
    let n = t.unwrap();
    if n.value == v {
        assert(contents(None::<Box<TreeNode>>) =~= Multiset::empty());
        assert(cuts_off(t, tree_without(t, v), t));
    } else if v < n.value {
        if !contents(n.left).contains(v) {
            assert(contents(n.right).contains(v));
            assert(false);
        }
        lemma_delete_cuts_one_subtree(n.left, v);
        let cut = choose|cut: Option<Box<TreeNode>>|
            #![trigger cuts_off(n.left, tree_without(n.left, v), cut)]
            cuts_off(n.left, tree_without(n.left, v), cut) && cut.unwrap().value == v
                && contents(n.left) =~= contents(tree_without(n.left, v)).add(contents(cut));
        assert(cuts_off(t, tree_without(t, v), cut));
        lemma_cuts_off_contents(t, tree_without(t, v), cut);
    } else {
        if !contents(n.right).contains(v) {
            assert(contents(n.left).contains(v));
            assert(false);
        }
        lemma_delete_cuts_one_subtree(n.right, v);
        let cut = choose|cut: Option<Box<TreeNode>>|
            #![trigger cuts_off(n.right, tree_without(n.right, v), cut)]
            cuts_off(n.right, tree_without(n.right, v), cut) && cut.unwrap().value == v
                && contents(n.right) =~= contents(tree_without(n.right, v)).add(contents(cut));
        assert(cuts_off(t, tree_without(t, v), cut));
        lemma_cuts_off_contents(t, tree_without(t, v), cut);
    }
}

/// In a search tree only one cut removes every copy of `v` by cutting off a
/// subtree whose root holds `v`: two trees made so are the same tree.
pub proof fn lemma_cut_place_is_unique(
    t: Option<Box<TreeNode>>,
    a: Option<Box<TreeNode>>,
    b: Option<Box<TreeNode>>,
    cut_a: Option<Box<TreeNode>>,
    cut_b: Option<Box<TreeNode>>,
    v: i32,
)
    requires
        is_search_tree(t),
        cuts_off(t, a, cut_a),
        cuts_off(t, b, cut_b),
        cut_a.unwrap().value == v,
        cut_b.unwrap().value == v,
        !contents(a).contains(v),
        !contents(b).contains(v),
    ensures
        a == b,
    decreases t,
{
    let n = t.unwrap();
    lemma_cuts_off_contents(t, a, cut_a);
    lemma_cuts_off_contents(t, b, cut_b);
    if n.value == v {
        if !(a is None) {
            assert(contents(a).contains(a.unwrap().value));
        }
        if !(b is None) {
            assert(contents(b).contains(b.unwrap().value));
        }
    } else {
        let ma = a.unwrap();
        let mb = b.unwrap();
        assert(contents(cut_a).contains(v));
        assert(contents(cut_b).contains(v));
        assert(!contents(ma.left).contains(v) && !contents(ma.right).contains(v));
        assert(!contents(mb.left).contains(v) && !contents(mb.right).contains(v));
        if v < n.value {
            if !(ma.right == n.right && cuts_off(n.left, ma.left, cut_a)) {
                lemma_cuts_off_contents(n.right, ma.right, cut_a);
                assert(contents(n.right).contains(v));
                assert(false);
            }
            if !(mb.right == n.right && cuts_off(n.left, mb.left, cut_b)) {
                lemma_cuts_off_contents(n.right, mb.right, cut_b);
                assert(contents(n.right).contains(v));
                assert(false);
            }
            lemma_cut_place_is_unique(n.left, ma.left, mb.left, cut_a, cut_b, v);
        } else {
            if !(ma.left == n.left && cuts_off(n.right, ma.right, cut_a)) {
                lemma_cuts_off_contents(n.left, ma.left, cut_a);
                assert(contents(n.left).contains(v));
                assert(false);
            }
            if !(mb.left == n.left && cuts_off(n.right, mb.right, cut_b)) {
                lemma_cuts_off_contents(n.left, mb.left, cut_b);
                assert(contents(n.left).contains(v));
                assert(false);
            }
            lemma_cut_place_is_unique(n.right, ma.right, mb.right, cut_a, cut_b, v);
        }
        assert(*ma == *mb);
    }
}

/// A node prints its own value first, then everything in its left subtree,
/// then everything in its right subtree, whatever the values.
pub proof fn lemma_print_node_then_left_then_right(n: TreeNode)
    ensures
        preorder(Some(Box::new(n))) == seq![n.value] + preorder(n.left) + preorder(n.right),
        preorder(Some(Box::new(n))).len() == 1 + preorder(n.left).len() + preorder(n.right).len(),
        preorder(Some(Box::new(n)))[0] == n.value,
        preorder(Some(Box::new(n))).subrange(1, 1 + preorder(n.left).len() as int) == preorder(n.left),
        preorder(Some(Box::new(n))).subrange(1 + preorder(n.left).len() as int, preorder(Some(Box::new(n))).len() as int)
            == preorder(n.right),
{
    let whole = preorder(Some(Box::new(n)));
    assert(whole.subrange(1, 1 + preorder(n.left).len() as int) =~= preorder(n.left));
    assert(whole.subrange(1 + preorder(n.left).len() as int, whole.len() as int) =~= preorder(n.right));
}

/// A node with two leaf children prints as the node, its left child, its
/// right child.
pub proof fn lemma_print_three_nodes(root: i32, a: i32, b: i32)
    ensures
        preorder(Some(Box::new(TreeNode {
            value: root,
            left: Some(Box::new(leaf(a))),
            right: Some(Box::new(leaf(b))),
        }))) == seq![root, a, b],
{
    let l = Some(Box::new(leaf(a)));
    let r = Some(Box::new(leaf(b)));
    assert(preorder(l) =~= seq![a]) by {
        assert(preorder(None::<Box<TreeNode>>) =~= Seq::<i32>::empty());
    }
    assert(preorder(r) =~= seq![b]) by {
        assert(preorder(None::<Box<TreeNode>>) =~= Seq::<i32>::empty());
    }
    assert(seq![root] + seq![a] + seq![b] =~= seq![root, a, b]);
}

/// A binary search tree of `i32` values; equal values go to the right.
pub struct Tree {
    root: Option<Box<TreeNode>>,
}

impl View for Tree {
    type V = Option<Box<TreeNode>>;

    /// The nodes of the tree, from its root.
    closed spec fn view(&self) -> Option<Box<TreeNode>> {
        self.root
    }
}

impl Tree {
    /// Every tree keeps the search-tree order.
    #[verifier::type_invariant]
    spec fn ordered(self) -> bool {
        is_search_tree(self.root)
    }

    /// An empty tree.
    pub fn new() -> (tree: Self)
        ensures
            tree@ is None,
    {
        Tree { root: None }
    }

    /// Adds `value` as a new leaf at the end of its search path.
    pub fn insert(&mut self, value: i32)
        ensures
            final(self)@ == tree_with(old(self)@, value),
            is_search_tree(final(self)@),
            contents(final(self)@) == contents(old(self)@).insert(value),
            adds_leaf(old(self)@, final(self)@, value),
    {
        proof {
            use_type_invariant(&*self);
            lemma_insert_keeps_order(self.root, value);
            lemma_insert_adds_leaf(self.root, value);
        }
        let mut root = None;
        std::mem::swap(&mut root, &mut self.root);
        match root {
            None => {
                root = Some(TreeNode::new(value));
            },
            Some(mut root_node) => {
                root_node.insert(value);
                root = Some(root_node);
            },
        }
        self.root = root;
    }

    /// Deletes `value`: the first node that holds it on its search path is
    /// cut off, with everything below it. A value that the tree does not
    /// hold changes nothing.
    pub fn delete(&mut self, value: i32)
        ensures
            final(self)@ == tree_without(old(self)@, value),
            is_search_tree(final(self)@),
            !contents(final(self)@).contains(value),
            contents(final(self)@).subset_of(contents(old(self)@)),
            !contents(old(self)@).contains(value) ==> final(self)@ == old(self)@,
            contents(old(self)@).contains(value) ==> exists|cut: Option<Box<TreeNode>>|
                #![trigger cuts_off(old(self)@, final(self)@, cut)]
                cuts_off(old(self)@, final(self)@, cut) && cut.unwrap().value == value
                    && contents(old(self)@) == contents(final(self)@).add(contents(cut)),
    {
        proof {
            use_type_invariant(&*self);
            if contents(self.root).contains(value) {
                lemma_delete_cuts_one_subtree(self.root, value);
            }
            lemma_delete_removes_value(self.root, value);
            if !contents(self.root).contains(value) {
                lemma_delete_absent_is_noop(self.root, value);
            }
        }
        let mut root = None;
        std::mem::swap(&mut root, &mut self.root);
        match root {
            None => {},
            Some(mut root_node) => {
                if root_node.value == value {
                    root = None;
                } else {
                    root_node.delete(value);
                    root = Some(root_node);
                }
            },
        }
        self.root = root;
    }

    /// The values in the order in which the tree prints them: each node
    /// before its left subtree, then its right subtree. The caller writes
    /// them out.
    pub fn print(&self) -> (lines: Vec<i32>)
        ensures
            lines@ == preorder(self@),
            lines@.to_multiset() == contents(self@),
            self@ matches Some(n) ==> lines@ == seq![n.value] + preorder(n.left) + preorder(n.right),
    {
        proof {
            lemma_print_lists_contents(self.root);
        }
        let mut lines: Vec<i32> = Vec::new();
        if let Some(root_node) = &self.root {
            TreeNode::print(root_node, &mut lines);
        }
        lines
    }
}

} // verus!
