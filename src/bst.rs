//! An unbalanced binary search tree of distinct integers, seeded with one value.
use vstd::prelude::*;

verus! {

/// A node of a binary search tree; the tree is the node together with all of
/// its descendants. Smaller values live in the left subtree, larger ones in
/// the right one, and each value occurs once.
pub struct TreeNode {
    value: i64,
    left: Option<Box<TreeNode>>,
    right: Option<Box<TreeNode>>,
}

/// The values held by an optional subtree.
pub closed spec fn opt_values(t: Option<Box<TreeNode>>) -> Set<i64>
    decreases t,
{
    match t {
        None => Set::empty(),
        Some(n) => n.values(),
    }
}

/// The in-order listing of an optional subtree.
pub closed spec fn opt_in_order(t: Option<Box<TreeNode>>) -> Seq<i64>
    decreases t,
{
    match t {
        None => Seq::empty(),
        Some(n) => n.in_order(),
    }
}

/// Well-formedness of an optional subtree.
pub closed spec fn opt_well_formed(t: Option<Box<TreeNode>>) -> bool
    decreases t,
{
    match t {
        None => true,
        Some(n) => n.well_formed(),
    }
}

/// Whether `s` is in strictly ascending order.
pub open spec fn strictly_ascending(s: Seq<i64>) -> bool {
    forall|i: int, j: int| 0 <= i < j < s.len() ==> s[i] < s[j]
}

/// Listing a well-formed subtree in order yields exactly its values, each
/// once, in strictly ascending order.
pub proof fn lemma_opt_in_order_sorted(t: Option<Box<TreeNode>>)
    requires
        opt_well_formed(t),
    ensures
        strictly_ascending(opt_in_order(t)),
        forall|v: i64| opt_in_order(t).contains(v) <==> opt_values(t).contains(v),
    decreases t,
{
    if let Some(n) = t {
        lemma_in_order_sorted(*n);
    }
}

/// Listing a well-formed tree in order yields exactly its values, each once,
/// in strictly ascending order, whatever order they were inserted in.
pub proof fn lemma_in_order_sorted(t: TreeNode)
    requires
        t.well_formed(),
    ensures
        strictly_ascending(t.in_order()),
        forall|v: i64| t.in_order().contains(v) <==> t.values().contains(v),
    decreases t,
{
    lemma_opt_in_order_sorted(t.left);
    lemma_opt_in_order_sorted(t.right);
    let l = opt_in_order(t.left);
    let r = opt_in_order(t.right);
    let s = t.in_order();
    assert(s == l + seq![t.value] + r);
    assert(t.values() == opt_values(t.left).union(opt_values(t.right)).insert(t.value));
    assert forall|v: i64| s.contains(v) <==> t.values().contains(v) by {
        if s.contains(v) {
            let k = choose|k: int| 0 <= k < s.len() && s[k] == v;
            if k < l.len() {
                assert(l[k] == v);
                assert(l.contains(v));
            } else if k > l.len() {
                assert(r[k - l.len() - 1] == v);
                assert(r.contains(v));
            } else {
                assert(v == t.value);
            }
        }
        if t.values().contains(v) {
            if opt_values(t.left).contains(v) {
                let k = choose|k: int| 0 <= k < l.len() && l[k] == v;
                assert(s[k] == v);
            } else if opt_values(t.right).contains(v) {
                let k = choose|k: int| 0 <= k < r.len() && r[k] == v;
                assert(s[l.len() + 1 + k] == v);
            } else {
                assert(s[l.len() as int] == v);
            }
        }
    }
    assert forall|i: int, j: int| 0 <= i < j < s.len() implies s[i] < s[j] by {
        let li = l.len() as int;
        if i < li {
            assert(l.contains(s[i]));
        }
        if j < li {
            assert(l.contains(s[j]));
        }
        if i > li {
            assert(r[i - li - 1] == s[i]);
            assert(r.contains(s[i]));
        }
        if j > li {
            assert(r[j - li - 1] == s[j]);
            assert(r.contains(s[j]));
        }
        if i < li && j < li {
            assert(l[i] == s[i] && l[j] == s[j]);
        }
        if i > li && j > li {
            assert(r[i - li - 1] < r[j - li - 1]);
        }
    }
}

impl TreeNode {
    /// The values held by this tree.
    pub closed spec fn values(self) -> Set<i64>
        decreases self,
    {
        opt_values(self.left).union(opt_values(self.right)).insert(self.value)
    }

    /// The values listed left subtree first, then the node, then the right subtree.
    pub closed spec fn in_order(self) -> Seq<i64>
        decreases self,
    {
        opt_in_order(self.left) + seq![self.value] + opt_in_order(self.right)
    }

    /// The search-tree ordering, at this node and at every node below it.
    pub closed spec fn well_formed(self) -> bool
        decreases self,
    {
        &&& forall|v: i64| opt_values(self.left).contains(v) ==> v < self.value
        &&& forall|v: i64| opt_values(self.right).contains(v) ==> v > self.value
        &&& opt_well_formed(self.left)
        &&& opt_well_formed(self.right)
    }

    /// A tree holding `value` alone.
    pub fn new(value: i64) -> (t: Self)
        ensures
            t.well_formed(),
            t.values() == set![value],
    {
        let t = TreeNode { value, left: None, right: None };
        assert(t.values() =~= set![value]);
        t
    }

    fn insert_into(t: &mut Option<Box<TreeNode>>, value: i64)
        requires
            opt_well_formed(*old(t)),
        ensures
            opt_well_formed(*final(t)),
            opt_values(*final(t)) == opt_values(*old(t)).insert(value),
            opt_values(*old(t)).contains(value) ==> *final(t) == *old(t),
        decreases *old(t),
    {
        match t.take() {
            None => {
                let n = TreeNode::new(value);
                *t = Some(Box::new(n));
                assert(opt_values(*t) =~= opt_values(None).insert(value));
            },
            Some(mut n) => {
                n.insert(value);
                *t = Some(n);
            },
        }
    }

    /// Adds `value` below the node where its descent ends; a value already
    /// present leaves the tree as it was.
    pub fn insert(&mut self, value: i64)
        requires
            old(self).well_formed(),
        ensures
            final(self).well_formed(),
            final(self).values() == old(self).values().insert(value),
            old(self).values().contains(value) ==> *final(self) == *old(self),
        decreases *old(self),
    {
        if value < self.value {
            assert(!opt_values(self.right).contains(value));
            assert(old(self).values().contains(value) ==> opt_values(self.left).contains(value));
            TreeNode::insert_into(&mut self.left, value);
            assert(self.values() =~= old(self).values().insert(value));
        } else if value > self.value {
            assert(!opt_values(self.left).contains(value));
            assert(old(self).values().contains(value) ==> opt_values(self.right).contains(value));
            TreeNode::insert_into(&mut self.right, value);
            assert(self.values() =~= old(self).values().insert(value));
        }
        assert(self.values() =~= old(self).values().insert(value));
    }

    /// Whether `value` is held by the tree.
    pub fn search(&self, value: i64) -> (r: bool)
        requires
            self.well_formed(),
        ensures
            r == self.values().contains(value),
        decreases self,
    {
        if value == self.value {
            true
        } else if value < self.value {
            assert(!opt_values(self.right).contains(value));
            match &self.left {
                Some(l) => l.search(value),
                None => false,
            }
        } else {
            assert(!opt_values(self.left).contains(value));
            match &self.right {
                Some(r) => r.search(value),
                None => false,
            }
        }
    }

    /// Appends the tree's values to `result` in ascending order.
    pub fn in_order_traversal(&self, result: &mut Vec<i64>)
        ensures
            final(result)@ == old(result)@ + self.in_order(),
        decreases self,
    {
        if let Some(l) = &self.left {
            l.in_order_traversal(result);
        }
        result.push(self.value);
        if let Some(r) = &self.right {
            r.in_order_traversal(result);
        }
        assert(final(result)@ =~= old(result)@ + self.in_order());
    }
}

} // verus!
