//! A binary search tree of owned nodes. Smaller values go to the left,
//! values that are not smaller (equal ones included) to the right.
use vstd::prelude::*;
use vstd::laws_cmp::obeys_cmp;
use vstd::std_specs::cmp::PartialEqSpec;
use vstd::std_specs::cmp::PartialOrdIs;
use vstd::std_specs::cmp::PartialOrdSpec;
use vstd::std_specs::cmp::OrdSpec;

verus! {

/// `T`'s `Ord` follows its specification and is a total order.
pub open spec fn ordered<T: Ord>() -> bool {
    obeys_cmp::<T>()
}

/// `x < y` as `T`'s comparison specifies it.
pub open spec fn lt<T: PartialOrd>(x: T, y: T) -> bool {
    x.is_lt(&y)
}

/// `x == y` as `T`'s equality specifies it.
pub open spec fn equiv<T: PartialEq>(x: T, y: T) -> bool {
    x.eq_spec(&y)
}

/// The laws of a total order, in the form the tree's proofs use them.
pub proof fn lemma_total_order<T: Ord>()
    requires
        ordered::<T>(),
    ensures
        forall|x: T, y: T| #[trigger] lt(x, y) ==> !lt(y, x),
        forall|x: T, y: T, z: T| #[trigger] lt(x, y) && !#[trigger] lt(z, y) ==> lt(x, z),
        forall|x: T, y: T, z: T| !#[trigger] lt(y, x) && #[trigger] lt(y, z) ==> lt(x, z),
        forall|x: T, y: T| !lt(x, y) && !lt(y, x) <==> #[trigger] equiv(x, y),
        T::obeys_partial_cmp_spec(),
        T::obeys_eq_spec(),
{
    reveal(vstd::laws_cmp::obeys_partial_cmp_spec_properties);
    reveal(vstd::laws_cmp::obeys_cmp_partial_ord);
    reveal(vstd::laws_cmp::obeys_cmp_ord);
    reveal(vstd::laws_eq::obeys_eq_spec_properties);
    assert forall|x: T, y: T| #[trigger] lt(x, y) implies !lt(y, x) by {
        assert(y.partial_cmp_spec(&x) == Some(core::cmp::Ordering::Greater));
    }
    assert forall|x: T, y: T| !lt(x, y) && !lt(y, x) <==> #[trigger] equiv(x, y) by {
        assert(x.partial_cmp_spec(&y) == Some(x.cmp_spec(&y)));
        assert(y.partial_cmp_spec(&x) == Some(y.cmp_spec(&x)));
        if x.partial_cmp_spec(&y) == Some(core::cmp::Ordering::Greater) {
            assert(y.partial_cmp_spec(&x) == Some(core::cmp::Ordering::Less));
        }
        if equiv(x, y) {
            assert(y.eq_spec(&x));
        }
    }
    assert forall|x: T, y: T, z: T| #[trigger] lt(x, y) && !#[trigger] lt(z, y) implies lt(x, z) by {
        assert(z.partial_cmp_spec(&y) == Some(z.cmp_spec(&y)));
        assert(x.partial_cmp_spec(&z) == Some(x.cmp_spec(&z)));
        if y.partial_cmp_spec(&z) == Some(core::cmp::Ordering::Less) {
        } else {
            assert(y.partial_cmp_spec(&z) == Some(y.cmp_spec(&z)));
            if z.partial_cmp_spec(&y) == Some(core::cmp::Ordering::Greater) {
                assert(y.partial_cmp_spec(&z) == Some(core::cmp::Ordering::Less));
            }
            assert(y.eq_spec(&z));
            if x.partial_cmp_spec(&z) == Some(core::cmp::Ordering::Equal) {
                assert(x.eq_spec(&z));
                assert(z.eq_spec(&y));
                assert(x.eq_spec(&y));
            } else if x.partial_cmp_spec(&z) == Some(core::cmp::Ordering::Greater) {
                assert(z.partial_cmp_spec(&x) == Some(core::cmp::Ordering::Less));
                assert(z.partial_cmp_spec(&y) == Some(core::cmp::Ordering::Less));
            }
        }
    }
    assert forall|x: T, y: T, z: T| !#[trigger] lt(y, x) && #[trigger] lt(y, z) implies lt(x, z) by {
        assert(y.partial_cmp_spec(&x) == Some(y.cmp_spec(&x)));
        assert(x.partial_cmp_spec(&z) == Some(x.cmp_spec(&z)));
        if x.partial_cmp_spec(&y) == Some(core::cmp::Ordering::Less) {
        } else {
            assert(x.partial_cmp_spec(&y) == Some(x.cmp_spec(&y)));
            if x.partial_cmp_spec(&y) == Some(core::cmp::Ordering::Greater) {
                assert(y.partial_cmp_spec(&x) == Some(core::cmp::Ordering::Less));
            }
            assert(x.eq_spec(&y));
            if x.partial_cmp_spec(&z) == Some(core::cmp::Ordering::Equal) {
                assert(x.eq_spec(&z));
                assert(y.eq_spec(&x));
                assert(y.eq_spec(&z));
            } else if x.partial_cmp_spec(&z) == Some(core::cmp::Ordering::Greater) {
                assert(z.partial_cmp_spec(&x) == Some(core::cmp::Ordering::Less));
                assert(y.partial_cmp_spec(&x) == Some(core::cmp::Ordering::Less));
            }
        }
    }
}


/// Every item of `s` is not smaller than the items before it.
pub open spec fn sorted<T: PartialOrd>(s: Seq<T>) -> bool {
    forall|i: int, j: int| 0 <= i < j < s.len() ==> !lt(#[trigger] s[j], #[trigger] s[i])
}

/// Where `v` goes in `s`: after the leading items that `v` is not smaller than.
pub open spec fn insert_pos<T: PartialOrd>(s: Seq<T>, v: T) -> nat
    decreases s.len(),
{
    if s.len() == 0 {
        0
    } else if lt(v, s[0]) {
        0
    } else {
        1 + insert_pos(s.drop_first(), v)
    }
}

/// `s` with `v` inserted where the tree puts it.
pub open spec fn insert_sorted<T: PartialOrd>(s: Seq<T>, v: T) -> Seq<T> {
    s.insert(insert_pos(s, v) as int, v)
}

/// Some item of `s` equals `v`.
pub open spec fn has_equiv<T: PartialEq>(s: Seq<T>, v: T) -> bool {
    exists|i: int| 0 <= i < s.len() && equiv(v, #[trigger] s[i])
}

/// `v` is not smaller than the items before `insert_pos`, and is smaller
/// than the item there.
pub proof fn lemma_insert_pos<T: PartialOrd>(s: Seq<T>, v: T)
    ensures
        insert_pos(s, v) <= s.len(),
        forall|i: int| 0 <= i < insert_pos(s, v) ==> !lt(v, #[trigger] s[i]),
        insert_pos(s, v) < s.len() ==> lt(v, s[insert_pos(s, v) as int]),
    decreases s.len(),
{
    if s.len() > 0 && !lt(v, s[0]) {
        lemma_insert_pos(s.drop_first(), v);
        assert forall|i: int| 0 <= i < insert_pos(s, v) implies !lt(v, #[trigger] s[i]) by {
            if i > 0 {
                assert(s[i] == s.drop_first()[i - 1]);
            }
        }
    }
}

/// Inserting in front of a part that starts above `v` leaves that part after.
pub proof fn lemma_insert_before<T: PartialOrd>(a: Seq<T>, b: Seq<T>, v: T)
    requires
        b.len() > 0 ==> lt(v, b[0]),
    ensures
        insert_pos(a + b, v) == insert_pos(a, v),
    decreases a.len(),
{
    if a.len() == 0 {
        assert(a + b =~= b);
    } else {
        assert((a + b)[0] == a[0]);
        assert((a + b).drop_first() =~= a.drop_first() + b);
        lemma_insert_before(a.drop_first(), b, v);
    }
}

/// Inserting after a part whose items `v` is not smaller than.
pub proof fn lemma_insert_after<T: PartialOrd>(a: Seq<T>, b: Seq<T>, v: T)
    requires
        forall|i: int| 0 <= i < a.len() ==> !lt(v, #[trigger] a[i]),
    ensures
        insert_pos(a + b, v) == a.len() + insert_pos(b, v),
    decreases a.len(),
{
    if a.len() == 0 {
        assert(a + b =~= b);
    } else {
        assert((a + b)[0] == a[0]);
        assert((a + b).drop_first() =~= a.drop_first() + b);
        assert forall|i: int| 0 <= i < a.drop_first().len() implies !lt(
            v,
            #[trigger] a.drop_first()[i],
        ) by {
            assert(a.drop_first()[i] == a[i + 1]);
        }
        lemma_insert_after(a.drop_first(), b, v);
    }
}

/// Inserting `v` where the tree puts it keeps a sorted sequence sorted.
pub proof fn lemma_insert_sorted<T: Ord>(s: Seq<T>, v: T)
    requires
        ordered::<T>(),
        sorted(s),
    ensures
        sorted(insert_sorted(s, v)),
{
    lemma_total_order::<T>();
    lemma_insert_pos(s, v);
    let p = insert_pos(s, v) as int;
    let t = insert_sorted(s, v);
    assert forall|i: int, j: int| 0 <= i < j < t.len() implies !lt(#[trigger] t[j], #[trigger] t[i]) by {
        if j < p {
            assert(t[i] == s[i] && t[j] == s[j]);
        } else if j == p {
            assert(t[i] == s[i]);
            assert(!lt(v, s[i]));
        } else if i < p {
            assert(t[i] == s[i] && t[j] == s[j - 1]);
        } else if i == p {
            assert(t[j] == s[j - 1]);
            assert(lt(v, s[p]));
            if j - 1 > p {
                assert(!lt(s[j - 1], s[p]));
            }
            assert(lt(v, s[j - 1]));
        } else {
            assert(t[i] == s[i - 1] && t[j] == s[j - 1]);
        }
    }
}

/// For a totally ordered type, inserting into a sorted sequence where the
/// tree puts the value is sorting the sequence with the value added: the
/// result is sorted, holds the same items as `s.push(v)`, and places `v`
/// after the items equal to it (it is the stable sort of `s.push(v)`).
pub proof fn law_insert_is_sorting<T: Ord>(s: Seq<T>, v: T)
    requires
        ordered::<T>(),
        sorted(s),
    ensures
        sorted(insert_sorted(s, v)),
        insert_sorted(s, v).to_multiset() == s.push(v).to_multiset(),
        insert_sorted(s, v)[insert_pos(s, v) as int] == v,
        forall|i: int| 0 <= i < insert_pos(s, v) ==> !lt(v, #[trigger] insert_sorted(s, v)[i]),
        forall|i: int| insert_pos(s, v) < i < s.len() + 1 ==> lt(v, #[trigger] insert_sorted(s, v)[i]),
{
    lemma_total_order::<T>();
    lemma_insert_pos(s, v);
    lemma_insert_sorted(s, v);
    let p = insert_pos(s, v) as int;
    let t = insert_sorted(s, v);
    vstd::seq_lib::to_multiset_insert(s, p, v);
    vstd::seq_lib::to_multiset_build(s, v);
    assert forall|i: int| 0 <= i < p implies !lt(v, #[trigger] t[i]) by {
        assert(t[i] == s[i]);
    }
    assert forall|i: int| p < i < s.len() + 1 implies lt(v, #[trigger] t[i]) by {
        assert(t[i] == s[i - 1]);
        if i - 1 > p {
            assert(!lt(s[i - 1], s[p]));
        }
    }
}

/// For a totally ordered type, a value inserted into a tree is found there
/// afterwards, and every value found before is still found.
pub proof fn law_search_after_insert<T: Ord>(s: Seq<T>, v: T, w: T)
    requires
        ordered::<T>(),
    ensures
        has_equiv(insert_sorted(s, v), v),
        has_equiv(s, w) ==> has_equiv(insert_sorted(s, v), w),
{
    lemma_total_order::<T>();
    lemma_insert_pos(s, v);
    let p = insert_pos(s, v) as int;
    let t = insert_sorted(s, v);
    assert(t[p] == v);
    assert(!lt(v, v));
    assert(equiv(v, t[p]));
    if has_equiv(s, w) {
        let i = choose|i: int| 0 <= i < s.len() && equiv(w, #[trigger] s[i]);
        if i < p {
            assert(t[i] == s[i]);
        } else {
            assert(t[i + 1] == s[i]);
        }
    }
}

/// A node of a [`BinarySearchTree`].
#[derive(Debug)]
pub struct Node<T> {
    pub value: T,
    pub left: Option<Box<Node<T>>>,
    pub right: Option<Box<Node<T>>>,
}

/// The values of the tree rooted at `n`, in order: left subtree, the node,
/// right subtree.
pub open spec fn tree_seq<T>(n: Option<Box<Node<T>>>) -> Seq<T>
    decreases n,
{
    match n {
        None => Seq::empty(),
        Some(b) => tree_seq(b.left) + seq![b.value] + tree_seq(b.right),
    }
}

/// The number of nodes on the longest path from `n` down to a leaf.
pub open spec fn tree_height<T>(n: Option<Box<Node<T>>>) -> nat
    decreases n,
{
    match n {
        None => 0,
        Some(b) => {
            let l = tree_height(b.left);
            let r = tree_height(b.right);
            1 + if l >= r {
                l
            } else {
                r
            }
        },
    }
}

/// The tree that inserting `v` into `n` builds: a new leaf at the end of
/// the path that goes left past each node that `v` is smaller than, and
/// right past every other node.
pub open spec fn tree_insert<T: PartialOrd>(n: Option<Box<Node<T>>>, v: T) -> Option<Box<Node<T>>>
    decreases n,
{
    match n {
        None => Some(Box::new(Node { value: v, left: None, right: None })),
        Some(b) => if lt(v, b.value) {
            Some(Box::new(Node { value: b.value, left: tree_insert(b.left, v), right: b.right }))
        } else {
            Some(Box::new(Node { value: b.value, left: b.left, right: tree_insert(b.right, v) }))
        },
    }
}

/// No path of a tree holds more nodes than the tree.
pub proof fn lemma_height_le_len<T>(n: Option<Box<Node<T>>>)
    ensures
        tree_height(n) <= tree_seq(n).len(),
    decreases n,
{
    if let Some(b) = n {
        lemma_height_le_len(b.left);
        lemma_height_le_len(b.right);
    }
}

impl<T> Node<T> {
    /// A leaf holding `value`.
    pub fn new(value: T) -> (n: Box<Node<T>>)
        ensures
            n.value == value,
            n.left is None,
            n.right is None,
    {
        Box::new(Node { value, left: None, right: None })
    }
}

/// What sortedness of `l + [n] + r` says of its parts.
pub proof fn lemma_sorted_parts<T: PartialOrd>(l: Seq<T>, n: T, r: Seq<T>)
    requires
        sorted(l + seq![n] + r),
    ensures
        sorted(l),
        sorted(r),
        forall|i: int| 0 <= i < l.len() ==> !lt(n, #[trigger] l[i]),
        forall|j: int| 0 <= j < r.len() ==> !lt(#[trigger] r[j], n),
{
    let s = l + seq![n] + r;
    assert forall|i: int, j: int| 0 <= i < j < l.len() implies !lt(#[trigger] l[j], #[trigger] l[i]) by {
        assert(s[i] == l[i] && s[j] == l[j]);
    }
    assert forall|i: int, j: int| 0 <= i < j < r.len() implies !lt(#[trigger] r[j], #[trigger] r[i]) by {
        assert(s[l.len() + 1 + i] == r[i] && s[l.len() + 1 + j] == r[j]);
    }
    assert forall|i: int| 0 <= i < l.len() implies !lt(n, #[trigger] l[i]) by {
        assert(s[i] == l[i] && s[l.len() as int] == n);
    }
    assert forall|j: int| 0 <= j < r.len() implies !lt(#[trigger] r[j], n) by {
        assert(s[l.len() + 1 + j] == r[j] && s[l.len() as int] == n);
    }
}

/// A binary search tree of owned nodes.
pub struct BinarySearchTree<T> {
    root: Option<Box<Node<T>>>,
}

impl<T> View for BinarySearchTree<T> {
    type V = Seq<T>;

    /// The values in order.
    closed spec fn view(&self) -> Seq<T> {
        tree_seq(self.root)
    }
}

impl<T: Ord + Clone> BinarySearchTree<T> {
    /// For a totally ordered `T`, the values are in order.
    pub open spec fn wf(&self) -> bool {
        ordered::<T>() ==> sorted(self@)
    }

    /// The nodes of the tree, as they are linked.
    pub closed spec fn shape(&self) -> Option<Box<Node<T>>> {
        self.root
    }

    /// The number of nodes on the longest root-to-leaf path.
    pub open spec fn height_spec(&self) -> nat {
        tree_height(self.shape())
    }

    /// The values in order are those of the linked nodes.
    pub proof fn lemma_view_shape(&self)
        ensures
            self@ == tree_seq(self.shape()),
    {
    }

    /// An empty tree.
    pub fn new() -> (t: Self)
        ensures
            t.wf(),
            t@ == Seq::<T>::empty(),
            t.shape() is None,
            t.height_spec() == 0,
    {
        BinarySearchTree { root: None }
    }

    /// Inserts `value`: to the left of a node that it is smaller than, else
    /// to the right. For a totally ordered `T` it lands after every value it
    /// is not smaller than and before the rest.
    pub fn insert(&mut self, value: T)
        requires
            old(self).wf(),
        ensures
            final(self).wf(),
            exists|k: int| 0 <= k <= old(self)@.len() && final(self)@ == old(self)@.insert(k, value),
            ordered::<T>() ==> final(self)@ == insert_sorted(old(self)@, value),
            ordered::<T>() ==> final(self).shape() == tree_insert(old(self).shape(), value),
            final(self).height_spec() <= final(self)@.len(),
    {
        let ghost before = self@;
        Self::insert_into(&mut self.root, value);
        proof {
            lemma_height_le_len(self.root);
            let k = choose|k: int| 0 <= k <= before.len() && self@ == before.insert(k, value);
            assert(0 <= k <= old(self)@.len() && final(self)@ == old(self)@.insert(k, value));
        }
    }

    fn insert_into(node: &mut Option<Box<Node<T>>>, value: T)
        requires
            ordered::<T>() ==> sorted(tree_seq(*old(node))),
        ensures
            exists|k: int|
                0 <= k <= tree_seq(*old(node)).len() && tree_seq(*final(node)) == tree_seq(
                    *old(node),
                ).insert(k, value),
            ordered::<T>() ==> tree_seq(*final(node)) == insert_sorted(tree_seq(*old(node)), value),
            ordered::<T>() ==> sorted(tree_seq(*final(node))),
            ordered::<T>() ==> *final(node) == tree_insert(*old(node), value),
        decreases *old(node),
    {
        let ghost old_seq = tree_seq(*node);
        match node.take() {
            None => {
                *node = Some(Node::new(value));
                assert(tree_seq(*node) =~= old_seq.insert(0, value));
            },
            Some(mut b) => {
                let ghost l = tree_seq(b.left);
                let ghost r = tree_seq(b.right);
                let ghost n = b.value;
                assert(old_seq == l + seq![n] + r);
                proof {
                    if ordered::<T>() {
                        lemma_total_order::<T>();
                        lemma_sorted_parts(l, n, r);
                    }
                }
                if value < b.value {
                    Self::insert_into(&mut b.left, value);
                    let ghost l2 = tree_seq(b.left);
                    *node = Some(b);
                    proof {
                        let k = choose|k: int| 0 <= k <= l.len() && l2 == l.insert(k, value);
                        assert(tree_seq(*node) =~= old_seq.insert(k, value));
                        if ordered::<T>() {
                            assert(lt(value, n));
                            assert(old_seq =~= l + (seq![n] + r));
                            lemma_insert_before(l, seq![n] + r, value);
                            lemma_insert_pos(l, value);
                            assert(tree_seq(*node) =~= insert_sorted(old_seq, value));
                            lemma_insert_sorted(old_seq, value);
                        }
                    }
                } else {
                    Self::insert_into(&mut b.right, value);
                    let ghost r2 = tree_seq(b.right);
                    *node = Some(b);
                    proof {
                        let k = choose|k: int| 0 <= k <= r.len() && r2 == r.insert(k, value);
                        assert(tree_seq(*node) =~= old_seq.insert(l.len() + 1 + k, value));
                        if ordered::<T>() {
                            assert(!lt(value, n));
                            let a = l + seq![n];
                            assert forall|i: int| 0 <= i < a.len() implies !lt(value, #[trigger] a[i]) by {
                                if i < l.len() {
                                    assert(a[i] == l[i]);
                                    assert(!lt(n, l[i]));
                                }
                            }
                            assert(old_seq =~= a + r);
                            lemma_insert_after(a, r, value);
                            lemma_insert_pos(r, value);
                            assert(tree_seq(*node) =~= insert_sorted(old_seq, value));
                            lemma_insert_sorted(old_seq, value);
                        }
                    }
                }
            },
        }
    }

    /// Whether some value of the tree equals `value`. Stated for a totally
    /// ordered `T`.
    pub fn search(&self, value: &T) -> (found: bool)
        requires
            self.wf(),
        ensures
            ordered::<T>() ==> found == has_equiv(self@, *value),
    {
        Self::search_in(&self.root, value)
    }

    fn search_in(node: &Option<Box<Node<T>>>, value: &T) -> (found: bool)
        requires
            ordered::<T>() ==> sorted(tree_seq(*node)),
        ensures
            ordered::<T>() ==> found == has_equiv(tree_seq(*node), *value),
        decreases node,
    {
        match node {
            None => false,
            Some(b) => {
                let ghost l = tree_seq(b.left);
                let ghost r = tree_seq(b.right);
                let ghost n = b.value;
                let ghost s = tree_seq(*node);
                assert(s == l + seq![n] + r);
                proof {
                    if ordered::<T>() {
                        lemma_total_order::<T>();
                        lemma_sorted_parts(l, n, r);
                    }
                }
                if *value == b.value {
                    proof {
                        if ordered::<T>() {
                            assert(s[l.len() as int] == n);
                        }
                    }
                    true
                } else if *value < b.value {
                    let found = Self::search_in(&b.left, value);
                    proof {
                        if ordered::<T>() {
                            assert(!equiv(*value, n));
                            assert(lt(*value, n));
                            if found {
                                let i = choose|i: int| 0 <= i < l.len() && equiv(*value, #[trigger] l[i]);
                                assert(s[i] == l[i]);
                            } else {
                                assert forall|i: int| 0 <= i < s.len() implies !equiv(
                                    *value,
                                    #[trigger] s[i],
                                ) by {
                                    if i < l.len() {
                                        assert(s[i] == l[i]);
                                    } else if i > l.len() {
                                        assert(s[i] == r[i - l.len() - 1]);
                                        assert(!lt(r[i - l.len() - 1], n));
                                        assert(lt(*value, r[i - l.len() - 1]));
                                    } else {
                                        assert(s[i] == n);
                                    }
                                }
                            }
                        }
                    }
                    found
                } else {
                    let found = Self::search_in(&b.right, value);
                    proof {
                        if ordered::<T>() {
                            assert(!equiv(*value, n));
                            assert(!lt(*value, n));
                            assert(lt(n, *value));
                            if found {
                                let j = choose|j: int| 0 <= j < r.len() && equiv(*value, #[trigger] r[j]);
                                assert(s[l.len() + 1 + j] == r[j]);
                            } else {
                                assert forall|i: int| 0 <= i < s.len() implies !equiv(
                                    *value,
                                    #[trigger] s[i],
                                ) by {
                                    if i < l.len() {
                                        assert(s[i] == l[i]);
                                        assert(!lt(n, l[i]));
                                        assert(lt(l[i], *value));
                                    } else if i > l.len() {
                                        assert(s[i] == r[i - l.len() - 1]);
                                    } else {
                                        assert(s[i] == n);
                                    }
                                }
                            }
                        }
                    }
                    found
                }
            },
        }
    }

    /// Clones of the values, in order.
    pub fn inorder(&self) -> (r: Vec<T>)
        ensures
            r@.len() == self@.len(),
            forall|i: int| 0 <= i < r@.len() ==> cloned(#[trigger] self@[i], r@[i]),
    {
        let mut result: Vec<T> = Vec::new();
        Self::inorder_into(&self.root, &mut result);
        result
    }

    fn inorder_into(node: &Option<Box<Node<T>>>, result: &mut Vec<T>)
        ensures
            final(result)@.len() == old(result)@.len() + tree_seq(*node).len(),
            forall|i: int| 0 <= i < old(result)@.len() ==> final(result)@[i] == old(result)@[i],
            forall|i: int|
                0 <= i < tree_seq(*node).len() ==> cloned(
                    #[trigger] tree_seq(*node)[i],
                    final(result)@[old(result)@.len() + i],
                ),
        decreases node,
    {
        match node {
            None => {},
            Some(b) => {
                let ghost start = result@.len();
                let ghost l = tree_seq(b.left);
                let ghost r = tree_seq(b.right);
                Self::inorder_into(&b.left, result);
                let v = b.value.clone();
                result.push(v);
                Self::inorder_into(&b.right, result);
                let ghost s = tree_seq(*node);
                assert(s == l + seq![b.value] + r);
                assert forall|i: int| 0 <= i < s.len() implies cloned(
                    #[trigger] s[i],
                    result@[start + i],
                ) by {
                    if i < l.len() {
                        assert(s[i] == l[i]);
                    } else if i == l.len() {
                        assert(s[i] == b.value);
                    } else {
                        assert(s[i] == r[i - l.len() - 1]);
                    }
                }
            },
        }
    }

    /// The number of nodes on the longest root-to-leaf path (0 when empty).
    pub fn height(&self) -> (h: usize)
        requires
            self.height_spec() <= usize::MAX,
        ensures
            h == self.height_spec(),
    {
        Self::height_of(&self.root)
    }

    fn height_of(node: &Option<Box<Node<T>>>) -> (h: usize)
        requires
            tree_height(*node) <= usize::MAX,
        ensures
            h == tree_height(*node),
        decreases node,
    {
        match node {
            None => 0,
            Some(b) => {
                let lh = Self::height_of(&b.left);
                let rh = Self::height_of(&b.right);
                if lh >= rh {
                    1 + lh
                } else {
                    1 + rh
                }
            },
        }
    }

    /// Whether the tree is empty.
    pub fn is_empty(&self) -> (b: bool)
        ensures
            b == (self@.len() == 0),
    {
        match &self.root {
            None => true,
            Some(n) => {
                assert(self@ == tree_seq(n.left) + seq![n.value] + tree_seq(n.right));
                false
            },
        }
    }
}

impl<T: Ord + Clone> Default for BinarySearchTree<T> {
    fn default() -> (t: Self)
        ensures
            t.wf(),
            t@ == Seq::<T>::empty(),
    {
        Self::new()
    }
}

} // verus!
