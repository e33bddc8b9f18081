//! A binary search tree.
//!
//! A key goes to the left of a node where it is smaller than the key of the
//! node and to the right where it is not. Read from left to right, the keys
//! of a tree that was built by `insert` are in ascending order.

use crate::order::le;
use crate::order::lemma_le_trans;
use crate::order::lemma_total;
use crate::order::less;
use crate::order::lt;
use crate::order::same;
use crate::order::total_order;
use crate::search::none_same;
use crate::seqs::ascending;
use core::cmp::Ordering;
use vstd::prelude::*;
use vstd::std_specs::cmp::PartialEqSpec;
use vstd::std_specs::cmp::PartialEqSpecImpl;
use vstd::std_specs::cmp::PartialOrdSpec;
use vstd::std_specs::cmp::PartialOrdSpecImpl;

verus! {

/// A node of the tree with the trees to its left and to its right.
#[derive(Debug)]
pub struct Node<T> {
    /// The key of the node.
    pub key: T,
    /// The tree to the left of the node.
    pub left: Option<Box<Node<T>>>,
    /// The tree to the right of the node.
    pub right: Option<Box<Node<T>>>,
}

impl<T: PartialEq> PartialEq for Node<T> {
    /// Two nodes are equal where their keys are.
    fn eq(&self, other: &Self) -> (equal: bool) {
        self.key == other.key
    }
}

impl<T: PartialEq> PartialEqSpecImpl for Node<T> {
    open spec fn obeys_eq_spec() -> bool {
        T::obeys_eq_spec()
    }

    open spec fn eq_spec(&self, other: &Self) -> bool {
        self.key.eq_spec(&other.key)
    }
}

impl<T: PartialOrd> PartialOrd for Node<T> {
    /// Two nodes compare as their keys do.
    fn partial_cmp(&self, other: &Self) -> (order: Option<Ordering>) {
        self.key.partial_cmp(&other.key)
    }
}

impl<T: PartialOrd> PartialOrdSpecImpl for Node<T> {
    open spec fn obeys_partial_cmp_spec() -> bool {
        T::obeys_partial_cmp_spec()
    }

    open spec fn partial_cmp_spec(&self, other: &Self) -> Option<Ordering> {
        self.key.partial_cmp_spec(&other.key)
    }
}

/// A binary search tree.
#[derive(Debug)]
pub struct BinaryTree<T> {
    /// The node at the top of the tree.
    pub root: Option<Box<Node<T>>>,
}

/// The keys of the tree below `link`, read from left to right.
pub open spec fn keys_of<T>(link: Option<Box<Node<T>>>) -> Seq<T>
    decreases link,
{
    match link {
        None => Seq::empty(),
        Some(node) => node.keys(),
    }
}

impl<T> Node<T> {
    /// The key of the node.
    pub open spec fn key(&self) -> T {
        self.key
    }

    /// The tree to the left of the node.
    pub open spec fn left(&self) -> Option<Box<Node<T>>> {
        self.left
    }

    /// The tree to the right of the node.
    pub open spec fn right(&self) -> Option<Box<Node<T>>> {
        self.right
    }

    /// The keys of the node and of the trees below it, read from left to
    /// right.
    pub open spec fn keys(&self) -> Seq<T>
        decreases self,
    {
        keys_of(self.left()).push(self.key()) + keys_of(self.right())
    }

    /// Creates a node with the key `key` and nothing below it.
    pub fn new(key: T) -> (node: Box<Node<T>>)
        ensures
            node.key() == key,
            node.left() is None,
            node.right() is None,
            node.keys() == Seq::<T>::empty().push(key),
    {
        let node = Box::new(Node { key, left: None, right: None });
        assert(node.keys() =~= Seq::<T>::empty().push(key));
        node
    }

    /// The key of the node.
    pub fn get(&self) -> (key: &T)
        ensures
            *key == self.key(),
    {
        &self.key
    }

    /// The node to the left of this one.
    pub fn left_child(&self) -> (child: Option<&Node<T>>)
        ensures
            child is Some <==> self.left() is Some,
            child is Some ==> *child->0 == *self.left()->0,
    {
        match &self.left {
            Some(node) => Some(&**node),
            None => None,
        }
    }

    /// The node to the right of this one.
    pub fn right_child(&self) -> (child: Option<&Node<T>>)
        ensures
            child is Some <==> self.right() is Some,
            child is Some ==> *child->0 == *self.right()->0,
    {
        match &self.right {
            Some(node) => Some(&**node),
            None => None,
        }
    }
}

/// `node` is a node of the tree below `link`.
pub open spec fn holds<T>(link: Option<Box<Node<T>>>, node: Node<T>) -> bool
    decreases link,
{
    match link {
        None => false,
        Some(top) => *top == node || holds(top.left(), node) || holds(top.right(), node),
    }
}

/// The key of a node of a tree is one of the keys of the tree.
pub proof fn lemma_holds_key<T>(link: Option<Box<Node<T>>>, node: Node<T>)
    requires
        holds(link, node),
    ensures
        keys_of(link).contains(node.key()),
    decreases link,
{
    let top = link->0;
    let l = keys_of(top.left());
    let r = keys_of(top.right());
    let all = top.keys();
    if *top == node {
        assert(all[l.len() as int] == node.key());
    } else if holds(top.left(), node) {
        lemma_holds_key(top.left(), node);
        let i = choose|i: int| 0 <= i < l.len() && l[i] == node.key();
        assert(all[i] == node.key());
    } else {
        lemma_holds_key(top.right(), node);
        let i = choose|i: int| 0 <= i < r.len() && r[i] == node.key();
        assert(all[l.len() + 1 + i] == node.key());
    }
}

/// In a tree whose keys are ascending, the keys to the left of a node are
/// no larger than its key and those to its right no smaller, and the keys
/// of either side are ascending.
pub proof fn lemma_sides<T: Ord>(node: Node<T>)
    requires
        ascending(node.keys()),
    ensures
        ascending(keys_of(node.left())),
        ascending(keys_of(node.right())),
        forall|i: int|
            0 <= i < keys_of(node.left()).len() ==> le(
                #[trigger] keys_of(node.left())[i],
                node.key(),
            ),
        forall|i: int|
            0 <= i < keys_of(node.right()).len() ==> le(
                node.key(),
                #[trigger] keys_of(node.right())[i],
            ),
{
    let l = keys_of(node.left());
    let r = keys_of(node.right());
    let all = node.keys();
    assert(all[l.len() as int] == node.key());
    assert forall|i: int, j: int| 0 <= i <= j < l.len() implies le(
        #[trigger] l[i],
        #[trigger] l[j],
    ) by {
        assert(le(all[i], all[j]));
    }
    assert forall|i: int, j: int| 0 <= i <= j < r.len() implies le(
        #[trigger] r[i],
        #[trigger] r[j],
    ) by {
        assert(le(all[l.len() + 1 + i], all[l.len() + 1 + j]));
    }
    assert forall|i: int| 0 <= i < l.len() implies le(#[trigger] l[i], node.key()) by {
        assert(le(all[i], all[l.len() as int]));
    }
    assert forall|i: int| 0 <= i < r.len() implies le(node.key(), #[trigger] r[i]) by {
        assert(le(all[l.len() as int], all[l.len() + 1 + i]));
    }
}

/// `key` stands at the place `at` of `after`, behind the keys of `before`
/// that are no larger and before those that are larger, where the keys of
/// `before` are ascending.
pub open spec fn placed<T: Ord>(before: Seq<T>, key: T, after: Seq<T>, at: int) -> bool {
    &&& 0 <= at <= before.len()
    &&& after == before.insert(at, key)
    &&& ascending(before) ==> {
        &&& forall|i: int| 0 <= i < at ==> le(#[trigger] before[i], key)
        &&& forall|i: int| at <= i < before.len() ==> lt(key, #[trigger] before[i])
        &&& ascending(after)
    }
}

/// Keys that stay ascending when `key` is put among them.
pub proof fn lemma_placed_ascending<T: Ord>(before: Seq<T>, key: T, at: int)
    requires
        total_order::<T>(),
        0 <= at <= before.len(),
        ascending(before),
        forall|i: int| 0 <= i < at ==> le(#[trigger] before[i], key),
        forall|i: int| at <= i < before.len() ==> lt(key, #[trigger] before[i]),
    ensures
        ascending(before.insert(at, key)),
{
    let after = before.insert(at, key);
    assert forall|i: int, j: int| 0 <= i <= j < after.len() implies le(
        #[trigger] after[i],
        #[trigger] after[j],
    ) by {
        lemma_total(key, key);
        if i < at {
            if j < at {
                assert(le(before[i], before[j]));
            } else if j == at {
                assert(le(before[i], key));
            } else {
                assert(le(before[i], before[j - 1]));
            }
        } else if i == at {
            if j > at {
                lemma_total(key, before[j - 1]);
            }
        } else {
            assert(le(before[i - 1], before[j - 1]));
        }
    }
}

/// The tree below `link` with a new node for `key`: the new node stands
/// where the way from the top ends that goes left at every node whose key
/// is larger than `key` and right at the others.
pub open spec fn inserted<T: Ord>(link: Option<Box<Node<T>>>, key: T) -> Option<Box<Node<T>>>
    decreases link,
{
    match link {
        None => Some(Box::new(Node { key, left: None, right: None })),
        Some(node) => if lt(key, node.key) {
            Some(Box::new(Node { key: node.key, left: inserted(node.left, key), right: node.right }))
        } else {
            Some(Box::new(Node { key: node.key, left: node.left, right: inserted(node.right, key) }))
        },
    }
}

/// Puts `key` into the tree below `link`: to the left of every node whose
/// key is larger, to the right of the others.
fn insert_below<T: Ord>(link: &mut Option<Box<Node<T>>>, key: T)
    requires
        total_order::<T>(),
    ensures
        *final(link) == inserted(*old(link), key),
        exists|at: int| #[trigger] placed(keys_of(*old(link)), key, keys_of(*final(link)), at),
    decreases *old(link),
{
    let ghost before = keys_of(*link);
    let ghost mut place: int = 0;
    match link {
        None => {
            *link = Some(Node::new(key));
            proof {
                assert(before.insert(0, key) =~= Seq::<T>::empty().push(key));
                lemma_total(key, key);
                assert(placed(before, key, keys_of(*link), 0));
            }
        },
        Some(node) => {
            let ghost top = **node;
            let ghost l = keys_of(top.left());
            let ghost r = keys_of(top.right());
            if less(&key, &node.key) {
                insert_below(&mut node.left, key);
                proof {
                    let l2 = keys_of(node.left());
                    let at = choose|at: int| #[trigger] placed(l, key, l2, at);
                    assert(node.keys() =~= before.insert(at, key));
                    if ascending(before) {
                        lemma_sides(top);
                        assert forall|i: int| 0 <= i < at implies le(
                            #[trigger] before[i],
                            key,
                        ) by {
                            assert(before[i] == l[i]);
                        }
                        assert forall|i: int| at <= i < before.len() implies lt(
                            key,
                            #[trigger] before[i],
                        ) by {
                            if i < l.len() {
                                assert(before[i] == l[i]);
                            } else if i == l.len() {
                                assert(before[i] == top.key());
                            } else {
                                assert(before[i] == r[i - l.len() - 1]);
                                lemma_total(key, before[i]);
                                lemma_total(key, top.key());
                                if le(before[i], key) {
                                    lemma_le_trans(top.key(), before[i], key);
                                }
                            }
                        }
                        lemma_placed_ascending(before, key, at);
                    }
                    assert(placed(before, key, node.keys(), at));
                    place = at;
                }
            } else {
                insert_below(&mut node.right, key);
                proof {
                    let r2 = keys_of(node.right());
                    let at = choose|at: int| #[trigger] placed(r, key, r2, at);
                    let here = l.len() + 1 + at;
                    assert(node.keys() =~= before.insert(here, key));
                    if ascending(before) {
                        lemma_sides(top);
                        lemma_total(key, top.key());
                        assert forall|i: int| 0 <= i < here implies le(
                            #[trigger] before[i],
                            key,
                        ) by {
                            if i < l.len() {
                                assert(before[i] == l[i]);
                                lemma_le_trans(before[i], top.key(), key);
                            } else if i == l.len() {
                                assert(before[i] == top.key());
                            } else {
                                assert(before[i] == r[i - l.len() - 1]);
                            }
                        }
                        assert forall|i: int| here <= i < before.len() implies lt(
                            key,
                            #[trigger] before[i],
                        ) by {
                            assert(before[i] == r[i - l.len() - 1]);
                        }
                        lemma_placed_ascending(before, key, here);
                    }
                    assert(placed(before, key, node.keys(), here));
                    place = here;
                }
            }
        },
    }
    assert(placed(before, key, keys_of(*link), place));
}

/// The node that a search for `key` finds below `link`: the first node on
/// the way from the top whose key is neither larger nor smaller than `key`.
/// The way goes left at a node whose key is larger and right at one whose
/// key is smaller.
pub open spec fn found_below<T: Ord>(link: Option<Box<Node<T>>>, key: T) -> Option<Node<T>>
    decreases link,
{
    match link {
        None => None,
        Some(node) => if lt(key, node.key) {
            found_below(node.left, key)
        } else if lt(node.key, key) {
            found_below(node.right, key)
        } else {
            Some(*node)
        },
    }
}

/// The node above the node that a search for `key` finds below `link`,
/// where `above` is the node above `link`: none where the search finds no
/// node, and `above` where it finds the node at `link`.
pub open spec fn above_found<T: Ord>(
    link: Option<Box<Node<T>>>,
    key: T,
    above: Option<Node<T>>,
) -> Option<Node<T>>
    decreases link,
{
    match link {
        None => None,
        Some(node) => if lt(key, node.key) {
            above_found(node.left, key, Some(*node))
        } else if lt(node.key, key) {
            above_found(node.right, key, Some(*node))
        } else {
            above
        },
    }
}

/// The last node at which the way down from `link` goes left, or `so_far`
/// where it never does. The way goes left at a node whose key is larger
/// than `key` and right at the others.
pub open spec fn next_below<T: Ord>(
    link: Option<Box<Node<T>>>,
    key: T,
    so_far: Option<Node<T>>,
) -> Option<Node<T>>
    decreases link,
{
    match link {
        None => so_far,
        Some(node) => if lt(key, node.key) {
            next_below(node.left, key, Some(*node))
        } else {
            next_below(node.right, key, so_far)
        },
    }
}

/// The node that `found` refers to, if it refers to one.
pub open spec fn node_of<T>(found: Option<&Node<T>>) -> Option<Node<T>> {
    match found {
        None => None,
        Some(node) => Some(*node),
    }
}

/// `found` is the node `node`, or none where there is none.
pub open spec fn is_node<T>(found: Option<&Node<T>>, node: Option<Node<T>>) -> bool {
    match node {
        None => found is None,
        Some(n) => found is Some && *found->0 == n,
    }
}

/// Looks for `key` in the tree below `link`, from the top down.
fn find<'a, T: Ord>(link: &'a Option<Box<Node<T>>>, key: &T) -> (found: Option<&'a Node<T>>)
    requires
        total_order::<T>(),
    ensures
        is_node(found, found_below(*link, *key)),
        found is Some ==> same(found->0.key(), *key) && holds(*link, *found->0),
        found is None && ascending(keys_of(*link)) ==> none_same(keys_of(*link), *key),
    decreases *link,
{
    match link {
        None => None,
        Some(node) => {
            let ghost l = keys_of(node.left());
            let ghost r = keys_of(node.right());
            let ghost all = node.keys();
            proof {
                lemma_total(*key, node.key());
                lemma_total(node.key(), *key);
                if ascending(all) {
                    lemma_sides(**node);
                }
            }
            if less(key, &node.key) {
                let found = find(&node.left, key);
                proof {
                    if found is None && ascending(all) {
                        assert forall|j: int| 0 <= j < all.len() implies !same(
                            #[trigger] all[j],
                            *key,
                        ) by {
                            lemma_total(all[j], *key);
                            lemma_total(*key, all[j]);
                            if j < l.len() {
                                assert(all[j] == l[j]);
                            } else if j == l.len() {
                            } else {
                                assert(all[j] == r[j - l.len() - 1]);
                                if le(all[j], *key) {
                                    lemma_le_trans(node.key(), all[j], *key);
                                }
                            }
                        }
                    }
                }
                found
            } else if less(&node.key, key) {
                let found = find(&node.right, key);
                proof {
                    if found is None && ascending(all) {
                        assert forall|j: int| 0 <= j < all.len() implies !same(
                            #[trigger] all[j],
                            *key,
                        ) by {
                            lemma_total(all[j], *key);
                            lemma_total(*key, all[j]);
                            if j < l.len() {
                                assert(all[j] == l[j]);
                                if le(*key, all[j]) {
                                    lemma_le_trans(*key, all[j], node.key());
                                }
                            } else if j == l.len() {
                            } else {
                                assert(all[j] == r[j - l.len() - 1]);
                            }
                        }
                    }
                }
                found
            } else {
                Some(&**node)
            }
        },
    }
}

/// Appends the keys of the tree below `link` to `out`, from left to right.
fn collect<'a, T>(link: &'a Option<Box<Node<T>>>, out: &mut Vec<&'a T>)
    ensures
        final(out)@.len() == old(out)@.len() + keys_of(*link).len(),
        forall|i: int| 0 <= i < old(out)@.len() ==> final(out)@[i] == old(out)@[i],
        forall|i: int|
            0 <= i < keys_of(*link).len() ==> *#[trigger] final(out)@[old(out)@.len() + i]
                == keys_of(*link)[i],
    decreases *link,
{
    match link {
        None => {},
        Some(node) => {
            let ghost start = out@;
            let ghost l = keys_of(node.left());
            let ghost r = keys_of(node.right());
            collect(&node.left, out);
            let ghost first = out@;
            out.push(&node.key);
            let ghost mid = out@;
            collect(&node.right, out);
            proof {
                assert forall|i: int| 0 <= i < node.keys().len() implies *#[trigger] out@[start.len()
                    + i] == node.keys()[i] by {
                    if i < l.len() {
                        assert(out@[start.len() + i] == mid[start.len() + i]);
                        assert(mid[start.len() + i] == first[start.len() + i]);
                        assert(*first[start.len() + i] == l[i]);
                    } else if i == l.len() {
                        assert(out@[start.len() + i] == mid[start.len() + i]);
                    } else {
                        let k = i - l.len() - 1;
                        assert(*out@[mid.len() + k] == r[k]);
                    }
                }
                assert forall|i: int| 0 <= i < start.len() implies out@[i] == start[i] by {
                    assert(out@[i] == mid[i]);
                    assert(mid[i] == first[i]);
                }
            }
        },
    }
}

/// The keys that are still to be read when the nodes of `stack` wait for
/// their keys and the trees to their right to be read, the last node first.
pub open spec fn waiting<T>(stack: Seq<&Node<T>>) -> Seq<T>
    decreases stack.len(),
{
    if stack.len() == 0 {
        Seq::empty()
    } else {
        Seq::empty().push(stack.last().key) + keys_of(stack.last().right) + waiting(
            stack.drop_last(),
        )
    }
}

impl<T> View for BinaryTree<T> {
    type V = Seq<T>;

    /// The keys of the tree, read from left to right.
    open spec fn view(&self) -> Seq<T> {
        keys_of(self.root)
    }
}

impl<T> BinaryTree<T> where T: Ord + Clone {
    /// Creates the tree without nodes.
    pub fn new() -> (tree: Self)
        ensures
            tree@ == Seq::<T>::empty(),
    {
        Self { root: None }
    }

    /// The keys of the tree, read from left to right.
    pub fn keys(&self) -> (keys: Vec<&T>)
        ensures
            keys@.len() == self@.len(),
            forall|i: int| 0 <= i < keys@.len() ==> *#[trigger] keys@[i] == self@[i],
    {
        let mut keys: Vec<&T> = Vec::new();
        collect(&self.root, &mut keys);
        proof {
            assert forall|i: int| 0 <= i < keys@.len() implies *#[trigger] keys@[i] == self@[i] by {
                assert(*keys@[0 + i] == keys_of(self.root)[i]);
            }
        }
        keys
    }

    /// The keys of the tree, read from left to right with a stack of the
    /// nodes that wait to be read.
    pub fn iterative_keys(&self) -> (keys: Vec<&T>)
        ensures
            keys@.len() == self@.len(),
            forall|i: int| 0 <= i < keys@.len() ==> *#[trigger] keys@[i] == self@[i],
    {
        let mut stack: Vec<&Node<T>> = Vec::new();
        let mut current: &Option<Box<Node<T>>> = &self.root;
        let mut keys: Vec<&T> = Vec::new();
        let ghost whole = self@;
        let ghost mut done: Seq<T> = Seq::empty();
        let mut going = true;
        assert(done + keys_of(*current) + waiting(stack@) =~= whole);
        while going
            invariant
                whole == self@,
                keys@.len() == done.len(),
                forall|i: int| 0 <= i < keys@.len() ==> *#[trigger] keys@[i] == done[i],
                done + keys_of(*current) + waiting(stack@) == whole,
                !going ==> *current is None && stack@.len() == 0,
            decreases
                    keys_of(*current).len() + waiting(stack@).len() + (if going {
                        1int
                    } else {
                        0int
                    }),
                    keys_of(*current).len(),
        {
            let ghost before = stack@;
            match current {
                Some(node) => {
                    stack.push(&**node);
                    assert(stack@.drop_last() =~= before);
                    assert(done + keys_of(node.left) + waiting(stack@) =~= done + keys_of(
                        *current,
                    ) + waiting(before));
                    current = &node.left;
                },
                None => {
                    match stack.pop() {
                        Some(node) => {
                            assert(before.drop_last() =~= stack@);
                            keys.push(&node.key);
                            proof {
                                assert(done.push(node.key) + keys_of(node.right) + waiting(stack@)
                                    =~= done + keys_of(*current) + waiting(before));
                                done = done.push(node.key);
                            }
                            current = &node.right;
                        },
                        None => {
                            going = false;
                        },
                    }
                },
            }
        }
        proof {
            assert(done + keys_of(*current) + waiting(stack@) =~= done);
        }
        keys
    }

    /// Finds a node with the key `key`: the one nearest to the root. In a
    /// tree whose keys are ascending, a key that is not found is not there.
    pub fn search(&self, key: &T) -> (found: Option<&Node<T>>)
        requires
            total_order::<T>(),
        ensures
            is_node(found, found_below(self.root, *key)),
            found is Some ==> same(found->0.key(), *key) && holds(self.root, *found->0),
            found is None && ascending(self@) ==> none_same(self@, *key),
    {
        find(&self.root, key)
    }

    /// Finds a node with the key `key` as `search` does, in a loop.
    pub fn iterative_search(&self, key: &T) -> (found: Option<&Node<T>>)
        requires
            total_order::<T>(),
        ensures
            is_node(found, found_below(self.root, *key)),
            found is Some ==> same(found->0.key(), *key) && holds(self.root, *found->0),
            found is None && ascending(self@) ==> none_same(self@, *key),
    {
        let mut current: &Option<Box<Node<T>>> = &self.root;
        let ghost whole = self@;
        loop
            invariant
                total_order::<T>(),
                whole == self@,
                found_below(*current, *key) == found_below(self.root, *key),
                forall|node: Node<T>| holds(*current, node) ==> holds(self.root, node),
                ascending(whole) ==> ascending(keys_of(*current)),
                ascending(whole) && none_same(keys_of(*current), *key) ==> none_same(whole, *key),
            ensures
                found_in(self.root, whole, *key, current),
                match *current {
                    None => found_below(self.root, *key) is None,
                    Some(node) => found_below(self.root, *key) == Some(*node),
                },
            decreases *current,
        {
            match current {
                None => {
                    break ;
                },
                Some(node) => {
                    let ghost l = keys_of(node.left());
                    let ghost r = keys_of(node.right());
                    let ghost all = node.keys();
                    proof {
                        lemma_total(*key, node.key());
                        lemma_total(node.key(), *key);
                        if ascending(all) {
                            lemma_sides(**node);
                        }
                    }
                    if less(key, &node.key) {
                        proof {
                            if ascending(whole) && none_same(l, *key) {
                                assert forall|j: int| 0 <= j < all.len() implies !same(
                                    #[trigger] all[j],
                                    *key,
                                ) by {
                                    lemma_total(all[j], *key);
                                    lemma_total(*key, all[j]);
                                    if j < l.len() {
                                        assert(all[j] == l[j]);
                                    } else if j == l.len() {
                                    } else {
                                        assert(all[j] == r[j - l.len() - 1]);
                                        if le(all[j], *key) {
                                            lemma_le_trans(node.key(), all[j], *key);
                                        }
                                    }
                                }
                            }
                        }
                        assert forall|n: Node<T>| holds(node.left(), n) implies holds(
                            self.root,
                            n,
                        ) by {
                            assert(holds(*current, n));
                        }
                        current = &node.left;
                    } else if less(&node.key, key) {
                        proof {
                            if ascending(whole) && none_same(r, *key) {
                                assert forall|j: int| 0 <= j < all.len() implies !same(
                                    #[trigger] all[j],
                                    *key,
                                ) by {
                                    lemma_total(all[j], *key);
                                    lemma_total(*key, all[j]);
                                    if j < l.len() {
                                        assert(all[j] == l[j]);
                                        if le(*key, all[j]) {
                                            lemma_le_trans(*key, all[j], node.key());
                                        }
                                    } else if j == l.len() {
                                    } else {
                                        assert(all[j] == r[j - l.len() - 1]);
                                    }
                                }
                            }
                        }
                        assert forall|n: Node<T>| holds(node.right(), n) implies holds(
                            self.root,
                            n,
                        ) by {
                            assert(holds(*current, n));
                        }
                        current = &node.right;
                    } else {
                        assert(holds(*current, **node));
                        break ;
                    }
                },
            }
        }
        match current {
            None => None,
            Some(node) => Some(&**node),
        }
    }

    /// The node above the node with the key `key` that `search` finds. There
    /// is none where `search` finds no node or finds the root.
    pub fn parent_of(&self, key: &T) -> (parent: Option<&Node<T>>)
        requires
            total_order::<T>(),
        ensures
            node_of(parent) == above_found(self.root, *key, None),
            parent is Some ==> holds(self.root, *parent->0) && is_above(*parent->0, *key),
            parent is None && ascending(self@) ==> none_same(self@, *key) || (self.root is Some
                && same(self.root->0.key(), *key)),
    {
        let ghost whole = self@;
        let mut current: &Option<Box<Node<T>>> = &self.root;
        let mut above: Option<&Node<T>> = None;
        let mut found = false;
        loop
            invariant_except_break
                !found,
            invariant
                total_order::<T>(),
                whole == self@,
                above_found(*current, *key, node_of(above)) == above_found(self.root, *key, None),
                forall|node: Node<T>| holds(*current, node) ==> holds(self.root, node),
                ascending(whole) ==> ascending(keys_of(*current)),
                ascending(whole) && none_same(keys_of(*current), *key) ==> none_same(whole, *key),
                above is Some ==> holds(self.root, *above->0) && (above->0.left() == *current
                    || above->0.right() == *current),
                above is None ==> *current == self.root,
            ensures
                above_found(self.root, *key, None) == (if found {
                    node_of(above)
                } else {
                    None
                }),
                found ==> *current is Some && same(current->0.key(), *key),
                !found ==> (ascending(whole) ==> none_same(whole, *key)),
                above is Some ==> holds(self.root, *above->0) && (above->0.left() == *current
                    || above->0.right() == *current),
                above is None ==> *current == self.root,
            decreases *current,
        {
            match current {
                None => {
                    break ;
                },
                Some(node) => {
                    let ghost l = keys_of(node.left());
                    let ghost r = keys_of(node.right());
                    let ghost all = node.keys();
                    proof {
                        lemma_total(*key, node.key());
                        lemma_total(node.key(), *key);
                        if ascending(all) {
                            lemma_sides(**node);
                        }
                        assert(holds(*current, **node));
                    }
                    if less(key, &node.key) {
                        proof {
                            if ascending(whole) && none_same(l, *key) {
                                assert forall|j: int| 0 <= j < all.len() implies !same(
                                    #[trigger] all[j],
                                    *key,
                                ) by {
                                    lemma_total(all[j], *key);
                                    lemma_total(*key, all[j]);
                                    if j < l.len() {
                                        assert(all[j] == l[j]);
                                    } else if j == l.len() {
                                    } else {
                                        assert(all[j] == r[j - l.len() - 1]);
                                        if le(all[j], *key) {
                                            lemma_le_trans(node.key(), all[j], *key);
                                        }
                                    }
                                }
                            }
                            assert forall|n: Node<T>| holds(node.left(), n) implies holds(
                                self.root,
                                n,
                            ) by {
                                assert(holds(*current, n));
                            }
                        }
                        above = Some(&**node);
                        current = &node.left;
                    } else if less(&node.key, key) {
                        proof {
                            if ascending(whole) && none_same(r, *key) {
                                assert forall|j: int| 0 <= j < all.len() implies !same(
                                    #[trigger] all[j],
                                    *key,
                                ) by {
                                    lemma_total(all[j], *key);
                                    lemma_total(*key, all[j]);
                                    if j < l.len() {
                                        assert(all[j] == l[j]);
                                        if le(*key, all[j]) {
                                            lemma_le_trans(*key, all[j], node.key());
                                        }
                                    } else if j == l.len() {
                                    } else {
                                        assert(all[j] == r[j - l.len() - 1]);
                                    }
                                }
                            }
                            assert forall|n: Node<T>| holds(node.right(), n) implies holds(
                                self.root,
                                n,
                            ) by {
                                assert(holds(*current, n));
                            }
                        }
                        above = Some(&**node);
                        current = &node.right;
                    } else {
                        found = true;
                        break ;
                    }
                },
            }
        }
        if found {
            above
        } else {
            None
        }
    }

    /// The node with the first key from the left: the smallest key where
    /// the keys are ascending.
    pub fn min(&self) -> (node: Option<&Node<T>>)
        ensures
            node is Some <==> self@.len() > 0,
            node is Some ==> node->0.key() == self@[0] && holds(self.root, *node->0),
    {
        match &self.root {
            None => None,
            Some(root) => {
                let mut x: &Node<T> = &**root;
                assert(holds(self.root, *x));
                while x.left.is_some()
                    invariant
                        holds(self.root, *x),
                        x.keys().len() > 0,
                        x.keys()[0] == self@[0],
                    decreases *x,
                {
                    let ghost top = *x;
                    match &x.left {
                        Some(node) => {
                            proof {
                                lemma_holds_below(self.root, top, **node);
                            }
                            x = &**node;
                        },
                        None => {},
                    }
                }
                Some(x)
            },
        }
    }

    /// The node with the last key from the left: the largest key where the
    /// keys are ascending.
    pub fn max(&self) -> (node: Option<&Node<T>>)
        ensures
            node is Some <==> self@.len() > 0,
            node is Some ==> node->0.key() == self@.last() && holds(self.root, *node->0),
    {
        match &self.root {
            None => None,
            Some(root) => {
                let mut x: &Node<T> = &**root;
                assert(holds(self.root, *x));
                while x.right.is_some()
                    invariant
                        holds(self.root, *x),
                        x.keys().len() > 0,
                        x.keys().last() == self@.last(),
                    decreases *x,
                {
                    let ghost top = *x;
                    match &x.right {
                        Some(node) => {
                            proof {
                                lemma_holds_below(self.root, top, **node);
                            }
                            x = &**node;
                        },
                        None => {},
                    }
                }
                Some(x)
            },
        }
    }

    /// The node that comes next after a node with the key `key`: the last
    /// node at which the search for `key` goes left. In a tree whose keys
    /// are ascending, its key is the smallest of the larger keys. There is
    /// none where the search finds no node with that key, or never goes
    /// left.
    pub fn successor(&self, key: &T) -> (next: Option<&Node<T>>)
        requires
            total_order::<T>(),
        ensures
            node_of(next) == (if found_below(self.root, *key) is None {
                None
            } else {
                next_below(self.root, *key, None)
            }),
            next is Some ==> lt(*key, next->0.key()) && holds(self.root, *next->0),
            next is Some && ascending(self@) ==> forall|i: int|
                0 <= i < self@.len() && lt(*key, #[trigger] self@[i]) ==> le(
                    next->0.key(),
                    self@[i],
                ),
            next is None && ascending(self@) ==> none_same(self@, *key) || forall|i: int|
                0 <= i < self@.len() ==> le(#[trigger] self@[i], *key),
    {
        if self.iterative_search(key).is_none() {
            return None;
        }
        let ghost whole = self@;
        let mut current: &Option<Box<Node<T>>> = &self.root;
        let mut next: Option<&Node<T>> = None;
        let ghost mut lo: int = 0;
        let ghost mut hi: int = whole.len() as int;
        assert(whole.subrange(0, whole.len() as int) =~= whole);
        loop
            invariant
                total_order::<T>(),
                whole == self@,
                next_below(*current, *key, node_of(next)) == next_below(self.root, *key, None),
                0 <= lo <= hi <= whole.len(),
                keys_of(*current) == whole.subrange(lo, hi),
                forall|node: Node<T>| holds(*current, node) ==> holds(self.root, node),
                next is Some <==> hi < whole.len(),
                next is Some ==> next->0.key() == whole[hi] && lt(*key, whole[hi]) && holds(
                    self.root,
                    *next->0,
                ),
                ascending(whole) ==> forall|i: int| 0 <= i < lo ==> le(#[trigger] whole[i], *key),
            ensures
                *current is None,
                node_of(next) == next_below(self.root, *key, None),
                whole == self@,
                0 <= lo == hi <= whole.len(),
                next is Some <==> hi < whole.len(),
                next is Some ==> next->0.key() == whole[hi] && lt(*key, whole[hi]) && holds(
                    self.root,
                    *next->0,
                ),
                ascending(whole) ==> forall|i: int| 0 <= i < lo ==> le(#[trigger] whole[i], *key),
            decreases *current,
        {
            match current {
                None => {
                    assert(whole.subrange(lo, hi).len() == 0);
                    break ;
                },
                Some(node) => {
                    let ghost l = keys_of(node.left());
                    let ghost r = keys_of(node.right());
                    let ghost all = node.keys();
                    let ghost m = lo + l.len();
                    proof {
                        lemma_total(*key, node.key());
                        lemma_total(node.key(), *key);
                        assert(all.len() == hi - lo);
                        assert(all[l.len() as int] == whole.subrange(lo, hi)[l.len() as int]);
                        assert(whole[m] == node.key());
                        assert(holds(*current, **node));
                    }
                    if less(key, &node.key) {
                        proof {
                            assert(all.len() == l.len() + 1 + r.len());
                            assert forall|i: int| 0 <= i < l.len() implies whole.subrange(lo, m)[i]
                                == l[i] by {
                                assert(all[i] == l[i]);
                                assert(whole.subrange(lo, hi)[i] == whole[lo + i]);
                            }
                            assert(whole.subrange(lo, m) =~= l);
                            assert forall|n: Node<T>| holds(node.left(), n) implies holds(
                                self.root,
                                n,
                            ) by {
                                assert(holds(*current, n));
                            }
                            hi = m;
                        }
                        next = Some(&**node);
                        current = &node.left;
                    } else {
                        proof {
                            assert(all.len() == l.len() + 1 + r.len());
                            assert forall|i: int| 0 <= i < r.len() implies whole.subrange(
                                m + 1,
                                hi,
                            )[i] == r[i] by {
                                assert(all[l.len() + 1 + i] == r[i]);
                                assert(whole.subrange(lo, hi)[l.len() + 1 + i] == whole[lo + l.len()
                                    + 1 + i]);
                            }
                            assert(whole.subrange(m + 1, hi) =~= r);
                            assert forall|n: Node<T>| holds(node.right(), n) implies holds(
                                self.root,
                                n,
                            ) by {
                                assert(holds(*current, n));
                            }
                            if ascending(whole) {
                                assert forall|i: int| 0 <= i < m + 1 implies le(
                                    #[trigger] whole[i],
                                    *key,
                                ) by {
                                    assert(le(whole[i], whole[m]));
                                    lemma_le_trans(whole[i], whole[m], *key);
                                }
                            }
                            lo = m + 1;
                        }
                        current = &node.right;
                    }
                },
            }
        }
        proof {
            if ascending(whole) && next is Some {
                assert forall|i: int| 0 <= i < whole.len() && lt(
                    *key,
                    #[trigger] whole[i],
                ) implies le(next->0.key(), whole[i]) by {
                    lemma_total(*key, whole[i]);
                    lemma_total(whole[i], *key);
                    if i < hi {
                    } else {
                        assert(le(whole[hi], whole[i]));
                    }
                }
            }
        }
        next
    }

    /// Puts a node with the key `key` into the tree: to the left of every
    /// node on its way whose key is larger, to the right of the others.
    /// Keys that are ascending stay so.
    pub fn insert(&mut self, key: T)
        requires
            total_order::<T>(),
        ensures
            final(self).root == inserted(old(self).root, key),
            exists|at: int| #[trigger] placed(old(self)@, key, final(self)@, at),
    {
        insert_below(&mut self.root, key);
        proof {
            let at = choose|at: int| #[trigger]
                placed(keys_of(old(self).root), key, keys_of(self.root), at);
            assert(placed(old(self)@, key, self@, at));
        }
    }
}

/// `node` stands above a node with the key `key`.
pub open spec fn is_above<T: Ord>(node: Node<T>, key: T) -> bool {
    ||| node.left() is Some && same(node.left()->0.key(), key)
    ||| node.right() is Some && same(node.right()->0.key(), key)
}

/// What `iterative_search` has found when its loop ends at `current`.
pub open spec fn found_in<T: Ord>(
    root: Option<Box<Node<T>>>,
    whole: Seq<T>,
    key: T,
    current: &Option<Box<Node<T>>>,
) -> bool {
    match *current {
        None => ascending(whole) ==> none_same(whole, key),
        Some(node) => same(node.key(), key) && holds(root, *node),
    }
}

/// A node below a node of a tree is a node of the tree.
pub proof fn lemma_holds_below<T>(link: Option<Box<Node<T>>>, top: Node<T>, node: Node<T>)
    requires
        holds(link, top),
        (top.left() is Some && *top.left()->0 == node) || (top.right() is Some && *top.right()->0
            == node),
    ensures
        holds(link, node),
    decreases link,
{
    let first = link->0;
    if *first == top {
        if top.left() is Some && *top.left()->0 == node {
            assert(holds(top.left(), node));
        } else {
            assert(holds(top.right(), node));
        }
    } else if holds(first.left(), top) {
        lemma_holds_below(first.left(), top, node);
    } else {
        lemma_holds_below(first.right(), top, node);
    }
}

} // verus!
