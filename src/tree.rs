//! Nodes and links of the search tree, and what they mean as sets.

use core::cmp::Ordering;
use vstd::prelude::*;
use vstd::std_specs::cmp::PartialOrdSpec;

use crate::order::{is_total_order, lemma_asymmetric, less_than};

verus! {

/// A position in the tree: empty, or the owner of one node.
pub type Link<T> = Option<Box<Node<T>>>;

/// A node of the tree: one key and the two positions below it.
pub struct Node<T> {
    pub data: T,
    pub left: Link<T>,
    pub right: Link<T>,
}

/// A node with two empty children.
pub open spec fn leaf<T>(data: T) -> Link<T> {
    Some(Box::new(Node { data, left: None, right: None }))
}

/// The keys held in the subtree at `link`.
pub open spec fn keys<T>(link: Link<T>) -> Set<T>
    decreases link,
{
    match link {
        None => Set::empty(),
        Some(n) => keys(n.left).union(keys(n.right)).insert(n.data),
    }
}

/// The ordering property: at every node, the keys to the left compare less
/// and the keys to the right compare greater.
pub open spec fn is_bst<T: PartialOrd>(link: Link<T>) -> bool
    decreases link,
{
    match link {
        None => true,
        Some(n) => {
            &&& forall|k: T| #[trigger] keys(n.left).contains(k) ==> less_than(k, n.data)
            &&& forall|k: T| #[trigger] keys(n.right).contains(k) ==> less_than(n.data, k)
            &&& is_bst(n.left)
            &&& is_bst(n.right)
        },
    }
}

/// The position at which a search for `key` stops: descend left while `key`
/// compares less, right while it compares greater, and stop at an empty
/// position or at a node whose key compares equal.
pub open spec fn slot<T: PartialOrd>(link: Link<T>, key: T) -> Link<T>
    decreases link,
{
    match link {
        None => None,
        Some(n) => match key.partial_cmp_spec(&n.data) {
            Some(Ordering::Less) => slot(n.left, key),
            Some(Ordering::Greater) => slot(n.right, key),
            _ => link,
        },
    }
}

/// The tree at `link` with what stands at `slot(link, key)` replaced by `sub`.
pub open spec fn replace_slot<T: PartialOrd>(link: Link<T>, key: T, sub: Link<T>) -> Link<T>
    decreases link,
{
    match link {
        None => sub,
        Some(n) => match key.partial_cmp_spec(&n.data) {
            Some(Ordering::Less) => {
                let left = replace_slot(n.left, key, sub);
                Some(Box::new(Node { data: n.data, left, right: n.right }))
            },
            Some(Ordering::Greater) => {
                let right = replace_slot(n.right, key, sub);
                Some(Box::new(Node { data: n.data, left: n.left, right }))
            },
            _ => sub,
        },
    }
}

/// The node reached from `node` by following left links until none remains.
pub open spec fn leftmost<T>(node: Node<T>) -> Node<T>
    decreases node,
{
    match node.left {
        None => node,
        Some(l) => leftmost(*l),
    }
}

/// The subtree of `node` with the position of `leftmost(node)` replaced by `sub`.
pub open spec fn replace_leftmost<T>(node: Node<T>, sub: Link<T>) -> Link<T>
    decreases node,
{
    match node.left {
        None => sub,
        Some(l) => Some(
            Box::new(Node { data: node.data, left: replace_leftmost(*l, sub), right: node.right }),
        ),
    }
}

/// What takes the place of `node` when its key is removed: nothing for a
/// leaf, the only child for a node with one, and for a node with two the same
/// node holding the key of the leftmost node of its right subtree, that node
/// being spliced out in favour of its own right subtree.
pub open spec fn unlinked<T>(node: Node<T>) -> Link<T> {
    match (node.left, node.right) {
        (Some(_), Some(r)) => Some(
            Box::new(
                Node {
                    data: leftmost(*r).data,
                    left: node.left,
                    right: replace_leftmost(*r, leftmost(*r).right),
                },
            ),
        ),
        (Some(_), None) => node.left,
        (None, _) => node.right,
    }
}

/// The tree at `link` after inserting `key`: a new leaf at the empty position
/// that the search ends at, or the same tree where the key is present.
pub open spec fn inserted<T: PartialOrd>(link: Link<T>, key: T) -> Link<T> {
    match slot(link, key) {
        None => replace_slot(link, key, leaf(key)),
        Some(_) => link,
    }
}

/// The tree at `link` after erasing `key`: the node that the search ends at
/// is unlinked, and an absent key leaves the tree as it is.
pub open spec fn erased<T: PartialOrd>(link: Link<T>, key: T) -> Link<T> {
    match slot(link, key) {
        None => link,
        Some(n) => replace_slot(link, key, unlinked(*n)),
    }
}

/// The number of nodes on the longest downward path from `link`.
pub open spec fn height<T>(link: Link<T>) -> nat
    decreases link,
{
    match link {
        None => 0,
        Some(n) => 1 + if height(n.left) >= height(n.right) {
            height(n.left)
        } else {
            height(n.right)
        },
    }
}

/// The diagnostic listing of the subtree at `link`, whose position lies
/// `depth` links below the root, in pre-order: one line per position with its
/// depth, holding the node's key, or nothing for an empty position.
pub open spec fn dump_lines<T>(link: Link<T>, depth: nat) -> Seq<(nat, Option<T>)>
    decreases link,
{
    match link {
        None => seq![(depth, None)],
        Some(n) => seq![(depth, Some(n.data))] + dump_lines(n.left, depth + 1) + dump_lines(
            n.right,
            depth + 1,
        ),
    }
}

/// Putting back what stands at a search's stopping position changes nothing.
pub proof fn lemma_replace_own_slot<T: PartialOrd>(link: Link<T>, key: T)
    ensures
        replace_slot(link, key, slot(link, key)) == link,
    decreases link,
{
    if let Some(n) = link {
        match key.partial_cmp_spec(&n.data) {
            Some(Ordering::Less) => lemma_replace_own_slot(n.left, key),
            Some(Ordering::Greater) => lemma_replace_own_slot(n.right, key),
            _ => {},
        }
    }
}

/// In a search tree the search for `key` stops at a node exactly when `key`
/// is present, and that node holds `key`; the subtree there is a search tree
/// whose keys belong to the whole.
pub proof fn lemma_slot<T: PartialOrd>(link: Link<T>, key: T)
    requires
        is_total_order::<T>(),
        is_bst(link),
    ensures
        slot(link, key) is Some <==> keys(link).contains(key),
        slot(link, key) is Some ==> slot(link, key).unwrap().data == key,
        is_bst(slot(link, key)),
        keys(slot(link, key)).subset_of(keys(link)),
    decreases link,
{
    if let Some(n) = link {
        match key.partial_cmp_spec(&n.data) {
            Some(Ordering::Less) => {
                lemma_slot(n.left, key);
                if keys(n.right).contains(key) {
                    lemma_asymmetric(n.data, key);
                }
            },
            Some(Ordering::Greater) => {
                assert(n.data.partial_cmp_spec(&key) == Some(Ordering::Less));
                lemma_slot(n.right, key);
                if keys(n.left).contains(key) {
                    lemma_asymmetric(key, n.data);
                }
            },
            _ => {},
        }
    }
}

/// Replacing the subtree at a search's stopping position by a search tree
/// whose keys are `key` or keys of the subtree it replaces keeps the ordering
/// property, and trades the keys of the old subtree for those of the new.
pub proof fn lemma_replace_slot<T: PartialOrd>(link: Link<T>, key: T, sub: Link<T>)
    requires
        is_total_order::<T>(),
        is_bst(link),
        is_bst(sub),
        forall|x: T| #[trigger]
            keys(sub).contains(x) ==> x == key || keys(slot(link, key)).contains(x),
    ensures
        is_bst(replace_slot(link, key, sub)),
        keys(replace_slot(link, key, sub)) == keys(link).difference(keys(slot(link, key))).union(
            keys(sub),
        ),
    decreases link,
{
    let r = replace_slot(link, key, sub);
    if let Some(n) = link {
        match key.partial_cmp_spec(&n.data) {
            Some(Ordering::Less) => {
                lemma_slot(n.left, key);
                lemma_replace_slot(n.left, key, sub);
                let s = keys(slot(n.left, key));
                assert forall|x: T| s.contains(x) implies !keys(n.right).contains(x) && x
                    != n.data by {
                    lemma_asymmetric(x, n.data);
                }
                assert(keys(r) =~= keys(link).difference(s).union(keys(sub)));
            },
            Some(Ordering::Greater) => {
                assert(n.data.partial_cmp_spec(&key) == Some(Ordering::Less));
                lemma_slot(n.right, key);
                lemma_replace_slot(n.right, key, sub);
                let s = keys(slot(n.right, key));
                assert forall|x: T| s.contains(x) implies !keys(n.left).contains(x) && x
                    != n.data by {
                    lemma_asymmetric(n.data, x);
                }
                assert(keys(r) =~= keys(link).difference(s).union(keys(sub)));
            },
            _ => {
                assert(keys(r) =~= keys(link).difference(keys(link)).union(keys(sub)));
            },
        }
    } else {
        assert(keys(r) =~= keys(link).difference(keys(link)).union(keys(sub)));
    }
}

/// The leftmost node of a search tree has no left child and holds its least
/// key; splicing it out in favour of its right subtree leaves a search tree
/// with every other key.
pub proof fn lemma_leftmost<T: PartialOrd>(node: Node<T>)
    requires
        is_total_order::<T>(),
        is_bst(Some(Box::new(node))),
    ensures
        leftmost(node).left is None,
        keys(Some(Box::new(node))).contains(leftmost(node).data),
        forall|x: T| #[trigger]
            keys(Some(Box::new(node))).contains(x) ==> x == leftmost(node).data || less_than(
                leftmost(node).data,
                x,
            ),
        is_bst(replace_leftmost(node, leftmost(node).right)),
        keys(replace_leftmost(node, leftmost(node).right)) == keys(Some(Box::new(node))).remove(
            leftmost(node).data,
        ),
    decreases node,
{
    let all = keys(Some(Box::new(node)));
    let m = leftmost(node);
    let r = replace_leftmost(node, m.right);
    match node.left {
        None => {
            crate::order::lemma_irreflexive(node.data);
            assert(all == keys(node.left).union(keys(node.right)).insert(node.data));
            assert(!keys(node.right).contains(node.data));
            assert(keys(r) =~= all.remove(m.data));
        },
        Some(l) => {
            lemma_leftmost(*l);
            assert(keys(l.left).union(keys(l.right)).insert(l.data) == keys(node.left));
            assert forall|x: T| #[trigger] all.contains(x) implies x == m.data || less_than(
                m.data,
                x,
            ) by {
                if keys(node.right).contains(x) || x == node.data {
                    lemma_asymmetric(m.data, node.data);
                }
            }
            lemma_asymmetric(m.data, node.data);
            assert(!keys(node.right).contains(m.data));
            assert(keys(r) =~= all.remove(m.data));
        },
    }
}

/// Unlinking the root of a search tree leaves a search tree holding every key
/// but the root's.
pub proof fn lemma_unlinked<T: PartialOrd>(node: Node<T>)
    requires
        is_total_order::<T>(),
        is_bst(Some(Box::new(node))),
    ensures
        is_bst(unlinked(node)),
        keys(unlinked(node)) == keys(Some(Box::new(node))).remove(node.data),
{
    let all = keys(Some(Box::new(node)));
    let u = unlinked(node);
    crate::order::lemma_irreflexive(node.data);
    assert(all == keys(node.left).union(keys(node.right)).insert(node.data));
    assert(!keys(node.left).contains(node.data));
    assert(!keys(node.right).contains(node.data));
    match (node.left, node.right) {
        (Some(_), Some(r)) => {
            lemma_leftmost(*r);
            let m = leftmost(*r).data;
            let rest = replace_leftmost(*r, leftmost(*r).right);
            assert(keys(node.right) == keys(Some(Box::new(*r))));
            assert forall|x: T| #[trigger] keys(node.left).contains(x) implies less_than(x, m) by {
                assert(less_than(node.data, m));
            }
            assert forall|x: T| #[trigger] keys(rest).contains(x) implies less_than(m, x) by {}
            assert(keys(u) =~= all.remove(node.data));
        },
        (Some(_), None) => {
            assert(keys(u) =~= all.remove(node.data));
        },
        (None, _) => {
            assert(keys(u) =~= all.remove(node.data));
        },
    }
}

/// Insertion keeps the ordering property and adds `key` to the keys.
pub proof fn lemma_inserted<T: PartialOrd>(link: Link<T>, key: T)
    requires
        is_total_order::<T>(),
        is_bst(link),
    ensures
        is_bst(inserted(link, key)),
        keys(inserted(link, key)) == keys(link).insert(key),
{
    lemma_slot(link, key);
    if slot(link, key) is None {
        let l = leaf(key);
        assert(keys(l) =~= set![key]);
        lemma_replace_slot(link, key, l);
        assert(keys(link).difference(keys(slot(link, key))).union(keys(l)) =~= keys(link).insert(
            key,
        ));
    } else {
        assert(keys(link).insert(key) =~= keys(link));
    }
}

/// Erasure keeps the ordering property and removes `key` from the keys.
pub proof fn lemma_erased<T: PartialOrd>(link: Link<T>, key: T)
    requires
        is_total_order::<T>(),
        is_bst(link),
    ensures
        is_bst(erased(link, key)),
        keys(erased(link, key)) == keys(link).remove(key),
{
    lemma_slot(link, key);
    match slot(link, key) {
        None => {
            assert(keys(link).remove(key) =~= keys(link));
        },
        Some(n) => {
            lemma_unlinked(*n);
            let s = keys(slot(link, key));
            lemma_replace_slot(link, key, unlinked(*n));
            assert(keys(link).difference(s).union(keys(unlinked(*n))) =~= keys(link).remove(key));
        },
    }
}

} // verus!
