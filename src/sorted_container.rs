//! The ordered set: a search tree behind a single root position.

use core::cmp::Ordering;
use vstd::prelude::*;

use crate::order::is_total_order;
use crate::tree::{
    Link, Node, dump_lines, erased, height, inserted, is_bst, keys, leftmost, replace_leftmost,
    replace_slot, slot, unlinked,
};
use crate::tree::{lemma_erased, lemma_inserted, lemma_replace_own_slot, lemma_slot};

verus! {

/// A set of values kept in an unbalanced binary search tree. A value is added
/// at most once: inserting one that is present does nothing.
pub struct SortedContainer<T> {
    root: Link<T>,
}

/// Which way a search goes from a node.
enum Direction {
    Left,
    Right,
    Arrived,
}

/// The position at which a search for `data` from `link` stops, handed out
/// for writing: whatever is written there ends up at that position of the
/// tree, and the rest of the tree stays as it was.
fn find_slot<'a, T: PartialOrd>(link: &'a mut Link<T>, data: &T) -> (r: &'a mut Link<T>)
    requires
        is_total_order::<T>(),
    ensures
        *r == slot(*old(link), *data),
        *final(link) == replace_slot(*old(link), *data, *final(r)),
{
    let ghost start = *link;
    let ghost mut above: spec_fn(Link<T>) -> Link<T> = |x: Link<T>| x;
    let mut cur = link;
    loop
        invariant
            is_total_order::<T>(),
            start == *old(link),
            slot(*cur, *data) == slot(start, *data),
            *final(link) == above(*final(cur)),
            forall|x: Link<T>|
                above(#[trigger] replace_slot(*cur, *data, x)) == replace_slot(start, *data, x),
        decreases *cur,
    {
        let dir = match &*cur {
            None => Direction::Arrived,
            Some(n) => match data.partial_cmp(&n.data) {
                Some(Ordering::Less) => Direction::Left,
                Some(Ordering::Greater) => Direction::Right,
                _ => Direction::Arrived,
            },
        };
        match dir {
            Direction::Left => {
                let ghost c = *cur;
                let n = cur.as_mut().unwrap();
                let ghost (d, below, rt) = (n.data, n.left, n.right);
                let ghost prev = above;
                proof {
                    above = |x: Link<T>| prev(Some(Box::new(Node { data: d, left: x, right: rt })));
                    assert forall|x: Link<T>|
                        above(#[trigger] replace_slot(below, *data, x)) == replace_slot(
                            start,
                            *data,
                            x,
                        ) by {
                        assert(prev(replace_slot(c, *data, x)) == replace_slot(start, *data, x));
                    }
                }
                cur = &mut n.left;
            },
            Direction::Right => {
                let ghost c = *cur;
                let n = cur.as_mut().unwrap();
                let ghost (d, lt, below) = (n.data, n.left, n.right);
                let ghost prev = above;
                proof {
                    above = |x: Link<T>| prev(Some(Box::new(Node { data: d, left: lt, right: x })));
                    assert forall|x: Link<T>|
                        above(#[trigger] replace_slot(below, *data, x)) == replace_slot(
                            start,
                            *data,
                            x,
                        ) by {
                        assert(prev(replace_slot(c, *data, x)) == replace_slot(start, *data, x));
                    }
                }
                cur = &mut n.right;
            },
            Direction::Arrived => {
                proof {
                    let fin = *final(cur);
                    assert(slot(*cur, *data) == *cur);
                    assert(replace_slot(*cur, *data, fin) == fin);
                }
                return cur;
            },
        }
    }
}

/// The position of the leftmost node below the non-empty `link`, handed out
/// for writing: whatever is written there takes that node's place, and the
/// rest of the subtree stays as it was.
fn leftmost_slot<'a, T>(link: &'a mut Link<T>) -> (r: &'a mut Link<T>)
    requires
        *old(link) is Some,
    ensures
        *r == Some(Box::new(leftmost(*old(link).unwrap()))),
        *final(link) == replace_leftmost(*old(link).unwrap(), *final(r)),
{
    let ghost start = *link.unwrap();
    let ghost mut above: spec_fn(Link<T>) -> Link<T> = |x: Link<T>| x;
    let mut cur = link;
    while cur.as_ref().unwrap().left.is_some()
        invariant
            *old(link) == Some(Box::new(start)),
            *cur is Some,
            leftmost(*cur.unwrap()) == leftmost(start),
            *final(link) == above(*final(cur)),
            forall|x: Link<T>|
                above(#[trigger] replace_leftmost(*cur.unwrap(), x)) == replace_leftmost(start, x),
        decreases *cur,
    {
        let n = cur.as_mut().unwrap();
        let ghost (node, d, below, rt) = (**n, n.data, n.left.unwrap(), n.right);
        let ghost prev = above;
        proof {
            above = |x: Link<T>| prev(Some(Box::new(Node { data: d, left: x, right: rt })));
            assert forall|x: Link<T>|
                above(#[trigger] replace_leftmost(*below, x)) == replace_leftmost(start, x) by {
                assert(prev(replace_leftmost(node, x)) == replace_leftmost(start, x));
            }
        }
        cur = &mut n.left;
    }
    proof {
        let fin = *final(cur);
        assert(replace_leftmost(*cur.unwrap(), fin) == fin);
    }
    cur
}

impl<T> SortedContainer<T> {
    /// The tree that the container holds.
    pub closed spec fn tree(&self) -> Link<T> {
        self.root
    }
}

impl<T: PartialOrd> SortedContainer<T> {
    /// The container's tree has the ordering property.
    pub open spec fn wf(&self) -> bool {
        is_bst(self.tree())
    }
}

impl<T> View for SortedContainer<T> {
    type V = Set<T>;

    /// The set of values in the container.
    open spec fn view(&self) -> Set<T> {
        keys(self.tree())
    }
}

impl<T: PartialOrd> SortedContainer<T> {
    /// An empty container.
    pub fn new() -> (sc: Self)
        ensures
            sc.tree() == None::<Box<Node<T>>>,
            sc.wf(),
            sc@ == Set::<T>::empty(),
    {
        SortedContainer { root: None }
    }

    /// The root position of the tree, for reading.
    pub fn root(&self) -> (r: &Link<T>)
        ensures
            *r == self.tree(),
    {
        &self.root
    }

    /// The position at which a search for `data` stops, handed out for
    /// writing: an empty position where `data` would go, or the node that
    /// holds it.
    fn find_pos(&mut self, data: &T) -> (r: &mut Link<T>)
        requires
            is_total_order::<T>(),
        ensures
            *r == slot(old(self).tree(), *data),
            final(self).tree() == replace_slot(old(self).tree(), *data, *final(r)),
    {
        find_slot(&mut self.root, data)
    }

    /// Adds `data`; where a value equal to it is present, nothing changes.
    /// The new node takes the empty position at which the search stops.
    pub fn insert(&mut self, data: T)
        requires
            is_total_order::<T>(),
            old(self).wf(),
        ensures
            final(self).wf(),
            final(self)@ == old(self)@.insert(data),
            final(self).tree() == inserted(old(self).tree(), data),
    {
        let ghost key = data;
        let ghost before = self.tree();
        let l = self.find_pos(&data);
        if l.is_none() {
            *l = Some(Box::new(Node { data: data, left: None, right: None }));
        }
        proof {
            lemma_replace_own_slot(before, key);
            lemma_inserted(before, key);
        }
    }

    /// Whether a value equal to `data` is in the container.
    pub fn contains(&mut self, data: T) -> (r: bool)
        requires
            is_total_order::<T>(),
            old(self).wf(),
        ensures
            r == old(self)@.contains(data),
            *final(self) == *old(self),
    {
        let ghost before = self.tree();
        let found = match *self.find_pos(&data) {
            None => false,
            _ => true,
        };
        proof {
            lemma_replace_own_slot(before, data);
            lemma_slot(before, data);
        }
        found
    }

    /// Removes `data`, or does nothing where it is absent. A node with one
    /// child gives its place to that child; a node with two takes the value of
    /// the leftmost node of its right subtree, which gives its own place to
    /// its right subtree.
    pub fn erase(&mut self, data: T)
        requires
            is_total_order::<T>(),
            old(self).wf(),
        ensures
            final(self).wf(),
            final(self)@ == old(self)@.remove(data),
            final(self).tree() == erased(old(self).tree(), data),
    {
        let ghost before = self.tree();
        proof {
            lemma_replace_own_slot(before, data);
            lemma_erased(before, data);
        }
        let target = self.find_pos(&data);
        if target.is_none() {
            return;
        }
        let mut content = target.take().unwrap();
        let ghost node = *content;
        if content.left.is_some() && content.right.is_some() {
            let leftmost = leftmost_slot(&mut content.right);
            let mut successor = leftmost.take().unwrap();
            *leftmost = successor.right.take();
            content.data = successor.data;
            *target = Some(content);
        } else if content.left.is_some() {
            *target = content.left;
        } else if content.right.is_some() {
            *target = content.right;
        }
        proof {
            assert(*target == unlinked(node));
        }
    }
}

/// A line of a listing as the listing's spec states it.
pub open spec fn line_view<T>(line: (usize, Option<&T>)) -> (nat, Option<T>) {
    (
        line.0 as nat,
        match line.1 {
            Some(v) => Some(*v),
            None => None,
        },
    )
}

/// The lines of a listing as the listing's spec states them.
pub open spec fn listed<T>(lines: Seq<(usize, Option<&T>)>) -> Seq<(nat, Option<T>)> {
    lines.map_values(|l: (usize, Option<&T>)| line_view(l))
}

/// The listing still owed for the positions on a stack, the top one first.
spec fn pending<T>(stack: Seq<(usize, &Link<T>)>) -> Seq<(nat, Option<T>)>
    decreases stack.len(),
{
    if stack.len() == 0 {
        seq![]
    } else {
        dump_lines(*stack.last().1, stack.last().0 as nat) + pending(stack.drop_last())
    }
}

impl<T> SortedContainer<T> {
    /// The tree in pre-order, for diagnostics: for each position its depth,
    /// and the node's key, or nothing for an empty position.
    pub fn dump(&self) -> (lines: Vec<(usize, Option<&T>)>)
        requires
            height(self.tree()) <= usize::MAX,
        ensures
            listed(lines@) == dump_lines(self.tree(), 0),
    {
        let ghost all = dump_lines(self.tree(), 0);
        let mut out: Vec<(usize, Option<&T>)> = Vec::new();
        let mut stack: Vec<(usize, &Link<T>)> = Vec::new();
        stack.push((0, &self.root));
        proof {
            assert(stack@.drop_last() =~= Seq::<(usize, &Link<T>)>::empty());
            assert(pending(stack@.drop_last()) == Seq::<(nat, Option<T>)>::empty());
            assert(pending(stack@) =~= all);
        }
        while stack.len() > 0
            invariant
                all == dump_lines(self.tree(), 0),
                height(self.tree()) <= usize::MAX,
                listed(out@) + pending(stack@) == all,
                forall|i: int|
                    0 <= i < stack@.len() ==> stack@[i].0 + height(*#[trigger] stack@[i].1)
                        <= height(self.tree()),
            decreases pending(stack@).len(),
        {
            let ghost before = stack@;
            let ghost done = out@;
            let (d, link) = stack.pop().unwrap();
            proof {
                assert(stack@ == before.drop_last());
            }
            match link {
                None => {
                    out.push((d, None));
                    proof {
                        assert(listed(out@) =~= listed(done).push((d as nat, None)));
                        assert(listed(out@) + pending(stack@) =~= listed(done) + pending(before));
                    }
                },
                Some(n) => {
                    out.push((d, Some(&n.data)));
                    stack.push((d + 1, &n.right));
                    stack.push((d + 1, &n.left));
                    proof {
                        let rest = before.drop_last();
                        let mid = rest.push(((d + 1) as usize, &n.right));
                        assert(stack@.drop_last() == mid);
                        assert(mid.drop_last() == rest);
                        let below = (d + 1) as nat;
                        assert(pending(stack@) == dump_lines(n.left, below) + pending(mid));
                        assert(pending(mid) == dump_lines(n.right, below) + pending(rest));
                        assert(pending(before) == dump_lines(*link, d as nat) + pending(rest));
                        assert(dump_lines(*link, d as nat) == seq![(d as nat, Some(n.data))]
                            + dump_lines(n.left, below) + dump_lines(n.right, below));
                        assert(listed(out@) =~= listed(done).push((d as nat, Some(n.data))));
                        assert(listed(out@) + pending(stack@) =~= listed(done) + pending(before));
                    }
                },
            }
        }
        proof {
            assert(listed(out@) =~= all);
        }
        out
    }
}

/// Inserting a value twice leaves the same tree as inserting it once, so the
/// values held, and what `contains` answers, are the same too.
pub proof fn lemma_insert_twice<T: PartialOrd>(sc: SortedContainer<T>, data: T)
    requires
        is_total_order::<T>(),
        sc.wf(),
    ensures
        inserted(inserted(sc.tree(), data), data) == inserted(sc.tree(), data),
        keys(inserted(inserted(sc.tree(), data), data)) == sc@.insert(data),
{
    lemma_inserted(sc.tree(), data);
    lemma_slot(inserted(sc.tree(), data), data);
}

/// Erasing a value twice in a row leaves the same tree as erasing it once,
/// and the value is absent after either.
pub proof fn lemma_erase_twice<T: PartialOrd>(sc: SortedContainer<T>, data: T)
    requires
        is_total_order::<T>(),
        sc.wf(),
    ensures
        erased(erased(sc.tree(), data), data) == erased(sc.tree(), data),
        !keys(erased(sc.tree(), data)).contains(data),
{
    lemma_erased(sc.tree(), data);
    lemma_slot(erased(sc.tree(), data), data);
}

/// A value that has just been inserted is present; once it is then erased,
/// it is absent, and every other value is as it was before the insertion.
pub proof fn lemma_insert_then_erase<T: PartialOrd>(sc: SortedContainer<T>, data: T)
    requires
        is_total_order::<T>(),
        sc.wf(),
    ensures
        keys(inserted(sc.tree(), data)).contains(data),
        !keys(erased(inserted(sc.tree(), data), data)).contains(data),
        keys(erased(inserted(sc.tree(), data), data)) == sc@.remove(data),
{
    lemma_inserted(sc.tree(), data);
    lemma_erased(inserted(sc.tree(), data), data);
    assert(sc@.insert(data).remove(data) =~= sc@.remove(data));
}

} // verus!
