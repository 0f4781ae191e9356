//! Ordered element sequence used for chunk references and for the set of
//! live states.
//!
//! Elements are addressed by their position.  The structure supports O(1)
//! tail append and arbitrary removal, which is all the merge engine needs
//! when it walks a reference list while building a new one.

use vstd::prelude::*;
use vstd::std_specs::cmp::PartialEqSpec;

verus! {

/// An ordered sequence of elements; the view is the sequence itself.
pub struct ListBase<LElem> {
    links: Vec<LElem>,
}

impl<LElem> View for ListBase<LElem> {
    type V = Seq<LElem>;

    closed spec fn view(&self) -> Seq<LElem> {
        self.links@
    }
}

/// Forward cursor over a [`ListBase`], yielding shared borrows.
pub struct ListBaseIterConst {
    pos: usize,
}

/// Forward cursor over a [`ListBase`], yielding mutable borrows.
pub struct ListBaseIterMut {
    pos: usize,
}

impl<LElem> ListBase<LElem> {
    pub fn new() -> (list: ListBase<LElem>)
        ensures
            list@ == Seq::<LElem>::empty(),
    {
        ListBase { links: Vec::new() }
    }

    pub fn push_front(&mut self, link: LElem)
        requires
            old(self)@.len() < usize::MAX,
        ensures
            final(self)@ == old(self)@.insert(0, link),
    {
        self.links.insert(0, link);
    }

    pub fn push_back(&mut self, link: LElem)
        requires
            old(self)@.len() < usize::MAX,
        ensures
            final(self)@ == old(self)@.push(link),
    {
        self.links.push(link);
    }

    /// Insert `link` just after the element at `prev_index`.
    pub fn push_after(&mut self, prev_index: usize, link: LElem)
        requires
            prev_index < old(self)@.len(),
            old(self)@.len() < usize::MAX,
        ensures
            final(self)@ == old(self)@.insert(prev_index + 1, link),
    {
        self.links.insert(prev_index + 1, link);
    }

    /// Insert `link` just before the element at `next_index`.
    pub fn push_before(&mut self, next_index: usize, link: LElem)
        requires
            next_index < old(self)@.len(),
            old(self)@.len() < usize::MAX,
        ensures
            final(self)@ == old(self)@.insert(next_index as int, link),
    {
        self.links.insert(next_index, link);
    }

    /// Move all elements from `other` onto the tail of `self`, leaving
    /// `other` empty.
    pub fn append(&mut self, other: &mut ListBase<LElem>)
        ensures
            final(self)@ == old(self)@ + old(other)@,
            final(other)@ == Seq::<LElem>::empty(),
    {
        self.links.append(&mut other.links);
    }

    /// Remove and return the element at `index`.
    pub fn remove(&mut self, index: usize) -> (link: LElem)
        requires
            index < old(self)@.len(),
        ensures
            final(self)@ == old(self)@.remove(index as int),
            link == old(self)@[index as int],
    {
        self.links.remove(index)
    }

    /// Remove the element at `index` if there is one; report whether
    /// anything was removed.
    pub fn remove_checked(&mut self, index: usize) -> (removed: bool)
        ensures
            removed == (index < old(self)@.len()),
            removed ==> final(self)@ == old(self)@.remove(index as int),
            !removed ==> final(self)@ == old(self)@,
    {
        if index < self.links.len() {
            self.links.remove(index);
            true
        } else {
            false
        }
    }

    pub fn pop_front(&mut self) -> (link: Option<LElem>)
        ensures
            old(self)@.len() == 0 ==> link is None && final(self)@ == old(self)@,
            old(self)@.len() > 0 ==> link == Some(old(self)@[0]) && final(self)@ == old(
                self,
            )@.remove(0),
    {
        if self.links.len() > 0 {
            Some(self.links.remove(0))
        } else {
            None
        }
    }

    pub fn pop_back(&mut self) -> (link: Option<LElem>)
        ensures
            old(self)@.len() == 0 ==> link is None && final(self)@ == old(self)@,
            old(self)@.len() > 0 ==> link == Some(old(self)@.last()) && final(self)@ == old(
                self,
            )@.drop_last(),
    {
        let r = self.links.pop();
        proof {
            if old(self)@.len() > 0 {
                assert(final(self)@ =~= old(self)@.drop_last());
            }
        }
        r
    }

    pub fn clear(&mut self)
        ensures
            final(self)@ == Seq::<LElem>::empty(),
    {
        self.links.clear();
    }

    /// Walk the sequence and count its elements.
    pub fn len_calc(&self) -> (len: usize)
        ensures
            len == self@.len(),
    {
        self.links.len()
    }

    /// Count elements, stopping early once `len_max` have been seen.
    pub fn len_calc_ex(&self, len_max: usize) -> (len: usize)
        ensures
            len == if self@.len() < len_max {
                self@.len() as usize
            } else {
                len_max
            },
    {
        if self.links.len() < len_max {
            self.links.len()
        } else {
            len_max
        }
    }

    pub fn is_empty(&self) -> (r: bool)
        ensures
            r == (self@.len() == 0),
    {
        self.links.is_empty()
    }

    pub fn is_single(&self) -> (r: bool)
        ensures
            r == (self@.len() == 1),
    {
        self.links.len() == 1
    }

    /// Borrow the element at `index`, if the list is that long.
    pub fn at_index(&self, index: usize) -> (link: Option<&LElem>)
        ensures
            index < self@.len() ==> link == Some(&self@[index as int]),
            index >= self@.len() ==> link is None,
    {
        if index < self.links.len() {
            Some(&self.links[index])
        } else {
            None
        }
    }

    /// Mutably borrow the element at `index`, if the list is that long.
    pub fn at_index_mut(&mut self, index: usize) -> (link: Option<&mut LElem>)
        ensures
            index >= old(self)@.len() ==> link is None && final(self)@ == old(self)@,
            index < old(self)@.len() ==> link is Some && *link.unwrap() == old(self)@[index as int]
                && final(self)@ == old(self)@.update(index as int, *final(link.unwrap())),
    {
        if index < self.links.len() {
            Some(&mut self.links[index])
        } else {
            None
        }
    }

    /// Position of the first element equal to `link_find`, if any.
    pub fn index_at(&self, link_find: &LElem) -> (index: Option<usize>) where
        LElem: PartialEq + PartialEqSpec,

        ensures
            LElem::obeys_eq_spec() ==> match index {
                Some(i) => i < self@.len() && self@[i as int].eq_spec(link_find) && forall|j: int|
                    0 <= j < i ==> !(#[trigger] self@[j]).eq_spec(link_find),
                None => forall|j: int|
                    0 <= j < self@.len() ==> !(#[trigger] self@[j]).eq_spec(link_find),
            },
    {
        let n = self.links.len();
        let mut i: usize = 0;
        while i < n
            invariant
                n == self@.len(),
                i <= n,
                LElem::obeys_eq_spec() ==> forall|j: int|
                    0 <= j < i ==> !(#[trigger] self@[j]).eq_spec(link_find),
            decreases n - i,
        {
            if self.links[i] == *link_find {
                return Some(i);
            }
            i = i + 1;
        }
        None
    }

    /// Whether some element equals `link_find`.
    pub fn contains(&self, link_find: &LElem) -> (r: bool) where LElem: PartialEq + PartialEqSpec
        ensures
            LElem::obeys_eq_spec() ==> r == exists|j: int|
                0 <= j < self@.len() && (#[trigger] self@[j]).eq_spec(link_find),
    {
        self.index_at(link_find).is_some()
    }

    /// Put `link` in the position of the element at `index`; the element it
    /// displaces is returned.
    pub fn replace(&mut self, index: usize, link: LElem) -> (displaced: LElem)
        requires
            index < old(self)@.len(),
        ensures
            final(self)@ == old(self)@.update(index as int, link),
            displaced == old(self)@[index as int],
    {
        self.links.push(link);
        let displaced = self.links.swap_remove(index);
        proof {
            assert(final(self)@ =~= old(self)@.update(index as int, link));
        }
        displaced
    }

    /// Swap the elements at positions `a` and `b`.
    pub fn swap_links(&mut self, a: usize, b: usize)
        requires
            a < old(self)@.len(),
            b < old(self)@.len(),
        ensures
            final(self)@ == old(self)@.update(a as int, old(self)@[b as int]).update(
                b as int,
                old(self)@[a as int],
            ),
    {
        if a == b {
            proof {
                assert(final(self)@ =~= old(self)@.update(a as int, old(self)@[b as int]).update(
                    b as int,
                    old(self)@[a as int],
                ));
            }
            return ;
        }
        let (lo, hi) = if a < b {
            (a, b)
        } else {
            (b, a)
        };
        let vhi = self.links.remove(hi);
        let vlo = self.links.remove(lo);
        self.links.insert(lo, vhi);
        self.links.insert(hi, vlo);
        proof {
            assert(final(self)@ =~= old(self)@.update(a as int, old(self)@[b as int]).update(
                b as int,
                old(self)@[a as int],
            ));
        }
    }

    /// Reverse the order of the elements.
    pub fn reverse(&mut self)
        ensures
            final(self)@ == old(self)@.reverse(),
    {
        let n = self.links.len();
        let mut i: usize = 0;
        while i < n / 2
            invariant
                n == self@.len(),
                n == old(self)@.len(),
                i <= n / 2,
                forall|j: int|
                    0 <= j < n && (j < i || j >= n - i) ==> self@[j] == old(self)@[n - 1 - j],
                forall|j: int| i <= j < n - i ==> self@[j] == old(self)@[j],
            decreases n / 2 - i,
        {
            self.swap_links(i, n - 1 - i);
            i = i + 1;
        }
        proof {
            assert(final(self)@ =~= old(self)@.reverse());
        }
    }

    pub fn iter(&self) -> (it: ListBaseIterConst)
        ensures
            it.spec_pos() == 0,
    {
        ListBaseIterConst { pos: 0 }
    }

    pub fn iter_mut(&mut self) -> (it: ListBaseIterMut)
        ensures
            it.spec_pos() == 0,
            final(self)@ == old(self)@,
    {
        ListBaseIterMut { pos: 0 }
    }
}

impl ListBaseIterConst {
    /// Position of the next element to yield.
    pub closed spec fn spec_pos(&self) -> usize {
        self.pos
    }

    /// Yield a borrow of the next element, advancing the cursor.
    pub fn next<'a, LElem>(&mut self, list: &'a ListBase<LElem>) -> (link: Option<&'a LElem>)
        ensures
            old(self).spec_pos() < list@.len() ==> link == Some(&list@[old(self).spec_pos() as int])
                && final(self).spec_pos() == old(self).spec_pos() + 1,
            old(self).spec_pos() >= list@.len() ==> link is None && final(self).spec_pos() == old(
                self,
            ).spec_pos(),
    {
        if self.pos < list.len_calc() {
            let link = list.at_index(self.pos);
            self.pos = self.pos + 1;
            link
        } else {
            None
        }
    }
}

impl ListBaseIterMut {
    /// Position of the next element to yield.
    pub closed spec fn spec_pos(&self) -> usize {
        self.pos
    }

    /// Yield a mutable borrow of the next element, advancing the cursor.
    pub fn next<'a, LElem>(&mut self, list: &'a mut ListBase<LElem>) -> (link: Option<
        &'a mut LElem,
    >)
        ensures
            old(self).spec_pos() >= old(list)@.len() ==> link is None && final(self).spec_pos()
                == old(self).spec_pos() && final(list)@ == old(list)@,
            old(self).spec_pos() < old(list)@.len() ==> link is Some && *link.unwrap() == old(
                list,
            )@[old(self).spec_pos() as int] && final(list)@ == old(list)@.update(
                old(self).spec_pos() as int,
                *final(link.unwrap()),
            ) && final(self).spec_pos() == old(self).spec_pos() + 1,
    {
        if self.pos < list.len_calc() {
            let link = list.at_index_mut(self.pos);
            self.pos = self.pos + 1;
            link
        } else {
            None
        }
    }
}

} // verus!
