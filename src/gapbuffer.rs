use std::collections::VecDeque;
use vstd::prelude::*;

verus! {

/// A sequence split around a current element: `left_list` holds everything up
/// to and including the current element (its last entry), `right_list` what
/// follows it.
#[derive(Debug)]
pub struct GapBuffer<E> {
    pub left_list: VecDeque<E>,
    pub right_list: VecDeque<E>,
}

impl<E> GapBuffer<E> {
    /// The whole sequence, in order.
    pub open spec fn contents(&self) -> Seq<E> {
        self.left_list@ + self.right_list@
    }

    /// A buffer with elements after the current one always has a current one.
    pub open spec fn wf(&self) -> bool {
        self.left_list@.len() == 0 ==> self.right_list@.len() == 0
    }

    pub fn new() -> (r: GapBuffer<E>)
        ensures
            r.left_list@ == Seq::<E>::empty(),
            r.right_list@ == Seq::<E>::empty(),
    {
        GapBuffer { left_list: VecDeque::new(), right_list: VecDeque::new() }
    }

    /// All of `contents` before the pointer; the last one becomes current.
    pub fn with_contents(contents: Vec<E>) -> (r: GapBuffer<E>)
        ensures
            r.left_list@ == contents@,
            r.right_list@ == Seq::<E>::empty(),
    {
        let mut contents = contents;
        let mut left: VecDeque<E> = VecDeque::new();
        let ghost orig = contents@;
        while contents.len() > 0
            invariant
                left@ + contents@ == orig,
            decreases contents.len(),
        {
            let e = contents.remove(0);
            left.push_back(e);
            proof {
                assert(left@ + contents@ =~= orig);
            }
        }
        proof {
            assert(left@ =~= orig);
        }
        GapBuffer { left_list: left, right_list: VecDeque::new() }
    }

    /// Puts `element` right after the current one (it becomes current in an
    /// empty buffer).
    pub fn insert_after(&mut self, element: E)
        ensures
            old(self).left_list@.len() == 0 ==> final(self).left_list@ == seq![element]
                && final(self).right_list@ == old(self).right_list@,
            old(self).left_list@.len() > 0 ==> final(self).left_list@ == old(self).left_list@
                && final(self).right_list@ == seq![element] + old(self).right_list@,
    {
        if self.left_list.len() == 0 {
            self.left_list.push_front(element);
            return ;
        }
        self.right_list.push_front(element);
    }

    /// Puts `element` right before the current one (it becomes current in an
    /// empty buffer).
    pub fn insert_before(&mut self, element: E)
        ensures
            final(self).left_list@ == if old(self).left_list@.len() == 0 {
                seq![element]
            } else {
                old(self).left_list@.insert(old(self).left_list@.len() - 1, element)
            },
            final(self).right_list@ == old(self).right_list@,
    {
        if self.left_list.len() == 0 {
            self.left_list.push_front(element);
            return ;
        }
        let current_element = self.left_list.pop_back();
        match current_element {
            Some(c) => {
                self.left_list.push_back(element);
                self.left_list.push_back(c);
                proof {
                    let l = old(self).left_list@;
                    assert(final(self).left_list@ =~= l.insert(l.len() - 1, element));
                }
            },
            None => {},
        }
    }

    /// Drops the element after the current one, if any.
    pub fn delete_after(&mut self)
        ensures
            final(self).left_list@ == old(self).left_list@,
            final(self).right_list@ == if old(self).right_list@.len() == 0 {
                old(self).right_list@
            } else {
                old(self).right_list@.drop_first()
            },
    {
        let _ = self.right_list.pop_front();
    }

    /// Drops the element before the current one, if any.
    pub fn delete_before(&mut self)
        ensures
            final(self).left_list@ == if old(self).left_list@.len() < 2 {
                old(self).left_list@
            } else {
                old(self).left_list@.remove(old(self).left_list@.len() - 2)
            },
            final(self).right_list@ == old(self).right_list@,
    {
        let current_element = self.left_list.pop_back();
        let _ = self.left_list.pop_back();
        match current_element {
            Some(c) => {
                self.left_list.push_back(c);
                proof {
                    let l = old(self).left_list@;
                    if l.len() >= 2 {
                        assert(final(self).left_list@ =~= l.remove(l.len() - 2));
                    } else {
                        assert(final(self).left_list@ =~= l);
                    }
                }
            },
            None => {},
        }
    }

    /// Drops the current element; the previous one becomes current, or the
    /// next one when there is no previous one.
    pub fn delete_current(&mut self)
        ensures
            old(self).left_list@.len() > 1 ==> final(self).left_list@
                == old(self).left_list@.drop_last() && final(self).right_list@
                == old(self).right_list@,
            old(self).left_list@.len() <= 1 && old(self).right_list@.len() > 0 ==> final(self).left_list@ == seq![old(self).right_list@[0]] && final(self).right_list@ == old(self).right_list@.drop_first(),
            old(self).left_list@.len() <= 1 && old(self).right_list@.len() == 0 ==> final(self).left_list@.len() == 0 && final(self).right_list@.len() == 0,
    {
        let _ = self.left_list.pop_back();
        if self.left_list.len() > 0 {
            return ;
        }
        let current_element = self.right_list.pop_front();
        match current_element {
            Some(c) => {
                self.left_list.push_back(c);
                proof {
                    assert(final(self).left_list@ =~= seq![old(self).right_list@[0]]);
                }
            },
            None => {},
        }
    }

    /// Makes the next element current; nothing happens at the tail.
    pub fn move_pointer_right(&mut self)
        ensures
            old(self).right_list@.len() == 0 ==> final(self).left_list@ == old(self).left_list@
                && final(self).right_list@ == old(self).right_list@,
            old(self).right_list@.len() > 0 ==> final(self).left_list@ == old(self).left_list@.push(old(self).right_list@[0]) && final(self).right_list@ == old(self).right_list@.drop_first(),
            final(self).contents() == old(self).contents(),
    {
        let current_element = self.right_list.pop_front();
        match current_element {
            Some(c) => {
                self.left_list.push_back(c);
                proof {
                    assert(final(self).contents() =~= old(self).contents());
                }
            },
            None => {},
        }
    }

    /// Makes the previous element current; nothing happens at the head.
    pub fn move_pointer_left(&mut self)
        ensures
            old(self).left_list@.len() <= 1 ==> final(self).left_list@ == old(self).left_list@
                && final(self).right_list@ == old(self).right_list@,
            old(self).left_list@.len() > 1 ==> final(self).left_list@ == old(self).left_list@.drop_last() && final(self).right_list@ == seq![
                old(self).left_list@.last(),
            ] + old(self).right_list@,
            final(self).contents() == old(self).contents(),
    {
        if self.left_list.len() <= 1 {
            return ;
        }
        let current_element = self.left_list.pop_back();
        match current_element {
            Some(c) => {
                self.right_list.push_front(c);
                proof {
                    assert(final(self).contents() =~= old(self).contents());
                }
            },
            None => {},
        }
    }

    pub fn get_current(&mut self) -> (r: Option<&E>)
        ensures
            *final(self) == *old(self),
            r == if old(self).left_list@.len() == 0 {
                None
            } else {
                Some(&old(self).left_list@.last())
            },
    {
        let n = self.left_list.len();
        if n == 0 {
            None
        } else {
            Some(&self.left_list[n - 1])
        }
    }

    pub fn get_next(&mut self) -> (r: Option<&E>)
        ensures
            *final(self) == *old(self),
            r == if old(self).right_list@.len() == 0 {
                None
            } else {
                Some(&old(self).right_list@[0])
            },
    {
        if self.right_list.len() == 0 {
            None
        } else {
            Some(&self.right_list[0])
        }
    }

    pub fn get_prev(&mut self) -> (r: Option<&E>)
        ensures
            *final(self) == *old(self),
            r == if old(self).left_list@.len() < 2 {
                None
            } else {
                Some(&old(self).left_list@[old(self).left_list@.len() - 2])
            },
    {
        let n = self.left_list.len();
        if n < 2 {
            None
        } else {
            Some(&self.left_list[n - 2])
        }
    }

    pub fn get_current_mut(&mut self) -> (r: Option<&mut E>)
        ensures
            old(self).left_list@.len() == 0 ==> r.is_none() && final(self).left_list@ == old(self).left_list@,
            old(self).left_list@.len() > 0 ==> r.is_some() && *r.unwrap() == old(self).left_list@.last() && final(self).left_list@ == old(self).left_list@.update(
                old(self).left_list@.len() - 1,
                *final(r.unwrap()),
            ),
            final(self).right_list@ == old(self).right_list@,
    {
        let n = self.left_list.len();
        if n == 0 {
            None
        } else {
            Some(deque_slot(&mut self.left_list, n - 1))
        }
    }

    pub fn get_next_mut(&mut self) -> (r: Option<&mut E>)
        ensures
            old(self).right_list@.len() == 0 ==> r.is_none() && final(self).right_list@ == old(self).right_list@,
            old(self).right_list@.len() > 0 ==> r.is_some() && *r.unwrap() == old(self).right_list@[0] && final(self).right_list@ == old(self).right_list@.update(
                0,
                *final(r.unwrap()),
            ),
            final(self).left_list@ == old(self).left_list@,
    {
        if self.right_list.len() == 0 {
            None
        } else {
            Some(deque_slot(&mut self.right_list, 0))
        }
    }

    pub fn get_prev_mut(&mut self) -> (r: Option<&mut E>)
        ensures
            old(self).left_list@.len() < 2 ==> r.is_none() && final(self).left_list@ == old(self).left_list@,
            old(self).left_list@.len() >= 2 ==> r.is_some() && *r.unwrap() == old(self).left_list@[old(self).left_list@.len() - 2] && final(self).left_list@ == old(self).left_list@.update(old(self).left_list@.len() - 2, *final(r.unwrap())),
            final(self).right_list@ == old(self).right_list@,
    {
        let n = self.left_list.len();
        if n < 2 {
            None
        } else {
            Some(deque_slot(&mut self.left_list, n - 2))
        }
    }

    /// Position of the current element in the whole sequence.
    pub fn get_idx(&self) -> (r: usize)
        requires
            self.left_list@.len() > 0,
        ensures
            r == self.left_list@.len() - 1,
    {
        self.left_list.len() - 1
    }

    pub fn len(&self) -> (r: usize)
        requires
            self.left_list@.len() + self.right_list@.len() <= usize::MAX,
        ensures
            r == self.contents().len(),
    {
        self.left_list.len() + self.right_list.len()
    }

    pub fn is_head(&self) -> (r: bool)
        ensures
            r == (self.left_list@.len() == 1),
    {
        self.left_list.len() == 1
    }

    pub fn is_tail(&self) -> (r: bool)
        ensures
            r == (self.right_list@.len() == 0 && self.left_list@.len() > 0),
    {
        self.right_list.len() == 0 && self.left_list.len() > 0
    }

    pub fn is_empty(&self) -> (r: bool)
        requires
            self.wf(),
        ensures
            r == (self.contents().len() == 0),
    {
        self.left_list.len() == 0
    }

    /// References to the elements up to and including the current one.
    pub fn left_list_as_vec(&self) -> (r: Vec<&E>)
        ensures
            r@.len() == self.left_list@.len(),
            forall|i: int| 0 <= i < r@.len() ==> *r@[i] == self.left_list@[i],
    {
        deque_refs(&self.left_list)
    }

    /// References to the elements after the current one.
    pub fn right_list_as_vec(&self) -> (r: Vec<&E>)
        ensures
            r@.len() == self.right_list@.len(),
            forall|i: int| 0 <= i < r@.len() ==> *r@[i] == self.right_list@[i],
    {
        deque_refs(&self.right_list)
    }

    /// References to all the elements, in order.
    pub fn left_right_list_as_vec(&self) -> (r: Vec<&E>)
        ensures
            r@.len() == self.contents().len(),
            forall|i: int| 0 <= i < r@.len() ==> *r@[i] == self.contents()[i],
    {
        let mut out = deque_refs(&self.left_list);
        let mut rest = deque_refs(&self.right_list);
        out.append(&mut rest);
        out
    }

    /// Takes out the elements up to and including the current one.
    pub fn left_list(&mut self) -> (r: Vec<E>)
        ensures
            r@ == old(self).left_list@,
            final(self).left_list@.len() == 0,
            final(self).right_list@ == old(self).right_list@,
    {
        drain_deque(&mut self.left_list)
    }

    /// Takes out the elements after the current one.
    pub fn right_list(&mut self) -> (r: Vec<E>)
        ensures
            r@ == old(self).right_list@,
            final(self).right_list@.len() == 0,
            final(self).left_list@ == old(self).left_list@,
    {
        drain_deque(&mut self.right_list)
    }
}

/// Relies on `VecDeque`'s `IndexMut`: a mutable reference to entry `i`, whose
/// final value becomes that entry.
#[verifier::external_body]
pub(crate) fn deque_slot<T>(d: &mut VecDeque<T>, i: usize) -> (r: &mut T)
    requires
        i < old(d)@.len(),
    ensures
        *r == old(d)@[i as int],
        final(d)@ == old(d)@.update(i as int, *final(r)),
{
    &mut d[i]
}

fn deque_refs<E>(d: &VecDeque<E>) -> (r: Vec<&E>)
    ensures
        r@.len() == d@.len(),
        forall|i: int| 0 <= i < r@.len() ==> *r@[i] == d@[i],
{
    let mut out: Vec<&E> = Vec::new();
    let mut i: usize = 0;
    while i < d.len()
        invariant
            i <= d@.len(),
            out@.len() == i,
            forall|j: int| 0 <= j < i ==> *out@[j] == d@[j],
        decreases d@.len() - i,
    {
        out.push(&d[i]);
        i = i + 1;
    }
    out
}

fn drain_deque<E>(d: &mut VecDeque<E>) -> (r: Vec<E>)
    ensures
        r@ == old(d)@,
        final(d)@.len() == 0,
{
    let mut out: Vec<E> = Vec::new();
    let ghost orig = d@;
    while d.len() > 0
        invariant
            out@ + d@ == orig,
        decreases d@.len(),
    {
        match d.pop_front() {
            Some(e) => {
                out.push(e);
                proof {
                    assert(out@ + d@ =~= orig);
                }
            },
            None => {},
        }
    }
    proof {
        assert(out@ =~= orig);
    }
    out
}

} // verus!
