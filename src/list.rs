use std::rc::Rc;
use vstd::prelude::*;

verus! {

/// A persistent singly linked list whose end carries a value of its own.
#[derive(Debug, PartialEq, Eq)]
pub enum List<T, N> {
    Cons(T, Rc<List<T, N>>),
    Nil(N),
}

impl<T, N> List<T, N> {
    /// The elements of the list, from the head.
    pub open spec fn elems(self) -> Seq<T>
        decreases self,
    {
        match self {
            List::Cons(x, tail) => seq![x].add((*tail).elems()),
            List::Nil(_) => Seq::empty(),
        }
    }

    /// What the end of the list carries.
    pub open spec fn end(self) -> N
        decreases self,
    {
        match self {
            List::Cons(_, tail) => (*tail).end(),
            List::Nil(n) => n,
        }
    }

    /// Whether the list holds no element.
    pub fn is_nil(&self) -> (r: bool)
        ensures
            r == (self.elems().len() == 0),
    {
        match self {
            List::Cons(_, _) => false,
            List::Nil(_) => true,
        }
    }

    /// The number of elements.
    pub fn len(&self) -> (r: usize)
        requires
            self.elems().len() <= usize::MAX,
        ensures
            r == self.elems().len(),
        decreases self,
    {
        match self {
            List::Cons(_, tail) => {
                let n = tail.len();
                n + 1
            },
            List::Nil(_) => 0,
        }
    }

    /// A reference to the element at `index`, counting from the head, if
    /// there is one.
    pub fn get(&self, index: usize) -> (r: Option<&T>)
        ensures
            index < self.elems().len() ==> r == Some(&self.elems()[index as int]),
            index >= self.elems().len() ==> r is None,
        decreases self,
    {
        match self {
            List::Cons(x, tail) => {
                proof {
                    assert(self.elems() == seq![*x].add((**tail).elems()));
                }
                if index == 0 {
                    Some(x)
                } else {
                    tail.get(index - 1)
                }
            },
            List::Nil(_) => None,
        }
    }

    /// The tail and the head, if the list is not empty; the tail is shared.
    pub fn pop(&self) -> (r: Option<(Rc<List<T, N>>, &T)>)
        ensures
            self.elems().len() > 0 ==> (r matches Some((tail, head)) && *head == self.elems()[0]
                && (*tail).elems() == self.elems().drop_first() && (*tail).end() == self.end()),
            self.elems().len() == 0 ==> r is None,
    {
        match self {
            List::Cons(x, tail) => {
                proof {
                    assert(seq![*x].add((**tail).elems()).drop_first() =~= (**tail).elems());
                }
                Some((tail.clone(), x))
            },
            List::Nil(_) => None,
        }
    }

    /// The head, if any.
    pub fn peek(&self) -> (r: Option<&T>)
        ensures
            self.elems().len() > 0 ==> r == Some(&self.elems()[0]),
            self.elems().len() == 0 ==> r is None,
    {
        self.get(0)
    }
}

/// A cursor over the elements of a list, from the head.
pub struct ListIterator<'a, T, N> {
    pub rest: &'a List<T, N>,
}

impl<'a, T, N> ListIterator<'a, T, N> {
    /// The next element, if any; the cursor moves past it.
    pub fn next(&mut self) -> (r: Option<&'a T>)
        ensures
            old(self).rest.elems().len() > 0 ==> r == Some(&old(self).rest.elems()[0])
                && final(self).rest.elems() == old(self).rest.elems().drop_first(),
            old(self).rest.elems().len() == 0 ==> r is None && final(self).rest == old(self).rest,
    {
        match self.rest {
            List::Cons(x, tail) => {
                proof {
                    assert(self.rest.elems() == seq![*x].add((**tail).elems()));
                    assert(seq![*x].add((**tail).elems()).drop_first() =~= (**tail).elems());
                }
                self.rest = &**tail;
                Some(x)
            },
            List::Nil(_) => None,
        }
    }
}

impl<T, N> List<T, N> {
    /// A cursor at the head of the list.
    pub fn iter(&self) -> (r: ListIterator<'_, T, N>)
        ensures
            *r.rest == *self,
    {
        ListIterator { rest: self }
    }
}

/// A new list with `elt` in front of `list`; the tail is shared, not copied.
pub fn push<T, N>(list: &Rc<List<T, N>>, elt: T) -> (r: Rc<List<T, N>>)
    ensures
        *r == List::Cons(elt, *list),
        (*r).elems() == seq![elt].add((**list).elems()),
        (*r).end() == (**list).end(),
{
    Rc::new(List::Cons(elt, list.clone()))
}

} // verus!
