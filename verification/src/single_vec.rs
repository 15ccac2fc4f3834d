//! A vector of indices that takes no heap space while it holds at most one.

use vstd::prelude::*;

verus! {

/// How a [`SingleVec`] holds its items.
#[derive(Debug, PartialEq, Eq)]
pub enum ReprMut {
    Empty,
    Single(u32),
    Vec(Box<Vec<u32>>),
}

impl ReprMut {
    /// The items held, in order.
    pub open spec fn items(self) -> Seq<u32> {
        match self {
            ReprMut::Empty => Seq::empty(),
            ReprMut::Single(value) => seq![value],
            ReprMut::Vec(vec) => vec@,
        }
    }

    pub fn from_vec(vec: Box<Vec<u32>>) -> (r: ReprMut)
        ensures
            r == ReprMut::Vec(vec),
            r.items() == vec@,
    {
        ReprMut::Vec(vec)
    }
}

/// A vector made for the case that it holds one item.
#[derive(Debug, PartialEq, Eq)]
pub struct SingleVec {
    inner: ReprMut,
}

impl View for SingleVec {
    type V = Seq<u32>;

    closed spec fn view(&self) -> Seq<u32> {
        self.inner.items()
    }
}

impl SingleVec {
    pub fn new() -> (r: SingleVec)
        ensures
            r@ =~= Seq::<u32>::empty(),
    {
        SingleVec { inner: ReprMut::Empty }
    }

    pub fn from_single(value: u32) -> (r: SingleVec)
        ensures
            r@ =~= seq![value],
    {
        SingleVec { inner: ReprMut::Single(value) }
    }

    pub fn from_vec(vec: Vec<u32>) -> (r: SingleVec)
        ensures
            r@ == vec@,
    {
        SingleVec { inner: ReprMut::from_vec(Box::new(vec)) }
    }

    pub fn push(&mut self, value: u32)
        ensures
            final(self)@ =~= old(self)@.push(value),
    {
        let mut taken = ReprMut::Empty;
        core::mem::swap(&mut self.inner, &mut taken);
        self.inner = match taken {
            ReprMut::Empty => ReprMut::Single(value),
            ReprMut::Single(s) => {
                let mut vec: Vec<u32> = Vec::new();
                vec.push(s);
                vec.push(value);
                ReprMut::from_vec(Box::new(vec))
            },
            ReprMut::Vec(v) => {
                let mut vec = v;
                vec.push(value);
                ReprMut::from_vec(vec)
            },
        };
    }

    pub fn clear(&mut self)
        ensures
            final(self)@ =~= Seq::<u32>::empty(),
    {
        self.inner = ReprMut::Empty;
    }

    pub fn contains(&self, value: u32) -> (r: bool)
        ensures
            r == self@.contains(value),
    {
        match &self.inner {
            ReprMut::Empty => false,
            ReprMut::Single(s) => {
                proof {
                    if *s == value {
                        assert(self@[0] == value);
                    }
                }
                *s == value
            },
            ReprMut::Vec(v) => {
                let mut i: usize = 0;
                while i < v.len()
                    invariant
                        0 <= i <= v@.len(),
                        self@ == v@,
                        forall|k: int| 0 <= k < i ==> v@[k] != value,
                    decreases v@.len() - i,
                {
                    if v[i] == value {
                        assert(self@[i as int] == value);
                        return true;
                    }
                    i += 1;
                }
                false
            },
        }
    }

    pub fn len(&self) -> (r: usize)
        ensures
            r == self@.len(),
    {
        match &self.inner {
            ReprMut::Empty => 0,
            ReprMut::Single(_) => 1,
            ReprMut::Vec(v) => v.len(),
        }
    }

    /// The item at position `index`.
    pub fn get(&self, index: usize) -> (r: u32)
        requires
            index < self@.len(),
        ensures
            r == self@[index as int],
    {
        match &self.inner {
            ReprMut::Empty => 0,
            ReprMut::Single(s) => *s,
            ReprMut::Vec(v) => v[index],
        }
    }

    /// Walks the items in order.
    pub fn iter(&self) -> (r: Iter<'_>)
        ensures
            r.remaining() == self@,
    {
        match &self.inner {
            ReprMut::Empty => Iter::Empty,
            ReprMut::Single(value) => Iter::Single(*value),
            ReprMut::Vec(v) => {
                assert(v@.subrange(0, v@.len() as int) =~= v@);
                Iter::Vec(v, 0)
            },
        }
    }

    /// A vector with the same items.
    pub fn duplicate(&self) -> (r: SingleVec)
        ensures
            r@ == self@,
    {
        match &self.inner {
            ReprMut::Empty => SingleVec::new(),
            ReprMut::Single(value) => SingleVec::from_single(*value),
            ReprMut::Vec(v) => {
                let mut copy: Vec<u32> = Vec::new();
                let mut i: usize = 0;
                while i < v.len()
                    invariant
                        0 <= i <= v@.len(),
                        copy@ =~= v@.subrange(0, i as int),
                    decreases v@.len() - i,
                {
                    copy.push(v[i]);
                    i += 1;
                }
                assert(copy@ =~= v@);
                SingleVec::from_vec(copy)
            },
        }
    }
}

impl Default for SingleVec {
    fn default() -> (r: SingleVec)
        ensures
            r@ =~= Seq::<u32>::empty(),
    {
        SingleVec::new()
    }
}

/// Walks the items of a [`SingleVec`].
pub enum Iter<'a> {
    Empty,
    Single(u32),
    Vec(&'a Vec<u32>, usize),
}

impl<'a> Iter<'a> {
    /// The items still to come, in order.
    pub open spec fn remaining(self) -> Seq<u32> {
        match self {
            Iter::Empty => Seq::empty(),
            Iter::Single(value) => seq![value],
            Iter::Vec(vec, position) => if position <= vec@.len() {
                vec@.subrange(position as int, vec@.len() as int)
            } else {
                Seq::empty()
            },
        }
    }

    pub fn next(&mut self) -> (r: Option<u32>)
        ensures
            old(self).remaining().len() == 0 ==> r.is_none() && final(self).remaining().len() == 0,
            old(self).remaining().len() > 0 ==> r == Some(old(self).remaining()[0])
                && final(self).remaining() =~= old(self).remaining().subrange(
                1,
                old(self).remaining().len() as int,
            ),
    {
        match *self {
            Iter::Empty => None,
            Iter::Single(value) => {
                *self = Iter::Empty;
                Some(value)
            },
            Iter::Vec(vec, position) => {
                if position < vec.len() {
                    *self = Iter::Vec(vec, position + 1);
                    Some(vec[position])
                } else {
                    None
                }
            },
        }
    }
}

} // verus!
