use vstd::prelude::*;

verus! {

/// A plain work store: its owner adds and takes at the newest end, a thief
/// takes the oldest item.
pub struct Storage<T> {
    vec: Vec<T>,
}

impl<T> View for Storage<T> {
    type V = Seq<T>;

    /// The items, oldest first.
    closed spec fn view(&self) -> Seq<T> {
        self.vec@
    }
}

impl<T> Storage<T> {
    pub fn new() -> (s: Self)
        ensures
            s@ == Seq::<T>::empty(),
    {
        Storage { vec: Vec::new() }
    }

    pub fn is_empty(&self) -> (b: bool)
        ensures
            b == (self@.len() == 0),
    {
        self.vec.len() == 0
    }

    /// Takes the oldest item, if any.
    pub fn steal(&mut self) -> (r: Option<T>)
        ensures
            old(self)@.len() == 0 ==> r is None && final(self)@ == old(self)@,
            old(self)@.len() > 0 ==> r == Some(old(self)@[0]) && final(self)@ == old(self)@.drop_first(),
    {
        if self.vec.len() == 0 {
            None
        } else {
            let t = self.vec.remove(0);
            assert(self.vec@ =~= old(self)@.drop_first());
            Some(t)
        }
    }

    /// Takes the newest item, if any.
    pub fn get(&mut self) -> (r: Option<T>)
        ensures
            old(self)@.len() == 0 ==> r is None && final(self)@ == old(self)@,
            old(self)@.len() > 0 ==> r == Some(old(self)@.last()) && final(self)@ == old(self)@.drop_last(),
    {
        self.vec.pop()
    }

    pub fn add(&mut self, t: T)
        ensures
            final(self)@ == old(self)@.push(t),
    {
        self.vec.push(t);
    }
}

} // verus!
