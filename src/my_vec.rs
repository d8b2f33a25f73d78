use vstd::prelude::*;

verus! {

/// A growable sequence of `i32` values, viewed as a `Seq<i32>`.
pub struct MyVec {
    data: Vec<i32>,
}

impl View for MyVec {
    type V = Seq<i32>;

    closed spec fn view(&self) -> Seq<i32> {
        self.data@
    }
}

impl MyVec {
    /// An empty vector.
    pub fn new() -> (v: MyVec)
        ensures
            v@ == Seq::<i32>::empty(),
    {
        MyVec { data: Vec::new() }
    }

    /// Appends `value` at the end.
    pub fn push(&mut self, value: i32)
        ensures
            final(self)@ == old(self)@.push(value),
    {
        self.data.push(value);
    }

    /// The element at `index`, or `None` past the end.
    pub fn get(&self, index: usize) -> (r: Option<&i32>)
        ensures
            index < self@.len() ==> r == Some(&self@[index as int]),
            index >= self@.len() ==> r is None,
    {
        if index < self.data.len() {
            Some(&self.data[index])
        } else {
            None
        }
    }
}

} // verus!
