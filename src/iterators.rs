//! Filtering shoes by size, and a counter that yields one to five.
use vstd::prelude::*;

verus! {

/// A shoe of some size and style.
#[derive(PartialEq, Debug)]
pub struct Shoe {
    pub size: u32,
    pub style: String,
}

/// The shoes of `shoes` whose size is `size`, in their order.
pub open spec fn of_size(shoes: Seq<Shoe>, size: u32) -> Seq<Shoe>
    decreases shoes.len(),
{
    if shoes.len() == 0 {
        Seq::empty()
    } else if shoes[0].size == size {
        seq![shoes[0]] + of_size(shoes.drop_first(), size)
    } else {
        of_size(shoes.drop_first(), size)
    }
}

/// Keeps the shoes of size `my_size`, in their order.
pub fn shoes_in_my_size(shoes: Vec<Shoe>, my_size: u32) -> (r: Vec<Shoe>)
    ensures
        r@ == of_size(shoes@, my_size),
{
    let ghost all = shoes@;
    let mut rest = shoes;
    let mut kept: Vec<Shoe> = Vec::new();
    while rest.len() > 0
        invariant
            kept@ + of_size(rest@, my_size) == of_size(all, my_size),
        decreases rest.len(),
    {
        let ghost before = rest@;
        let shoe = rest.remove(0);
        assert(rest@ =~= before.drop_first());
        if shoe.size == my_size {
            let ghost k = kept@;
            kept.push(shoe);
            assert(kept@ + of_size(rest@, my_size) =~= k + (seq![before[0]] + of_size(rest@, my_size)));
        }
    }
    assert(kept@ =~= kept@ + of_size(rest@, my_size));
    kept
}

/// Counts from one to five, then reports the end.
pub struct Counter {
    count: u32,
}

impl Counter {
    pub closed spec fn spec_count(&self) -> u32 {
        self.count
    }

    /// A counter that has yielded nothing yet.
    pub fn new() -> (c: Counter)
        ensures
            c.spec_count() == 0,
    {
        Counter { count: 0 }
    }

    /// Counts one more and yields the count while it is below six;
    /// `None` from then on.
    pub fn next(&mut self) -> (r: Option<u32>)
        requires
            old(self).spec_count() < u32::MAX,
        ensures
            final(self).spec_count() == old(self).spec_count() + 1,
            r == (if final(self).spec_count() < 6 {
                Some(final(self).spec_count())
            } else {
                None::<u32>
            }),
    {
        self.count = self.count + 1;
        if self.count < 6 {
            Some(self.count)
        } else {
            None
        }
    }
}

} // verus!
