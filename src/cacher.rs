//! Memoising a calculation: each argument is computed once, and later
//! requests for it are answered from the stored result.
use vstd::laws_eq::obeys_concrete_eq;
use vstd::prelude::*;

verus! {

/// A calculation together with the results it has produced so far, kept
/// in the order in which they were first asked for. The results sit in a
/// `Vec` rather than a `HashMap`: vstd specifies `HashMap` only for keys
/// whose hashing and equality it models, which a generic key, and `&str` in
/// particular, is not.
#[verifier::reject_recursive_types(A)]
#[verifier::reject_recursive_types(B)]
pub struct Cacher<F, A, B> where F: Fn(A) -> B, A: Copy + PartialEq, B: Copy {
    calculation: F,
    values: Vec<(A, B)>,
}

/// The first stored result for `arg`, if any.
pub open spec fn lookup<A, B>(entries: Seq<(A, B)>, arg: A) -> Option<B>
    decreases entries.len(),
{
    if entries.len() == 0 {
        None
    } else if entries[0].0 == arg {
        Some(entries[0].1)
    } else {
        lookup(entries.drop_first(), arg)
    }
}

/// A result stored for an argument that had none is found again.
pub proof fn lemma_lookup_push<A, B>(entries: Seq<(A, B)>, arg: A, b: B)
    requires
        lookup(entries, arg) is None,
    ensures
        lookup(entries.push((arg, b)), arg) == Some(b),
    decreases entries.len(),
{
    if entries.len() > 0 {
        assert(entries.push((arg, b)).drop_first() =~= entries.drop_first().push((arg, b)));
        lemma_lookup_push(entries.drop_first(), arg, b);
    }
}

impl<F, A, B> Cacher<F, A, B> where F: Fn(A) -> B, A: Copy + PartialEq, B: Copy {
    /// The calculation being memoised.
    pub closed spec fn calc(&self) -> F {
        self.calculation
    }

    /// The stored arguments and results.
    pub closed spec fn entries(&self) -> Seq<(A, B)> {
        self.values@
    }

    /// Every stored result is one that the calculation gives for its
    /// argument, and, where equality of arguments is plain equality, no
    /// argument is stored twice.
    pub open spec fn wf(&self) -> bool {
        &&& forall|i: int| 0 <= i < self.entries().len() ==> call_ensures(
            self.calc(),
            (#[trigger] self.entries()[i].0,),
            self.entries()[i].1,
        )
        &&& obeys_concrete_eq::<A>() ==> forall|i: int, j: int|
            0 <= i < j < self.entries().len() ==> #[trigger] self.entries()[i].0 != #[trigger] self.entries()[j].0
    }

    /// A cache of `calculation` that holds no result yet.
    pub fn new(calculation: F) -> (c: Cacher<F, A, B>)
        ensures
            c.wf(),
            c.calc() == calculation,
            c.entries() == Seq::<(A, B)>::empty(),
    {
        Cacher { calculation, values: Vec::new() }
    }

    /// The result of the calculation for `arg`: the stored one where `arg`
    /// was asked for before, else a fresh one, which is then stored. What is
    /// returned is pinned down where equality of arguments is plain equality
    /// (integers, plain structs); for other argument types only the growth of
    /// the cache is stated.
    pub fn value(&mut self, arg: A) -> (r: B)
        requires
            old(self).wf(),
            call_requires(old(self).calc(), (arg,)),
        ensures
            final(self).wf(),
            final(self).calc() == old(self).calc(),
            final(self).entries() == old(self).entries() || final(self).entries() == old(self).entries().push(
                (arg, r),
            ),
            obeys_concrete_eq::<A>() ==> call_ensures(old(self).calc(), (arg,), r),
            obeys_concrete_eq::<A>() ==> (lookup(old(self).entries(), arg) matches Some(b) ==> r == b
                && final(self).entries() == old(self).entries()),
            obeys_concrete_eq::<A>() ==> (lookup(old(self).entries(), arg) is None ==> final(self).entries()
                == old(self).entries().push((arg, r))),
    {
        let n = self.values.len();
        let mut i: usize = 0;
        assert(self.entries().skip(0) =~= self.entries());
        while i < n
            invariant
                n == self.values.len(),
                i <= n,
                self.wf(),
                obeys_concrete_eq::<A>() ==> lookup(self.entries(), arg) == lookup(self.entries().skip(i as int), arg),
                obeys_concrete_eq::<A>() ==> forall|j: int| 0 <= j < i ==> #[trigger] self.entries()[j].0 != arg,
            decreases n - i,
        {
            let entry = self.values[i];
            assert(self.entries().skip(i as int).drop_first() =~= self.entries().skip(i + 1));
            let same = entry.0 == arg;
            proof {
                if obeys_concrete_eq::<A>() {
                    reveal(obeys_concrete_eq);
                    assert(same == (self.entries()[i as int].0 == arg));
                }
            }
            if same {
                assert(call_ensures(self.calc(), (self.entries()[i as int].0,), self.entries()[i as int].1));
                return entry.1;
            }
            i = i + 1;
        }
        assert(self.entries().skip(n as int) =~= Seq::<(A, B)>::empty());
        let ghost before = self.entries();
        let r = (self.calculation)(arg);
        self.values.push((arg, r));
        assert(self.entries() =~= before.push((arg, r)));
        r
    }
}

} // verus!
