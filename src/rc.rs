//! A store of reference-counted control blocks.
//!
//! Every block holds a payload value, the handles that the payload owns
//! (its links), a strong count and a weak count. `Shared` and `Weak` are
//! handles into the store: each live `Shared` stands for one unit of its
//! block's strong count and each live `Weak` for one unit of its weak count.
//! Handles are released explicitly; releasing the last strong handle
//! destroys the payload, which in turn releases every link it held.
//!
//! A block whose strong and weak counts are both zero is reclaimed: the
//! next allocation reuses its slot. Counts are `u64`; an operation that
//! would raise one past `u64::MAX` is ruled out by its precondition, so no
//! count ever wraps. Every handle carries the ghost identity of the store
//! that made it, and the store's operations require their handles to carry
//! its own. The identity exists only in proofs (every store gets the same
//! abstract value, which callers cannot see), so a verified caller can only
//! hand a store its own handles; unverified code is not held to this. A
//! payload that is a
//! `Cell` can be changed by any strong owner, only through the cell's
//! borrows, which the store performs.
use vstd::pervasive::arbitrary;
use vstd::prelude::*;
use crate::cell::{
    borrow_mut_next, borrow_next, release_next, BorrowError, BorrowGuard, BorrowMutError, BorrowState, Cell,
    MutGuard,
};

verus! {

/// A strong handle: one unit of ownership of a block's payload. It carries
/// the ghost identity of the store that made it, which that store's
/// operations require.
pub struct Shared {
    index: usize,
    store: Ghost<int>,
}

/// A weak handle: observes a block without keeping its payload alive.
/// An empty handle refers to no block at all.
pub struct Weak {
    index: Option<usize>,
    store: Ghost<int>,
}

/// A handle owned by a payload; released when that payload is destroyed.
pub enum Link {
    Strong(Shared),
    Weak(Weak),
}

impl Shared {
    /// The slot of the store that this handle refers to.
    pub closed spec fn slot(&self) -> nat {
        self.index as nat
    }

    /// The identity of the store that made this handle.
    pub closed spec fn store_id(&self) -> int {
        self.store@
    }
}

impl Weak {
    /// The slot of the store that this handle refers to, if any.
    pub closed spec fn slot(&self) -> Option<nat> {
        match self.index {
            Some(i) => Some(i as nat),
            None => None,
        }
    }

    /// The identity of the store that made this handle.
    pub closed spec fn store_id(&self) -> int {
        self.store@
    }

    /// A weak handle that refers to no block; it never upgrades.
    pub fn new_empty() -> (w: Weak)
        ensures
            w.slot() is None,
    {
        Weak { index: None, store: Ghost(arbitrary()) }
    }
}

/// The model of one control block.
pub struct Node<T> {
    pub value: Option<T>,
    pub links: Seq<Link>,
    pub strong: nat,
    pub weak: nat,
}

/// A block whose memory is reclaimed: no strong and no weak handle is left.
pub open spec fn is_free<T>(n: Node<T>) -> bool {
    n.strong == 0 && n.weak == 0
}

/// A block is consistent when its payload exists exactly while some strong
/// handle does, and a destroyed payload holds no links.
pub open spec fn node_wf<T>(n: Node<T>) -> bool {
    &&& (n.strong > 0 <==> n.value is Some)
    &&& (n.strong == 0 ==> n.links.len() == 0)
}

/// A handle of the store with identity `id`; an empty weak handle belongs
/// to every store.
pub open spec fn link_belongs(l: Link, id: int) -> bool {
    match l {
        Link::Strong(s) => s.store_id() == id,
        Link::Weak(w) => w.slot() is Some ==> w.store_id() == id,
    }
}

/// Every link of the block belongs to the store with identity `id`.
pub open spec fn node_owned<T>(n: Node<T>, id: int) -> bool {
    forall|k: int| 0 <= k < n.links.len() ==> link_belongs(#[trigger] n.links[k], id)
}

/// Every block of the store is consistent.
pub open spec fn model_wf<T>(m: Seq<Node<T>>) -> bool {
    forall|i: int| 0 <= i < m.len() ==> #[trigger] node_wf(m[i])
}

/// Sum of all strong counts: the measure that bounds a release cascade.
pub open spec fn total_strong<T>(m: Seq<Node<T>>) -> nat
    decreases m.len(),
{
    if m.len() == 0 {
        0
    } else {
        total_strong(m.drop_last()) + m.last().strong
    }
}

/// Releasing one handle: the new model and the links that the release freed.
/// A strong release that drops the count to zero destroys the payload and
/// hands back the links it held. A handle to no live count is ignored.
pub open spec fn release_step<T>(m: Seq<Node<T>>, l: Link) -> (Seq<Node<T>>, Seq<Link>) {
    match l {
        Link::Strong(s) => {
            let i = s.slot() as int;
            if i < m.len() && m[i].strong > 0 {
                if m[i].strong > 1 {
                    (m.update(i, Node { strong: (m[i].strong - 1) as nat, ..m[i] }), Seq::empty())
                } else {
                    (
                        m.update(i, Node { value: None, links: Seq::empty(), strong: 0, weak: m[i].weak }),
                        m[i].links,
                    )
                }
            } else {
                (m, Seq::empty())
            }
        },
        Link::Weak(w) => {
            match w.slot() {
                Some(j) => {
                    let i = j as int;
                    if i < m.len() && m[i].weak > 0 {
                        (m.update(i, Node { weak: (m[i].weak - 1) as nat, ..m[i] }), Seq::empty())
                    } else {
                        (m, Seq::empty())
                    }
                },
                None => (m, Seq::empty()),
            }
        },
    }
}

/// Releasing every pending handle, last first, together with everything
/// that those releases free in turn.
pub open spec fn release_all<T>(m: Seq<Node<T>>, pending: Seq<Link>) -> Seq<Node<T>>
    decreases total_strong(m), pending.len(),
{
    if pending.len() == 0 {
        m
    } else {
        let (m2, freed) = release_step(m, pending.last());
        proof {
            lemma_release_step_measure(m, pending.last());
        }
        release_all(m2, pending.drop_last() + freed)
    }
}

pub proof fn lemma_total_strong_update<T>(m: Seq<Node<T>>, i: int, n: Node<T>)
    requires
        0 <= i < m.len(),
    ensures
        total_strong(m.update(i, n)) + m[i].strong == total_strong(m) + n.strong,
    decreases m.len(),
{
    let u = m.update(i, n);
    if i == m.len() - 1 {
        assert(u.drop_last() =~= m.drop_last());
    } else {
        assert(u.drop_last() =~= m.drop_last().update(i, n));
        lemma_total_strong_update(m.drop_last(), i, n);
    }
}

/// A release step either lowers the total strong count, or changes nothing
/// and frees nothing.
pub proof fn lemma_release_step_measure<T>(m: Seq<Node<T>>, l: Link)
    ensures
        ({
            let (m2, freed) = release_step(m, l);
            total_strong(m2) < total_strong(m) || (total_strong(m2) == total_strong(m) && freed.len() == 0)
        }),
{
    let (m2, freed) = release_step(m, l);
    match l {
        Link::Strong(s) => {
            let i = s.slot() as int;
            if i < m.len() && m[i].strong > 0 {
                if m[i].strong > 1 {
                    lemma_total_strong_update(m, i, Node { strong: (m[i].strong - 1) as nat, ..m[i] });
                } else {
                    lemma_total_strong_update(
                        m,
                        i,
                        Node { value: None, links: Seq::empty(), strong: 0, weak: m[i].weak },
                    );
                }
            }
        },
        Link::Weak(w) => {
            match w.slot() {
                Some(j) => {
                    let i = j as int;
                    if i < m.len() && m[i].weak > 0 {
                        lemma_total_strong_update(m, i, Node { weak: (m[i].weak - 1) as nat, ..m[i] });
                    }
                },
                None => {},
            }
        },
    }
}


/// A release step keeps every block consistent, and keeps every link with
/// the store it belongs to.
pub proof fn lemma_release_step_wf<T>(m: Seq<Node<T>>, l: Link, id: int)
    requires
        model_wf(m),
        forall|i: int| 0 <= i < m.len() ==> #[trigger] node_owned(m[i], id),
    ensures
        model_wf(release_step(m, l).0),
        forall|i: int| 0 <= i < m.len() ==> #[trigger] node_owned(release_step(m, l).0[i], id),
        release_step(m, l).0.len() == m.len(),
{
    let m2 = release_step(m, l).0;
    assert forall|i: int| 0 <= i < m2.len() implies #[trigger] node_wf(m2[i]) by {
        assert(node_wf(m[i]));
    }
    assert forall|i: int| 0 <= i < m.len() implies #[trigger] node_owned(m2[i], id) by {
        assert(node_owned(m[i], id));
    }
}

/// The model after one more strong handle to slot `i` is made.
pub open spec fn bump_strong<T>(m: Seq<Node<T>>, i: int) -> Seq<Node<T>> {
    m.update(i, Node { strong: m[i].strong + 1, ..m[i] })
}

/// The model after one more weak handle to slot `i` is made.
pub open spec fn bump_weak<T>(m: Seq<Node<T>>, i: int) -> Seq<Node<T>> {
    m.update(i, Node { weak: m[i].weak + 1, ..m[i] })
}

/// A weak handle can be upgraded: it refers to a block whose payload exists.
pub open spec fn upgradable<T>(m: Seq<Node<T>>, w: Weak) -> bool {
    match w.slot() {
        Some(i) => i < m.len() && m[i as int].strong > 0,
        None => false,
    }
}

/// The first reclaimed slot from `i` on, or the size of the store where
/// there is none.
pub open spec fn first_free_from<T>(m: Seq<Node<T>>, i: int) -> int
    decreases m.len() - i,
{
    if i < 0 || i >= m.len() {
        m.len() as int
    } else if is_free(m[i]) {
        i
    } else {
        first_free_from(m, i + 1)
    }
}

/// The slot that the next allocation takes.
pub open spec fn first_free<T>(m: Seq<Node<T>>) -> int {
    first_free_from(m, 0)
}

/// The model after allocating a block for `value`: the first reclaimed slot
/// is reused, and the store grows only where there is none.
pub open spec fn allocate<T>(m: Seq<Node<T>>, value: T) -> Seq<Node<T>> {
    let k = first_free(m);
    if k < m.len() {
        m.update(k, fresh_node(value))
    } else {
        m.push(fresh_node(value))
    }
}

/// The block of a fresh strong handle.
pub open spec fn fresh_node<T>(value: T) -> Node<T> {
    Node { value: Some(value), links: Seq::empty(), strong: 1, weak: 0 }
}

struct Block<T> {
    value: Option<T>,
    links: Vec<Link>,
    strong: u64,
    weak: u64,
}

impl<T> Block<T> {
    closed spec fn model(&self) -> Node<T> {
        Node { value: self.value, links: self.links@, strong: self.strong as nat, weak: self.weak as nat }
    }
}

/// The control blocks of a family of shared values. Each store has an
/// identity, which its handles carry.
pub struct Store<T> {
    blocks: Vec<Block<T>>,
    id: Ghost<int>,
}

impl<T> View for Store<T> {
    type V = Seq<Node<T>>;

    closed spec fn view(&self) -> Seq<Node<T>> {
        Seq::new(self.blocks@.len(), |i: int| self.blocks@[i].model())
    }
}

impl<T> Store<T> {
    pub closed spec fn id(&self) -> int {
        self.id@
    }

    /// Every block is consistent, and every link it holds is a handle of
    /// this store.
    pub open spec fn wf(&self) -> bool {
        &&& model_wf(self@)
        &&& forall|i: int| 0 <= i < self@.len() ==> #[trigger] node_owned(self@[i], self.id())
    }

    /// A handle of this store.
    pub open spec fn owns(&self, s: &Shared) -> bool {
        s.store_id() == self.id() && s.slot() < self@.len()
    }

    /// A weak handle of this store, or an empty one.
    pub open spec fn owns_weak(&self, w: &Weak) -> bool {
        w.slot() matches Some(i) ==> w.store_id() == self.id() && i < self@.len()
    }

    /// The handle is this store's and owns a unit of a live block's strong
    /// count.
    pub open spec fn holds(&self, s: &Shared) -> bool {
        self.owns(s) && self@[s.slot() as int].strong > 0
    }

    /// An empty store.
    pub fn new() -> (r: Store<T>)
        ensures
            r.wf(),
            r@ == Seq::<Node<T>>::empty(),
    {
        let r = Store { blocks: Vec::new(), id: Ghost(arbitrary()) };
        assert(r@ =~= Seq::<Node<T>>::empty());
        r
    }

    /// Allocates a block for `value` and returns the first strong handle to
    /// it. The first reclaimed slot is reused; without one the store grows.
    pub fn new_shared(&mut self, value: T) -> (s: Shared)
        requires
            old(self).wf(),
            old(self)@.len() < usize::MAX,
        ensures
            final(self).wf(),
            final(self).id() == old(self).id(),
            s.store_id() == old(self).id(),
            s.slot() == first_free(old(self)@),
            final(self)@ == allocate(old(self)@, value),
            final(self).holds(&s),
            s.slot() <= old(self)@.len(),
            s.slot() < old(self)@.len() ==> is_free(old(self)@[s.slot() as int]),
            final(self)@.len() == old(self)@.len() || final(self)@.len() == old(self)@.len() + 1,
            final(self)@[s.slot() as int] == fresh_node(value),
            forall|j: int| 0 <= j < old(self)@.len() && j != s.slot() ==> final(self)@[j] == old(self)@[j],
    {
        let ghost m = self@;
        let ghost id = self.id();
        assert(forall|j: int| 0 <= j < m.len() ==> #[trigger] node_owned(m[j], id));
        let mut i: usize = 0;
        while i < self.blocks.len() && !(self.blocks[i].strong == 0 && self.blocks[i].weak == 0)
            invariant
                self@ == m,
                self.id() == id,
                0 <= i <= self.blocks.len(),
                first_free_from(m, i as int) == first_free(m),
            decreases self.blocks.len() - i,
        {
            assert(self@[i as int] == self.blocks@[i as int].model());
            i = i + 1;
        }
        assert(i < self.blocks.len() ==> self@[i as int] == self.blocks@[i as int].model());
        assert(first_free_from(m, i as int) == i);
        proof {
            lemma_first_free_from(m, 0);
        }
        let b = Block { value: Some(value), links: Vec::new(), strong: 1, weak: 0 };
        assert(b.model() == fresh_node(value));
        if i < self.blocks.len() {
            assert(self@[i as int] == self.blocks@[i as int].model());
            self.blocks.set(i, b);
            assert(self@ =~= m.update(i as int, fresh_node(value)));
        } else {
            self.blocks.push(b);
            assert(self@ =~= m.push(fresh_node(value)));
        }
        proof {
            if i < m.len() {
                lemma_owned_update(m, i as int, fresh_node(value), self.id());
            } else {
                assert forall|j: int| 0 <= j < self@.len() implies #[trigger] node_owned(self@[j], self.id()) by {
                    if j < m.len() {
                        assert(node_owned(m[j], self.id()));
                    }
                }
            }
        }
        Shared { index: i, store: Ghost(self.id@) }
    }

    /// Another strong handle to the block of `s`: its strong count grows by one.
    pub fn clone_shared(&mut self, s: &Shared) -> (r: Shared)
        requires
            old(self).wf(),
            old(self).holds(s),
            old(self)@[s.slot() as int].strong < u64::MAX,
        ensures
            final(self).wf(),
            final(self).id() == old(self).id(),
            r.store_id() == s.store_id(),
            r.slot() == s.slot(),
            final(self)@ == bump_strong(old(self)@, s.slot() as int),
    {
        let ghost m = self@;
        let i = s.index;
        assert(self@[i as int] == self.blocks@[i as int].model());
        assert(node_wf(m[i as int]));
        let c = self.blocks[i].strong;
        self.blocks[i].strong = c + 1;
        assert(self@ =~= m.update(i as int, Node { strong: m[i as int].strong + 1, ..m[i as int] }));
        proof {
            assert(node_owned(m[i as int], self.id()));
            lemma_owned_update(m, i as int, Node { strong: m[i as int].strong + 1, ..m[i as int] }, self.id());
        }
        Shared { index: i, store: Ghost(self.id@) }
    }

    /// A weak handle to the block of `s`: its weak count grows by one.
    pub fn downgrade(&mut self, s: &Shared) -> (w: Weak)
        requires
            old(self).wf(),
            old(self).holds(s),
            old(self)@[s.slot() as int].weak < u64::MAX,
        ensures
            final(self).wf(),
            final(self).id() == old(self).id(),
            w.store_id() == old(self).id(),
            w.slot() == Some(s.slot()),
            final(self)@ == bump_weak(old(self)@, s.slot() as int),
    {
        let ghost m = self@;
        let i = s.index;
        assert(self@[i as int] == self.blocks@[i as int].model());
        assert(node_wf(m[i as int]));
        let c = self.blocks[i].weak;
        self.blocks[i].weak = c + 1;
        assert(self@ =~= m.update(i as int, Node { weak: m[i as int].weak + 1, ..m[i as int] }));
        proof {
            assert(node_owned(m[i as int], self.id()));
            lemma_owned_update(m, i as int, Node { weak: m[i as int].weak + 1, ..m[i as int] }, self.id());
        }
        Weak { index: Some(i), store: Ghost(self.id@) }
    }

    /// A new strong handle from a weak one, while the payload still exists;
    /// `None` once the block's strong count is zero, or for an empty handle.
    pub fn upgrade(&mut self, w: &Weak) -> (r: Option<Shared>)
        requires
            old(self).wf(),
            w.slot() is Some ==> w.store_id() == old(self).id(),
            w.slot() is Some && w.slot().unwrap() < old(self)@.len() ==> old(self)@[w.slot().unwrap() as int].strong
                < u64::MAX,
        ensures
            final(self).wf(),
            final(self).id() == old(self).id(),
            r is Some <==> upgradable(old(self)@, *w),
            r is None ==> final(self)@ == old(self)@,
            r is Some ==> r.unwrap().store_id() == old(self).id(),
            r is Some ==> r.unwrap().slot() == w.slot().unwrap() && final(self)@ == bump_strong(
                old(self)@,
                w.slot().unwrap() as int,
            ),
    {
        match w.index {
            Some(i) => {
                if i < self.blocks.len() && self.blocks[i].strong > 0 {
                    let s = Shared { index: i, store: Ghost(self.id@) };
                    assert(self@[i as int] == self.blocks@[i as int].model());
                    Some(self.clone_shared(&s))
                } else {
                    None
                }
            },
            None => None,
        }
    }

    /// The strong count of the block of `s`.
    pub fn strong_count(&self, s: &Shared) -> (r: u64)
        requires
            self.owns(s),
        ensures
            r == self@[s.slot() as int].strong,
    {
        self.blocks[s.index].strong
    }

    /// The strong count of the block that `w` observes; zero for an empty
    /// handle.
    pub fn strong_count_weak(&self, w: &Weak) -> (r: u64)
        requires
            self.owns_weak(w),
        ensures
            r == (match w.slot() {
                Some(i) => self@[i as int].strong,
                None => 0,
            }),
    {
        match w.index {
            Some(i) => self.blocks[i].strong,
            None => 0,
        }
    }

    /// The weak count of the block of `s`.
    pub fn weak_count(&self, s: &Shared) -> (r: u64)
        requires
            self.owns(s),
        ensures
            r == self@[s.slot() as int].weak,
    {
        self.blocks[s.index].weak
    }

    /// Read access to the payload behind a strong handle.
    pub fn get(&self, s: &Shared) -> (r: &T)
        requires
            self.wf(),
            self.holds(s),
        ensures
            self@[s.slot() as int].value == Some(*r),
    {
        let i = s.index;
        assert(self@[i as int] == self.blocks@[i as int].model());
        assert(node_wf(self@[i as int]));
        self.blocks[i].value.as_ref().unwrap()
    }

    /// Hands `link` to the payload of `owner`, which then owns it: the handle
    /// is released when that payload is destroyed.
    pub fn attach(&mut self, owner: &Shared, link: Link)
        requires
            old(self).wf(),
            old(self).holds(owner),
            link_belongs(link, old(self).id()),
        ensures
            final(self).wf(),
            final(self).id() == old(self).id(),
            final(self)@ == old(self)@.update(
                owner.slot() as int,
                Node { links: old(self)@[owner.slot() as int].links.push(link), ..old(self)@[owner.slot() as int] },
            ),
    {
        let ghost m = self@;
        let i = owner.index;
        assert(self@[i as int] == self.blocks@[i as int].model());
        self.blocks[i].links.push(link);
        assert(self@ =~= m.update(i as int, Node { links: m[i as int].links.push(link), ..m[i as int] }));
        assert(node_wf(m[i as int]));
        proof {
            let n = Node { links: m[i as int].links.push(link), ..m[i as int] };
            assert(node_owned(m[i as int], self.id()));
            assert forall|k: int| 0 <= k < n.links.len() implies link_belongs(#[trigger] n.links[k], self.id()) by {
                if k < m[i as int].links.len() {
                    assert(link_belongs(m[i as int].links[k], self.id()));
                }
            }
            lemma_owned_update(m, i as int, n, self.id());
        }
    }

    /// Takes back the link that the payload of `owner` received last.
    pub fn detach(&mut self, owner: &Shared) -> (r: Option<Link>)
        requires
            old(self).wf(),
            old(self).holds(owner),
        ensures
            final(self).wf(),
            final(self).id() == old(self).id(),
            ({
                let n = old(self)@[owner.slot() as int];
                if n.links.len() == 0 {
                    r is None && final(self)@ == old(self)@
                } else {
                    r == Some(n.links.last()) && final(self)@ == old(self)@.update(
                        owner.slot() as int,
                        Node { links: n.links.drop_last(), ..n },
                    )
                }
            }),
    {
        let ghost m = self@;
        let i = owner.index;
        assert(self@[i as int] == self.blocks@[i as int].model());
        assert(node_wf(m[i as int]));
        let r = self.blocks[i].links.pop();
        proof {
            if m[i as int].links.len() == 0 {
                assert(self@ =~= m);
            } else {
                assert(self@ =~= m.update(i as int, Node { links: m[i as int].links.drop_last(), ..m[i as int] }));
                let n = Node { links: m[i as int].links.drop_last(), ..m[i as int] };
                assert(node_owned(m[i as int], self.id()));
                assert forall|k: int| 0 <= k < n.links.len() implies link_belongs(#[trigger] n.links[k], self.id()) by {
                    assert(link_belongs(m[i as int].links[k], self.id()));
                }
                lemma_owned_update(m, i as int, n, self.id());
            }
        }
        r
    }

    /// Releases one handle and returns the links that the release freed.
    fn release_one(&mut self, l: Link) -> (freed: Vec<Link>)
        requires
            old(self).wf(),
        ensures
            final(self).wf(),
            final(self).id() == old(self).id(),
            (final(self)@, freed@) == release_step(old(self)@, l),
    {
        let ghost m = self@;
        proof {
            lemma_release_step_wf(m, l, self.id());
        }
        match l {
            Link::Strong(s) => {
                let i = s.index;
                if i < self.blocks.len() && self.blocks[i].strong > 0 {
                    assert(self@[i as int] == self.blocks@[i as int].model());
                    let c = self.blocks[i].strong;
                    if c > 1 {
                        self.blocks[i].strong = c - 1;
                        assert(self@ =~= m.update(i as int, Node { strong: (m[i as int].strong - 1) as nat, ..m[i as int] }));
                        Vec::new()
                    } else {
                        let mut freed: Vec<Link> = Vec::new();
                        core::mem::swap(&mut self.blocks[i].links, &mut freed);
                        self.blocks[i].strong = 0;
                        self.blocks[i].value = None;
                        assert(self@ =~= m.update(
                            i as int,
                            Node { value: None, links: Seq::empty(), strong: 0, weak: m[i as int].weak },
                        ));
                        freed
                    }
                } else {
                    Vec::new()
                }
            },
            Link::Weak(w) => {
                match w.index {
                    Some(i) => {
                        if i < self.blocks.len() && self.blocks[i].weak > 0 {
                            assert(self@[i as int] == self.blocks@[i as int].model());
                            let c = self.blocks[i].weak;
                            self.blocks[i].weak = c - 1;
                            assert(self@ =~= m.update(i as int, Node { weak: (m[i as int].weak - 1) as nat, ..m[i as int] }));
                        }
                        Vec::new()
                    },
                    None => Vec::new(),
                }
            },
        }
    }

    /// Releases every pending handle and, in turn, the links of each payload
    /// that this destroys.
    fn release_pending(&mut self, pending: Vec<Link>)
        requires
            old(self).wf(),
        ensures
            final(self).wf(),
            final(self).id() == old(self).id(),
            final(self)@ == release_all(old(self)@, pending@),
    {
        let ghost goal = release_all(self@, pending@);
        let ghost id = self.id();
        let mut pending = pending;
        while pending.len() > 0
            invariant
                self.wf(),
                self.id() == id,
                release_all(self@, pending@) == goal,
            decreases total_strong(self@), pending.len(),
        {
            let ghost m = self@;
            let ghost p = pending@;
            let l = pending.pop().unwrap();
            proof {
                lemma_release_step_measure(m, l);
            }
            let mut freed = self.release_one(l);
            pending.append(&mut freed);
            assert(pending@ =~= p.drop_last() + release_step(m, p.last()).1);
        }
    }

    /// Releases a strong handle. When it was the last one, the payload is
    /// destroyed and every link it held is released in turn.
    pub fn drop_shared(&mut self, s: Shared)
        requires
            old(self).wf(),
            s.store_id() == old(self).id(),
        ensures
            final(self).wf(),
            final(self).id() == old(self).id(),
            final(self)@ == release_all(old(self)@, seq![Link::Strong(s)]),
    {
        let mut pending: Vec<Link> = Vec::new();
        pending.push(Link::Strong(s));
        self.release_pending(pending);
    }

    /// Releases a weak handle; it never destroys a payload.
    pub fn drop_weak(&mut self, w: Weak)
        requires
            old(self).wf(),
            w.slot() is Some ==> w.store_id() == old(self).id(),
        ensures
            final(self).wf(),
            final(self).id() == old(self).id(),
            final(self)@ == release_step(old(self)@, Link::Weak(w)).0,
    {
        let _ = self.release_one(Link::Weak(w));
    }
}


/// The cell held by the block at slot `i`.
pub open spec fn cell_at<U>(m: Seq<Node<Cell<U>>>, i: int) -> Cell<U> {
    m[i].value.unwrap()
}

/// The model with the cell of slot `i` replaced by `c`; nothing else changes.
pub open spec fn with_cell<U>(m: Seq<Node<Cell<U>>>, i: int, c: Cell<U>) -> Seq<Node<Cell<U>>> {
    m.update(i, Node { value: Some(c), ..m[i] })
}

/// The same cell, with the same value; only its borrow state may differ.
pub open spec fn same_value<U>(old: Cell<U>, new: Cell<U>) -> bool {
    new.id() == old.id() && new.value() == old.value()
}

/// A live block whose payload cell changes keeps the store consistent.
pub proof fn lemma_with_cell_wf<U>(m: Seq<Node<Cell<U>>>, i: int, c: Cell<U>, id: int)
    requires
        model_wf(m),
        forall|j: int| 0 <= j < m.len() ==> #[trigger] node_owned(m[j], id),
        0 <= i < m.len(),
        m[i].strong > 0,
    ensures
        model_wf(with_cell(m, i, c)),
        forall|j: int| 0 <= j < m.len() ==> #[trigger] node_owned(with_cell(m, i, c)[j], id),
{
    let n = Node { value: Some(c), ..m[i] };
    assert(node_owned(m[i], id));
    lemma_owned_update(m, i, n, id);
    assert forall|j: int| 0 <= j < m.len() implies #[trigger] node_wf(with_cell(m, i, c)[j]) by {
        assert(node_wf(m[j]));
    }
}

/// A payload that is a cell is changed by its strong owners only through
/// the cell's borrows, which the store performs on their behalf.
impl<U> Store<Cell<U>> {
    fn cell_mut(&mut self, s: &Shared) -> (r: &mut Cell<U>)
        requires
            old(self).wf(),
            old(self).holds(s),
        ensures
            *r == cell_at(old(self)@, s.slot() as int),
            final(self).id() == old(self).id(),
            final(self)@ == with_cell(old(self)@, s.slot() as int, *final(r)),
    {
        let i = s.index;
        assert(self@[i as int] == self.blocks@[i as int].model());
        assert(node_wf(self@[i as int]));
        let r = self.blocks[i].value.as_mut().unwrap();
        r
    }

    /// Starts a shared borrow of the cell behind `s`, unless a writer holds
    /// its value.
    pub fn try_borrow_cell(&mut self, s: &Shared) -> (r: Result<BorrowGuard, BorrowError>)
        requires
            old(self).wf(),
            old(self).holds(s),
            cell_at(old(self)@, s.slot() as int).wf(),
        ensures
            final(self).wf(),
            final(self).id() == old(self).id(),
            final(self)@ == with_cell(old(self)@, s.slot() as int, cell_at(final(self)@, s.slot() as int)),
            same_value(cell_at(old(self)@, s.slot() as int), cell_at(final(self)@, s.slot() as int)),
            cell_at(final(self)@, s.slot() as int).wf(),
            r is Ok <==> borrow_next(cell_at(old(self)@, s.slot() as int).state()) is Some,
            r matches Ok(g) ==> g.cell_id() == cell_at(old(self)@, s.slot() as int).id() && cell_at(
                final(self)@,
                s.slot() as int,
            ).state() == borrow_next(cell_at(old(self)@, s.slot() as int).state()).unwrap(),
            r is Err ==> cell_at(final(self)@, s.slot() as int).state() == cell_at(old(self)@, s.slot() as int).state(),
    {
        let ghost m = self@;
        let c = self.cell_mut(s);
        let r = c.try_borrow();
        proof {
            lemma_with_cell_wf(m, s.slot() as int, cell_at(self@, s.slot() as int), self.id());
        }
        r
    }

    /// Starts an exclusive borrow of the cell behind `s`, unless its value is
    /// lent out already.
    pub fn try_borrow_mut_cell(&mut self, s: &Shared) -> (r: Result<MutGuard, BorrowMutError>)
        requires
            old(self).wf(),
            old(self).holds(s),
            cell_at(old(self)@, s.slot() as int).wf(),
        ensures
            final(self).wf(),
            final(self).id() == old(self).id(),
            final(self)@ == with_cell(old(self)@, s.slot() as int, cell_at(final(self)@, s.slot() as int)),
            same_value(cell_at(old(self)@, s.slot() as int), cell_at(final(self)@, s.slot() as int)),
            cell_at(final(self)@, s.slot() as int).wf(),
            r is Ok <==> borrow_mut_next(cell_at(old(self)@, s.slot() as int).state()) is Some,
            r matches Ok(g) ==> g.cell_id() == cell_at(old(self)@, s.slot() as int).id() && cell_at(
                final(self)@,
                s.slot() as int,
            ).state() == BorrowState::Exclusive,
            r is Err ==> cell_at(final(self)@, s.slot() as int).state() == cell_at(old(self)@, s.slot() as int).state(),
    {
        let ghost m = self@;
        let c = self.cell_mut(s);
        let r = c.try_borrow_mut();
        proof {
            lemma_with_cell_wf(m, s.slot() as int, cell_at(self@, s.slot() as int), self.id());
        }
        r
    }

    /// Replaces the value of the cell behind `s` during an exclusive borrow
    /// of it, and returns the old value.
    pub fn replace_cell(&mut self, s: &Shared, guard: &MutGuard, value: U) -> (r: U)
        requires
            old(self).wf(),
            old(self).holds(s),
            guard.cell_id() == cell_at(old(self)@, s.slot() as int).id(),
            cell_at(old(self)@, s.slot() as int).state() is Exclusive,
        ensures
            final(self).wf(),
            final(self).id() == old(self).id(),
            final(self)@ == with_cell(old(self)@, s.slot() as int, cell_at(final(self)@, s.slot() as int)),
            r == cell_at(old(self)@, s.slot() as int).value(),
            cell_at(final(self)@, s.slot() as int).value() == value,
            cell_at(final(self)@, s.slot() as int).id() == cell_at(old(self)@, s.slot() as int).id(),
            cell_at(final(self)@, s.slot() as int).state() == cell_at(old(self)@, s.slot() as int).state(),
    {
        let ghost m = self@;
        let c = self.cell_mut(s);
        let r = c.replace(guard, value);
        proof {
            lemma_with_cell_wf(m, s.slot() as int, cell_at(self@, s.slot() as int), self.id());
        }
        r
    }

    /// Ends a shared borrow of the cell behind `s`.
    pub fn release_cell(&mut self, s: &Shared, guard: BorrowGuard)
        requires
            old(self).wf(),
            old(self).holds(s),
            guard.cell_id() == cell_at(old(self)@, s.slot() as int).id(),
            cell_at(old(self)@, s.slot() as int).wf(),
            cell_at(old(self)@, s.slot() as int).state() is Shared,
        ensures
            final(self).wf(),
            final(self).id() == old(self).id(),
            final(self)@ == with_cell(old(self)@, s.slot() as int, cell_at(final(self)@, s.slot() as int)),
            same_value(cell_at(old(self)@, s.slot() as int), cell_at(final(self)@, s.slot() as int)),
            cell_at(final(self)@, s.slot() as int).wf(),
            cell_at(final(self)@, s.slot() as int).state() == release_next(
                cell_at(old(self)@, s.slot() as int).state(),
            ),
    {
        let ghost m = self@;
        let c = self.cell_mut(s);
        c.release(guard);
        proof {
            lemma_with_cell_wf(m, s.slot() as int, cell_at(self@, s.slot() as int), self.id());
        }
    }

    /// Ends an exclusive borrow of the cell behind `s`.
    pub fn release_mut_cell(&mut self, s: &Shared, guard: MutGuard)
        requires
            old(self).wf(),
            old(self).holds(s),
            guard.cell_id() == cell_at(old(self)@, s.slot() as int).id(),
            cell_at(old(self)@, s.slot() as int).state() is Exclusive,
        ensures
            final(self).wf(),
            final(self).id() == old(self).id(),
            final(self)@ == with_cell(old(self)@, s.slot() as int, cell_at(final(self)@, s.slot() as int)),
            same_value(cell_at(old(self)@, s.slot() as int), cell_at(final(self)@, s.slot() as int)),
            cell_at(final(self)@, s.slot() as int).state() == BorrowState::Unshared,
    {
        let ghost m = self@;
        let c = self.cell_mut(s);
        c.release_mut(guard);
        proof {
            lemma_with_cell_wf(m, s.slot() as int, cell_at(self@, s.slot() as int), self.id());
        }
    }
}

/// Replacing one block by a block whose links all belong to the store keeps
/// every link of the store with the store.
pub proof fn lemma_owned_update<T>(m: Seq<Node<T>>, i: int, n: Node<T>, id: int)
    requires
        0 <= i < m.len(),
        forall|j: int| 0 <= j < m.len() ==> #[trigger] node_owned(m[j], id),
        node_owned(n, id),
    ensures
        forall|j: int| 0 <= j < m.update(i, n).len() ==> #[trigger] node_owned(m.update(i, n)[j], id),
{
    assert forall|j: int| 0 <= j < m.update(i, n).len() implies #[trigger] node_owned(m.update(i, n)[j], id) by {
        if j != i {
            assert(node_owned(m[j], id));
        }
    }
}

/// The next allocation takes the first reclaimed slot from `i` on, or
/// grows the store.
pub proof fn lemma_first_free_from<T>(m: Seq<Node<T>>, i: int)
    requires
        0 <= i <= m.len(),
    ensures
        i <= first_free_from(m, i) <= m.len(),
        first_free_from(m, i) < m.len() ==> is_free(m[first_free_from(m, i)]),
    decreases m.len() - i,
{
    if i < m.len() && !is_free(m[i]) {
        lemma_first_free_from(m, i + 1);
    }
}

/// A weak handle whose block has lost its payload stays expired when new
/// values are allocated: its block still counts it, so the slot is not
/// reused.
pub proof fn law_expired_weak_survives_allocation<T>(m: Seq<Node<T>>, w: Weak, value: T)
    requires
        w.slot() matches Some(i) && i < m.len() && m[i as int].strong == 0 && m[i as int].weak > 0,
    ensures
        !upgradable(m, w),
        !upgradable(allocate(m, value), w),
{
    lemma_first_free_from(m, 0);
}

/// A release step never raises a strong count and keeps the store's size.
pub proof fn lemma_release_step_shrinks<T>(m: Seq<Node<T>>, l: Link)
    ensures
        release_step(m, l).0.len() == m.len(),
        forall|k: int| 0 <= k < m.len() ==> #[trigger] release_step(m, l).0[k].strong <= m[k].strong,
{
}

/// A release cascade never raises a strong count and keeps the store's size.
pub proof fn lemma_release_all_shrinks<T>(m: Seq<Node<T>>, pending: Seq<Link>)
    ensures
        release_all(m, pending).len() == m.len(),
        forall|k: int| 0 <= k < m.len() ==> #[trigger] release_all(m, pending)[k].strong <= m[k].strong,
    decreases total_strong(m), pending.len(),
{
    if pending.len() > 0 {
        let (m2, freed) = release_step(m, pending.last());
        lemma_release_step_measure(m, pending.last());
        lemma_release_step_shrinks(m, pending.last());
        lemma_release_all_shrinks(m2, pending.drop_last() + freed);
        assert forall|k: int| 0 <= k < m.len() implies #[trigger] release_all(m, pending)[k].strong <= m[k].strong by {
            assert(release_all(m2, pending.drop_last() + freed)[k].strong <= m2[k].strong);
        }
    }
}

/// Cloning a strong handle raises its block's strong count by exactly one,
/// and releasing the clone again lowers it by exactly one, back to where it
/// was, leaving every block as it found it.
pub proof fn law_clone_then_release<T>(m: Seq<Node<T>>, s: Shared, clone: Shared)
    requires
        model_wf(m),
        s.slot() < m.len(),
        m[s.slot() as int].strong > 0,
        clone.slot() == s.slot(),
    ensures
        bump_strong(m, s.slot() as int)[s.slot() as int].strong == m[s.slot() as int].strong + 1,
        release_all(bump_strong(m, s.slot() as int), seq![Link::Strong(clone)]) == m,
{
    let i = s.slot() as int;
    let m1 = bump_strong(m, i);
    let p = seq![Link::Strong(clone)];
    let (m2, freed) = release_step(m1, p.last());
    assert(m2 =~= m);
    assert(p.drop_last() + freed =~= Seq::<Link>::empty());
    reveal_with_fuel(release_all, 2);
}

/// Once the last strong handle to a block is released, no weak handle to
/// that block can be upgraded any more: neither right away nor after any
/// further releases.
pub proof fn law_last_release_expires_weak<T>(m: Seq<Node<T>>, s: Shared, w: Weak)
    requires
        model_wf(m),
        s.slot() < m.len(),
        m[s.slot() as int].strong == 1,
        w.slot() == Some(s.slot()),
    ensures
        !upgradable(release_all(m, seq![Link::Strong(s)]), w),
        forall|later: Seq<Link>| !upgradable(#[trigger] release_all(release_all(m, seq![Link::Strong(s)]), later), w),
{
    let i = s.slot() as int;
    let p = seq![Link::Strong(s)];
    let (m2, freed) = release_step(m, p.last());
    assert(m2[i].strong == 0);
    lemma_release_all_shrinks(m2, p.drop_last() + freed);
    assert(release_all(m, p) == release_all(m2, p.drop_last() + freed));
    let m3 = release_all(m, p);
    assert forall|later: Seq<Link>| !upgradable(#[trigger] release_all(m3, later), w) by {
        lemma_release_all_shrinks(m3, later);
    }
}

/// The link refers to the block at slot `i`.
pub open spec fn reaches(l: Link, i: int) -> bool {
    match l {
        Link::Strong(s) => s.slot() == i,
        Link::Weak(w) => w.slot() matches Some(j) && j == i,
    }
}

/// No link in `links` refers to a block of `group`.
pub open spec fn avoids(links: Seq<Link>, group: Set<int>) -> bool {
    forall|k: int, i: int| 0 <= k < links.len() && group.contains(i) ==> !#[trigger] reaches(links[k], i)
}

/// Only blocks of `group` hold links to blocks of `group`.
pub open spec fn closed_group<T>(m: Seq<Node<T>>, group: Set<int>) -> bool {
    forall|j: int| 0 <= j < m.len() && !group.contains(j) ==> avoids(#[trigger] m[j].links, group)
}

/// A release cascade that starts from handles outside a closed group of
/// blocks never touches the group: each of its blocks keeps its counts,
/// its payload and its links.
pub proof fn lemma_closed_group_untouched<T>(m: Seq<Node<T>>, pending: Seq<Link>, group: Set<int>)
    requires
        closed_group(m, group),
        avoids(pending, group),
    ensures
        release_all(m, pending).len() == m.len(),
        forall|i: int| 0 <= i < m.len() && group.contains(i) ==> #[trigger] release_all(m, pending)[i] == m[i],
    decreases total_strong(m), pending.len(),
{
    lemma_release_all_shrinks(m, pending);
    if pending.len() > 0 {
        let l = pending.last();
        let (m2, freed) = release_step(m, l);
        lemma_release_step_measure(m, l);
        let rest = pending.drop_last() + freed;
        assert forall|j: int| 0 <= j < m2.len() && !group.contains(j) implies avoids(#[trigger] m2[j].links, group) by {
            assert(avoids(m[j].links, group));
        }
        assert(avoids(freed, group)) by {
            match l {
                Link::Strong(sh) => {
                    let i = sh.slot() as int;
                    if i < m.len() && m[i].strong == 1 {
                        assert(!reaches(pending[pending.len() - 1], i) ==> !group.contains(i)) by {
                            if group.contains(i) {
                                assert(!reaches(pending[pending.len() - 1], i));
                            }
                        }
                        assert(avoids(m[i].links, group));
                    }
                },
                Link::Weak(_) => {},
            }
        }
        assert forall|k: int, i: int| 0 <= k < rest.len() && group.contains(i) implies !#[trigger] reaches(rest[k], i) by {
            if k < pending.len() - 1 {
                assert(rest[k] == pending[k]);
            } else {
                assert(rest[k] == freed[k - (pending.len() - 1)]);
            }
        }
        lemma_closed_group_untouched(m2, rest, group);
        assert forall|i: int| 0 <= i < m.len() && group.contains(i) implies #[trigger] release_all(m, pending)[i] == m[i] by {
            assert(release_all(m2, rest)[i] == m2[i]);
            match l {
                Link::Strong(sh) => {
                    assert(!reaches(pending[pending.len() - 1], i));
                },
                Link::Weak(w) => {
                    assert(!reaches(pending[pending.len() - 1], i));
                },
            }
        }
    }
}

/// A strong cycle leaks. Where block `a` holds a strong link to block `b`
/// and `b` one to `a`, and no other handle to either is left (no other
/// block links to them, and nothing that is released refers to them), every
/// release keeps both strong counts as they are, at least one, and both
/// payloads alive.
pub proof fn law_strong_cycle_leaks<T>(m: Seq<Node<T>>, a: int, b: int, pending: Seq<Link>)
    requires
        model_wf(m),
        0 <= a < m.len(),
        0 <= b < m.len(),
        exists|k: int| 0 <= k < m[a].links.len() && (#[trigger] m[a].links[k] matches Link::Strong(s) && s.slot() == b),
        exists|k: int| 0 <= k < m[b].links.len() && (#[trigger] m[b].links[k] matches Link::Strong(s) && s.slot() == a),
        closed_group(m, set![a, b]),
        avoids(pending, set![a, b]),
    ensures
        release_all(m, pending)[a] == m[a],
        release_all(m, pending)[b] == m[b],
        release_all(m, pending)[a].strong >= 1,
        release_all(m, pending)[b].strong >= 1,
        release_all(m, pending)[a].value is Some,
        release_all(m, pending)[b].value is Some,
{
    lemma_closed_group_untouched(m, pending, set![a, b]);
    assert(set![a, b].contains(a));
    assert(set![a, b].contains(b));
    assert(node_wf(m[a]));
    assert(node_wf(m[b]));
}

/// A weak back edge breaks the cycle. Where block `a` holds only a strong
/// link to block `b`, `b` holds only a weak link back to `a`, and each block
/// has one outside strong handle besides, releasing those two handles, in
/// either order, destroys both payloads and leaves both strong counts at
/// zero.
pub proof fn law_weak_back_edge_frees_both<T>(m: Seq<Node<T>>, ext_a: Shared, ext_b: Shared, to_b: Shared, to_a: Weak)
    requires
        model_wf(m),
        ext_a.slot() < m.len(),
        ext_b.slot() < m.len(),
        ext_a.slot() != ext_b.slot(),
        to_b.slot() == ext_b.slot(),
        to_a.slot() == Some(ext_a.slot()),
        m[ext_a.slot() as int].links == seq![Link::Strong(to_b)],
        m[ext_b.slot() as int].links == seq![Link::Weak(to_a)],
        m[ext_a.slot() as int].strong == 1,
        m[ext_b.slot() as int].strong == 2,
        m[ext_a.slot() as int].weak >= 1,
    ensures
        ({
            let r = release_all(m, seq![Link::Strong(ext_b), Link::Strong(ext_a)]);
            &&& r[ext_a.slot() as int].strong == 0 && r[ext_a.slot() as int].value is None
            &&& r[ext_b.slot() as int].strong == 0 && r[ext_b.slot() as int].value is None
        }),
        ({
            let r = release_all(m, seq![Link::Strong(ext_a), Link::Strong(ext_b)]);
            &&& r[ext_a.slot() as int].strong == 0 && r[ext_a.slot() as int].value is None
            &&& r[ext_b.slot() as int].strong == 0 && r[ext_b.slot() as int].value is None
        }),
{
    let a = ext_a.slot() as int;
    let b = ext_b.slot() as int;
    reveal_with_fuel(release_all, 5);
    // a's handle first: a is destroyed, its link to b lowers b to one.
    let a_first = seq![Link::Strong(ext_b), Link::Strong(ext_a)];
    let (m1, f1) = release_step(m, a_first.last());
    assert(f1 == seq![Link::Strong(to_b)]);
    let q1 = a_first.drop_last() + f1;
    assert(q1 =~= seq![Link::Strong(ext_b), Link::Strong(to_b)]);
    let (m2, f2) = release_step(m1, q1.last());
    assert(f2 =~= Seq::<Link>::empty());
    let q2 = q1.drop_last() + f2;
    assert(q2 =~= seq![Link::Strong(ext_b)]);
    let (m3, f3) = release_step(m2, q2.last());
    assert(f3 == seq![Link::Weak(to_a)]);
    let q3 = q2.drop_last() + f3;
    assert(q3 =~= seq![Link::Weak(to_a)]);
    let (m4, f4) = release_step(m3, q3.last());
    let q4 = q3.drop_last() + f4;
    assert(q4 =~= Seq::<Link>::empty());
    assert(release_all(m, a_first) == m4);
    // b's handle first: b drops to one, then a is destroyed and takes b along.
    let b_first = seq![Link::Strong(ext_a), Link::Strong(ext_b)];
    let (n1, g1) = release_step(m, b_first.last());
    let s1 = b_first.drop_last() + g1;
    assert(s1 =~= seq![Link::Strong(ext_a)]);
    let (n2, g2) = release_step(n1, s1.last());
    assert(g2 == seq![Link::Strong(to_b)]);
    let s2 = s1.drop_last() + g2;
    assert(s2 =~= seq![Link::Strong(to_b)]);
    let (n3, g3) = release_step(n2, s2.last());
    assert(g3 == seq![Link::Weak(to_a)]);
    let s3 = s2.drop_last() + g3;
    assert(s3 =~= seq![Link::Weak(to_a)]);
    let (n4, g4) = release_step(n3, s3.last());
    let s4 = s3.drop_last() + g4;
    assert(s4 =~= Seq::<Link>::empty());
    assert(release_all(m, b_first) == n4);
}

} // verus!
