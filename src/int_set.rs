use vstd::prelude::*;
use crate::int_map::{IntMap, MAX_ENTRIES, fitting_capacity};

verus! {

/// A set of `u32`, held as the keys of an [`IntMap`] with unit values.
pub struct IntSet {
    int_map: IntMap<()>,
}

impl View for IntSet {
    type V = Set<u32>;

    closed spec fn view(&self) -> Set<u32> {
        self.int_map@.dom()
    }
}

impl IntSet {
    #[verifier::type_invariant]
    spec fn inv(&self) -> bool {
        self.int_map.wf()
    }

    /// The number of slots of the underlying table.
    pub closed spec fn spec_capacity(&self) -> nat {
        self.int_map.spec_capacity()
    }

    /// Moves the table out, leaving an empty set behind.
    fn take_map(&mut self) -> (m: IntMap<()>)
        ensures
            m.wf(),
            m@.dom() == old(self)@,
            m.spec_capacity() == old(self).spec_capacity(),
    {
        let mut tmp = IntSet::new();
        core::mem::swap(self, &mut tmp);
        proof {
            use_type_invariant(&tmp);
        }
        tmp.int_map
    }

    /// An empty set, which allocates nothing until the first insertion.
    pub fn new() -> (r: Self)
        ensures
            r@ == Set::<u32>::empty(),
            r.spec_capacity() == 0,
    {
        let r = IntSet { int_map: IntMap::new() };
        proof {
            assert(r@ =~= Set::<u32>::empty());
        }
        r
    }

    /// An empty set with room for `capacity` members before it grows.
    pub fn with_capacity(capacity: usize) -> (r: Self)
        requires
            capacity <= MAX_ENTRIES,
        ensures
            r@ == Set::<u32>::empty(),
            capacity == 0 ==> r.spec_capacity() == 0,
            capacity > 0 ==> fitting_capacity(capacity as int, r.spec_capacity() as int),
    {
        let r = IntSet { int_map: IntMap::with_capacity(capacity) };
        proof {
            assert(r@ =~= Set::<u32>::empty());
        }
        r
    }

    /// Adds `val`; reports whether it was absent.
    pub fn insert(&mut self, val: u32) -> (r: bool)
        requires
            old(self)@.len() < MAX_ENTRIES,
        ensures
            r == !old(self)@.contains(val),
            final(self)@ == old(self)@.insert(val),
            final(self)@.len() == old(self)@.len() + if r {
                1int
            } else {
                0int
            },
    {
        let mut m = self.take_map();
        let r = m.insert_checked(val, ());
        *self = IntSet { int_map: m };
        proof {
            assert(self@ =~= old(self)@.insert(val));
        }
        r
    }

    /// Removes `val`; reports whether it was present.
    pub fn remove(&mut self, val: u32) -> (r: bool)
        ensures
            r == old(self)@.contains(val),
            final(self)@ == old(self)@.remove(val),
            final(self)@.len() == old(self)@.len() - if r {
                1int
            } else {
                0int
            },
    {
        let mut m = self.take_map();
        let r = m.remove(val);
        *self = IntSet { int_map: m };
        proof {
            assert(self@ =~= old(self)@.remove(val));
        }
        r.is_some()
    }

    /// Whether `val` is a member.
    pub fn contains(&self, val: u32) -> (r: bool)
        ensures
            r == self@.contains(val),
    {
        proof {
            use_type_invariant(self);
        }
        self.int_map.contains_key(val)
    }

    /// Makes room for `additional` more members, so that inserting them does
    /// not grow the table.
    pub fn reserve(&mut self, additional: usize)
        requires
            old(self)@.len() + additional <= MAX_ENTRIES,
        ensures
            final(self)@ == old(self)@,
            (old(self)@.len() + additional) * 10 <= old(self).spec_capacity() * 9
                ==> final(self).spec_capacity() == old(self).spec_capacity(),
            (old(self)@.len() + additional) * 10 > old(self).spec_capacity() * 9 ==> fitting_capacity(
                old(self)@.len() + additional as int,
                final(self).spec_capacity() as int,
            ),
    {
        let mut m = self.take_map();
        m.reserve(additional);
        *self = IntSet { int_map: m };
    }

    /// Removes every member and keeps the slots.
    pub fn clear(&mut self)
        ensures
            final(self)@ == Set::<u32>::empty(),
            final(self).spec_capacity() == old(self).spec_capacity(),
    {
        let mut m = self.take_map();
        m.clear();
        *self = IntSet { int_map: m };
        proof {
            assert(self@ =~= Set::<u32>::empty());
        }
    }

    /// The number of members.
    pub fn len(&self) -> (r: usize)
        ensures
            r == self@.len(),
            self@.finite(),
    {
        proof {
            use_type_invariant(self);
            self.int_map.lemma_finite();
        }
        self.int_map.len()
    }

    /// Whether the set has no member.
    pub fn is_empty(&self) -> (r: bool)
        ensures
            r == (self@.len() == 0),
    {
        proof {
            use_type_invariant(self);
        }
        self.int_map.is_empty()
    }

    /// The members, each once, in no particular order.
    pub fn iter(&self) -> (r: Vec<u32>)
        ensures
            r@.no_duplicates(),
            r@.to_set() == self@,
            r@.len() == self@.len(),
    {
        proof {
            use_type_invariant(self);
        }
        self.int_map.keys()
    }

    /// The number of slots of the underlying table.
    pub fn capacity(&self) -> (r: usize)
        ensures
            r == self.spec_capacity(),
    {
        self.int_map.capacity()
    }

    /// Keeps the members that `f` accepts and removes the others.
    pub fn retain<F: Fn(u32) -> bool>(&mut self, f: F)
        requires
            forall|k: u32| #[trigger] f.requires((k,)),
        ensures
            final(self)@.subset_of(old(self)@),
            forall|k: u32| #[trigger] final(self)@.contains(k) ==> f.ensures((k,), true),
            forall|k: u32|
                #[trigger] old(self)@.contains(k) && !final(self)@.contains(k) ==> f.ensures(
                    (k,),
                    false,
                ),
            final(self).spec_capacity() == old(self).spec_capacity(),
    {
        let mut m = self.take_map();
        m.retain(f);
        *self = IntSet { int_map: m };
    }

    /// The set of the values in `keys`.
    pub fn from_iter(keys: Vec<u32>) -> (r: Self)
        requires
            keys@.len() <= MAX_ENTRIES,
        ensures
            r@ == keys@.to_set(),
            r@.len() == keys@.to_set().len(),
    {
        let mut new = IntSet::new();
        new.extend(keys);
        new
    }

    /// Adds every value of `keys`.
    pub fn extend(&mut self, keys: Vec<u32>)
        requires
            old(self)@.len() + keys@.len() <= MAX_ENTRIES,
        ensures
            final(self)@ == old(self)@.union(keys@.to_set()),
    {
        let mut i: usize = 0;
        proof {
            use_type_invariant(&*self);
            self.int_map.lemma_finite();
            assert(keys@.take(0).to_set() =~= Set::<u32>::empty());
            assert(self@ =~= old(self)@.union(keys@.take(0).to_set()));
        }
        while i < keys.len()
            invariant
                i <= keys@.len(),
                self@ == old(self)@.union(keys@.take(i as int).to_set()),
                self@.len() <= old(self)@.len() + i,
                old(self)@.len() + keys@.len() <= MAX_ENTRIES,
            decreases keys@.len() - i,
        {
            self.insert(keys[i]);
            proof {
                assert(keys@.take(i + 1) =~= keys@.take(i as int).push(keys@[i as int]));
                keys@.take(i as int).lemma_push_to_set_commute(keys@[i as int]);
                assert(self@ =~= old(self)@.union(keys@.take(i + 1).to_set()));
            }
            i = i + 1;
        }
        proof {
            assert(keys@.take(keys@.len() as int) =~= keys@);
        }
    }

    /// Hands the members out one by one, in no particular order.
    pub fn into_iter(self) -> (r: IntoIteratorIS)
        ensures
            r@.no_duplicates(),
            r@.to_set() == self@,
    {
        let keys = self.iter();
        let r = IntoIteratorIS { keys, pos: 0 };
        proof {
            assert(r@ =~= keys@);
        }
        r
    }
}

/// The members of an [`IntSet`] that have not been handed out yet.
pub struct IntoIteratorIS {
    keys: Vec<u32>,
    pos: usize,
}

impl View for IntoIteratorIS {
    type V = Seq<u32>;

    closed spec fn view(&self) -> Seq<u32> {
        self.keys@.skip(self.pos as int)
    }
}

impl IntoIteratorIS {
    #[verifier::type_invariant]
    spec fn inv(&self) -> bool {
        self.pos <= self.keys@.len()
    }

    /// The next member, or `None` once all have been handed out.
    pub fn next(&mut self) -> (r: Option<u32>)
        ensures
            old(self)@.len() == 0 ==> r is None && final(self)@ == old(self)@,
            old(self)@.len() > 0 ==> r == Some(old(self)@[0]) && final(self)@ == old(self)@.drop_first(),
    {
        proof {
            use_type_invariant(&*self);
        }
        if self.pos < self.keys.len() {
            let v = self.keys[self.pos];
            self.pos = self.pos + 1;
            proof {
                assert(self@ =~= old(self)@.drop_first());
            }
            Some(v)
        } else {
            None
        }
    }
}

impl PartialEq for IntSet {
    fn eq(&self, other: &Self) -> (r: bool) {
        proof {
            use_type_invariant(self);
            use_type_invariant(other);
        }
        if self.len() != other.len() {
            return false;
        }
        let keys = self.iter();
        let mut i: usize = 0;
        while i < keys.len()
            invariant
                i <= keys@.len(),
                keys@.to_set() == self@,
                forall|j: int| 0 <= j < i ==> other@.contains(#[trigger] keys@[j]),
            decreases keys@.len() - i,
        {
            if !other.contains(keys[i]) {
                proof {
                    assert(self@.contains(keys@[i as int]));
                }
                return false;
            }
            i = i + 1;
        }
        proof {
            assert forall|k: u32| self@.contains(k) implies other@.contains(k) by {
                assert(keys@.contains(k));
                let j = choose|j: int| 0 <= j < keys@.len() && keys@[j] == k;
            }
            vstd::set_lib::lemma_subset_equality(self@, other@);
        }
        true
    }
}

impl vstd::std_specs::cmp::PartialEqSpecImpl for IntSet {
    open spec fn obeys_eq_spec() -> bool {
        true
    }

    open spec fn eq_spec(&self, other: &IntSet) -> bool {
        self@ == other@
    }
}

impl Eq for IntSet {
}

impl Clone for IntSet {
    /// A set with the same members, sized for them.
    fn clone(&self) -> (r: Self)
        ensures
            r@ == self@,
    {
        proof {
            use_type_invariant(self);
            self.int_map.lemma_finite();
        }
        let members = self.iter();
        proof {
            members@.unique_seq_to_set();
        }
        IntSet::from_iter(members)
    }
}

impl Default for IntSet {
    fn default() -> (r: Self)
        ensures
            r@ == Set::<u32>::empty(),
    {
        IntSet::new()
    }
}

} // verus!
