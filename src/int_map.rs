use vstd::prelude::*;

verus! {

/// Multiplier of the scramble: 2^32 divided by the golden ratio, odd.
pub const SCRAMBLE: u64 = 2654435769;

/// Upper bound on the number of entries, so that slot counts fit in `usize`.
pub const MAX_ENTRIES: usize = usize::MAX / 16;

/// Upper bound on the number of slots.
pub const MAX_SLOTS: usize = usize::MAX / 4;

/// A slot of the table: empty, or a key with its value.
pub type Slot<V> = Option<(u32, V)>;

/// The scrambled key: the key multiplied by the golden-ratio constant,
/// dropping the low sixteen bits.
pub open spec fn scramble_spec(key: u32) -> int {
    (key as int * SCRAMBLE as int) / 65536
}

/// Inserting a key that was absent and then removing it leaves the table's
/// entries, and so its membership and length, as they were.
pub proof fn lemma_insert_remove_round_trip<V>(m: Map<u32, V>, key: u32, value: V)
    requires
        m.dom().finite(),
        !m.contains_key(key),
    ensures
        m.insert(key, value).remove(key) == m,
        m.insert(key, value).remove(key).len() == m.len(),
        forall|k: u32| #[trigger] m.insert(key, value).remove(key).contains_key(k) == m.contains_key(k),
{
    assert(m.insert(key, value).remove(key) =~= m);
}

/// Whether `cap` is the number of slots sized for `needed` entries: the
/// smallest power of two, at least eight, whose load stays within nine tenths.
pub open spec fn fitting_capacity(needed: int, cap: int) -> bool {
    &&& is_pow2(cap as nat)
    &&& cap >= 8
    &&& needed * 10 <= cap * 9
    &&& (cap == 8 || (cap / 2) * 9 < needed * 10)
}

/// Twice a power of two is one.
pub proof fn lemma_pow2_double(n: nat)
    requires
        is_pow2(n),
    ensures
        is_pow2(2 * n),
{
    assert((2 * n) / 2 == n);
    assert((2 * n) % 2 == 0);
}

/// A sequence of empty slots holds nothing.
pub proof fn lemma_none_slots<V>(s: Seq<Slot<V>>)
    requires
        forall|j: int| 0 <= j < s.len() ==> s[j] is None,
    ensures
        view_of(s) == Map::<u32, V>::empty(),
        num_occ(s) == 0,
        keys_unique(s),
        probe_ok(s),
    decreases s.len(),
{
    if s.len() > 0 {
        let t = s.drop_last();
        assert forall|j: int| 0 <= j < t.len() implies t[j] is None by {
            assert(t[j] == s[j]);
        }
        lemma_none_slots(t);
    }
}

/// The number of slots for a table that must hold `needed` entries.
pub fn capacity_for(needed: usize) -> (r: usize)
    requires
        0 < needed <= MAX_ENTRIES,
    ensures
        fitting_capacity(needed as int, r as int),
        r <= MAX_SLOTS,
{
    let mut c: usize = 8;
    proof {
        reveal_with_fuel(is_pow2, 4);
    }
    while (needed as u128) * 10 > (c as u128) * 9
        invariant
            0 < needed <= MAX_ENTRIES,
            is_pow2(c as nat),
            8 <= c,
            c <= MAX_SLOTS,
            c == 8 || (c / 2) * 9 < needed * 10,
        decreases MAX_SLOTS - c,
    {
        proof {
            lemma_pow2_double(c as nat);
            assert(c * 9 < 10 * MAX_ENTRIES);
            assert(2 * c <= MAX_SLOTS);
        }
        c = c * 2;
    }
    c
}

/// The slot at which a probe for `key` starts in a table of `cap` slots.
pub open spec fn ideal(key: u32, cap: int) -> int {
    scramble_spec(key) % cap
}

/// Position `x` brought back into `[0, cap)`, for `x < 2 * cap`.
pub open spec fn wrap(x: int, cap: int) -> int {
    if x < cap {
        x
    } else {
        x - cap
    }
}

/// How many steps forward, with wraparound, lead from slot `a` to slot `b`.
pub open spec fn cdist(a: int, b: int, cap: int) -> int {
    if a <= b {
        b - a
    } else {
        b + cap - a
    }
}

/// The key held in slot `i`, for an occupied slot.
pub open spec fn key_at<V>(s: Seq<Slot<V>>, i: int) -> u32 {
    s[i]->Some_0.0
}

/// The value held in slot `i`, for an occupied slot.
pub open spec fn val_at<V>(s: Seq<Slot<V>>, i: int) -> V {
    s[i]->Some_0.1
}

/// The slot `d` steps after the ideal slot of the key held in slot `i`.
pub open spec fn reach<V>(s: Seq<Slot<V>>, i: int, d: int) -> int {
    wrap(ideal(key_at(s, i), s.len() as int) + d, s.len() as int)
}

/// The distance of the key held in slot `i` from its ideal slot.
pub open spec fn displacement<V>(s: Seq<Slot<V>>, i: int) -> int {
    cdist(ideal(key_at(s, i), s.len() as int), i, s.len() as int)
}

/// Some slot before `n` holds `k`.
pub open spec fn held_before<V>(s: Seq<Slot<V>>, n: int, k: u32) -> bool {
    exists|x: int| 0 <= x < n && s[x] is Some && key_at(s, x) == k
}

/// Some pair of `r` has key `k`.
pub open spec fn lists_key<T>(r: Seq<(u32, T)>, k: u32) -> bool {
    exists|a: int| 0 <= a < r.len() && r[a].0 == k
}

/// No key is held in two slots.
pub open spec fn keys_unique<V>(s: Seq<Slot<V>>) -> bool {
    forall|i: int, j: int|
        0 <= i < s.len() && 0 <= j < s.len() && i != j && s[i] is Some && s[j] is Some
            ==> #[trigger] key_at(s, i) != #[trigger] key_at(s, j)
}

/// The probe invariant: every slot between a key's ideal slot and the slot
/// that holds it is occupied.
pub open spec fn probe_ok<V>(s: Seq<Slot<V>>) -> bool {
    forall|i: int, d: int|
        0 <= i < s.len() && s[i] is Some && 0 <= d < displacement(s, i)
            ==> s[#[trigger] reach(s, i, d)] is Some
}

/// The map that a sequence of slots holds.
pub open spec fn view_of<V>(s: Seq<Slot<V>>) -> Map<u32, V>
    decreases s.len(),
{
    if s.len() == 0 {
        Map::empty()
    } else {
        let m = view_of(s.drop_last());
        match s.last() {
            Some((k, v)) => m.insert(k, v),
            None => m,
        }
    }
}

/// The number of occupied slots.
pub open spec fn num_occ<V>(s: Seq<Slot<V>>) -> nat
    decreases s.len(),
{
    if s.len() == 0 {
        0
    } else {
        num_occ(s.drop_last()) + if s.last() is Some {
            1nat
        } else {
            0nat
        }
    }
}

/// `n` is a power of two.
pub open spec fn is_pow2(n: nat) -> bool
    decreases n,
{
    if n == 0 {
        false
    } else if n == 1 {
        true
    } else {
        n % 2 == 0 && is_pow2(n / 2)
    }
}

/// Which keys a sequence of slots holds, and with what values.
pub proof fn lemma_view_of<V>(s: Seq<Slot<V>>)
    requires
        keys_unique(s),
    ensures
        view_of(s).dom().finite(),
        view_of(s).len() == num_occ(s),
        forall|k: u32|
            #[trigger] view_of(s).contains_key(k) <==> exists|i: int|
                0 <= i < s.len() && s[i] is Some && key_at(s, i) == k,
        forall|i: int|
            0 <= i < s.len() && s[i] is Some ==> #[trigger] view_of(s)[key_at(s, i)] == val_at(
                s,
                i,
            ),
    decreases s.len(),
{
    if s.len() > 0 {
        let t = s.drop_last();
        assert(keys_unique(t)) by {
            assert forall|i: int, j: int|
                0 <= i < t.len() && 0 <= j < t.len() && i != j && t[i] is Some && t[j] is Some
                    implies #[trigger] key_at(t, i) != #[trigger] key_at(t, j) by {
                assert(key_at(t, i) == key_at(s, i));
                assert(key_at(t, j) == key_at(s, j));
            }
        }
        lemma_view_of(t);
        let n = s.len() - 1;
        if s.last() is Some {
            let k = key_at(s, n);
            assert(!view_of(t).contains_key(k)) by {
                if view_of(t).contains_key(k) {
                    let i = choose|i: int| 0 <= i < t.len() && t[i] is Some && key_at(t, i) == k;
                    assert(key_at(s, i) != key_at(s, n));
                }
            }
        }
        assert forall|k: u32|
            #[trigger] view_of(s).contains_key(k) <==> exists|i: int|
                0 <= i < s.len() && s[i] is Some && key_at(s, i) == k by {
            if view_of(s).contains_key(k) {
                if s.last() is Some && key_at(s, n) == k {
                    assert(0 <= n < s.len() && s[n] is Some && key_at(s, n) == k);
                } else {
                    assert(view_of(t).contains_key(k));
                    let i = choose|i: int| 0 <= i < t.len() && t[i] is Some && key_at(t, i) == k;
                    assert(s[i] == t[i]);
                    assert(0 <= i < s.len() && s[i] is Some && key_at(s, i) == k);
                }
            }
            if exists|i: int| 0 <= i < s.len() && s[i] is Some && key_at(s, i) == k {
                let i = choose|i: int| 0 <= i < s.len() && s[i] is Some && key_at(s, i) == k;
                if i < n {
                    assert(t[i] == s[i]);
                    assert(key_at(t, i) == k);
                }
            }
        }
        assert forall|i: int|
            0 <= i < s.len() && s[i] is Some implies #[trigger] view_of(s)[key_at(s, i)] == val_at(
                s,
                i,
            ) by {
            if i < n {
                assert(t[i] == s[i]);
                assert(key_at(t, i) == key_at(s, i));
                assert(val_at(t, i) == val_at(s, i));
                if s.last() is Some {
                    assert(key_at(s, i) != key_at(s, n));
                }
            }
        }
    }
}

/// Dropping the last slot keeps keys unique.
pub proof fn lemma_unique_drop_last<V>(s: Seq<Slot<V>>)
    requires
        keys_unique(s),
        s.len() > 0,
    ensures
        keys_unique(s.drop_last()),
{
    let t = s.drop_last();
    assert forall|i: int, j: int|
        0 <= i < t.len() && 0 <= j < t.len() && i != j && t[i] is Some && t[j] is Some
            implies #[trigger] key_at(t, i) != #[trigger] key_at(t, j) by {
        assert(key_at(t, i) == key_at(s, i));
        assert(key_at(t, j) == key_at(s, j));
    }
}

/// A sequence in which every slot is occupied holds as many entries as slots.
pub proof fn lemma_num_occ_full<V>(s: Seq<Slot<V>>)
    requires
        forall|i: int| 0 <= i < s.len() ==> s[i] is Some,
    ensures
        num_occ(s) == s.len(),
    decreases s.len(),
{
    if s.len() > 0 {
        let t = s.drop_last();
        assert forall|i: int| 0 <= i < t.len() implies t[i] is Some by {
            assert(t[i] == s[i]);
        }
        lemma_num_occ_full(t);
    }
}

/// Filling an empty slot with an absent key adds that entry.
pub proof fn lemma_put<V>(s: Seq<Slot<V>>, p: int, k: u32, v: V)
    requires
        keys_unique(s),
        0 <= p < s.len(),
        s[p] is None,
        !view_of(s).contains_key(k),
    ensures
        keys_unique(s.update(p, Some((k, v)))),
        view_of(s.update(p, Some((k, v)))) == view_of(s).insert(k, v),
        num_occ(s.update(p, Some((k, v)))) == num_occ(s) + 1,
{
    let s2 = s.update(p, Some((k, v)));
    lemma_view_of(s);
    assert forall|i: int, j: int|
        0 <= i < s2.len() && 0 <= j < s2.len() && i != j && s2[i] is Some && s2[j] is Some
            implies #[trigger] key_at(s2, i) != #[trigger] key_at(s2, j) by {
        if i == p {
            assert(s[j] is Some && key_at(s, j) == key_at(s2, j));
        } else if j == p {
            assert(s[i] is Some && key_at(s, i) == key_at(s2, i));
        } else {
            assert(key_at(s, i) != key_at(s, j));
        }
    }
    lemma_view_of(s2);
    let m = view_of(s).insert(k, v);
    assert forall|k2: u32| view_of(s2).contains_key(k2) <==> m.contains_key(k2) by {
        if view_of(s2).contains_key(k2) && k2 != k {
            let i = choose|i: int| 0 <= i < s2.len() && s2[i] is Some && key_at(s2, i) == k2;
            assert(s[i] is Some && key_at(s, i) == k2);
        }
        if m.contains_key(k2) {
            if k2 == k {
                assert(s2[p] is Some && key_at(s2, p) == k2);
            } else {
                let i = choose|i: int| 0 <= i < s.len() && s[i] is Some && key_at(s, i) == k2;
                assert(s2[i] is Some && key_at(s2, i) == k2);
            }
        }
    }
    assert forall|k2: u32| #[trigger] view_of(s2).contains_key(k2) implies view_of(s2)[k2] == m[k2] by {
        if k2 == k {
            assert(view_of(s2)[key_at(s2, p)] == val_at(s2, p));
        } else {
            assert(m.contains_key(k2));
            assert(view_of(s).contains_key(k2));
            let i = choose|i: int| 0 <= i < s.len() && s[i] is Some && key_at(s, i) == k2;
            assert(i != p);
            assert(s2[i] == s[i]);
            assert(view_of(s2)[key_at(s2, i)] == val_at(s2, i));
            assert(view_of(s)[key_at(s, i)] == val_at(s, i));
        }
    }
    assert(view_of(s2) =~= m);
}

/// Emptying an occupied slot removes its entry.
pub proof fn lemma_take<V>(s: Seq<Slot<V>>, p: int)
    requires
        keys_unique(s),
        0 <= p < s.len(),
        s[p] is Some,
    ensures
        keys_unique(s.update(p, None)),
        view_of(s.update(p, None)) == view_of(s).remove(key_at(s, p)),
        num_occ(s.update(p, None)) + 1 == num_occ(s),
        view_of(s).contains_key(key_at(s, p)),
        view_of(s)[key_at(s, p)] == val_at(s, p),
{
    let s2 = s.update(p, None);
    let k = key_at(s, p);
    lemma_view_of(s);
    assert forall|i: int, j: int|
        0 <= i < s2.len() && 0 <= j < s2.len() && i != j && s2[i] is Some && s2[j] is Some
            implies #[trigger] key_at(s2, i) != #[trigger] key_at(s2, j) by {
        assert(key_at(s, i) != key_at(s, j));
    }
    lemma_view_of(s2);
    let m = view_of(s).remove(k);
    assert forall|k2: u32| view_of(s2).contains_key(k2) <==> m.contains_key(k2) by {
        if view_of(s2).contains_key(k2) {
            let i = choose|i: int| 0 <= i < s2.len() && s2[i] is Some && key_at(s2, i) == k2;
            assert(s[i] is Some && key_at(s, i) == k2);
            assert(key_at(s, i) != key_at(s, p));
        }
        if m.contains_key(k2) {
            let i = choose|i: int| 0 <= i < s.len() && s[i] is Some && key_at(s, i) == k2;
            assert(s2[i] is Some && key_at(s2, i) == k2);
        }
    }
    assert forall|k2: u32| #[trigger] view_of(s2).contains_key(k2) implies view_of(s2)[k2] == m[k2] by {
        let i = choose|i: int| 0 <= i < s2.len() && s2[i] is Some && key_at(s2, i) == k2;
        assert(view_of(s2)[key_at(s2, i)] == val_at(s2, i));
        assert(view_of(s)[key_at(s, i)] == val_at(s, i));
    }
    assert(view_of(s2) =~= m);
    assert(view_of(s)[key_at(s, p)] == val_at(s, p));
}

/// The probe invariant while a gap at slot `g` is being closed: a chain may
/// pass the gap only if its key sits at least `c` steps after it.
pub open spec fn probe_ok_but_gap<V>(s: Seq<Slot<V>>, g: int, c: int) -> bool {
    forall|i: int, d: int|
        0 <= i < s.len() && s[i] is Some && 0 <= d < displacement(s, i)
            ==> s[#[trigger] reach(s, i, d)] is Some || (reach(s, i, d) == g && cdist(
            g,
            i,
            s.len() as int,
        ) >= c)
}

/// Stepping `a` and then `c` slots equals stepping `a + c` slots.
pub proof fn lemma_wrap_add(h: int, a: int, c: int, cap: int)
    requires
        0 <= h < cap,
        0 <= a,
        0 <= c,
        a + c < cap,
    ensures
        wrap(wrap(h + a, cap) + c, cap) == wrap(h + a + c, cap),
{
}

/// Two slots reached from one start lie as far apart as their offsets.
pub proof fn lemma_cdist_offsets(h: int, a: int, b: int, cap: int)
    requires
        0 <= h < cap,
        0 <= a <= b < cap,
    ensures
        cdist(wrap(h + a, cap), wrap(h + b, cap), cap) == b - a,
{
}

/// Stepping the distance from `h` to `i` leads from `h` to `i`.
pub proof fn lemma_wrap_cdist(h: int, i: int, cap: int)
    requires
        0 <= h < cap,
        0 <= i < cap,
    ensures
        0 <= cdist(h, i, cap) < cap,
        wrap(h + cdist(h, i, cap), cap) == i,
{
}

/// The slot `d` steps after `h` lies at distance `d` from it.
pub proof fn lemma_cdist_wrap(h: int, d: int, cap: int)
    requires
        0 <= h < cap,
        0 <= d < cap,
    ensures
        0 <= wrap(h + d, cap) < cap,
        cdist(h, wrap(h + d, cap), cap) == d,
{
}

/// The entries of the table, one slot array of a power-of-two length.
#[derive(Clone)]
pub struct IntMap<V> {
    slots: Vec<Slot<V>>,
    count: usize,
}

/// Outcome of a probe for a key.
enum Probe {
    /// The key is held in this slot.
    Found(usize),
    /// The key is absent, and this empty slot is where it would go.
    Vacant(usize),
    /// The key is absent and no slot is empty.
    Full,
}

/// A handle from one probe for a key: the slot that holds it, or the empty
/// slot where it would be placed. It stays valid until the table changes.
pub enum Entry {
    Occupied(u32, usize),
    Vacant(u32, usize),
}

impl Entry {
    /// The key the handle was made for.
    pub open spec fn spec_key(&self) -> u32 {
        match self {
            Entry::Occupied(k, _) => *k,
            Entry::Vacant(k, _) => *k,
        }
    }

    /// The key the handle was made for.
    pub fn key(&self) -> (r: u32)
        ensures
            r == self.spec_key(),
    {
        match self {
            Entry::Occupied(k, _) => *k,
            Entry::Vacant(k, _) => *k,
        }
    }

    /// Whether the key was present.
    pub fn is_occupied(&self) -> (r: bool)
        ensures
            r == self is Occupied,
    {
        match self {
            Entry::Occupied(_, _) => true,
            Entry::Vacant(_, _) => false,
        }
    }
}

impl<V> View for IntMap<V> {
    type V = Map<u32, V>;

    closed spec fn view(&self) -> Map<u32, V> {
        view_of(self.slots@)
    }
}

impl<V> IntMap<V> {
    /// The number of slots.
    pub closed spec fn spec_capacity(&self) -> nat {
        self.slots@.len()
    }

    /// The slot count is zero or a power of two, keys are unique, the probe
    /// invariant holds, and the load stays within nine tenths.
    pub closed spec fn wf(&self) -> bool {
        &&& self.slots@.len() == 0 || is_pow2(self.slots@.len())
        &&& self.slots@.len() <= MAX_SLOTS
        &&& keys_unique(self.slots@)
        &&& probe_ok(self.slots@)
        &&& self.count == num_occ(self.slots@)
        &&& self.count * 10 <= self.slots@.len() * 9
        &&& self.count <= MAX_ENTRIES
    }

    /// An empty table, which allocates no slots until the first insertion.
    pub fn new() -> (r: Self)
        ensures
            r.wf(),
            r@ == Map::<u32, V>::empty(),
            r.spec_capacity() == 0,
    {
        let r = IntMap { slots: Vec::new(), count: 0 };
        proof {
            assert(view_of(r.slots@) =~= Map::<u32, V>::empty());
        }
        r
    }

    /// An empty table with room for `capacity` entries before it grows.
    pub fn with_capacity(capacity: usize) -> (r: Self)
        requires
            capacity <= MAX_ENTRIES,
        ensures
            r.wf(),
            r@ == Map::<u32, V>::empty(),
            capacity == 0 ==> r.spec_capacity() == 0,
            capacity > 0 ==> fitting_capacity(capacity as int, r.spec_capacity() as int),
    {
        if capacity == 0 {
            return IntMap::new();
        }
        let cap = capacity_for(capacity);
        IntMap::empty_slots(cap)
    }

    /// A table of `cap` empty slots.
    fn empty_slots(cap: usize) -> (r: Self)
        requires
            is_pow2(cap as nat),
            cap <= MAX_SLOTS,
        ensures
            r.wf(),
            r@ == Map::<u32, V>::empty(),
            r.spec_capacity() == cap,
            r.count == 0,
    {
        let mut slots: Vec<Slot<V>> = Vec::new();
        let mut i: usize = 0;
        while i < cap
            invariant
                i <= cap,
                slots@.len() == i,
                forall|j: int| 0 <= j < i ==> slots@[j] is None,
            decreases cap - i,
        {
            slots.push(None);
            i = i + 1;
        }
        proof {
            lemma_none_slots(slots@);
        }
        IntMap { slots, count: 0 }
    }

    /// The entries of a well-formed table are finitely many.
    pub proof fn lemma_finite(&self)
        requires
            self.wf(),
        ensures
            self@.dom().finite(),
            self@.len() <= MAX_ENTRIES,
    {
        lemma_view_of(self.slots@);
    }

    /// The number of entries.
    pub fn len(&self) -> (r: usize)
        requires
            self.wf(),
        ensures
            r == self@.len(),
    {
        proof {
            lemma_view_of(self.slots@);
        }
        self.count
    }

    /// Whether the table holds no entry.
    pub fn is_empty(&self) -> (r: bool)
        requires
            self.wf(),
        ensures
            r == (self@.len() == 0),
    {
        self.len() == 0
    }

    /// The number of slots.
    pub fn capacity(&self) -> (r: usize)
        ensures
            r == self.spec_capacity(),
    {
        self.slots.len()
    }

    /// The value stored under `key`, if any.
    pub fn get(&self, key: u32) -> (r: Option<&V>)
        requires
            self.wf(),
        ensures
            r is Some <==> self@.contains_key(key),
            r matches Some(v) ==> *v == self@[key],
    {
        match self.probe(key) {
            Probe::Found(p) => {
                proof {
                    lemma_view_of(self.slots@);
                    assert(self@[key_at(self.slots@, p as int)] == val_at(self.slots@, p as int));
                }
                match &self.slots[p] {
                    Some(entry) => Some(&entry.1),
                    None => None,
                }
            },
            _ => None,
        }
    }

    /// Whether `key` has an entry.
    pub fn contains_key(&self, key: u32) -> (r: bool)
        requires
            self.wf(),
        ensures
            r == self@.contains_key(key),
    {
        proof {
            lemma_view_of(self.slots@);
        }
        match self.probe(key) {
            Probe::Found(_) => true,
            _ => false,
        }
    }

    /// Moves every entry into a fresh slot array sized for `needed` entries.
    fn grow(&mut self, needed: usize)
        requires
            old(self).wf(),
            old(self).count <= needed,
            0 < needed <= MAX_ENTRIES,
        ensures
            final(self).wf(),
            final(self)@ == old(self)@,
            final(self).count == old(self).count,
            fitting_capacity(needed as int, final(self).spec_capacity() as int),
    {
        let cap = capacity_for(needed);
        let mut fresh: IntMap<V> = IntMap::empty_slots(cap);
        let ghost orig = self@;
        let ghost orig_count = self.count;
        proof {
            assert(view_of(self.slots@).union_prefer_right(fresh@) =~= orig);
        }
        while self.slots.len() > 0
            invariant
                fresh.wf(),
                fresh.spec_capacity() == cap,
                fitting_capacity(needed as int, cap as int),
                keys_unique(self.slots@),
                fresh.count + num_occ(self.slots@) == orig_count,
                orig_count <= needed,
                needed <= MAX_ENTRIES,
                view_of(self.slots@).union_prefer_right(fresh@) == orig,
                forall|k: u32| #[trigger] fresh@.contains_key(k) ==> !view_of(self.slots@).contains_key(k),
            decreases self.slots@.len(),
        {
            let ghost rest = self.slots@;
            let x = self.slots.pop();
            proof {
                assert(self.slots@ =~= rest.drop_last());
                lemma_unique_drop_last(rest);
            }
            match x {
                Some(Some(entry)) => {
                    let (k, v) = entry;
                    let ghost t = self.slots@;
                    proof {
                        lemma_view_of(rest);
                        assert(view_of(rest).contains_key(k)) by {
                            assert(rest[rest.len() - 1] is Some && key_at(rest, rest.len() - 1) == k);
                        }
                        assert(view_of(rest) == view_of(t).insert(k, v));
                        assert(num_occ(rest) == num_occ(t) + 1);
                        lemma_view_of(t);
                        if view_of(t).contains_key(k) {
                            let i = choose|i: int| 0 <= i < t.len() && t[i] is Some && key_at(t, i) == k;
                            assert(key_at(rest, i) != key_at(rest, rest.len() - 1));
                        }
                    }
                    fresh.insert_new(k, v);
                    proof {
                        assert(view_of(t).union_prefer_right(fresh@) =~= orig);
                    }
                },
                _ => {
                    proof {
                        assert(view_of(rest) == view_of(self.slots@));
                    }
                },
            }
        }
        proof {
            assert(view_of(self.slots@) =~= Map::<u32, V>::empty());
            assert(fresh@ =~= orig);
        }
        *self = fresh;
    }

    /// Stores `value` under `key`, returning the value it replaces.
    pub fn insert(&mut self, key: u32, value: V) -> (r: Option<V>)
        requires
            old(self).wf(),
            old(self)@.len() < MAX_ENTRIES,
        ensures
            final(self).wf(),
            final(self)@ == old(self)@.insert(key, value),
            r == (if old(self)@.contains_key(key) {
                Some(old(self)@[key])
            } else {
                None
            }),
            final(self)@.len() == old(self)@.len() + if old(self)@.contains_key(key) {
                0int
            } else {
                1int
            },
            old(self)@.contains_key(key) || (old(self)@.len() + 1) * 10
                <= old(self).spec_capacity() * 9 ==> final(self).spec_capacity()
                == old(self).spec_capacity(),
            !old(self)@.contains_key(key) && (old(self)@.len() + 1) * 10
                > old(self).spec_capacity() * 9 ==> fitting_capacity(
                old(self)@.len() + 1 as int,
                final(self).spec_capacity() as int,
            ),
    {
        proof {
            lemma_view_of(self.slots@);
        }
        match self.probe(key) {
            Probe::Found(p) => Some(self.replace_at(key, value, p)),
            _ => {
                self.add_absent(key, value);
                None
            },
        }
    }

    /// Stores `value` in slot `p`, which holds `key`; returns the old value.
    fn replace_at(&mut self, key: u32, value: V, p: usize) -> (r: V)
        requires
            old(self).wf(),
            old(self).holds_at(key, p as int),
        ensures
            final(self).wf(),
            final(self)@ == old(self)@.insert(key, value),
            r == old(self)@[key],
            final(self).spec_capacity() == old(self).spec_capacity(),
    {
        let ghost s = self.slots@;
        self.slots.push(Some((key, value)));
        let prev = self.slots.swap_remove(p);
        proof {
            let s2 = s.update(p as int, Some((key, value)));
            assert(self.slots@ =~= s2);
            lemma_take(s, p as int);
            assert(s.update(p as int, None).update(p as int, Some((key, value))) =~= s2);
            lemma_put(s.update(p as int, None), p as int, key, value);
            assert(view_of(s).remove(key).insert(key, value) =~= view_of(s).insert(key, value));
            assert forall|i: int, d: int|
                0 <= i < s2.len() && s2[i] is Some && 0 <= d < displacement(s2, i)
                    implies s2[#[trigger] reach(s2, i, d)] is Some by {
                assert(key_at(s2, i) == key_at(s, i));
                assert(reach(s2, i, d) == reach(s, i, d));
                assert(s[reach(s, i, d)] is Some);
            }
        }
    prev.unwrap().1
    }

    /// Stores `value` under `key` if the key is absent; reports whether it did.
    pub fn insert_checked(&mut self, key: u32, value: V) -> (r: bool)
        requires
            old(self).wf(),
            old(self)@.len() < MAX_ENTRIES,
        ensures
            final(self).wf(),
            r == !old(self)@.contains_key(key),
            final(self)@ == (if r {
                old(self)@.insert(key, value)
            } else {
                old(self)@
            }),
            final(self)@.len() == old(self)@.len() + if r {
                1int
            } else {
                0int
            },
            !r || (old(self)@.len() + 1) * 10 <= old(self).spec_capacity() * 9
                ==> final(self).spec_capacity() == old(self).spec_capacity(),
            r && (old(self)@.len() + 1) * 10 > old(self).spec_capacity() * 9 ==> fitting_capacity(
                old(self)@.len() + 1 as int,
                final(self).spec_capacity() as int,
            ),
    {
        proof {
            lemma_view_of(self.slots@);
        }
        if self.contains_key(key) {
            false
        } else {
            self.add_absent(key, value);
            true
        }
    }

    /// Adds an absent key, growing first when the load would pass nine tenths.
    fn add_absent(&mut self, key: u32, value: V)
        requires
            old(self).wf(),
            old(self)@.len() < MAX_ENTRIES,
            !old(self)@.contains_key(key),
        ensures
            final(self).wf(),
            final(self)@ == old(self)@.insert(key, value),
            (old(self)@.len() + 1) * 10 <= old(self).spec_capacity() * 9
                ==> final(self).spec_capacity() == old(self).spec_capacity(),
            (old(self)@.len() + 1) * 10 > old(self).spec_capacity() * 9 ==> fitting_capacity(
                old(self)@.len() + 1 as int,
                final(self).spec_capacity() as int,
            ),
    {
        proof {
            lemma_view_of(self.slots@);
        }
        if (self.count as u128 + 1) * 10 > (self.slots.len() as u128) * 9 {
            self.grow(self.count + 1);
        }
        self.insert_new(key, value);
    }

    /// Makes room for `additional` more entries, so that inserting them
    /// does not grow the table.
    pub fn reserve(&mut self, additional: usize)
        requires
            old(self).wf(),
            old(self)@.len() + additional <= MAX_ENTRIES,
        ensures
            final(self).wf(),
            final(self)@ == old(self)@,
            (old(self)@.len() + additional) * 10 <= old(self).spec_capacity() * 9
                ==> final(self).spec_capacity() == old(self).spec_capacity(),
            (old(self)@.len() + additional) * 10 > old(self).spec_capacity() * 9 ==> fitting_capacity(
                old(self)@.len() + additional as int,
                final(self).spec_capacity() as int,
            ),
    {
        proof {
            lemma_view_of(self.slots@);
        }
        let needed = self.count + additional;
        if (needed as u128) * 10 > (self.slots.len() as u128) * 9 {
            self.grow(needed);
        }
    }

    /// Removes every entry and keeps the slots.
    pub fn clear(&mut self)
        requires
            old(self).wf(),
        ensures
            final(self).wf(),
            final(self)@ == Map::<u32, V>::empty(),
            final(self).spec_capacity() == old(self).spec_capacity(),
    {
        let mut i: usize = 0;
        while i < self.slots.len()
            invariant
                old(self).wf(),
                self.slots@.len() == old(self).slots@.len(),
                forall|j: int| 0 <= j < i ==> self.slots@[j] is None,
            decreases self.slots@.len() - i,
        {
            self.slots.set(i, None);
            i = i + 1;
        }
        self.count = 0;
        proof {
            lemma_none_slots(self.slots@);
        }
    }

    /// Removes `key` and returns its value. The entries after it in its
    /// cluster that may move back do so, so that no probe meets a gap.
    pub fn remove(&mut self, key: u32) -> (r: Option<V>)
        requires
            old(self).wf(),
        ensures
            final(self).wf(),
            final(self)@ == old(self)@.remove(key),
            r == (if old(self)@.contains_key(key) {
                Some(old(self)@[key])
            } else {
                None
            }),
            final(self)@.len() == old(self)@.len() - if old(self)@.contains_key(key) {
                1int
            } else {
                0int
            },
            forall|k: u32|
                k != key ==> (#[trigger] final(self)@.contains_key(k) == old(self)@.contains_key(k)
                    && (final(self)@.contains_key(k) ==> final(self)@[k] == old(self)@[k])),
            final(self).spec_capacity() == old(self).spec_capacity(),
    {
        proof {
            lemma_view_of(self.slots@);
        }
        let i = match self.probe(key) {
            Probe::Found(p) => p,
            _ => {
                proof {
                    assert(self@.remove(key) =~= self@);
                }
                return None;
            },
        };
        Some(self.remove_at(key, i))
    }

    /// Empties slot `i`, which holds `key`, and closes the gap: each later
    /// entry of the cluster whose probe passes the gap moves back into it.
    fn remove_at(&mut self, key: u32, i: usize) -> (r: V)
        requires
            old(self).wf(),
            old(self).holds_at(key, i as int),
        ensures
            final(self).wf(),
            final(self)@ == old(self)@.remove(key),
            r == old(self)@[key],
            final(self).spec_capacity() == old(self).spec_capacity(),
    {
        let cap = self.slots.len();
        let ghost s0 = self.slots@;
        let ghost ci = cap as int;
        proof {
            if forall|x: int| 0 <= x < cap ==> s0[x] is Some {
                lemma_num_occ_full(s0);
            }
        }
        let ghost e = choose|x: int| 0 <= x < cap && s0[x] is None;
        let ghost oe = cdist(i as int, e, ci);
        proof {
            lemma_wrap_cdist(i as int, e, ci);
        }
        self.slots.push(None);
        let taken = self.slots.swap_remove(i);
        proof {
            assert(self.slots@ =~= s0.update(i as int, None));
            lemma_take(s0, i as int);
            let s = self.slots@;
            assert forall|i2: int, d: int|
                0 <= i2 < s.len() && s[i2] is Some && 0 <= d < displacement(s, i2)
                    implies s[#[trigger] reach(s, i2, d)] is Some || (reach(s, i2, d) == i
                    && cdist(i as int, i2, ci) >= 1) by {
                assert(s0[i2] is Some);
                assert(key_at(s, i2) == key_at(s0, i2));
                assert(reach(s, i2, d) == reach(s0, i2, d));
                assert(s0[reach(s0, i2, d)] is Some);
            }
        }
        self.count = self.count - 1;
        let mut g: usize = i;
        let mut j: usize = if i + 1 == cap {
            0
        } else {
            i + 1
        };
        let ghost mut og: int = 0;
        let ghost mut oj: int = 1;
        while self.slots[j].is_some()
            invariant
                old(self).wf(),
                self.slots@.len() == cap,
                cap == old(self).slots@.len(),
                ci == cap,
                0 <= i < cap,
                keys_unique(self.slots@),
                view_of(self.slots@) == view_of(s0).remove(key),
                num_occ(self.slots@) == self.count,
                self.count + 1 == old(self).count,
                0 <= og < oj <= oe < cap,
                g == wrap(i + og, ci),
                j == wrap(i + oj, ci),
                e == wrap(i + oe, ci),
                self.slots@[g as int] is None,
                self.slots@[e] is None,
                forall|t: int|
                    0 < t < oj - og ==> self.slots@[#[trigger] wrap(g + t, ci)] is Some,
                probe_ok_but_gap(self.slots@, g as int, oj - og),
            decreases oe - oj,
        {
            let ghost s = self.slots@;
            let k3 = match &self.slots[j] {
                Some(entry) => entry.0,
                None => 0,
            };
            let h3 = ideal_slot(k3, cap);
            proof {
                lemma_wrap_add(i as int, og, oj - og, ci);
                lemma_cdist_offsets(i as int, og, oj, ci);
                lemma_cdist_offsets(i as int, og, oe, ci);
                lemma_cdist_offsets(i as int, oj, oe, ci);
                assert(j != e);
                assert(j != g);
            }
            if cyclic_distance(h3, g, cap) < cyclic_distance(h3, j, cap) {
                self.slots.push(None);
                let moved = self.slots.swap_remove(j);
                self.slots.set(g, moved);
                proof {
                    let s1 = self.slots@;
                    let x = s[j as int];
                    assert(s1 =~= s.update(j as int, None).update(g as int, x));
                    lemma_take(s, j as int);
                    lemma_put(s.update(j as int, None), g as int, k3, val_at(s, j as int));
                    assert(view_of(s).remove(k3).insert(k3, val_at(s, j as int)) =~= view_of(s));
                    assert(g != e);
                    assert forall|i2: int, d: int|
                        0 <= i2 < s1.len() && s1[i2] is Some && 0 <= d < displacement(s1, i2)
                            implies s1[#[trigger] reach(s1, i2, d)] is Some || (reach(s1, i2, d)
                            == j && cdist(j as int, i2, ci) >= 1) by {
                        if i2 == g {
                            assert(key_at(s1, i2) == k3);
                            lemma_cdist_wrap(h3 as int, d, ci);
                            assert(reach(s1, i2, d) == reach(s, j as int, d));
                            assert(s[reach(s, j as int, d)] is Some || reach(s, j as int, d) == g);
                        } else {
                            assert(s[i2] is Some);
                            assert(key_at(s1, i2) == key_at(s, i2));
                            assert(reach(s1, i2, d) == reach(s, i2, d));
                            assert(s[reach(s, i2, d)] is Some || reach(s, i2, d) == g);
                        }
                    }
                }
                g = j;
                proof {
                    og = oj;
                }
            } else {
                proof {
                    assert forall|i2: int, d: int|
                        0 <= i2 < s.len() && s[i2] is Some && 0 <= d < displacement(s, i2)
                            implies s[#[trigger] reach(s, i2, d)] is Some || (reach(s, i2, d)
                            == g && cdist(g as int, i2, ci) >= oj - og + 1) by {
                        if !(s[reach(s, i2, d)] is Some) && i2 == j {
                            lemma_cdist_wrap(h3 as int, d, ci);
                        }
                    }
                    assert forall|t: int| 0 < t < oj - og + 1 implies s[#[trigger] wrap(
                        g + t,
                        ci,
                    )] is Some by {
                        if t == oj - og {
                            assert(wrap(g + t, ci) == j);
                        }
                    }
                }
            }
            j = if j + 1 == cap {
                0
            } else {
                j + 1
            };
            proof {
                oj = oj + 1;
            }
        }
        proof {
            let s = self.slots@;
            lemma_wrap_add(i as int, og, oj - og, ci);
            lemma_cdist_offsets(i as int, og, oj, ci);
            assert forall|i2: int, d: int|
                0 <= i2 < s.len() && s[i2] is Some && 0 <= d < displacement(s, i2)
                    implies s[#[trigger] reach(s, i2, d)] is Some by {
                if !(s[reach(s, i2, d)] is Some) {
                    let h2 = ideal(key_at(s, i2), ci);
                    let dd = displacement(s, i2);
                    let c = oj - og;
                    lemma_wrap_cdist(h2, i2, ci);
                    lemma_cdist_offsets(h2, d, dd, ci);
                    lemma_wrap_add(h2, d, c, ci);
                    if d + c < dd {
                        assert(reach(s, i2, d + c) == j);
                    }
                }
            }
        }
        taken.unwrap().1
    }

    /// Whether `e` still describes this table.
    pub closed spec fn entry_valid(&self, e: Entry) -> bool {
        match e {
            Entry::Occupied(k, p) => self.holds_at(k, p as int),
            Entry::Vacant(k, p) => !self@.contains_key(k) && (self.slots@.len() == 0
                || self.vacant_at(k, p as int)),
        }
    }

    /// Probes once for `key` and returns a handle to act on what was found.
    pub fn entry(&self, key: u32) -> (r: Entry)
        requires
            self.wf(),
        ensures
            self.entry_valid(r),
            r.spec_key() == key,
            r is Occupied <==> self@.contains_key(key),
    {
        proof {
            lemma_view_of(self.slots@);
        }
        match self.probe(key) {
            Probe::Found(p) => Entry::Occupied(key, p),
            Probe::Vacant(p) => Entry::Vacant(key, p),
            Probe::Full => {
                proof {
                    if self.slots@.len() > 0 {
                        lemma_num_occ_full(self.slots@);
                    }
                }
                Entry::Vacant(key, 0)
            },
        }
    }

    /// The value in the slot an occupied handle points at.
    pub fn entry_get(&self, e: &Entry) -> (r: &V)
        requires
            self.wf(),
            self.entry_valid(*e),
            e is Occupied,
        ensures
            *r == self@[e.spec_key()],
    {
        proof {
            lemma_view_of(self.slots@);
        }
        let p = match e {
            Entry::Occupied(_, p) => *p,
            Entry::Vacant(_, p) => *p,
        };
        proof {
            assert(self@[key_at(self.slots@, p as int)] == val_at(self.slots@, p as int));
        }
        &self.slots[p].as_ref().unwrap().1
    }

    /// Stores `value` in the slot a vacant handle points at, growing and
    /// probing again only when the load would pass nine tenths.
    pub fn entry_insert(&mut self, e: Entry, value: V)
        requires
            old(self).wf(),
            old(self).entry_valid(e),
            e is Vacant,
            old(self)@.len() < MAX_ENTRIES,
        ensures
            final(self).wf(),
            final(self)@ == old(self)@.insert(e.spec_key(), value),
            (old(self)@.len() + 1) * 10 <= old(self).spec_capacity() * 9
                ==> final(self).spec_capacity() == old(self).spec_capacity(),
            (old(self)@.len() + 1) * 10 > old(self).spec_capacity() * 9 ==> fitting_capacity(
                old(self)@.len() + 1 as int,
                final(self).spec_capacity() as int,
            ),
    {
        proof {
            lemma_view_of(self.slots@);
        }
        let (key, p) = match e {
            Entry::Occupied(k, p) => (k, p),
            Entry::Vacant(k, p) => (k, p),
        };
        if (self.count as u128 + 1) * 10 > (self.slots.len() as u128) * 9 {
            self.add_absent(key, value);
        } else {
            self.place_at(key, value, p);
        }
    }

    /// Stores `value` in the slot an occupied handle points at and returns
    /// the value it held.
    pub fn entry_replace(&mut self, e: Entry, value: V) -> (r: V)
        requires
            old(self).wf(),
            old(self).entry_valid(e),
            e is Occupied,
        ensures
            final(self).wf(),
            final(self)@ == old(self)@.insert(e.spec_key(), value),
            r == old(self)@[e.spec_key()],
            final(self).spec_capacity() == old(self).spec_capacity(),
    {
        let (key, p) = match e {
            Entry::Occupied(k, p) => (k, p),
            Entry::Vacant(k, p) => (k, p),
        };
        self.replace_at(key, value, p)
    }

    /// Removes the entry an occupied handle points at and returns its value.
    pub fn entry_remove(&mut self, e: Entry) -> (r: V)
        requires
            old(self).wf(),
            old(self).entry_valid(e),
            e is Occupied,
        ensures
            final(self).wf(),
            final(self)@ == old(self)@.remove(e.spec_key()),
            r == old(self)@[e.spec_key()],
            final(self).spec_capacity() == old(self).spec_capacity(),
    {
        let (key, p) = match e {
            Entry::Occupied(k, p) => (k, p),
            Entry::Vacant(k, p) => (k, p),
        };
        self.remove_at(key, p)
    }

    /// The entries, each key once, in slot order, with their values borrowed.
    pub fn iter(&self) -> (r: Vec<(u32, &V)>)
        requires
            self.wf(),
        ensures
            r@.len() == self@.len(),
            forall|a: int|
                0 <= a < r@.len() ==> self@.contains_key(#[trigger] r@[a].0) && *r@[a].1
                    == self@[r@[a].0],
            forall|a: int, b: int|
                0 <= a < b < r@.len() ==> #[trigger] r@[a].0 != #[trigger] r@[b].0,
            forall|k: u32| #[trigger] self@.contains_key(k) ==> exists|a: int| 0 <= a < r@.len() && r@[a].0 == k,
    {
        let ghost s = self.slots@;
        let mut r: Vec<(u32, &V)> = Vec::new();
        let mut i: usize = 0;
        proof {
            lemma_view_of(s);
        }
        while i < self.slots.len()
            invariant
                self.wf(),
                s == self.slots@,
                i <= s.len(),
                keys_unique(s),
                forall|k: u32|
                    #[trigger] view_of(s).contains_key(k) <==> exists|x: int|
                        0 <= x < s.len() && s[x] is Some && key_at(s, x) == k,
                forall|x: int|
                    0 <= x < s.len() && s[x] is Some ==> #[trigger] view_of(s)[key_at(s, x)] == val_at(s, x),
                forall|a: int|
                    0 <= a < r@.len() ==> held_before(s, i as int, #[trigger] r@[a].0) && *r@[a].1
                        == view_of(s)[r@[a].0],
                forall|a: int, b: int|
                    0 <= a < b < r@.len() ==> #[trigger] r@[a].0 != #[trigger] r@[b].0,
                forall|x: int| 0 <= x < i && s[x] is Some ==> lists_key(r@, #[trigger] key_at(s, x)),
            decreases s.len() - i,
        {
            match &self.slots[i] {
                Some(entry) => {
                    let ghost r0 = r@;
                    proof {
                        assert forall|a: int| 0 <= a < r0.len() implies r0[a].0 != entry.0 by {
                            let x = choose|x: int|
                                0 <= x < i && s[x] is Some && key_at(s, x) == r0[a].0;
                            assert(key_at(s, x) != key_at(s, i as int));
                        }
                        assert(view_of(s)[key_at(s, i as int)] == val_at(s, i as int));
                    }
                    r.push((entry.0, &entry.1));
                    proof {
                        assert forall|a: int| 0 <= a < r@.len() implies held_before(
                            s,
                            i + 1,
                            #[trigger] r@[a].0,
                        ) && *r@[a].1 == view_of(s)[r@[a].0] by {
                            if a == r@.len() - 1 {
                                assert(0 <= i < i + 1 && s[i as int] is Some && key_at(s, i as int)
                                    == r@[a].0);
                            } else {
                                assert(r@[a] == r0[a]);
                                let x = choose|x: int|
                                    0 <= x < i && s[x] is Some && key_at(s, x) == r0[a].0;
                                assert(0 <= x < i + 1 && s[x] is Some && key_at(s, x) == r@[a].0);
                            }
                        }
                        assert forall|x: int| 0 <= x < i + 1 && s[x] is Some implies lists_key(
                            r@,
                            #[trigger] key_at(s, x),
                        ) by {
                            if x == i {
                                assert(r@[r@.len() - 1].0 == key_at(s, x));
                            } else {
                                assert(lists_key(r0, key_at(s, x)));
                                let a = choose|a: int| 0 <= a < r0.len() && r0[a].0 == key_at(s, x);
                                assert(r@[a] == r0[a]);
                            }
                        }
                    }
                },
                None => {
                    proof {
                        assert forall|a: int| 0 <= a < r@.len() implies held_before(
                            s,
                            i + 1,
                            #[trigger] r@[a].0,
                        ) by {
                            let x = choose|x: int|
                                0 <= x < i && s[x] is Some && key_at(s, x) == r@[a].0;
                            assert(0 <= x < i + 1 && s[x] is Some && key_at(s, x) == r@[a].0);
                        }
                        assert forall|x: int| 0 <= x < i + 1 && s[x] is Some implies lists_key(
                            r@,
                            #[trigger] key_at(s, x),
                        ) by {
                            assert(x < i);
                        }
                    }
                },
            }
            i = i + 1;
        }
        proof {
            let ks = r@.map_values(|p: (u32, &V)| p.0);
            assert forall|k: u32| ks.to_set().contains(k) <==> self@.dom().contains(k) by {
                if ks.contains(k) {
                    let a = choose|a: int| 0 <= a < ks.len() && ks[a] == k;
                    assert(r@[a].0 == k);
                    let x = choose|x: int| 0 <= x < i && s[x] is Some && key_at(s, x) == r@[a].0;
                }
                if self@.contains_key(k) {
                    let x = choose|x: int| 0 <= x < s.len() && s[x] is Some && key_at(s, x) == k;
                    assert(lists_key(r@, key_at(s, x)));
                    let a = choose|a: int| 0 <= a < r@.len() && r@[a].0 == key_at(s, x);
                    assert(ks[a] == k);
                }
            }
            assert(ks.to_set() =~= self@.dom());
            assert(ks.no_duplicates()) by {
                assert forall|a: int, b: int| 0 <= a < ks.len() && 0 <= b < ks.len() && a != b
                    implies ks[a] != ks[b] by {
                    if a < b {
                        assert(r@[a].0 != r@[b].0);
                    } else {
                        assert(r@[b].0 != r@[a].0);
                    }
                }
            }
            ks.unique_seq_to_set();
            assert forall|k: u32| #[trigger] self@.contains_key(k) implies exists|a: int|
                0 <= a < r@.len() && r@[a].0 == k by {
                let x = choose|x: int| 0 <= x < s.len() && s[x] is Some && key_at(s, x) == k;
                assert(lists_key(r@, key_at(s, x)));
            }
            assert forall|a: int| 0 <= a < r@.len() implies self@.contains_key(#[trigger] r@[a].0) by {
                let x = choose|x: int| 0 <= x < i && s[x] is Some && key_at(s, x) == r@[a].0;
            }
        }
        r
    }

    /// Consumes the table and hands out its entries, each key once.
    pub fn into_iter(self) -> (r: Vec<(u32, V)>)
        requires
            self.wf(),
        ensures
            r@.len() == self@.len(),
            forall|a: int|
                0 <= a < r@.len() ==> self@.contains_key(#[trigger] r@[a].0) && r@[a].1
                    == self@[r@[a].0],
            forall|a: int, b: int|
                0 <= a < b < r@.len() ==> #[trigger] r@[a].0 != #[trigger] r@[b].0,
            forall|k: u32| #[trigger] self@.contains_key(k) ==> lists_key(r@, k),
    {
        let ghost orig = self@;
        let mut slots = self.slots;
        let mut r: Vec<(u32, V)> = Vec::new();
        proof {
            lemma_view_of(slots@);
        }
        while slots.len() > 0
            invariant
                keys_unique(slots@),
                r@.len() + num_occ(slots@) == orig.len(),
                forall|a: int|
                    0 <= a < r@.len() ==> orig.contains_key(#[trigger] r@[a].0) && r@[a].1
                        == orig[r@[a].0] && !view_of(slots@).contains_key(r@[a].0),
                forall|a: int, b: int|
                    0 <= a < b < r@.len() ==> #[trigger] r@[a].0 != #[trigger] r@[b].0,
                forall|k: u32|
                    #[trigger] orig.contains_key(k) ==> view_of(slots@).contains_key(k) || lists_key(
                        r@,
                        k,
                    ),
                forall|k: u32|
                    #[trigger] view_of(slots@).contains_key(k) ==> orig.contains_key(k) && view_of(
                        slots@,
                    )[k] == orig[k],
            decreases slots@.len(),
        {
            let ghost rest = slots@;
            let x = slots.pop();
            proof {
                assert(slots@ =~= rest.drop_last());
                lemma_unique_drop_last(rest);
            }
            match x {
                Some(Some(entry)) => {
                    let ghost t = slots@;
                    let ghost r0 = r@;
                    proof {
                        lemma_view_of(rest);
                        lemma_view_of(t);
                        assert(view_of(rest) == view_of(t).insert(entry.0, entry.1));
                        assert(num_occ(rest) == num_occ(t) + 1);
                        if view_of(t).contains_key(entry.0) {
                            let i = choose|i: int|
                                0 <= i < t.len() && t[i] is Some && key_at(t, i) == entry.0;
                            assert(key_at(rest, i) != key_at(rest, rest.len() - 1));
                        }
                        assert(view_of(rest).contains_key(entry.0));
                        assert forall|k: u32| #[trigger] view_of(t).contains_key(k) implies orig.contains_key(
                            k,
                        ) && view_of(t)[k] == orig[k] by {
                            assert(view_of(rest).contains_key(k));
                            assert(k != entry.0);
                        }
                    }
                    r.push(entry);
                    proof {
                        assert forall|a: int, b: int| 0 <= a < b < r@.len() implies #[trigger] r@[a].0
                            != #[trigger] r@[b].0 by {
                            if b == r@.len() - 1 {
                                assert(r@[a] == r0[a]);
                                assert(!view_of(rest).contains_key(r0[a].0));
                            } else {
                                assert(r@[a] == r0[a] && r@[b] == r0[b]);
                            }
                        }
                        assert forall|a: int| 0 <= a < r@.len() implies orig.contains_key(
                            #[trigger] r@[a].0,
                        ) && r@[a].1 == orig[r@[a].0] && !view_of(t).contains_key(r@[a].0) by {
                            if a < r@.len() - 1 {
                                assert(r@[a] == r0[a]);
                            }
                        }
                        assert forall|k: u32| #[trigger] orig.contains_key(k) implies view_of(
                            t,
                        ).contains_key(k) || lists_key(r@, k) by {
                            if k == r@[r@.len() - 1].0 {
                                assert(lists_key(r@, k)) by {
                                    assert(r@[r@.len() - 1].0 == k);
                                }
                            } else if lists_key(r0, k) {
                                let a = choose|a: int| 0 <= a < r0.len() && r0[a].0 == k;
                                assert(r@[a] == r0[a]);
                            }
                        }
                    }
                },
                _ => {
                    proof {
                        assert(view_of(rest) == view_of(slots@));
                        assert(num_occ(rest) == num_occ(slots@));
                    }
                },
            }
        }
        proof {
            assert(view_of(slots@) =~= Map::<u32, V>::empty());
        }
        r
    }

    /// The keys, each once, in slot order.
    pub fn keys(&self) -> (r: Vec<u32>)
        requires
            self.wf(),
        ensures
            r@.no_duplicates(),
            r@.to_set() == self@.dom(),
            r@.len() == self@.len(),
    {
        let ghost s = self.slots@;
        let mut r: Vec<u32> = Vec::new();
        let mut i: usize = 0;
        while i < self.slots.len()
            invariant
                self.wf(),
                s == self.slots@,
                i <= s.len(),
                r@.no_duplicates(),
                forall|a: int| 0 <= a < r@.len() ==> held_before(s, i as int, #[trigger] r@[a]),
                forall|x: int| 0 <= x < i && s[x] is Some ==> r@.contains(#[trigger] key_at(s, x)),
            decreases s.len() - i,
        {
            match &self.slots[i] {
                Some(entry) => {
                    proof {
                        if r@.contains(entry.0) {
                            let a = choose|a: int| 0 <= a < r@.len() && r@[a] == entry.0;
                            let x = choose|x: int|
                                0 <= x < i && s[x] is Some && key_at(s, x) == r@[a];
                            assert(key_at(s, x) != key_at(s, i as int));
                        }
                    }
                    let ghost r0 = r@;
                    r.push(entry.0);
                    proof {
                        assert forall|a: int| 0 <= a < r@.len() implies held_before(s, i + 1, #[trigger] r@[a]) by {
                            if a == r@.len() - 1 {
                                assert(0 <= i < i + 1 && s[i as int] is Some && key_at(s, i as int) == r@[a]);
                            } else {
                                assert(r@[a] == r0[a]);
                                let x = choose|x: int| 0 <= x < i && s[x] is Some && key_at(s, x) == r0[a];
                                assert(0 <= x < i + 1 && s[x] is Some && key_at(s, x) == r@[a]);
                            }
                        }
                        assert forall|x: int| 0 <= x < i + 1 && s[x] is Some implies r@.contains(
                            #[trigger] key_at(s, x),
                        ) by {
                            if x == i {
                                assert(r@[r@.len() - 1] == key_at(s, x));
                            } else {
                                assert(r0.contains(key_at(s, x)));
                                let a = choose|a: int| 0 <= a < r0.len() && r0[a] == key_at(s, x);
                                assert(r@[a] == r0[a]);
                            }
                        }
                    }
                },
                None => {
                    proof {
                        assert forall|a: int| 0 <= a < r@.len() implies held_before(s, i + 1, #[trigger] r@[a]) by {
                            let x = choose|x: int| 0 <= x < i && s[x] is Some && key_at(s, x) == r@[a];
                            assert(0 <= x < i + 1 && s[x] is Some && key_at(s, x) == r@[a]);
                        }
                    }
                },
            }
            i = i + 1;
        }
        proof {
            lemma_view_of(s);
            assert forall|k: u32| r@.to_set().contains(k) <==> self@.dom().contains(k) by {
                if r@.contains(k) {
                    let a = choose|a: int| 0 <= a < r@.len() && r@[a] == k;
                    let x = choose|x: int| 0 <= x < i && s[x] is Some && key_at(s, x) == r@[a];
                }
                if self@.contains_key(k) {
                    let x = choose|x: int| 0 <= x < s.len() && s[x] is Some && key_at(s, x) == k;
                }
            }
            assert(r@.to_set() =~= self@.dom());
            r@.unique_seq_to_set();
        }
        r
    }

    /// Keeps the entries whose key `f` accepts and removes the others. Each
    /// key is handed to `f` once.
    pub fn retain<F: Fn(u32) -> bool>(&mut self, f: F)
        requires
            old(self).wf(),
            forall|k: u32| #[trigger] f.requires((k,)),
        ensures
            final(self).wf(),
            final(self).spec_capacity() == old(self).spec_capacity(),
            forall|k: u32| #[trigger] final(self)@.contains_key(k) ==> old(self)@.contains_key(k)
                && final(self)@[k] == old(self)@[k] && f.ensures((k,), true),
            forall|k: u32|
                #[trigger] old(self)@.contains_key(k) && !final(self)@.contains_key(k)
                    ==> f.ensures((k,), false),
    {
        let ghost s = self.slots@;
        let mut doomed: Vec<u32> = Vec::new();
        let mut i: usize = 0;
        while i < self.slots.len()
            invariant
                self.wf(),
                s == self.slots@,
                *self == *old(self),
                i <= s.len(),
                forall|k: u32| #[trigger] f.requires((k,)),
                forall|a: int| 0 <= a < doomed@.len() ==> held_before(s, i as int, #[trigger] doomed@[a]),
                forall|a: int| 0 <= a < doomed@.len() ==> f.ensures((#[trigger] doomed@[a],), false),
                forall|x: int|
                    0 <= x < i && s[x] is Some ==> (doomed@.contains(#[trigger] key_at(s, x))
                        && f.ensures((key_at(s, x),), false)) || (!doomed@.contains(key_at(s, x))
                        && f.ensures((key_at(s, x),), true)),
            decreases s.len() - i,
        {
            match &self.slots[i] {
                Some(entry) => {
                    let k = entry.0;
                    let keep = f(k);
                    proof {
                        if doomed@.contains(k) {
                            let a = choose|a: int| 0 <= a < doomed@.len() && doomed@[a] == k;
                            let x = choose|x: int|
                                0 <= x < i && s[x] is Some && key_at(s, x) == doomed@[a];
                            assert(key_at(s, x) != key_at(s, i as int));
                        }
                    }
                    if keep {
                        proof {
                            assert forall|a: int| 0 <= a < doomed@.len() implies held_before(s, i + 1, #[trigger] doomed@[a]) by {
                                let x = choose|x: int|
                                    0 <= x < i && s[x] is Some && key_at(s, x) == doomed@[a];
                                assert(0 <= x < i + 1 && s[x] is Some && key_at(s, x) == doomed@[a]);
                            }
                        }
                    }
                    if !keep {
                        let ghost d0 = doomed@;
                        doomed.push(k);
                        proof {
                            assert forall|a: int| 0 <= a < doomed@.len() implies held_before(s, i + 1, #[trigger] doomed@[a]) by {
                                if a == doomed@.len() - 1 {
                                    assert(0 <= i < i + 1 && s[i as int] is Some && key_at(
                                        s,
                                        i as int,
                                    ) == doomed@[a]);
                                } else {
                                    assert(doomed@[a] == d0[a]);
                                    let x = choose|x: int|
                                        0 <= x < i && s[x] is Some && key_at(s, x) == d0[a];
                                    assert(0 <= x < i + 1 && s[x] is Some && key_at(s, x) == doomed@[a]);
                                }
                            }
                            assert forall|x: int| 0 <= x < i + 1 && s[x] is Some implies (
                            doomed@.contains(#[trigger] key_at(s, x)) && f.ensures(
                                (key_at(s, x),),
                                false,
                            )) || (!doomed@.contains(key_at(s, x)) && f.ensures(
                                (key_at(s, x),),
                                true,
                            )) by {
                                if x == i {
                                    assert(doomed@[doomed@.len() - 1] == k);
                                } else {
                                    assert(key_at(s, x) != key_at(s, i as int));
                                    if d0.contains(key_at(s, x)) {
                                        let a = choose|a: int| 0 <= a < d0.len() && d0[a] == key_at(s, x);
                                        assert(doomed@[a] == key_at(s, x));
                                    }
                                }
                            }
                        }
                    }
                },
                None => {
                    proof {
                        assert forall|a: int| 0 <= a < doomed@.len() implies held_before(s, i + 1, #[trigger] doomed@[a]) by {
                            let x = choose|x: int|
                                0 <= x < i && s[x] is Some && key_at(s, x) == doomed@[a];
                            assert(0 <= x < i + 1 && s[x] is Some && key_at(s, x) == doomed@[a]);
                        }
                    }
                },
            }
            i = i + 1;
        }
        let mut t: usize = 0;
        while t < doomed.len()
            invariant
                self.wf(),
                self.spec_capacity() == old(self).spec_capacity(),
                t <= doomed@.len(),
                forall|k: u32| #[trigger] self@.contains_key(k) ==> old(self)@.contains_key(k)
                    && self@[k] == old(self)@[k],
                forall|k: u32|
                    #[trigger] old(self)@.contains_key(k) ==> (self@.contains_key(k)
                        <==> !doomed@.take(t as int).contains(k)),
            decreases doomed@.len() - t,
        {
            self.remove(doomed[t]);
            proof {
                assert forall|k: u32| #[trigger] old(self)@.contains_key(k) implies (
                self@.contains_key(k) <==> !doomed@.take(t + 1).contains(k)) by {
                    if doomed@.take(t as int).contains(k) {
                        let a = choose|a: int| 0 <= a < t && #[trigger] doomed@.take(t as int)[a] == k;
                        assert(doomed@.take(t + 1)[a] == k);
                    }
                    if doomed@.take(t + 1).contains(k) && k != doomed@[t as int] {
                        let a = choose|a: int| 0 <= a < t + 1 && #[trigger] doomed@.take(t + 1)[a] == k;
                        assert(doomed@.take(t as int)[a] == k);
                    }
                    if k == doomed@[t as int] {
                        assert(doomed@.take(t + 1)[t as int] == k);
                    }
                }
            }
            t = t + 1;
        }
        proof {
            lemma_view_of(s);
            assert(doomed@.take(doomed@.len() as int) =~= doomed@);
            assert forall|k: u32| #[trigger] old(self)@.contains_key(k) && !self@.contains_key(k)
                implies f.ensures((k,), false) by {
                let x = choose|x: int| 0 <= x < s.len() && s[x] is Some && key_at(s, x) == k;
                assert(doomed@.contains(key_at(s, x)) || !doomed@.contains(key_at(s, x)));
            }
            assert forall|k: u32| #[trigger] self@.contains_key(k) implies f.ensures((k,), true) by {
                let x = choose|x: int| 0 <= x < s.len() && s[x] is Some && key_at(s, x) == k;
                assert(doomed@.contains(key_at(s, x)) || !doomed@.contains(key_at(s, x)));
            }
        }
    }

    /// Puts an absent key into slot `p`, the empty slot that its probe reaches.
    fn place_at(&mut self, key: u32, value: V, p: usize)
        requires
            old(self).wf(),
            !old(self)@.contains_key(key),
            old(self).vacant_at(key, p as int),
            (old(self).count + 1) * 10 <= old(self).slots@.len() * 9,
            old(self).count < MAX_ENTRIES,
        ensures
            final(self).wf(),
            final(self)@ == old(self)@.insert(key, value),
            final(self).spec_capacity() == old(self).spec_capacity(),
            final(self).count == old(self).count + 1,
    {
        let ghost s = self.slots@;
        let cap = self.slots.len();
        proof {
            lemma_view_of(s);
        }
        self.slots.set(p, Some((key, value)));
        self.count = self.count + 1;
        proof {
            lemma_put(s, p as int, key, value);
            let s2 = self.slots@;
            assert(s2 == s.update(p as int, Some((key, value))));
            let h = ideal(key, cap as int);
            assert forall|i: int, d: int|
                0 <= i < s2.len() && s2[i] is Some && 0 <= d < displacement(s2, i)
                    implies s2[#[trigger] reach(s2, i, d)] is Some by {
                if i != p {
                    assert(s[i] is Some);
                    assert(key_at(s2, i) == key_at(s, i));
                    assert(reach(s2, i, d) == reach(s, i, d));
                    assert(s[reach(s, i, d)] is Some);
                } else {
                    assert(key_at(s2, i) == key);
                    assert(s[wrap(h + d, cap as int)] is Some);
                }
            }
        }
    }

    /// Places an absent key in the empty slot its probe reaches.
    fn insert_new(&mut self, key: u32, value: V)
        requires
            old(self).wf(),
            !old(self)@.contains_key(key),
            (old(self).count + 1) * 10 <= old(self).slots@.len() * 9,
            old(self).count < MAX_ENTRIES,
        ensures
            final(self).wf(),
            final(self)@ == old(self)@.insert(key, value),
            final(self).spec_capacity() == old(self).spec_capacity(),
            final(self).count == old(self).count + 1,
    {
        let ghost s = self.slots@;
        let cap = self.slots.len();
        proof {
            lemma_view_of(s);
        }
        match self.probe(key) {
            Probe::Vacant(p) => self.place_at(key, value, p),
            Probe::Found(p) => {
                proof {
                    assert(self@.contains_key(key_at(s, p as int)));
                }
            },
            Probe::Full => {
                proof {
                    lemma_num_occ_full(s);
                }
            },
        }
    }

    /// Slot `p` holds `key`.
    pub closed spec fn holds_at(&self, key: u32, p: int) -> bool {
        &&& 0 <= p < self.slots@.len()
        &&& self.slots@[p] is Some
        &&& key_at(self.slots@, p) == key
    }

    /// Slot `p` is empty and every slot from the ideal slot of `key` up to it
    /// is occupied: `key` would be placed there.
    pub closed spec fn vacant_at(&self, key: u32, p: int) -> bool {
        let cap = self.slots@.len() as int;
        &&& 0 <= p < cap
        &&& self.slots@[p] is None
        &&& forall|d: int|
            0 <= d < cdist(ideal(key, cap), p, cap) ==> self.slots@[#[trigger] wrap(
                ideal(key, cap) + d,
                cap,
            )] is Some
    }

    /// Finds the slot that holds `key`, or the empty slot where it would go.
    fn probe(&self, key: u32) -> (r: Probe)
        requires
            self.wf(),
        ensures
            r matches Probe::Found(p) ==> p < self.slots@.len() && self.slots@[p as int] is Some
                && key_at(self.slots@, p as int) == key,
            r matches Probe::Vacant(p) ==> p < self.slots@.len() && self.slots@[p as int] is None
                && !self@.contains_key(key) && forall|d: int|
                0 <= d < cdist(ideal(key, self.slots@.len() as int), p as int, self.slots@.len() as int)
                    ==> self.slots@[#[trigger] wrap(ideal(key, self.slots@.len() as int) + d, self.slots@.len() as int)] is Some,
            r is Full ==> !self@.contains_key(key) && forall|i: int|
                0 <= i < self.slots@.len() ==> self.slots@[i] is Some,
    {
        let cap = self.slots.len();
        let ghost s = self.slots@;
        proof {
            lemma_view_of(s);
        }
        if cap == 0 {
            return Probe::Full;
        }
        let h = ideal_slot(key, cap);
        let mut p: usize = h;
        let mut d: usize = 0;
        while d < cap
            invariant
                self.wf(),
                s == self.slots@,
                cap == s.len(),
                cap > 0,
                h == ideal(key, cap as int),
                0 <= h < cap,
                d <= cap,
                p < cap,
                p == wrap(h + d, cap as int) || d == cap,
                forall|e: int|
                    0 <= e < d ==> s[#[trigger] wrap(h + e, cap as int)] is Some && key_at(
                        s,
                        wrap(h + e, cap as int),
                    ) != key,
            decreases cap - d,
        {
            match &self.slots[p] {
                None => {
                    proof {
                        lemma_cdist_wrap(h as int, d as int, cap as int);
                        assert forall|i: int|
                            0 <= i < cap && s[i] is Some implies key_at(s, i) != key by {
                            if key_at(s, i) == key {
                                lemma_wrap_cdist(h as int, i, cap as int);
                                let di = cdist(h as int, i, cap as int);
                                assert(displacement(s, i) == di);
                                if di < d {
                                    assert(s[wrap(h + di, cap as int)] is Some);
                                } else if di > d {
                                    assert(reach(s, i, d as int) == p);
                                }
                            }
                        }
                        lemma_view_of(s);
                        assert(!self@.contains_key(key));
                    }
                    return Probe::Vacant(p);
                },
                Some(entry) => {
                    if entry.0 == key {
                        return Probe::Found(p);
                    }
                },
            }
            p = if p + 1 == cap {
                0
            } else {
                p + 1
            };
            d = d + 1;
        }
        proof {
            assert forall|i: int| 0 <= i < cap implies #[trigger] s[i] is Some && key_at(s, i) != key by {
                lemma_wrap_cdist(h as int, i, cap as int);
                let di = cdist(h as int, i, cap as int);
                assert(s[wrap(h + di, cap as int)] is Some);
            }
            lemma_view_of(s);
            assert(!self@.contains_key(key));
        }
        Probe::Full
    }
}

/// How many steps forward, with wraparound, lead from slot `a` to slot `b`.
pub fn cyclic_distance(a: usize, b: usize, cap: usize) -> (r: usize)
    requires
        a < cap,
        b < cap,
    ensures
        r == cdist(a as int, b as int, cap as int),
{
    if a <= b {
        b - a
    } else {
        b + (cap - a)
    }
}

/// The slot at which a probe for `key` starts in a table of `cap` slots.
pub fn ideal_slot(key: u32, cap: usize) -> (r: usize)
    requires
        cap > 0,
    ensures
        r == ideal(key, cap as int),
        r < cap,
{
    let r = scramble(key) % (cap as u64);
    r as usize
}

/// Scrambles a key: multiplies it by the golden-ratio constant and drops the
/// low sixteen bits, so that consecutive keys land far apart.
pub fn scramble(key: u32) -> (r: u64)
    ensures
        r == scramble_spec(key),
{
    assert((key as u64) * SCRAMBLE < 0x1_0000_0000_0000_0000) by (nonlinear_arith)
        requires
            key < 0x1_0000_0000,
            SCRAMBLE < 0x1_0000_0000,
    ;
    (key as u64) * SCRAMBLE / 65536
}

} // verus!
