use std::collections::HashSet;
use vstd::prelude::*;

verus! {

broadcast use vstd::std_specs::hash::group_hash_axioms;

/// How a pending store keeps its batches. All of them hold the same set and
/// answer the same questions; they differ in cost only.
#[derive(Clone, Copy, Debug, PartialEq, Eq, Structural)]
pub enum Strategy {
    /// An array of slots, one per worker, each empty or holding a batch. Every
    /// operation scans it; nothing is allocated while it has room, and it
    /// grows by one slot when it has none.
    FixedSlots,
    /// A hash set.
    Hashed,
    /// An unordered list: appending is cheap, finding scans.
    List,
    /// A list kept in descending order: an insertion finds its place by binary
    /// search, and the smallest batch sits at the end, so the frontier's
    /// successor is found and taken off in one step.
    MinOrdered,
}

enum Backing {
    Slots { slots: Vec<Option<u128>>, used: usize },
    Hashed(HashSet<u128>),
    List(Vec<u128>),
    Ordered(Vec<u128>),
}

/// The batches that completed early and wait behind a gap.
pub struct PendingStore {
    backing: Backing,
    contents: Ghost<Set<u128>>,
}

/// How many slots hold a batch.
pub open spec fn occupied(s: Seq<Option<u128>>) -> nat
    decreases s.len(),
{
    if s.len() == 0 {
        0
    } else {
        occupied(s.drop_last()) + if s.last() is Some {
            1nat
        } else {
            0nat
        }
    }
}

proof fn lemma_occupied_bound(s: Seq<Option<u128>>)
    ensures
        occupied(s) <= s.len(),
        (exists|i: int| 0 <= i < s.len() && s[i] is None) ==> occupied(s) < s.len(),
    decreases s.len(),
{
    if s.len() > 0 {
        lemma_occupied_bound(s.drop_last());
        if exists|i: int| 0 <= i < s.len() && s[i] is None {
            let i = choose|i: int| 0 <= i < s.len() && s[i] is None;
            if i < s.len() - 1 {
                assert(s.drop_last()[i] is None);
            }
        }
    }
}

proof fn lemma_occupied_update(s: Seq<Option<u128>>, i: int, v: Option<u128>)
    requires
        0 <= i < s.len(),
    ensures
        occupied(s.update(i, v)) + (if s[i] is Some {
            1int
        } else {
            0int
        }) == occupied(s) + (if v is Some {
            1int
        } else {
            0int
        }),
    decreases s.len(),
{
    if i < s.len() - 1 {
        assert(s.update(i, v).drop_last() =~= s.drop_last().update(i, v));
        lemma_occupied_update(s.drop_last(), i, v);
    } else {
        assert(s.update(i, v).drop_last() =~= s.drop_last());
    }
}

/// Whether the batch `x` sits in a slot.
pub open spec fn in_slots(s: Seq<Option<u128>>, x: u128) -> bool {
    exists|i: int| 0 <= i < s.len() && s[i] == Some(x)
}

impl PendingStore {
    /// The batches held.
    pub closed spec fn view(&self) -> Set<u128> {
        self.contents@
    }

    /// The strategy the store was made with.
    pub closed spec fn strategy(&self) -> Strategy {
        match self.backing {
            Backing::Slots { .. } => Strategy::FixedSlots,
            Backing::Hashed(_) => Strategy::Hashed,
            Backing::List(_) => Strategy::List,
            Backing::Ordered(_) => Strategy::MinOrdered,
        }
    }

    /// The backing structure holds exactly the batches of the view, each once.
    pub closed spec fn wf(&self) -> bool {
        &&& self.contents@.finite()
        &&& match self.backing {
            Backing::Slots { slots, used } => {
                &&& forall|x: u128| #[trigger]
                    self.contents@.contains(x) <==> in_slots(slots@, x)
                &&& forall|i: int, j: int|
                    0 <= i < slots.len() && 0 <= j < slots.len() && slots[i] is Some
                        && #[trigger] slots[i] == #[trigger] slots[j] ==> i == j
                &&& self.contents@.len() == used
                &&& used == occupied(slots@)
            },
            Backing::Hashed(h) => h@ == self.contents@,
            Backing::List(v) => {
                &&& forall|x: u128| #[trigger] self.contents@.contains(x) <==> v@.contains(x)
                &&& v@.no_duplicates()
                &&& self.contents@.len() == v.len()
            },
            Backing::Ordered(v) => {
                &&& forall|x: u128| #[trigger] self.contents@.contains(x) <==> v@.contains(x)
                &&& forall|i: int, j: int| 0 <= i < j < v.len() ==> #[trigger] v[i] > #[trigger] v[j]
                &&& self.contents@.len() == v.len()
            },
        }
    }

    /// An empty store of the given strategy; `slots` is how many slots a
    /// fixed slot array starts with (the others ignore it).
    pub fn new(strategy: Strategy, slots: usize) -> (r: PendingStore)
        ensures
            r.wf(),
            r@ == Set::<u128>::empty(),
            r.strategy() == strategy,
    {
        let backing = match strategy {
            Strategy::FixedSlots => {
                let mut v: Vec<Option<u128>> = Vec::new();
                let mut k: usize = 0;
                while k < slots
                    invariant
                        k <= slots,
                        v.len() == k,
                        forall|i: int| 0 <= i < v.len() ==> #[trigger] v[i] is None,
                        occupied(v@) == 0,
                    decreases slots - k,
                {
                    proof {
                        assert(v@.push(None).drop_last() =~= v@);
                    }
                    v.push(None);
                    k = k + 1;
                }
                Backing::Slots { slots: v, used: 0 }
            },
            Strategy::Hashed => Backing::Hashed(HashSet::new()),
            Strategy::List => Backing::List(Vec::new()),
            Strategy::MinOrdered => Backing::Ordered(Vec::new()),
        };
        PendingStore { backing, contents: Ghost(Set::empty()) }
    }

    /// How many batches are held.
    pub fn size(&self) -> (r: usize)
        requires
            self.wf(),
        ensures
            r == self@.len(),
    {
        match &self.backing {
            Backing::Slots { slots: _, used } => *used,
            Backing::Hashed(h) => h.len(),
            Backing::List(v) => v.len(),
            Backing::Ordered(v) => v.len(),
        }
    }

    /// Adds the batch `x`, which is not held yet.
    pub fn insert(&mut self, x: u128)
        requires
            old(self).wf(),
            !old(self)@.contains(x),
        ensures
            final(self).wf(),
            final(self)@ == old(self)@.insert(x),
            final(self).strategy() == old(self).strategy(),
    {
        let ghost before = self.contents@;
        match &mut self.backing {
            Backing::Slots { slots, used } => {
                let i = find_slot(slots, None);
                let ghost old_s = slots@;
                if i < slots.len() {
                    proof {
                        lemma_occupied_update(old_s, i as int, Some(x));
                    }
                    slots.set(i, Some(x));
                } else {
                    proof {
                        assert(old_s.push(Some(x)).drop_last() =~= old_s);
                    }
                    slots.push(Some(x));
                }
                proof {
                    lemma_occupied_bound(slots@);
                    assert(occupied(slots@) == occupied(old_s) + 1);
                    assert(slots@.len() == slots.len());
                    assert(slots@[i as int] == Some(x));
                    assert forall|k: int| 0 <= k < slots@.len() && k != i implies #[trigger] slots@[k]
                        == old_s[k] by {}
                }
                *used = *used + 1;
                proof {
                    let after = before.insert(x);
                    assert forall|y: u128| #[trigger] after.contains(y) <==> in_slots(slots@, y) by {
                        if y == x {
                            assert(slots@[i as int] == Some(x));
                        } else if in_slots(slots@, y) {
                            let k = choose|k: int| 0 <= k < slots@.len() && slots@[k] == Some(y);
                            assert(old_s[k] == Some(y));
                            assert(in_slots(old_s, y));
                        } else if before.contains(y) {
                            assert(in_slots(old_s, y));
                            let k = choose|k: int| 0 <= k < old_s.len() && old_s[k] == Some(y);
                            assert(slots@[k] == Some(y));
                            assert(in_slots(slots@, y));
                        }
                    }
                    assert forall|a: int, b: int|
                        0 <= a < slots.len() && 0 <= b < slots.len() && slots[a] is Some
                            && #[trigger] slots[a] == #[trigger] slots[b] implies a == b by {
                        if a == i && b != i {
                            assert(in_slots(old_s, x));
                        } else if b == i && a != i {
                            assert(in_slots(old_s, x));
                        }
                    }
                }
            },
            Backing::Hashed(h) => {
                h.insert(x);
            },
            Backing::List(v) => {
                let ghost old_v = v@;
                v.push(x);
                proof {
                    let after = before.insert(x);
                    assert forall|y: u128| #[trigger] after.contains(y) <==> v@.contains(y) by {
                        if y == x {
                            assert(v@[v.len() - 1] == x);
                        } else if v@.contains(y) {
                            let k = choose|k: int| 0 <= k < v@.len() && v@[k] == y;
                            assert(k < v.len() - 1);
                            assert(old_v[k] == y);
                        } else if old_v.contains(y) {
                            let k = choose|k: int| 0 <= k < old_v.len() && old_v[k] == y;
                            assert(v@[k] == y);
                        }
                    }
                }
            },
            Backing::Ordered(v) => {
                let ghost old_v = v@;
                proof {
                    assert forall|k: int| 0 <= k < v.len() implies #[trigger] v[k] != x by {
                        assert(v@.contains(v[k]));
                    }
                }
                let mut i: usize = 0;
                let mut hi: usize = v.len();
                while i < hi
                    invariant
                        v@ == old_v,
                        i <= hi <= v.len(),
                        forall|a: int, b: int| 0 <= a < b < v.len() ==> #[trigger] v[a] > #[trigger] v[b],
                        forall|k: int| 0 <= k < v.len() ==> #[trigger] v[k] != x,
                        forall|k: int| 0 <= k < i ==> #[trigger] v[k] > x,
                        forall|k: int| hi <= k < v.len() ==> #[trigger] v[k] < x,
                    decreases hi - i,
                {
                    let mid = i + (hi - i) / 2;
                    if v[mid] > x {
                        i = mid + 1;
                    } else {
                        proof {
                            assert forall|k: int| mid <= k < v.len() implies #[trigger] v[k] < x by {
                                if k > mid {
                                    assert(v[mid as int] > v[k]);
                                }
                            }
                        }
                        hi = mid;
                    }
                }
                v.insert(i, x);
                proof {
                    let after = before.insert(x);
                    assert forall|y: u128| #[trigger] after.contains(y) <==> v@.contains(y) by {
                        if y == x {
                            assert(v@[i as int] == x);
                        } else if v@.contains(y) {
                            let k = choose|k: int| 0 <= k < v@.len() && v@[k] == y;
                            if k < i {
                                assert(old_v[k] == y);
                            } else {
                                assert(old_v[k - 1] == y);
                            }
                        } else if old_v.contains(y) {
                            let k = choose|k: int| 0 <= k < old_v.len() && old_v[k] == y;
                            if k < i {
                                assert(v@[k] == y);
                            } else {
                                assert(v@[k + 1] == y);
                            }
                        }
                    }
                }
            },
        }
        self.contents = Ghost(before.insert(x));
    }

    /// Takes the batch `x` out if it is held, and says whether it was.
    pub fn try_remove(&mut self, x: u128) -> (r: bool)
        requires
            old(self).wf(),
        ensures
            final(self).wf(),
            r == old(self)@.contains(x),
            final(self)@ == old(self)@.remove(x),
            final(self).strategy() == old(self).strategy(),
    {
        let ghost before = self.contents@;
        let found = match &mut self.backing {
            Backing::Slots { slots, used } => {
                let i = find_slot(slots, Some(x));
                if i < slots.len() {
                    let ghost old_s = slots@;
                    proof {
                        assert(old_s[i as int] == Some(x));
                        assert(before.contains(x));
                        vstd::set::axiom_set_remove_len(before, x);
                        lemma_occupied_update(old_s, i as int, None);
                    }
                    slots.set(i, None);
                    *used = *used - 1;
                    proof {
                        let after = before.remove(x);
                        assert forall|y: u128| #[trigger] after.contains(y) <==> in_slots(slots@, y) by {
                            if in_slots(old_s, y) && y != x {
                                let k = choose|k: int| 0 <= k < old_s.len() && old_s[k] == Some(y);
                                assert(slots@[k] == Some(y));
                            }
                            if in_slots(slots@, y) {
                                let k = choose|k: int| 0 <= k < slots@.len() && slots@[k] == Some(y);
                                assert(old_s[k] == Some(y));
                            }
                        }
                    }
                    true
                } else {
                    proof {
                        assert(before.remove(x) =~= before);
                    }
                    false
                }
            },
            Backing::Hashed(h) => h.remove(&x),
            Backing::List(v) => remove_value(v, x, Ghost(before)),
            Backing::Ordered(v) => {
                let ghost old_v = v@;
                let found = remove_value(v, x, Ghost(before));
                proof {
                    if found {
                        assert forall|a: int, b: int| 0 <= a < b < v.len() implies #[trigger] v[a]
                            > #[trigger] v[b] by {
                            let i = choose|i: int| 0 <= i < old_v.len() && v@ == old_v.remove(i);
                            let a0 = if a < i { a } else { a + 1 };
                            let b0 = if b < i { b } else { b + 1 };
                            assert(old_v[a0] > old_v[b0]);
                        }
                    }
                }
                found
            },
        };
        self.contents = Ghost(before.remove(x));
        found
    }

    /// Whether the batch `x` is held.
    pub fn contains(&self, x: u128) -> (r: bool)
        requires
            self.wf(),
        ensures
            r == self@.contains(x),
    {
        match &self.backing {
            Backing::Slots { slots, used: _ } => {
                let i = find_slot(slots, Some(x));
                if i < slots.len() {
                    assert(in_slots(slots@, x));
                }
                i < slots.len()
            },
            Backing::Hashed(h) => h.contains(&x),
            Backing::List(v) => position_of(v, x).is_some(),
            Backing::Ordered(v) => position_of(v, x).is_some(),
        }
    }
}

/// The first slot that holds `target`, or the number of slots if none does.
fn find_slot(slots: &Vec<Option<u128>>, target: Option<u128>) -> (r: usize)
    ensures
        r <= slots.len(),
        r < slots.len() ==> slots[r as int] == target,
        forall|k: int| 0 <= k < r ==> slots[k] != target,
{
    let mut i: usize = 0;
    while i < slots.len()
        invariant
            i <= slots.len(),
            forall|k: int| 0 <= k < i ==> slots[k] != target,
        decreases slots.len() - i,
    {
        if slots[i] == target {
            return i;
        }
        i = i + 1;
    }
    i
}

/// Where `x` stands in `v`, searched from the end.
fn position_of(v: &Vec<u128>, x: u128) -> (r: Option<usize>)
    ensures
        r is None <==> !v@.contains(x),
        r matches Some(i) ==> i < v.len() && v[i as int] == x,
{
    let mut i: usize = v.len();
    while i > 0
        invariant
            i <= v.len(),
            forall|k: int| i <= k < v.len() ==> v[k] != x,
        decreases i,
    {
        if v[i - 1] == x {
            return Some(i - 1);
        }
        i = i - 1;
    }
    None
}

/// Takes `x` out of `v` if it is there; `set` is what `v` holds.
fn remove_value(v: &mut Vec<u128>, x: u128, set: Ghost<Set<u128>>) -> (r: bool)
    requires
        set@.finite(),
        forall|y: u128| #[trigger] set@.contains(y) <==> old(v)@.contains(y),
        (forall|i: int, j: int| 0 <= i < j < old(v).len() ==> #[trigger] old(v)[i] > #[trigger] old(v)[j])
            || old(v)@.no_duplicates(),
        set@.len() == old(v).len(),
    ensures
        r == set@.contains(x),
        forall|y: u128| #[trigger] set@.remove(x).contains(y) <==> final(v)@.contains(y),
        old(v)@.no_duplicates() ==> final(v)@.no_duplicates(),
        set@.remove(x).len() == final(v).len(),
        r ==> exists|i: int| 0 <= i < old(v).len() && final(v)@ == old(v)@.remove(i),
        !r ==> final(v)@ == old(v)@,
{
    let ghost old_v = v@;
    assert(old_v.no_duplicates()) by {
        if !old_v.no_duplicates() {
            let (a, b) = choose|a: int, b: int|
                0 <= a < old_v.len() && 0 <= b < old_v.len() && a != b && old_v[a] == old_v[b];
            if a < b {
                assert(old_v[a] > old_v[b]);
            } else {
                assert(old_v[b] > old_v[a]);
            }
        }
    }
    match position_of(v, x) {
        Some(i) => {
            proof {
                assert(old_v.contains(x));
                vstd::set::axiom_set_remove_len(set@, x);
            }
            v.remove(i);
            proof {
                assert(v@ == old_v.remove(i as int));
                assert forall|y: u128| #[trigger] set@.remove(x).contains(y) <==> v@.contains(y) by {
                    if v@.contains(y) {
                        let k = choose|k: int| 0 <= k < v@.len() && v@[k] == y;
                        if k < i {
                            assert(old_v[k] == y);
                        } else {
                            assert(old_v[k + 1] == y);
                        }
                    }
                    if old_v.contains(y) && y != x {
                        let k = choose|k: int| 0 <= k < old_v.len() && old_v[k] == y;
                        if k < i {
                            assert(v@[k] == y);
                        } else {
                            assert(k != i);
                            assert(v@[k - 1] == y);
                        }
                    }
                }
            }
            true
        },
        None => {
            proof {
                assert(set@.remove(x) =~= set@);
            }
            false
        },
    }
}

} // verus!
