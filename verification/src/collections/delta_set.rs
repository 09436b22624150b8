//! A set of `u64` keys whose elements keep stable slot indexes, with a
//! committed snapshot against which additions and removals are reported.

use vstd::prelude::*;

use crate::collections::im_map::{
    im_clone,
    im_contains_key,
    im_contents,
    im_eq,
    im_get,
    im_insert,
    im_into_keys,
    im_new,
    im_relative_complement,
    im_remove_with_key,
};

verus! {

/// The abstract state of a `DeltaSet`: its slots in order (`None` where an
/// element was removed), the slot index of each live key, and the key index
/// as of the last commit.
pub struct DeltaSetView {
    pub slots: Seq<Option<u64>>,
    pub index: Map<u64, u64>,
    pub committed: Map<u64, u64>,
}

/// The keys held by some slot of `slots`.
pub open spec fn keys_in(slots: Seq<Option<u64>>) -> Set<u64> {
    Set::new(|k: u64| exists|i: int| 0 <= i < slots.len() && slots[i] == Some(k))
}

/// The keys of `slots` in slot order, the empty slots skipped.
pub open spec fn live_in_order(slots: Seq<Option<u64>>) -> Seq<u64>
    decreases slots.len(),
{
    if slots.len() == 0 {
        Seq::empty()
    } else {
        let rest = live_in_order(slots.drop_last());
        match slots.last() {
            Some(k) => rest.push(k),
            None => rest,
        }
    }
}

/// Whether `f` is the first empty slot of `slots`.
pub open spec fn is_first_gap(slots: Seq<Option<u64>>, f: int) -> bool {
    &&& 0 <= f < slots.len()
    &&& slots[f] is None
    &&& forall|j: int| 0 <= j < f ==> #[trigger] slots[j] is Some
}

/// Whether `slots` has an empty slot.
pub open spec fn has_gap(slots: Seq<Option<u64>>) -> bool {
    exists|i: int| 0 <= i < slots.len() && #[trigger] slots[i] is None
}

/// Whether no key occupies two slots.
pub open spec fn slots_unique(slots: Seq<Option<u64>>) -> bool {
    forall|i: int, j: int|
        0 <= i < j < slots.len() && #[trigger] slots[i] is Some && #[trigger] slots[j] is Some
            ==> slots[i] != slots[j]
}

impl DeltaSetView {
    /// The index and the slots describe each other: each live key sits in the
    /// slot that the index gives it, and each occupied slot is indexed.
    pub open spec fn wf(self) -> bool {
        &&& self.slots.len() <= u64::MAX
        &&& forall|k: u64| #[trigger]
            self.index.contains_key(k) ==> self.index[k] < self.slots.len() && self.slots[self.index[k] as int] == Some(k)
        &&& forall|i: int|
            0 <= i < self.slots.len() && #[trigger] self.slots[i] is Some ==> self.index.contains_key(
                self.slots[i]->0,
            ) && self.index[self.slots[i]->0] == i
    }

    /// The live keys.
    pub open spec fn live(self) -> Set<u64> {
        self.index.dom()
    }

    /// The keys as of the last commit.
    pub open spec fn committed_keys(self) -> Set<u64> {
        self.committed.dom()
    }

    /// The state after inserting `k`: a new slot at the end, unless `k` is live.
    pub open spec fn with_key(self, k: u64) -> DeltaSetView {
        if self.index.contains_key(k) {
            self
        } else {
            DeltaSetView {
                slots: self.slots.push(Some(k)),
                index: self.index.insert(k, self.slots.len() as u64),
                committed: self.committed,
            }
        }
    }

    /// The state after removing `k`: its slot emptied, if `k` is live.
    pub open spec fn without_key(self, k: u64) -> DeltaSetView {
        if self.index.contains_key(k) {
            DeltaSetView {
                slots: self.slots.update(self.index[k] as int, None),
                index: self.index.remove(k),
                committed: self.committed,
            }
        } else {
            self
        }
    }

    /// The state after removing each of `keys` in turn.
    pub open spec fn without_keys(self, keys: Seq<u64>) -> DeltaSetView
        decreases keys.len(),
    {
        if keys.len() == 0 {
            self
        } else {
            self.without_keys(keys.drop_last()).without_key(keys.last())
        }
    }

    /// The state after inserting each of `keys` in turn.
    pub open spec fn with_keys(self, keys: Seq<u64>) -> DeltaSetView
        decreases keys.len(),
    {
        if keys.len() == 0 {
            self
        } else {
            self.with_keys(keys.drop_last()).with_key(keys.last())
        }
    }

    /// The state after a delta: the removals first, then the additions.
    pub open spec fn applied(self, removed: Seq<u64>, added: Seq<u64>) -> DeltaSetView {
        self.without_keys(removed).with_keys(added)
    }
}

/// In a well-formed state the live keys are exactly the keys in the slots.
pub proof fn lemma_live_is_keys_in_slots(v: DeltaSetView)
    requires
        v.wf(),
    ensures
        v.live() == keys_in(v.slots),
{
    assert forall|k: u64| v.live().contains(k) <==> keys_in(v.slots).contains(k) by {
        if v.live().contains(k) {
            assert(v.slots[v.index[k] as int] == Some(k));
        }
        if keys_in(v.slots).contains(k) {
            let i = choose|i: int| 0 <= i < v.slots.len() && v.slots[i] == Some(k);
            assert(v.slots[i] is Some);
        }
    }
    assert(v.live() =~= keys_in(v.slots));
}

/// Inserting a key keeps the state well formed, adds the key to the live set
/// and grows the slots by at most one.
pub proof fn lemma_with_key(v: DeltaSetView, k: u64)
    requires
        v.wf(),
        v.slots.len() < u64::MAX,
    ensures
        v.with_key(k).wf(),
        v.with_key(k).live() == v.live().insert(k),
        v.with_key(k).committed == v.committed,
        v.with_key(k).slots.len() <= v.slots.len() + 1,
{
    let w = v.with_key(k);
    if !v.index.contains_key(k) {
        assert forall|j: u64| #[trigger] w.index.contains_key(j) implies w.index[j] < w.slots.len()
            && w.slots[w.index[j] as int] == Some(j) by {
            if j != k {
                assert(v.index.contains_key(j));
            }
        }
        assert forall|i: int| 0 <= i < w.slots.len() && #[trigger] w.slots[i] is Some implies w.index.contains_key(
            w.slots[i]->0,
        ) && w.index[w.slots[i]->0] == i by {
            if i < v.slots.len() {
                assert(v.slots[i] is Some);
                let j = v.slots[i]->0;
                assert(v.index.contains_key(j));
                assert(j != k);
            }
        }
    } else {
        assert(v.live().insert(k) =~= v.live());
    }
    assert(w.live() =~= v.live().insert(k));
}

/// Removing a key keeps the state well formed, takes the key out of the live
/// set and leaves the number of slots unchanged.
pub proof fn lemma_without_key(v: DeltaSetView, k: u64)
    requires
        v.wf(),
    ensures
        v.without_key(k).wf(),
        v.without_key(k).live() == v.live().remove(k),
        v.without_key(k).committed == v.committed,
        v.without_key(k).slots.len() == v.slots.len(),
{
    let w = v.without_key(k);
    if v.index.contains_key(k) {
        let p = v.index[k] as int;
        assert forall|j: u64| #[trigger] w.index.contains_key(j) implies w.index[j] < w.slots.len()
            && w.slots[w.index[j] as int] == Some(j) by {
            assert(v.index.contains_key(j));
            assert(v.slots[v.index[j] as int] == Some(j));
        }
        assert forall|i: int| 0 <= i < w.slots.len() && #[trigger] w.slots[i] is Some implies w.index.contains_key(
            w.slots[i]->0,
        ) && w.index[w.slots[i]->0] == i by {
            assert(i != p);
            assert(v.slots[i] is Some);
        }
    } else {
        assert(v.live().remove(k) =~= v.live());
    }
    assert(w.live() =~= v.live().remove(k));
}

/// Removing several keys keeps the state well formed and takes exactly those
/// keys out of the live set.
pub proof fn lemma_without_keys(v: DeltaSetView, keys: Seq<u64>)
    requires
        v.wf(),
    ensures
        v.without_keys(keys).wf(),
        v.without_keys(keys).live() == v.live().difference(keys.to_set()),
        v.without_keys(keys).committed == v.committed,
        v.without_keys(keys).slots.len() == v.slots.len(),
    decreases keys.len(),
{
    if keys.len() == 0 {
        assert(v.live().difference(keys.to_set()) =~= v.live());
    } else {
        let rest = keys.drop_last();
        lemma_without_keys(v, rest);
        lemma_without_key(v.without_keys(rest), keys.last());
        assert(keys.to_set() =~= rest.to_set().insert(keys.last())) by {
            assert forall|x: u64| keys.to_set().contains(x) implies rest.to_set().insert(
                keys.last(),
            ).contains(x) by {
                let i = choose|i: int| 0 <= i < keys.len() && keys[i] == x;
                if i < keys.len() - 1 {
                    assert(rest[i] == x);
                }
            }
            assert forall|x: u64| rest.to_set().insert(keys.last()).contains(x) implies keys.to_set().contains(x) by {
                if x == keys.last() {
                    assert(keys[keys.len() - 1] == x);
                } else {
                    let i = choose|i: int| 0 <= i < rest.len() && rest[i] == x;
                    assert(keys[i] == x);
                }
            }
        }
        assert(v.without_keys(keys).live() =~= v.live().difference(keys.to_set()));
    }
}

/// Inserting several keys keeps the state well formed and adds exactly those
/// keys to the live set; each key takes at most one new slot.
pub proof fn lemma_with_keys(v: DeltaSetView, keys: Seq<u64>)
    requires
        v.wf(),
        v.slots.len() + keys.len() <= u64::MAX,
    ensures
        v.with_keys(keys).wf(),
        v.with_keys(keys).live() == v.live().union(keys.to_set()),
        v.with_keys(keys).committed == v.committed,
        v.with_keys(keys).slots.len() <= v.slots.len() + keys.len(),
    decreases keys.len(),
{
    if keys.len() == 0 {
        assert(v.live().union(keys.to_set()) =~= v.live());
    } else {
        let rest = keys.drop_last();
        lemma_with_keys(v, rest);
        lemma_with_key(v.with_keys(rest), keys.last());
        assert(keys.to_set() =~= rest.to_set().insert(keys.last())) by {
            assert forall|x: u64| keys.to_set().contains(x) implies rest.to_set().insert(
                keys.last(),
            ).contains(x) by {
                let i = choose|i: int| 0 <= i < keys.len() && keys[i] == x;
                if i < keys.len() - 1 {
                    assert(rest[i] == x);
                }
            }
            assert forall|x: u64| rest.to_set().insert(keys.last()).contains(x) implies keys.to_set().contains(x) by {
                if x == keys.last() {
                    assert(keys[keys.len() - 1] == x);
                } else {
                    let i = choose|i: int| 0 <= i < rest.len() && rest[i] == x;
                    assert(keys[i] == x);
                }
            }
        }
        assert(v.with_keys(keys).live() =~= v.live().union(keys.to_set()));
    }
}

/// Applying a delta leaves as live set the old live set without the removed
/// keys, together with the added keys; removals of absent keys and additions
/// of live keys change nothing.
pub proof fn lemma_applied_live(v: DeltaSetView, removed: Seq<u64>, added: Seq<u64>)
    requires
        v.wf(),
        v.slots.len() + added.len() <= u64::MAX,
    ensures
        v.applied(removed, added).wf(),
        v.applied(removed, added).live() == v.live().difference(removed.to_set()).union(
            added.to_set(),
        ),
        v.applied(removed, added).committed == v.committed,
{
    lemma_without_keys(v, removed);
    lemma_with_keys(v.without_keys(removed), added);
}

/// Two replicas whose live sets agree on every key that a delta does not
/// mention hold the same live set once both have applied that delta, however
/// their slots are laid out.
pub proof fn lemma_replicas_converge(
    a: DeltaSetView,
    b: DeltaSetView,
    removed: Seq<u64>,
    added: Seq<u64>,
)
    requires
        a.wf(),
        b.wf(),
        a.slots.len() + added.len() <= u64::MAX,
        b.slots.len() + added.len() <= u64::MAX,
        forall|k: u64|
            !removed.contains(k) && !added.contains(k) ==> (#[trigger] a.live().contains(k)
                <==> b.live().contains(k)),
    ensures
        a.applied(removed, added).live() == b.applied(removed, added).live(),
{
    lemma_applied_live(a, removed, added);
    lemma_applied_live(b, removed, added);
    assert forall|k: u64| #[trigger]
        a.applied(removed, added).live().contains(k) <==> b.applied(removed, added).live().contains(
            k,
        ) by {
        if !removed.contains(k) && !added.contains(k) {
            assert(a.live().contains(k) <==> b.live().contains(k));
        }
        if added.contains(k) {
            let i = choose|i: int| 0 <= i < added.len() && added[i] == k;
            assert(added.to_set().contains(k));
        }
        if removed.contains(k) {
            let i = choose|i: int| 0 <= i < removed.len() && removed[i] == k;
            assert(removed.to_set().contains(k));
        }
    }
    assert(a.applied(removed, added).live() =~= b.applied(removed, added).live());
}

/// Replaying a replica's own changes since its last commit on a state that
/// holds its committed keys rebuilds its live set.
pub proof fn lemma_replay_rebuilds_live(
    base: DeltaSetView,
    replica: DeltaSetView,
    removed: Seq<u64>,
    added: Seq<u64>,
)
    requires
        base.wf(),
        replica.wf(),
        base.slots.len() + added.len() <= u64::MAX,
        base.live() == replica.committed_keys(),
        removed.to_set() == replica.committed_keys().difference(replica.live()),
        added.to_set() == replica.live().difference(replica.committed_keys()),
    ensures
        base.applied(removed, added).live() == replica.live(),
{
    lemma_applied_live(base, removed, added);
    assert(base.applied(removed, added).live() =~= replica.live());
}

/// A well-formed set has no key in two slots.
pub proof fn lemma_wf_slots_unique(v: DeltaSetView)
    requires
        v.wf(),
    ensures
        slots_unique(v.slots),
{
    assert forall|i: int, j: int|
        0 <= i < j < v.slots.len() && #[trigger] v.slots[i] is Some && #[trigger] v.slots[j]
            is Some implies v.slots[i] != v.slots[j] by {
        if v.slots[i] == v.slots[j] {
            assert(v.index[v.slots[i]->0] == i);
            assert(v.index[v.slots[j]->0] == j);
        }
    }
}

/// Every live key in order comes from a slot.
pub proof fn lemma_live_in_order_from_slots(slots: Seq<Option<u64>>, j: int)
    requires
        0 <= j < live_in_order(slots).len(),
    ensures
        exists|i: int| 0 <= i < slots.len() && slots[i] == Some(live_in_order(slots)[j]),
    decreases slots.len(),
{
    let init = slots.drop_last();
    let rest = live_in_order(init);
    if j < rest.len() {
        lemma_live_in_order_from_slots(init, j);
        let i = choose|i: int| 0 <= i < init.len() && init[i] == Some(rest[j]);
        assert(slots[i] == init[i]);
    } else {
        assert(slots[slots.len() - 1] == Some(live_in_order(slots)[j]));
    }
}

/// The slots of a well-formed set hold no key twice, so its live keys in
/// order have no repetition.
pub proof fn lemma_live_in_order_unique(slots: Seq<Option<u64>>)
    requires
        slots_unique(slots),
    ensures
        live_in_order(slots).no_duplicates(),
    decreases slots.len(),
{
    if slots.len() > 0 {
        let init = slots.drop_last();
        assert forall|i: int, j: int|
            0 <= i < j < init.len() && #[trigger] init[i] is Some && #[trigger] init[j] is Some
                implies init[i] != init[j] by {
            assert(init[i] == slots[i] && init[j] == slots[j]);
        }
        lemma_live_in_order_unique(init);
        if let Some(k) = slots.last() {
            let rest = live_in_order(init);
            if rest.contains(k) {
                let j = choose|j: int| 0 <= j < rest.len() && rest[j] == k;
                lemma_live_in_order_from_slots(init, j);
                let i = choose|i: int| 0 <= i < init.len() && init[i] == Some(rest[j]);
                assert(slots[i] == Some(k) && slots[slots.len() - 1] == Some(k));
                assert(false);
            }
            assert forall|a: int, b: int|
                0 <= a < b < rest.push(k).len() implies rest.push(k)[a] != rest.push(k)[b] by {
                if b == rest.len() {
                    assert(rest.push(k)[a] == rest[a]);
                }
            }
        }
    }
}


/// A set of keys, each in a slot whose index stays put until `compact`; a
/// removed key leaves its slot empty. Next to the live key index it keeps the
/// index as it was at the last commit, so that the changes since can be told.
#[derive(Debug)]
pub struct DeltaSet {
    elements: Vec<Option<u64>>,
    keys: im::HashMap<u64, u64>,
    committed: im::HashMap<u64, u64>,
}

impl View for DeltaSet {
    type V = DeltaSetView;

    closed spec fn view(&self) -> DeltaSetView {
        DeltaSetView {
            slots: self.elements@,
            index: im_contents(self.keys),
            committed: im_contents(self.committed),
        }
    }
}

/// A copy of `slots`, element by element.
fn copy_slots(slots: &Vec<Option<u64>>) -> (r: Vec<Option<u64>>)
    ensures
        r@ == slots@,
{
    let mut r: Vec<Option<u64>> = Vec::with_capacity(slots.len());
    let mut i: usize = 0;
    while i < slots.len()
        invariant
            i <= slots.len(),
            r@ == slots@.take(i as int),
        decreases slots.len() - i,
    {
        r.push(slots[i]);
        i = i + 1;
        assert(r@ == slots@.take(i as int));
    }
    assert(r@ == slots@);
    r
}

/// Whether two slot sequences are equal, compared element by element.
fn slots_equal(a: &Vec<Option<u64>>, b: &Vec<Option<u64>>) -> (r: bool)
    ensures
        r == (a@ == b@),
{
    if a.len() != b.len() {
        return false;
    }
    let mut i: usize = 0;
    while i < a.len()
        invariant
            i <= a.len(),
            a.len() == b.len(),
            forall|j: int| 0 <= j < i ==> a@[j] == b@[j],
        decreases a.len() - i,
    {
        if a[i] != b[i] {
            return false;
        }
        i = i + 1;
    }
    assert(a@ =~= b@);
    true
}

impl DeltaSet {
    /// The index and the slots describe each other.
    pub open spec fn wf(&self) -> bool {
        self@.wf()
    }

    /// Creates an empty set with room reserved for at least `reserved` slots.
    pub fn new(reserved: u64) -> (r: DeltaSet)
        requires
            reserved as int * 16 <= isize::MAX as int,
        ensures
            r.wf(),
            r@.slots == Seq::<Option<u64>>::empty(),
            r@.index == Map::<u64, u64>::empty(),
            r@.committed == Map::<u64, u64>::empty(),
    {
        DeltaSet {
            elements: Vec::with_capacity(reserved as usize),
            keys: im_new(),
            committed: im_new(),
        }
    }

    /// Rebuilds a clean, compact set from unique keys in insertion order;
    /// `None` if a key occurs twice.
    pub fn try_from_elements(elements: Vec<u64>) -> (r: Option<DeltaSet>)
        ensures
            elements@.no_duplicates() <==> r is Some,
            r matches Some(s) ==> {
                &&& s.wf()
                &&& s@.slots == elements@.map_values(|k: u64| Some(k))
                &&& s@.committed == s@.index
            },
    {
        let mut keys = im_new();
        let mut slots: Vec<Option<u64>> = Vec::with_capacity(elements.len());
        let mut index: usize = 0;
        while index < elements.len()
            invariant
                index <= elements.len(),
                slots@ == elements@.take(index as int).map_values(|k: u64| Some(k)),
                elements@.take(index as int).no_duplicates(),
                (DeltaSetView { slots: slots@, index: im_contents(keys), committed: Map::empty() }).wf(),
            decreases elements.len() - index,
        {
            let key = elements[index];
            let ghost v = DeltaSetView { slots: slots@, index: im_contents(keys), committed: Map::empty() };
            proof {
                lemma_live_is_keys_in_slots(v);
            }
            if im_contains_key(&keys, &key) {
                proof {
                    let i = choose|i: int| 0 <= i < slots@.len() && slots@[i] == Some(key);
                    assert(elements@[i] == key);
                    assert(!elements@.no_duplicates());
                }
                return None;
            }
            proof {
                lemma_with_key(v, key);
            }
            im_insert(&mut keys, key, index as u64);
            slots.push(Some(key));
            index = index + 1;
            proof {
                assert(slots@ =~= elements@.take(index as int).map_values(|k: u64| Some(k)));
                assert forall|a: int, b: int|
                    0 <= a < b < index implies elements@.take(index as int)[a] != elements@.take(
                    index as int,
                )[b] by {
                    if b == index - 1 {
                        assert(slots@[a] == Some(elements@[a]));
                        assert(v.index.contains_key(elements@[a]));
                    }
                }
            }
        }
        assert(elements@.take(elements.len() as int) =~= elements@);
        let committed = im_clone(&keys);
        Some(DeltaSet { elements: slots, keys, committed })
    }

    /// Rebuilds a clean set that keeps the empty slots and the indexes of the
    /// given slots; `None` if a key occupies two slots.
    pub fn try_from_slots(elements: Vec<Option<u64>>) -> (r: Option<DeltaSet>)
        ensures
            slots_unique(elements@) <==> r is Some,
            r matches Some(s) ==> {
                &&& s.wf()
                &&& s@.slots == elements@
                &&& s@.committed == s@.index
            },
    {
        let mut keys = im_new();
        let mut index: usize = 0;
        while index < elements.len()
            invariant
                index <= elements.len(),
                slots_unique(elements@.take(index as int)),
                (DeltaSetView {
                    slots: elements@.take(index as int),
                    index: im_contents(keys),
                    committed: Map::empty(),
                }).wf(),
            decreases elements.len() - index,
        {
            let ghost v = DeltaSetView {
                slots: elements@.take(index as int),
                index: im_contents(keys),
                committed: Map::empty(),
            };
            let ghost next = elements@.take(index + 1);
            if let Some(key) = elements[index] {
                proof {
                    lemma_live_is_keys_in_slots(v);
                }
                if im_contains_key(&keys, &key) {
                    proof {
                        let i = choose|i: int| 0 <= i < v.slots.len() && v.slots[i] == Some(key);
                        assert(elements@[i] is Some && elements@[index as int] is Some);
                        assert(!slots_unique(elements@));
                    }
                    return None;
                }
                proof {
                    lemma_with_key(v, key);
                    assert(v.with_key(key).slots =~= next);
                    assert forall|a: int, b: int|
                        0 <= a < b < next.len() && #[trigger] next[a] is Some
                            && #[trigger] next[b] is Some implies next[a] != next[b] by {
                        if b == index {
                            assert(v.slots[a] is Some);
                            assert(keys_in(v.slots).contains(next[a]->0));
                        } else {
                            assert(v.slots[a] is Some && v.slots[b] is Some);
                        }
                    }
                }
                im_insert(&mut keys, key, index as u64);
            } else {
                proof {
                    let w = DeltaSetView { slots: next, index: v.index, committed: Map::empty() };
                    assert forall|k: u64| #[trigger] w.index.contains_key(k) implies w.index[k]
                        < w.slots.len() && w.slots[w.index[k] as int] == Some(k) by {
                        assert(v.slots[v.index[k] as int] == Some(k));
                    }
                    assert forall|i: int| 0 <= i < w.slots.len() && #[trigger] w.slots[i] is Some implies w.index.contains_key(
                        w.slots[i]->0,
                    ) && w.index[w.slots[i]->0] == i by {
                        assert(v.slots[i] is Some);
                    }
                    assert forall|a: int, b: int|
                        0 <= a < b < next.len() && #[trigger] next[a] is Some
                            && #[trigger] next[b] is Some implies next[a] != next[b] by {
                        assert(v.slots[a] is Some && v.slots[b] is Some);
                    }
                }
            }
            index = index + 1;
        }
        assert(elements@.take(elements.len() as int) =~= elements@);
        let committed = im_clone(&keys);
        Some(DeltaSet { elements, keys, committed })
    }

    /// All slots, the empty ones included.
    pub fn slots(&self) -> (r: &[Option<u64>])
        ensures
            r@ == self@.slots,
    {
        self.elements.as_slice()
    }

    /// Whether the live index differs from the one of the last commit.
    pub fn is_dirty(&self) -> (r: bool)
        ensures
            r == (self@.index != self@.committed),
    {
        !im_eq(&self.keys, &self.committed)
    }

    /// The live keys in slot order, the empty slots skipped.
    pub fn iter_live(&self) -> (r: Vec<u64>)
        ensures
            r@ == live_in_order(self@.slots),
    {
        let mut r: Vec<u64> = Vec::new();
        let mut i: usize = 0;
        while i < self.elements.len()
            invariant
                i <= self.elements.len(),
                r@ == live_in_order(self.elements@.take(i as int)),
            decreases self.elements.len() - i,
        {
            let ghost before = self.elements@.take(i as int);
            if let Some(k) = self.elements[i] {
                r.push(k);
            }
            i = i + 1;
            assert(self.elements@.take(i as int).drop_last() =~= before);
        }
        assert(self.elements@.take(self.elements.len() as int) =~= self.elements@);
        r
    }

    /// The live key equal to `key`, if there is one.
    pub fn get(&self, key: &u64) -> (r: Option<u64>)
        requires
            self.wf(),
        ensures
            r == (if self@.live().contains(*key) { Some(*key) } else { None }),
    {
        match im_get(&self.keys, key) {
            None => None,
            Some(ind) => {
                assert(self@.index.contains_key(*key));
                assert(ind < self.elements.len());
                let i = ind as usize;
                assert(i == ind);
                self.elements[i]
            },
        }
    }

    /// The live key in slot `ind`; `None` for an empty slot or an index past
    /// the last slot.
    pub fn get_at(&self, ind: u64) -> (r: Option<u64>)
        ensures
            r == (if ind < self@.slots.len() { self@.slots[ind as int] } else { None }),
    {
        if ind >= self.elements.len() as u64 {
            return None;
        }
        self.elements[ind as usize]
    }

    /// Inserts `key` in a new slot at the end and returns that slot's index;
    /// `None`, with nothing changed, if `key` is already live.
    pub fn insert(&mut self, key: u64) -> (r: Option<u64>)
        requires
            old(self).wf(),
        ensures
            final(self).wf(),
            final(self)@ == old(self)@.with_key(key),
            r == (if old(self)@.live().contains(key) {
                None
            } else {
                Some(old(self)@.slots.len() as u64)
            }),
    {
        if im_contains_key(&self.keys, &key) {
            return None;
        }
        let ghost before = self@;
        self.elements.push(Some(key));
        let sequence = (self.elements.len() - 1) as u64;
        proof {
            lemma_with_key(before, key);
        }
        im_insert(&mut self.keys, key, sequence);
        Some(sequence)
    }

    /// Removes `key`, emptying its slot, and returns the key with its slot
    /// index; `None`, with nothing changed, if `key` is not live.
    pub fn remove(&mut self, key: &u64) -> (r: Option<(u64, u64)>)
        requires
            old(self).wf(),
        ensures
            final(self).wf(),
            final(self)@ == old(self)@.without_key(*key),
            r == (if old(self)@.live().contains(*key) {
                Some((*key, old(self)@.index[*key]))
            } else {
                None
            }),
    {
        proof {
            lemma_without_key(self@, *key);
        }
        match im_get(&self.keys, key) {
            None => None,
            Some(ind) => {
                assert(self@.index.contains_key(*key));
                assert(ind < self.elements.len());
                let i = ind as usize;
                self.elements.set(i, None);
                im_remove_with_key(&mut self.keys, key)
            },
        }
    }

    /// Removes the live key in slot `ind`, emptying the slot, and returns it
    /// with the index; `None`, with nothing changed, for an empty slot or an
    /// index past the last slot.
    pub fn remove_at(&mut self, ind: u64) -> (r: Option<(u64, u64)>)
        requires
            old(self).wf(),
        ensures
            final(self).wf(),
            ind < old(self)@.slots.len() ==> (old(self)@.slots[ind as int] matches Some(k) ==> {
                &&& r == Some((k, ind))
                &&& final(self)@ == old(self)@.without_key(k)
            }),
            !(ind < old(self)@.slots.len() && old(self)@.slots[ind as int] is Some) ==> {
                &&& r is None
                &&& final(self)@ == old(self)@
            },
    {
        if ind >= self.elements.len() as u64 {
            return None;
        }
        match self.elements[ind as usize] {
            None => None,
            Some(key) => {
                proof {
                    lemma_without_key(self@, key);
                }
                self.elements.set(ind as usize, None);
                im_remove_with_key(&mut self.keys, &key)
            },
        }
    }

    /// The number of slots, the empty ones included.
    pub fn len(&self) -> (r: u64)
        ensures
            r == self@.slots.len(),
    {
        self.elements.len() as u64
    }

    /// The keys added and the keys removed since the last commit, each list
    /// without repetition and in no particular order.
    pub fn diff(&self) -> (r: (Vec<u64>, Vec<u64>))
        ensures
            r.0@.no_duplicates(),
            r.1@.no_duplicates(),
            r.0@.to_set() == self@.live().difference(self@.committed_keys()),
            r.1@.to_set() == self@.committed_keys().difference(self@.live()),
    {
        let added = im_relative_complement(im_clone(&self.keys), im_clone(&self.committed));
        let removed = im_relative_complement(im_clone(&self.committed), im_clone(&self.keys));
        let new_keys = im_into_keys(added);
        let removed_keys = im_into_keys(removed);
        proof {
            assert(im_contents(added).dom() =~= self@.live().difference(self@.committed_keys()));
            assert(im_contents(removed).dom() =~= self@.committed_keys().difference(self@.live()));
        }
        (new_keys, removed_keys)
    }

    /// Removes each key of `removed`, then inserts each key of `added`;
    /// removals of absent keys and additions of live keys are skipped.
    pub fn apply_delta(&mut self, removed: &[u64], added: &[u64])
        requires
            old(self).wf(),
        ensures
            final(self).wf(),
            final(self)@ == old(self)@.applied(removed@, added@),
    {
        let ghost start = self@;
        let mut i: usize = 0;
        while i < removed.len()
            invariant
                i <= removed.len(),
                self.wf(),
                start.wf(),
                self@ == start.without_keys(removed@.take(i as int)),
                self@.slots.len() == start.slots.len(),
            decreases removed.len() - i,
        {
            proof {
                assert(removed@.take(i + 1).drop_last() =~= removed@.take(i as int));
            }
            self.remove(&removed[i]);
            i = i + 1;
        }
        assert(removed@.take(removed.len() as int) =~= removed@);
        let ghost middle = self@;
        let mut j: usize = 0;
        while j < added.len()
            invariant
                j <= added.len(),
                self.wf(),
                self@ == middle.with_keys(added@.take(j as int)),
            decreases added.len() - j,
        {
            proof {
                assert(added@.take(j + 1).drop_last() =~= added@.take(j as int));
            }
            self.insert(added[j]);
            j = j + 1;
        }
        assert(added@.take(added.len() as int) =~= added@);
    }

    /// Takes the live keys as the committed ones.
    pub fn commit(&mut self)
        requires
            old(self).wf(),
        ensures
            final(self).wf(),
            final(self)@.slots == old(self)@.slots,
            final(self)@.index == old(self)@.index,
            final(self)@.committed == old(self)@.index,
    {
        self.committed = im_clone(&self.keys);
    }

    /// Drops the empty slots, moving each live key, in order, to the slot
    /// that its position among the live keys gives it. Returns 0 if there was
    /// no empty slot, and otherwise the number of slots from the first empty
    /// one on, once compacted: the keys whose index changed.
    pub fn compact(&mut self) -> (r: u64)
        requires
            old(self).wf(),
        ensures
            final(self).wf(),
            !has_gap(old(self)@.slots) ==> r == 0 && final(self)@ == old(self)@,
            has_gap(old(self)@.slots) ==> {
                &&& final(self)@.slots == live_in_order(old(self)@.slots).map_values(
                    |k: u64| Some(k),
                )
                &&& final(self)@.live() == old(self)@.live()
                &&& final(self)@.committed == old(self)@.committed
                &&& forall|f: int|
                    is_first_gap(old(self)@.slots, f) ==> r == final(self)@.slots.len() - f
            },
    {
        let ghost start = self@;
        let len = self.elements.len();
        let mut first: usize = 0;
        while first < len && self.elements[first].is_some()
            invariant
                first <= len,
                len == self.elements.len(),
                forall|j: int| 0 <= j < first ==> #[trigger] self.elements@[j] is Some,
            decreases len - first,
        {
            first = first + 1;
        }
        if first == len {
            assert(!has_gap(start.slots));
            return 0;
        }
        assert(is_first_gap(start.slots, first as int));
        let mut compacted: Vec<Option<u64>> = Vec::new();
        let mut keys = im_new();
        let mut i: usize = 0;
        while i < len
            invariant
                i <= len,
                len == self.elements.len(),
                self@ == start,
                start.wf(),
                is_first_gap(start.slots, first as int),
                compacted@ == live_in_order(start.slots.take(i as int)).map_values(
                    |k: u64| Some(k),
                ),
                compacted@.len() <= i,
                i <= first ==> compacted@.len() == i,
                i >= first ==> compacted@.len() >= first,
                im_contents(keys).dom() == keys_in(start.slots.take(i as int)),
                (DeltaSetView {
                    slots: compacted@,
                    index: im_contents(keys),
                    committed: Map::empty(),
                }).wf(),
            decreases len - i,
        {
            let ghost v = DeltaSetView {
                slots: compacted@,
                index: im_contents(keys),
                committed: Map::empty(),
            };
            let ghost before = start.slots.take(i as int);
            let ghost after = start.slots.take(i + 1);
            assert(after.drop_last() =~= before);
            if let Some(key) = self.elements[i] {
                proof {
                    if keys_in(before).contains(key) {
                        let j = choose|j: int| 0 <= j < before.len() && before[j] == Some(key);
                        assert(start.slots[j] is Some);
                        assert(start.slots[i as int] is Some);
                    }
                    lemma_with_key(v, key);
                    assert(keys_in(after) =~= keys_in(before).insert(key)) by {
                        assert forall|k: u64| keys_in(after).contains(k) implies keys_in(
                            before,
                        ).insert(key).contains(k) by {
                            let j = choose|j: int| 0 <= j < after.len() && after[j] == Some(k);
                            if j < i {
                                assert(before[j] == Some(k));
                            }
                        }
                        assert forall|k: u64| keys_in(before).insert(key).contains(k) implies keys_in(
                            after,
                        ).contains(k) by {
                            if k == key {
                                assert(after[i as int] == Some(k));
                            } else {
                                let j = choose|j: int| 0 <= j < before.len() && before[j] == Some(k);
                                assert(after[j] == Some(k));
                            }
                        }
                    }
                }
                im_insert(&mut keys, key, compacted.len() as u64);
                compacted.push(Some(key));
                proof {
                    assert(compacted@ =~= live_in_order(after).map_values(|k: u64| Some(k)));
                }
            } else {
                proof {
                    assert(keys_in(after) =~= keys_in(before)) by {
                        assert forall|k: u64| keys_in(after).contains(k) implies keys_in(
                            before,
                        ).contains(k) by {
                            let j = choose|j: int| 0 <= j < after.len() && after[j] == Some(k);
                            assert(j != i);
                            assert(before[j] == Some(k));
                        }
                        assert forall|k: u64| keys_in(before).contains(k) implies keys_in(
                            after,
                        ).contains(k) by {
                            let j = choose|j: int| 0 <= j < before.len() && before[j] == Some(k);
                            assert(after[j] == Some(k));
                        }
                    }
                    assert(i >= first) by {
                        if i < first {
                            assert(start.slots[i as int] is Some);
                        }
                    }
                }
            }
            i = i + 1;
        }
        proof {
            assert(start.slots.take(len as int) =~= start.slots);
            lemma_live_is_keys_in_slots(start);
        }
        let compacted_len = compacted.len();
        self.elements = compacted;
        self.keys = keys;
        ((compacted_len - first) as u64)
    }
}

impl Clone for DeltaSet {
    fn clone(&self) -> (r: DeltaSet)
        ensures
            r@ == self@,
    {
        DeltaSet {
            elements: copy_slots(&self.elements),
            keys: im_clone(&self.keys),
            committed: im_clone(&self.committed),
        }
    }
}

impl Default for DeltaSet {
    fn default() -> (r: DeltaSet)
        ensures
            r.wf(),
            r@.slots == Seq::<Option<u64>>::empty(),
            r@.index == Map::<u64, u64>::empty(),
            r@.committed == Map::<u64, u64>::empty(),
    {
        DeltaSet { elements: Vec::new(), keys: im_new(), committed: im_new() }
    }
}

impl PartialEq for DeltaSet {
    fn eq(&self, other: &DeltaSet) -> (r: bool) {
        slots_equal(&self.elements, &other.elements) && im_eq(&self.keys, &other.keys) && im_eq(
            &self.committed,
            &other.committed,
        )
    }
}

impl vstd::std_specs::cmp::PartialEqSpecImpl for DeltaSet {
    open spec fn obeys_eq_spec() -> bool {
        true
    }

    open spec fn eq_spec(&self, other: &DeltaSet) -> bool {
        self@ == other@
    }
}

} // verus!
