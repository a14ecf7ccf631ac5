//! Bookkeeping of the joint Gaussian estimator's state layout.
//!
//! The state vector is ordered `[x, y, theta, landmark 0, landmark 1, ...]`,
//! two entries per landmark, in the order in which landmarks were first
//! observed. The index maps each landmark's external id to the offset of its
//! `x` entry. It only ever grows: an id keeps its offset for the lifetime of
//! the estimator.
use vstd::prelude::*;
use std::collections::HashMap;

verus! {

broadcast use vstd::std_specs::hash::group_hash_axioms;

/// Entries of the pose at the head of the state vector.
pub const POSE_DIM: usize = 3;

/// Offset of the `k`-th registered landmark in the state vector.
pub open spec fn slot_offset(k: int) -> int {
    POSE_DIM + 2 * k
}

/// Length of a state vector that holds `n` landmarks.
pub open spec fn state_len_for(n: int) -> int {
    POSE_DIM + 2 * n
}

/// What an observation of a landmark asks of the estimator.
#[derive(Clone, Copy, Debug, PartialEq, Eq, Structural)]
pub enum Association {
    /// First sighting: the state grew by two entries at this offset.
    Initialize(usize),
    /// Known landmark, stored at this offset.
    Correct(usize),
}

/// Landmark ids in order of first sighting, each with its state offset.
pub struct LandmarkIndex {
    offsets: HashMap<usize, usize>,
    ids: Vec<usize>,
}

impl View for LandmarkIndex {
    type V = Seq<usize>;

    /// The registered ids, in order of first sighting.
    closed spec fn view(&self) -> Seq<usize> {
        self.ids@
    }
}

impl LandmarkIndex {
    /// The map and the list agree, no id is listed twice, the `k`-th id sits
    /// at `slot_offset(k)`, and the state length fits in a `usize`.
    pub closed spec fn wf(&self) -> bool {
        &&& self.ids@.no_duplicates()
        &&& forall|id: usize| #[trigger] self.offsets@.contains_key(id) <==> self.ids@.contains(id)
        &&& forall|k: int|
            0 <= k < self.ids@.len() ==> self.offsets@[#[trigger] self.ids@[k]] == slot_offset(k)
        &&& state_len_for(self.ids@.len() as int) <= usize::MAX
    }

    /// An index with no landmark.
    pub fn new() -> (r: Self)
        ensures
            r.wf(),
            r@ == Seq::<usize>::empty(),
    {
        LandmarkIndex { offsets: HashMap::new(), ids: Vec::new() }
    }

    /// Number of registered landmarks.
    pub fn len(&self) -> (r: usize)
        requires
            self.wf(),
        ensures
            r == self@.len(),
    {
        self.ids.len()
    }

    /// Length of the state vector: the pose and two entries per landmark.
    pub fn state_len(&self) -> (r: usize)
        requires
            self.wf(),
        ensures
            r == state_len_for(self@.len() as int),
    {
        POSE_DIM + 2 * self.ids.len()
    }

    /// Offset of a landmark's entries, if it was ever observed.
    pub fn offset_of(&self, id: usize) -> (r: Option<usize>)
        requires
            self.wf(),
        ensures
            match r {
                Some(o) => exists|k: int|
                    0 <= k < self@.len() && self@[k] == id && #[trigger] slot_offset(k) == o,
                None => !self@.contains(id),
            },
    {
        match self.offsets.get(&id) {
            Some(o) => {
                let o = *o;
                proof {
                    let k = self.ids@.index_of(id);
                    assert(self.ids@[k] == id);
                    assert(slot_offset(k) == o);
                }
                Some(o)
            },
            None => None,
        }
    }

    /// Associates an observed id with the state: a known id is corrected at
    /// its offset; a new one is appended, and initialized at the end of the
    /// state vector.
    pub fn locate(&mut self, id: usize) -> (r: Association)
        requires
            old(self).wf(),
            state_len_for(old(self)@.len() + 1int) <= usize::MAX,
        ensures
            final(self).wf(),
            old(self)@.contains(id) ==> {
                &&& final(self)@ == old(self)@
                &&& exists|k: int|
                    0 <= k < old(self)@.len() && old(self)@[k] == id && r == Association::Correct(
                        #[trigger] slot_offset(k) as usize,
                    )
            },
            !old(self)@.contains(id) ==> {
                &&& final(self)@ == old(self)@.push(id)
                &&& r == Association::Initialize(state_len_for(old(self)@.len() as int) as usize)
            },
    {
        match self.offset_of(id) {
            Some(o) => Association::Correct(o),
            None => {
                let o = POSE_DIM + 2 * self.ids.len();
                let ghost before = self.ids@;
                self.offsets.insert(id, o);
                self.ids.push(id);
                proof {
                    assert(self.ids@ == before.push(id));
                    assert forall|x: usize| #[trigger]
                        self.offsets@.contains_key(x) <==> self.ids@.contains(x) by {
                        if x != id && before.contains(x) {
                            let k = before.index_of(x);
                            assert(self.ids@[k] == x);
                        }
                        if self.ids@.contains(x) && x != id {
                            let k = self.ids@.index_of(x);
                            assert(k < before.len());
                            assert(before[k] == x);
                        }
                        assert(self.ids@[before.len() as int] == id);
                    }
                    assert forall|k: int| 0 <= k < self.ids@.len() implies self.offsets@[
                        #[trigger] self.ids@[k]] == slot_offset(k) by {
                        if k < before.len() {
                            assert(before[k] != id);
                        }
                    }
                }
                Association::Initialize(o)
            },
        }
    }

    /// No id is registered twice, so ids and offsets correspond one to one.
    pub proof fn lemma_registered_once(&self)
        requires
            self.wf(),
        ensures
            self@.no_duplicates(),
            forall|a: int, b: int|
                0 <= a < self@.len() && 0 <= b < self@.len() && self@[a] == self@[b] ==> a == b,
    {
    }

    /// Each registered id with its offset, in order of first sighting.
    pub fn entries(&self) -> (r: Vec<(usize, usize)>)
        requires
            self.wf(),
        ensures
            r@.len() == self@.len(),
            forall|k: int| 0 <= k < r@.len() ==> #[trigger] r@[k] == (self@[k], slot_offset(k) as usize),
    {
        let mut r: Vec<(usize, usize)> = Vec::new();
        let mut k: usize = 0;
        while k < self.ids.len()
            invariant
                self.wf(),
                k <= self.ids@.len(),
                r@.len() == k,
                forall|i: int| 0 <= i < k ==> #[trigger] r@[i] == (self@[i], slot_offset(i) as usize),
            decreases self.ids@.len() - k,
        {
            r.push((self.ids[k], POSE_DIM + 2 * k));
            k = k + 1;
        }
        r
    }
}

} // verus!
