//! Tracking of the splits in flight. Uncontrolled parallel writes into the
//! same output directory for the same book must not happen, so at most one
//! split per book id may run at a time, and the configured concurrency
//! ceiling bounds how many run simultaneously. The loops share one value of
//! this type, under their own exclusion primitive, and ask it before and
//! after each split.

use vstd::prelude::*;

verus! {

/// The set of book ids whose splits are running, bounded by the concurrency
/// ceiling.
pub struct InflightSet {
    ids: Vec<i32>,
    limit: usize,
}

impl InflightSet {
    /// The ids in flight.
    pub closed spec fn view(&self) -> Set<int> {
        self.ids@.map_values(|id: i32| id as int).to_set()
    }

    /// The configured ceiling.
    pub closed spec fn limit(&self) -> int {
        self.limit as int
    }

    /// Internal consistency: ids are listed once each, within the ceiling.
    pub closed spec fn wf(&self) -> bool {
        &&& forall|i: int, j: int|
            0 <= i < j < self.ids@.len() ==> self.ids@[i] != self.ids@[j]
        &&& self.ids@.len() <= self.limit
    }

    /// How many splits are in flight.
    pub closed spec fn spec_len(&self) -> int {
        self.ids@.len() as int
    }

    /// An empty tracker with the given ceiling.
    pub fn new(limit: usize) -> (r: InflightSet)
        ensures
            r.wf(),
            r@ == Set::<int>::empty(),
            r.limit() == limit,
            r.spec_len() == 0,
    {
        let r = InflightSet { ids: Vec::new(), limit };
        proof {
            assert(r.ids@.map_values(|id: i32| id as int) =~= Seq::<int>::empty());
            assert(r@ =~= Set::<int>::empty());
        }
        r
    }

    fn position_of(&self, id: i32) -> (r: Option<usize>)
        ensures
            match r {
                Some(i) => i < self.ids@.len() && self.ids@[i as int] == id,
                None => !self@.contains(id as int),
            },
    {
        let mut i: usize = 0;
        while i < self.ids.len()
            invariant
                i <= self.ids@.len(),
                forall|j: int| 0 <= j < i ==> self.ids@[j] != id,
            decreases self.ids@.len() - i,
        {
            if self.ids[i] == id {
                return Some(i);
            }
            i += 1;
        }
        proof {
            let m = self.ids@.map_values(|x: i32| x as int);
            if self@.contains(id as int) {
                let k = choose|k: int| 0 <= k < m.len() && m[k] == id as int;
                assert(self.ids@[k] == id);
            }
        }
        None
    }

    /// Asks to start a split for `id`. Granted only when no split for `id`
    /// is in flight and the ceiling leaves room; when granted, `id` is in
    /// flight until `finish(id)`.
    pub fn try_begin(&mut self, id: i32) -> (granted: bool)
        requires
            old(self).wf(),
        ensures
            final (self).wf(),
            final (self).limit() == old(self).limit(),
            granted ==> {
                &&& !old(self)@.contains(id as int)
                &&& old(self).spec_len() < old(self).limit()
                &&& final (self)@ == old(self)@.insert(id as int)
                &&& final (self).spec_len() == old(self).spec_len() + 1
            },
            !granted ==> {
                &&& old(self)@.contains(id as int) || old(self).spec_len() == old(self).limit()
                &&& final (self)@ == old(self)@
                &&& final (self).spec_len() == old(self).spec_len()
            },
    {
        if self.ids.len() >= self.limit {
            return false;
        }
        match self.position_of(id) {
            Some(i) => {
                proof {
                    let m = self.ids@.map_values(|x: i32| x as int);
                    assert(m[i as int] == id as int);
                }
                false
            },
            None => {
                let ghost before = self.ids@;
                self.ids.push(id);
                proof {
                    let mb = before.map_values(|x: i32| x as int);
                    let ma = self.ids@.map_values(|x: i32| x as int);
                    assert(ma =~= mb.push(id as int));
                    assert forall|x: int| ma.to_set().contains(x) implies mb.to_set().insert(
                        id as int,
                    ).contains(x) by {
                        let k = choose|k: int| 0 <= k < ma.len() && ma[k] == x;
                        if k < mb.len() {
                            assert(mb[k] == x);
                        }
                    }
                    assert forall|x: int| mb.to_set().insert(id as int).contains(x) implies ma
                        .to_set().contains(x) by {
                        if x == id as int {
                            assert(ma[ma.len() - 1] == x);
                        } else {
                            let k = choose|k: int| 0 <= k < mb.len() && mb[k] == x;
                            assert(ma[k] == x);
                        }
                    }
                    assert(ma.to_set() =~= mb.to_set().insert(id as int));
                    assert forall|i: int, j: int|
                        0 <= i < j < self.ids@.len() implies self.ids@[i] != self.ids@[j] by {
                        if j < self.ids@.len() - 1 {
                            assert(before[i] != before[j]);
                        } else {
                            assert(!mb.to_set().contains(id as int));
                            assert(mb[i] == before[i] as int);
                        }
                    }
                }
                true
            },
        }
    }

    /// Records that the split for `id` finished, well or badly: `id` is no
    /// longer in flight.
    pub fn finish(&mut self, id: i32)
        requires
            old(self).wf(),
        ensures
            final (self).wf(),
            final (self).limit() == old(self).limit(),
            final (self)@ == old(self)@.remove(id as int),
    {
        let pos = self.position_of(id);
        match pos {
            Some(i) => {
                let ghost before = self.ids@;
                self.ids.remove(i);
                proof {
                    let mb = before.map_values(|x: i32| x as int);
                    let ma = self.ids@.map_values(|x: i32| x as int);
                    assert(self.ids@ =~= before.remove(i as int));
                    assert(ma =~= mb.remove(i as int));
                    assert forall|x: int| ma.to_set().contains(x) implies mb.to_set().remove(
                        id as int,
                    ).contains(x) by {
                        let k = choose|k: int| 0 <= k < ma.len() && ma[k] == x;
                        if k < i {
                            assert(mb[k] == x);
                            assert(before[k] != before[i as int]);
                        } else {
                            assert(mb[k + 1] == x);
                            assert(before[k + 1] != before[i as int]);
                        }
                    }
                    assert forall|x: int| mb.to_set().remove(id as int).contains(x) implies ma
                        .to_set().contains(x) by {
                        let k = choose|k: int| 0 <= k < mb.len() && mb[k] == x;
                        assert(before[k] as int == x && x != id as int);
                        if k < i {
                            assert(ma[k] == x);
                        } else {
                            assert(k != i);
                            assert(ma[k - 1] == x);
                        }
                    }
                    assert(ma.to_set() =~= mb.to_set().remove(id as int));
                }
            },
            None => {
                proof {
                    assert(self@ =~= self@.remove(id as int));
                }
            },
        }
    }

    /// How many splits are in flight.
    pub fn len(&self) -> (r: usize)
        ensures
            r == self.spec_len(),
    {
        self.ids.len()
    }
}

} // verus!
