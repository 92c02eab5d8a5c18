//! Short network ids for uuids: the registered uuids kept in order, a uuid's id being its
//! place among them, so that peers that registered the same uuids agree on the ids.
use std::marker::PhantomData;
use vstd::prelude::*;

verus! {

/// The uuids are in strictly increasing order.
pub open spec fn strictly_increasing(s: Seq<u128>) -> bool {
    forall|i: int, j: int| 0 <= i < j < s.len() ==> s[i] < s[j]
}

/// Where `uuid` goes among sorted uuids: the number of uuids below it.
pub open spec fn insertion_point(s: Seq<u128>, uuid: u128) -> int
    decreases s.len(),
{
    if s.len() == 0 {
        0
    } else if s.last() < uuid {
        s.len() as int
    } else {
        insertion_point(s.drop_last(), uuid)
    }
}

/// Maps uuids (of kind `T`) to short ids to save network bandwidth.
pub struct NetworkRegistry<T> {
    entries: Vec<u128>,
    phantom: PhantomData<T>,
}

impl<T> NetworkRegistry<T> {
    /// The registered uuids, in increasing order.
    pub closed spec fn entries_view(&self) -> Seq<u128> {
        self.entries@
    }

    /// The registered uuids are sorted and distinct, and there are fewer than `u16::MAX`.
    pub open spec fn well_formed(&self) -> bool {
        strictly_increasing(self.entries_view()) && self.entries_view().len() <= u16::MAX
    }

    /// A registry with nothing registered.
    pub fn new() -> (r: Self)
        ensures
            r.well_formed(),
            r.entries_view() == Seq::<u128>::empty(),
    {
        NetworkRegistry { entries: Vec::new(), phantom: PhantomData }
    }

    /// Finds `uuid` among the sorted entries: `Ok` with its place, or `Err` with where it would go.
    fn search(&self, uuid: u128) -> (r: Result<usize, usize>)
        requires
            strictly_increasing(self.entries_view()),
        ensures
            match r {
                Ok(i) => i < self.entries_view().len() && self.entries_view()[i as int] == uuid,
                Err(i) => i <= self.entries_view().len() && !self.entries_view().contains(uuid)
                    && forall|j: int| 0 <= j < i ==> self.entries_view()[j] < uuid,
            },
            r matches Err(i) ==> forall|j: int| i <= j < self.entries_view().len() ==> self.entries_view()[j] > uuid,
    {
        let mut lo: usize = 0;
        let mut hi: usize = self.entries.len();
        while lo < hi
            invariant
                strictly_increasing(self.entries_view()),
                lo <= hi <= self.entries.len(),
                forall|j: int| 0 <= j < lo ==> self.entries@[j] < uuid,
                forall|j: int| hi <= j < self.entries.len() ==> self.entries@[j] > uuid,
            decreases hi - lo,
        {
            let mid = lo + (hi - lo) / 2;
            if self.entries[mid] == uuid {
                return Ok(mid);
            } else if self.entries[mid] < uuid {
                lo = mid + 1;
            } else {
                hi = mid;
            }
        }
        Err(lo)
    }

    /// Registers `uuid`, keeping the entries sorted. Gives whether it was new. There
    /// may be fewer than `u16::MAX` uuids.
    pub fn register(&mut self, uuid: u128) -> (r: bool)
        requires
            old(self).well_formed(),
            old(self).entries_view().len() < u16::MAX,
        ensures
            final(self).well_formed(),
            r == !old(self).entries_view().contains(uuid),
            final(self).entries_view().to_set() == old(self).entries_view().to_set().insert(uuid),
            r ==> final(self).entries_view() == old(self).entries_view().insert(
                insertion_point(old(self).entries_view(), uuid),
                uuid,
            ),
            !r ==> final(self).entries_view() == old(self).entries_view(),
    {
        match self.search(uuid) {
            Ok(_) => {
                assert(old(self).entries_view().to_set().insert(uuid) =~= old(self).entries_view().to_set());
                false
            },
            Err(pos) => {
                proof {
                    lemma_insertion_point(self.entries_view(), uuid, pos as int);
                }
                let ghost before = self.entries_view();
                self.entries.insert(pos, uuid);
                assert forall|i: int, j: int| 0 <= i < j < self.entries_view().len() implies self.entries_view()[i]
                    < self.entries_view()[j] by {
                    if j < pos {
                    } else if i < pos && j == pos {
                    } else if i < pos {
                        assert(self.entries_view()[j] == before[j - 1]);
                    } else if i == pos {
                        assert(self.entries_view()[j] == before[j - 1]);
                    } else {
                        assert(self.entries_view()[i] == before[i - 1]);
                        assert(self.entries_view()[j] == before[j - 1]);
                    }
                }
                assert(self.entries_view().to_set() =~= before.to_set().insert(uuid)) by {
                    assert forall|x: u128| self.entries_view().to_set().contains(x) implies before.to_set().insert(uuid).contains(x) by {
                        let k = choose|k: int| 0 <= k < self.entries_view().len() && self.entries_view()[k] == x;
                        if k < pos {
                            assert(before[k] == x);
                        } else if k > pos {
                            assert(before[k - 1] == x);
                        }
                    }
                    assert forall|x: u128| before.to_set().insert(uuid).contains(x) implies self.entries_view().to_set().contains(x) by {
                        if x == uuid {
                            assert(self.entries_view()[pos as int] == x);
                        } else {
                            let k = choose|k: int| 0 <= k < before.len() && before[k] == x;
                            if k < pos {
                                assert(self.entries_view()[k] == x);
                            } else {
                                assert(self.entries_view()[k + 1] == x);
                            }
                        }
                    }
                }
                true
            },
        }
    }

    /// The id of a registered uuid: its place among the registered uuids.
    pub fn get_id(&self, uuid: u128) -> (r: Option<u16>)
        requires
            self.well_formed(),
        ensures
            match r {
                Some(id) => id < self.entries_view().len() && self.entries_view()[id as int] == uuid,
                None => !self.entries_view().contains(uuid),
            },
    {
        match self.search(uuid) {
            Ok(i) => Some(i as u16),
            Err(_) => None,
        }
    }

    /// The uuid with the given id.
    pub fn get_uuid(&self, id: u16) -> (r: Option<&u128>)
        ensures
            match r {
                Some(u) => id < self.entries_view().len() && *u == self.entries_view()[id as int],
                None => id >= self.entries_view().len(),
            },
    {
        if (id as usize) < self.entries.len() {
            Some(&self.entries[id as usize])
        } else {
            None
        }
    }
}

proof fn lemma_insertion_point(s: Seq<u128>, uuid: u128, pos: int)
    requires
        strictly_increasing(s),
        0 <= pos <= s.len(),
        forall|j: int| 0 <= j < pos ==> s[j] < uuid,
        forall|j: int| pos <= j < s.len() ==> s[j] > uuid,
    ensures
        insertion_point(s, uuid) == pos,
    decreases s.len(),
{
    if s.len() > 0 {
        if pos < s.len() {
            lemma_insertion_point(s.drop_last(), uuid, pos);
        }
    }
}

/// The id of a registered uuid leads back to it, and the uuid with an id has that id.
pub proof fn lemma_ids_round_trip<T>(r: NetworkRegistry<T>, id: int)
    requires
        r.well_formed(),
        0 <= id < r.entries_view().len(),
    ensures
        forall|j: int| 0 <= j < r.entries_view().len() && r.entries_view()[j] == r.entries_view()[id] ==> j == id,
{
}

} // verus!
