use vstd::prelude::*;

verus! {

/// `m` after `x` more units have been allocated to `r`: the entry is created
/// with `x` when `r` had none.
pub open spec fn credited(m: Map<Seq<char>, nat>, r: Seq<char>, x: nat) -> Map<Seq<char>, nat> {
    m.insert(r, if m.contains_key(r) { m[r] + x } else { x })
}

/// The sum of a sequence of amounts.
pub open spec fn amount_sum(s: Seq<u64>) -> nat
    decreases s.len(),
{
    if s.len() == 0 {
        0
    } else {
        (amount_sum(s.drop_last()) + s.last()) as nat
    }
}

proof fn lemma_amount_sum_update(s: Seq<u64>, i: int, v: u64)
    requires
        0 <= i < s.len(),
    ensures
        amount_sum(s.update(i, v)) == amount_sum(s) - s[i] + v,
    decreases s.len(),
{
    if i == s.len() - 1 {
        assert(s.update(i, v).drop_last() =~= s.drop_last());
    } else {
        assert(s.update(i, v).drop_last() =~= s.drop_last().update(i, v));
        lemma_amount_sum_update(s.drop_last(), i, v);
    }
}

proof fn lemma_amount_le_sum(s: Seq<u64>, i: int)
    requires
        0 <= i < s.len(),
    ensures
        s[i] <= amount_sum(s),
    decreases s.len(),
{
    if i < s.len() - 1 {
        lemma_amount_le_sum(s.drop_last(), i);
    }
}

/// Cumulative allocated volume per requester. An entry is created on the
/// first allocation to a requester and never removed.
pub struct AllocationLedger {
    names: Vec<String>,
    amounts: Vec<u64>,
    entries: Ghost<Map<Seq<char>, nat>>,
}

impl View for AllocationLedger {
    type V = Map<Seq<char>, nat>;

    closed spec fn view(&self) -> Map<Seq<char>, nat> {
        self.entries@
    }
}

impl AllocationLedger {
    /// Each requester stands once, and the map view is what the two vectors
    /// hold.
    pub closed spec fn wf(&self) -> bool {
        &&& self.names@.len() == self.amounts@.len()
        &&& forall|i: int, j: int|
            0 <= i < j < self.names@.len() ==> (#[trigger] self.names@[i])@ != (
            #[trigger] self.names@[j])@
        &&& forall|i: int|
            0 <= i < self.names@.len() ==> self.entries@.contains_key((#[trigger] self.names@[i])@)
                && self.entries@[self.names@[i]@] == self.amounts@[i]
        &&& forall|r: Seq<char>|
            #[trigger] self.entries@.contains_key(r) ==> exists|i: int|
                0 <= i < self.names@.len() && (#[trigger] self.names@[i])@ == r
    }

    /// The volume allocated so far, over all requesters.
    pub closed spec fn total(&self) -> nat {
        amount_sum(self.amounts@)
    }

    pub fn new() -> (r: AllocationLedger)
        ensures
            r.wf(),
            r@ == Map::<Seq<char>, nat>::empty(),
            r.total() == 0,
    {
        AllocationLedger { names: Vec::new(), amounts: Vec::new(), entries: Ghost(Map::empty()) }
    }

    /// No single entry exceeds the total.
    pub proof fn lemma_entry_within_total(&self, r: Seq<char>)
        requires
            self.wf(),
            self@.contains_key(r),
        ensures
            self@[r] <= self.total(),
    {
        let i = choose|i: int| 0 <= i < self.names@.len() && (#[trigger] self.names@[i])@ == r;
        lemma_amount_le_sum(self.amounts@, i);
    }

    fn position(&self, requester: &String) -> (r: Option<usize>)
        requires
            self.wf(),
        ensures
            match r {
                Some(i) => i < self.names@.len() && self.names@[i as int]@ == requester@,
                None => !self@.contains_key(requester@),
            },
    {
        let n = self.names.len();
        let mut i: usize = 0;
        while i < n
            invariant
                n == self.names@.len(),
                i <= n,
                forall|j: int| 0 <= j < i ==> (#[trigger] self.names@[j])@ != requester@,
            decreases n - i,
        {
            if self.names[i] == *requester {
                return Some(i);
            }
            i = i + 1;
        }
        None
    }

    /// The cumulative allocation of `requester`, or `None` where nothing was
    /// ever allocated to it.
    pub fn get(&self, requester: &String) -> (r: Option<u64>)
        requires
            self.wf(),
        ensures
            match r {
                Some(v) => self@.contains_key(requester@) && self@[requester@] == v,
                None => !self@.contains_key(requester@),
            },
    {
        match self.position(requester) {
            Some(i) => Some(self.amounts[i]),
            None => None,
        }
    }

    /// Records `volume` more units allocated to `requester`.
    pub fn credit(&mut self, requester: &String, volume: u64)
        requires
            old(self).wf(),
            old(self).total() + volume <= u64::MAX,
        ensures
            final(self).wf(),
            final(self)@ == credited(old(self)@, requester@, volume as nat),
            final(self).total() == old(self).total() + volume,
    {
        let ghost m = self.entries@;
        match self.position(requester) {
            Some(i) => {
                proof {
                    self.lemma_entry_within_total(requester@);
                    lemma_amount_sum_update(self.amounts@, i as int, (self.amounts@[i as int] + volume) as u64);
                }
                let v = self.amounts[i] + volume;
                self.amounts.set(i, v);
                self.entries = Ghost(credited(m, requester@, volume as nat));
                assert forall|r: Seq<char>| #[trigger] self.entries@.contains_key(r) implies exists|j: int|
                    0 <= j < self.names@.len() && (#[trigger] self.names@[j])@ == r by {
                    if r != requester@ {
                        assert(m.contains_key(r));
                    } else {
                        assert(self.names@[i as int]@ == r);
                    }
                }
            },
            None => {
                let ghost old_amounts = self.amounts@;
                let ghost old_names = self.names@;
                self.names.push(requester.clone());
                self.amounts.push(volume);
                assert(self.amounts@.drop_last() =~= old_amounts);
                self.entries = Ghost(credited(m, requester@, volume as nat));
                let ghost last = self.names@.len() - 1;
                assert(self.names@[last]@ == requester@);
                assert forall|r: Seq<char>| #[trigger] self.entries@.contains_key(r) implies exists|j: int|
                    0 <= j < self.names@.len() && (#[trigger] self.names@[j])@ == r by {
                    if r != requester@ {
                        assert(m.contains_key(r));
                        let j = choose|j: int| 0 <= j < old_names.len() && (#[trigger] old_names[j])@ == r;
                        assert(self.names@[j] == old_names[j]);
                    } else {
                        assert(self.names@[last]@ == r);
                    }
                }
            },
        }
    }
}

} // verus!
