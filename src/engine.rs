use vstd::prelude::*;
use crate::book::{
    admission_slot, all_open, lemma_open_volume_insert, open_volume, outranks,
    sequences_below, Bid, BidBook, BidView,
};
use crate::ledger::{credited, AllocationLedger};

verus! {

/// Why a bid was refused.
#[derive(Debug, Clone, Copy, PartialEq, Eq)]
pub enum BidError {
    /// The bid asked for no volume.
    InvalidVolume,
}

/// What absorbing `supply` does to a book (best bid first) and to the
/// allocations: the best bid takes what it can, is removed once exhausted,
/// and the rest of the supply moves on to the next bid. The third component is
/// the supply that no bid took.
pub open spec fn absorb_model(book: Seq<BidView>, alloc: Map<Seq<char>, nat>, supply: nat) -> (
    Seq<BidView>,
    Map<Seq<char>, nat>,
    nat,
)
    decreases book.len(),
{
    if supply == 0 || book.len() == 0 {
        (book, alloc, supply)
    } else {
        let b = book[0];
        if b.volume <= supply {
            absorb_model(
                book.drop_first(),
                credited(alloc, b.requester, b.volume as nat),
                (supply - b.volume) as nat,
            )
        } else {
            (
                seq![
                    BidView {
                        requester: b.requester,
                        price: b.price,
                        volume: (b.volume - supply) as u64,
                        sequence: b.sequence,
                    },
                ] + book.drop_first(),
                credited(alloc, b.requester, supply),
                0,
            )
        }
    }
}

/// One matching pass over a book of open bids: the supply left over is at
/// most what came in, and something is left over only when the book ran dry.
/// The bids that were exhausted are gone from the front of the book; a bid
/// that was only partly filled stays at the head of what remains with its
/// requester, price and sequence, a smaller but positive volume, and the bids
/// behind it untouched. The volume that left the book is exactly the supply
/// that was taken, and no requester's allocation shrinks.
pub proof fn lemma_absorb_outcome(book: Seq<BidView>, alloc: Map<Seq<char>, nat>, supply: nat)
    requires
        all_open(book),
    ensures
        ({
            let (rest, after, left) = absorb_model(book, alloc, supply);
            let k = book.len() - rest.len();
            &&& left <= supply
            &&& left > 0 ==> rest.len() == 0
            &&& open_volume(book) == open_volume(rest) + (supply - left)
            &&& all_open(rest)
            &&& rest.len() <= book.len()
            &&& forall|i: int| 1 <= i < rest.len() ==> rest[i] == book[k + i]
            &&& rest.len() > 0 ==> {
                &&& rest[0].requester == book[k].requester
                &&& rest[0].price == book[k].price
                &&& rest[0].sequence == book[k].sequence
                &&& rest[0].volume <= book[k].volume
            }
            &&& forall|r: Seq<char>|
                #[trigger] alloc.contains_key(r) ==> after.contains_key(r) && alloc[r] <= after[r]
        }),
    decreases book.len(),
{
    if supply == 0 || book.len() == 0 {
    } else {
        let b = book[0];
        let tail = book.drop_first();
        if b.volume <= supply {
            let alloc2 = credited(alloc, b.requester, b.volume as nat);
            lemma_absorb_outcome(tail, alloc2, (supply - b.volume) as nat);
            let (rest, after, left) = absorb_model(tail, alloc2, (supply - b.volume) as nat);
            assert forall|i: int| 1 <= i < rest.len() implies rest[i] == book[(book.len()
                - rest.len()) + i] by {
                assert(rest[i] == tail[(tail.len() - rest.len()) + i]);
            }
            assert forall|r: Seq<char>| #[trigger] alloc.contains_key(r) implies after.contains_key(
                r,
            ) && alloc[r] <= after[r] by {
                assert(alloc2.contains_key(r));
            }
        } else {
            let head = BidView {
                requester: b.requester,
                price: b.price,
                volume: (b.volume - supply) as u64,
                sequence: b.sequence,
            };
            let rest = seq![head] + tail;
            assert(rest.drop_first() =~= tail);
            assert forall|i: int| 1 <= i < rest.len() implies rest[i] == book[i] by {
                assert(rest[i] == tail[i - 1]);
            }
            assert(all_open(rest)) by {
                assert forall|i: int| 0 <= i < rest.len() implies (#[trigger] rest[i]).volume > 0 by {
                    if i > 0 {
                        assert(rest[i] == book[i]);
                    }
                }
            }
        }
    }
}

/// The matching state: open bids, cumulative allocations, unmet supply, and
/// the running totals that tie them together.
pub struct MatchingEngine {
    book: BidBook,
    ledger: AllocationLedger,
    unmet: u64,
    next_sequence: u64,
    submitted: u64,
    absorbed: u64,
}

impl MatchingEngine {
    /// The open bids, best first.
    pub closed spec fn book(&self) -> Seq<BidView> {
        self.book@
    }

    /// Cumulative allocated volume per requester.
    pub closed spec fn allocations(&self) -> Map<Seq<char>, nat> {
        self.ledger@
    }

    /// The sum of all allocations.
    pub closed spec fn allocated(&self) -> nat {
        self.ledger.total()
    }

    /// Supply that arrived when no bid was left to take it.
    pub closed spec fn unmet(&self) -> nat {
        self.unmet as nat
    }

    /// The sequence number that the next admitted bid receives.
    pub closed spec fn next_sequence(&self) -> nat {
        self.next_sequence as nat
    }

    /// The volume of all bids ever admitted.
    pub closed spec fn submitted(&self) -> nat {
        self.submitted as nat
    }

    /// The volume of all supply ever absorbed.
    pub closed spec fn absorbed(&self) -> nat {
        self.absorbed as nat
    }

    pub closed spec fn wf(&self) -> bool {
        &&& self.book.wf()
        &&& self.ledger.wf()
        &&& sequences_below(self.book@, self.next_sequence)
        &&& self.ledger.total() + open_volume(self.book@) == self.submitted
        &&& self.ledger.total() + self.unmet == self.absorbed
        &&& self.next_sequence <= self.submitted
    }

    /// Conservation, in every reachable state: what was allocated plus what
    /// the open bids still want is all bid volume ever admitted; what was
    /// allocated plus the unmet supply is all supply ever absorbed. No
    /// requester holds more than the total allocated.
    pub proof fn lemma_conservation(&self)
        requires
            self.wf(),
        ensures
            self.allocated() + open_volume(self.book()) == self.submitted(),
            self.allocated() + self.unmet() == self.absorbed(),
            self.allocated() <= self.submitted(),
            self.allocated() <= self.absorbed(),
            forall|r: Seq<char>| #[trigger]
                self.allocations().contains_key(r) ==> self.allocations()[r] <= self.allocated(),
    {
        assert forall|r: Seq<char>| #[trigger]
            self.allocations().contains_key(r) implies self.allocations()[r] <= self.allocated() by {
            self.ledger.lemma_entry_within_total(r);
        }
    }

    pub fn new() -> (r: MatchingEngine)
        ensures
            r.wf(),
            r.book() == Seq::<BidView>::empty(),
            r.allocations() == Map::<Seq<char>, nat>::empty(),
            r.allocated() == 0,
            r.unmet() == 0,
            r.next_sequence() == 0,
            r.submitted() == 0,
            r.absorbed() == 0,
    {
        MatchingEngine {
            book: BidBook::new(),
            ledger: AllocationLedger::new(),
            unmet: 0,
            next_sequence: 0,
            submitted: 0,
            absorbed: 0,
        }
    }

    /// Admits a bid of `volume` units at `price` for `requester`, behind every
    /// open bid at its price or higher, and returns its sequence number.
    pub fn submit_bid(&mut self, requester: String, price: u64, volume: u64) -> (r: Result<
        u64,
        BidError,
    >)
        requires
            old(self).wf(),
            old(self).submitted() + volume <= u64::MAX,
        ensures
            final(self).wf(),
            final(self).allocations() == old(self).allocations(),
            final(self).allocated() == old(self).allocated(),
            final(self).unmet() == old(self).unmet(),
            final(self).absorbed() == old(self).absorbed(),
            volume == 0 ==> {
                &&& r == Err::<u64, BidError>(BidError::InvalidVolume)
                &&& final(self).book() == old(self).book()
                &&& final(self).next_sequence() == old(self).next_sequence()
                &&& final(self).submitted() == old(self).submitted()
            },
            volume > 0 ==> r == Ok::<u64, BidError>(old(self).next_sequence() as u64),
            volume > 0 ==> final(self).next_sequence() == old(self).next_sequence() + 1,
            volume > 0 ==> final(self).submitted() == old(self).submitted() + volume,
            volume > 0 ==> exists|k: int|
                admission_slot(old(self).book(), price, k) && final(self).book()
                    == old(self).book().insert(
                    k,
                    BidView {
                        requester: requester@,
                        price,
                        volume,
                        sequence: old(self).next_sequence() as u64,
                    },
                ),
    {
        if volume == 0 {
            return Err(BidError::InvalidVolume);
        }
        let sequence = self.next_sequence;
        let ghost req = requester@;
        let bid = Bid { requester, price, volume, sequence };
        let ghost b = bid@;
        let ghost s = self.book@;
        self.book.insert(bid);
        self.next_sequence = sequence + 1;
        self.submitted = self.submitted + volume;
        proof {
            let k = choose|k: int| admission_slot(s, price, k) && self.book@ == s.insert(k, b);
            lemma_open_volume_insert(s, k, b);
            let t = self.book@;
            assert forall|i: int| 0 <= i < t.len() implies (#[trigger] t[i]).sequence
                < self.next_sequence by {
                if i < k {
                    assert(t[i] == s[i]);
                } else if i > k {
                    assert(t[i] == s[i - 1]);
                }
            }
            assert(s == old(self).book());
            assert(req == requester@);
            assert(sequence == old(self).next_sequence() as u64);
            assert(admission_slot(s, price, k) && self.book() == s.insert(
                k,
                BidView { requester: req, price, volume, sequence },
            ));
        }
        Ok(sequence)
    }

    /// Allocates `volume` units of supply to the open bids, highest price
    /// first and earliest arrival first within a price; what no bid takes is
    /// added to the unmet supply.
    pub fn absorb_supply(&mut self, volume: u64)
        requires
            old(self).wf(),
            old(self).absorbed() + volume <= u64::MAX,
        ensures
            final(self).wf(),
            ({
                let (book, alloc, left) = absorb_model(
                    old(self).book(),
                    old(self).allocations(),
                    volume as nat,
                );
                &&& final(self).book() == book
                &&& final(self).allocations() == alloc
                &&& final(self).unmet() == old(self).unmet() + left
            }),
            final(self).absorbed() == old(self).absorbed() + volume,
            final(self).submitted() == old(self).submitted(),
            final(self).next_sequence() == old(self).next_sequence(),
    {
        let ghost book0 = self.book@;
        let ghost alloc0 = self.ledger@;
        let ghost total0 = self.ledger.total();
        let ghost unmet0 = self.unmet;
        let ghost absorbed0 = self.absorbed;
        let ghost submitted0 = self.submitted;
        let ghost next0 = self.next_sequence;
        let mut supply = volume;
        while supply > 0 && !self.book.is_empty()
            invariant
                self.book.wf(),
                self.ledger.wf(),
                sequences_below(self.book@, self.next_sequence),
                absorb_model(self.book@, self.ledger@, supply as nat) == absorb_model(
                    book0,
                    alloc0,
                    volume as nat,
                ),
                supply <= volume,
                self.ledger.total() + open_volume(self.book@) == self.submitted,
                self.ledger.total() + supply == total0 + volume,
                total0 + self.unmet == self.absorbed,
                self.unmet == unmet0,
                self.absorbed == absorbed0,
                self.submitted == submitted0,
                self.next_sequence == next0,
                self.absorbed + volume <= u64::MAX,
                self.next_sequence <= self.submitted,
            decreases self.book@.len() + supply,
        {
            let ghost s = self.book@;
            match self.book.pop_best() {
                Some(mut bid) => {
                    let ghost rest = self.book@;
                    let filled = if supply < bid.volume {
                        supply
                    } else {
                        bid.volume
                    };
                    self.ledger.credit(&bid.requester, filled);
                    bid.volume = bid.volume - filled;
                    supply = supply - filled;
                    if bid.volume > 0 {
                        proof {
                            assert forall|j: int| 0 <= j < rest.len() implies outranks(
                                bid@,
                                #[trigger] rest[j],
                            ) by {
                                assert(outranks(s[0], s[j + 1]));
                            }
                        }
                        self.book.push_best(bid);
                        assert((seq![bid@] + rest).drop_first() =~= rest);
                    }
                },
                None => {},
            }
        }
        if supply > 0 {
            self.unmet = self.unmet + supply;
        }
        self.absorbed = self.absorbed + volume;
    }

    /// The cumulative allocation of `requester`, or `None` where no volume
    /// was ever allocated to it.
    pub fn get_allocation(&self, requester: &String) -> (r: Option<u64>)
        requires
            self.wf(),
        ensures
            match r {
                Some(v) => self.allocations().contains_key(requester@) && self.allocations()[requester@] == v,
                None => !self.allocations().contains_key(requester@),
            },
    {
        self.ledger.get(requester)
    }

    /// The supply that arrived when no bid was left to take it.
    pub fn unmet_supply(&self) -> (r: u64)
        ensures
            r == self.unmet(),
    {
        self.unmet
    }

    /// The volume of all bids admitted so far.
    pub fn submitted_volume(&self) -> (r: u64)
        ensures
            r == self.submitted(),
    {
        self.submitted
    }

    /// The volume of all supply absorbed so far.
    pub fn absorbed_volume(&self) -> (r: u64)
        ensures
            r == self.absorbed(),
    {
        self.absorbed
    }

    /// The number of open bids.
    pub fn open_bid_count(&self) -> (r: usize)
        ensures
            r == self.book().len(),
    {
        self.book.len()
    }
}

} // verus!
