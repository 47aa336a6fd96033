use vstd::prelude::*;
use std::collections::VecDeque;

verus! {

/// What a bid is, as plain values.
pub struct BidView {
    pub requester: Seq<char>,
    pub price: u64,
    pub volume: u64,
    pub sequence: u64,
}

/// An open demand request: `volume` units wanted by `requester` at `price`.
/// `sequence` is the admission order and breaks ties between equal prices.
pub struct Bid {
    pub requester: String,
    pub price: u64,
    pub volume: u64,
    pub sequence: u64,
}

impl View for Bid {
    type V = BidView;

    open spec fn view(&self) -> BidView {
        BidView {
            requester: self.requester@,
            price: self.price,
            volume: self.volume,
            sequence: self.sequence,
        }
    }
}

/// `a` is served before `b`: a higher price, or the same price and an
/// earlier arrival.
pub open spec fn outranks(a: BidView, b: BidView) -> bool {
    a.price > b.price || (a.price == b.price && a.sequence < b.sequence)
}

/// Bids listed strictly in the order in which supply reaches them.
pub open spec fn in_priority_order(s: Seq<BidView>) -> bool {
    forall|i: int, j: int| 0 <= i < j < s.len() ==> #[trigger] outranks(s[i], s[j])
}

/// No bid of `s` is exhausted.
pub open spec fn all_open(s: Seq<BidView>) -> bool {
    forall|i: int| 0 <= i < s.len() ==> (#[trigger] s[i]).volume > 0
}

/// Every bid of `s` was admitted before sequence number `next`.
pub open spec fn sequences_below(s: Seq<BidView>, next: u64) -> bool {
    forall|i: int| 0 <= i < s.len() ==> (#[trigger] s[i]).sequence < next
}

/// `k` is where a new bid at `price` joins `s`: after every bid at a price at
/// least as high (so last among its own price group), before every lower one.
pub open spec fn admission_slot(s: Seq<BidView>, price: u64, k: int) -> bool {
    &&& 0 <= k <= s.len()
    &&& forall|j: int| 0 <= j < k ==> (#[trigger] s[j]).price >= price
    &&& forall|j: int| k <= j < s.len() ==> (#[trigger] s[j]).price < price
}

/// The total volume still wanted by the bids of `s`.
pub open spec fn open_volume(s: Seq<BidView>) -> nat
    decreases s.len(),
{
    if s.len() == 0 {
        0
    } else {
        (s[0].volume + open_volume(s.drop_first())) as nat
    }
}

/// Inserting a bid adds its volume to the open volume.
pub proof fn lemma_open_volume_insert(s: Seq<BidView>, k: int, b: BidView)
    requires
        0 <= k <= s.len(),
    ensures
        open_volume(s.insert(k, b)) == open_volume(s) + b.volume,
    decreases k,
{
    if k == 0 {
        assert(s.insert(0, b).drop_first() =~= s);
    } else {
        assert(s.insert(k, b).drop_first() =~= s.drop_first().insert(k - 1, b));
        lemma_open_volume_insert(s.drop_first(), k - 1, b);
    }
}

/// The bid ledger: the open bids, best first. Bids of one price form a
/// contiguous group, in arrival order.
pub struct BidBook {
    bids: VecDeque<Bid>,
}

impl View for BidBook {
    type V = Seq<BidView>;

    closed spec fn view(&self) -> Seq<BidView> {
        self.bids@.map_values(|b: Bid| b@)
    }
}

impl BidBook {
    /// The book is in priority order and holds no exhausted bid.
    pub open spec fn wf(&self) -> bool {
        in_priority_order(self@) && all_open(self@)
    }

    pub fn new() -> (r: BidBook)
        ensures
            r@ == Seq::<BidView>::empty(),
            r.wf(),
    {
        let r = BidBook { bids: VecDeque::new() };
        assert(r@ =~= Seq::<BidView>::empty());
        r
    }

    pub fn len(&self) -> (r: usize)
        ensures
            r == self@.len(),
    {
        self.bids.len()
    }

    pub fn is_empty(&self) -> (r: bool)
        ensures
            r == (self@.len() == 0),
    {
        self.bids.len() == 0
    }

    /// Admits `bid` behind every bid at its price or higher.
    pub fn insert(&mut self, bid: Bid)
        requires
            old(self).wf(),
            bid.volume > 0,
            sequences_below(old(self)@, bid.sequence),
        ensures
            final(self).wf(),
            exists|k: int|
                admission_slot(old(self)@, bid.price, k) && final(self)@ == old(self)@.insert(
                    k,
                    bid@,
                ),
    {
        let ghost s = self@;
        let n = self.bids.len();
        let mut i: usize = 0;
        while i < n && self.bids[i].price >= bid.price
            invariant
                n == self.bids@.len(),
                s == self@,
                i <= n,
                forall|j: int| 0 <= j < i ==> (#[trigger] s[j]).price >= bid.price,
            decreases n - i,
        {
            i = i + 1;
        }
        assert forall|j: int| i <= j < s.len() implies (#[trigger] s[j]).price < bid.price by {
            if j > i {
                assert(outranks(s[i as int], s[j]));
            }
        }
        let ghost b = bid@;
        self.bids.insert(i, bid);
        assert(self@ =~= s.insert(i as int, b));
        assert(admission_slot(s, b.price, i as int));
        let ghost t = self@;
        assert forall|x: int, y: int| 0 <= x < y < t.len() implies #[trigger] outranks(
            t[x],
            t[y],
        ) by {
            if x < i && y > i {
                assert(outranks(s[x], s[y - 1]));
            } else if y > i && x > i {
                assert(outranks(s[x - 1], s[y - 1]));
            } else if y < i {
                assert(outranks(s[x], s[y]));
            }
        }
        assert(all_open(t));
    }

    /// Takes the best bid out of the book.
    pub fn pop_best(&mut self) -> (r: Option<Bid>)
        requires
            old(self).wf(),
        ensures
            final(self).wf(),
            old(self)@.len() == 0 ==> r is None && final(self)@ == old(self)@,
            old(self)@.len() > 0 ==> r is Some && r->0@ == old(self)@[0] && final(self)@
                == old(self)@.drop_first(),
    {
        let ghost s = self@;
        let r = self.bids.pop_front();
        assert(s.len() > 0 ==> self@ =~= s.drop_first());
        r
    }

    /// Puts back a bid that outranks every bid in the book.
    pub fn push_best(&mut self, bid: Bid)
        requires
            old(self).wf(),
            bid.volume > 0,
            forall|j: int| 0 <= j < old(self)@.len() ==> outranks(bid@, #[trigger] old(self)@[j]),
        ensures
            final(self).wf(),
            final(self)@ == seq![bid@] + old(self)@,
    {
        let ghost s = self@;
        let ghost b = bid@;
        self.bids.push_front(bid);
        assert(self@ =~= seq![b] + s);
        let ghost t = self@;
        assert forall|x: int, y: int| 0 <= x < y < t.len() implies #[trigger] outranks(
            t[x],
            t[y],
        ) by {
            if x > 0 {
                assert(outranks(s[x - 1], s[y - 1]));
            } else {
                assert(outranks(b, s[y - 1]));
            }
        }
    }
}

} // verus!
