use vstd::prelude::*;

verus! {

/// Airtable accepts at most this many records in one create or update request.
pub const MAX_RECORDS_PER_REQUEST: usize = 10;

/// How many requests writing `len` records takes: `len / 10`, rounded up.
pub open spec fn batch_count(len: nat) -> nat {
    ((len + 9) / 10) as nat
}

/// The index range `[start, end)` of the `k`-th batch of `len` records: ten
/// records from `10 * k`, fewer in the last batch.
pub open spec fn batch_range(len: nat, k: nat) -> (nat, nat) {
    let start = 10 * k;
    let end = if start + 10 <= len { start + 10 } else { len };
    (start, end as nat)
}

/// The batches of `len` records, in order.
pub open spec fn batch_ranges_of(len: nat) -> Seq<(usize, usize)> {
    Seq::new(
        batch_count(len),
        |k: int| (batch_range(len, k as nat).0 as usize, batch_range(len, k as nat).1 as usize),
    )
}

/// Splits `len` records into the index ranges of the requests that write them:
/// consecutive ranges of ten, the last one shorter.
pub fn batch_ranges(len: usize) -> (ranges: Vec<(usize, usize)>)
    ensures
        ranges@ == batch_ranges_of(len as nat),
{
    let mut ranges: Vec<(usize, usize)> = Vec::new();
    let mut start: usize = 0;
    while start < len
        invariant
            start <= len,
            start < len ==> start % 10 == 0,
            ranges@.len() == batch_count(start as nat),
            ranges@ == batch_ranges_of(len as nat).take(ranges@.len() as int),
        decreases len - start,
    {
        let end: usize = if len - start >= MAX_RECORDS_PER_REQUEST {
            start + MAX_RECORDS_PER_REQUEST
        } else {
            len
        };
        proof {
            let k: nat = ranges@.len();
            assert(10 * k == start);
            assert(k < batch_count(len as nat));
            assert(batch_ranges_of(len as nat)[k as int] == (start, end));
            assert(batch_ranges_of(len as nat).take(k + 1 as int) =~= batch_ranges_of(
                len as nat,
            ).take(k as int).push((start, end)));
            assert(batch_count(end as nat) == k + 1);
        }
        ranges.push((start, end));
        start = end;
    }
    proof {
        assert(batch_ranges_of(len as nat).take(ranges@.len() as int) =~= batch_ranges_of(
            len as nat,
        ));
    }
    ranges
}

/// The batches of `len` records cover every index once, in order: each batch
/// is non-empty, holds at most ten records, starts where the one before it
/// ended, the first starts at 0 and the last ends at `len`.
pub proof fn lemma_batches_partition(len: nat)
    ensures
        len == 0 <==> batch_count(len) == 0,
        forall|k: nat|
            k < batch_count(len) ==> {
                let (s, e) = #[trigger] batch_range(len, k);
                s < e <= len && e - s <= 10
            },
        forall|k: nat|
            k + 1 < batch_count(len) ==> #[trigger] batch_range(len, k + 1).0 == batch_range(
                len,
                k,
            ).1,
        batch_count(len) > 0 ==> batch_range(len, 0).0 == 0 && batch_range(
            len,
            (batch_count(len) - 1) as nat,
        ).1 == len,
{
    assert forall|k: nat| k < batch_count(len) implies {
        let (s, e) = #[trigger] batch_range(len, k);
        s < e <= len && e - s <= 10
    } by {
        assert(10 * k < len);
    }
    assert forall|k: nat| k + 1 < batch_count(len) implies #[trigger] batch_range(
        len,
        k + 1,
    ).0 == batch_range(len, k).1 by {
        assert(10 * (k + 1) < len);
    }
    if batch_count(len) > 0 {
        let last = (batch_count(len) - 1) as nat;
        assert(10 * last < len);
        assert(10 * last + 10 >= len);
    }
}

/// The progress of writing a list of records in batches: which batch goes
/// next, and the records that the requests sent so far gave back.
pub struct BatchedWrite<R> {
    len: usize,
    ranges: Vec<(usize, usize)>,
    next: usize,
    returned: Vec<R>,
}

impl<R> BatchedWrite<R> {
    #[verifier::type_invariant]
    spec fn batches_planned(&self) -> bool {
        &&& self.ranges@ == batch_ranges_of(self.len as nat)
        &&& self.next <= self.ranges@.len()
    }

    /// How many records are written.
    pub closed spec fn total(&self) -> nat {
        self.len as nat
    }

    /// How many batches have been answered so far.
    pub closed spec fn answered(&self) -> nat {
        self.next as nat
    }

    /// The records that the answered requests gave back, in order.
    pub closed spec fn returned(&self) -> Seq<R> {
        self.returned@
    }

    /// Whether every batch has been answered.
    pub open spec fn done(&self) -> bool {
        self.answered() >= batch_count(self.total())
    }

    /// Plans the writing of `len` records: no batch answered yet.
    pub fn new(len: usize) -> (w: Self)
        ensures
            w.total() == len,
            w.total() <= usize::MAX,
            w.answered() == 0,
            w.returned() == Seq::<R>::empty(),
    {
        BatchedWrite { len, ranges: batch_ranges(len), next: 0, returned: Vec::new() }
    }

    /// The index range of the records to send next, or `None` once every batch
    /// has been answered.
    pub fn next_batch(&self) -> (range: Option<(usize, usize)>)
        ensures
            self.done() ==> range is None,
            !self.done() ==> range == Some(
                (
                    batch_range(self.total(), self.answered()).0 as usize,
                    batch_range(self.total(), self.answered()).1 as usize,
                ),
            ),
    {
        proof {
            use_type_invariant(self);
        }
        if self.next < self.ranges.len() {
            Some(self.ranges[self.next])
        } else {
            None
        }
    }

    /// Takes in the records that the answer to the current batch gave back.
    pub fn record_answer(&mut self, records: Vec<R>)
        requires
            !old(self).done(),
        ensures
            final(self).total() == old(self).total(),
            final(self).answered() == old(self).answered() + 1,
            final(self).returned() == old(self).returned() + records@,
    {
        proof {
            use_type_invariant(&*self);
        }
        let mut records = records;
        let mut returned: Vec<R> = Vec::new();
        std::mem::swap(&mut returned, &mut self.returned);
        returned.append(&mut records);
        self.returned = returned;
        self.next = self.next + 1;
    }

    /// Whether every batch has been answered.
    pub fn is_done(&self) -> (d: bool)
        ensures
            d == self.done(),
    {
        proof {
            use_type_invariant(self);
        }
        self.next >= self.ranges.len()
    }

    /// The records that all answers gave back, in order.
    pub fn into_returned(self) -> (records: Vec<R>)
        ensures
            records@ == self.returned(),
    {
        self.returned
    }
}

} // verus!
