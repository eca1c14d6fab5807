//! How the producer splits the items of its input into batches.

use std::ops::Range;
use vstd::prelude::*;

verus! {

/// The number of batches of `breakup` items that hold `total` items: the
/// ceiling of `total / breakup`, and never fewer than one.
pub open spec fn batch_count(total: int, breakup: int) -> int {
    let needed = (total + breakup - 1) / breakup;
    if needed < 1 {
        1
    } else {
        needed
    }
}

/// The offset of the first item of batch number `idx` (batches count from 1).
pub open spec fn batch_start(idx: int, breakup: int) -> int {
    (idx - 1) * breakup
}

proof fn lemma_batch_count(total: int, breakup: int)
    requires
        0 <= total,
        0 < breakup,
    ensures
        total < breakup ==> batch_count(total, breakup) == 1,
        total >= breakup && total % breakup > 0 ==> batch_count(total, breakup) == total
            / breakup + 1,
        total >= breakup && total % breakup == 0 ==> batch_count(total, breakup) == total
            / breakup,
        total > 0 ==> (batch_count(total, breakup) - 1) * breakup < total,
        total <= batch_count(total, breakup) * breakup,
{
    let q = total / breakup;
    let r = total % breakup;
    assert(total == q * breakup + r && 0 <= r < breakup) by (nonlinear_arith)
        requires
            0 <= total,
            0 < breakup,
            q == total / breakup,
            r == total % breakup,
    ;
    let needed = (total + breakup - 1) / breakup;
    if r > 0 {
        assert(needed == q + 1) by (nonlinear_arith)
            requires
                total == q * breakup + r,
                0 < r < breakup,
                needed == (total + breakup - 1) / breakup,
        ;
    } else {
        assert(needed == q) by (nonlinear_arith)
            requires
                total == q * breakup,
                0 < breakup,
                needed == (total + breakup - 1) / breakup,
        ;
    }
    if total < breakup {
        assert(q == 0) by (nonlinear_arith)
            requires
                total == q * breakup + r,
                0 <= r,
                0 <= total < breakup,
                0 <= q,
        ;
    }
    if q >= 1 {
        assert(q * breakup >= breakup) by (nonlinear_arith)
            requires
                q >= 1,
                breakup > 0,
        ;
    }
    assert(0 <= q) by (nonlinear_arith)
        requires
            total == q * breakup + r,
            0 <= total,
            0 < breakup,
            0 <= r < breakup,
    ;
    let c = batch_count(total, breakup);
    assert((c - 1) * breakup == c * breakup - breakup) by (nonlinear_arith);
    assert((q + 1) * breakup == q * breakup + breakup) by (nonlinear_arith);
}

/// The batch numbers that the producer requests for `total` items in
/// batches of `breakup`: `1..(n + 1)`, where `n` is `batch_count`.
pub fn batch_range(total: u32, breakup: u32) -> (range: Range<u32>)
    requires
        breakup > 0,
        batch_count(total as int, breakup as int) < u32::MAX,
    ensures
        range.start == 1,
        range.end == batch_count(total as int, breakup as int) + 1,
{
    proof {
        lemma_batch_count(total as int, breakup as int);
    }
    if total < breakup {
        1..2
    } else {
        let b = breakup;
        let r = if total % b > 0 {
            2
        } else {
            1
        };
        1..(total / b) + r
    }
}

/// The batches tile the items: every item offset below `total` lies in
/// exactly the batch `i / breakup + 1` of the range, and when there are items
/// every batch of the range starts at an offset below `total`.
pub proof fn law_batches_cover_items(total: u32, breakup: u32, i: int)
    requires
        breakup > 0,
    ensures
        0 <= i < total ==> {
            let idx = i / breakup as int + 1;
            &&& 1 <= idx <= batch_count(total as int, breakup as int)
            &&& batch_start(idx, breakup as int) <= i < batch_start(idx, breakup as int)
                + breakup
        },
        total > 0 && 1 <= i <= batch_count(total as int, breakup as int) ==> batch_start(
            i,
            breakup as int,
        ) < total,
{
    let b = breakup as int;
    let t = total as int;
    lemma_batch_count(t, b);
    let c = batch_count(t, b);
    if 0 <= i < total {
        let q = i / b;
        assert(q * b <= i < q * b + b && 0 <= q) by (nonlinear_arith)
            requires
                0 <= i,
                b > 0,
                q == i / b,
        ;
        assert(batch_start(q + 1, b) == q * b);
        if q + 1 > c {
            assert(c * b <= q * b) by (nonlinear_arith)
                requires
                    c <= q,
                    b > 0,
            ;
        }
    }
    if total > 0 && 1 <= i <= c {
        assert(batch_start(i, b) <= batch_start(c, b)) by (nonlinear_arith)
            requires
                1 <= i <= c,
                b > 0,
        ;
    }
}

/// Why a push of items does not start.
pub enum PushError {
    /// The input holds no item.
    NoData,
}

/// What a `BatchPlan` holds: the item total, the batch size, the number of
/// the next batch to request and the number one past the last batch.
pub struct BatchPlanView {
    pub total: u32,
    pub batch_size: u32,
    pub next_idx: u32,
    pub end_idx: u32,
}

/// The batches that remain to be requested while pushing `total` items in
/// batches of `batch_size`.
pub struct BatchPlan {
    total: u32,
    batch_size: u32,
    next_idx: u32,
    end_idx: u32,
}

impl View for BatchPlan {
    type V = BatchPlanView;

    closed spec fn view(&self) -> BatchPlanView {
        BatchPlanView {
            total: self.total,
            batch_size: self.batch_size,
            next_idx: self.next_idx,
            end_idx: self.end_idx,
        }
    }
}

impl BatchPlan {
    #[verifier::type_invariant]
    spec fn wf(self) -> bool {
        &&& self.batch_size > 0
        &&& self.total > 0
        &&& self.end_idx == batch_count(self.total as int, self.batch_size as int) + 1
        &&& 1 <= self.next_idx <= self.end_idx
    }

    /// Plans the batches for `total` items; there is nothing to push when
    /// `total` is zero.
    pub fn start(total: u32, batch_size: u32) -> (plan: Result<BatchPlan, PushError>)
        requires
            total > 0 ==> batch_size > 0 && batch_count(total as int, batch_size as int)
                < u32::MAX,
        ensures
            total == 0 <==> plan is Err,
            plan matches Ok(p) ==> p@ == (BatchPlanView {
                total,
                batch_size,
                next_idx: 1,
                end_idx: (batch_count(total as int, batch_size as int) + 1) as u32,
            }),
    {
        if total == 0 {
            Err(PushError::NoData)
        } else {
            let r = batch_range(total, batch_size);
            Ok(BatchPlan { total, batch_size, next_idx: r.start, end_idx: r.end })
        }
    }

    /// The number of the next batch and the offset of its first item, or
    /// `None` when every batch has been handed out.
    pub fn next_batch(&mut self) -> (batch: Option<(u32, u32)>)
        ensures
            old(self)@.next_idx < old(self)@.end_idx ==> {
                &&& batch == Some(
                    (
                        old(self)@.next_idx,
                        batch_start(old(self)@.next_idx as int, old(self)@.batch_size as int) as u32,
                    ),
                )
                &&& batch_start(old(self)@.next_idx as int, old(self)@.batch_size as int)
                    < old(self)@.total
                &&& final(self)@ == (BatchPlanView { next_idx: (old(self)@.next_idx + 1) as u32, ..old(self)@ })
            },
            old(self)@.next_idx >= old(self)@.end_idx ==> batch is None && final(self)@ == old(self)@,
    {
        proof {
            use_type_invariant(&*self);
        }
        if self.next_idx < self.end_idx {
            let idx = self.next_idx;
            proof {
                law_batches_cover_items(self.total, self.batch_size, idx as int);
                assert((idx - 1) * self.batch_size >= 0) by (nonlinear_arith)
                    requires
                        idx >= 1,
                        self.batch_size > 0,
                ;
            }
            let start = (idx - 1) * self.batch_size;
            self.next_idx = idx + 1;
            Some((idx, start))
        } else {
            None
        }
    }

    /// The number of items being pushed.
    pub fn total(&self) -> (total: u32)
        ensures
            total == self@.total,
    {
        self.total
    }
}

} // verus!
