use vstd::prelude::*;

use super::analytics::{correlation, scaled_correlation, CORRELATION_SCALE};
use super::bitvector::BitVector;
use super::context_memory_item::ContextMemoryItem;

verus! {

/// Capacity of a cell's memory.
pub const MAX_MEMORY: usize = 20;

/// Consolidation keeps the items seen strictly more often than this.
pub const MIN_HITS_TO_RETAIN: u32 = 2;

/// Covariance of a cell that matches nothing, so that every cell keeps a
/// nonzero chance of selection (one unit of `CORRELATION_SCALE`, 0.0001).
pub const MIN_COVARIANCE: u64 = 1;

/// Largest weight one item can add to a covariance.
pub const MAX_ITEM_WEIGHT: u64 = 0xffff_ffff * CORRELATION_SCALE;

/// Sum of `hits · correlation(item.code, code)` over a memory.
pub open spec fn weighted_correlation_sum(memory: Seq<ContextMemoryItem>, code: u128) -> nat
    decreases memory.len(),
{
    if memory.len() == 0 {
        0
    } else {
        weighted_correlation_sum(memory.drop_last(), code) + (memory.last().hits as nat)
            * scaled_correlation(memory.last().code.0, code)
    }
}

/// Covariance of a memory with a code, floored at `MIN_COVARIANCE`.
pub open spec fn covariance_of(memory: Seq<ContextMemoryItem>, code: u128) -> nat {
    let sum = weighted_correlation_sum(memory, code);
    if sum == 0 {
        MIN_COVARIANCE as nat
    } else {
        sum
    }
}

/// No code is stored twice.
pub open spec fn codes_unique(memory: Seq<ContextMemoryItem>) -> bool {
    forall|i: int, j: int|
        0 <= i < j < memory.len() ==> #[trigger] memory[i].code != #[trigger] memory[j].code
}

/// A cell's memory: within capacity, each code once.
pub open spec fn memory_wf(memory: Seq<ContextMemoryItem>) -> bool {
    memory.len() <= MAX_MEMORY && codes_unique(memory)
}

proof fn lemma_filter_subset(memory: Seq<ContextMemoryItem>, k: int)
    requires
        0 <= k < memory.filter(retained()).len(),
    ensures
        memory.contains(memory.filter(retained())[k]),
    decreases memory.len(),
{
    reveal(Seq::filter);
    if memory.len() > 0 {
        let rest = memory.drop_last();
        if k < rest.filter(retained()).len() {
            lemma_filter_subset(rest, k);
            let j = choose|j: int| 0 <= j < rest.len() && rest[j] == rest.filter(retained())[k];
            assert(memory[j] == rest[j]);
        } else {
            assert(memory[memory.len() - 1] == memory.filter(retained())[k]);
        }
    }
}

/// Consolidation keeps each code once.
pub proof fn lemma_filter_codes_unique(memory: Seq<ContextMemoryItem>)
    requires
        codes_unique(memory),
    ensures
        codes_unique(memory.filter(retained())),
    decreases memory.len(),
{
    reveal(Seq::filter);
    if memory.len() > 0 {
        let rest = memory.drop_last();
        assert(codes_unique(rest));
        lemma_filter_codes_unique(rest);
        let f = memory.filter(retained());
        let g = rest.filter(retained());
        if retained()(memory.last()) {
            assert(f == g.push(memory.last()));
            assert forall|i: int, j: int| 0 <= i < j < f.len() implies #[trigger] f[i].code
                != #[trigger] f[j].code by {
                if j == f.len() - 1 {
                    lemma_filter_subset(rest, i);
                    let m = choose|m: int| 0 <= m < rest.len() && rest[m] == g[i];
                    assert(memory[m] == rest[m]);
                }
            }
        }
    }
}

/// The items that consolidation keeps.
pub open spec fn retained() -> spec_fn(ContextMemoryItem) -> bool {
    |item: ContextMemoryItem| item.hits > MIN_HITS_TO_RETAIN
}

pub proof fn lemma_weighted_sum_bound(memory: Seq<ContextMemoryItem>, code: u128)
    ensures
        weighted_correlation_sum(memory, code) <= memory.len() * MAX_ITEM_WEIGHT,
    decreases memory.len(),
{
    if memory.len() > 0 {
        lemma_weighted_sum_bound(memory.drop_last(), code);
        lemma_item_weight_bound(memory.last(), code);
        assert((memory.len() - 1) * MAX_ITEM_WEIGHT + MAX_ITEM_WEIGHT == memory.len()
            * MAX_ITEM_WEIGHT) by (nonlinear_arith);
    }
}

proof fn lemma_item_weight_bound(item: ContextMemoryItem, code: u128)
    ensures
        item.hits * scaled_correlation(item.code.0, code) <= MAX_ITEM_WEIGHT,
{
    let c = scaled_correlation(item.code.0, code);
    super::analytics::lemma_scaled_correlation_bound(item.code.0, code);
    assert(item.hits * c <= 0xffff_ffff * CORRELATION_SCALE) by (nonlinear_arith)
        requires
            item.hits <= 0xffff_ffff,
            c <= CORRELATION_SCALE,
    ;
}

/// A cell of the context map: a bounded memory of codes with hit counts.
#[derive(Debug)]
pub struct Context {
    pub memory: Vec<ContextMemoryItem>,
}

impl Context {
    /// The memory never outgrows its capacity and holds each code once.
    pub open spec fn wf(&self) -> bool {
        memory_wf(self.memory@)
    }

    /// A cell with an empty memory.
    pub fn new() -> (r: Context)
        ensures
            r.memory@ == Seq::<ContextMemoryItem>::empty(),
    {
        Context { memory: Vec::new() }
    }

    /// Hits-weighted sum of the correlations between `code` and the
    /// remembered codes, or `MIN_COVARIANCE` when that sum is zero.
    pub fn covariance(&self, code: &BitVector) -> (r: u64)
        requires
            self.wf(),
        ensures
            r == covariance_of(self.memory@, code.0),
            r <= MAX_MEMORY * MAX_ITEM_WEIGHT,
    {
        let mut sum: u64 = 0;
        let mut i: usize = 0;
        while i < self.memory.len()
            invariant
                i <= self.memory@.len() <= MAX_MEMORY,
                sum == weighted_correlation_sum(self.memory@.take(i as int), code.0),
                sum <= i * MAX_ITEM_WEIGHT,
            decreases self.memory@.len() - i,
        {
            let item = self.memory[i];
            let c = correlation(item.code.value(), code.value());
            proof {
                lemma_item_weight_bound(item, code.0);
                assert(self.memory@.take(i + 1).drop_last() =~= self.memory@.take(i as int));
                assert(i * MAX_ITEM_WEIGHT + MAX_ITEM_WEIGHT == (i + 1) * MAX_ITEM_WEIGHT)
                    by (nonlinear_arith);
                assert((i + 1) * MAX_ITEM_WEIGHT <= MAX_MEMORY * MAX_ITEM_WEIGHT)
                    by (nonlinear_arith)
                    requires
                        i + 1 <= MAX_MEMORY,
                ;
            }
            sum = sum + item.hits as u64 * c;
            i = i + 1;
        }
        proof {
            assert(self.memory@.take(i as int) =~= self.memory@);
        }
        if sum == 0 {
            return Context::get_min_covariance();
        }
        sum
    }

    fn get_min_covariance() -> (r: u64)
        ensures
            r == MIN_COVARIANCE,
    {
        MIN_COVARIANCE
    }

    fn get_min_hits_to_retain() -> (r: u32)
        ensures
            r == MIN_HITS_TO_RETAIN,
    {
        MIN_HITS_TO_RETAIN
    }

    /// Keeps, in order, only the items seen more than `MIN_HITS_TO_RETAIN`
    /// times.
    pub fn consolidate(&mut self)
        ensures
            final(self).memory@ == old(self).memory@.filter(retained()),
            forall|i: int|
                0 <= i < final(self).memory@.len() ==> final(self).memory@[i].hits
                    > MIN_HITS_TO_RETAIN,
            final(self).memory@.len() <= old(self).memory@.len(),
            old(self).wf() ==> final(self).wf(),
    {
        let min_hits_to_retain = Context::get_min_hits_to_retain();
        let ghost before = self.memory@;
        let ghost pred = retained();
        let mut kept: Vec<ContextMemoryItem> = Vec::new();
        let mut i: usize = 0;
        while i < self.memory.len()
            invariant
                before == self.memory@,
                pred == retained(),
                i <= before.len(),
                kept@ == before.take(i as int).filter(pred),
                min_hits_to_retain == MIN_HITS_TO_RETAIN,
            decreases before.len() - i,
        {
            let item = self.memory[i];
            proof {
                reveal(Seq::filter);
                assert(before.take(i + 1).drop_last() =~= before.take(i as int));
                assert(before.take(i + 1).last() == item);
                assert(pred(item) == (item.hits > MIN_HITS_TO_RETAIN));
                assert(before.take(i + 1).filter(pred) == if pred(item) {
                    before.take(i as int).filter(pred).push(item)
                } else {
                    before.take(i as int).filter(pred)
                });
            }
            if item.hits > min_hits_to_retain {
                kept.push(item);
            }
            i = i + 1;
        }
        proof {
            assert(before.take(i as int) =~= before);
            before.lemma_filter_len(pred);
            if codes_unique(before) {
                lemma_filter_codes_unique(before);
            }
            assert forall|k: int| 0 <= k < kept@.len() implies kept@[k].hits
                > MIN_HITS_TO_RETAIN by {
                before.lemma_filter_pred(pred, k);
            }
        }
        self.memory = kept;
    }
}

} // verus!
