use vstd::prelude::*;

verus! {

/// One whole, in the unit in which the trigger keeps its two fractions:
/// parts per million.
pub const PARTS_PER_WHOLE: u64 = 1_000_000;

/// The growth that sets off a collection unless another is configured:
/// three quarters.
pub const DEFAULT_ALLOCATION_TRIGGER_PERCENT: u64 = 750_000;

/// The share of handles per allocation at or below which a collection is set
/// off: nine tenths.
pub const DEFAULT_HANDLE_DEFICIT_TRIGGER_PERCENT: u64 = 900_000;

/// The smallest number of tracked allocations that exceeds the floor of
/// 512 times 1.3, below which growth alone never sets off a collection.
pub const MIN_ALLOCATIONS_FOR_COLLECTION: usize = 666;

/// Decides when a collection is due, from the number of tracked allocations
/// and the number of live handles.
pub struct GcTrigger {
    /// growth since the last collection that sets off the next one, in parts
    /// per million of the count at the last collection
    pub(crate) allocations_trigger_percent: u64,
    /// handles per allocation at or below which a collection is set off, in
    /// parts per million
    pub(crate) handle_deficit_trigger_percent: u64,
    pub(crate) data_count_at_last_collection: usize,
}

impl GcTrigger {
    /// The configured growth fraction, in parts per million.
    pub open(crate) spec fn trigger_percent(&self) -> int {
        self.allocations_trigger_percent as int
    }

    /// The configured handle-deficit fraction, in parts per million.
    pub open(crate) spec fn handle_deficit_percent(&self) -> int {
        self.handle_deficit_trigger_percent as int
    }

    /// The number of tracked allocations recorded after the last collection.
    pub open(crate) spec fn last_count(&self) -> int {
        self.data_count_at_last_collection as int
    }

    /// The count is over the floor and has grown, since the last collection,
    /// by more than the configured fraction of what it was then.
    pub open spec fn grown_enough(&self, current_data_count: int) -> bool {
        &&& current_data_count >= MIN_ALLOCATIONS_FOR_COLLECTION
        &&& (current_data_count - self.last_count()) * PARTS_PER_WHOLE > self.trigger_percent()
            * self.last_count()
    }

    /// The handles are at most the configured fraction of the allocations.
    pub open spec fn handle_deficit(
        &self,
        current_data_count: int,
        current_handle_count: int,
    ) -> bool {
        current_handle_count * PARTS_PER_WHOLE <= self.handle_deficit_percent()
            * current_data_count
    }

    /// A collection is due on growth or on a deficit of handles.
    pub open spec fn collection_due(
        &self,
        current_data_count: int,
        current_handle_count: int,
    ) -> bool {
        self.grown_enough(current_data_count) || self.handle_deficit(
            current_data_count,
            current_handle_count,
        )
    }

    /// Sets the growth fraction, in parts per million.
    pub fn set_trigger_percent(&mut self, p: u64)
        ensures
            final(self).trigger_percent() == p,
            final(self).handle_deficit_percent() == old(self).handle_deficit_percent(),
            final(self).last_count() == old(self).last_count(),
    {
        self.allocations_trigger_percent = p;
    }

    /// Whether a collection is due at these counts.
    pub fn should_collect(&self, current_data_count: usize, current_handle_count: usize) -> (due:
        bool)
        ensures
            due == self.collection_due(current_data_count as int, current_handle_count as int),
    {
        let whole: u128 = PARTS_PER_WHOLE as u128;
        let data: u128 = current_data_count as u128;
        let handles: u128 = current_handle_count as u128;
        let last: u128 = self.data_count_at_last_collection as u128;
        let deficit: u128 = self.handle_deficit_trigger_percent as u128;
        let growth: u128 = self.allocations_trigger_percent as u128;
        assert(handles * whole <= 0xFFFF_FFFF_FFFF_FFFF * 1_000_000) by (nonlinear_arith)
            requires
                0 <= handles <= 0xFFFF_FFFF_FFFF_FFFF,
                whole == 1_000_000,
        ;
        assert(deficit * data <= 0xFFFF_FFFF_FFFF_FFFF * 0xFFFF_FFFF_FFFF_FFFF)
            by (nonlinear_arith)
            requires
                0 <= deficit <= 0xFFFF_FFFF_FFFF_FFFF,
                0 <= data <= 0xFFFF_FFFF_FFFF_FFFF,
        ;
        if handles * whole <= deficit * data {
            return true;
        }
        if current_data_count < MIN_ALLOCATIONS_FOR_COLLECTION {
            return false;
        }
        if data <= last {
            assert((current_data_count - self.last_count()) * PARTS_PER_WHOLE <= 0)
                by (nonlinear_arith)
                requires
                    current_data_count - self.last_count() <= 0,
                    PARTS_PER_WHOLE == 1_000_000,
            ;
            assert(self.trigger_percent() * self.last_count() >= 0) by (nonlinear_arith)
                requires
                    self.trigger_percent() >= 0,
                    self.last_count() >= 0,
            ;
            return false;
        }
        let amount_of_new_data: u128 = data - last;
        assert(amount_of_new_data * whole <= 0xFFFF_FFFF_FFFF_FFFF * 1_000_000)
            by (nonlinear_arith)
            requires
                0 <= amount_of_new_data <= 0xFFFF_FFFF_FFFF_FFFF,
                whole == 1_000_000,
        ;
        assert(growth * last <= 0xFFFF_FFFF_FFFF_FFFF * 0xFFFF_FFFF_FFFF_FFFF)
            by (nonlinear_arith)
            requires
                0 <= growth <= 0xFFFF_FFFF_FFFF_FFFF,
                0 <= last <= 0xFFFF_FFFF_FFFF_FFFF,
        ;
        amount_of_new_data * whole > growth * last
    }

    /// Records the number of tracked allocations that a collection left.
    pub fn set_data_count_after_collection(&mut self, data_count: usize)
        ensures
            final(self).last_count() == data_count,
            final(self).trigger_percent() == old(self).trigger_percent(),
            final(self).handle_deficit_percent() == old(self).handle_deficit_percent(),
    {
        self.data_count_at_last_collection = data_count;
    }
}

impl Default for GcTrigger {
    fn default() -> (s: Self)
        ensures
            s.trigger_percent() == DEFAULT_ALLOCATION_TRIGGER_PERCENT,
            s.handle_deficit_percent() == DEFAULT_HANDLE_DEFICIT_TRIGGER_PERCENT,
            s.last_count() == 0,
    {
        Self {
            allocations_trigger_percent: DEFAULT_ALLOCATION_TRIGGER_PERCENT,
            handle_deficit_trigger_percent: DEFAULT_HANDLE_DEFICIT_TRIGGER_PERCENT,
            data_count_at_last_collection: 0,
        }
    }
}

} // verus!
