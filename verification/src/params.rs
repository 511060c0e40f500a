//! Durations of the schedule: the total cycle and the chunks within it.

use vstd::prelude::*;

use crate::text::{decimal, decimal_string};

verus! {

/// A positive number of days, at most `u16::MAX`.
#[derive(Clone, Copy, Debug, PartialEq, Eq)]
pub struct NonZeroDays {
    value: u16,
}

impl View for NonZeroDays {
    type V = int;

    closed spec fn view(&self) -> int {
        self.value as int
    }
}

impl NonZeroDays {
    #[verifier::type_invariant]
    closed spec fn inv(self) -> bool {
        self.value > 0
    }

    /// The day count `value`, or `None` when it is zero.
    pub fn new(value: u16) -> (r: Option<NonZeroDays>)
        ensures
            r is Some <==> value > 0,
            r matches Some(d) ==> d@ == value,
    {
        if value == 0 {
            None
        } else {
            Some(NonZeroDays { value })
        }
    }

    /// The number of days.
    pub fn get(self) -> (r: u16)
        ensures
            r == self@,
            r > 0,
    {
        proof {
            use_type_invariant(self);
        }
        self.value
    }
}

/// Duration parameters for [`crate::schedule::compute_schedule`].
///
/// Invariant: `chunk_days` is less than or equal to `cycle_days`.
#[derive(Clone, Copy, Debug)]
pub struct ScheduleParams {
    cycle_days: NonZeroDays,
    chunk_days: NonZeroDays,
}

impl ScheduleParams {
    #[verifier::type_invariant]
    closed spec fn inv(self) -> bool {
        self.chunk_days@ <= self.cycle_days@
    }

    /// Days in the total cycle.
    pub closed spec fn cycle(self) -> int {
        self.cycle_days@
    }

    /// Days in each chunk.
    pub closed spec fn chunk(self) -> int {
        self.chunk_days@
    }

    /// Returns the number of days in the total cycle
    pub fn get_cycle_days(self) -> (r: NonZeroDays)
        ensures
            r@ == self.cycle(),
    {
        self.cycle_days
    }

    /// Returns the number of days in each chunk (within the cycle)
    pub fn get_chunk_days(self) -> (r: NonZeroDays)
        ensures
            r@ == self.chunk(),
    {
        self.chunk_days
    }

    /// The two day counts as plain numbers, with the invariant that relates them.
    pub fn days(self) -> (r: (u16, u16))
        ensures
            r.0 == self.cycle(),
            r.1 == self.chunk(),
            0 < r.1 <= r.0,
    {
        proof {
            use_type_invariant(self);
        }
        (self.cycle_days.get(), self.chunk_days.get())
    }

    /// Returns a builder to construct a valid [`ScheduleParams`]
    pub fn builder() -> (r: ScheduleParamsBuilder<()>) {
        ScheduleParamsBuilder { cycle_days: () }
    }
}

/// Builder for [`ScheduleParams`]
pub struct ScheduleParamsBuilder<T> {
    cycle_days: T,
}

impl ScheduleParamsBuilder<()> {
    /// Sets the total cycle length in days
    pub fn cycle_days(self, cycle_days: NonZeroDays) -> (r: ScheduleParamsBuilder<NonZeroDays>)
        ensures
            r.cycle() == cycle_days@,
    {
        ScheduleParamsBuilder { cycle_days }
    }
}

impl ScheduleParamsBuilder<NonZeroDays> {
    /// The cycle length that was set.
    pub closed spec fn cycle(self) -> int {
        self.cycle_days@
    }

    /// Sets the repeated chunk length in days
    ///
    /// # Errors
    ///
    /// Returns an error if the `chunk_days` is greater than `cycle_days`
    pub fn chunk_days(self, chunk_days: NonZeroDays) -> (r: Result<
        ScheduleParams,
        ChunkExceedsCycleError,
    >)
        ensures
            r is Ok <==> chunk_days@ <= self.cycle(),
            r matches Ok(p) ==> p.cycle() == self.cycle() && p.chunk() == chunk_days@,
            r matches Err(e) ==> e.cycle() == self.cycle() && e.chunk() == chunk_days@,
    {
        let cycle_days = self.cycle_days;
        if chunk_days.get() > cycle_days.get() {
            Err(ChunkExceedsCycleError { cycle_days, chunk_days })
        } else {
            Ok(ScheduleParams { cycle_days, chunk_days })
        }
    }
}

/// Error for the `chunk_days` when creating [`ScheduleParams`]
#[derive(Debug)]
pub struct ChunkExceedsCycleError {
    cycle_days: NonZeroDays,
    chunk_days: NonZeroDays,
}

impl ChunkExceedsCycleError {
    /// Days in the cycle that was given.
    pub closed spec fn cycle(self) -> int {
        self.cycle_days@
    }

    /// Days in the chunk that was given.
    pub closed spec fn chunk(self) -> int {
        self.chunk_days@
    }

    /// The cycle length that the chunk exceeded.
    pub fn get_cycle_days(&self) -> (r: NonZeroDays)
        ensures
            r@ == self.cycle(),
    {
        self.cycle_days
    }

    /// The chunk length that was too long.
    pub fn get_chunk_days(&self) -> (r: NonZeroDays)
        ensures
            r@ == self.chunk(),
    {
        self.chunk_days
    }

    /// The error message: `chunk days (CHUNK) exceeds cycle days (CYCLE)`.
    pub fn to_text(&self) -> (r: String)
        ensures
            r@ == "chunk days ("@ + decimal(self.chunk() as nat) + ") exceeds cycle days ("@ + decimal(
                self.cycle() as nat,
            ) + ")"@,
    {
        let mut s = "chunk days (".to_owned();
        s.append(decimal_string(self.chunk_days.get() as u64).as_str());
        s.append(") exceeds cycle days (");
        s.append(decimal_string(self.cycle_days.get() as u64).as_str());
        s.append(")");
        s
    }
}

} // verus!
