//! Counters of how often, and for how many cycles, the operations of a zipper ran.
//!
//! The counters are plain values here; the table that the operations update, and the reading
//! of the processor's cycle counter, live with the program that measures.

use vstd::prelude::*;

verus! {

/// The operations that are counted.
#[derive(Clone, Copy, PartialEq, Eq, Structural)]
pub enum Entries {
    Reset,
    ValueCount,
    DescendTo,
    DescendToExisting,
    DescendToValue,
    DescendToByte,
    DescendIndexedBranch,
    DescendFirstByte,
    DescendUntil,
    MoveToPath,
    AscendByte,
    Ascend,
    ToNextSiblingByte,
    ToPrevSiblingByte,
    ToNextStep,
    AscendUntil,
    AscendUntilBranch,
    ToNextVal,
    DescendFirstKPath,
    ToNextKPath,
    ToNextGetValue,
    ForkReadZipper,
}

/// Each operation is named by its own identifier.
pub proof fn law_entry_names()
    ensures
        Entries::Reset.name() == "Reset"@,
        Entries::ValueCount.name() == "ValueCount"@,
        Entries::DescendTo.name() == "DescendTo"@,
        Entries::DescendToExisting.name() == "DescendToExisting"@,
        Entries::DescendToValue.name() == "DescendToValue"@,
        Entries::DescendToByte.name() == "DescendToByte"@,
        Entries::DescendIndexedBranch.name() == "DescendIndexedBranch"@,
        Entries::DescendFirstByte.name() == "DescendFirstByte"@,
        Entries::DescendUntil.name() == "DescendUntil"@,
        Entries::MoveToPath.name() == "MoveToPath"@,
        Entries::AscendByte.name() == "AscendByte"@,
        Entries::Ascend.name() == "Ascend"@,
        Entries::ToNextSiblingByte.name() == "ToNextSiblingByte"@,
        Entries::ToPrevSiblingByte.name() == "ToPrevSiblingByte"@,
        Entries::ToNextStep.name() == "ToNextStep"@,
        Entries::AscendUntil.name() == "AscendUntil"@,
        Entries::AscendUntilBranch.name() == "AscendUntilBranch"@,
        Entries::ToNextVal.name() == "ToNextVal"@,
        Entries::DescendFirstKPath.name() == "DescendFirstKPath"@,
        Entries::ToNextKPath.name() == "ToNextKPath"@,
        Entries::ToNextGetValue.name() == "ToNextGetValue"@,
        Entries::ForkReadZipper.name() == "ForkReadZipper"@,
{
}

/// The number of counted operations.
pub const ENTRY_COUNT: usize = 22;

impl Entries {
    /// The position of the operation in the order of declaration.
    pub open spec fn position(self) -> nat {
        match self {
            Entries::Reset => 0,
            Entries::ValueCount => 1,
            Entries::DescendTo => 2,
            Entries::DescendToExisting => 3,
            Entries::DescendToValue => 4,
            Entries::DescendToByte => 5,
            Entries::DescendIndexedBranch => 6,
            Entries::DescendFirstByte => 7,
            Entries::DescendUntil => 8,
            Entries::MoveToPath => 9,
            Entries::AscendByte => 10,
            Entries::Ascend => 11,
            Entries::ToNextSiblingByte => 12,
            Entries::ToPrevSiblingByte => 13,
            Entries::ToNextStep => 14,
            Entries::AscendUntil => 15,
            Entries::AscendUntilBranch => 16,
            Entries::ToNextVal => 17,
            Entries::DescendFirstKPath => 18,
            Entries::ToNextKPath => 19,
            Entries::ToNextGetValue => 20,
            Entries::ForkReadZipper => 21,
        }
    }

    /// The name of the operation.
    pub open spec fn name(self) -> Seq<char> {
        match self {
            Entries::Reset => "Reset"@,
            Entries::ValueCount => "ValueCount"@,
            Entries::DescendTo => "DescendTo"@,
            Entries::DescendToExisting => "DescendToExisting"@,
            Entries::DescendToValue => "DescendToValue"@,
            Entries::DescendToByte => "DescendToByte"@,
            Entries::DescendIndexedBranch => "DescendIndexedBranch"@,
            Entries::DescendFirstByte => "DescendFirstByte"@,
            Entries::DescendUntil => "DescendUntil"@,
            Entries::MoveToPath => "MoveToPath"@,
            Entries::AscendByte => "AscendByte"@,
            Entries::Ascend => "Ascend"@,
            Entries::ToNextSiblingByte => "ToNextSiblingByte"@,
            Entries::ToPrevSiblingByte => "ToPrevSiblingByte"@,
            Entries::ToNextStep => "ToNextStep"@,
            Entries::AscendUntil => "AscendUntil"@,
            Entries::AscendUntilBranch => "AscendUntilBranch"@,
            Entries::ToNextVal => "ToNextVal"@,
            Entries::DescendFirstKPath => "DescendFirstKPath"@,
            Entries::ToNextKPath => "ToNextKPath"@,
            Entries::ToNextGetValue => "ToNextGetValue"@,
            Entries::ForkReadZipper => "ForkReadZipper"@,
        }
    }

    /// The position of the operation in the order of declaration: its index in a counter table.
    pub fn index(&self) -> (r: usize)
        ensures
            r == self.position(),
            r < ENTRY_COUNT,
    {
        match self {
            Entries::Reset => 0,
            Entries::ValueCount => 1,
            Entries::DescendTo => 2,
            Entries::DescendToExisting => 3,
            Entries::DescendToValue => 4,
            Entries::DescendToByte => 5,
            Entries::DescendIndexedBranch => 6,
            Entries::DescendFirstByte => 7,
            Entries::DescendUntil => 8,
            Entries::MoveToPath => 9,
            Entries::AscendByte => 10,
            Entries::Ascend => 11,
            Entries::ToNextSiblingByte => 12,
            Entries::ToPrevSiblingByte => 13,
            Entries::ToNextStep => 14,
            Entries::AscendUntil => 15,
            Entries::AscendUntilBranch => 16,
            Entries::ToNextVal => 17,
            Entries::DescendFirstKPath => 18,
            Entries::ToNextKPath => 19,
            Entries::ToNextGetValue => 20,
            Entries::ForkReadZipper => 21,
        }
    }

    /// The name of the operation.
    pub fn to_str(&self) -> (r: &'static str)
        ensures
            r@ == self.name(),
    {
        match self {
            Entries::Reset => "Reset",
            Entries::ValueCount => "ValueCount",
            Entries::DescendTo => "DescendTo",
            Entries::DescendToExisting => "DescendToExisting",
            Entries::DescendToValue => "DescendToValue",
            Entries::DescendToByte => "DescendToByte",
            Entries::DescendIndexedBranch => "DescendIndexedBranch",
            Entries::DescendFirstByte => "DescendFirstByte",
            Entries::DescendUntil => "DescendUntil",
            Entries::MoveToPath => "MoveToPath",
            Entries::AscendByte => "AscendByte",
            Entries::Ascend => "Ascend",
            Entries::ToNextSiblingByte => "ToNextSiblingByte",
            Entries::ToPrevSiblingByte => "ToPrevSiblingByte",
            Entries::ToNextStep => "ToNextStep",
            Entries::AscendUntil => "AscendUntil",
            Entries::AscendUntilBranch => "AscendUntilBranch",
            Entries::ToNextVal => "ToNextVal",
            Entries::DescendFirstKPath => "DescendFirstKPath",
            Entries::ToNextKPath => "ToNextKPath",
            Entries::ToNextGetValue => "ToNextGetValue",
            Entries::ForkReadZipper => "ForkReadZipper",
        }
    }

    /// The operation at position `i`, if there is one.
    pub fn from_index(i: usize) -> (r: Option<Entries>)
        ensures
            i < ENTRY_COUNT <==> r is Some,
            r matches Some(e) ==> e.position() == i,
    {
        match i {
            0 => Some(Entries::Reset),
            1 => Some(Entries::ValueCount),
            2 => Some(Entries::DescendTo),
            3 => Some(Entries::DescendToExisting),
            4 => Some(Entries::DescendToValue),
            5 => Some(Entries::DescendToByte),
            6 => Some(Entries::DescendIndexedBranch),
            7 => Some(Entries::DescendFirstByte),
            8 => Some(Entries::DescendUntil),
            9 => Some(Entries::MoveToPath),
            10 => Some(Entries::AscendByte),
            11 => Some(Entries::Ascend),
            12 => Some(Entries::ToNextSiblingByte),
            13 => Some(Entries::ToPrevSiblingByte),
            14 => Some(Entries::ToNextStep),
            15 => Some(Entries::AscendUntil),
            16 => Some(Entries::AscendUntilBranch),
            17 => Some(Entries::ToNextVal),
            18 => Some(Entries::DescendFirstKPath),
            19 => Some(Entries::ToNextKPath),
            20 => Some(Entries::ToNextGetValue),
            21 => Some(Entries::ForkReadZipper),
            _ => None,
        }
    }

    /// Every operation, in the order of declaration.
    pub fn all() -> (r: Vec<Entries>)
        ensures
            r@.len() == ENTRY_COUNT,
            forall|i: int| 0 <= i < r@.len() ==> (#[trigger] r@[i]).position() == i,
    {
        let mut r: Vec<Entries> = Vec::new();
        let mut i: usize = 0;
        while i < ENTRY_COUNT
            invariant
                i <= ENTRY_COUNT,
                r@.len() == i,
                forall|j: int| 0 <= j < r@.len() ==> (#[trigger] r@[j]).position() == j,
            decreases ENTRY_COUNT - i,
        {
            let e = Self::from_index(i).unwrap();
            r.push(e);
            i += 1;
        }
        r
    }
}

/// How often an operation ran, and for how many cycles in all.
pub struct Counter {
    pub count: u64,
    pub cycles: u64,
}

impl Counter {
    /// A counter at zero.
    pub fn new() -> (r: Self)
        ensures
            r.count == 0,
            r.cycles == 0,
    {
        Counter { count: 0, cycles: 0 }
    }

    /// Counts one more run; the count wraps around at `u64::MAX` as an atomic addition does.
    pub fn start_run(&mut self)
        ensures
            final(self).count == (old(self).count + 1) % 0x1_0000_0000_0000_0000,
            final(self).cycles == old(self).cycles,
    {
        self.count = self.count.wrapping_add(1);
    }

    /// Adds `cycles` to the total; the total wraps around as an atomic addition does.
    pub fn add_cycles(&mut self, cycles: u64)
        ensures
            final(self).cycles == (old(self).cycles + cycles) % 0x1_0000_0000_0000_0000,
            final(self).count == old(self).count,
    {
        self.cycles = self.cycles.wrapping_add(cycles);
    }

    /// Whether the counter has recorded nothing.
    pub fn is_idle(&self) -> (r: bool)
        ensures
            r == (self.count == 0 && self.cycles == 0),
    {
        self.count == 0 && self.cycles == 0
    }
}

/// Sets every counter of the table back to zero.
pub fn reset_counters(counters: &mut Vec<Counter>)
    ensures
        final(counters)@.len() == old(counters)@.len(),
        forall|i: int| 0 <= i < final(counters)@.len() ==> (#[trigger] final(counters)@[i]).count == 0
            && final(counters)@[i].cycles == 0,
{
    let mut i: usize = 0;
    while i < counters.len()
        invariant
            i <= counters@.len(),
            counters@.len() == old(counters)@.len(),
            forall|j: int| 0 <= j < i ==> (#[trigger] counters@[j]).count == 0 && counters@[j].cycles == 0,
        decreases counters@.len() - i,
    {
        counters.set(i, Counter::new());
        i += 1;
    }
}

/// A measurement under way: the cycle counter's reading when it began.
pub struct TimedSpanGuard {
    start: u64,
}

impl TimedSpanGuard {
    /// The reading at which the measurement began.
    pub closed spec fn start_reading(self) -> u64 {
        self.start
    }

    /// Begins a measurement at the cycle counter's reading `start`.
    pub fn new(start: u64) -> (r: Self)
        ensures
            r.start_reading() == start,
    {
        TimedSpanGuard { start }
    }

    /// The reading at which the measurement began.
    pub fn start(&self) -> (r: u64)
        ensures
            r == self.start_reading(),
    {
        self.start
    }

    /// Ends the measurement at the reading `end`, adding the cycles it took to `counter`.
    pub fn finish(self, end: u64, counter: &mut Counter)
        requires
            end >= self.start_reading(),
        ensures
            final(counter).cycles == (old(counter).cycles + (end - self.start_reading())) % 0x1_0000_0000_0000_0000,
            final(counter).count == old(counter).count,
    {
        counter.add_cycles(end - self.start);
    }
}

} // verus!
