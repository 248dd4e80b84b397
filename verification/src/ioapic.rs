//! Redirection entries of the I/O interrupt controller.
use vstd::prelude::*;

verus! {

#[derive(Clone, Copy, PartialEq, Eq, Structural, Debug)]
pub enum DeilveryMode {
    Fixed,
    LowestPriority,
    Smi,
    Nmi,
    Init,
    ExtInit,
}

impl DeilveryMode {
    /// The three-bit encoding of the delivery mode.
    pub open spec fn spec_value(self) -> u64 {
        match self {
            DeilveryMode::Fixed => 0,
            DeilveryMode::LowestPriority => 1,
            DeilveryMode::Smi => 2,
            DeilveryMode::Nmi => 4,
            DeilveryMode::Init => 5,
            DeilveryMode::ExtInit => 7,
        }
    }

    pub fn value(self) -> (r: u64)
        ensures
            r == self.spec_value(),
    {
        match self {
            DeilveryMode::Fixed => 0,
            DeilveryMode::LowestPriority => 1,
            DeilveryMode::Smi => 2,
            DeilveryMode::Nmi => 4,
            DeilveryMode::Init => 5,
            DeilveryMode::ExtInit => 7,
        }
    }
}

#[derive(Clone, Copy, PartialEq, Eq, Structural, Debug)]
pub enum DestinationMode {
    Physical,
    Logical,
}

impl DestinationMode {
    pub open spec fn spec_value(self) -> u64 {
        match self {
            DestinationMode::Physical => 0,
            DestinationMode::Logical => 1,
        }
    }

    pub fn value(self) -> (r: u64)
        ensures
            r == self.spec_value(),
    {
        match self {
            DestinationMode::Physical => 0,
            DestinationMode::Logical => 1,
        }
    }
}

#[derive(Clone, Copy, PartialEq, Eq, Structural, Debug)]
pub enum InterruptPolarity {
    HighActive,
    LowActive,
}

impl InterruptPolarity {
    pub open spec fn spec_value(self) -> u64 {
        match self {
            InterruptPolarity::HighActive => 0,
            InterruptPolarity::LowActive => 1,
        }
    }

    pub fn value(self) -> (r: u64)
        ensures
            r == self.spec_value(),
    {
        match self {
            InterruptPolarity::HighActive => 0,
            InterruptPolarity::LowActive => 1,
        }
    }
}

#[derive(Clone, Copy, PartialEq, Eq, Structural, Debug)]
pub enum TriggerMode {
    EdgeSensetive,
    LevelSensetive,
}

impl TriggerMode {
    pub open spec fn spec_value(self) -> u64 {
        match self {
            TriggerMode::EdgeSensetive => 0,
            TriggerMode::LevelSensetive => 1,
        }
    }

    pub fn value(self) -> (r: u64)
        ensures
            r == self.spec_value(),
    {
        match self {
            TriggerMode::EdgeSensetive => 0,
            TriggerMode::LevelSensetive => 1,
        }
    }
}

/// One redirection entry: which interrupt a hardware line raises, and how.
/// The destination processor field is carried but not packed into the raw
/// word.
pub struct IoApicRedirectEntry {
    pub dest: u8,
    pub mask: bool,
    pub trigger_mode: TriggerMode,
    pub interrupt_polarity: InterruptPolarity,
    pub destination_mode: DestinationMode,
    pub delivery_mode: DeilveryMode,
    pub redirected_irq_num: u8,
}

impl IoApicRedirectEntry {
    /// The raw register word: interrupt number in bits 0..7, delivery mode
    /// at bit 8, destination mode at bit 11, polarity at bit 13, trigger
    /// mode at bit 15 and the mask at bit 16.
    pub fn as_raw(&self) -> (r: u64)
        ensures
            r == self.redirected_irq_num as u64 | (self.delivery_mode.spec_value() << 8) | (
            self.destination_mode.spec_value() << 11) | (self.interrupt_polarity.spec_value()
                << 13) | (self.trigger_mode.spec_value() << 15) | ((if self.mask {
                1u64
            } else {
                0u64
            }) << 16),
    {
        let m: u64 = if self.mask {
            1
        } else {
            0
        };
        self.redirected_irq_num as u64 | (self.delivery_mode.value() << 8) | (
        self.destination_mode.value() << 11) | (self.interrupt_polarity.value() << 13) | (
        self.trigger_mode.value() << 15) | (m << 16)
    }
}

} // verus!
