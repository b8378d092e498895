use vstd::prelude::*;

verus! {

/// The interrupt vector at which the primary PIC's lines start.
pub const PIC_1_OFFSET: u8 = 32;

/// The interrupt vector at which the secondary PIC's lines start.
pub const PIC_2_OFFSET: u8 = PIC_1_OFFSET + 8;

/// The PIC line of the primary ATA channel.
pub const ATA_PRIMARY_IRQ: u8 = 14;

/// The hardware interrupts the kernel handles, by PIC line.
#[derive(Debug, Clone, Copy, PartialEq, Eq, Structural)]
pub enum InterruptIndex {
    /// Line 0 of the primary PIC.
    Timer,
    /// Line 1 of the primary PIC.
    Keyboard,
}

impl InterruptIndex {
    /// The interrupt vector of this interrupt.
    pub open spec fn vector(self) -> u8 {
        match self {
            InterruptIndex::Timer => PIC_1_OFFSET,
            InterruptIndex::Keyboard => (PIC_1_OFFSET + 1) as u8,
        }
    }

    /// The interrupt vector, as a byte: `PIC_1_OFFSET` for the timer, the
    /// next vector for the keyboard.
    pub fn as_u8(self) -> (v: u8)
        ensures
            v == self.vector(),
    {
        match self {
            InterruptIndex::Timer => PIC_1_OFFSET,
            InterruptIndex::Keyboard => PIC_1_OFFSET + 1,
        }
    }

    /// The interrupt vector, as an index into the interrupt descriptor table.
    pub fn as_usize(self) -> (v: usize)
        ensures
            v == self.vector(),
    {
        self.as_u8() as usize
    }
}

/// The interrupts the PICs deliver land on distinct vectors of the primary
/// PIC's range, apart from the CPU exceptions below 32.
pub proof fn lemma_vectors_distinct()
    ensures
        InterruptIndex::Timer.vector() != InterruptIndex::Keyboard.vector(),
        InterruptIndex::Timer.vector() != PIC_1_OFFSET + ATA_PRIMARY_IRQ,
        InterruptIndex::Keyboard.vector() != PIC_1_OFFSET + ATA_PRIMARY_IRQ,
        PIC_1_OFFSET <= InterruptIndex::Timer.vector() < PIC_2_OFFSET,
        PIC_1_OFFSET <= InterruptIndex::Keyboard.vector() < PIC_2_OFFSET,
        PIC_1_OFFSET + ATA_PRIMARY_IRQ >= PIC_2_OFFSET,
{
}

} // verus!
