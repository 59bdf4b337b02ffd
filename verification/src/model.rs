//! The chip data that the reports read, as plain values: one chip's
//! cores, peripherals, memory, packages and documents.

use vstd::prelude::*;

verus! {

/// What a chip description holds.
pub struct ChipData {
    pub name: String,
    pub family: String,
    pub line: String,
    pub die: String,
    pub device_id: u16,
    pub cores: Vec<CoreData>,
    /// Memory banks, each a list of regions.
    pub memory: Vec<Vec<MemoryRegion>>,
    pub packages: Vec<PackageData>,
    pub docs: Vec<DocData>,
}

/// One CPU core of a chip, with what it sees.
pub struct CoreData {
    pub name: String,
    pub nvic_priority_bits: Option<u8>,
    pub peripherals: Vec<PeripheralData>,
    pub interrupts: Vec<InterruptData>,
    pub dma_channels: Vec<DmaChannelData>,
}

/// An interrupt line of a core and its IRQ number.
pub struct InterruptData {
    pub name: String,
    pub number: u32,
}

/// A DMA channel of a core.
pub struct DmaChannelData {
    pub name: String,
    pub dma: String,
    pub channel: u32,
}

/// A peripheral instance as a core sees it.
pub struct PeripheralData {
    pub name: String,
    pub address: u64,
    pub registers: Option<RegisterRef>,
    pub rcc: Option<RccData>,
    pub pins: Vec<PeripheralPin>,
    pub interrupts: Vec<PeripheralInterrupt>,
    pub dma_channels: Vec<PeripheralDma>,
}

/// The register block that describes a peripheral: its kind, version and block name.
pub struct RegisterRef {
    pub kind: String,
    pub version: String,
    pub block: String,
}

/// Reset and clock control of a peripheral.
pub struct RccData {
    pub bus_clock: String,
    pub kernel_clock: KernelClock,
    pub enable: RccField,
    pub reset: Option<RccField>,
    /// The name of the lowest-power mode in which the peripheral keeps running.
    pub stop_mode: String,
}

/// A register field, named by its register and its field.
pub struct RccField {
    pub register: String,
    pub field: String,
}

/// Where a peripheral's kernel clock comes from.
pub enum KernelClock {
    /// A fixed clock, by name.
    Clock(String),
    /// A clock multiplexer, selected by a register field.
    Mux(RccField),
}

/// A pin that a peripheral signal can be routed to.
pub struct PeripheralPin {
    pub pin: String,
    pub signal: String,
    /// The alternate-function number, where routing needs one.
    pub af: Option<u8>,
}

/// A peripheral signal and the interrupt it raises.
pub struct PeripheralInterrupt {
    pub signal: String,
    pub interrupt: String,
}

/// A peripheral signal served by DMA, with its request number where it has one.
pub struct PeripheralDma {
    pub signal: String,
    pub request: Option<u32>,
}

/// The two kinds of memory region.
pub enum MemoryKind {
    Flash,
    Ram,
}

/// A memory region.
pub struct MemoryRegion {
    pub name: String,
    pub kind: MemoryKind,
    pub address: u32,
    pub size: u32,
    pub settings: Option<MemorySettings>,
}

/// Erase and write granularity of a flash region.
pub struct MemorySettings {
    pub erase_size: u32,
    pub write_size: u32,
    pub erase_value: u8,
}

/// A physical package of a chip.
pub struct PackageData {
    pub name: String,
    pub package: String,
    pub pins: Vec<PackagePin>,
}

/// A package pin: its position and the signals it carries.
pub struct PackagePin {
    pub position: String,
    pub signals: Vec<String>,
}

/// A document about a chip.
pub struct DocData {
    pub doc_type: String,
    pub title: String,
    pub name: String,
    pub url: String,
}

} // verus!
