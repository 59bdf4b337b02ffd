//! Per-chip listings: package pinouts, peripherals, interrupts, DMA
//! channels, documents and the memory map.

use vstd::prelude::*;
use vstd::string::*;
use crate::info::{kind_name, push_kind};
use crate::model::{
    ChipData, CoreData, DmaChannelData, DocData, InterruptData, MemoryRegion, MemorySettings,
    PackageData, PackagePin, PeripheralData, RccData, RegisterRef,
};
use crate::order::{sort_by_number, sorted_by_number};
use crate::text::{
    alt_hex, concat_map, dec_digits, dec_right, fmt_size, join, join_strings,
    lemma_concat_map_flatten, lemma_concat_map_push, push_alt_hex, push_dec, push_dec_right, size_text, views,
};

verus! {

// ── Pinout ──

/// The line on one package pin: its position and its signals.
pub open spec fn package_pin_text(p: PackagePin) -> Seq<char> {
    "  Pin "@ + p.position@ + ": "@ + join(views(p.signals@), ", "@) + "\n"@
}

pub open spec fn package_pin_fn() -> spec_fn(PackagePin) -> Seq<char> {
    |p: PackagePin| package_pin_text(p)
}

/// The pinout section of one package.
pub open spec fn package_pinout_text(p: PackageData) -> Seq<char> {
    "\nPackage: "@ + p.name@ + " ("@ + p.package@ + ")\n"@ + dec_digits(p.pins@.len())
        + " pins:\n"@ + concat_map(p.pins@, package_pin_fn())
}

pub open spec fn package_pinout_fn() -> spec_fn(PackageData) -> Seq<char> {
    |p: PackageData| package_pinout_text(p)
}

/// The pinout of a chip: every pin of every package with its signals.
pub open spec fn chip_pinout_text(chip: ChipData) -> Seq<char> {
    "Chip: "@ + chip.name@ + " (family: "@ + chip.family@ + ", line: "@ + chip.line@ + ")\n"@
        + concat_map(chip.packages@, package_pinout_fn())
}

fn push_package_pin(out: &mut String, p: &PackagePin)
    ensures
        final(out)@ == old(out)@ + package_pin_text(*p),
{
    out.append("  Pin ");
    out.append(p.position.as_str());
    out.append(": ");
    let s = join_strings(&p.signals, ", ");
    out.append(s.as_str());
    out.append("\n");
    assert(out@ =~= old(out)@ + package_pin_text(*p));
}

fn push_package_pinout(out: &mut String, p: &PackageData)
    ensures
        final(out)@ == old(out)@ + package_pinout_text(*p),
{
    out.append("\nPackage: ");
    out.append(p.name.as_str());
    out.append(" (");
    out.append(p.package.as_str());
    out.append(")\n");
    push_dec(out, p.pins.len() as u64);
    out.append(" pins:\n");
    let ghost head = out@;
    let mut i: usize = 0;
    while i < p.pins.len()
        invariant
            i <= p.pins.len(),
            out@ == head + concat_map(p.pins@.take(i as int), package_pin_fn()),
        decreases p.pins.len() - i,
    {
        proof {
            lemma_concat_map_push(head, p.pins@, package_pin_fn(), i as int);
        }
        push_package_pin(out, &p.pins[i]);
        i = i + 1;
    }
    proof {
        assert(p.pins@.take(p.pins.len() as int) =~= p.pins@);
        assert(out@ =~= old(out)@ + package_pinout_text(*p));
    }
}

/// The pinout of a chip: for each package its type, pin count, and each
/// pin's position with the signals it carries.
pub fn chip_pinout_report(chip: &ChipData) -> (r: String)
    ensures
        r@ == chip_pinout_text(*chip),
{
    let mut out = String::new();
    out.append("Chip: ");
    out.append(chip.name.as_str());
    out.append(" (family: ");
    out.append(chip.family.as_str());
    out.append(", line: ");
    out.append(chip.line.as_str());
    out.append(")\n");
    let ghost head = out@;
    let mut i: usize = 0;
    while i < chip.packages.len()
        invariant
            i <= chip.packages.len(),
            out@ == head + concat_map(chip.packages@.take(i as int), package_pinout_fn()),
        decreases chip.packages.len() - i,
    {
        proof {
            lemma_concat_map_push(head, chip.packages@, package_pinout_fn(), i as int);
        }
        push_package_pinout(&mut out, &chip.packages[i]);
        i = i + 1;
    }
    proof {
        assert(chip.packages@.take(chip.packages.len() as int) =~= chip.packages@);
        assert(out@ =~= chip_pinout_text(*chip));
    }
    out
}

// ── Peripherals ──

/// The register block of a peripheral, in brackets, where it has one.
pub open spec fn registers_brief(r: Option<RegisterRef>) -> Seq<char> {
    match r {
        Some(regs) => " ["@ + regs.kind@ + ":"@ + regs.version@ + ":"@ + regs.block@ + "]"@,
        None => Seq::empty(),
    }
}

/// The bus clock of a peripheral, where its clock control is known.
pub open spec fn bus_brief(r: Option<RccData>) -> Seq<char> {
    match r {
        Some(rcc) => " bus="@ + rcc.bus_clock@,
        None => Seq::empty(),
    }
}

/// The number of pins of a peripheral, where it has any.
pub open spec fn pin_count_brief(n: nat) -> Seq<char> {
    if n > 0 {
        " ("@ + dec_digits(n) + " pins)"@
    } else {
        Seq::empty()
    }
}

/// The line on one peripheral: address, register block, bus clock, pin count.
pub open spec fn peripheral_line_text(p: PeripheralData) -> Seq<char> {
    "  "@ + p.name@ + " @ "@ + alt_hex(p.address as nat, 10) + registers_brief(p.registers)
        + bus_brief(p.rcc) + pin_count_brief(p.pins@.len()) + "\n"@
}

pub open spec fn peripheral_line_fn() -> spec_fn(PeripheralData) -> Seq<char> {
    |p: PeripheralData| peripheral_line_text(p)
}

pub open spec fn core_peripheral_lines_fn() -> spec_fn(CoreData) -> Seq<char> {
    |c: CoreData| concat_map(c.peripherals@, peripheral_line_fn())
}

/// The list of all peripherals of a chip, core by core.
pub open spec fn peripherals_text(chip: ChipData) -> Seq<char> {
    "Peripherals on "@ + chip.name@ + " ("@ + dec_digits(chip.cores@.len()) + "):\n\n"@
        + concat_map(chip.cores@, core_peripheral_lines_fn())
}

fn push_registers_brief(out: &mut String, r: &Option<RegisterRef>)
    ensures
        final(out)@ == old(out)@ + registers_brief(*r),
{
    match r {
        Some(regs) => {
            out.append(" [");
            out.append(regs.kind.as_str());
            out.append(":");
            out.append(regs.version.as_str());
            out.append(":");
            out.append(regs.block.as_str());
            out.append("]");
        },
        None => {},
    }
    assert(out@ =~= old(out)@ + registers_brief(*r));
}

fn push_bus_brief(out: &mut String, r: &Option<RccData>)
    ensures
        final(out)@ == old(out)@ + bus_brief(*r),
{
    match r {
        Some(rcc) => {
            out.append(" bus=");
            out.append(rcc.bus_clock.as_str());
        },
        None => {},
    }
    assert(out@ =~= old(out)@ + bus_brief(*r));
}

fn push_pin_count_brief(out: &mut String, n: usize)
    ensures
        final(out)@ == old(out)@ + pin_count_brief(n as nat),
{
    if n > 0 {
        out.append(" (");
        push_dec(out, n as u64);
        out.append(" pins)");
    }
    assert(out@ =~= old(out)@ + pin_count_brief(n as nat));
}

fn push_peripheral_line(out: &mut String, p: &PeripheralData)
    ensures
        final(out)@ == old(out)@ + peripheral_line_text(*p),
{
    out.append("  ");
    out.append(p.name.as_str());
    out.append(" @ ");
    push_alt_hex(out, p.address, 10);
    push_registers_brief(out, &p.registers);
    push_bus_brief(out, &p.rcc);
    push_pin_count_brief(out, p.pins.len());
    out.append("\n");
    assert(out@ =~= old(out)@ + peripheral_line_text(*p));
}

fn push_core_peripheral_lines(out: &mut String, c: &CoreData)
    ensures
        final(out)@ == old(out)@ + concat_map(c.peripherals@, peripheral_line_fn()),
{
    let ghost head = out@;
    let mut i: usize = 0;
    while i < c.peripherals.len()
        invariant
            i <= c.peripherals.len(),
            out@ == head + concat_map(c.peripherals@.take(i as int), peripheral_line_fn()),
        decreases c.peripherals.len() - i,
    {
        proof {
            lemma_concat_map_push(head, c.peripherals@, peripheral_line_fn(), i as int);
        }
        push_peripheral_line(out, &c.peripherals[i]);
        i = i + 1;
    }
    proof {
        assert(c.peripherals@.take(c.peripherals.len() as int) =~= c.peripherals@);
    }
}

/// All peripherals of a chip with address, register block, bus clock and pin count.
pub fn peripherals_report(chip: &ChipData) -> (r: String)
    ensures
        r@ == peripherals_text(*chip),
{
    let mut out = String::new();
    out.append("Peripherals on ");
    out.append(chip.name.as_str());
    out.append(" (");
    push_dec(&mut out, chip.cores.len() as u64);
    out.append("):\n\n");
    let ghost head = out@;
    let mut i: usize = 0;
    while i < chip.cores.len()
        invariant
            i <= chip.cores.len(),
            out@ == head + concat_map(chip.cores@.take(i as int), core_peripheral_lines_fn()),
        decreases chip.cores.len() - i,
    {
        proof {
            lemma_concat_map_push(head, chip.cores@, core_peripheral_lines_fn(), i as int);
        }
        push_core_peripheral_lines(&mut out, &chip.cores[i]);
        i = i + 1;
    }
    proof {
        assert(chip.cores@.take(chip.cores.len() as int) =~= chip.cores@);
        assert(out@ =~= peripherals_text(*chip));
    }
    out
}

// ── Interrupts ──

/// The line on one interrupt: its number right-aligned in three columns, then its name.
pub open spec fn irq_line_text(i: InterruptData) -> Seq<char> {
    "  "@ + dec_right(i.number as nat, 3) + ": "@ + i.name@ + "\n"@
}

pub open spec fn irq_line_fn() -> spec_fn(InterruptData) -> Seq<char> {
    |i: InterruptData| irq_line_text(i)
}

/// The interrupts of one core in ascending order of number, headed by the
/// core's name where the chip has several cores.
pub open spec fn core_irqs_text(many: bool, c: CoreData) -> Seq<char> {
    (if many {
        "Core: "@ + c.name@ + "\n"@
    } else {
        Seq::empty()
    }) + concat_map(sort_by_number(c.interrupts@), irq_line_fn())
}

pub open spec fn core_irqs_fn(many: bool) -> spec_fn(CoreData) -> Seq<char> {
    |c: CoreData| core_irqs_text(many, c)
}

/// The interrupts of a chip, core by core.
pub open spec fn interrupts_text(chip: ChipData) -> Seq<char> {
    "Interrupts on "@ + chip.name@ + ":\n\n"@ + concat_map(
        chip.cores@,
        core_irqs_fn(chip.cores@.len() > 1),
    )
}

fn push_irq_line(out: &mut String, i: &InterruptData)
    ensures
        final(out)@ == old(out)@ + irq_line_text(*i),
{
    out.append("  ");
    push_dec_right(out, i.number as u64, 3);
    out.append(": ");
    out.append(i.name.as_str());
    out.append("\n");
    assert(out@ =~= old(out)@ + irq_line_text(*i));
}

fn push_core_irqs(out: &mut String, many: bool, c: &CoreData)
    ensures
        final(out)@ == old(out)@ + core_irqs_text(many, *c),
{
    if many {
        out.append("Core: ");
        out.append(c.name.as_str());
        out.append("\n");
    }
    let ghost head = out@;
    let sorted = sorted_by_number(&c.interrupts);
    let mut i: usize = 0;
    while i < sorted.len()
        invariant
            i <= sorted.len(),
            out@ == head + concat_map(sorted@.take(i as int), irq_line_fn()),
        decreases sorted.len() - i,
    {
        proof {
            lemma_concat_map_push(head, sorted@, irq_line_fn(), i as int);
        }
        push_irq_line(out, &sorted[i]);
        i = i + 1;
    }
    proof {
        assert(sorted@.take(sorted.len() as int) =~= sorted@);
        assert(out@ =~= old(out)@ + core_irqs_text(many, *c));
    }
}

/// All interrupts of a chip with their IRQ numbers, in ascending order of
/// number within each core.
pub fn interrupts_report(chip: &ChipData) -> (r: String)
    ensures
        r@ == interrupts_text(*chip),
{
    let mut out = String::new();
    out.append("Interrupts on ");
    out.append(chip.name.as_str());
    out.append(":\n\n");
    let many = chip.cores.len() > 1;
    let ghost head = out@;
    let mut i: usize = 0;
    while i < chip.cores.len()
        invariant
            i <= chip.cores.len(),
            many == (chip.cores@.len() > 1),
            out@ == head + concat_map(chip.cores@.take(i as int), core_irqs_fn(many)),
        decreases chip.cores.len() - i,
    {
        proof {
            lemma_concat_map_push(head, chip.cores@, core_irqs_fn(many), i as int);
        }
        push_core_irqs(&mut out, many, &chip.cores[i]);
        i = i + 1;
    }
    proof {
        assert(chip.cores@.take(chip.cores.len() as int) =~= chip.cores@);
        assert(out@ =~= interrupts_text(*chip));
    }
    out
}

// ── DMA channels ──

/// The line on one DMA channel.
pub open spec fn dma_line_text(ch: DmaChannelData) -> Seq<char> {
    "  "@ + ch.name@ + " (controller: "@ + ch.dma@ + ", channel: "@ + dec_digits(ch.channel as nat)
        + ")\n"@
}

pub open spec fn dma_line_fn() -> spec_fn(DmaChannelData) -> Seq<char> {
    |ch: DmaChannelData| dma_line_text(ch)
}

pub open spec fn core_dma_lines_fn() -> spec_fn(CoreData) -> Seq<char> {
    |c: CoreData| concat_map(c.dma_channels@, dma_line_fn())
}

/// The DMA channels of a chip, core by core.
pub open spec fn dma_channels_text(chip: ChipData) -> Seq<char> {
    "DMA channels on "@ + chip.name@ + ":\n\n"@ + concat_map(chip.cores@, core_dma_lines_fn())
}

fn push_dma_line(out: &mut String, ch: &DmaChannelData)
    ensures
        final(out)@ == old(out)@ + dma_line_text(*ch),
{
    out.append("  ");
    out.append(ch.name.as_str());
    out.append(" (controller: ");
    out.append(ch.dma.as_str());
    out.append(", channel: ");
    push_dec(out, ch.channel as u64);
    out.append(")\n");
    assert(out@ =~= old(out)@ + dma_line_text(*ch));
}

fn push_core_dma_lines(out: &mut String, c: &CoreData)
    ensures
        final(out)@ == old(out)@ + concat_map(c.dma_channels@, dma_line_fn()),
{
    let ghost head = out@;
    let mut i: usize = 0;
    while i < c.dma_channels.len()
        invariant
            i <= c.dma_channels.len(),
            out@ == head + concat_map(c.dma_channels@.take(i as int), dma_line_fn()),
        decreases c.dma_channels.len() - i,
    {
        proof {
            lemma_concat_map_push(head, c.dma_channels@, dma_line_fn(), i as int);
        }
        push_dma_line(out, &c.dma_channels[i]);
        i = i + 1;
    }
    proof {
        assert(c.dma_channels@.take(c.dma_channels.len() as int) =~= c.dma_channels@);
    }
}

/// All DMA channels of a chip with controller and channel number.
pub fn dma_channels_report(chip: &ChipData) -> (r: String)
    ensures
        r@ == dma_channels_text(*chip),
{
    let mut out = String::new();
    out.append("DMA channels on ");
    out.append(chip.name.as_str());
    out.append(":\n\n");
    let ghost head = out@;
    let mut i: usize = 0;
    while i < chip.cores.len()
        invariant
            i <= chip.cores.len(),
            out@ == head + concat_map(chip.cores@.take(i as int), core_dma_lines_fn()),
        decreases chip.cores.len() - i,
    {
        proof {
            lemma_concat_map_push(head, chip.cores@, core_dma_lines_fn(), i as int);
        }
        push_core_dma_lines(&mut out, &chip.cores[i]);
        i = i + 1;
    }
    proof {
        assert(chip.cores@.take(chip.cores.len() as int) =~= chip.cores@);
        assert(out@ =~= dma_channels_text(*chip));
    }
    out
}

// ── Documents ──

/// The two lines on one document: type and title, then name and link.
pub open spec fn doc_text(d: DocData) -> Seq<char> {
    "  ["@ + d.doc_type@ + "] "@ + d.title@ + "\n"@ + "    "@ + d.name@ + ": "@ + d.url@ + "\n"@
}

pub open spec fn doc_fn() -> spec_fn(DocData) -> Seq<char> {
    |d: DocData| doc_text(d)
}

/// The documents of a chip.
pub open spec fn docs_text(chip: ChipData) -> Seq<char> {
    "Documentation for "@ + chip.name@ + ":\n\n"@ + concat_map(chip.docs@, doc_fn())
}

fn push_doc(out: &mut String, d: &DocData)
    ensures
        final(out)@ == old(out)@ + doc_text(*d),
{
    out.append("  [");
    out.append(d.doc_type.as_str());
    out.append("] ");
    out.append(d.title.as_str());
    out.append("\n");
    out.append("    ");
    out.append(d.name.as_str());
    out.append(": ");
    out.append(d.url.as_str());
    out.append("\n");
    assert(out@ =~= old(out)@ + doc_text(*d));
}

/// The documentation links of a chip: type, title, name and URL of each document.
pub fn docs_report(chip: &ChipData) -> (r: String)
    ensures
        r@ == docs_text(*chip),
{
    let mut out = String::new();
    out.append("Documentation for ");
    out.append(chip.name.as_str());
    out.append(":\n\n");
    let ghost head = out@;
    let mut i: usize = 0;
    while i < chip.docs.len()
        invariant
            i <= chip.docs.len(),
            out@ == head + concat_map(chip.docs@.take(i as int), doc_fn()),
        decreases chip.docs.len() - i,
    {
        proof {
            lemma_concat_map_push(head, chip.docs@, doc_fn(), i as int);
        }
        push_doc(&mut out, &chip.docs[i]);
        i = i + 1;
    }
    proof {
        assert(chip.docs@.take(chip.docs.len() as int) =~= chip.docs@);
        assert(out@ =~= docs_text(*chip));
    }
    out
}

// ── Memory map ──

/// Whether every region ends within the 32-bit address space.
pub open spec fn regions_fit(memory: Seq<Vec<MemoryRegion>>) -> bool {
    forall|b: int, i: int|
        0 <= b < memory.len() && 0 <= i < memory[b]@.len() ==> memory[b]@[i].address
            + memory[b]@[i].size <= u32::MAX
}

/// Whether every region of the chip ends within the 32-bit address space,
/// which the memory map needs to print each region's end address.
pub fn memory_regions_fit(chip: &ChipData) -> (r: bool)
    ensures
        r == regions_fit(chip.memory@),
{
    let mut b: usize = 0;
    while b < chip.memory.len()
        invariant
            b <= chip.memory.len(),
            forall|b2: int, i: int|
                0 <= b2 < b && 0 <= i < chip.memory@[b2]@.len() ==> chip.memory@[b2]@[i].address
                    + chip.memory@[b2]@[i].size <= u32::MAX,
        decreases chip.memory.len() - b,
    {
        let bank = &chip.memory[b];
        let mut i: usize = 0;
        while i < bank.len()
            invariant
                b < chip.memory.len(),
                *bank == chip.memory@[b as int],
                i <= bank.len(),
                forall|k: int| 0 <= k < i ==> bank@[k].address + bank@[k].size <= u32::MAX,
            decreases bank.len() - i,
        {
            if bank[i].address as u64 + bank[i].size as u64 > u32::MAX as u64 {
                return false;
            }
            i = i + 1;
        }
        b = b + 1;
    }
    true
}

/// Erase and write granularity and erase value of a region, as the memory map shows them.
pub open spec fn settings_detail(s: Option<MemorySettings>) -> Seq<char> {
    match s {
        Some(st) => (if st.erase_size > 0 {
            "    Erase size: "@ + size_text(st.erase_size as nat) + "\n"@
        } else {
            Seq::empty()
        }) + "    Write size: "@ + size_text(st.write_size as nat) + "\n"@ + "    Erase value: "@
            + alt_hex(st.erase_value as nat, 4) + "\n"@,
        None => Seq::empty(),
    }
}

/// The section on one region in the memory map.
pub open spec fn region_detail_text(r: MemoryRegion) -> Seq<char> {
    "  "@ + r.name@ + " ("@ + kind_name(r.kind) + "):\n"@ + "    Address: "@ + alt_hex(
        r.address as nat,
        10,
    ) + " - "@ + alt_hex((r.address + r.size) as nat, 10) + "\n"@ + "    Size: "@ + size_text(
        r.size as nat,
    ) + " ("@ + dec_digits(r.size as nat) + " bytes)\n"@ + settings_detail(r.settings)
}

pub open spec fn region_detail_fn() -> spec_fn(MemoryRegion) -> Seq<char> {
    |r: MemoryRegion| region_detail_text(r)
}

/// The section on bank `i`, headed by its number where there are several banks.
pub open spec fn bank_detail_text(many: bool, i: nat, bank: Vec<MemoryRegion>) -> Seq<char> {
    (if many {
        "Bank "@ + dec_digits(i) + ":\n"@
    } else {
        Seq::empty()
    }) + concat_map(bank@, region_detail_fn())
}

/// The sections on the first `k` banks.
pub open spec fn banks_detail_text(memory: Seq<Vec<MemoryRegion>>, k: nat) -> Seq<char>
    decreases k,
{
    if k == 0 {
        Seq::empty()
    } else {
        banks_detail_text(memory, (k - 1) as nat) + bank_detail_text(
            memory.len() > 1,
            (k - 1) as nat,
            memory[k - 1],
        )
    }
}

/// The memory map of a chip.
pub open spec fn memory_map_text(chip: ChipData) -> Seq<char> {
    "Memory map for "@ + chip.name@ + ":\n\n"@ + banks_detail_text(
        chip.memory@,
        chip.memory@.len(),
    )
}

fn push_settings_detail(out: &mut String, s: &Option<MemorySettings>)
    ensures
        final(out)@ == old(out)@ + settings_detail(*s),
{
    match s {
        Some(st) => {
            if st.erase_size > 0 {
                out.append("    Erase size: ");
                let t = fmt_size(st.erase_size);
                out.append(t.as_str());
                out.append("\n");
            }
            let ghost erase_part = if st.erase_size > 0 {
                "    Erase size: "@ + size_text(st.erase_size as nat) + "\n"@
            } else {
                Seq::<char>::empty()
            };
            assert(out@ =~= old(out)@ + erase_part);
            out.append("    Write size: ");
            let t = fmt_size(st.write_size);
            out.append(t.as_str());
            out.append("\n");
            out.append("    Erase value: ");
            push_alt_hex(out, st.erase_value as u64, 4);
            out.append("\n");
            assert(out@ =~= old(out)@ + settings_detail(*s));
        },
        None => {
            assert(out@ =~= old(out)@ + settings_detail(*s));
        },
    }
}

fn push_region_detail(out: &mut String, r: &MemoryRegion)
    requires
        r.address + r.size <= u32::MAX,
    ensures
        final(out)@ == old(out)@ + region_detail_text(*r),
{
    out.append("  ");
    out.append(r.name.as_str());
    out.append(" (");
    push_kind(out, &r.kind);
    out.append("):\n");
    out.append("    Address: ");
    push_alt_hex(out, r.address as u64, 10);
    out.append(" - ");
    push_alt_hex(out, (r.address + r.size) as u64, 10);
    out.append("\n");
    out.append("    Size: ");
    let t = fmt_size(r.size);
    out.append(t.as_str());
    out.append(" (");
    push_dec(out, r.size as u64);
    out.append(" bytes)\n");
    push_settings_detail(out, &r.settings);
    assert(out@ =~= old(out)@ + region_detail_text(*r));
}

fn push_bank_detail(out: &mut String, many: bool, index: usize, bank: &Vec<MemoryRegion>)
    requires
        forall|i: int| 0 <= i < bank@.len() ==> bank@[i].address + bank@[i].size <= u32::MAX,
    ensures
        final(out)@ == old(out)@ + bank_detail_text(many, index as nat, *bank),
{
    if many {
        out.append("Bank ");
        push_dec(out, index as u64);
        out.append(":\n");
    }
    let ghost head = out@;
    let mut i: usize = 0;
    while i < bank.len()
        invariant
            i <= bank.len(),
            forall|k: int| 0 <= k < bank@.len() ==> bank@[k].address + bank@[k].size <= u32::MAX,
            out@ == head + concat_map(bank@.take(i as int), region_detail_fn()),
        decreases bank.len() - i,
    {
        proof {
            lemma_concat_map_push(head, bank@, region_detail_fn(), i as int);
        }
        push_region_detail(out, &bank[i]);
        i = i + 1;
    }
    proof {
        assert(bank@.take(bank.len() as int) =~= bank@);
        assert(out@ =~= old(out)@ + bank_detail_text(many, index as nat, *bank));
    }
}

/// The memory map of a chip: bank by bank, each region with kind, start and
/// end address, size, and erase/write granularity and erase value where known.
pub fn memory_map_report(chip: &ChipData) -> (r: String)
    requires
        regions_fit(chip.memory@),
    ensures
        r@ == memory_map_text(*chip),
{
    let mut out = String::new();
    out.append("Memory map for ");
    out.append(chip.name.as_str());
    out.append(":\n\n");
    let ghost head = out@;
    let many = chip.memory.len() > 1;
    let mut i: usize = 0;
    while i < chip.memory.len()
        invariant
            i <= chip.memory.len(),
            many == (chip.memory@.len() > 1),
            regions_fit(chip.memory@),
            out@ == head + banks_detail_text(chip.memory@, i as nat),
        decreases chip.memory.len() - i,
    {
        push_bank_detail(&mut out, many, i, &chip.memory[i]);
        proof {
            assert(out@ =~= head + banks_detail_text(chip.memory@, (i + 1) as nat));
        }
        i = i + 1;
    }
    proof {
        assert(out@ =~= memory_map_text(*chip));
    }
    out
}

/// The pinout is the chip's heading followed by one section per package of
/// the chip, in order: the k-th names the k-th package and its type, gives
/// its pin count, and has one line per pin of it, in order, with the pin's
/// position and signals.
pub proof fn lemma_chip_pinout_sections(chip: ChipData)
    ensures
        chip_pinout_text(chip) == "Chip: "@ + chip.name@ + " (family: "@ + chip.family@ + ", line: "@
            + chip.line@ + ")\n"@ + Seq::new(
            chip.packages@.len(),
            |k: int|
                "\nPackage: "@ + chip.packages@[k].name@ + " ("@ + chip.packages@[k].package@ + ")\n"@
                    + dec_digits(chip.packages@[k].pins@.len()) + " pins:\n"@ + Seq::new(
                    chip.packages@[k].pins@.len(),
                    |j: int|
                        "  Pin "@ + chip.packages@[k].pins@[j].position@ + ": "@ + join(
                            views(chip.packages@[k].pins@[j].signals@),
                            ", "@,
                        ) + "\n"@,
                ).flatten(),
        ).flatten(),
{
    let ps = chip.packages@;
    let sections = Seq::new(
        ps.len(),
        |k: int|
            "\nPackage: "@ + ps[k].name@ + " ("@ + ps[k].package@ + ")\n"@ + dec_digits(ps[k].pins@.len())
                + " pins:\n"@ + Seq::new(
                ps[k].pins@.len(),
                |j: int| "  Pin "@ + ps[k].pins@[j].position@ + ": "@ + join(views(ps[k].pins@[j].signals@), ", "@) + "\n"@,
            ).flatten(),
    );
    lemma_concat_map_flatten(ps, package_pinout_fn());
    assert forall|k: int| 0 <= k < ps.len() implies #[trigger] package_pinout_fn()(ps[k]) == sections[k] by {
        let pins = ps[k].pins@;
        lemma_concat_map_flatten(pins, package_pin_fn());
        assert(Seq::new(pins.len(), |j: int| package_pin_fn()(pins[j])) =~= Seq::new(
            pins.len(),
            |j: int| "  Pin "@ + pins[j].position@ + ": "@ + join(views(pins[j].signals@), ", "@) + "\n"@,
        ));
    }
    assert(Seq::new(ps.len(), |k: int| package_pinout_fn()(ps[k])) =~= sections);
}

} // verus!
