//! The overview of a chip: identity, cores, memory regions and packages.

use vstd::prelude::*;
use vstd::string::*;
use crate::model::{ChipData, CoreData, MemoryKind, MemoryRegion, MemorySettings, PackageData};
use crate::text::{
    alt_hex, concat_map, dec_digits, fmt_size, lemma_concat_map_flatten, lemma_concat_map_push, push_alt_hex, push_dec,
    size_text,
};

verus! {

/// The name that the derived `Debug` of a memory kind prints.
pub open spec fn kind_name(k: MemoryKind) -> Seq<char> {
    match k {
        MemoryKind::Flash => "Flash"@,
        MemoryKind::Ram => "Ram"@,
    }
}

/// Appends the name of a memory kind.
pub fn push_kind(out: &mut String, k: &MemoryKind)
    ensures
        final(out)@ == old(out)@ + kind_name(*k),
{
    match k {
        MemoryKind::Flash => out.append("Flash"),
        MemoryKind::Ram => out.append("Ram"),
    }
}

/// The lines on one core in the overview.
pub open spec fn core_summary_text(c: CoreData) -> Seq<char> {
    "\nCore: "@ + c.name@ + "\n"@ + match c.nvic_priority_bits {
        Some(b) => "  NVIC priority bits: "@ + dec_digits(b as nat) + "\n"@,
        None => Seq::empty(),
    } + "  Peripherals: "@ + dec_digits(c.peripherals@.len()) + "\n"@ + "  Interrupts: "@
        + dec_digits(c.interrupts@.len()) + "\n"@ + "  DMA channels: "@ + dec_digits(
        c.dma_channels@.len(),
    ) + "\n"@
}

pub open spec fn core_summary_fn() -> spec_fn(CoreData) -> Seq<char> {
    |c: CoreData| core_summary_text(c)
}

/// Erase and write sizes of a region, as the overview shows them.
pub open spec fn settings_brief(s: Option<MemorySettings>) -> Seq<char> {
    match s {
        Some(st) => (if st.erase_size > 0 {
            ", erase="@ + size_text(st.erase_size as nat)
        } else {
            Seq::empty()
        }) + ", write="@ + size_text(st.write_size as nat),
        None => Seq::empty(),
    }
}

/// The line on one memory region in the overview.
pub open spec fn region_brief_text(r: MemoryRegion) -> Seq<char> {
    "  "@ + r.name@ + " ("@ + kind_name(r.kind) + "): "@ + size_text(r.size as nat) + " at "@
        + alt_hex(r.address as nat, 10) + settings_brief(r.settings) + "\n"@
}

pub open spec fn region_brief_fn() -> spec_fn(MemoryRegion) -> Seq<char> {
    |r: MemoryRegion| region_brief_text(r)
}

pub open spec fn bank_brief_fn() -> spec_fn(Vec<MemoryRegion>) -> Seq<char> {
    |b: Vec<MemoryRegion>| concat_map(b@, region_brief_fn())
}

/// The line on one package in the overview.
pub open spec fn package_brief_text(p: PackageData) -> Seq<char> {
    "  "@ + p.name@ + " ("@ + p.package@ + ", "@ + dec_digits(p.pins@.len()) + " pins)\n"@
}

pub open spec fn package_brief_fn() -> spec_fn(PackageData) -> Seq<char> {
    |p: PackageData| package_brief_text(p)
}

/// The overview of a chip.
pub open spec fn chip_info_text(chip: ChipData) -> Seq<char> {
    "Chip: "@ + chip.name@ + "\nFamily: "@ + chip.family@ + "\nLine: "@ + chip.line@
        + "\nDie: "@ + chip.die@ + "\nDevice ID: "@ + alt_hex(chip.device_id as nat, 6) + "\n"@
        + concat_map(chip.cores@, core_summary_fn()) + "\nMemory:\n"@ + concat_map(
        chip.memory@,
        bank_brief_fn(),
    ) + "\nPackages:\n"@ + concat_map(chip.packages@, package_brief_fn())
}

#[verifier::spinoff_prover]
fn push_core_summary(out: &mut String, c: &CoreData)
    ensures
        final(out)@ == old(out)@ + core_summary_text(*c),
{
    out.append("\nCore: ");
    out.append(c.name.as_str());
    out.append("\n");
    let ghost mid = out@;
    match c.nvic_priority_bits {
        Some(b) => {
            out.append("  NVIC priority bits: ");
            push_dec(out, b as u64);
            out.append("\n");
        },
        None => {},
    }
    let ghost opt = match c.nvic_priority_bits {
        Some(b) => "  NVIC priority bits: "@ + dec_digits(b as nat) + "\n"@,
        None => Seq::<char>::empty(),
    };
    assert(out@ =~= mid + opt);
    out.append("  Peripherals: ");
    push_dec(out, c.peripherals.len() as u64);
    out.append("\n");
    out.append("  Interrupts: ");
    push_dec(out, c.interrupts.len() as u64);
    out.append("\n");
    out.append("  DMA channels: ");
    push_dec(out, c.dma_channels.len() as u64);
    out.append("\n");
    assert(out@ =~= old(out)@ + core_summary_text(*c));
}

fn push_settings_brief(out: &mut String, s: &Option<MemorySettings>)
    ensures
        final(out)@ == old(out)@ + settings_brief(*s),
{
    match s {
        Some(st) => {
            if st.erase_size > 0 {
                out.append(", erase=");
                let t = fmt_size(st.erase_size);
                out.append(t.as_str());
            }
            let ghost mid = out@;
            out.append(", write=");
            let t = fmt_size(st.write_size);
            out.append(t.as_str());
            assert(out@ =~= old(out)@ + settings_brief(*s));
        },
        None => {
            assert(out@ =~= old(out)@ + settings_brief(*s));
        },
    }
}

fn push_region_brief(out: &mut String, r: &MemoryRegion)
    ensures
        final(out)@ == old(out)@ + region_brief_text(*r),
{
    out.append("  ");
    out.append(r.name.as_str());
    out.append(" (");
    push_kind(out, &r.kind);
    out.append("): ");
    let t = fmt_size(r.size);
    out.append(t.as_str());
    out.append(" at ");
    push_alt_hex(out, r.address as u64, 10);
    push_settings_brief(out, &r.settings);
    out.append("\n");
    assert(out@ =~= old(out)@ + region_brief_text(*r));
}

fn push_bank_brief(out: &mut String, bank: &Vec<MemoryRegion>)
    ensures
        final(out)@ == old(out)@ + concat_map(bank@, region_brief_fn()),
{
    let ghost start = out@;
    let mut i: usize = 0;
    while i < bank.len()
        invariant
            i <= bank.len(),
            out@ == start + concat_map(bank@.take(i as int), region_brief_fn()),
        decreases bank.len() - i,
    {
        proof {
            lemma_concat_map_push(start, bank@, region_brief_fn(), i as int);
        }
        push_region_brief(out, &bank[i]);
        i = i + 1;
    }
    proof {
        assert(bank@.take(bank.len() as int) =~= bank@);
    }
}

fn push_package_brief(out: &mut String, p: &PackageData)
    ensures
        final(out)@ == old(out)@ + package_brief_text(*p),
{
    out.append("  ");
    out.append(p.name.as_str());
    out.append(" (");
    out.append(p.package.as_str());
    out.append(", ");
    push_dec(out, p.pins.len() as u64);
    out.append(" pins)\n");
    assert(out@ =~= old(out)@ + package_brief_text(*p));
}

/// The overview of a chip: name, family, line, die and device id; for each
/// core its name, NVIC priority bits and numbers of peripherals, interrupts
/// and DMA channels; each memory region with kind, size, address and
/// granularity; each package with its pin count.
pub fn chip_info_report(chip: &ChipData) -> (r: String)
    ensures
        r@ == chip_info_text(*chip),
{
    let mut out = String::new();
    out.append("Chip: ");
    out.append(chip.name.as_str());
    out.append("\nFamily: ");
    out.append(chip.family.as_str());
    out.append("\nLine: ");
    out.append(chip.line.as_str());
    out.append("\nDie: ");
    out.append(chip.die.as_str());
    out.append("\nDevice ID: ");
    push_alt_hex(&mut out, chip.device_id as u64, 6);
    out.append("\n");
    let ghost head = out@;
    let mut i: usize = 0;
    while i < chip.cores.len()
        invariant
            i <= chip.cores.len(),
            out@ == head + concat_map(chip.cores@.take(i as int), core_summary_fn()),
        decreases chip.cores.len() - i,
    {
        proof {
            lemma_concat_map_push(head, chip.cores@, core_summary_fn(), i as int);
        }
        push_core_summary(&mut out, &chip.cores[i]);
        i = i + 1;
    }
    proof {
        assert(chip.cores@.take(chip.cores.len() as int) =~= chip.cores@);
    }
    out.append("\nMemory:\n");
    let ghost head2 = out@;
    let mut i: usize = 0;
    while i < chip.memory.len()
        invariant
            i <= chip.memory.len(),
            out@ == head2 + concat_map(chip.memory@.take(i as int), bank_brief_fn()),
        decreases chip.memory.len() - i,
    {
        proof {
            lemma_concat_map_push(head2, chip.memory@, bank_brief_fn(), i as int);
        }
        push_bank_brief(&mut out, &chip.memory[i]);
        i = i + 1;
    }
    proof {
        assert(chip.memory@.take(chip.memory.len() as int) =~= chip.memory@);
    }
    out.append("\nPackages:\n");
    let ghost head3 = out@;
    let mut i: usize = 0;
    while i < chip.packages.len()
        invariant
            i <= chip.packages.len(),
            out@ == head3 + concat_map(chip.packages@.take(i as int), package_brief_fn()),
        decreases chip.packages.len() - i,
    {
        proof {
            lemma_concat_map_push(head3, chip.packages@, package_brief_fn(), i as int);
        }
        push_package_brief(&mut out, &chip.packages[i]);
        i = i + 1;
    }
    proof {
        assert(chip.packages@.take(chip.packages.len() as int) =~= chip.packages@);
        assert(out@ =~= chip_info_text(*chip));
    }
    out
}

/// The overview ends with its Packages section: one line per package of the
/// chip, in order, the k-th giving the k-th package's name, type and pin
/// count.
pub proof fn lemma_chip_info_packages(chip: ChipData)
    ensures
        ("\nPackages:\n"@ + Seq::new(
            chip.packages@.len(),
            |k: int|
                "  "@ + chip.packages@[k].name@ + " ("@ + chip.packages@[k].package@ + ", "@ + dec_digits(
                    chip.packages@[k].pins@.len(),
                ) + " pins)\n"@,
        ).flatten()).is_suffix_of(chip_info_text(chip)),
{
    let ps = chip.packages@;
    let lines = Seq::new(
        ps.len(),
        |k: int| "  "@ + ps[k].name@ + " ("@ + ps[k].package@ + ", "@ + dec_digits(ps[k].pins@.len()) + " pins)\n"@,
    );
    lemma_concat_map_flatten(ps, package_brief_fn());
    assert(Seq::new(ps.len(), |k: int| package_brief_fn()(ps[k])) =~= lines);
    let section = "\nPackages:\n"@ + lines.flatten();
    let t = chip_info_text(chip);
    assert(t.subrange(t.len() - section.len(), t.len() as int) =~= section);
}

} // verus!
