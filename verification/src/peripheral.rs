//! Reports on one peripheral or one pin of a chip: pin routes of a
//! peripheral, functions of a pin, and a peripheral's details.

use vstd::prelude::*;
use vstd::string::*;
use crate::lookup::{find_peripheral, first_in_cores, lemma_first_in_cores_unique, named_in, named_in_cores};
use crate::model::{
    ChipData, CoreData, KernelClock, PeripheralData, PeripheralDma, PeripheralInterrupt,
    PeripheralPin, RccData, RccField, RegisterRef,
};
use crate::names::{query_key, uppercase_of};
use crate::order::{ascending_texts, lemma_sort_texts, sort_texts, sorted_texts};
use crate::text::{
    alt_hex, concat_map, dec_digits, join, join_strings, lemma_concat_map_flatten, lemma_concat_map_push,
    lemma_occurs_in, occurs_in, push_alt_hex, push_dec, views,
};

verus! {

/// The first peripheral of the name, chosen; it is unique where it exists.
pub open spec fn first_position(cores: Seq<CoreData>, name: Seq<char>) -> (int, int) {
    choose|i: int, j: int| first_in_cores(cores, i, j, name)
}

proof fn lemma_first_position(cores: Seq<CoreData>, name: Seq<char>, i: int, j: int)
    requires
        first_in_cores(cores, i, j, name),
    ensures
        first_position(cores, name) == (i, j),
{
    let (a, b) = first_position(cores, name);
    lemma_first_in_cores_unique(cores, name, a, b, i, j);
}

proof fn lemma_no_first(cores: Seq<CoreData>, name: Seq<char>)
    requires
        !named_in_cores(cores, name),
    ensures
        !(exists|i: int, j: int| first_in_cores(cores, i, j, name)),
{
    assert forall|i: int, j: int| !first_in_cores(cores, i, j, name) by {
        if first_in_cores(cores, i, j, name) {
            assert(named_in(cores[i].peripherals@, name));
        }
    }
}

/// The alternate-function suffix of a pin route, where it has one.
pub open spec fn af_suffix(af: Option<u8>) -> Seq<char> {
    match af {
        Some(n) => " (AF"@ + dec_digits(n as nat) + ")"@,
        None => Seq::empty(),
    }
}

fn push_af_suffix(out: &mut String, af: Option<u8>)
    ensures
        final(out)@ == old(out)@ + af_suffix(af),
{
    match af {
        Some(n) => {
            out.append(" (AF");
            push_dec(out, n as u64);
            out.append(")");
        },
        None => {},
    }
    assert(out@ =~= old(out)@ + af_suffix(af));
}

// ── Pins of a peripheral ──

/// The line on one pin route: pin, signal, alternate function.
pub open spec fn pin_route_text(p: PeripheralPin) -> Seq<char> {
    "  "@ + p.pin@ + " -> "@ + p.signal@ + af_suffix(p.af) + "\n"@
}

pub open spec fn pin_route_fn() -> spec_fn(PeripheralPin) -> Seq<char> {
    |p: PeripheralPin| pin_route_text(p)
}

/// The names of the peripherals that have pins, in order.
pub open spec fn pinned_names(ps: Seq<PeripheralData>) -> Seq<Seq<char>>
    decreases ps.len(),
{
    if ps.len() == 0 {
        Seq::empty()
    } else if ps.last().pins@.len() > 0 {
        pinned_names(ps.drop_last()).push(ps.last().name@)
    } else {
        pinned_names(ps.drop_last())
    }
}

/// The pin routes of the first peripheral named `name`; where there is
/// none, the peripherals of the first core that have pins.
pub open spec fn peripheral_pins_text(chip: ChipData, name: Seq<char>) -> Seq<char> {
    if exists|i: int, j: int| first_in_cores(chip.cores@, i, j, name) {
        let (i, j) = first_position(chip.cores@, name);
        let p = chip.cores@[i].peripherals@[j];
        if p.pins@.len() == 0 {
            "Peripheral "@ + name + " exists on "@ + chip.name@ + " but has no pin mappings."@
        } else {
            "Peripheral "@ + name + " on "@ + chip.name@ + ":\n\n"@ + concat_map(
                p.pins@,
                pin_route_fn(),
            )
        }
    } else {
        "Peripheral '"@ + name + "' not found on "@ + chip.name@
            + ".\nAvailable peripherals with pins: "@ + join(
            pinned_names(chip.cores@[0].peripherals@),
            ", "@,
        )
    }
}

fn push_pin_route(out: &mut String, p: &PeripheralPin)
    ensures
        final(out)@ == old(out)@ + pin_route_text(*p),
{
    out.append("  ");
    out.append(p.pin.as_str());
    out.append(" -> ");
    out.append(p.signal.as_str());
    push_af_suffix(out, p.af);
    out.append("\n");
    assert(out@ =~= old(out)@ + pin_route_text(*p));
}

fn pinned_names_of(ps: &Vec<PeripheralData>) -> (r: Vec<String>)
    ensures
        views(r@) == pinned_names(ps@),
{
    let mut r: Vec<String> = Vec::new();
    let mut k: usize = 0;
    while k < ps.len()
        invariant
            k <= ps.len(),
            views(r@) == pinned_names(ps@.take(k as int)),
        decreases ps.len() - k,
    {
        proof {
            assert(ps@.take(k + 1).drop_last() =~= ps@.take(k as int));
            assert(ps@.take(k + 1).last() == ps@[k as int]);
        }
        if ps[k].pins.len() > 0 {
            r.push(ps[k].name.clone());
            proof {
                assert(views(r@) =~= pinned_names(ps@.take(k + 1)));
            }
        }
        k = k + 1;
    }
    proof {
        assert(ps@.take(ps.len() as int) =~= ps@);
    }
    r
}

/// The pin mappings of a peripheral (named case-insensitively) with
/// alternate-function numbers; where no core has it, the list of the first
/// core's peripherals that have pins.
pub fn peripheral_pins_report(chip: &ChipData, peripheral: &str) -> (r: String)
    requires
        chip.cores@.len() > 0,
    ensures
        r@ == peripheral_pins_text(*chip, uppercase_of(peripheral@)),
{
    let name = query_key(peripheral);
    peripheral_pins_for(chip, name.as_str())
}

/// The pin mappings of the peripheral named exactly `key`; where no core
/// has it, the list of the first core's peripherals that have pins.
pub fn peripheral_pins_for(chip: &ChipData, key: &str) -> (r: String)
    requires
        chip.cores@.len() > 0,
    ensures
        r@ == peripheral_pins_text(*chip, key@),
{
    let name = String::from_str(key);
    match find_peripheral(&chip.cores, &name) {
        Some((i, j)) => {
            proof {
                lemma_first_position(chip.cores@, name@, i as int, j as int);
            }
            let p = &chip.cores[i].peripherals[j];
            let mut out = String::new();
            if p.pins.len() == 0 {
                out.append("Peripheral ");
                out.append(name.as_str());
                out.append(" exists on ");
                out.append(chip.name.as_str());
                out.append(" but has no pin mappings.");
                assert(out@ =~= peripheral_pins_text(*chip, name@));
                return out;
            }
            out.append("Peripheral ");
            out.append(name.as_str());
            out.append(" on ");
            out.append(chip.name.as_str());
            out.append(":\n\n");
            let ghost head = out@;
            let mut k: usize = 0;
            while k < p.pins.len()
                invariant
                    k <= p.pins.len(),
                    out@ == head + concat_map(p.pins@.take(k as int), pin_route_fn()),
                decreases p.pins.len() - k,
            {
                proof {
                    lemma_concat_map_push(head, p.pins@, pin_route_fn(), k as int);
                }
                push_pin_route(&mut out, &p.pins[k]);
                k = k + 1;
            }
            proof {
                assert(p.pins@.take(p.pins.len() as int) =~= p.pins@);
                assert(out@ =~= peripheral_pins_text(*chip, name@));
            }
            out
        },
        None => {
            proof {
                lemma_no_first(chip.cores@, name@);
            }
            let names = pinned_names_of(&chip.cores[0].peripherals);
            let list = join_strings(&names, ", ");
            let mut out = String::new();
            out.append("Peripheral '");
            out.append(name.as_str());
            out.append("' not found on ");
            out.append(chip.name.as_str());
            out.append(".\nAvailable peripherals with pins: ");
            out.append(list.as_str());
            assert(out@ =~= peripheral_pins_text(*chip, name@));
            out
        },
    }
}

// ── Functions of a pin ──

/// The entry on one function of a pin: peripheral, signal, alternate function.
pub open spec fn pin_function_text(periph: Seq<char>, p: PeripheralPin) -> Seq<char> {
    "  "@ + periph + "_"@ + p.signal@ + af_suffix(p.af)
}

/// The functions of the pin among the routes of one peripheral.
pub open spec fn functions_in_pins(periph: Seq<char>, pins: Seq<PeripheralPin>, pin: Seq<char>) -> Seq<Seq<char>>
    decreases pins.len(),
{
    if pins.len() == 0 {
        Seq::empty()
    } else if pins.last().pin@ == pin {
        functions_in_pins(periph, pins.drop_last(), pin).push(pin_function_text(periph, pins.last()))
    } else {
        functions_in_pins(periph, pins.drop_last(), pin)
    }
}

/// The functions of the pin among a list of peripherals.
pub open spec fn functions_in_peripherals(ps: Seq<PeripheralData>, pin: Seq<char>) -> Seq<Seq<char>>
    decreases ps.len(),
{
    if ps.len() == 0 {
        Seq::empty()
    } else {
        functions_in_peripherals(ps.drop_last(), pin) + functions_in_pins(
            ps.last().name@,
            ps.last().pins@,
            pin,
        )
    }
}

/// The functions of the pin over all cores, in core, peripheral and route order.
pub open spec fn functions_in_cores(cores: Seq<CoreData>, pin: Seq<char>) -> Seq<Seq<char>>
    decreases cores.len(),
{
    if cores.len() == 0 {
        Seq::empty()
    } else {
        functions_in_cores(cores.drop_last(), pin) + functions_in_peripherals(
            cores.last().peripherals@,
            pin,
        )
    }
}

/// The functions of a pin in lexicographic order, or a note that it has none.
pub open spec fn pin_functions_text(chip: ChipData, pin: Seq<char>) -> Seq<char> {
    let fs = functions_in_cores(chip.cores@, pin);
    if fs.len() == 0 {
        "Pin '"@ + pin + "' has no peripheral mappings on "@ + chip.name@ + "."@
    } else {
        "Pin "@ + pin + " on "@ + chip.name@ + " \u{2014} "@ + dec_digits(fs.len())
            + " functions:\n\n"@ + join(sort_texts(fs), "\n"@)
    }
}

fn collect_in_pins(acc: &mut Vec<String>, periph: &PeripheralData, pin: &String)
    ensures
        views(final(acc)@) == views(old(acc)@) + functions_in_pins(periph.name@, periph.pins@, pin@),
{
    let ghost start = views(acc@);
    let mut k: usize = 0;
    while k < periph.pins.len()
        invariant
            k <= periph.pins.len(),
            views(acc@) == start + functions_in_pins(periph.name@, periph.pins@.take(k as int), pin@),
        decreases periph.pins.len() - k,
    {
        proof {
            assert(periph.pins@.take(k + 1).drop_last() =~= periph.pins@.take(k as int));
            assert(periph.pins@.take(k + 1).last() == periph.pins@[k as int]);
        }
        let p = &periph.pins[k];
        if p.pin == *pin {
            let mut f = String::new();
            f.append("  ");
            f.append(periph.name.as_str());
            f.append("_");
            f.append(p.signal.as_str());
            push_af_suffix(&mut f, p.af);
            assert(f@ =~= pin_function_text(periph.name@, *p));
            let ghost before = views(acc@);
            acc.push(f);
            proof {
                assert(views(acc@) =~= before.push(pin_function_text(periph.name@, *p)));
                assert(views(acc@) =~= start + functions_in_pins(periph.name@, periph.pins@.take(k + 1), pin@));
            }
        }
        k = k + 1;
    }
    proof {
        assert(periph.pins@.take(periph.pins.len() as int) =~= periph.pins@);
    }
}

fn collect_in_peripherals(acc: &mut Vec<String>, ps: &Vec<PeripheralData>, pin: &String)
    ensures
        views(final(acc)@) == views(old(acc)@) + functions_in_peripherals(ps@, pin@),
{
    let ghost start = views(acc@);
    let mut k: usize = 0;
    while k < ps.len()
        invariant
            k <= ps.len(),
            views(acc@) == start + functions_in_peripherals(ps@.take(k as int), pin@),
        decreases ps.len() - k,
    {
        proof {
            assert(ps@.take(k + 1).drop_last() =~= ps@.take(k as int));
            assert(ps@.take(k + 1).last() == ps@[k as int]);
        }
        collect_in_pins(acc, &ps[k], pin);
        proof {
            assert(views(acc@) =~= start + functions_in_peripherals(ps@.take(k + 1), pin@));
        }
        k = k + 1;
    }
    proof {
        assert(ps@.take(ps.len() as int) =~= ps@);
    }
}

/// All alternate functions and peripheral connections of a pin (named
/// case-insensitively), sorted.
pub fn pin_functions_report(chip: &ChipData, pin: &str) -> (r: String)
    ensures
        r@ == pin_functions_text(*chip, uppercase_of(pin@)),
{
    let pin_name = query_key(pin);
    pin_functions_for(chip, pin_name.as_str())
}

/// All alternate functions and peripheral connections of the pin named
/// exactly `key`, sorted.
pub fn pin_functions_for(chip: &ChipData, key: &str) -> (r: String)
    ensures
        r@ == pin_functions_text(*chip, key@),
{
    let pin_name = String::from_str(key);
    let mut functions: Vec<String> = Vec::new();
    let mut i: usize = 0;
    while i < chip.cores.len()
        invariant
            i <= chip.cores.len(),
            views(functions@) == functions_in_cores(chip.cores@.take(i as int), pin_name@),
        decreases chip.cores.len() - i,
    {
        proof {
            assert(chip.cores@.take(i + 1).drop_last() =~= chip.cores@.take(i as int));
            assert(chip.cores@.take(i + 1).last() == chip.cores@[i as int]);
        }
        collect_in_peripherals(&mut functions, &chip.cores[i].peripherals, &pin_name);
        i = i + 1;
    }
    proof {
        assert(chip.cores@.take(chip.cores.len() as int) =~= chip.cores@);
    }
    let mut out = String::new();
    if functions.len() == 0 {
        out.append("Pin '");
        out.append(pin_name.as_str());
        out.append("' has no peripheral mappings on ");
        out.append(chip.name.as_str());
        out.append(".");
        assert(out@ =~= pin_functions_text(*chip, pin_name@));
        return out;
    }
    let count = functions.len();
    let sorted = sorted_texts(functions);
    let list = join_strings(&sorted, "\n");
    out.append("Pin ");
    out.append(pin_name.as_str());
    out.append(" on ");
    out.append(chip.name.as_str());
    out.append(" \u{2014} ");
    push_dec(&mut out, count as u64);
    out.append(" functions:\n\n");
    out.append(list.as_str());
    assert(out@ =~= pin_functions_text(*chip, pin_name@));
    out
}


// ── Details of a peripheral ──

/// A kernel clock: the clock's name, or the selecting field as `register.field`.
pub open spec fn kernel_clock_text(kc: KernelClock) -> Seq<char> {
    match kc {
        KernelClock::Clock(s) => s@,
        KernelClock::Mux(f) => f.register@ + "."@ + f.field@,
    }
}

/// Renders a kernel clock: a fixed clock by its name, a multiplexed one by
/// the register field that selects it.
pub fn fmt_kernel_clock(kc: &KernelClock) -> (r: String)
    ensures
        r@ == kernel_clock_text(*kc),
{
    match kc {
        KernelClock::Clock(s) => s.clone(),
        KernelClock::Mux(field) => {
            let mut r = String::new();
            r.append(field.register.as_str());
            r.append(".");
            r.append(field.field.as_str());
            r
        },
    }
}

/// The register-block line of the details, where the peripheral has one.
pub open spec fn registers_detail(r: Option<RegisterRef>) -> Seq<char> {
    match r {
        Some(regs) => "  Registers: kind="@ + regs.kind@ + ", version="@ + regs.version@
            + ", block="@ + regs.block@ + "\n"@,
        None => Seq::empty(),
    }
}

/// The reset line of the clock control, where there is a reset field.
pub open spec fn reset_detail(r: Option<RccField>) -> Seq<char> {
    match r {
        Some(f) => "  RCC reset: "@ + f.register@ + "."@ + f.field@ + "\n"@,
        None => Seq::empty(),
    }
}

/// The clock-control lines of the details, where they are known.
pub open spec fn rcc_detail(r: Option<RccData>) -> Seq<char> {
    match r {
        Some(rcc) => "  Bus clock: "@ + rcc.bus_clock@ + "\n"@ + "  Kernel clock: "@
            + kernel_clock_text(rcc.kernel_clock) + "\n"@ + "  RCC enable: "@ + rcc.enable.register@
            + "."@ + rcc.enable.field@ + "\n"@ + reset_detail(rcc.reset) + "  Stop mode: "@
            + rcc.stop_mode@ + "\n"@,
        None => Seq::empty(),
    }
}

/// The line on one interrupt signal of a peripheral.
pub open spec fn periph_irq_text(i: PeripheralInterrupt) -> Seq<char> {
    "    "@ + i.signal@ + " -> "@ + i.interrupt@ + "\n"@
}

pub open spec fn periph_irq_fn() -> spec_fn(PeripheralInterrupt) -> Seq<char> {
    |i: PeripheralInterrupt| periph_irq_text(i)
}

/// The interrupt section of the details, where there are interrupts.
pub open spec fn irqs_detail(irqs: Seq<PeripheralInterrupt>) -> Seq<char> {
    if irqs.len() > 0 {
        "  Interrupts:\n"@ + concat_map(irqs, periph_irq_fn())
    } else {
        Seq::empty()
    }
}

/// The line on one DMA signal of a peripheral.
pub open spec fn periph_dma_text(d: PeripheralDma) -> Seq<char> {
    "    "@ + d.signal@ + match d.request {
        Some(req) => " (request="@ + dec_digits(req as nat) + ")"@,
        None => Seq::empty(),
    } + "\n"@
}

pub open spec fn periph_dma_fn() -> spec_fn(PeripheralDma) -> Seq<char> {
    |d: PeripheralDma| periph_dma_text(d)
}

/// The DMA section of the details, where there are DMA signals.
pub open spec fn dmas_detail(dmas: Seq<PeripheralDma>) -> Seq<char> {
    if dmas.len() > 0 {
        "  DMA channels:\n"@ + concat_map(dmas, periph_dma_fn())
    } else {
        Seq::empty()
    }
}

/// The details of peripheral `p` of core `core`.
pub open spec fn peripheral_detail_text(chip: ChipData, core: CoreData, p: PeripheralData) -> Seq<char> {
    "Peripheral "@ + p.name@ + " on "@ + chip.name@ + " (core: "@ + core.name@ + "):\n\n"@
        + "  Address: "@ + alt_hex(p.address as nat, 10) + "\n"@ + registers_detail(p.registers)
        + rcc_detail(p.rcc) + "  Pins: "@ + dec_digits(p.pins@.len()) + "\n"@ + irqs_detail(
        p.interrupts@,
    ) + dmas_detail(p.dma_channels@)
}

/// The details of the first peripheral named `name`, or a note that none is.
pub open spec fn peripheral_info_text(chip: ChipData, name: Seq<char>) -> Seq<char> {
    if exists|i: int, j: int| first_in_cores(chip.cores@, i, j, name) {
        let (i, j) = first_position(chip.cores@, name);
        peripheral_detail_text(chip, chip.cores@[i], chip.cores@[i].peripherals@[j])
    } else {
        "Peripheral '"@ + name + "' not found on "@ + chip.name@ + "."@
    }
}

fn push_registers_detail(out: &mut String, r: &Option<RegisterRef>)
    ensures
        final(out)@ == old(out)@ + registers_detail(*r),
{
    match r {
        Some(regs) => {
            out.append("  Registers: kind=");
            out.append(regs.kind.as_str());
            out.append(", version=");
            out.append(regs.version.as_str());
            out.append(", block=");
            out.append(regs.block.as_str());
            out.append("\n");
        },
        None => {},
    }
    assert(out@ =~= old(out)@ + registers_detail(*r));
}

fn push_reset_detail(out: &mut String, r: &Option<RccField>)
    ensures
        final(out)@ == old(out)@ + reset_detail(*r),
{
    match r {
        Some(f) => {
            out.append("  RCC reset: ");
            out.append(f.register.as_str());
            out.append(".");
            out.append(f.field.as_str());
            out.append("\n");
        },
        None => {},
    }
    assert(out@ =~= old(out)@ + reset_detail(*r));
}

fn push_rcc_detail(out: &mut String, r: &Option<RccData>)
    ensures
        final(out)@ == old(out)@ + rcc_detail(*r),
{
    match r {
        Some(rcc) => {
            out.append("  Bus clock: ");
            out.append(rcc.bus_clock.as_str());
            out.append("\n");
            out.append("  Kernel clock: ");
            let kc = fmt_kernel_clock(&rcc.kernel_clock);
            out.append(kc.as_str());
            out.append("\n");
            out.append("  RCC enable: ");
            out.append(rcc.enable.register.as_str());
            out.append(".");
            out.append(rcc.enable.field.as_str());
            out.append("\n");
            push_reset_detail(out, &rcc.reset);
            out.append("  Stop mode: ");
            out.append(rcc.stop_mode.as_str());
            out.append("\n");
        },
        None => {},
    }
    assert(out@ =~= old(out)@ + rcc_detail(*r));
}

fn push_periph_irq(out: &mut String, i: &PeripheralInterrupt)
    ensures
        final(out)@ == old(out)@ + periph_irq_text(*i),
{
    out.append("    ");
    out.append(i.signal.as_str());
    out.append(" -> ");
    out.append(i.interrupt.as_str());
    out.append("\n");
    assert(out@ =~= old(out)@ + periph_irq_text(*i));
}

fn push_irqs_detail(out: &mut String, irqs: &Vec<PeripheralInterrupt>)
    ensures
        final(out)@ == old(out)@ + irqs_detail(irqs@),
{
    if irqs.len() > 0 {
        out.append("  Interrupts:\n");
        let ghost head = out@;
        let mut k: usize = 0;
        while k < irqs.len()
            invariant
                k <= irqs.len(),
                out@ == head + concat_map(irqs@.take(k as int), periph_irq_fn()),
            decreases irqs.len() - k,
        {
            proof {
                lemma_concat_map_push(head, irqs@, periph_irq_fn(), k as int);
            }
            push_periph_irq(out, &irqs[k]);
            k = k + 1;
        }
        proof {
            assert(irqs@.take(irqs.len() as int) =~= irqs@);
        }
    }
    assert(out@ =~= old(out)@ + irqs_detail(irqs@));
}

fn push_periph_dma(out: &mut String, d: &PeripheralDma)
    ensures
        final(out)@ == old(out)@ + periph_dma_text(*d),
{
    out.append("    ");
    out.append(d.signal.as_str());
    let ghost mid = out@;
    match d.request {
        Some(req) => {
            out.append(" (request=");
            push_dec(out, req as u64);
            out.append(")");
        },
        None => {},
    }
    let ghost part = match d.request {
        Some(req) => " (request="@ + dec_digits(req as nat) + ")"@,
        None => Seq::<char>::empty(),
    };
    assert(out@ =~= mid + part);
    out.append("\n");
    assert(out@ =~= old(out)@ + periph_dma_text(*d));
}

fn push_dmas_detail(out: &mut String, dmas: &Vec<PeripheralDma>)
    ensures
        final(out)@ == old(out)@ + dmas_detail(dmas@),
{
    if dmas.len() > 0 {
        out.append("  DMA channels:\n");
        let ghost head = out@;
        let mut k: usize = 0;
        while k < dmas.len()
            invariant
                k <= dmas.len(),
                out@ == head + concat_map(dmas@.take(k as int), periph_dma_fn()),
            decreases dmas.len() - k,
        {
            proof {
                lemma_concat_map_push(head, dmas@, periph_dma_fn(), k as int);
            }
            push_periph_dma(out, &dmas[k]);
            k = k + 1;
        }
        proof {
            assert(dmas@.take(dmas.len() as int) =~= dmas@);
        }
    }
    assert(out@ =~= old(out)@ + dmas_detail(dmas@));
}

fn peripheral_detail(chip: &ChipData, core: &CoreData, p: &PeripheralData) -> (r: String)
    ensures
        r@ == peripheral_detail_text(*chip, *core, *p),
{
    let mut out = String::new();
    out.append("Peripheral ");
    out.append(p.name.as_str());
    out.append(" on ");
    out.append(chip.name.as_str());
    out.append(" (core: ");
    out.append(core.name.as_str());
    out.append("):\n\n");
    out.append("  Address: ");
    push_alt_hex(&mut out, p.address, 10);
    out.append("\n");
    push_registers_detail(&mut out, &p.registers);
    push_rcc_detail(&mut out, &p.rcc);
    out.append("  Pins: ");
    push_dec(&mut out, p.pins.len() as u64);
    out.append("\n");
    push_irqs_detail(&mut out, &p.interrupts);
    push_dmas_detail(&mut out, &p.dma_channels);
    assert(out@ =~= peripheral_detail_text(*chip, *core, *p));
    out
}

/// The details of a peripheral (named case-insensitively): address,
/// register block, clock control, pin count, interrupts and DMA signals.
pub fn peripheral_info_report(chip: &ChipData, peripheral: &str) -> (r: String)
    ensures
        r@ == peripheral_info_text(*chip, uppercase_of(peripheral@)),
{
    let name = query_key(peripheral);
    peripheral_info_for(chip, name.as_str())
}

/// The details of the peripheral named exactly `key`: address, register
/// block, clock control, pin count, interrupts and DMA signals.
pub fn peripheral_info_for(chip: &ChipData, key: &str) -> (r: String)
    ensures
        r@ == peripheral_info_text(*chip, key@),
{
    let name = String::from_str(key);
    match find_peripheral(&chip.cores, &name) {
        Some((i, j)) => {
            proof {
                lemma_first_position(chip.cores@, name@, i as int, j as int);
            }
            peripheral_detail(chip, &chip.cores[i], &chip.cores[i].peripherals[j])
        },
        None => {
            proof {
                lemma_no_first(chip.cores@, name@);
            }
            let mut out = String::new();
            out.append("Peripheral '");
            out.append(name.as_str());
            out.append("' not found on ");
            out.append(chip.name.as_str());
            out.append(".");
            assert(out@ =~= peripheral_info_text(*chip, name@));
            out
        },
    }
}

/// The details of the first peripheral of a name that has interrupt
/// signals list, right after its pin count, one line per signal, in order:
/// the k-th signal and the interrupt it raises.
pub proof fn lemma_peripheral_info_interrupts(chip: ChipData, name: Seq<char>, i: int, j: int)
    requires
        first_in_cores(chip.cores@, i, j, name),
        chip.cores@[i].peripherals@[j].interrupts@.len() > 0,
    ensures
        occurs_in(
            "  Pins: "@ + dec_digits(chip.cores@[i].peripherals@[j].pins@.len()) + "\n"@ + "  Interrupts:\n"@
                + Seq::new(
                chip.cores@[i].peripherals@[j].interrupts@.len(),
                |k: int|
                    "    "@ + chip.cores@[i].peripherals@[j].interrupts@[k].signal@ + " -> "@
                        + chip.cores@[i].peripherals@[j].interrupts@[k].interrupt@ + "\n"@,
            ).flatten(),
            peripheral_info_text(chip, name),
        ),
{
    lemma_first_position(chip.cores@, name, i, j);
    let core = chip.cores@[i];
    let p = core.peripherals@[j];
    let irqs = p.interrupts@;
    let lines = Seq::new(irqs.len(), |k: int| "    "@ + irqs[k].signal@ + " -> "@ + irqs[k].interrupt@ + "\n"@);
    lemma_concat_map_flatten(irqs, periph_irq_fn());
    assert(Seq::new(irqs.len(), |k: int| periph_irq_fn()(irqs[k])) =~= lines);
    let part = "  Pins: "@ + dec_digits(p.pins@.len()) + "\n"@ + "  Interrupts:\n"@ + lines.flatten();
    let before = "Peripheral "@ + p.name@ + " on "@ + chip.name@ + " (core: "@ + core.name@ + "):\n\n"@
        + "  Address: "@ + alt_hex(p.address as nat, 10) + "\n"@ + registers_detail(p.registers)
        + rcc_detail(p.rcc);
    let after = dmas_detail(p.dma_channels@);
    lemma_occurs_in(before, part, after);
    assert(peripheral_detail_text(chip, core, p) =~= before + part + after);
}

/// How many routes of a peripheral named `periph` satisfy `pred`.
pub open spec fn routes_in_pins(
    periph: Seq<char>,
    pins: Seq<PeripheralPin>,
    pred: spec_fn(Seq<char>, PeripheralPin) -> bool,
) -> nat
    decreases pins.len(),
{
    if pins.len() == 0 {
        0
    } else {
        routes_in_pins(periph, pins.drop_last(), pred) + if pred(periph, pins.last()) {
            1nat
        } else {
            0nat
        }
    }
}

/// How many routes of a list of peripherals satisfy `pred`.
pub open spec fn routes_in_peripherals(ps: Seq<PeripheralData>, pred: spec_fn(Seq<char>, PeripheralPin) -> bool) -> nat
    decreases ps.len(),
{
    if ps.len() == 0 {
        0
    } else {
        routes_in_peripherals(ps.drop_last(), pred) + routes_in_pins(ps.last().name@, ps.last().pins@, pred)
    }
}

/// How many routes of the peripherals of all cores satisfy `pred`.
pub open spec fn routes_in_cores(cores: Seq<CoreData>, pred: spec_fn(Seq<char>, PeripheralPin) -> bool) -> nat
    decreases cores.len(),
{
    if cores.len() == 0 {
        0
    } else {
        routes_in_cores(cores.drop_last(), pred) + routes_in_peripherals(cores.last().peripherals@, pred)
    }
}

/// A route to the pin.
pub open spec fn route_to(pin: Seq<char>) -> spec_fn(Seq<char>, PeripheralPin) -> bool {
    |periph: Seq<char>, r: PeripheralPin| r.pin@ == pin
}

/// A route to the pin whose entry, peripheral, signal and alternate
/// function, reads `e`.
pub open spec fn route_listed_as(pin: Seq<char>, e: Seq<char>) -> spec_fn(Seq<char>, PeripheralPin) -> bool {
    |periph: Seq<char>, r: PeripheralPin|
        r.pin@ == pin && "  "@ + periph + "_"@ + r.signal@ + match r.af {
            Some(n) => " (AF"@ + dec_digits(n as nat) + ")"@,
            None => Seq::<char>::empty(),
        } == e
}

proof fn lemma_functions_in_pins_count(periph: Seq<char>, pins: Seq<PeripheralPin>, pin: Seq<char>, e: Seq<char>)
    ensures
        functions_in_pins(periph, pins, pin).len() == routes_in_pins(periph, pins, route_to(pin)),
        functions_in_pins(periph, pins, pin).to_multiset().count(e) == routes_in_pins(
            periph,
            pins,
            route_listed_as(pin, e),
        ),
    decreases pins.len(),
{
    broadcast use vstd::seq_lib::group_to_multiset_ensures;

    if pins.len() == 0 {
        assert(functions_in_pins(periph, pins, pin).to_multiset() =~= vstd::multiset::Multiset::empty());
    } else {
        lemma_functions_in_pins_count(periph, pins.drop_last(), pin, e);
    }
}

proof fn lemma_functions_in_peripherals_count(ps: Seq<PeripheralData>, pin: Seq<char>, e: Seq<char>)
    ensures
        functions_in_peripherals(ps, pin).len() == routes_in_peripherals(ps, route_to(pin)),
        functions_in_peripherals(ps, pin).to_multiset().count(e) == routes_in_peripherals(ps, route_listed_as(pin, e)),
    decreases ps.len(),
{
    broadcast use vstd::seq_lib::group_to_multiset_ensures;

    if ps.len() == 0 {
        assert(functions_in_peripherals(ps, pin).to_multiset() =~= vstd::multiset::Multiset::empty());
    } else {
        let a = functions_in_peripherals(ps.drop_last(), pin);
        let b = functions_in_pins(ps.last().name@, ps.last().pins@, pin);
        lemma_functions_in_peripherals_count(ps.drop_last(), pin, e);
        lemma_functions_in_pins_count(ps.last().name@, ps.last().pins@, pin, e);
        vstd::seq_lib::lemma_multiset_commutative(a, b);
    }
}

proof fn lemma_functions_in_cores_count(cores: Seq<CoreData>, pin: Seq<char>, e: Seq<char>)
    ensures
        functions_in_cores(cores, pin).len() == routes_in_cores(cores, route_to(pin)),
        functions_in_cores(cores, pin).to_multiset().count(e) == routes_in_cores(cores, route_listed_as(pin, e)),
    decreases cores.len(),
{
    broadcast use vstd::seq_lib::group_to_multiset_ensures;

    if cores.len() == 0 {
        assert(functions_in_cores(cores, pin).to_multiset() =~= vstd::multiset::Multiset::empty());
    } else {
        let a = functions_in_cores(cores.drop_last(), pin);
        let b = functions_in_peripherals(cores.last().peripherals@, pin);
        lemma_functions_in_cores_count(cores.drop_last(), pin, e);
        lemma_functions_in_peripherals_count(cores.last().peripherals@, pin, e);
        vstd::seq_lib::lemma_multiset_commutative(a, b);
    }
}

/// The functions listed for a pin are one entry per route to the pin, over
/// every peripheral of every core: as many as there are such routes, and
/// each entry text as often as routes that read so. Where there are none
/// the answer says so; else the count heads the entries, in ascending order.
pub proof fn lemma_pin_functions(chip: ChipData, pin: Seq<char>)
    ensures
        functions_in_cores(chip.cores@, pin).len() == routes_in_cores(chip.cores@, route_to(pin)),
        forall|e: Seq<char>|
            #[trigger] functions_in_cores(chip.cores@, pin).to_multiset().count(e) == routes_in_cores(
                chip.cores@,
                route_listed_as(pin, e),
            ),
        routes_in_cores(chip.cores@, route_to(pin)) == 0 ==> pin_functions_text(chip, pin) == "Pin '"@ + pin
            + "' has no peripheral mappings on "@ + chip.name@ + "."@,
        routes_in_cores(chip.cores@, route_to(pin)) > 0 ==> pin_functions_text(chip, pin) == "Pin "@ + pin
            + " on "@ + chip.name@ + " \u{2014} "@ + dec_digits(routes_in_cores(chip.cores@, route_to(pin)))
            + " functions:\n\n"@ + join(sort_texts(functions_in_cores(chip.cores@, pin)), "\n"@),
        ascending_texts(sort_texts(functions_in_cores(chip.cores@, pin))),
        sort_texts(functions_in_cores(chip.cores@, pin)).to_multiset() == functions_in_cores(
            chip.cores@,
            pin,
        ).to_multiset(),
{
    let fs = functions_in_cores(chip.cores@, pin);
    lemma_functions_in_cores_count(chip.cores@, pin, Seq::empty());
    assert forall|e: Seq<char>|
        #[trigger] fs.to_multiset().count(e) == routes_in_cores(chip.cores@, route_listed_as(pin, e)) by {
        lemma_functions_in_cores_count(chip.cores@, pin, e);
    }
    lemma_sort_texts(fs);
}

} // verus!
