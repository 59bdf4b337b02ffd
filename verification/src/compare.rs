//! Side-by-side comparison of two chips: memory totals, packages,
//! peripheral sets, interrupt and DMA channel counts.

use vstd::prelude::*;
use vstd::string::*;
use crate::model::{ChipData, MemoryKind, MemoryRegion, PackageData, PeripheralData};
use crate::names::{
    contains_text, has_infix, lemma_text_lt_irreflexive, lemma_text_lt_total,
    lemma_text_lt_transitive, str_lt, text_lt,
};
use crate::text::{dec_digits, fmt_size, join, join_strings, lemma_occurs_in, occurs_in, push_dec, size_text, views};

verus! {

// ── Memory totals ──

/// The size that a region adds to the flash total: flash regions other than
/// one-time-programmable ones (whose name contains `OTP`).
pub open spec fn flash_size(r: MemoryRegion) -> nat {
    if r.kind is Flash && !has_infix(r.name@, "OTP"@) {
        r.size as nat
    } else {
        0
    }
}

/// The size that a region adds to the RAM total.
pub open spec fn ram_size(r: MemoryRegion) -> nat {
    if r.kind is Ram {
        r.size as nat
    } else {
        0
    }
}

pub open spec fn flash_size_fn() -> spec_fn(MemoryRegion) -> nat {
    |r: MemoryRegion| flash_size(r)
}

pub open spec fn ram_size_fn() -> spec_fn(MemoryRegion) -> nat {
    |r: MemoryRegion| ram_size(r)
}

/// The sum of `f` over the regions of a bank.
pub open spec fn bank_sum(b: Seq<MemoryRegion>, f: spec_fn(MemoryRegion) -> nat) -> nat
    decreases b.len(),
{
    if b.len() == 0 {
        0
    } else {
        bank_sum(b.drop_last(), f) + f(b.last())
    }
}

/// The sum of `f` over the regions of all banks.
pub open spec fn memory_sum(m: Seq<Vec<MemoryRegion>>, f: spec_fn(MemoryRegion) -> nat) -> nat
    decreases m.len(),
{
    if m.len() == 0 {
        0
    } else {
        memory_sum(m.drop_last(), f) + bank_sum(m.last()@, f)
    }
}

/// The flash total of a chip's memory.
pub open spec fn flash_total(m: Seq<Vec<MemoryRegion>>) -> nat {
    memory_sum(m, flash_size_fn())
}

/// The RAM total of a chip's memory.
pub open spec fn ram_total(m: Seq<Vec<MemoryRegion>>) -> nat {
    memory_sum(m, ram_size_fn())
}

/// Whether both totals fit in 32 bits.
pub open spec fn totals_fit(m: Seq<Vec<MemoryRegion>>) -> bool {
    flash_total(m) <= u32::MAX && ram_total(m) <= u32::MAX
}

proof fn lemma_bank_sum_prefix(b: Seq<MemoryRegion>, f: spec_fn(MemoryRegion) -> nat, j: int)
    requires
        0 <= j <= b.len(),
    ensures
        bank_sum(b.take(j), f) <= bank_sum(b, f),
    decreases b.len() - j,
{
    if j < b.len() {
        lemma_bank_sum_prefix(b, f, j + 1);
        assert(b.take(j + 1).drop_last() =~= b.take(j));
    } else {
        assert(b.take(j) =~= b);
    }
}

proof fn lemma_memory_sum_prefix(m: Seq<Vec<MemoryRegion>>, f: spec_fn(MemoryRegion) -> nat, i: int)
    requires
        0 <= i <= m.len(),
    ensures
        memory_sum(m.take(i), f) <= memory_sum(m, f),
    decreases m.len() - i,
{
    if i < m.len() {
        lemma_memory_sum_prefix(m, f, i + 1);
        assert(m.take(i + 1).drop_last() =~= m.take(i));
    } else {
        assert(m.take(i) =~= m);
    }
}

/// The flash and RAM totals of a chip's memory: the sizes of all flash
/// regions other than one-time-programmable ones, and of all RAM regions.
pub fn mem_summary(memory: &Vec<Vec<MemoryRegion>>) -> (r: (u32, u32))
    requires
        totals_fit(memory@),
    ensures
        r.0 == flash_total(memory@),
        r.1 == ram_total(memory@),
{
    let mut flash: u32 = 0;
    let mut ram: u32 = 0;
    let mut i: usize = 0;
    while i < memory.len()
        invariant
            i <= memory.len(),
            totals_fit(memory@),
            flash == memory_sum(memory@.take(i as int), flash_size_fn()),
            ram == memory_sum(memory@.take(i as int), ram_size_fn()),
        decreases memory.len() - i,
    {
        let bank = &memory[i];
        proof {
            assert(memory@.take(i + 1).drop_last() =~= memory@.take(i as int));
            assert(memory@.take(i + 1).last() == memory@[i as int]);
            lemma_memory_sum_prefix(memory@, flash_size_fn(), i + 1);
            lemma_memory_sum_prefix(memory@, ram_size_fn(), i + 1);
        }
        let ghost flash0 = flash as nat;
        let ghost ram0 = ram as nat;
        let mut j: usize = 0;
        while j < bank.len()
            invariant
                j <= bank.len(),
                flash0 + bank_sum(bank@, flash_size_fn()) <= u32::MAX,
                ram0 + bank_sum(bank@, ram_size_fn()) <= u32::MAX,
                flash == flash0 + bank_sum(bank@.take(j as int), flash_size_fn()),
                ram == ram0 + bank_sum(bank@.take(j as int), ram_size_fn()),
            decreases bank.len() - j,
        {
            let region = &bank[j];
            proof {
                assert(bank@.take(j + 1).drop_last() =~= bank@.take(j as int));
                assert(bank@.take(j + 1).last() == bank@[j as int]);
                lemma_bank_sum_prefix(bank@, flash_size_fn(), j + 1);
                lemma_bank_sum_prefix(bank@, ram_size_fn(), j + 1);
            }
            match region.kind {
                MemoryKind::Flash => {
                    if !contains_text(region.name.as_str(), "OTP") {
                        flash = flash + region.size;
                    }
                },
                MemoryKind::Ram => {
                    ram = ram + region.size;
                },
            }
            j = j + 1;
        }
        proof {
            assert(bank@.take(bank.len() as int) =~= bank@);
        }
        i = i + 1;
    }
    proof {
        assert(memory@.take(memory.len() as int) =~= memory@);
    }
    (flash, ram)
}

/// Whether both memory totals of the chip fit in 32 bits, which the
/// comparison needs to add them up.
pub fn memory_totals_fit(memory: &Vec<Vec<MemoryRegion>>) -> (r: bool)
    ensures
        r == totals_fit(memory@),
{
    let mut flash: u64 = 0;
    let mut ram: u64 = 0;
    let mut i: usize = 0;
    while i < memory.len()
        invariant
            i <= memory.len(),
            flash == memory_sum(memory@.take(i as int), flash_size_fn()),
            ram == memory_sum(memory@.take(i as int), ram_size_fn()),
            flash <= u32::MAX,
            ram <= u32::MAX,
        decreases memory.len() - i,
    {
        let bank = &memory[i];
        proof {
            assert(memory@.take(i + 1).drop_last() =~= memory@.take(i as int));
            assert(memory@.take(i + 1).last() == memory@[i as int]);
        }
        let ghost flash0 = flash as nat;
        let ghost ram0 = ram as nat;
        let mut j: usize = 0;
        while j < bank.len()
            invariant
                i < memory.len(),
                *bank == memory@[i as int],
                j <= bank.len(),
                flash == flash0 + bank_sum(bank@.take(j as int), flash_size_fn()),
                ram == ram0 + bank_sum(bank@.take(j as int), ram_size_fn()),
                flash <= u32::MAX,
                ram <= u32::MAX,
                flash0 == memory_sum(memory@.take(i as int), flash_size_fn()),
                ram0 == memory_sum(memory@.take(i as int), ram_size_fn()),
            decreases bank.len() - j,
        {
            let region = &bank[j];
            proof {
                assert(bank@.take(j + 1).drop_last() =~= bank@.take(j as int));
                assert(bank@.take(j + 1).last() == bank@[j as int]);
            }
            match region.kind {
                MemoryKind::Flash => {
                    if !contains_text(region.name.as_str(), "OTP") {
                        flash = flash + region.size as u64;
                    }
                },
                MemoryKind::Ram => {
                    ram = ram + region.size as u64;
                },
            }
            if flash > u32::MAX as u64 || ram > u32::MAX as u64 {
                proof {
                    lemma_bank_sum_prefix(bank@, flash_size_fn(), j + 1);
                    lemma_bank_sum_prefix(bank@, ram_size_fn(), j + 1);
                    assert(memory@.take(i + 1).drop_last() =~= memory@.take(i as int));
                    lemma_memory_sum_prefix(memory@, flash_size_fn(), i + 1);
                    lemma_memory_sum_prefix(memory@, ram_size_fn(), i + 1);
                }
                return false;
            }
            j = j + 1;
        }
        proof {
            assert(bank@.take(bank.len() as int) =~= bank@);
        }
        i = i + 1;
    }
    proof {
        assert(memory@.take(memory.len() as int) =~= memory@);
    }
    true
}


// ── Peripheral sets ──

/// The names of a list of peripherals.
pub open spec fn peripheral_names(ps: Seq<PeripheralData>) -> Seq<Seq<char>> {
    ps.map_values(|p: PeripheralData| p.name@)
}

/// `x` added to a list kept in ascending order without repeats: nothing
/// changes where it is there already.
pub open spec fn insert_unique(s: Seq<Seq<char>>, x: Seq<char>) -> Seq<Seq<char>>
    decreases s.len(),
{
    if s.len() == 0 {
        seq![x]
    } else if s.last() == x {
        s
    } else if text_lt(s.last(), x) {
        s.push(x)
    } else {
        insert_unique(s.drop_last(), x).push(s.last())
    }
}

/// The distinct names in ascending order.
pub open spec fn distinct_sorted(names: Seq<Seq<char>>) -> Seq<Seq<char>>
    decreases names.len(),
{
    if names.len() == 0 {
        Seq::empty()
    } else {
        insert_unique(distinct_sorted(names.drop_last()), names.last())
    }
}

/// The names of `s` that do not occur in `other`, in their order in `s`.
pub open spec fn missing_from(s: Seq<Seq<char>>, other: Seq<Seq<char>>) -> Seq<Seq<char>>
    decreases s.len(),
{
    if s.len() == 0 {
        Seq::empty()
    } else if other.contains(s.last()) {
        missing_from(s.drop_last(), other)
    } else {
        missing_from(s.drop_last(), other).push(s.last())
    }
}

/// How many names of `s` occur in `other`.
pub open spec fn common_count(s: Seq<Seq<char>>, other: Seq<Seq<char>>) -> nat
    decreases s.len(),
{
    if s.len() == 0 {
        0
    } else if other.contains(s.last()) {
        common_count(s.drop_last(), other) + 1
    } else {
        common_count(s.drop_last(), other)
    }
}

proof fn lemma_insert_unique_split(s: Seq<Seq<char>>, x: Seq<char>, j: int)
    requires
        0 < j <= s.len(),
        s[j - 1] != x,
        !text_lt(s[j - 1], x),
    ensures
        insert_unique(s.take(j), x) + s.skip(j) == insert_unique(s.take(j - 1), x) + s.skip(j - 1),
{
    assert(s.take(j).drop_last() =~= s.take(j - 1));
    assert(s.take(j).last() == s[j - 1]);
    assert(s.skip(j - 1) =~= seq![s[j - 1]] + s.skip(j));
    assert(insert_unique(s.take(j), x) + s.skip(j) =~= insert_unique(s.take(j - 1), x) + s.skip(j - 1));
}

/// The distinct peripheral names of a list, in ascending order: the set
/// of names, walked in order.
///
/// The set is held as a `Vec` whose invariant is that its names are in
/// strictly ascending order, so each name occurs once; a name is added in
/// its place unless it is there already. vstd specifies `BTreeSet` only for
/// key types whose ordering it knows, and `String` is not one of them.
pub fn distinct_sorted_names(ps: &Vec<PeripheralData>) -> (r: Vec<String>)
    ensures
        views(r@) == distinct_sorted(peripheral_names(ps@)),
{
    let mut r: Vec<String> = Vec::new();
    let mut i: usize = 0;
    while i < ps.len()
        invariant
            i <= ps.len(),
            views(r@) == distinct_sorted(peripheral_names(ps@.take(i as int))),
        decreases ps.len() - i,
    {
        let x = ps[i].name.clone();
        let mut j: usize = r.len();
        proof {
            assert(views(r@).take(r.len() as int) =~= views(r@));
            assert(views(r@).skip(r.len() as int) =~= Seq::<Seq<char>>::empty());
        }
        while j > 0 && r[j - 1] != x && !str_lt(r[j - 1].as_str(), x.as_str())
            invariant
                j <= r.len(),
                insert_unique(views(r@), x@) == insert_unique(views(r@).take(j as int), x@)
                    + views(r@).skip(j as int),
            decreases j,
        {
            proof {
                lemma_insert_unique_split(views(r@), x@, j as int);
            }
            j = j - 1;
        }
        proof {
            assert(peripheral_names(ps@.take(i + 1)).drop_last() =~= peripheral_names(ps@.take(i as int)));
            assert(peripheral_names(ps@.take(i + 1)).last() == x@);
            if j == 0 {
                assert(views(r@).take(0) =~= Seq::<Seq<char>>::empty());
            } else {
                assert(views(r@).take(j as int).last() == r@[j - 1]@);
            }
        }
        if j > 0 && r[j - 1] == x {
            proof {
                assert(views(r@).take(j as int) + views(r@).skip(j as int) =~= views(r@));
            }
        } else {
            let ghost before = views(r@);
            proof {
                assert(insert_unique(before.take(j as int), x@) == before.take(j as int).push(x@));
            }
            r.insert(j, x);
            proof {
                assert(views(r@) =~= before.take(j as int).push(x@) + before.skip(j as int));
            }
        }
        i = i + 1;
    }
    proof {
        assert(ps@.take(ps.len() as int) =~= ps@);
    }
    r
}

fn has_name(ps: &Vec<PeripheralData>, x: &String) -> (r: bool)
    ensures
        r == peripheral_names(ps@).contains(x@),
{
    let mut k: usize = 0;
    while k < ps.len()
        invariant
            k <= ps.len(),
            forall|k2: int| 0 <= k2 < k ==> ps@[k2].name@ != x@,
        decreases ps.len() - k,
    {
        if ps[k].name == *x {
            proof {
                assert(peripheral_names(ps@)[k as int] == x@);
            }
            return true;
        }
        k = k + 1;
    }
    proof {
        if peripheral_names(ps@).contains(x@) {
            let k2 = choose|k2: int| 0 <= k2 < peripheral_names(ps@).len() && peripheral_names(ps@)[k2] == x@;
            assert(ps@[k2].name@ == x@);
        }
    }
    false
}

/// The names of `s` that no peripheral of `other` has, with how many of
/// `s` some peripheral of `other` has.
fn split_by(s: &Vec<String>, other: &Vec<PeripheralData>) -> (r: (Vec<String>, usize))
    ensures
        views(r.0@) == missing_from(views(s@), peripheral_names(other@)),
        r.1 == common_count(views(s@), peripheral_names(other@)),
{
    let mut missing: Vec<String> = Vec::new();
    let mut common: usize = 0;
    let mut i: usize = 0;
    while i < s.len()
        invariant
            i <= s.len(),
            common <= i,
            views(missing@) == missing_from(views(s@.take(i as int)), peripheral_names(other@)),
            common == common_count(views(s@.take(i as int)), peripheral_names(other@)),
        decreases s.len() - i,
    {
        proof {
            assert(views(s@.take(i + 1)).drop_last() =~= views(s@.take(i as int)));
            assert(views(s@.take(i + 1)).last() == s@[i as int]@);
        }
        if has_name(other, &s[i]) {
            common = common + 1;
        } else {
            let ghost before = views(missing@);
            missing.push(s[i].clone());
            proof {
                assert(views(missing@) =~= before.push(s@[i as int]@));
            }
        }
        i = i + 1;
    }
    proof {
        assert(s@.take(s.len() as int) =~= s@);
    }
    (missing, common)
}

// ── The comparison ──

/// A package as the comparison lists it: type and pin count.
pub open spec fn package_tag(p: PackageData) -> Seq<char> {
    p.package@ + " ("@ + dec_digits(p.pins@.len()) + "pin)"@
}

/// The tags of a chip's packages.
pub open spec fn package_tags(ps: Seq<PackageData>) -> Seq<Seq<char>> {
    ps.map_values(|p: PackageData| package_tag(p))
}

/// The peripheral names of the first core of `a` that the first core of `b` lacks, in ascending order.
pub open spec fn only_on(a: ChipData, b: ChipData) -> Seq<Seq<char>> {
    missing_from(
        distinct_sorted(peripheral_names(a.cores@[0].peripherals@)),
        peripheral_names(b.cores@[0].peripherals@),
    )
}

/// How many distinct peripheral names the first cores of both chips share.
pub open spec fn common_peripherals(a: ChipData, b: ChipData) -> nat {
    common_count(
        distinct_sorted(peripheral_names(a.cores@[0].peripherals@)),
        peripheral_names(b.cores@[0].peripherals@),
    )
}

/// The line that lists the peripherals only `a` has; nothing where there
/// are none.
pub open spec fn only_line(a: ChipData, b: ChipData) -> Seq<char> {
    let oa = only_on(a, b);
    if oa.len() > 0 {
        "  Only on "@ + a.name@ + ": "@ + join(oa, ", "@) + "\n"@
    } else {
        Seq::empty()
    }
}

/// The line that says the peripheral sets are the same, where neither chip
/// has a peripheral that the other lacks.
pub open spec fn identical_line(a: ChipData, b: ChipData) -> Seq<char> {
    if only_on(a, b).len() == 0 && only_on(b, a).len() == 0 {
        "  Both chips have identical peripheral sets.\n"@
    } else {
        Seq::empty()
    }
}

/// The head of the peripheral section, with the count of common peripherals.
pub open spec fn common_line(n: nat) -> Seq<char> {
    "\n--- Peripherals ---\n"@ + "  Common: "@ + dec_digits(n) + " peripherals\n"@
}

/// The peripheral section of the comparison.
pub open spec fn peripheral_section(a: ChipData, b: ChipData) -> Seq<char> {
    common_line(common_peripherals(a, b)) + only_line(a, b) + only_line(b, a) + identical_line(a, b)
}

/// The heading of the comparison: names, family, line and die.
pub open spec fn heading_text(a: ChipData, b: ChipData) -> Seq<char> {
    "Comparison: "@ + a.name@ + " vs "@ + b.name@ + "\n\n"@ + "Family: "@ + a.family@ + " vs "@
        + b.family@ + "\n"@ + "Line: "@ + a.line@ + " vs "@ + b.line@ + "\n"@ + "Die: "@ + a.die@
        + " vs "@ + b.die@ + "\n"@
}

/// The memory section of the comparison: flash and RAM totals.
pub open spec fn memory_text(a: ChipData, b: ChipData) -> Seq<char> {
    "\n--- Memory ---\n"@ + "  Flash: "@ + size_text(flash_total(a.memory@)) + " vs "@ + size_text(
        flash_total(b.memory@),
    ) + "\n"@ + "  RAM: "@ + size_text(ram_total(a.memory@)) + " vs "@ + size_text(ram_total(b.memory@))
        + "\n"@
}

/// The packages section of the comparison: each chip's package tags.
pub open spec fn packages_text(a: ChipData, b: ChipData) -> Seq<char> {
    "\n--- Packages ---\n"@ + "  "@ + a.name@ + ": "@ + join(package_tags(a.packages@), ", "@) + "\n"@
        + "  "@ + b.name@ + ": "@ + join(package_tags(b.packages@), ", "@) + "\n"@
}

/// The counts of interrupts and DMA channels of the first cores.
pub open spec fn counts_text(a: ChipData, b: ChipData) -> Seq<char> {
    "\n--- Interrupts ---\n  "@ + a.name@ + ": "@ + dec_digits(a.cores@[0].interrupts@.len()) + "\n  "@
        + b.name@ + ": "@ + dec_digits(b.cores@[0].interrupts@.len()) + "\n"@
        + "\n--- DMA channels ---\n  "@ + a.name@ + ": "@ + dec_digits(a.cores@[0].dma_channels@.len())
        + "\n  "@ + b.name@ + ": "@ + dec_digits(b.cores@[0].dma_channels@.len()) + "\n"@
}

/// The comparison of two chips.
pub open spec fn compare_text(a: ChipData, b: ChipData) -> Seq<char> {
    heading_text(a, b) + memory_text(a, b) + packages_text(a, b) + peripheral_section(a, b) + counts_text(
        a,
        b,
    )
}

fn package_tag_list(ps: &Vec<PackageData>) -> (r: String)
    ensures
        r@ == join(package_tags(ps@), ", "@),
{
    let mut tags: Vec<String> = Vec::new();
    let mut i: usize = 0;
    while i < ps.len()
        invariant
            i <= ps.len(),
            views(tags@) == package_tags(ps@.take(i as int)),
        decreases ps.len() - i,
    {
        let mut t = String::new();
        t.append(ps[i].package.as_str());
        t.append(" (");
        push_dec(&mut t, ps[i].pins.len() as u64);
        t.append("pin)");
        assert(t@ =~= package_tag(ps@[i as int]));
        let ghost before = views(tags@);
        tags.push(t);
        proof {
            assert(views(tags@) =~= before.push(t@));
            assert(package_tags(ps@.take(i + 1)) =~= package_tags(ps@.take(i as int)).push(
                package_tag(ps@[i as int]),
            ));
        }
        i = i + 1;
    }
    proof {
        assert(ps@.take(ps.len() as int) =~= ps@);
    }
    join_strings(&tags, ", ")
}

fn push_only_on(out: &mut String, name: &String, only: &Vec<String>)
    ensures
        final(out)@ == old(out)@ + if views(only@).len() > 0 {
            "  Only on "@ + name@ + ": "@ + join(views(only@), ", "@) + "\n"@
        } else {
            Seq::empty()
        },
{
    if only.len() > 0 {
        out.append("  Only on ");
        out.append(name.as_str());
        out.append(": ");
        let l = join_strings(only, ", ");
        out.append(l.as_str());
        out.append("\n");
    }
    assert(out@ =~= old(out)@ + if views(only@).len() > 0 {
        "  Only on "@ + name@ + ": "@ + join(views(only@), ", "@) + "\n"@
    } else {
        Seq::empty()
    });
}

fn push_peripheral_section(out: &mut String, a: &ChipData, b: &ChipData)
    requires
        a.cores@.len() > 0,
        b.cores@.len() > 0,
    ensures
        final(out)@ == old(out)@ + peripheral_section(*a, *b),
{
    let names_a = distinct_sorted_names(&a.cores[0].peripherals);
    let names_b = distinct_sorted_names(&b.cores[0].peripherals);
    let (only_a, common) = split_by(&names_a, &b.cores[0].peripherals);
    let (only_b, _) = split_by(&names_b, &a.cores[0].peripherals);
    out.append("\n--- Peripherals ---\n");
    out.append("  Common: ");
    push_dec(out, common as u64);
    out.append(" peripherals\n");
    push_only_on(out, &a.name, &only_a);
    push_only_on(out, &b.name, &only_b);
    if only_a.len() == 0 && only_b.len() == 0 {
        out.append("  Both chips have identical peripheral sets.\n");
    }
    assert(out@ =~= old(out)@ + common_line(common as nat) + only_line(*a, *b) + only_line(*b, *a)
        + identical_line(*a, *b));
}

fn push_vs(out: &mut String, label: &str, x: &String, y: &String)
    ensures
        final(out)@ == old(out)@ + label@ + x@ + " vs "@ + y@ + "\n"@,
{
    out.append(label);
    out.append(x.as_str());
    out.append(" vs ");
    out.append(y.as_str());
    out.append("\n");
    assert(out@ =~= old(out)@ + label@ + x@ + " vs "@ + y@ + "\n"@);
}

fn push_two_counts(out: &mut String, heading: &str, a: &String, na: usize, b: &String, nb: usize)
    ensures
        final(out)@ == old(out)@ + heading@ + a@ + ": "@ + dec_digits(na as nat) + "\n  "@ + b@
            + ": "@ + dec_digits(nb as nat) + "\n"@,
{
    out.append(heading);
    out.append(a.as_str());
    out.append(": ");
    push_dec(out, na as u64);
    out.append("\n  ");
    out.append(b.as_str());
    out.append(": ");
    push_dec(out, nb as u64);
    out.append("\n");
    assert(out@ =~= old(out)@ + heading@ + a@ + ": "@ + dec_digits(na as nat) + "\n  "@ + b@
        + ": "@ + dec_digits(nb as nat) + "\n"@);
}

fn push_heading(out: &mut String, a: &ChipData, b: &ChipData)
    ensures
        final(out)@ == old(out)@ + heading_text(*a, *b),
{
    out.append("Comparison: ");
    out.append(a.name.as_str());
    out.append(" vs ");
    out.append(b.name.as_str());
    out.append("\n\n");
    push_vs(out, "Family: ", &a.family, &b.family);
    push_vs(out, "Line: ", &a.line, &b.line);
    push_vs(out, "Die: ", &a.die, &b.die);
    assert(out@ =~= old(out)@ + heading_text(*a, *b));
}

fn push_memory(out: &mut String, a: &ChipData, b: &ChipData)
    requires
        totals_fit(a.memory@),
        totals_fit(b.memory@),
    ensures
        final(out)@ == old(out)@ + memory_text(*a, *b),
{
    out.append("\n--- Memory ---\n");
    let (flash_a, ram_a) = mem_summary(&a.memory);
    let (flash_b, ram_b) = mem_summary(&b.memory);
    let fa = fmt_size(flash_a);
    let fb = fmt_size(flash_b);
    push_vs(out, "  Flash: ", &fa, &fb);
    let ra = fmt_size(ram_a);
    let rb = fmt_size(ram_b);
    push_vs(out, "  RAM: ", &ra, &rb);
    assert(out@ =~= old(out)@ + memory_text(*a, *b));
}

fn push_packages(out: &mut String, a: &ChipData, b: &ChipData)
    ensures
        final(out)@ == old(out)@ + packages_text(*a, *b),
{
    out.append("\n--- Packages ---\n");
    out.append("  ");
    out.append(a.name.as_str());
    out.append(": ");
    let pa = package_tag_list(&a.packages);
    out.append(pa.as_str());
    out.append("\n");
    out.append("  ");
    out.append(b.name.as_str());
    out.append(": ");
    let pb = package_tag_list(&b.packages);
    out.append(pb.as_str());
    out.append("\n");
    assert(out@ =~= old(out)@ + packages_text(*a, *b));
}

fn push_counts(out: &mut String, a: &ChipData, b: &ChipData)
    requires
        a.cores@.len() > 0,
        b.cores@.len() > 0,
    ensures
        final(out)@ == old(out)@ + counts_text(*a, *b),
{
    push_two_counts(
        out,
        "\n--- Interrupts ---\n  ",
        &a.name,
        a.cores[0].interrupts.len(),
        &b.name,
        b.cores[0].interrupts.len(),
    );
    push_two_counts(
        out,
        "\n--- DMA channels ---\n  ",
        &a.name,
        a.cores[0].dma_channels.len(),
        &b.name,
        b.cores[0].dma_channels.len(),
    );
    assert(out@ =~= old(out)@ + counts_text(*a, *b));
}

/// Two chips side by side: family, line and die; flash and RAM totals;
/// packages; peripherals that only one of them has, and how many both
/// have; numbers of interrupts and DMA channels.
pub fn compare_report(a: &ChipData, b: &ChipData) -> (r: String)
    requires
        a.cores@.len() > 0,
        b.cores@.len() > 0,
        totals_fit(a.memory@),
        totals_fit(b.memory@),
    ensures
        r@ == compare_text(*a, *b),
{
    let mut out = String::new();
    push_heading(&mut out, a, b);
    let ghost part1 = out@;
    push_memory(&mut out, a, b);
    let ghost part2 = out@;
    push_packages(&mut out, a, b);
    let ghost part3 = out@;
    push_peripheral_section(&mut out, a, b);
    let ghost part4 = out@;
    push_counts(&mut out, a, b);
    assert(out@ =~= compare_text(*a, *b));
    out
}


// ── Laws of the peripheral sets ──

/// Whether the texts are in strictly ascending order (so without repeats).
pub open spec fn strictly_ascending(s: Seq<Seq<char>>) -> bool {
    forall|i: int, j: int| 0 <= i < j < s.len() ==> text_lt(s[i], s[j])
}

#[verifier::spinoff_prover]
proof fn lemma_insert_unique(s: Seq<Seq<char>>, x: Seq<char>)
    requires
        strictly_ascending(s),
    ensures
        strictly_ascending(insert_unique(s, x)),
        forall|y: Seq<char>|
            #![trigger insert_unique(s, x).contains(y)]
            #![trigger s.contains(y)]
            insert_unique(s, x).contains(y) <==> (y == x || s.contains(y)),
    decreases s.len(),
{
    if s.len() == 0 {
        assert(insert_unique(s, x) =~= seq![x]);
        assert forall|y: Seq<char>| insert_unique(s, x).contains(y) <==> (y == x || s.contains(y)) by {
            if insert_unique(s, x).contains(y) {
                assert(insert_unique(s, x)[0] == x);
            }
            if y == x {
                assert(insert_unique(s, x)[0] == x);
            }
        }
    } else if s.last() == x {
        assert forall|y: Seq<char>| insert_unique(s, x).contains(y) <==> (y == x || s.contains(y)) by {
            if y == x {
                assert(s[s.len() - 1] == x);
            }
        }
    } else if text_lt(s.last(), x) {
        assert forall|i: int| 0 <= i < s.len() implies text_lt(s[i], x) by {
            if i < s.len() - 1 {
                lemma_text_lt_transitive(s[i], s[s.len() - 1], x);
            }
        }
        let r = s.push(x);
        assert forall|y: Seq<char>| r.contains(y) <==> (y == x || s.contains(y)) by {
            if r.contains(y) {
                let k = choose|k: int| 0 <= k < r.len() && r[k] == y;
                if k < s.len() {
                    assert(s[k] == y);
                }
            }
            if y == x {
                assert(r[s.len() as int] == x);
            }
            if s.contains(y) {
                let k = choose|k: int| 0 <= k < s.len() && s[k] == y;
                assert(r[k] == y);
            }
        }
    } else {
        let t = s.drop_last();
        let last = s.last();
        assert(strictly_ascending(t));
        lemma_insert_unique(t, x);
        let r = insert_unique(t, x);
        lemma_text_lt_total(last, x);
        assert forall|i: int| 0 <= i < r.len() implies text_lt(#[trigger] r[i], last) by {
            assert(r.contains(r[i]));
            if r[i] != x {
                assert(t.contains(r[i]));
                let k = choose|k: int| 0 <= k < t.len() && t[k] == r[i];
                assert(s[k] == t[k]);
            }
        }
        let r2 = r.push(last);
        assert(insert_unique(s, x) == r2);
        assert(s =~= t.push(last));
        assert forall|y: Seq<char>| r2.contains(y) <==> (y == x || s.contains(y)) by {
            if r2.contains(y) {
                let k = choose|k: int| 0 <= k < r2.len() && r2[k] == y;
                if k < r.len() {
                    assert(r[k] == y);
                    assert(r.contains(y));
                    assert(y == x || t.contains(y));
                    if y != x {
                        assert(t.contains(y));
                        let m = choose|m: int| 0 <= m < t.len() && t[m] == y;
                        assert(s[m] == y);
                    }
                } else {
                    assert(s[s.len() - 1] == y);
                }
            }
            if y == x {
                assert(r.contains(x));
                let k = choose|k: int| 0 <= k < r.len() && r[k] == x;
                assert(r2[k] == x);
            }
            if s.contains(y) {
                let k = choose|k: int| 0 <= k < s.len() && s[k] == y;
                if k < s.len() - 1 {
                    assert(t[k] == y);
                    assert(t.contains(y));
                    assert(r.contains(y));
                    let m = choose|m: int| 0 <= m < r.len() && r[m] == y;
                    assert(r2[m] == y);
                } else {
                    assert(r2[r.len() as int] == y);
                }
            }
        }
    }
}

/// The distinct names, sorted, are in strictly ascending order and are
/// exactly the names that occur.
pub proof fn lemma_distinct_sorted(names: Seq<Seq<char>>)
    ensures
        strictly_ascending(distinct_sorted(names)),
        forall|y: Seq<char>| distinct_sorted(names).contains(y) <==> names.contains(y),
    decreases names.len(),
{
    if names.len() > 0 {
        let t = names.drop_last();
        lemma_distinct_sorted(t);
        lemma_insert_unique(distinct_sorted(t), names.last());
        assert forall|y: Seq<char>| distinct_sorted(names).contains(y) <==> names.contains(y) by {
            if names.contains(y) {
                let k = choose|k: int| 0 <= k < names.len() && names[k] == y;
                if k < names.len() - 1 {
                    assert(t[k] == y);
                }
            }
            if t.contains(y) {
                let k = choose|k: int| 0 <= k < t.len() && t[k] == y;
                assert(names[k] == y);
            }
        }
    }
}

proof fn lemma_missing_from(s: Seq<Seq<char>>, other: Seq<Seq<char>>)
    requires
        strictly_ascending(s),
    ensures
        strictly_ascending(missing_from(s, other)),
        forall|y: Seq<char>| missing_from(s, other).contains(y) <==> (s.contains(y) && !other.contains(y)),
    decreases s.len(),
{
    if s.len() > 0 {
        let t = s.drop_last();
        assert(strictly_ascending(t));
        lemma_missing_from(t, other);
        let r = missing_from(t, other);
        assert forall|y: Seq<char>| t.contains(y) implies s.contains(y) by {
            let k = choose|k: int| 0 <= k < t.len() && t[k] == y;
            assert(s[k] == y);
        }
        assert forall|y: Seq<char>| s.contains(y) && y != s.last() implies t.contains(y) by {
            let k = choose|k: int| 0 <= k < s.len() && s[k] == y;
            assert(t[k] == y);
        }
        if !other.contains(s.last()) {
            let r2 = r.push(s.last());
            assert forall|i: int| 0 <= i < r.len() implies text_lt(#[trigger] r[i], s.last()) by {
                assert(r.contains(r[i]));
                assert(t.contains(r[i]) && !other.contains(r[i]));
                let k = choose|k: int| 0 <= k < t.len() && t[k] == r[i];
                assert(s[k] == t[k]);
            }
            assert forall|y: Seq<char>| r2.contains(y) <==> (s.contains(y) && !other.contains(y)) by {
                if r2.contains(y) {
                    let k = choose|k: int| 0 <= k < r2.len() && r2[k] == y;
                    if k < r.len() {
                        assert(r[k] == y);
                    }
                }
                if s.contains(y) && !other.contains(y) {
                    if y == s.last() {
                        assert(r2[r.len() as int] == y);
                    } else {
                        assert(r.contains(y));
                        let k = choose|k: int| 0 <= k < r.len() && r[k] == y;
                        assert(r2[k] == y);
                    }
                }
            }
        } else {
            assert forall|y: Seq<char>| r.contains(y) <==> (s.contains(y) && !other.contains(y)) by {
                if s.contains(y) && !other.contains(y) {
                    assert(y != s.last());
                }
            }
        }
    }
}

proof fn lemma_common_count(s: Seq<Seq<char>>, other: Seq<Seq<char>>)
    requires
        strictly_ascending(s),
    ensures
        common_count(s, other) == s.to_set().intersect(other.to_set()).len(),
    decreases s.len(),
{
    broadcast use vstd::set::group_set_axioms, vstd::seq_lib::seq_to_set_is_finite;

    if s.len() == 0 {
        assert(s.to_set().intersect(other.to_set()) =~= Set::empty());
    } else {
        let t = s.drop_last();
        let l = s.last();
        assert(strictly_ascending(t));
        lemma_common_count(t, other);
        assert(!t.contains(l)) by {
            if t.contains(l) {
                let k = choose|k: int| 0 <= k < t.len() && t[k] == l;
                assert(text_lt(s[k], s[s.len() - 1]));
                lemma_text_lt_irreflexive(l);
            }
        }
        assert(s.to_set() =~= t.to_set().insert(l)) by {
            assert forall|y: Seq<char>| s.contains(y) <==> (t.contains(y) || y == l) by {
                if s.contains(y) {
                    let k = choose|k: int| 0 <= k < s.len() && s[k] == y;
                    if k < s.len() - 1 {
                        assert(t[k] == y);
                    }
                }
                if t.contains(y) {
                    let k = choose|k: int| 0 <= k < t.len() && t[k] == y;
                    assert(s[k] == y);
                }
                if y == l {
                    assert(s[s.len() - 1] == y);
                }
            }
        }
        let ti = t.to_set().intersect(other.to_set());
        if other.contains(l) {
            assert(s.to_set().intersect(other.to_set()) =~= ti.insert(l));
            assert(!ti.contains(l));
        } else {
            assert(s.to_set().intersect(other.to_set()) =~= ti);
        }
    }
}

/// What the comparison lists as only on `a`: in strictly ascending order,
/// exactly the peripheral names of `a`'s first core that `b`'s first core
/// lacks; no name is listed as only on both.
pub proof fn lemma_only_on(a: ChipData, b: ChipData)
    requires
        a.cores@.len() > 0,
        b.cores@.len() > 0,
    ensures
        strictly_ascending(only_on(a, b)),
        forall|n: Seq<char>|
            only_on(a, b).contains(n) <==> (peripheral_names(a.cores@[0].peripherals@).contains(n)
                && !peripheral_names(b.cores@[0].peripherals@).contains(n)),
        forall|n: Seq<char>| !(only_on(a, b).contains(n) && only_on(b, a).contains(n)),
{
    let na = peripheral_names(a.cores@[0].peripherals@);
    let nb = peripheral_names(b.cores@[0].peripherals@);
    lemma_distinct_sorted(na);
    lemma_distinct_sorted(nb);
    lemma_missing_from(distinct_sorted(na), nb);
    lemma_missing_from(distinct_sorted(nb), na);
    assert forall|n: Seq<char>| !(only_on(a, b).contains(n) && only_on(b, a).contains(n)) by {
        if only_on(a, b).contains(n) {
            assert(!nb.contains(n));
            assert(!distinct_sorted(nb).contains(n));
        }
    }
}

/// The number of common peripherals is the number of distinct names on
/// both first cores, whichever chip comes first.
pub proof fn lemma_common_peripherals(a: ChipData, b: ChipData)
    requires
        a.cores@.len() > 0,
        b.cores@.len() > 0,
    ensures
        common_peripherals(a, b) == peripheral_names(a.cores@[0].peripherals@).to_set().intersect(
            peripheral_names(b.cores@[0].peripherals@).to_set(),
        ).len(),
        common_peripherals(a, b) == common_peripherals(b, a),
{
    let na = peripheral_names(a.cores@[0].peripherals@);
    let nb = peripheral_names(b.cores@[0].peripherals@);
    lemma_distinct_sorted(na);
    lemma_distinct_sorted(nb);
    lemma_common_count(distinct_sorted(na), nb);
    lemma_common_count(distinct_sorted(nb), na);
    assert(distinct_sorted(na).to_set() =~= na.to_set());
    assert(distinct_sorted(nb).to_set() =~= nb.to_set());
    assert(na.to_set().intersect(nb.to_set()) =~= nb.to_set().intersect(na.to_set()));
}

/// Comparing `b` with `a` gives the same peripheral section as comparing
/// `a` with `b`, but for the order of the two "only on" lines: the same
/// count of common peripherals, the same list under each chip's name, and
/// the identical-sets line in both or in neither. That line appears exactly
/// when the first cores have the same set of peripheral names.
pub proof fn lemma_compare_symmetric(a: ChipData, b: ChipData)
    requires
        a.cores@.len() > 0,
        b.cores@.len() > 0,
    ensures
        peripheral_section(a, b) == common_line(common_peripherals(a, b)) + only_line(a, b)
            + only_line(b, a) + identical_line(a, b),
        peripheral_section(b, a) == common_line(common_peripherals(a, b)) + only_line(b, a)
            + only_line(a, b) + identical_line(a, b),
        identical_line(a, b) == identical_line(b, a),
        identical_line(a, b).len() > 0 <==> peripheral_names(a.cores@[0].peripherals@).to_set()
            == peripheral_names(b.cores@[0].peripherals@).to_set(),
{
    lemma_common_peripherals(a, b);
    lemma_only_on(a, b);
    lemma_only_on(b, a);
    reveal_strlit("  Both chips have identical peripheral sets.\n");
    let na = peripheral_names(a.cores@[0].peripherals@);
    let nb = peripheral_names(b.cores@[0].peripherals@);
    if only_on(a, b).len() == 0 && only_on(b, a).len() == 0 {
        assert forall|n: Seq<char>| na.to_set().contains(n) <==> nb.to_set().contains(n) by {
            if na.contains(n) && !nb.contains(n) {
                assert(only_on(a, b).contains(n));
            }
            if nb.contains(n) && !na.contains(n) {
                assert(only_on(b, a).contains(n));
            }
        }
        assert(na.to_set() =~= nb.to_set());
    } else if only_on(a, b).len() > 0 {
        let n = only_on(a, b)[0];
        assert(only_on(a, b).contains(n));
        assert(na.to_set().contains(n) && !nb.to_set().contains(n));
    } else {
        let n = only_on(b, a)[0];
        assert(only_on(b, a).contains(n));
        assert(nb.to_set().contains(n) && !na.to_set().contains(n));
    }
}

/// The comparison's Packages section lists, under each chip's name, one tag
/// per package of that chip, in order and separated by commas: the k-th is
/// the k-th package's type followed by its pin count.
pub proof fn lemma_compare_packages(a: ChipData, b: ChipData)
    ensures
        occurs_in(
            "\n--- Packages ---\n"@ + "  "@ + a.name@ + ": "@ + join(
                Seq::new(
                    a.packages@.len(),
                    |k: int| a.packages@[k].package@ + " ("@ + dec_digits(a.packages@[k].pins@.len()) + "pin)"@,
                ),
                ", "@,
            ) + "\n"@ + "  "@ + b.name@ + ": "@ + join(
                Seq::new(
                    b.packages@.len(),
                    |k: int| b.packages@[k].package@ + " ("@ + dec_digits(b.packages@[k].pins@.len()) + "pin)"@,
                ),
                ", "@,
            ) + "\n"@,
            compare_text(a, b),
        ),
{
    let ta = Seq::new(
        a.packages@.len(),
        |k: int| a.packages@[k].package@ + " ("@ + dec_digits(a.packages@[k].pins@.len()) + "pin)"@,
    );
    let tb = Seq::new(
        b.packages@.len(),
        |k: int| b.packages@[k].package@ + " ("@ + dec_digits(b.packages@[k].pins@.len()) + "pin)"@,
    );
    assert(package_tags(a.packages@) =~= ta);
    assert(package_tags(b.packages@) =~= tb);
    let before = heading_text(a, b) + memory_text(a, b);
    let after = peripheral_section(a, b) + counts_text(a, b);
    lemma_occurs_in(before, packages_text(a, b), after);
    assert(compare_text(a, b) =~= before + packages_text(a, b) + after);
}

} // verus!
