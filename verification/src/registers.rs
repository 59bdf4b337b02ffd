//! The register layout of a peripheral: which register block describes
//! it, where that block's description lives, and the report on it.

use vstd::prelude::*;
use vstd::string::*;
use crate::json::{parse_json, parsed_json, array_of, as_array, as_str, as_u64, get, get_member, str_of, u64_of, Json};
use crate::lookup::{find_in_core, first_in, named_in};
use crate::model::{ChipData, CoreData, PeripheralData, RegisterRef};
use crate::names::{query_key, uppercase_of};
use crate::text::{alt_hex, concat_map, dec_digits, lemma_concat_map_push, push_alt_hex, push_dec};

verus! {

impl RegisterRef {
    /// A copy of this reference.
    pub fn copy(&self) -> (r: Self)
        ensures
            r == *self,
    {
        RegisterRef { kind: self.kind.clone(), version: self.version.clone(), block: self.block.clone() }
    }
}

// ── Which register block ──

/// The register block of the peripheral named `name`, looked up core by
/// core: each core with such a peripheral replaces the answer with the
/// register block of its first one, so the last such core decides.
pub open spec fn register_choice(cores: Seq<CoreData>, name: Seq<char>) -> Option<RegisterRef>
    decreases cores.len(),
{
    if cores.len() == 0 {
        None
    } else if named_in(cores.last().peripherals@, name) {
        let ps = cores.last().peripherals@;
        ps[choose|j: int| first_in(ps, j, name)].registers
    } else {
        register_choice(cores.drop_last(), name)
    }
}

/// A peripheral's name as looked up, with the register block that describes it.
pub struct RegisterQuery {
    pub peripheral: String,
    pub registers: RegisterRef,
}

/// The answer when no register block is known for the peripheral.
pub open spec fn no_register_block_text(chip: ChipData, name: Seq<char>) -> Seq<char> {
    "Peripheral '"@ + name + "' not found on "@ + chip.name@ + ", or it has no register block."@
}

proof fn lemma_first_in_unique(ps: Seq<PeripheralData>, name: Seq<char>, j: int)
    requires
        first_in(ps, j, name),
    ensures
        (choose|k: int| first_in(ps, k, name)) == j,
{
    let k = choose|k: int| first_in(ps, k, name);
    assert(first_in(ps, k, name));
    if k < j {
        assert(ps[k].name@ != name);
    } else if j < k {
        assert(ps[j].name@ != name);
    }
}

/// The register block of a peripheral (named case-insensitively), or the
/// answer that there is none.
pub fn register_query(chip: &ChipData, peripheral: &str) -> (r: Result<RegisterQuery, String>)
    ensures
        match r {
            Ok(q) => q.peripheral@ == uppercase_of(peripheral@) && register_choice(
                chip.cores@,
                q.peripheral@,
            ) == Some(q.registers),
            Err(e) => register_choice(chip.cores@, uppercase_of(peripheral@)) is None && e@
                == no_register_block_text(*chip, uppercase_of(peripheral@)),
        },
{
    let name = query_key(peripheral);
    register_query_for(chip, name.as_str())
}

/// The register block of the peripheral named exactly `key`, or the answer
/// that there is none.
pub fn register_query_for(chip: &ChipData, key: &str) -> (r: Result<RegisterQuery, String>)
    ensures
        match r {
            Ok(q) => q.peripheral@ == key@ && register_choice(chip.cores@, key@) == Some(q.registers),
            Err(e) => register_choice(chip.cores@, key@) is None && e@ == no_register_block_text(*chip, key@),
        },
{
    let name = String::from_str(key);
    let mut found: Option<RegisterRef> = None;
    let mut i: usize = 0;
    while i < chip.cores.len()
        invariant
            i <= chip.cores.len(),
            found == register_choice(chip.cores@.take(i as int), name@),
        decreases chip.cores.len() - i,
    {
        proof {
            assert(chip.cores@.take(i + 1).drop_last() =~= chip.cores@.take(i as int));
            assert(chip.cores@.take(i + 1).last() == chip.cores@[i as int]);
        }
        match find_in_core(&chip.cores[i].peripherals, &name) {
            Some(j) => {
                proof {
                    lemma_first_in_unique(chip.cores@[i as int].peripherals@, name@, j as int);
                }
                found = match &chip.cores[i].peripherals[j].registers {
                    Some(r) => Some(r.copy()),
                    None => None,
                };
            },
            None => {},
        }
        i = i + 1;
    }
    proof {
        assert(chip.cores@.take(chip.cores.len() as int) =~= chip.cores@);
    }
    match found {
        Some(reg) => Ok(RegisterQuery { peripheral: name, registers: reg }),
        None => {
            let mut e = String::new();
            e.append("Peripheral '");
            e.append(name.as_str());
            e.append("' not found on ");
            e.append(chip.name.as_str());
            e.append(", or it has no register block.");
            assert(e@ =~= no_register_block_text(*chip, name@));
            Err(e)
        },
    }
}

/// The name of the file that describes a register block: `kind_version.json`.
pub open spec fn register_file_text(r: RegisterRef) -> Seq<char> {
    r.kind@ + "_"@ + r.version@ + ".json"@
}

/// The name of the file that describes a register block.
pub fn register_file_name(r: &RegisterRef) -> (s: String)
    ensures
        s@ == register_file_text(*r),
{
    let mut s = String::new();
    s.append(r.kind.as_str());
    s.append("_");
    s.append(r.version.as_str());
    s.append(".json");
    assert(s@ =~= register_file_text(*r));
    s
}

/// The answer when the register file cannot be read.
pub fn register_file_missing(file_name: &str) -> (s: String)
    ensures
        s@ == "Register file '"@ + file_name@ + "' not found."@,
{
    let mut s = String::new();
    s.append("Register file '");
    s.append(file_name);
    s.append("' not found.");
    assert(s@ =~= "Register file '"@ + file_name@ + "' not found."@);
    s
}

/// The answer when the register file is not valid JSON; `detail` says why.
pub fn register_parse_failure(detail: &str) -> (s: String)
    ensures
        s@ == "Failed to parse register data: "@ + detail@,
{
    let mut s = String::new();
    s.append("Failed to parse register data: ");
    s.append(detail);
    s
}

/// The register description read from the text of a register file: the
/// parsed document, or the parse failure message around the parser's
/// error.
pub fn register_document(text: &str) -> (r: Result<Json, String>)
    ensures
        match parsed_json(text@) {
            Ok(j) => r == Ok::<Json, String>(j),
            Err(e) => r is Err && r->Err_0@ == "Failed to parse register data: "@ + e,
        },
{
    match parse_json(text) {
        Ok(j) => Ok(j),
        Err(e) => Err(register_parse_failure(e.as_str())),
    }
}

// ── The register report ──

/// `v`, or `d` where there is no `v`.
pub open spec fn text_or(v: Option<Seq<char>>, d: Seq<char>) -> Seq<char> {
    match v {
        Some(s) => s,
        None => d,
    }
}

/// `v`, or `d` where there is no `v`.
pub open spec fn number_or(v: Option<u64>, d: u64) -> u64 {
    match v {
        Some(n) => n,
        None => d,
    }
}

/// The em-dashed description suffix, where the description is not empty.
pub open spec fn description_suffix(d: Seq<char>) -> Seq<char> {
    if d.len() > 0 {
        " \u{2014} "@ + d
    } else {
        Seq::empty()
    }
}

/// The bit offset of a field; 0 where it is not given.
pub open spec fn field_offset(field: Json) -> u64 {
    number_or(as_u64(get(field, "bit_offset"@)), 0)
}

/// The width of a field in bits; 1 where it is not given.
pub open spec fn field_width(field: Json) -> u64 {
    number_or(as_u64(get(field, "bit_size"@)), 1)
}

/// Whether the last bit of a field can be computed in 64 bits: the field is
/// one bit wide, or its offset plus its width is between 1 and the largest
/// 64-bit value.
pub open spec fn field_range_ok(field: Json) -> bool {
    field_width(field) == 1 || (1 <= field_offset(field) + field_width(field) <= u64::MAX)
}

/// The line on one field: bit or bit range, name, description.
pub open spec fn field_line(field: Json) -> Seq<char> {
    let name = text_or(as_str(get(field, "name"@)), "?"@);
    let off = field_offset(field);
    let width = field_width(field);
    (if width == 1 {
        "    ["@ + dec_digits(off as nat) + "] "@ + name
    } else {
        "    ["@ + dec_digits(off as nat) + ":"@ + dec_digits((off + width - 1) as nat) + "] "@
            + name
    }) + description_suffix(text_or(as_str(get(field, "description"@)), Seq::empty())) + "\n"@
}

/// The variants of the enumeration that a field names, where the document
/// has them.
pub open spec fn field_variants(regs: Json, field: Json) -> Option<Seq<Json>> {
    match as_str(get(field, "enum"@)) {
        Some(e) => match get(regs, "enum/"@ + e) {
            Some(en) => as_array(get(en, "variants"@)),
            None => None,
        },
        None => None,
    }
}

/// The line on one enumerated value: value, name, description.
pub open spec fn variant_text(v: Json) -> Seq<char> {
    "      "@ + dec_digits(number_or(as_u64(get(v, "value"@)), 0) as nat) + " = "@ + text_or(
        as_str(get(v, "name"@)),
        "?"@,
    ) + description_suffix(text_or(as_str(get(v, "description"@)), Seq::empty())) + "\n"@
}

pub open spec fn variant_fn() -> spec_fn(Json) -> Seq<char> {
    |v: Json| variant_text(v)
}

/// The line on one field, then the lines on its enumerated values.
pub open spec fn field_text(regs: Json, field: Json) -> Seq<char> {
    field_line(field) + match field_variants(regs, field) {
        Some(vs) => concat_map(vs, variant_fn()),
        None => Seq::empty(),
    }
}

pub open spec fn field_fn(regs: Json) -> spec_fn(Json) -> Seq<char> {
    |f: Json| field_text(regs, f)
}

/// The fields of the fieldset that a register names, where the document has them.
pub open spec fn item_fields(regs: Json, item: Json) -> Option<Seq<Json>> {
    match as_str(get(item, "fieldset"@)) {
        Some(fs) => match get(regs, "fieldset/"@ + fs) {
            Some(set) => as_array(get(set, "fields"@)),
            None => None,
        },
        None => None,
    }
}

/// The bit size of a register, where given.
pub open spec fn bits_suffix(bits: Option<u64>) -> Seq<char> {
    match bits {
        Some(b) => " ("@ + dec_digits(b as nat) + "bit)"@,
        None => Seq::empty(),
    }
}

/// The access of a register, where given.
pub open spec fn access_suffix(access: Option<Seq<char>>) -> Seq<char> {
    match access {
        Some(a) => " ["@ + a + "]"@,
        None => Seq::empty(),
    }
}

/// The line on one register, then the lines on its fields.
pub open spec fn item_text(regs: Json, item: Json) -> Seq<char> {
    "  "@ + alt_hex(number_or(as_u64(get(item, "byte_offset"@)), 0) as nat, 6) + " "@ + text_or(
        as_str(get(item, "name"@)),
        "?"@,
    ) + bits_suffix(as_u64(get(item, "bit_size"@))) + access_suffix(as_str(get(item, "access"@)))
        + description_suffix(text_or(as_str(get(item, "description"@)), Seq::empty())) + "\n"@
        + match item_fields(regs, item) {
        Some(fields) => concat_map(fields, field_fn(regs)),
        None => Seq::empty(),
    }
}

pub open spec fn item_fn(regs: Json) -> spec_fn(Json) -> Seq<char> {
    |item: Json| item_text(regs, item)
}

/// The description paragraph of a block, where it has one.
pub open spec fn block_description(block: Json) -> Seq<char> {
    match as_str(get(block, "description"@)) {
        Some(d) => d + "\n"@ + "\n"@,
        None => Seq::empty(),
    }
}

/// The register list of a block, where it has one.
pub open spec fn block_items(regs: Json, block: Json) -> Seq<char> {
    match as_array(get(block, "items"@)) {
        Some(items) => "Registers:\n"@ + concat_map(items, item_fn(regs)),
        None => Seq::empty(),
    }
}

/// The description and registers of block `name`, where the document has it.
pub open spec fn block_text(regs: Json, name: Seq<char>) -> Seq<char> {
    match get(regs, "block/"@ + name) {
        Some(block) => block_description(block) + block_items(regs, block),
        None => Seq::empty(),
    }
}

/// Whether every field of the fieldset that a register names has a computable bit range.
pub open spec fn item_ranges_ok(regs: Json, item: Json) -> bool {
    match item_fields(regs, item) {
        Some(fields) => forall|k: int| 0 <= k < fields.len() ==> field_range_ok(fields[k]),
        None => true,
    }
}

/// Whether the fields of every register in the list have computable bit ranges.
pub open spec fn items_ranges_ok(regs: Json, items: Seq<Json>) -> bool {
    forall|i: int| 0 <= i < items.len() ==> #[trigger] item_ranges_ok(regs, items[i])
}

/// Whether the fields of every register of a block have computable bit ranges.
pub open spec fn block_ranges_ok(regs: Json, block: Json) -> bool {
    match as_array(get(block, "items"@)) {
        Some(items) => items_ranges_ok(regs, items),
        None => true,
    }
}

/// Whether every field that the report on block `name` prints has a
/// computable bit range.
pub open spec fn register_ranges_ok(regs: Json, name: Seq<char>) -> bool {
    match get(regs, "block/"@ + name) {
        Some(block) => block_ranges_ok(regs, block),
        None => true,
    }
}

/// The register report: the register block, its description, each register
/// with offset, size, access and description, each field with its bits,
/// and each enumerated value of a field.
pub open spec fn register_report_text(chip: ChipData, q: RegisterQuery, regs: Json) -> Seq<char> {
    if regs is Object {
        "Registers for "@ + q.peripheral@ + " on "@ + chip.name@ + " ("@ + q.registers.kind@ + "_"@
            + q.registers.version@ + ", block="@ + q.registers.block@ + "):\n\n"@ + block_text(
            regs,
            q.registers.block@,
        )
    } else {
        "Invalid register data format."@
    }
}

fn push_description_suffix(out: &mut String, d: &str)
    ensures
        final(out)@ == old(out)@ + description_suffix(d@),
{
    if d.unicode_len() > 0 {
        out.append(" \u{2014} ");
        out.append(d);
    }
    assert(out@ =~= old(out)@ + description_suffix(d@));
}

fn push_variant(out: &mut String, v: &Json)
    ensures
        final(out)@ == old(out)@ + variant_text(*v),
{
    let name: &str = match str_of(get_member(v, "name")) {
        Some(s) => s.as_str(),
        None => "?",
    };
    let value: u64 = match u64_of(get_member(v, "value")) {
        Some(n) => n,
        None => 0,
    };
    let desc: &str = match str_of(get_member(v, "description")) {
        Some(s) => s.as_str(),
        None => "",
    };
    proof {
        reveal_strlit("");
    }
    assert(name@ == text_or(as_str(get(*v, "name"@)), "?"@));
    assert(desc@ == text_or(as_str(get(*v, "description"@)), Seq::empty()));
    out.append("      ");
    push_dec(out, value);
    out.append(" = ");
    out.append(name);
    push_description_suffix(out, desc);
    out.append("\n");
    assert(out@ =~= old(out)@ + variant_text(*v));
}

fn push_variants(out: &mut String, regs: &Json, field: &Json)
    ensures
        final(out)@ == old(out)@ + match field_variants(*regs, *field) {
            Some(vs) => concat_map(vs, variant_fn()),
            None => Seq::empty(),
        },
{
    let ghost start = out@;
    match str_of(get_member(field, "enum")) {
        Some(e) => {
            let mut key = String::new();
            key.append("enum/");
            key.append(e.as_str());
            match get_member(regs, key.as_str()) {
                Some(en) => {
                    let m = get_member(en, "variants");
                    match array_of(m) {
                        Some(vs) => {
                            assert(field_variants(*regs, *field) == Some(vs@));
                            let mut k: usize = 0;
                            while k < vs.len()
                                invariant
                                    k <= vs.len(),
                                    out@ == start + concat_map(vs@.take(k as int), variant_fn()),
                                decreases vs.len() - k,
                            {
                                proof {
                                    lemma_concat_map_push(start, vs@, variant_fn(), k as int);
                                }
                                push_variant(out, &vs[k]);
                                k = k + 1;
                            }
                            proof {
                                assert(vs@.take(vs.len() as int) =~= vs@);
                            }
                        },
                        None => {},
                    }
                },
                None => {},
            }
        },
        None => {},
    }
    let ghost tail = match field_variants(*regs, *field) {
        Some(vs) => concat_map(vs, variant_fn()),
        None => Seq::<char>::empty(),
    };
    assert(out@ =~= start + tail);
}

fn push_field(out: &mut String, regs: &Json, field: &Json)
    requires
        field_range_ok(*field),
    ensures
        final(out)@ == old(out)@ + field_text(*regs, *field),
{
    push_field_line(out, field);
    push_variants(out, regs, field);
    assert(out@ =~= old(out)@ + field_text(*regs, *field));
}

fn push_field_line(out: &mut String, field: &Json)
    requires
        field_range_ok(*field),
    ensures
        final(out)@ == old(out)@ + field_line(*field),
{
    let name: &str = match str_of(get_member(field, "name")) {
        Some(s) => s.as_str(),
        None => "?",
    };
    let off: u64 = match u64_of(get_member(field, "bit_offset")) {
        Some(n) => n,
        None => 0,
    };
    let width: u64 = match u64_of(get_member(field, "bit_size")) {
        Some(n) => n,
        None => 1,
    };
    let desc: &str = match str_of(get_member(field, "description")) {
        Some(s) => s.as_str(),
        None => "",
    };
    proof {
        reveal_strlit("");
    }
    assert(name@ == text_or(as_str(get(*field, "name"@)), "?"@));
    assert(desc@ == text_or(as_str(get(*field, "description"@)), Seq::empty()));
    let ghost start = out@;
    if width == 1 {
        out.append("    [");
        push_dec(out, off);
        out.append("] ");
        out.append(name);
    } else {
        out.append("    [");
        push_dec(out, off);
        out.append(":");
        push_dec(out, off + width - 1);
        out.append("] ");
        out.append(name);
    }
    let ghost range = if width == 1 {
        "    ["@ + dec_digits(off as nat) + "] "@ + name@
    } else {
        "    ["@ + dec_digits(off as nat) + ":"@ + dec_digits((off + width - 1) as nat) + "] "@
            + name@
    };
    assert(out@ =~= start + range);
    push_description_suffix(out, desc);
    out.append("\n");
    assert(out@ =~= old(out)@ + field_line(*field));
}

fn push_fields(out: &mut String, regs: &Json, fields: &Vec<Json>)
    requires
        forall|k: int| 0 <= k < fields@.len() ==> field_range_ok(fields@[k]),
    ensures
        final(out)@ == old(out)@ + concat_map(fields@, field_fn(*regs)),
{
    let ghost head = out@;
    let mut k: usize = 0;
    while k < fields.len()
        invariant
            k <= fields.len(),
            forall|k2: int| 0 <= k2 < fields@.len() ==> field_range_ok(fields@[k2]),
            out@ == head + concat_map(fields@.take(k as int), field_fn(*regs)),
        decreases fields.len() - k,
    {
        proof {
            lemma_concat_map_push(head, fields@, field_fn(*regs), k as int);
        }
        push_field(out, regs, &fields[k]);
        k = k + 1;
    }
    proof {
        assert(fields@.take(fields.len() as int) =~= fields@);
    }
}

fn push_item_line(out: &mut String, item: &Json)
    ensures
        final(out)@ == old(out)@ + "  "@ + alt_hex(number_or(as_u64(get(*item, "byte_offset"@)), 0) as nat, 6) + " "@
            + text_or(as_str(get(*item, "name"@)), "?"@) + bits_suffix(as_u64(get(*item, "bit_size"@)))
            + access_suffix(as_str(get(*item, "access"@))) + description_suffix(
            text_or(as_str(get(*item, "description"@)), Seq::empty()),
        ) + "\n"@,
{
    let name: &str = match str_of(get_member(item, "name")) {
        Some(s) => s.as_str(),
        None => "?",
    };
    let offset: u64 = match u64_of(get_member(item, "byte_offset")) {
        Some(n) => n,
        None => 0,
    };
    let desc: &str = match str_of(get_member(item, "description")) {
        Some(s) => s.as_str(),
        None => "",
    };
    proof {
        reveal_strlit("");
    }
    assert(desc@ == text_or(as_str(get(*item, "description"@)), Seq::empty()));
    out.append("  ");
    push_alt_hex(out, offset, 6);
    out.append(" ");
    out.append(name);
    let ghost a = out@;
    match u64_of(get_member(item, "bit_size")) {
        Some(bs) => {
            out.append(" (");
            push_dec(out, bs);
            out.append("bit)");
        },
        None => {},
    }
    assert(out@ =~= a + bits_suffix(as_u64(get(*item, "bit_size"@))));
    let ghost b = out@;
    match str_of(get_member(item, "access")) {
        Some(acc) => {
            out.append(" [");
            out.append(acc.as_str());
            out.append("]");
        },
        None => {},
    }
    assert(out@ =~= b + access_suffix(as_str(get(*item, "access"@))));
    push_description_suffix(out, desc);
    out.append("\n");
    assert(out@ =~= old(out)@ + "  "@ + alt_hex(number_or(as_u64(get(*item, "byte_offset"@)), 0) as nat, 6) + " "@
            + text_or(as_str(get(*item, "name"@)), "?"@) + bits_suffix(as_u64(get(*item, "bit_size"@)))
            + access_suffix(as_str(get(*item, "access"@))) + description_suffix(
            text_or(as_str(get(*item, "description"@)), Seq::empty()),
        ) + "\n"@);
}

fn push_item(out: &mut String, regs: &Json, item: &Json)
    requires
        item_ranges_ok(*regs, *item),
    ensures
        final(out)@ == old(out)@ + item_text(*regs, *item),
{
    push_item_line(out, item);
    let ghost mid = out@;
    match str_of(get_member(item, "fieldset")) {
        Some(fs_name) => {
            let mut key = String::new();
            key.append("fieldset/");
            key.append(fs_name.as_str());
            match get_member(regs, key.as_str()) {
                Some(set) => {
                    let m = get_member(set, "fields");
                    match array_of(m) {
                        Some(fields) => {
                            assert(item_fields(*regs, *item) == Some(fields@));
                            proof {
                                let fs = item_fields(*regs, *item)->Some_0;
                                assert(fs == fields@);
                                assert(forall|k: int| 0 <= k < fs.len() ==> field_range_ok(fs[k]));
                            }
                            push_fields(out, regs, fields);
                        },
                        None => {},
                    }
                },
                None => {},
            }
        },
        None => {},
    }
    let ghost tail = match item_fields(*regs, *item) {
        Some(fields) => concat_map(fields, field_fn(*regs)),
        None => Seq::<char>::empty(),
    };
    assert(out@ =~= mid + tail);
    assert(out@ =~= old(out)@ + item_text(*regs, *item));
}

fn push_block(out: &mut String, regs: &Json, block: &Json)
    requires
        block_ranges_ok(*regs, *block),
    ensures
        final(out)@ == old(out)@ + block_description(*block) + block_items(*regs, *block),
{
    match str_of(get_member(block, "description")) {
        Some(d) => {
            out.append(d.as_str());
            out.append("\n");
            out.append("\n");
        },
        None => {},
    }
    assert(out@ =~= old(out)@ + block_description(*block));
    let ghost mid = out@;
    let m = get_member(block, "items");
    match array_of(m) {
        Some(items) => {
            assert(as_array(get(*block, "items"@)) == Some(items@));
            out.append("Registers:\n");
            let ghost head = out@;
            let mut i: usize = 0;
            while i < items.len()
                invariant
                    i <= items.len(),
                    items_ranges_ok(*regs, items@),
                    out@ == head + concat_map(items@.take(i as int), item_fn(*regs)),
                decreases items.len() - i,
            {
                proof {
                    lemma_concat_map_push(head, items@, item_fn(*regs), i as int);
                }
                push_item(out, regs, &items[i]);
                i = i + 1;
            }
            proof {
                assert(items@.take(items.len() as int) =~= items@);
            }
        },
        None => {},
    }
    assert(out@ =~= mid + block_items(*regs, *block));
}

/// The register layout of the queried register block from the register
/// document: the block's description, its registers with offsets, sizes,
/// access and descriptions, each register's fields with their bits, and
/// the enumerated values of each field that names an enumeration.
pub fn register_block_report(chip: &ChipData, q: &RegisterQuery, regs: &Json) -> (r: String)
    requires
        register_ranges_ok(*regs, q.registers.block@),
    ensures
        r@ == register_report_text(*chip, *q, *regs),
{
    match regs {
        Json::Object(_) => {},
        _ => {
            return String::from_str("Invalid register data format.");
        },
    }
    let mut out = String::new();
    out.append("Registers for ");
    out.append(q.peripheral.as_str());
    out.append(" on ");
    out.append(chip.name.as_str());
    out.append(" (");
    out.append(q.registers.kind.as_str());
    out.append("_");
    out.append(q.registers.version.as_str());
    out.append(", block=");
    out.append(q.registers.block.as_str());
    out.append("):\n\n");
    let ghost head = out@;
    let mut key = String::new();
    key.append("block/");
    key.append(q.registers.block.as_str());
    match get_member(regs, key.as_str()) {
        Some(block) => {
            push_block(&mut out, regs, block);
        },
        None => {},
    }
    assert(out@ =~= head + block_text(*regs, q.registers.block@));
    assert(out@ =~= register_report_text(*chip, *q, *regs));
    out
}


// ── Which overflow a report would meet first ──

/// The arithmetic overflow met in working out the last bit of a field.
#[derive(Debug)]
pub enum RangeFault {
    /// The offset plus the width exceeds the largest 64-bit value.
    AddOverflow,
    /// The offset plus the width is 0, and one is taken from it.
    SubtractOverflow,
}

/// The overflow that working out a field's last bit meets, if any.
pub open spec fn field_fault(field: Json) -> Option<RangeFault> {
    if field_range_ok(field) {
        None
    } else if field_offset(field) + field_width(field) > u64::MAX {
        Some(RangeFault::AddOverflow)
    } else {
        Some(RangeFault::SubtractOverflow)
    }
}

/// The overflow met at the first field, in order, whose last bit cannot be worked out.
pub open spec fn first_field_fault(fields: Seq<Json>) -> Option<RangeFault>
    decreases fields.len(),
{
    if fields.len() == 0 {
        None
    } else {
        match field_fault(fields[0]) {
            Some(f) => Some(f),
            None => first_field_fault(fields.drop_first()),
        }
    }
}

/// The overflow met first among the fields of the fieldset that a register names.
pub open spec fn item_fault(regs: Json, item: Json) -> Option<RangeFault> {
    match item_fields(regs, item) {
        Some(fields) => first_field_fault(fields),
        None => None,
    }
}

/// The overflow met first among the fields of a list of registers, in order.
pub open spec fn first_item_fault(regs: Json, items: Seq<Json>) -> Option<RangeFault>
    decreases items.len(),
{
    if items.len() == 0 {
        None
    } else {
        match item_fault(regs, items[0]) {
            Some(f) => Some(f),
            None => first_item_fault(regs, items.drop_first()),
        }
    }
}

/// The overflow that the report on block `name` meets first, in the order it
/// prints fields, if any.
pub open spec fn register_fault(regs: Json, name: Seq<char>) -> Option<RangeFault> {
    match get(regs, "block/"@ + name) {
        Some(block) => match as_array(get(block, "items"@)) {
            Some(items) => first_item_fault(regs, items),
            None => None,
        },
        None => None,
    }
}

proof fn lemma_first_field_fault(fields: Seq<Json>)
    ensures
        first_field_fault(fields) is None <==> forall|k: int| 0 <= k < fields.len() ==> field_range_ok(fields[k]),
    decreases fields.len(),
{
    if fields.len() > 0 {
        lemma_first_field_fault(fields.drop_first());
        if forall|k: int| 0 <= k < fields.len() ==> field_range_ok(fields[k]) {
            assert forall|k: int| 0 <= k < fields.drop_first().len() implies field_range_ok(fields.drop_first()[k]) by {
                assert(fields.drop_first()[k] == fields[k + 1]);
            }
        }
        if first_field_fault(fields) is None {
            assert forall|k: int| 0 <= k < fields.len() implies field_range_ok(fields[k]) by {
                if k > 0 {
                    assert(fields[k] == fields.drop_first()[k - 1]);
                }
            }
        }
    }
}

proof fn lemma_first_item_fault(regs: Json, items: Seq<Json>)
    ensures
        first_item_fault(regs, items) is None <==> items_ranges_ok(regs, items),
    decreases items.len(),
{
    if items.len() > 0 {
        lemma_first_item_fault(regs, items.drop_first());
        assert forall|i: int| 0 <= i < items.len() implies (item_fault(regs, items[i]) is None <==> #[trigger] item_ranges_ok(regs, items[i])) by {
            match item_fields(regs, items[i]) {
                Some(fs) => lemma_first_field_fault(fs),
                None => {},
            }
        }
        if items_ranges_ok(regs, items) {
            assert forall|i: int| 0 <= i < items.drop_first().len() implies #[trigger] item_ranges_ok(regs, items.drop_first()[i]) by {
                assert(items.drop_first()[i] == items[i + 1]);
                assert(item_ranges_ok(regs, items[i + 1]));
            }
            assert(item_ranges_ok(regs, items[0]));
            assert(item_fault(regs, items[0]) is None);
        }
        if first_item_fault(regs, items) is None {
            assert(item_fault(regs, items[0]) is None);
            assert(first_item_fault(regs, items.drop_first()) is None);
            assert forall|i: int| 0 <= i < items.len() implies #[trigger] item_ranges_ok(regs, items[i]) by {
                if i > 0 {
                    assert(items[i] == items.drop_first()[i - 1]);
                    assert(item_ranges_ok(regs, items.drop_first()[i - 1]));
                }
            }
        }
    }
}

fn field_range_fault(field: &Json) -> (r: Option<RangeFault>)
    ensures
        r == field_fault(*field),
{
    let off: u64 = match u64_of(get_member(field, "bit_offset")) {
        Some(n) => n,
        None => 0,
    };
    let width: u64 = match u64_of(get_member(field, "bit_size")) {
        Some(n) => n,
        None => 1,
    };
    if width == 1 {
        None
    } else if off as u128 + width as u128 > u64::MAX as u128 {
        Some(RangeFault::AddOverflow)
    } else if off as u128 + width as u128 == 0 {
        Some(RangeFault::SubtractOverflow)
    } else {
        None
    }
}

fn fields_range_fault(fields: &Vec<Json>) -> (r: Option<RangeFault>)
    ensures
        r == first_field_fault(fields@),
{
    let mut k: usize = 0;
    proof {
        assert(fields@.skip(0) =~= fields@);
    }
    while k < fields.len()
        invariant
            k <= fields.len(),
            first_field_fault(fields@) == first_field_fault(fields@.skip(k as int)),
        decreases fields.len() - k,
    {
        proof {
            assert(fields@.skip(k as int)[0] == fields@[k as int]);
            assert(fields@.skip(k as int).drop_first() =~= fields@.skip(k + 1));
        }
        let f = field_range_fault(&fields[k]);
        if f.is_some() {
            return f;
        }
        k = k + 1;
    }
    None
}

fn item_range_fault(regs: &Json, item: &Json) -> (r: Option<RangeFault>)
    ensures
        r == item_fault(*regs, *item),
{
    match str_of(get_member(item, "fieldset")) {
        Some(fs_name) => {
            let mut key = String::new();
            key.append("fieldset/");
            key.append(fs_name.as_str());
            match get_member(regs, key.as_str()) {
                Some(set) => {
                    let m = get_member(set, "fields");
                    match array_of(m) {
                        Some(fields) => {
                            assert(item_fields(*regs, *item) == Some(fields@));
                            fields_range_fault(fields)
                        },
                        None => None,
                    }
                },
                None => None,
            }
        },
        None => None,
    }
}

/// The overflow that the register report on block `block` would meet
/// first, in the order it prints fields, in working out a field's last bit;
/// nothing where every field's bit range can be worked out.
pub fn register_range_fault(regs: &Json, block: &str) -> (r: Option<RangeFault>)
    ensures
        r == register_fault(*regs, block@),
        r is None <==> register_ranges_ok(*regs, block@),
{
    let mut key = String::new();
    key.append("block/");
    key.append(block);
    match get_member(regs, key.as_str()) {
        Some(b) => {
            let m = get_member(b, "items");
            match array_of(m) {
                Some(items) => {
                    assert(as_array(get(*b, "items"@)) == Some(items@));
                    proof {
                        lemma_first_item_fault(*regs, items@);
                        assert(items@.skip(0) =~= items@);
                    }
                    let mut i: usize = 0;
                    while i < items.len()
                        invariant
                            i <= items.len(),
                            key@ == "block/"@ + block@,
                            get(*regs, key@) == Some(*b),
                            as_array(get(*b, "items"@)) == Some(items@),
                            first_item_fault(*regs, items@) is None <==> items_ranges_ok(*regs, items@),
                            first_item_fault(*regs, items@) == first_item_fault(*regs, items@.skip(i as int)),
                        decreases items.len() - i,
                    {
                        proof {
                            assert(items@.skip(i as int)[0] == items@[i as int]);
                            assert(items@.skip(i as int).drop_first() =~= items@.skip(i + 1));
                        }
                        let f = item_range_fault(regs, &items[i]);
                        if f.is_some() {
                            return f;
                        }
                        i = i + 1;
                    }
                    None
                },
                None => None,
            }
        },
        None => None,
    }
}

/// Whether every field that the register report on block `block` would
/// print has a bit range whose last bit can be computed in 64 bits.
pub fn register_ranges_fit(regs: &Json, block: &str) -> (r: bool)
    ensures
        r == register_ranges_ok(*regs, block@),
{
    register_range_fault(regs, block).is_none()
}

} // verus!
