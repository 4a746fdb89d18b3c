//! The in-memory ISA model: registers, instruction formats, instruction
//! definitions and the spec container that the loader fills and the parser
//! and emitter consult.

use crate::bits::{apply_map, BitRangeMap};
use crate::text::{ascii_lowercase, lower_chars, str_eq};
use vstd::prelude::*;

verus! {

// ------------------------------------------------------------------
// Association lists
//
// Name-keyed tables are kept as vectors of pairs with pairwise-distinct
// keys; lookups search linearly.
// ------------------------------------------------------------------
/// The keys of an association list are pairwise distinct.
pub open spec fn unique_keys<V>(s: Seq<(String, V)>) -> bool {
    forall|i: int, j: int| 0 <= i < j < s.len() ==> s[i].0@ != s[j].0@
}

/// Some entry of the association list has the given key.
pub open spec fn assoc_contains<V>(s: Seq<(String, V)>, name: Seq<char>) -> bool {
    exists|i: int| 0 <= i < s.len() && s[i].0@ == name
}

/// The value stored under the given key (meaningful when the key is present
/// and keys are unique).
pub open spec fn assoc_get<V>(s: Seq<(String, V)>, name: Seq<char>) -> V {
    let i = choose|i: int| 0 <= i < s.len() && s[i].0@ == name;
    s[i].1
}

/// Linear search of an association list.
pub fn assoc_lookup<V: Copy>(table: &Vec<(String, V)>, name: &str) -> (r: Option<V>)
    requires
        unique_keys(table@),
    ensures
        r matches Some(v) ==> assoc_contains(table@, name@) && v == assoc_get(table@, name@),
        r is None ==> !assoc_contains(table@, name@),
{
    let n = table.len();
    let mut i: usize = 0;
    while i < n
        invariant
            n == table@.len(),
            0 <= i <= n,
            unique_keys(table@),
            forall|j: int| 0 <= j < i ==> table@[j].0@ != name@,
        decreases n - i,
    {
        if str_eq(table[i].0.as_str(), name) {
            return Some(table[i].1);
        }
        i = i + 1;
    }
    None
}

// ------------------------------------------------------------------
// Registers
// ------------------------------------------------------------------
/// A register: a numeric index, an ordered list of names (the first is
/// canonical, the second the ABI alias if present) and a size in bits.
#[derive(Clone, Debug)]
pub struct Register {
    pub index: i32,
    pub names: Vec<String>,
    pub size_in_bits: i32,
}

impl Register {
    pub fn new(index: i32) -> (r: Self)
        ensures
            r.index == index,
            r.names@.len() == 0,
            r.size_in_bits == 0,
    {
        Register { index, names: Vec::new(), size_in_bits: 0 }
    }

    /// The canonical name: the first of the name list, if any.
    pub fn get_main_name(&self) -> (r: Option<&str>)
        ensures
            r matches Some(s) ==> self.names@.len() > 0 && s@ == self.names@[0]@,
            r is None ==> self.names@.len() == 0,
    {
        if self.names.len() > 0 {
            Some(self.names[0].as_str())
        } else {
            None
        }
    }

    /// The ABI name: the second name if present, otherwise the first,
    /// otherwise nothing.
    pub fn get_abi_name(&self) -> (r: Option<&str>)
        ensures
            r matches Some(s) ==> (self.names@.len() >= 2 && s@ == self.names@[1]@) || (
            self.names@.len() == 1 && s@ == self.names@[0]@),
            r is None ==> self.names@.len() == 0,
    {
        if self.names.len() >= 2 {
            Some(self.names[1].as_str())
        } else if self.names.len() == 1 {
            Some(self.names[0].as_str())
        } else {
            None
        }
    }
}

/// Some register of the list carries the given index.
pub open spec fn regs_contain(regs: Seq<Register>, index: i32) -> bool {
    exists|i: int| 0 <= i < regs.len() && regs[i].index == index
}

/// The register stored under the given index (meaningful when present and
/// indices are unique).
pub open spec fn regs_get(regs: Seq<Register>, index: i32) -> Register {
    let i = choose|i: int| 0 <= i < regs.len() && regs[i].index == index;
    regs[i]
}

/// In a list with pairwise-distinct indices, looking a register's own index
/// up yields that register.
pub proof fn lemma_regs_get_unique(regs: Seq<Register>, j: int)
    requires
        unique_reg_indices(regs),
        0 <= j < regs.len(),
    ensures
        regs_contain(regs, regs[j].index),
        regs_get(regs, regs[j].index) == regs[j],
{
    let idx = regs[j].index;
    assert(regs_contain(regs, idx));
    let i0 = choose|i: int| 0 <= i < regs.len() && regs[i].index == idx;
    if i0 != j {
        assert(regs[i0].index != regs[j].index);
        assert(false);
    }
}

/// Register indices are pairwise distinct.
pub open spec fn unique_reg_indices(regs: Seq<Register>) -> bool {
    forall|i: int, j: int| 0 <= i < j < regs.len() ==> regs[i].index != regs[j].index
}

// ------------------------------------------------------------------
// Fields and formats
// ------------------------------------------------------------------
/// Whether a field of an instruction format takes a register operand or a
/// plain value.
#[derive(Copy, Clone, Debug, PartialEq, Eq, Structural)]
pub enum FieldType {
    Register,
    Value,
}

/// A named region of an instruction format. `length` is the bit-width of the
/// semantic value; `encoding` says how those bits scatter across the
/// instruction word.
#[derive(Clone, Debug)]
pub struct InstructionField {
    pub name: String,
    pub vtype: FieldType,
    pub length: i32,
    pub encoding: Vec<BitRangeMap>,
}

/// The highest instruction bit written by any map of the sequence, or -1 for
/// an empty sequence.
pub open spec fn spec_maps_last(maps: Seq<BitRangeMap>) -> int
    decreases maps.len(),
{
    if maps.len() == 0 {
        -1
    } else {
        let rest = spec_maps_last(maps.drop_last());
        let l = maps.last().spec_instruction_last();
        if l > rest {
            l
        } else {
            rest
        }
    }
}

impl InstructionField {
    /// Every bit-range map of the field is valid.
    pub open spec fn wf(self) -> bool {
        forall|i: int| 0 <= i < self.encoding@.len() ==> (#[trigger] self.encoding@[i]).wf()
    }

    /// The highest instruction bit this field writes, or -1 if it writes
    /// none.
    pub fn last_encoded_bit(&self) -> (r: i32)
        requires
            self.wf(),
        ensures
            r == spec_maps_last(self.encoding@),
    {
        let n = self.encoding.len();
        let mut acc: i32 = -1;
        let mut i: usize = 0;
        while i < n
            invariant
                n == self.encoding@.len(),
                0 <= i <= n,
                self.wf(),
                acc == spec_maps_last(self.encoding@.take(i as int)),
                -1 <= acc <= 0x0fff_ffff + 63,
            decreases n - i,
        {
            let m = self.encoding[i];
            let l = m.instruction_last();
            if l > acc {
                acc = l;
            }
            proof {
                assert(self.encoding@.take(i + 1 as int).drop_last() =~= self.encoding@.take(
                    i as int,
                ));
            }
            i = i + 1;
        }
        proof {
            assert(self.encoding@.take(n as int) =~= self.encoding@);
        }
        acc
    }
}

/// The highest instruction bit written by any map of any field, or -1.
pub open spec fn spec_fields_last(fields: Seq<InstructionField>) -> int
    decreases fields.len(),
{
    if fields.len() == 0 {
        -1
    } else {
        let rest = spec_fields_last(fields.drop_last());
        let l = spec_maps_last(fields.last().encoding@);
        if l > rest {
            l
        } else {
            rest
        }
    }
}

/// Every map of every field stays at or below the combined maximum.
pub proof fn lemma_fields_last_is_max(fields: Seq<InstructionField>)
    ensures
        forall|fi: int, mi: int|
            0 <= fi < fields.len() && 0 <= mi < fields[fi].encoding@.len()
                ==> (#[trigger] fields[fi].encoding@[mi]).spec_instruction_last()
                <= spec_fields_last(fields),
    decreases fields.len(),
{
    if fields.len() > 0 {
        lemma_fields_last_is_max(fields.drop_last());
        lemma_maps_last_is_max(fields.last().encoding@);
        assert forall|fi: int, mi: int|
            0 <= fi < fields.len() && 0 <= mi
                < fields[fi].encoding@.len() implies (#[trigger] fields[fi].encoding@[mi]).spec_instruction_last()
            <= spec_fields_last(fields) by {
            if fi < fields.len() - 1 {
                assert(fields.drop_last()[fi] == fields[fi]);
            }
        }
    }
}

/// A single field's maximum stays at or below the combined maximum of its
/// field list.
pub proof fn lemma_field_last_le(fields: Seq<InstructionField>, fi: int)
    requires
        0 <= fi < fields.len(),
    ensures
        spec_maps_last(fields[fi].encoding@) <= spec_fields_last(fields),
    decreases fields.len(),
{
    if fi < fields.len() - 1 {
        lemma_field_last_le(fields.drop_last(), fi);
        assert(fields.drop_last()[fi] == fields[fi]);
    }
}

/// Every map of the sequence stays at or below the maximum.
pub proof fn lemma_maps_last_is_max(maps: Seq<BitRangeMap>)
    ensures
        forall|mi: int|
            0 <= mi < maps.len() ==> (#[trigger] maps[mi]).spec_instruction_last()
                <= spec_maps_last(maps),
    decreases maps.len(),
{
    if maps.len() > 0 {
        lemma_maps_last_is_max(maps.drop_last());
        assert forall|mi: int|
            0 <= mi < maps.len() implies (#[trigger] maps[mi]).spec_instruction_last()
            <= spec_maps_last(maps) by {
            if mi < maps.len() - 1 {
                assert(maps.drop_last()[mi] == maps[mi]);
            }
        }
    }
}

/// The maximum over a field list is at least -1 and bounded by the largest
/// valid instruction bit.
pub proof fn lemma_fields_last_bound(fields: Seq<InstructionField>)
    requires
        forall|i: int| 0 <= i < fields.len() ==> (#[trigger] fields[i]).wf(),
    ensures
        -1 <= spec_fields_last(fields) <= 0x0fff_ffff + 63,
    decreases fields.len(),
{
    if fields.len() > 0 {
        assert(forall|i: int|
            0 <= i < fields.drop_last().len() ==> (#[trigger] fields.drop_last()[i]).wf());
        lemma_fields_last_bound(fields.drop_last());
        assert(fields.last().wf());
        lemma_maps_last_at_least(fields.last().encoding@);
    }
}

/// A named collection of fields; `ilen` is the derived instruction length in
/// bits.
#[derive(Clone, Debug)]
pub struct InstructionFormat {
    pub name: String,
    pub fields: Vec<InstructionField>,
    pub ilen: usize,
}

impl InstructionFormat {
    /// Validity: every field is valid and `ilen` is one past the highest
    /// instruction bit any field writes (zero for a format that writes no
    /// bits at all).
    pub open spec fn wf(self) -> bool {
        &&& forall|i: int| 0 <= i < self.fields@.len() ==> (#[trigger] self.fields@[i]).wf()
        &&& self.ilen == spec_fields_last(self.fields@) + 1
    }

    /// The highest instruction bit any field of the format writes, or -1.
    pub fn last_encoded_bit(&self) -> (r: i32)
        requires
            forall|i: int| 0 <= i < self.fields@.len() ==> (#[trigger] self.fields@[i]).wf(),
        ensures
            r == spec_fields_last(self.fields@),
    {
        let n = self.fields.len();
        let mut acc: i32 = -1;
        let mut i: usize = 0;
        while i < n
            invariant
                n == self.fields@.len(),
                0 <= i <= n,
                forall|j: int| 0 <= j < n ==> (#[trigger] self.fields@[j]).wf(),
                acc == spec_fields_last(self.fields@.take(i as int)),
                -1 <= acc <= 0x0fff_ffff + 63,
            decreases n - i,
        {
            let l = self.fields[i].last_encoded_bit();
            proof {
                lemma_maps_last_is_max(self.fields@[i as int].encoding@);
                lemma_maps_last_at_least(self.fields@[i as int].encoding@);
            }
            if l > acc {
                acc = l;
            }
            proof {
                assert(self.fields@.take(i + 1 as int).drop_last() =~= self.fields@.take(i as int));
            }
            i = i + 1;
        }
        proof {
            assert(self.fields@.take(n as int) =~= self.fields@);
        }
        acc
    }
}

// ------------------------------------------------------------------
// Instruction definitions
// ------------------------------------------------------------------
/// A named instruction. `args` lists the format-field indices filled by the
/// programmer's operands, in source order; `fields` lists (field index,
/// constant value) pairs fixed by the definition (opcode and funct bits).
#[derive(Clone, Debug)]
pub struct InstructionDefinition {
    pub name: String,
    pub format_idx: usize,
    pub args: Vec<usize>,
    pub fields: Vec<(usize, u64)>,
}

/// An instruction definition is consistent with a format list: its format
/// index is in range and every arg or fixed-field index names a field of
/// that format.
pub open spec fn insn_wf(insn: InstructionDefinition, formats: Seq<InstructionFormat>) -> bool {
    &&& insn.format_idx < formats.len()
    &&& forall|i: int|
        0 <= i < insn.args@.len() ==> (#[trigger] insn.args@[i]) < formats[
            insn.format_idx as int
        ].fields@.len()
    &&& forall|i: int|
        0 <= i < insn.fields@.len() ==> (#[trigger] insn.fields@[i]).0 < formats[
            insn.format_idx as int
        ].fields@.len()
}

/// The buffer after every map of a field has encoded value `v`, in order.
pub open spec fn spec_encode_maps(buf: Seq<u8>, maps: Seq<BitRangeMap>, start: int, v: u64) -> Seq<
    u8,
>
    decreases maps.len(),
{
    if maps.len() == 0 {
        buf
    } else {
        apply_map(spec_encode_maps(buf, maps.drop_last(), start, v), maps.last(), start, v)
    }
}

/// The buffer after the fixed (field index, value) pairs have been encoded,
/// in order.
pub open spec fn spec_encode_pairs(
    buf: Seq<u8>,
    fields: Seq<InstructionField>,
    pairs: Seq<(usize, u64)>,
    start: int,
) -> Seq<u8>
    decreases pairs.len(),
{
    if pairs.len() == 0 {
        buf
    } else {
        let p = pairs.last();
        spec_encode_maps(
            spec_encode_pairs(buf, fields, pairs.drop_last(), start),
            fields[p.0 as int].encoding@,
            start,
            p.1,
        )
    }
}

/// The buffer after the operand values have been encoded into their argument
/// fields, in order.
pub open spec fn spec_encode_args(
    buf: Seq<u8>,
    fields: Seq<InstructionField>,
    args: Seq<usize>,
    argvals: Seq<u64>,
    start: int,
) -> Seq<u8>
    decreases args.len(),
{
    if args.len() == 0 {
        buf
    } else {
        spec_encode_maps(
            spec_encode_args(buf, fields, args.drop_last(), argvals, start),
            fields[args.last() as int].encoding@,
            start,
            argvals[args.len() - 1],
        )
    }
}

/// The buffer after a whole instruction has been encoded at byte `start`:
/// first the fixed fields, then the operands, so operands win where a
/// definition overlaps the two.
pub open spec fn spec_encode_insn(
    buf: Seq<u8>,
    insn: InstructionDefinition,
    fmt: InstructionFormat,
    argvals: Seq<u64>,
    start: int,
) -> Seq<u8> {
    spec_encode_args(
        spec_encode_pairs(buf, fmt.fields@, insn.fields@, start),
        fmt.fields@,
        insn.args@,
        argvals,
        start,
    )
}

/// The maximum over a map sequence is at least -1 and bounded by the largest
/// valid instruction bit.
pub proof fn lemma_maps_last_at_least(maps: Seq<BitRangeMap>)
    requires
        forall|i: int| 0 <= i < maps.len() ==> (#[trigger] maps[i]).wf(),
    ensures
        -1 <= spec_maps_last(maps) <= 0x0fff_ffff + 63,
    decreases maps.len(),
{
    if maps.len() > 0 {
        assert(maps.drop_last().len() == maps.len() - 1);
        assert(forall|i: int|
            0 <= i < maps.drop_last().len() ==> (#[trigger] maps.drop_last()[i]).wf());
        lemma_maps_last_at_least(maps.drop_last());
        assert(maps.last().wf());
    }
}

impl InstructionDefinition {
    /// The format this instruction encodes with.
    pub fn get_format<'s>(&self, rv: &'s RiscVSpec) -> (r: &'s InstructionFormat)
        requires
            self.format_idx < rv.instruction_formats@.len(),
        ensures
            *r == rv.instruction_formats@[self.format_idx as int],
    {
        &rv.instruction_formats[self.format_idx]
    }

    /// Encodes the fixed fields and then the operand values of this
    /// instruction into the buffer at byte `start`; the result is exactly
    /// the fold of the single bit-range encodes, in definition order.
    pub fn encode_into(
        &self,
        bytes: &mut Vec<u8>,
        start: usize,
        rv: &RiscVSpec,
        argvals: &[u64],
    ) -> (r: Result<(), ()>)
        requires
            rv.wf(),
            insn_wf(*self, rv.instruction_formats@),
            argvals@.len() == self.args@.len(),
            start + (rv.instruction_formats@[self.format_idx as int].ilen + 7) / 8 <= old(
                bytes,
            )@.len(),
        ensures
            r is Ok,
            final(bytes)@.len() == old(bytes)@.len(),
            final(bytes)@ == spec_encode_insn(
                old(bytes)@,
                *self,
                rv.instruction_formats@[self.format_idx as int],
                argvals@,
                start as int,
            ),
    {
        let fmt = self.get_format(rv);
        let ghost fields_g = fmt.fields@;
        proof {
            lemma_fields_last_is_max(fields_g);
        }
        let nf = self.fields.len();
        let mut i: usize = 0;
        while i < nf
            invariant
                rv.wf(),
                insn_wf(*self, rv.instruction_formats@),
                nf == self.fields@.len(),
                0 <= i <= nf,
                *fmt == rv.instruction_formats@[self.format_idx as int],
                fields_g == fmt.fields@,
                start + (fmt.ilen + 7) / 8 <= old(bytes)@.len(),
                bytes@.len() == old(bytes)@.len(),
                bytes@ == spec_encode_pairs(
                    old(bytes)@,
                    fields_g,
                    self.fields@.take(i as int),
                    start as int,
                ),
            decreases nf - i,
        {
            let (fldid, fldval) = self.fields[i];
            proof {
                assert(fmt.wf());
                lemma_field_last_le(fields_g, fldid as int);
            }
            encode_field_maps(bytes, start, &fmt.fields[fldid], fldval, Ghost(fmt.ilen as int));
            proof {
                assert(self.fields@.take(i + 1 as int).drop_last() =~= self.fields@.take(i as int));
            }
            i = i + 1;
        }
        proof {
            assert(self.fields@.take(nf as int) =~= self.fields@);
        }
        let ghost after_pairs = bytes@;
        let na = self.args.len();
        let mut i: usize = 0;
        while i < na
            invariant
                rv.wf(),
                insn_wf(*self, rv.instruction_formats@),
                na == self.args@.len(),
                argvals@.len() == na,
                0 <= i <= na,
                *fmt == rv.instruction_formats@[self.format_idx as int],
                fields_g == fmt.fields@,
                start + (fmt.ilen + 7) / 8 <= old(bytes)@.len(),
                bytes@.len() == old(bytes)@.len(),
                bytes@ == spec_encode_args(
                    after_pairs,
                    fields_g,
                    self.args@.take(i as int),
                    argvals@,
                    start as int,
                ),
            decreases na - i,
        {
            let argid = self.args[i];
            proof {
                assert(fmt.wf());
                lemma_field_last_le(fields_g, argid as int);
            }
            encode_field_maps(bytes, start, &fmt.fields[argid], argvals[i], Ghost(fmt.ilen as int));
            proof {
                assert(self.args@.take(i + 1 as int).drop_last() =~= self.args@.take(i as int));
                assert(self.args@.take(i + 1 as int).last() == self.args@[i as int]);
            }
            i = i + 1;
        }
        proof {
            assert(self.args@.take(na as int) =~= self.args@);
        }
        Ok(())
    }
}

/// Encodes one operand value through every bit-range map of one field.
fn encode_field_maps(
    bytes: &mut Vec<u8>,
    start: usize,
    field: &InstructionField,
    value: u64,
    ilen: Ghost<int>,
)
    requires
        field.wf(),
        spec_maps_last(field.encoding@) < ilen@,
        start + (ilen@ + 7) / 8 <= old(bytes)@.len(),
    ensures
        final(bytes)@.len() == old(bytes)@.len(),
        final(bytes)@ == spec_encode_maps(old(bytes)@, field.encoding@, start as int, value),
{
    proof {
        lemma_maps_last_is_max(field.encoding@);
    }
    let nm = field.encoding.len();
    let mut i: usize = 0;
    while i < nm
        invariant
            field.wf(),
            nm == field.encoding@.len(),
            0 <= i <= nm,
            spec_maps_last(field.encoding@) < ilen@,
            forall|mi: int|
                0 <= mi < nm ==> (#[trigger] field.encoding@[mi]).spec_instruction_last()
                    <= spec_maps_last(field.encoding@),
            start + (ilen@ + 7) / 8 <= old(bytes)@.len(),
            bytes@.len() == old(bytes)@.len(),
            bytes@ == spec_encode_maps(old(bytes)@, field.encoding@.take(i as int), start as int, value),
        decreases nm - i,
    {
        let m = field.encoding[i];
        proof {
            assert(m.spec_instruction_last() <= ilen@ - 1);
            vstd::arithmetic::div_mod::lemma_div_is_ordered(
                m.spec_instruction_last(),
                ilen@ - 1,
                8,
            );
            vstd::arithmetic::div_mod::lemma_div_plus_one(ilen@ - 1, 8);
            assert(m.spec_instruction_last() / 8 < (ilen@ + 7) / 8);
        }
        m.encode_into(bytes, start, value);
        proof {
            assert(field.encoding@.take(i + 1 as int).drop_last() =~= field.encoding@.take(
                i as int,
            ));
        }
        i = i + 1;
    }
    proof {
        assert(field.encoding@.take(nm as int) =~= field.encoding@);
    }
}

// ------------------------------------------------------------------
// The spec container
// ------------------------------------------------------------------
/// Meta information of one loaded ISA document.
pub struct AbiFileInfo<'a> {
    pub name: &'a str,
    pub code: &'a str,
    pub spec_version: &'a str,
}

/// An error raised while loading an ISA description document.
#[derive(Clone, Debug, PartialEq, Eq)]
pub enum LoadError {
    MalformedDocument,
    RequirementNotFound(String),
    ConstNotFound(String),
    MissingNode(String),
    BadType(String),
    DuplicateInstruction(String),
    BadInstructionFormat(String),
}

/// The ISA model: document meta records, named constants, registers with a
/// name lookup, instruction formats, and instruction definitions with a
/// lowercase-name lookup. Filled by the loader, read-only afterwards.
#[derive(Debug)]
pub struct RiscVSpec {
    pub loaded_names: Vec<String>,
    pub loaded_codes: Vec<String>,
    pub loaded_specs: Vec<String>,
    pub consts: Vec<(String, u64)>,
    pub registers: Vec<Register>,
    pub register_name_lookup: Vec<(String, i32)>,
    pub instruction_formats: Vec<InstructionFormat>,
    pub instructions: Vec<InstructionDefinition>,
    pub instruction_name_lookup: Vec<(String, usize)>,
}

impl RiscVSpec {
    /// Well-formedness: the meta lists run in step; keys and register
    /// indices are unique; every format and instruction definition is
    /// internally consistent; the two name lookups and the lists they index
    /// agree with one another.
    pub open spec fn wf(self) -> bool {
        &&& self.loaded_names@.len() == self.loaded_codes@.len()
        &&& self.loaded_names@.len() == self.loaded_specs@.len()
        &&& unique_keys(self.consts@)
        &&& unique_reg_indices(self.registers@)
        &&& unique_keys(self.register_name_lookup@)
        &&& forall|i: int|
            0 <= i < self.register_name_lookup@.len() ==> regs_contain(
                self.registers@,
                (#[trigger] self.register_name_lookup@[i]).1,
            ) && exists|k: int|
                0 <= k < regs_get(self.registers@, self.register_name_lookup@[i].1).names@.len()
                    && regs_get(self.registers@, self.register_name_lookup@[i].1).names@[k]@
                    == self.register_name_lookup@[i].0@
        &&& forall|j: int, k: int|
            #![trigger self.registers@[j].names@[k]]
            0 <= j < self.registers@.len() && 0 <= k < self.registers@[j].names@.len()
                ==> assoc_contains(self.register_name_lookup@, self.registers@[j].names@[k]@)
        &&& forall|i: int|
            0 <= i < self.instruction_formats@.len() ==> (
            #[trigger] self.instruction_formats@[i]).wf()
        &&& forall|i: int|
            0 <= i < self.instructions@.len() ==> insn_wf(
                #[trigger] self.instructions@[i],
                self.instruction_formats@,
            )
        &&& unique_keys(self.instruction_name_lookup@)
        &&& forall|i: int|
            0 <= i < self.instruction_name_lookup@.len() ==> (
            #[trigger] self.instruction_name_lookup@[i]).1 < self.instructions@.len()
                && self.instructions@[self.instruction_name_lookup@[i].1 as int].name@
                == self.instruction_name_lookup@[i].0@
        &&& forall|i: int|
            0 <= i < self.instructions@.len() ==> assoc_contains(
                self.instruction_name_lookup@,
                (#[trigger] self.instructions@[i]).name@,
            )
    }

    /// An empty spec: nothing loaded yet.
    pub fn new() -> (r: Self)
        ensures
            r.wf(),
            r.loaded_names@.len() == 0,
            r.consts@.len() == 0,
            r.registers@.len() == 0,
            r.register_name_lookup@.len() == 0,
            r.instruction_formats@.len() == 0,
            r.instructions@.len() == 0,
            r.instruction_name_lookup@.len() == 0,
    {
        RiscVSpec {
            loaded_names: Vec::new(),
            loaded_codes: Vec::new(),
            loaded_specs: Vec::new(),
            consts: Vec::new(),
            registers: Vec::new(),
            register_name_lookup: Vec::new(),
            instruction_formats: Vec::new(),
            instructions: Vec::new(),
            instruction_name_lookup: Vec::new(),
        }
    }

    /// Meta records of all loaded documents, in load order.
    pub fn get_loaded_abis<'a>(&'a self) -> (r: Vec<AbiFileInfo<'a>>)
        requires
            self.wf(),
        ensures
            r@.len() == self.loaded_names@.len(),
            forall|i: int|
                0 <= i < r@.len() ==> (#[trigger] r@[i]).name@ == self.loaded_names@[i]@
                    && r@[i].code@ == self.loaded_codes@[i]@ && r@[i].spec_version@
                    == self.loaded_specs@[i]@,
    {
        let n = self.loaded_names.len();
        let mut v: Vec<AbiFileInfo<'a>> = Vec::new();
        let mut i: usize = 0;
        while i < n
            invariant
                self.wf(),
                n == self.loaded_names@.len(),
                0 <= i <= n,
                v@.len() == i,
                forall|j: int|
                    0 <= j < i ==> (#[trigger] v@[j]).name@ == self.loaded_names@[j]@
                        && v@[j].code@ == self.loaded_codes@[j]@ && v@[j].spec_version@
                        == self.loaded_specs@[j]@,
            decreases n - i,
        {
            v.push(
                AbiFileInfo {
                    name: self.loaded_names[i].as_str(),
                    code: self.loaded_codes[i].as_str(),
                    spec_version: self.loaded_specs[i].as_str(),
                },
            );
            i = i + 1;
        }
        v
    }

    /// The value of a named constant, if defined.
    pub fn get_const(&self, name: &str) -> (r: Option<u64>)
        requires
            self.wf(),
        ensures
            r matches Some(v) ==> assoc_contains(self.consts@, name@) && v == assoc_get(
                self.consts@,
                name@,
            ),
            r is None ==> !assoc_contains(self.consts@, name@),
    {
        assoc_lookup(&self.consts, name)
    }

    /// The register with the given index, if known.
    pub fn get_register(&self, rnum: i32) -> (r: Option<&Register>)
        requires
            self.wf(),
        ensures
            r matches Some(reg) ==> regs_contain(self.registers@, rnum) && *reg == regs_get(
                self.registers@,
                rnum,
            ) && reg.index == rnum,
            r is None ==> !regs_contain(self.registers@, rnum),
    {
        let n = self.registers.len();
        let mut i: usize = 0;
        while i < n
            invariant
                self.wf(),
                n == self.registers@.len(),
                0 <= i <= n,
                forall|j: int| 0 <= j < i ==> (#[trigger] self.registers@[j]).index != rnum,
            decreases n - i,
        {
            if self.registers[i].index == rnum {
                return Some(&self.registers[i]);
            }
            i = i + 1;
        }
        None
    }

    /// The register carrying the given name, if any.
    pub fn get_register_by_name(&self, rname: &str) -> (r: Option<&Register>)
        requires
            self.wf(),
        ensures
            r matches Some(reg) ==> assoc_contains(self.register_name_lookup@, rname@) && *reg
                == regs_get(self.registers@, assoc_get(self.register_name_lookup@, rname@)),
            r is None ==> !assoc_contains(self.register_name_lookup@, rname@),
    {
        match assoc_lookup(&self.register_name_lookup, rname) {
            Some(idx) => self.get_register(idx),
            None => None,
        }
    }

    /// All known registers.
    pub fn get_all_registers(&self) -> (r: &Vec<Register>)
        ensures
            r == &self.registers,
    {
        &self.registers
    }

    /// The instruction format at the given position.
    pub fn get_instruction_format(&self, index: usize) -> (r: Option<&InstructionFormat>)
        ensures
            index < self.instruction_formats@.len() ==> (r matches Some(f) && *f
                == self.instruction_formats@[index as int]),
            index >= self.instruction_formats@.len() ==> r is None,
    {
        if index < self.instruction_formats.len() {
            Some(&self.instruction_formats[index])
        } else {
            None
        }
    }

    /// The first format carrying the given name, if any.
    pub fn get_instruction_format_by_name(&self, name: &str) -> (r: Option<&InstructionFormat>)
        ensures
            r matches Some(f) ==> 0 <= fmt_name_find(self.instruction_formats@, name@)
                < self.instruction_formats@.len() && *f == self.instruction_formats@[fmt_name_find(
                self.instruction_formats@,
                name@,
            )],
            r is None ==> fmt_name_find(self.instruction_formats@, name@) == -1,
    {
        let n = self.instruction_formats.len();
        let mut i: usize = 0;
        #[verifier::loop_isolation(false)]
        while i < n
            invariant
                n == self.instruction_formats@.len(),
                0 <= i <= n,
                forall|j: int|
                    0 <= j < i ==> (#[trigger] self.instruction_formats@[j]).name@ != name@,
            decreases n - i,
        {
            if str_eq(self.instruction_formats[i].name.as_str(), name) {
                proof {
                    lemma_fmt_name_find_at(self.instruction_formats@, name@, i as int);
                }
                return Some(&self.instruction_formats[i]);
            }
            i = i + 1;
        }
        proof {
            lemma_fmt_name_find_at(self.instruction_formats@, name@, n as int);
        }
        None
    }

    /// All instruction formats, in load order.
    pub fn get_all_instruction_formats(&self) -> (r: &Vec<InstructionFormat>)
        ensures
            r == &self.instruction_formats,
    {
        &self.instruction_formats
    }

    /// The instruction definition at the given position.
    pub fn get_instruction(&self, index: usize) -> (r: Option<&InstructionDefinition>)
        ensures
            index < self.instructions@.len() ==> (r matches Some(d) && *d
                == self.instructions@[index as int]),
            index >= self.instructions@.len() ==> r is None,
    {
        if index < self.instructions.len() {
            Some(&self.instructions[index])
        } else {
            None
        }
    }

    /// The instruction definition stored under the given name; the name is
    /// lowered to ASCII lower case before the lookup.
    pub fn get_instruction_by_name(&self, name: &str) -> (r: Option<&InstructionDefinition>)
        requires
            self.wf(),
        ensures
            r matches Some(d) ==> assoc_contains(self.instruction_name_lookup@, lower_chars(name@))
                && *d == self.instructions@[assoc_get(
                self.instruction_name_lookup@,
                lower_chars(name@),
            ) as int],
            r is None ==> !assoc_contains(self.instruction_name_lookup@, lower_chars(name@)),
    {
        let lowered = ascii_lowercase(name);
        match assoc_lookup(&self.instruction_name_lookup, lowered.as_str()) {
            Some(idx) => self.get_instruction(idx),
            None => None,
        }
    }

    /// All instruction definitions, in load order.
    pub fn get_all_instructions(&self) -> (r: &Vec<InstructionDefinition>)
        ensures
            r == &self.instructions,
    {
        &self.instructions
    }
}

// ------------------------------------------------------------------
// Frame laws of the encoder
// ------------------------------------------------------------------
/// A map fold whose maps all end at or below `last_bound` changes no byte
/// before `start` nor after `start + last_bound / 8`.
pub proof fn lemma_encode_maps_frame(
    buf: Seq<u8>,
    maps: Seq<BitRangeMap>,
    start: int,
    v: u64,
    last_bound: int,
)
    requires
        forall|i: int| 0 <= i < maps.len() ==> (#[trigger] maps[i]).wf(),
        0 <= start,
        forall|i: int|
            0 <= i < maps.len() ==> (#[trigger] maps[i]).spec_instruction_last() <= last_bound,
    ensures
        spec_encode_maps(buf, maps, start, v).len() == buf.len(),
        forall|j: int|
            0 <= j < buf.len() && (j < start || j > start + last_bound / 8) ==> spec_encode_maps(
                buf,
                maps,
                start,
                v,
            )[j] == buf[j],
    decreases maps.len(),
{
    if maps.len() > 0 {
        assert(forall|i: int|
            0 <= i < maps.drop_last().len() ==> (#[trigger] maps.drop_last()[i]).wf()
                && maps.drop_last()[i].spec_instruction_last() <= last_bound);
        lemma_encode_maps_frame(buf, maps.drop_last(), start, v, last_bound);
        let prev = spec_encode_maps(buf, maps.drop_last(), start, v);
        let m = maps.last();
        crate::bits::lemma_apply_map_frame(prev, m, start, v);
        vstd::arithmetic::div_mod::lemma_div_is_ordered(
            m.spec_instruction_last(),
            last_bound,
            8,
        );
    }
}

/// Encoding the fixed fields changes no byte before `start` nor after the
/// byte of the highest field bit.
pub proof fn lemma_encode_pairs_frame(
    buf: Seq<u8>,
    fields: Seq<InstructionField>,
    pairs: Seq<(usize, u64)>,
    start: int,
    last_bound: int,
)
    requires
        forall|i: int| 0 <= i < fields.len() ==> (#[trigger] fields[i]).wf(),
        forall|i: int| 0 <= i < pairs.len() ==> (#[trigger] pairs[i]).0 < fields.len(),
        spec_fields_last(fields) <= last_bound,
        0 <= start,
    ensures
        spec_encode_pairs(buf, fields, pairs, start).len() == buf.len(),
        forall|j: int|
            0 <= j < buf.len() && (j < start || j > start + last_bound / 8) ==> spec_encode_pairs(
                buf,
                fields,
                pairs,
                start,
            )[j] == buf[j],
    decreases pairs.len(),
{
    if pairs.len() > 0 {
        lemma_encode_pairs_frame(buf, fields, pairs.drop_last(), start, last_bound);
        let prev = spec_encode_pairs(buf, fields, pairs.drop_last(), start);
        let p = pairs.last();
        lemma_field_last_le(fields, p.0 as int);
        lemma_maps_last_is_max(fields[p.0 as int].encoding@);
        lemma_encode_maps_frame(prev, fields[p.0 as int].encoding@, start, p.1, last_bound);
    }
}

/// Encoding the operands changes no byte before `start` nor after the byte
/// of the highest field bit.
pub proof fn lemma_encode_args_frame(
    buf: Seq<u8>,
    fields: Seq<InstructionField>,
    args: Seq<usize>,
    argvals: Seq<u64>,
    start: int,
    last_bound: int,
)
    requires
        forall|i: int| 0 <= i < fields.len() ==> (#[trigger] fields[i]).wf(),
        forall|i: int| 0 <= i < args.len() ==> (#[trigger] args[i]) < fields.len(),
        spec_fields_last(fields) <= last_bound,
        0 <= start,
    ensures
        spec_encode_args(buf, fields, args, argvals, start).len() == buf.len(),
        forall|j: int|
            0 <= j < buf.len() && (j < start || j > start + last_bound / 8) ==> spec_encode_args(
                buf,
                fields,
                args,
                argvals,
                start,
            )[j] == buf[j],
    decreases args.len(),
{
    if args.len() > 0 {
        lemma_encode_args_frame(buf, fields, args.drop_last(), argvals, start, last_bound);
        let prev = spec_encode_args(buf, fields, args.drop_last(), argvals, start);
        let a = args.last();
        lemma_field_last_le(fields, a as int);
        lemma_maps_last_is_max(fields[a as int].encoding@);
        lemma_encode_maps_frame(
            prev,
            fields[a as int].encoding@,
            start,
            argvals[args.len() - 1],
            last_bound,
        );
    }
}

/// Law: emitting one instruction never writes a byte outside its intended
/// slot. Encoding an instruction of a well-formed format at byte `start`
/// leaves every byte before `start` and every byte from
/// `start + (ilen + 7) / 8` on unchanged.
pub proof fn lemma_encode_insn_frame(
    buf: Seq<u8>,
    insn: InstructionDefinition,
    fmt: InstructionFormat,
    argvals: Seq<u64>,
    start: int,
)
    requires
        fmt.wf(),
        forall|i: int| 0 <= i < insn.args@.len() ==> (#[trigger] insn.args@[i]) < fmt.fields@.len(),
        forall|i: int|
            0 <= i < insn.fields@.len() ==> (#[trigger] insn.fields@[i]).0 < fmt.fields@.len(),
        0 <= start,
    ensures
        spec_encode_insn(buf, insn, fmt, argvals, start).len() == buf.len(),
        forall|j: int|
            0 <= j < buf.len() && (j < start || j >= start + (fmt.ilen + 7) / 8)
                ==> spec_encode_insn(buf, insn, fmt, argvals, start)[j] == buf[j],
{
    let last_bound = fmt.ilen - 1;
    lemma_encode_pairs_frame(buf, fmt.fields@, insn.fields@, start, last_bound);
    let mid = spec_encode_pairs(buf, fmt.fields@, insn.fields@, start);
    lemma_encode_args_frame(mid, fmt.fields@, insn.args@, argvals, start, last_bound);
    vstd::arithmetic::div_mod::lemma_div_plus_one(fmt.ilen - 1, 8);
    assert((fmt.ilen - 1) / 8 < (fmt.ilen + 7) / 8);
}

// ------------------------------------------------------------------
// Field-width validation
// ------------------------------------------------------------------
/// A value fits in `length` bits.
pub open spec fn value_fits(v: u64, length: i32) -> bool {
    if length <= 0 {
        v == 0
    } else if length >= 64 {
        true
    } else {
        v >> (length as u64) == 0
    }
}

/// Every fixed field value of every instruction fits in its field's
/// declared bit-width.
pub open spec fn spec_field_widths_ok(rv: RiscVSpec) -> bool {
    forall|i: int, p: int|
        #![trigger rv.instructions@[i].fields@[p]]
        0 <= i < rv.instructions@.len() && 0 <= p < rv.instructions@[i].fields@.len()
            ==> value_fits(
            rv.instructions@[i].fields@[p].1,
            rv.instruction_formats@[rv.instructions@[i].format_idx as int].fields@[rv.instructions@[i].fields@[p].0 as int].length,
        )
}

impl RiscVSpec {
    /// Checks that every fixed field value of every instruction fits in
    /// its field's declared bit-width. The loader does not enforce this;
    /// well-formed specs must pass it.
    pub fn check_field_widths(&self) -> (r: bool)
        requires
            self.wf(),
        ensures
            r == spec_field_widths_ok(*self),
    {
        let ni = self.instructions.len();
        let mut i: usize = 0;
        #[verifier::loop_isolation(false)]
        while i < ni
            invariant
                ni == self.instructions@.len(),
                0 <= i <= ni,
                forall|i2: int, p2: int|
                    #![trigger self.instructions@[i2].fields@[p2]]
                    0 <= i2 < i && 0 <= p2 < self.instructions@[i2].fields@.len() ==> value_fits(
                        self.instructions@[i2].fields@[p2].1,
                        self.instruction_formats@[self.instructions@[i2].format_idx as int].fields@[self.instructions@[i2].fields@[p2].0 as int].length,
                    ),
            decreases ni - i,
        {
            let insn = &self.instructions[i];
            let fmt = &self.instruction_formats[insn.format_idx];
            let np = insn.fields.len();
            let mut p: usize = 0;
            #[verifier::loop_isolation(false)]
            while p < np
                invariant
                    i < ni,
                    np == insn.fields@.len(),
                    0 <= p <= np,
                    forall|p2: int|
                        0 <= p2 < p ==> value_fits(
                            (#[trigger] self.instructions@[i as int].fields@[p2]).1,
                            self.instruction_formats@[self.instructions@[i as int].format_idx as int].fields@[self.instructions@[i as int].fields@[p2].0 as int].length,
                        ),
                decreases np - p,
            {
                let (fi, v) = insn.fields[p];
                let length = fmt.fields[fi].length;
                let fits = if length <= 0 {
                    v == 0
                } else if length >= 64 {
                    true
                } else {
                    (v >> (length as u64)) == 0
                };
                if !fits {
                    return false;
                }
                p = p + 1;
            }
            i = i + 1;
        }
        true
    }
}

/// The position of the first format carrying the given name, or -1.
pub open spec fn fmt_name_find(formats: Seq<InstructionFormat>, name: Seq<char>) -> int
    decreases formats.len(),
{
    if formats.len() == 0 {
        -1
    } else if formats.first().name@ == name {
        0
    } else {
        let r = fmt_name_find(formats.drop_first(), name);
        if r == -1 {
            -1
        } else {
            r + 1
        }
    }
}

/// When nothing in the first `i` formats carries the name, the find result
/// is decided by position `i`.
proof fn lemma_fmt_name_find_at(formats: Seq<InstructionFormat>, name: Seq<char>, i: int)
    requires
        0 <= i <= formats.len(),
        forall|j: int| 0 <= j < i ==> (#[trigger] formats[j]).name@ != name,
    ensures
        i < formats.len() && formats[i].name@ == name ==> fmt_name_find(formats, name) == i,
        i == formats.len() ==> fmt_name_find(formats, name) == -1,
    decreases i,
{
    lemma_fmt_name_find_at_from(formats, name, 0, i);
    assert(formats.skip(0) =~= formats);
}

proof fn lemma_fmt_name_find_at_from(
    formats: Seq<InstructionFormat>,
    name: Seq<char>,
    k: int,
    i: int,
)
    requires
        0 <= k <= i <= formats.len(),
        forall|j: int| k <= j < i ==> (#[trigger] formats[j]).name@ != name,
    ensures
        i < formats.len() && formats[i].name@ == name ==> fmt_name_find(formats.skip(k), name) == i
            - k,
        i == formats.len() ==> fmt_name_find(formats.skip(k), name) == -1,
    decreases i - k,
{
    if k < i {
        lemma_fmt_name_find_at_from(formats, name, k + 1, i);
        assert(formats.skip(k).first() == formats[k]);
        assert(formats.skip(k).drop_first() =~= formats.skip(k + 1));
    } else {
        if i < formats.len() && formats[i].name@ == name {
            assert(formats.skip(k).first() == formats[k]);
        } else if i == formats.len() {
            if formats.skip(k).len() > 0 {
                assert(formats.skip(k).first() == formats[k]);
                assert(false);
            }
        }
    }
}

/// Register names of a list are pairwise distinct across different
/// registers.
pub open spec fn reg_names_disjoint(regs: Seq<Register>) -> bool {
    forall|j1: int, k1: int, j2: int, k2: int|
        #![trigger regs[j1].names@[k1], regs[j2].names@[k2]]
        0 <= j1 < regs.len() && 0 <= k1 < regs[j1].names@.len() && 0 <= j2 < regs.len() && 0 <= k2
            < regs[j2].names@.len() && j1 != j2 ==> regs[j1].names@[k1]@ != regs[j2].names@[k2]@
}

/// Law: in a well-formed spec whose register names are disjoint across
/// registers, the name lookup maps every name of every register to that
/// register's index.
pub proof fn lemma_register_name_lookup(rv: RiscVSpec, j: int, k: int)
    requires
        rv.wf(),
        reg_names_disjoint(rv.registers@),
        0 <= j < rv.registers@.len(),
        0 <= k < rv.registers@[j].names@.len(),
    ensures
        assoc_contains(rv.register_name_lookup@, rv.registers@[j].names@[k]@),
        assoc_get(rv.register_name_lookup@, rv.registers@[j].names@[k]@) == rv.registers@[j].index,
{
    let name = rv.registers@[j].names@[k]@;
    let lk = rv.register_name_lookup@;
    assert(assoc_contains(lk, name));
    let i = choose|i: int| 0 <= i < lk.len() && lk[i].0@ == name;
    assert(lk[i].1 == assoc_get(lk, name));
    assert(regs_contain(rv.registers@, lk[i].1));
    let r2 = regs_get(rv.registers@, lk[i].1);
    let j2 = choose|j2: int| 0 <= j2 < rv.registers@.len() && rv.registers@[j2].index == lk[i].1;
    assert(rv.registers@[j2] == r2);
    let k2 = choose|k2: int| 0 <= k2 < r2.names@.len() && r2.names@[k2]@ == lk[i].0@;
    if j2 != j {
        assert(rv.registers@[j2].names@[k2]@ == rv.registers@[j].names@[k]@);
        assert(false);
    }
}

/// Law: every format of a well-formed spec has `ilen` equal to one more
/// than the highest instruction bit over all bit-range maps of all its
/// fields (and zero when it has no maps at all).
pub proof fn lemma_format_ilen(rv: RiscVSpec, i: int)
    requires
        rv.wf(),
        0 <= i < rv.instruction_formats@.len(),
    ensures
        rv.instruction_formats@[i].ilen == spec_fields_last(rv.instruction_formats@[i].fields@) + 1,
        forall|fi: int, mi: int|
            0 <= fi < rv.instruction_formats@[i].fields@.len() && 0 <= mi
                < rv.instruction_formats@[i].fields@[fi].encoding@.len()
                ==> (#[trigger] rv.instruction_formats@[i].fields@[fi].encoding@[mi]).spec_instruction_last()
                < rv.instruction_formats@[i].ilen,
{
    lemma_fields_last_is_max(rv.instruction_formats@[i].fields@);
}

} // verus!
