//! The spec loader: parses declarative ISA-description documents, composes
//! them into the [`RiscVSpec`] model, and validates cross-references.

use crate::ast::{i32_of_chars, int_digits_c, parse_i32, valid_dec_c};
use crate::bits::BitRangeMap;
use crate::doc::{parse_doc, tab_get, toml_doc_of, view_doc, view_doc_tab, DocV, DocValue};
use crate::model::{
    unique_keys, FieldType, InstructionDefinition, InstructionField, InstructionFormat, LoadError,
    Register, RiscVSpec,
};
use crate::text::{ascii_lowercase, lower_chars};
use vstd::prelude::*;

verus! {

// ------------------------------------------------------------------
// Views of the model and of load errors
// ------------------------------------------------------------------
/// The mathematical value of a register.
pub struct RegV {
    pub index: i32,
    pub names: Seq<Seq<char>>,
    pub size_in_bits: i32,
}

/// The mathematical value of a format field.
pub struct FieldV {
    pub name: Seq<char>,
    pub vtype: FieldType,
    pub length: i32,
    pub encoding: Seq<BitRangeMap>,
}

/// The mathematical value of an instruction format.
pub struct FormatV {
    pub name: Seq<char>,
    pub fields: Seq<FieldV>,
    pub ilen: int,
}

/// The mathematical value of an instruction definition.
pub struct InsnV {
    pub name: Seq<char>,
    pub format_idx: int,
    pub args: Seq<usize>,
    pub fields: Seq<(usize, u64)>,
}

/// The mathematical value of the whole spec container.
pub struct SpecStateV {
    pub names: Seq<Seq<char>>,
    pub codes: Seq<Seq<char>>,
    pub specs: Seq<Seq<char>>,
    pub consts: Seq<(Seq<char>, u64)>,
    pub registers: Seq<RegV>,
    pub reg_lookup: Seq<(Seq<char>, i32)>,
    pub formats: Seq<FormatV>,
    pub instructions: Seq<InsnV>,
    pub insn_lookup: Seq<(Seq<char>, usize)>,
}

pub open spec fn view_pairs<V>(s: Seq<(String, V)>) -> Seq<(Seq<char>, V)> {
    s.map_values(|p: (String, V)| (p.0@, p.1))
}

pub open spec fn view_strings(s: Seq<String>) -> Seq<Seq<char>> {
    s.map_values(|x: String| x@)
}

pub open spec fn view_reg(r: Register) -> RegV {
    RegV { index: r.index, names: view_strings(r.names@), size_in_bits: r.size_in_bits }
}

pub open spec fn view_field(f: InstructionField) -> FieldV {
    FieldV { name: f.name@, vtype: f.vtype, length: f.length, encoding: f.encoding@ }
}

pub open spec fn view_format(f: InstructionFormat) -> FormatV {
    FormatV {
        name: f.name@,
        fields: f.fields@.map_values(|x: InstructionField| view_field(x)),
        ilen: f.ilen as int,
    }
}

pub open spec fn view_insn(d: InstructionDefinition) -> InsnV {
    InsnV { name: d.name@, format_idx: d.format_idx as int, args: d.args@, fields: d.fields@ }
}

/// The mathematical value of a whole spec container.
pub open spec fn view_spec(rv: RiscVSpec) -> SpecStateV {
    SpecStateV {
        names: view_strings(rv.loaded_names@),
        codes: view_strings(rv.loaded_codes@),
        specs: view_strings(rv.loaded_specs@),
        consts: view_pairs(rv.consts@),
        registers: rv.registers@.map_values(|r: Register| view_reg(r)),
        reg_lookup: view_pairs(rv.register_name_lookup@),
        formats: rv.instruction_formats@.map_values(|f: InstructionFormat| view_format(f)),
        instructions: rv.instructions@.map_values(|d: InstructionDefinition| view_insn(d)),
        insn_lookup: view_pairs(rv.instruction_name_lookup@),
    }
}

/// The mathematical value of a load error.
pub enum LoadErrV {
    MalformedDocument,
    RequirementNotFound(Seq<char>),
    ConstNotFound(Seq<char>),
    MissingNode(Seq<char>),
    BadType(Seq<char>),
    DuplicateInstruction(Seq<char>),
    BadInstructionFormat(Seq<char>),
}

/// The view of a load error.
pub open spec fn view_err(e: LoadError) -> LoadErrV {
    match e {
        LoadError::MalformedDocument => LoadErrV::MalformedDocument,
        LoadError::RequirementNotFound(s) => LoadErrV::RequirementNotFound(s@),
        LoadError::ConstNotFound(s) => LoadErrV::ConstNotFound(s@),
        LoadError::MissingNode(s) => LoadErrV::MissingNode(s@),
        LoadError::BadType(s) => LoadErrV::BadType(s@),
        LoadError::DuplicateInstruction(s) => LoadErrV::DuplicateInstruction(s@),
        LoadError::BadInstructionFormat(s) => LoadErrV::BadInstructionFormat(s@),
    }
}

// ------------------------------------------------------------------
// Association sequences keyed by character sequences
// ------------------------------------------------------------------
pub open spec fn assocv_contains<V>(s: Seq<(Seq<char>, V)>, key: Seq<char>) -> bool {
    exists|i: int| 0 <= i < s.len() && s[i].0 == key
}

pub open spec fn assocv_get<V>(s: Seq<(Seq<char>, V)>, key: Seq<char>) -> V {
    let i = choose|i: int| 0 <= i < s.len() && s[i].0 == key;
    s[i].1
}

/// Replace the value under an existing key, keeping its place, or append a
/// new pair.
pub open spec fn assocv_insert<V>(s: Seq<(Seq<char>, V)>, key: Seq<char>, v: V) -> Seq<
    (Seq<char>, V),
>
    decreases s.len(),
{
    if s.len() == 0 {
        seq![(key, v)]
    } else if s.first().0 == key {
        seq![(s.first().0, v)] + s.drop_first()
    } else {
        seq![s.first()] + assocv_insert(s.drop_first(), key, v)
    }
}

// ------------------------------------------------------------------
// Integer coercion
// ------------------------------------------------------------------
/// A 64-bit unsigned value reread as a signed one, two's complement.
pub open spec fn u64_as_i64(x: u64) -> i64 {
    if x <= i64::MAX {
        x as i64
    } else {
        (x - 0x1_0000_0000_0000_0000) as i64
    }
}

/// A 64-bit signed value reread as an unsigned one, two's complement.
pub open spec fn i64_as_u64(x: i64) -> u64 {
    if x >= 0 {
        x as u64
    } else {
        (x + 0x1_0000_0000_0000_0000) as u64
    }
}

/// A 64-bit signed value truncated to 32 bits, two's complement.
pub open spec fn i64_low32(x: i64) -> i32 {
    u64_low32(i64_as_u64(x))
}

pub open spec fn u64_low32(x: u64) -> i32 {
    let low = (x & 0xffff_ffff) as u64;
    if low <= 0x7fff_ffff {
        low as i32
    } else {
        (low - 0x1_0000_0000) as i32
    }
}

/// The integer coercion of the document format: a native integer is itself;
/// a string names a previously defined constant; anything else is a type
/// error carrying the given path.
pub open spec fn spec_toml_int(
    consts: Seq<(Seq<char>, u64)>,
    path: Seq<char>,
    v: DocV,
) -> Result<i64, LoadErrV> {
    match v {
        DocV::Int(i) => Ok(i),
        DocV::Str(s) => if assocv_contains(consts, s) {
            Ok(u64_as_i64(assocv_get(consts, s)))
        } else {
            Err(LoadErrV::ConstNotFound(s))
        },
        _ => Err(LoadErrV::BadType(path)),
    }
}

/// Exec counterpart of the truncating casts.
proof fn lemma_i64_as_u64(x: i64)
    by (bit_vector)
    ensures
        (x as u64) == (if x >= 0 {
            x as u64
        } else {
            ((x + 0x1_0000_0000_0000_0000) as u64)
        }),
{
}

proof fn lemma_u64_as_i64(x: u64)
    by (bit_vector)
    ensures
        (x as i64) == (if x <= i64::MAX {
            x as i64
        } else {
            ((x - 0x1_0000_0000_0000_0000) as i64)
        }),
{
}

proof fn lemma_i64_as_i32(x: i64)
    by (bit_vector)
    ensures
        (x as i32) == u64_low32(
            if x >= 0 {
                x as u64
            } else {
                ((x + 0x1_0000_0000_0000_0000) as u64)
            },
        ),
{
}

/// Looks an integer-or-constant value up; see [`spec_toml_int`]. The path
/// only serves the error message.
fn toml_int(consts: &Vec<(String, u64)>, path: String, v: &DocValue) -> (r: Result<i64, LoadError>)
    requires
        unique_keys(consts@),
    ensures
        r matches Ok(i) ==> spec_toml_int(view_pairs(consts@), path@, view_doc(*v)) == Ok::<
            i64,
            LoadErrV,
        >(i),
        r matches Err(e) ==> spec_toml_int(view_pairs(consts@), path@, view_doc(*v)) == Err::<
            i64,
            LoadErrV,
        >(view_err(e)),
{
    match v {
        DocValue::Int(i) => Ok(*i),
        DocValue::Str(s) => {
            proof {
                lemma_view_pairs_assoc(consts@, s@);
            }
            match crate::model::assoc_lookup(consts, s.as_str()) {
                Some(x) => {
                    proof {
                        lemma_u64_as_i64(x);
                    }
                    Ok(#[verifier::truncate] (x as i64))
                },
                None => Err(LoadError::ConstNotFound(s.clone())),
            }
        },
        _ => Err(LoadError::BadType(path)),
    }
}

/// Association over strings agrees with association over their views.
pub proof fn lemma_view_pairs_assoc<V>(s: Seq<(String, V)>, key: Seq<char>)
    ensures
        crate::model::assoc_contains(s, key) == assocv_contains(view_pairs(s), key),
        unique_keys(s) && crate::model::assoc_contains(s, key)
            ==> crate::model::assoc_get(s, key) == assocv_get(view_pairs(s), key),
        unique_keys(s) ==> unique_keys_v(view_pairs(s)),
{
    if crate::model::assoc_contains(s, key) {
        let i = choose|i: int| 0 <= i < s.len() && s[i].0@ == key;
        assert(view_pairs(s)[i].0 == key);
        assert(assocv_contains(view_pairs(s), key));
    }
    if assocv_contains(view_pairs(s), key) {
        let i = choose|i: int| 0 <= i < view_pairs(s).len() && view_pairs(s)[i].0 == key;
        assert(s[i].0@ == key);
        assert(crate::model::assoc_contains(s, key));
    }
    if unique_keys(s) {
        assert forall|i: int, j: int| 0 <= i < j < view_pairs(s).len() implies view_pairs(s)[i].0
            != view_pairs(s)[j].0 by {
            assert(s[i].0@ != s[j].0@);
        }
        if crate::model::assoc_contains(s, key) {
            let i = choose|i: int| 0 <= i < s.len() && s[i].0@ == key;
            let j = choose|j: int|
                0 <= j < view_pairs(s).len() && (#[trigger] view_pairs(s)[j]).0 == key;
            assert(view_pairs(s)[i].0 == key);
            assert(s[j].0@ == key);
            if i != j {
                assert(false);
            }
        }
    }
}

/// Unique keys at the view level.
pub open spec fn unique_keys_v<V>(s: Seq<(Seq<char>, V)>) -> bool {
    forall|i: int, j: int| 0 <= i < j < s.len() ==> s[i].0 != s[j].0
}

// ------------------------------------------------------------------
// The load semantics, section by section
// ------------------------------------------------------------------
/// A key looked up at the top level of a document value; non-tables hold
/// nothing.
pub open spec fn doc_get(d: DocV, key: Seq<char>) -> Option<DocV> {
    match d {
        DocV::Tab(t) => tab_get(t, key),
        _ => None,
    }
}

/// A required string entry of the meta table.
pub open spec fn spec_meta_str(meta: DocV, key: Seq<char>, path: Seq<char>) -> Result<
    Seq<char>,
    LoadErrV,
> {
    match doc_get(meta, key) {
        None => Err(LoadErrV::MissingNode(path)),
        Some(DocV::Str(s)) => Ok(s),
        Some(_) => Err(LoadErrV::BadType(path)),
    }
}

/// The requirements list checked against the already loaded codes.
pub open spec fn spec_requires_list(codes: Seq<Seq<char>>, items: Seq<DocV>) -> Result<
    (),
    LoadErrV,
>
    decreases items.len(),
{
    if items.len() == 0 {
        Ok(())
    } else {
        match items.first() {
            DocV::Str(code) => if codes.contains(code) {
                spec_requires_list(codes, items.drop_first())
            } else {
                Err(LoadErrV::RequirementNotFound(code))
            },
            _ => Err(LoadErrV::BadType("meta.requires item"@)),
        }
    }
}

/// The optional requirements entry of the meta table.
pub open spec fn spec_check_requires(codes: Seq<Seq<char>>, meta: DocV) -> Result<(), LoadErrV> {
    match doc_get(meta, "requires"@) {
        None => Ok(()),
        Some(DocV::Arr(items)) => spec_requires_list(codes, items),
        Some(_) => Err(LoadErrV::BadType("meta.requires"@)),
    }
}

/// The constants table folded into the constant map, in entry order; a
/// string value names an earlier constant.
pub open spec fn spec_load_consts(
    consts: Seq<(Seq<char>, u64)>,
    entries: Seq<(Seq<char>, DocV)>,
) -> Result<Seq<(Seq<char>, u64)>, LoadErrV>
    decreases entries.len(),
{
    if entries.len() == 0 {
        Ok(consts)
    } else {
        let e = entries.first();
        match spec_toml_int(consts, "consts."@ + e.0, e.1) {
            Err(er) => Err(er),
            Ok(i) => spec_load_consts(
                assocv_insert(consts, e.0, i64_as_u64(i)),
                entries.drop_first(),
            ),
        }
    }
}

/// The optional consts section.
pub open spec fn spec_sec_consts(
    consts: Seq<(Seq<char>, u64)>,
    doc: DocV,
) -> Result<Seq<(Seq<char>, u64)>, LoadErrV> {
    match doc_get(doc, "consts"@) {
        None => Ok(consts),
        Some(DocV::Tab(t)) => spec_load_consts(consts, t),
        Some(_) => Err(LoadErrV::BadType("consts"@)),
    }
}

/// The position of the register with the given index, or -1.
pub open spec fn reg_find(regs: Seq<RegV>, num: i32) -> int
    decreases regs.len(),
{
    if regs.len() == 0 {
        -1
    } else if regs.first().index == num {
        0
    } else {
        let r = reg_find(regs.drop_first(), num);
        if r == -1 {
            -1
        } else {
            r + 1
        }
    }
}

/// The register list with the names of register `num` replaced (the
/// register is created empty first if it is new).
pub open spec fn regs_set_names(regs: Seq<RegV>, num: i32, names: Seq<Seq<char>>) -> Seq<RegV> {
    let i = reg_find(regs, num);
    if i == -1 {
        regs.push(RegV { index: num, names, size_in_bits: 0 })
    } else {
        regs.update(i, RegV { index: num, names, size_in_bits: regs[i].size_in_bits })
    }
}

/// The register list with the size of register `num` replaced.
pub open spec fn regs_set_size(regs: Seq<RegV>, num: i32, size: i32) -> Seq<RegV> {
    let i = reg_find(regs, num);
    if i == -1 {
        regs.push(RegV { index: num, names: Seq::empty(), size_in_bits: size })
    } else {
        regs.update(i, RegV { index: num, names: regs[i].names, size_in_bits: size })
    }
}

/// An array of strings, as register name lists demand, appended to the
/// accumulator in order.
pub open spec fn spec_str_list(acc: Seq<Seq<char>>, items: Seq<DocV>, path: Seq<char>) -> Result<
    Seq<Seq<char>>,
    LoadErrV,
>
    decreases items.len(),
{
    if items.len() == 0 {
        Ok(acc)
    } else {
        match items.first() {
            DocV::Str(s) => spec_str_list(acc.push(s), items.drop_first(), path),
            _ => Err(LoadErrV::BadType(path)),
        }
    }
}

/// A register index key parsed as a 32-bit integer.
pub open spec fn spec_reg_key(numstr: Seq<char>) -> Option<i32> {
    if valid_dec_c(int_digits_c(numstr)) && -0x8000_0000 <= i32_of_chars(numstr) <= 0x7fff_ffff {
        Some(i32_of_chars(numstr) as i32)
    } else {
        None
    }
}

/// The `registers.names` table folded over the register list.
pub open spec fn spec_load_reg_names(regs: Seq<RegV>, entries: Seq<(Seq<char>, DocV)>) -> Result<
    Seq<RegV>,
    LoadErrV,
>
    decreases entries.len(),
{
    if entries.len() == 0 {
        Ok(regs)
    } else {
        let e = entries.first();
        match spec_reg_key(e.0) {
            None => Err(
                LoadErrV::BadType("registers.names."@ + e.0 + " key"@),
            ),
            Some(num) => match e.1 {
                DocV::Arr(items) => match spec_str_list(
                    Seq::empty(),
                    items,
                    "registers.names."@ + e.0 + " element"@,
                ) {
                    Ok(names) => spec_load_reg_names(
                        regs_set_names(regs, num, names),
                        entries.drop_first(),
                    ),
                    Err(er) => Err(er),
                },
                _ => Err(
                    LoadErrV::BadType("registers.names."@ + e.0 + " value"@),
                ),
            },
        }
    }
}

/// The `registers.lengths` table folded over the register list.
pub open spec fn spec_load_reg_lengths(
    regs: Seq<RegV>,
    consts: Seq<(Seq<char>, u64)>,
    entries: Seq<(Seq<char>, DocV)>,
) -> Result<Seq<RegV>, LoadErrV>
    decreases entries.len(),
{
    if entries.len() == 0 {
        Ok(regs)
    } else {
        let e = entries.first();
        match spec_reg_key(e.0) {
            None => Err(
                LoadErrV::BadType("registers.lengths."@ + e.0 + " key"@),
            ),
            Some(num) => match spec_toml_int(
                consts,
                "registers.lengths."@ + e.0 + " value"@,
                e.1,
            ) {
                Err(er) => Err(er),
                Ok(i) => spec_load_reg_lengths(
                    regs_set_size(regs, num, i64_low32(i)),
                    consts,
                    entries.drop_first(),
                ),
            },
        }
    }
}

/// The optional registers section: first the name lists, then the sizes.
pub open spec fn spec_sec_registers(
    regs: Seq<RegV>,
    consts: Seq<(Seq<char>, u64)>,
    doc: DocV,
) -> Result<Seq<RegV>, LoadErrV> {
    match doc_get(doc, "registers"@) {
        None => Ok(regs),
        Some(DocV::Tab(rt)) => {
            let after_names = match tab_get(rt, "names"@) {
                None => Ok(regs),
                Some(DocV::Tab(nt)) => spec_load_reg_names(regs, nt),
                Some(_) => Err(LoadErrV::BadType("registers.names"@)),
            };
            match after_names {
                Err(e) => Err(e),
                Ok(regs1) => match tab_get(rt, "lengths"@) {
                    None => Ok(regs1),
                    Some(DocV::Tab(lt)) => spec_load_reg_lengths(regs1, consts, lt),
                    Some(_) => Err(LoadErrV::BadType("registers.lengths"@)),
                },
            }
        },
        Some(_) => Err(LoadErrV::BadType("registers"@)),
    }
}

/// The type entry of a format field.
pub open spec fn spec_field_type(fldt: Seq<(Seq<char>, DocV)>, path: Seq<char>) -> Result<
    FieldType,
    LoadErrV,
> {
    match tab_get(fldt, "type"@) {
        None => Err(LoadErrV::MissingNode(path)),
        Some(DocV::Str(s)) => if s == "value"@ {
            Ok(FieldType::Value)
        } else if s == "register"@ {
            Ok(FieldType::Register)
        } else {
            Err(LoadErrV::BadType(path))
        },
        Some(_) => Err(LoadErrV::BadType(path)),
    }
}

/// The encoding list of a field: each element a three-entry array
/// `[value_last, value_first, instruction_first]` whose values must lie in
/// the ranges a bit-range map can encode.
pub open spec fn spec_load_encoding(
    acc: Seq<BitRangeMap>,
    consts: Seq<(Seq<char>, u64)>,
    path: Seq<char>,
    items: Seq<DocV>,
) -> Result<Seq<BitRangeMap>, LoadErrV>
    decreases items.len(),
{
    if items.len() == 0 {
        Ok(acc)
    } else {
        match items.first() {
            DocV::Arr(sub) => if sub.len() != 3 {
                Err(LoadErrV::BadType(path + "[][] length (must be 3)"@))
            } else {
                match spec_toml_int(consts, path + "[][]"@, sub[0]) {
                    Err(e) => Err(e),
                    Ok(vend) => match spec_toml_int(consts, path + "[][]"@, sub[1]) {
                        Err(e) => Err(e),
                        Ok(vbegin) => match spec_toml_int(consts, path + "[][]"@, sub[2]) {
                            Err(e) => Err(e),
                            Ok(ibegin) => {
                                let m = BitRangeMap {
                                    value_last: i64_low32(vend),
                                    value_first: i64_low32(vbegin),
                                    instruction_first: i64_low32(ibegin),
                                };
                                if !m.wf() {
                                    Err(LoadErrV::BadType(path + "[][] range"@))
                                } else {
                                    spec_load_encoding(
                                        acc.push(m),
                                        consts,
                                        path,
                                        items.drop_first(),
                                    )
                                }
                            },
                        },
                    },
                }
            },
            _ => Err(LoadErrV::BadType(path + "[] element"@)),
        }
    }
}

/// The fields of a format, in table order.
pub open spec fn spec_load_fields(
    acc: Seq<FieldV>,
    consts: Seq<(Seq<char>, u64)>,
    base: Seq<char>,
    entries: Seq<(Seq<char>, DocV)>,
) -> Result<Seq<FieldV>, LoadErrV>
    decreases entries.len(),
{
    if entries.len() == 0 {
        Ok(acc)
    } else {
        let e = entries.first();
        let path = base + "."@ + e.0;
        match e.1 {
            DocV::Tab(fldt) => match spec_field_type(fldt, path + ".type"@) {
                Err(er) => Err(er),
                Ok(ty) => match tab_get(fldt, "length"@) {
                    None => Err(LoadErrV::MissingNode(path + ".length"@)),
                    Some(lv) => match spec_toml_int(consts, path + ".length"@, lv) {
                        Err(er) => Err(er),
                        Ok(len) => match tab_get(fldt, "encoding"@) {
                            None => Err(LoadErrV::MissingNode(path + ".encoding"@)),
                            Some(DocV::Arr(items)) => match spec_load_encoding(
                                Seq::empty(),
                                consts,
                                path + ".encoding"@,
                                items,
                            ) {
                                Err(er) => Err(er),
                                Ok(enc) => spec_load_fields(
                                    acc.push(
                                        FieldV {
                                            name: e.0,
                                            vtype: ty,
                                            length: i64_low32(len),
                                            encoding: enc,
                                        },
                                    ),
                                    consts,
                                    base,
                                    entries.drop_first(),
                                ),
                            },
                            Some(_) => Err(LoadErrV::BadType(path + ".encoding"@)),
                        },
                    },
                },
            },
            _ => Err(LoadErrV::BadType(path)),
        }
    }
}

/// The highest instruction bit of a field-view list, or -1.
pub open spec fn fields_last_v(fields: Seq<FieldV>) -> int
    decreases fields.len(),
{
    if fields.len() == 0 {
        -1
    } else {
        let rest = fields_last_v(fields.drop_last());
        let l = crate::model::spec_maps_last(fields.last().encoding);
        if l > rest {
            l
        } else {
            rest
        }
    }
}

/// The formats of a document appended to the format list, in table order.
pub open spec fn spec_load_formats(
    formats: Seq<FormatV>,
    consts: Seq<(Seq<char>, u64)>,
    entries: Seq<(Seq<char>, DocV)>,
) -> Result<Seq<FormatV>, LoadErrV>
    decreases entries.len(),
{
    if entries.len() == 0 {
        Ok(formats)
    } else {
        let e = entries.first();
        match e.1 {
            DocV::Tab(ft) => match spec_load_fields(
                Seq::empty(),
                consts,
                "instruction_formats."@ + e.0,
                ft,
            ) {
                Err(er) => Err(er),
                Ok(fields) => spec_load_formats(
                    formats.push(
                        FormatV { name: e.0, fields, ilen: fields_last_v(fields) + 1 },
                    ),
                    consts,
                    entries.drop_first(),
                ),
            },
            _ => Err(LoadErrV::BadType("instruction_formats."@ + e.0)),
        }
    }
}

/// The optional instruction-formats section.
pub open spec fn spec_sec_formats(
    formats: Seq<FormatV>,
    consts: Seq<(Seq<char>, u64)>,
    doc: DocV,
) -> Result<Seq<FormatV>, LoadErrV> {
    match doc_get(doc, "instruction_formats"@) {
        None => Ok(formats),
        Some(DocV::Tab(t)) => spec_load_formats(formats, consts, t),
        Some(_) => Err(LoadErrV::BadType("instruction_formats"@)),
    }
}

/// The position of the format with the given name, or -1.
pub open spec fn fmt_find(formats: Seq<FormatV>, name: Seq<char>) -> int
    decreases formats.len(),
{
    if formats.len() == 0 {
        -1
    } else if formats.first().name == name {
        0
    } else {
        let r = fmt_find(formats.drop_first(), name);
        if r == -1 {
            -1
        } else {
            r + 1
        }
    }
}

/// The position of the field with the given name, or -1.
pub open spec fn fieldv_find(fields: Seq<FieldV>, name: Seq<char>) -> int
    decreases fields.len(),
{
    if fields.len() == 0 {
        -1
    } else if fields.first().name == name {
        0
    } else {
        let r = fieldv_find(fields.drop_first(), name);
        if r == -1 {
            -1
        } else {
            r + 1
        }
    }
}

/// The operand positions of an instruction: each args entry names a field
/// of its format.
pub open spec fn spec_args_idxs(
    acc: Seq<usize>,
    fields: Seq<FieldV>,
    iname: Seq<char>,
    items: Seq<DocV>,
) -> Result<Seq<usize>, LoadErrV>
    decreases items.len(),
{
    if items.len() == 0 {
        Ok(acc)
    } else {
        match items.first() {
            DocV::Str(a) => {
                let fi = fieldv_find(fields, a);
                if fi == -1 {
                    Err(
                        LoadErrV::BadInstructionFormat(
                            "instructions."@ + iname + ".args["@ + a + "]"@,
                        ),
                    )
                } else {
                    spec_args_idxs(acc.push(fi as usize), fields, iname, items.drop_first())
                }
            },
            _ => Err(LoadErrV::BadType("instructions."@ + iname + ".args[] item"@)),
        }
    }
}

/// The fixed (field, value) pairs of an instruction, in table order.
pub open spec fn spec_insn_fields(
    acc: Seq<(usize, u64)>,
    fields: Seq<FieldV>,
    consts: Seq<(Seq<char>, u64)>,
    iname: Seq<char>,
    entries: Seq<(Seq<char>, DocV)>,
) -> Result<Seq<(usize, u64)>, LoadErrV>
    decreases entries.len(),
{
    if entries.len() == 0 {
        Ok(acc)
    } else {
        let e = entries.first();
        let path = "instructions."@ + iname + ".fields["@ + e.0 + "]"@;
        match spec_toml_int(consts, path, e.1) {
            Err(er) => Err(er),
            Ok(i) => {
                let fi = fieldv_find(fields, e.0);
                if fi == -1 {
                    Err(LoadErrV::BadInstructionFormat(path))
                } else {
                    spec_insn_fields(
                        acc.push((fi as usize, i64_as_u64(i))),
                        fields,
                        consts,
                        iname,
                        entries.drop_first(),
                    )
                }
            },
        }
    }
}

/// The instructions of a document appended to the instruction list and the
/// name lookup, keys lowercased, duplicates refused.
pub open spec fn spec_load_insns(
    insns: Seq<InsnV>,
    lookup: Seq<(Seq<char>, usize)>,
    formats: Seq<FormatV>,
    consts: Seq<(Seq<char>, u64)>,
    entries: Seq<(Seq<char>, DocV)>,
) -> Result<(Seq<InsnV>, Seq<(Seq<char>, usize)>), LoadErrV>
    decreases entries.len(),
{
    if entries.len() == 0 {
        Ok((insns, lookup))
    } else {
        let e = entries.first();
        let iname = lower_chars(e.0);
        match e.1 {
            DocV::Tab(it) => match tab_get(it, "format"@) {
                None => Err(LoadErrV::MissingNode("instructions."@ + iname + ".format"@)),
                Some(DocV::Str(f)) => match tab_get(it, "args"@) {
                    None => Err(LoadErrV::MissingNode("instructions."@ + iname + ".args"@)),
                    Some(DocV::Arr(ai)) => match tab_get(it, "fields"@) {
                        None => Err(
                            LoadErrV::MissingNode("instructions."@ + iname + ".fields"@),
                        ),
                        Some(DocV::Tab(ft)) => {
                            let fidx = fmt_find(formats, f);
                            if fidx == -1 {
                                Err(
                                    LoadErrV::BadInstructionFormat(
                                        "instructions."@ + iname + ".format"@,
                                    ),
                                )
                            } else {
                                match spec_args_idxs(
                                    Seq::empty(),
                                    formats[fidx].fields,
                                    iname,
                                    ai,
                                ) {
                                    Err(er) => Err(er),
                                    Ok(argidx) => match spec_insn_fields(
                                        Seq::empty(),
                                        formats[fidx].fields,
                                        consts,
                                        iname,
                                        ft,
                                    ) {
                                        Err(er) => Err(er),
                                        Ok(fpairs) => if assocv_contains(lookup, iname) {
                                            Err(LoadErrV::DuplicateInstruction(iname))
                                        } else {
                                            spec_load_insns(
                                                insns.push(
                                                    InsnV {
                                                        name: iname,
                                                        format_idx: fidx,
                                                        args: argidx,
                                                        fields: fpairs,
                                                    },
                                                ),
                                                lookup.push((iname, insns.len() as usize)),
                                                formats,
                                                consts,
                                                entries.drop_first(),
                                            )
                                        },
                                    },
                                }
                            }
                        },
                        Some(_) => Err(
                            LoadErrV::BadType("instructions."@ + iname + ".fields"@),
                        ),
                    },
                    Some(_) => Err(LoadErrV::BadType("instructions."@ + iname + ".args"@)),
                },
                Some(_) => Err(LoadErrV::BadType("instructions."@ + iname + ".format"@)),
            },
            _ => Err(LoadErrV::BadType("instructions."@ + iname)),
        }
    }
}

/// The optional instructions section.
pub open spec fn spec_sec_insns(
    insns: Seq<InsnV>,
    lookup: Seq<(Seq<char>, usize)>,
    formats: Seq<FormatV>,
    consts: Seq<(Seq<char>, u64)>,
    doc: DocV,
) -> Result<(Seq<InsnV>, Seq<(Seq<char>, usize)>), LoadErrV> {
    match doc_get(doc, "instructions"@) {
        None => Ok((insns, lookup)),
        Some(DocV::Tab(t)) => spec_load_insns(insns, lookup, formats, consts, t),
        Some(_) => Err(LoadErrV::BadType("instructions"@)),
    }
}

/// The register-name lookup entries contributed by one name list.
pub open spec fn rebuild_names(
    lookup: Seq<(Seq<char>, i32)>,
    names: Seq<Seq<char>>,
    idx: i32,
) -> Seq<(Seq<char>, i32)>
    decreases names.len(),
{
    if names.len() == 0 {
        lookup
    } else {
        rebuild_names(assocv_insert(lookup, names.first(), idx), names.drop_first(), idx)
    }
}

/// The register-name lookup rebuilt from scratch over the register list, in
/// list order; a later register wins a shared name.
pub open spec fn rebuild_regs(
    lookup: Seq<(Seq<char>, i32)>,
    regs: Seq<RegV>,
) -> Seq<(Seq<char>, i32)>
    decreases regs.len(),
{
    if regs.len() == 0 {
        lookup
    } else {
        rebuild_regs(
            rebuild_names(lookup, regs.first().names, regs.first().index),
            regs.drop_first(),
        )
    }
}

// ------------------------------------------------------------------
// Exec helpers
// ------------------------------------------------------------------
/// Concatenates two string slices.
fn cat2(a: &str, b: &str) -> (r: String)
    ensures
        r@ == a@ + b@,
{
    let mut s = a.to_owned();
    vstd::string::StringExecFns::append(&mut s, b);
    s
}

/// Concatenates three string slices.
fn cat3(a: &str, b: &str, c: &str) -> (r: String)
    ensures
        r@ == a@ + b@ + c@,
{
    let mut s = a.to_owned();
    vstd::string::StringExecFns::append(&mut s, b);
    vstd::string::StringExecFns::append(&mut s, c);
    s
}

/// Concatenates five string slices.
fn cat5(a: &str, b: &str, c: &str, d: &str, e: &str) -> (r: String)
    ensures
        r@ == a@ + b@ + c@ + d@ + e@,
{
    let mut s = a.to_owned();
    vstd::string::StringExecFns::append(&mut s, b);
    vstd::string::StringExecFns::append(&mut s, c);
    vstd::string::StringExecFns::append(&mut s, d);
    vstd::string::StringExecFns::append(&mut s, e);
    s
}

/// Inserting under a key present at position `i` (and nowhere earlier)
/// replaces that pair's value in place.
proof fn lemma_assocv_insert_update<V>(s: Seq<(Seq<char>, V)>, key: Seq<char>, v: V, i: int)
    requires
        0 <= i < s.len(),
        s[i].0 == key,
        forall|j: int| 0 <= j < i ==> s[j].0 != key,
    ensures
        assocv_insert(s, key, v) =~= s.update(i, (s[i].0, v)),
    decreases i,
{
    if i == 0 {
        assert(assocv_insert(s, key, v) =~= s.update(0, (s[0].0, v)));
    } else {
        assert(s.drop_first()[i - 1].0 == key);
        lemma_assocv_insert_update(s.drop_first(), key, v, i - 1);
        assert(assocv_insert(s, key, v) =~= s.update(i, (s[i].0, v)));
    }
}

/// Inserting under an absent key appends the pair.
proof fn lemma_assocv_insert_append<V>(s: Seq<(Seq<char>, V)>, key: Seq<char>, v: V)
    requires
        !assocv_contains(s, key),
    ensures
        assocv_insert(s, key, v) =~= s.push((key, v)),
    decreases s.len(),
{
    if s.len() > 0 {
        assert(!assocv_contains(s.drop_first(), key)) by {
            if assocv_contains(s.drop_first(), key) {
                let i = choose|i: int|
                    0 <= i < s.drop_first().len() && (#[trigger] s.drop_first()[i]).0 == key;
                assert(s[i + 1].0 == key);
            }
        }
        lemma_assocv_insert_append(s.drop_first(), key, v);
        assert(assocv_insert(s, key, v) =~= s.push((key, v)));
    }
}

/// Inserting a key leaves it present.
proof fn lemma_assocv_insert_has<V>(s: Seq<(Seq<char>, V)>, key: Seq<char>, v: V)
    ensures
        assocv_contains(assocv_insert(s, key, v), key),
    decreases s.len(),
{
    let r = assocv_insert(s, key, v);
    if s.len() == 0 {
        assert(r[0].0 == key);
    } else if s.first().0 == key {
        assert(r[0].0 == key);
    } else {
        lemma_assocv_insert_has(s.drop_first(), key, v);
        let rr = assocv_insert(s.drop_first(), key, v);
        let w = choose|w: int| 0 <= w < rr.len() && (#[trigger] rr[w]).0 == key;
        assert(r[w + 1].0 == key);
    }
}

/// Replaces the value under a key, or appends the pair when the key is new.
fn assoc_insert_val<V: Copy>(consts: &mut Vec<(String, V)>, k: &String, v: V)
    requires
        unique_keys(old(consts)@),
    ensures
        unique_keys(final(consts)@),
        view_pairs(final(consts)@) == assocv_insert(view_pairs(old(consts)@), k@, v),
        old(consts)@.len() <= final(consts)@.len() <= old(consts)@.len() + 1,
        forall|j: int|
            0 <= j < old(consts)@.len() ==> (#[trigger] final(consts)@[j]).0@ == old(consts)@[j].0@,
        forall|j: int|
            old(consts)@.len() <= j < final(consts)@.len() ==> (#[trigger] final(consts)@[j]).0@
                == k@ && final(consts)@[j].1 == v,
        forall|j: int|
            0 <= j < old(consts)@.len() ==> (#[trigger] final(consts)@[j]).1 == (
            if old(consts)@[j].0@ == k@ {
                v
            } else {
                old(consts)@[j].1
            }),
{
    let n = consts.len();
    let mut i: usize = 0;
    #[verifier::loop_isolation(false)]
    while i < n
        invariant
            n == consts@.len(),
            0 <= i <= n,
            consts@ == old(consts)@,
            forall|j: int| 0 <= j < i ==> (#[trigger] consts@[j]).0@ != k@,
        decreases n - i,
    {
        if crate::text::str_eq(consts[i].0.as_str(), k.as_str()) {
            let ck = consts[i].0.clone();
            consts[i] = (ck, v);
            proof {
                lemma_assocv_insert_update(view_pairs(old(consts)@), k@, v, i as int);
                assert(view_pairs(consts@) =~= view_pairs(old(consts)@).update(
                    i as int,
                    (view_pairs(old(consts)@)[i as int].0, v),
                ));
            }
            return ;
        }
        i = i + 1;
    }
    proof {
        assert(!assocv_contains(view_pairs(consts@), k@)) by {
            if assocv_contains(view_pairs(consts@), k@) {
                let j = choose|j: int|
                    0 <= j < view_pairs(consts@).len() && (#[trigger] view_pairs(consts@)[j]).0
                        == k@;
                assert(consts@[j].0@ == k@);
            }
        }
        lemma_assocv_insert_append(view_pairs(old(consts)@), k@, v);
    }
    consts.push((k.clone(), v));
    proof {
        assert(view_pairs(consts@) =~= view_pairs(old(consts)@).push((k@, v)));
    }
}

/// Loads the consts table; see [`spec_load_consts`].
fn load_consts_table(consts: &mut Vec<(String, u64)>, entries: &Vec<(String, DocValue)>) -> (r:
    Result<(), LoadError>)
    requires
        unique_keys(old(consts)@),
    ensures
        unique_keys(final(consts)@),
        r matches Ok(_) ==> spec_load_consts(
            view_pairs(old(consts)@),
            view_doc_tab(entries@),
        ) == Ok::<_, LoadErrV>(view_pairs(final(consts)@)),
        r matches Err(e) ==> spec_load_consts(view_pairs(old(consts)@), view_doc_tab(entries@))
            == Err::<Seq<(Seq<char>, u64)>, _>(view_err(e)),
{
    let n = entries.len();
    let mut i: usize = 0;
    proof {
        crate::doc::lemma_view_doc_tab_index(entries@);
        assert(view_doc_tab(entries@).skip(0) =~= view_doc_tab(entries@));
    }
    #[verifier::loop_isolation(false)]
    while i < n
        invariant
            n == entries@.len(),
            0 <= i <= n,
            unique_keys(consts@),
            spec_load_consts(view_pairs(old(consts)@), view_doc_tab(entries@))
                == spec_load_consts(view_pairs(consts@), view_doc_tab(entries@).skip(i as int)),
        decreases n - i,
    {
        proof {
            assert(view_doc_tab(entries@).skip(i as int).first() == view_doc_tab(entries@)[i as int]);
            assert(view_doc_tab(entries@).skip(i as int).drop_first() =~= view_doc_tab(
                entries@,
            ).skip(i + 1 as int));
        }
        let path = cat2("consts.", entries[i].0.as_str());
        proof {
            reveal_strlit("consts.");
        }
        let iv = match toml_int(consts, path, &entries[i].1) {
            Ok(x) => x,
            Err(e) => {
                return Err(e);
            },
        };
        proof {
            lemma_i64_as_u64(iv);
        }
        let uv = #[verifier::truncate] (iv as u64);
        let k = entries[i].0.clone();
        assoc_insert_val(consts, &k, uv);
        i = i + 1;
    }
    proof {
        assert(view_doc_tab(entries@).skip(n as int) =~= Seq::<(Seq<char>, DocV)>::empty());
    }
    Ok(())
}

/// When nothing in the first `i` registers carries the index, the find
/// result is decided by position `i`.
proof fn lemma_reg_find_at(regs: Seq<RegV>, num: i32, i: int)
    requires
        0 <= i <= regs.len(),
        forall|j: int| 0 <= j < i ==> (#[trigger] regs[j]).index != num,
    ensures
        i < regs.len() && regs[i].index == num ==> reg_find(regs, num) == i,
        i == regs.len() ==> reg_find(regs, num) == -1,
    decreases i,
{
    lemma_reg_find_at_from(regs, num, 0, i);
    assert(regs.skip(0) =~= regs);
}

proof fn lemma_reg_find_at_from(regs: Seq<RegV>, num: i32, k: int, i: int)
    requires
        0 <= k <= i <= regs.len(),
        forall|j: int| k <= j < i ==> (#[trigger] regs[j]).index != num,
    ensures
        i < regs.len() && regs[i].index == num ==> reg_find(regs.skip(k), num) == i - k,
        i == regs.len() ==> reg_find(regs.skip(k), num) == -1,
    decreases i - k,
{
    if k < i {
        lemma_reg_find_at_from(regs, num, k + 1, i);
        assert(regs.skip(k).first() == regs[k]);
        assert(regs.skip(k).drop_first() =~= regs.skip(k + 1));
    } else {
        if i < regs.len() && regs[i].index == num {
            assert(regs.skip(k).first() == regs[k]);
        } else if i == regs.len() {
            if regs.skip(k).len() > 0 {
                assert(regs.skip(k).first() == regs[k]);
                assert(false);
            }
        }
    }
}

/// Finds the position of the register with the given index.
fn reg_position(registers: &Vec<Register>, num: i32) -> (r: Option<usize>)
    ensures
        r matches Some(p) ==> p < registers@.len() && registers@[p as int].index == num && reg_find(
            registers@.map_values(|x: Register| view_reg(x)),
            num,
        ) == p,
        r is None ==> reg_find(registers@.map_values(|x: Register| view_reg(x)), num) == -1,
        r is None ==> forall|j: int|
            0 <= j < registers@.len() ==> (#[trigger] registers@[j]).index != num,
{
    let ghost rv = registers@.map_values(|x: Register| view_reg(x));
    proof {
        assert(rv.skip(0) =~= rv);
    }
    let n = registers.len();
    let mut i: usize = 0;
    #[verifier::loop_isolation(false)]
    while i < n
        invariant
            n == registers@.len(),
            0 <= i <= n,
            rv == registers@.map_values(|x: Register| view_reg(x)),
            forall|j: int| 0 <= j < i ==> (#[trigger] rv[j]).index != num,
        decreases n - i,
    {
        if registers[i].index == num {
            proof {
                lemma_reg_find_at(rv, num, i as int);
            }
            return Some(i);
        }
        i = i + 1;
    }
    proof {
        lemma_reg_find_at(rv, num, n as int);
        assert forall|j: int| 0 <= j < registers@.len() implies (#[trigger] registers@[j]).index
            != num by {
            assert(rv[j] == view_reg(registers@[j]));
        }
    }
    None
}

/// Collects an array of strings; see [`spec_str_list`].
fn load_str_list(items: &Vec<DocValue>, path: String) -> (r: Result<Vec<String>, LoadError>)
    ensures
        r matches Ok(out) ==> spec_str_list(
            Seq::empty(),
            crate::doc::view_doc_list(items@),
            path@,
        ) == Ok::<_, LoadErrV>(view_strings(out@)),
        r matches Err(e) ==> spec_str_list(
            Seq::empty(),
            crate::doc::view_doc_list(items@),
            path@,
        ) == Err::<Seq<Seq<char>>, _>(view_err(e)),
{
    let ghost iv = crate::doc::view_doc_list(items@);
    proof {
        crate::doc::lemma_view_doc_list_index(items@);
        assert(iv.skip(0) =~= iv);
    }
    let n = items.len();
    let mut out: Vec<String> = Vec::new();
    let mut i: usize = 0;
    proof {
        assert(view_strings(out@) =~= Seq::<Seq<char>>::empty());
    }
    #[verifier::loop_isolation(false)]
    while i < n
        invariant
            n == items@.len(),
            0 <= i <= n,
            iv == crate::doc::view_doc_list(items@),
            spec_str_list(Seq::empty(), iv, path@) == spec_str_list(
                view_strings(out@),
                iv.skip(i as int),
                path@,
            ),
        decreases n - i,
    {
        proof {
            assert(iv.skip(i as int).first() == iv[i as int]);
            assert(iv.skip(i as int).drop_first() =~= iv.skip(i + 1 as int));
        }
        match &items[i] {
            DocValue::Str(s) => {
                let ghost prev = view_strings(out@);
                out.push(s.clone());
                proof {
                    assert(view_strings(out@) =~= prev.push(s@));
                }
            },
            _ => {
                return Err(LoadError::BadType(path));
            },
        }
        i = i + 1;
    }
    proof {
        assert(iv.skip(n as int) =~= Seq::<DocV>::empty());
    }
    Ok(out)
}

/// Loads the `registers.names` table; see [`spec_load_reg_names`].
fn load_reg_names_table(registers: &mut Vec<Register>, entries: &Vec<(String, DocValue)>) -> (r:
    Result<(), LoadError>)
    requires
        crate::model::unique_reg_indices(old(registers)@),
    ensures
        crate::model::unique_reg_indices(final(registers)@),
        r matches Ok(_) ==> spec_load_reg_names(
            old(registers)@.map_values(|x: Register| view_reg(x)),
            view_doc_tab(entries@),
        ) == Ok::<_, LoadErrV>(final(registers)@.map_values(|x: Register| view_reg(x))),
        r matches Err(e) ==> spec_load_reg_names(
            old(registers)@.map_values(|x: Register| view_reg(x)),
            view_doc_tab(entries@),
        ) == Err::<Seq<RegV>, _>(view_err(e)),
{
    let n = entries.len();
    let mut i: usize = 0;
    proof {
        crate::doc::lemma_view_doc_tab_index(entries@);
        assert(view_doc_tab(entries@).skip(0) =~= view_doc_tab(entries@));
    }
    #[verifier::loop_isolation(false)]
    while i < n
        invariant
            n == entries@.len(),
            0 <= i <= n,
            crate::model::unique_reg_indices(registers@),
            spec_load_reg_names(
                old(registers)@.map_values(|x: Register| view_reg(x)),
                view_doc_tab(entries@),
            ) == spec_load_reg_names(
                registers@.map_values(|x: Register| view_reg(x)),
                view_doc_tab(entries@).skip(i as int),
            ),
        decreases n - i,
    {
        proof {
            assert(view_doc_tab(entries@).skip(i as int).first() == view_doc_tab(entries@)[i as int]);
            assert(view_doc_tab(entries@).skip(i as int).drop_first() =~= view_doc_tab(
                entries@,
            ).skip(i + 1 as int));
            reveal_strlit("registers.names.");
            reveal_strlit(" key");
            reveal_strlit(" value");
            reveal_strlit(" element");
        }
        let key = &entries[i].0;
        let num = match parse_i32(key.as_str()) {
            Some(v) => v,
            None => {
                return Err(
                    LoadError::BadType(cat3("registers.names.", key.as_str(), " key")),
                );
            },
        };
        match &entries[i].1 {
            DocValue::Arr(items) => {
                let newnames = match load_str_list(
                    items,
                    cat3("registers.names.", key.as_str(), " element"),
                ) {
                    Ok(v) => v,
                    Err(e) => {
                        return Err(e);
                    },
                };
                set_register_names(registers, num, newnames);
            },
            _ => {
                return Err(
                    LoadError::BadType(cat3("registers.names.", key.as_str(), " value")),
                );
            },
        }
        i = i + 1;
    }
    proof {
        assert(view_doc_tab(entries@).skip(n as int) =~= Seq::<(Seq<char>, DocV)>::empty());
    }
    Ok(())
}

/// Replaces the name list of a register, creating the register first when
/// it is new.
fn set_register_names(registers: &mut Vec<Register>, num: i32, names: Vec<String>)
    requires
        crate::model::unique_reg_indices(old(registers)@),
    ensures
        crate::model::unique_reg_indices(final(registers)@),
        final(registers)@.map_values(|x: Register| view_reg(x)) == regs_set_names(
            old(registers)@.map_values(|x: Register| view_reg(x)),
            num,
            view_strings(names@),
        ),
{
    let ghost rv = old(registers)@.map_values(|x: Register| view_reg(x));
    let ghost nv = names@;
    match reg_position(registers, num) {
        Some(p) => {
            let size = registers[p].size_in_bits;
            registers[p] = Register { index: num, names, size_in_bits: size };
            proof {
                assert(registers@.map_values(|x: Register| view_reg(x)) =~= rv.update(
                    p as int,
                    RegV {
                        index: num,
                        names: view_strings(nv),
                        size_in_bits: rv[p as int].size_in_bits,
                    },
                ));
                assert(forall|j: int|
                    0 <= j < registers@.len() ==> (#[trigger] registers@[j]).index == old(registers)@[j].index);
            }
        },
        None => {
            registers.push(Register { index: num, names, size_in_bits: 0 });
            proof {
                assert(registers@.map_values(|x: Register| view_reg(x)) =~= rv.push(
                    RegV { index: num, names: view_strings(nv), size_in_bits: 0 },
                ));
            }
        },
    }
}

/// Replaces the size of a register, creating the register first when it is
/// new.
fn set_register_size(registers: &mut Vec<Register>, num: i32, size: i32)
    requires
        crate::model::unique_reg_indices(old(registers)@),
    ensures
        crate::model::unique_reg_indices(final(registers)@),
        final(registers)@.map_values(|x: Register| view_reg(x)) == regs_set_size(
            old(registers)@.map_values(|x: Register| view_reg(x)),
            num,
            size,
        ),
{
    let ghost rv = old(registers)@.map_values(|x: Register| view_reg(x));
    match reg_position(registers, num) {
        Some(p) => {
            let mut el = Register { index: num, names: Vec::new(), size_in_bits: size };
            core::mem::swap(&mut el, &mut registers[p]);
            let el2 = Register { index: num, names: el.names, size_in_bits: size };
            registers[p] = el2;
            proof {
                assert(registers@.map_values(|x: Register| view_reg(x)) =~= rv.update(
                    p as int,
                    RegV { index: num, names: rv[p as int].names, size_in_bits: size },
                ));
                assert(forall|j: int|
                    0 <= j < registers@.len() ==> (#[trigger] registers@[j]).index == old(registers)@[j].index);
            }
        },
        None => {
            registers.push(Register { index: num, names: Vec::new(), size_in_bits: size });
            proof {
                assert(view_strings(registers@[registers@.len() - 1].names@)
                    =~= Seq::<Seq<char>>::empty());
                assert(registers@.map_values(|x: Register| view_reg(x)) =~= rv.push(
                    RegV { index: num, names: Seq::empty(), size_in_bits: size },
                ));
            }
        },
    }
}

/// Loads the `registers.lengths` table; see [`spec_load_reg_lengths`].
fn load_reg_lengths_table(
    registers: &mut Vec<Register>,
    consts: &Vec<(String, u64)>,
    entries: &Vec<(String, DocValue)>,
) -> (r: Result<(), LoadError>)
    requires
        crate::model::unique_reg_indices(old(registers)@),
        unique_keys(consts@),
    ensures
        crate::model::unique_reg_indices(final(registers)@),
        r matches Ok(_) ==> spec_load_reg_lengths(
            old(registers)@.map_values(|x: Register| view_reg(x)),
            view_pairs(consts@),
            view_doc_tab(entries@),
        ) == Ok::<_, LoadErrV>(final(registers)@.map_values(|x: Register| view_reg(x))),
        r matches Err(e) ==> spec_load_reg_lengths(
            old(registers)@.map_values(|x: Register| view_reg(x)),
            view_pairs(consts@),
            view_doc_tab(entries@),
        ) == Err::<Seq<RegV>, _>(view_err(e)),
{
    let n = entries.len();
    let mut i: usize = 0;
    proof {
        crate::doc::lemma_view_doc_tab_index(entries@);
        assert(view_doc_tab(entries@).skip(0) =~= view_doc_tab(entries@));
    }
    #[verifier::loop_isolation(false)]
    while i < n
        invariant
            n == entries@.len(),
            0 <= i <= n,
            crate::model::unique_reg_indices(registers@),
            spec_load_reg_lengths(
                old(registers)@.map_values(|x: Register| view_reg(x)),
                view_pairs(consts@),
                view_doc_tab(entries@),
            ) == spec_load_reg_lengths(
                registers@.map_values(|x: Register| view_reg(x)),
                view_pairs(consts@),
                view_doc_tab(entries@).skip(i as int),
            ),
        decreases n - i,
    {
        proof {
            assert(view_doc_tab(entries@).skip(i as int).first() == view_doc_tab(entries@)[i as int]);
            assert(view_doc_tab(entries@).skip(i as int).drop_first() =~= view_doc_tab(
                entries@,
            ).skip(i + 1 as int));
            reveal_strlit("registers.lengths.");
            reveal_strlit(" key");
            reveal_strlit(" value");
        }
        let key = &entries[i].0;
        let num = match parse_i32(key.as_str()) {
            Some(v) => v,
            None => {
                return Err(
                    LoadError::BadType(cat3("registers.lengths.", key.as_str(), " key")),
                );
            },
        };
        let iv = match toml_int(
            consts,
            cat3("registers.lengths.", key.as_str(), " value"),
            &entries[i].1,
        ) {
            Ok(x) => x,
            Err(e) => {
                return Err(e);
            },
        };
        proof {
            lemma_i64_as_i32(iv);
        }
        set_register_size(registers, num, #[verifier::truncate] (iv as i32));
        i = i + 1;
    }
    proof {
        assert(view_doc_tab(entries@).skip(n as int) =~= Seq::<(Seq<char>, DocV)>::empty());
    }
    Ok(())
}

/// The whole load of one document: meta, requirement validation, constants,
/// registers, formats, instructions, and the register-name lookup rebuild,
/// in that order, stopping at the first error.
pub open spec fn spec_load_doc(st: SpecStateV, doc: DocV) -> Result<SpecStateV, LoadErrV> {
    match doc_get(doc, "meta"@) {
        None => Err(LoadErrV::MissingNode("meta"@)),
        Some(meta) => match spec_meta_str(meta, "name"@, "meta.name"@) {
            Err(e) => Err(e),
            Ok(nm) => match spec_meta_str(meta, "code"@, "meta.code"@) {
                Err(e) => Err(e),
                Ok(cd) => match spec_meta_str(meta, "spec"@, "meta.spec"@) {
                    Err(e) => Err(e),
                    Ok(sp) => {
                        let codes1 = st.codes.push(cd);
                        match spec_check_requires(codes1, meta) {
                            Err(e) => Err(e),
                            Ok(_) => match spec_sec_consts(st.consts, doc) {
                                Err(e) => Err(e),
                                Ok(consts1) => match spec_sec_registers(
                                    st.registers,
                                    consts1,
                                    doc,
                                ) {
                                    Err(e) => Err(e),
                                    Ok(regs1) => match spec_sec_formats(
                                        st.formats,
                                        consts1,
                                        doc,
                                    ) {
                                        Err(e) => Err(e),
                                        Ok(formats1) => match spec_sec_insns(
                                            st.instructions,
                                            st.insn_lookup,
                                            formats1,
                                            consts1,
                                            doc,
                                        ) {
                                            Err(e) => Err(e),
                                            Ok(ins1) => Ok(
                                                SpecStateV {
                                                    names: st.names.push(nm),
                                                    codes: codes1,
                                                    specs: st.specs.push(sp),
                                                    consts: consts1,
                                                    registers: regs1,
                                                    reg_lookup: rebuild_regs(
                                                        Seq::empty(),
                                                        regs1,
                                                    ),
                                                    formats: formats1,
                                                    instructions: ins1.0,
                                                    insn_lookup: ins1.1,
                                                },
                                            ),
                                        },
                                    },
                                },
                            },
                        }
                    },
                },
            },
        },
    }
}


// ------------------------------------------------------------------
// Exec: formats and instructions
// ------------------------------------------------------------------
/// Looks a key up at the top level of a document value.
fn doc_get_exec<'a>(d: &'a DocValue, key: &str) -> (r: Option<&'a DocValue>)
    ensures
        r matches Some(x) ==> doc_get(view_doc(*d), key@) == Some(view_doc(*x)),
        r is None ==> doc_get(view_doc(*d), key@) is None,
{
    match d {
        DocValue::Tab(t) => crate::doc::doc_tab_get(t, key),
        _ => None,
    }
}

/// Reads a required string entry of the meta table.
fn get_meta_str(meta: &DocValue, key: &str, path_m: &str) -> (r: Result<String, LoadError>)
    ensures
        r matches Ok(s) ==> spec_meta_str(view_doc(*meta), key@, path_m@) == Ok::<_, LoadErrV>(s@),
        r matches Err(e) ==> spec_meta_str(view_doc(*meta), key@, path_m@) == Err::<Seq<char>, _>(
            view_err(e),
        ),
{
    match doc_get_exec(meta, key) {
        None => Err(LoadError::MissingNode(path_m.to_owned())),
        Some(DocValue::Str(s)) => Ok(s.clone()),
        Some(_) => Err(LoadError::BadType(path_m.to_owned())),
    }
}

/// Whether a code is among the loaded codes.
fn codes_contain(codes: &Vec<String>, code: &str) -> (r: bool)
    ensures
        r == view_strings(codes@).contains(code@),
{
    let n = codes.len();
    let mut i: usize = 0;
    #[verifier::loop_isolation(false)]
    while i < n
        invariant
            n == codes@.len(),
            0 <= i <= n,
            forall|j: int| 0 <= j < i ==> (#[trigger] codes@[j])@ != code@,
        decreases n - i,
    {
        if crate::text::str_eq(codes[i].as_str(), code) {
            proof {
                assert(view_strings(codes@)[i as int] == code@);
            }
            return true;
        }
        i = i + 1;
    }
    proof {
        if view_strings(codes@).contains(code@) {
            let j = choose|j: int|
                0 <= j < view_strings(codes@).len() && view_strings(codes@)[j] == code@;
            assert(codes@[j]@ == code@);
        }
    }
    false
}

/// Validates the requirements list of the meta table.
fn check_requires(codes: &Vec<String>, meta: &DocValue) -> (r: Result<(), LoadError>)
    ensures
        r matches Ok(_) ==> spec_check_requires(view_strings(codes@), view_doc(*meta)) == Ok::<
            (),
            LoadErrV,
        >(()),
        r matches Err(e) ==> spec_check_requires(view_strings(codes@), view_doc(*meta)) == Err::<
            (),
            _,
        >(view_err(e)),
{
    proof {
        reveal_strlit("requires");
        reveal_strlit("meta.requires");
        reveal_strlit("meta.requires item");
    }
    let list = match doc_get_exec(meta, "requires") {
        None => {
            return Ok(());
        },
        Some(DocValue::Arr(items)) => items,
        Some(_) => {
            return Err(LoadError::BadType("meta.requires".to_owned()));
        },
    };
    let ghost iv = crate::doc::view_doc_list(list@);
    proof {
        crate::doc::lemma_view_doc_list_index(list@);
        assert(iv.skip(0) =~= iv);
    }
    let n = list.len();
    let mut i: usize = 0;
    #[verifier::loop_isolation(false)]
    while i < n
        invariant
            n == list@.len(),
            0 <= i <= n,
            iv == crate::doc::view_doc_list(list@),
            spec_requires_list(view_strings(codes@), iv) == spec_requires_list(
                view_strings(codes@),
                iv.skip(i as int),
            ),
        decreases n - i,
    {
        proof {
            assert(iv.skip(i as int).first() == iv[i as int]);
            assert(iv.skip(i as int).drop_first() =~= iv.skip(i + 1 as int));
        }
        match &list[i] {
            DocValue::Str(code) => {
                if !codes_contain(codes, code.as_str()) {
                    return Err(LoadError::RequirementNotFound(code.clone()));
                }
            },
            _ => {
                return Err(LoadError::BadType("meta.requires item".to_owned()));
            },
        }
        i = i + 1;
    }
    proof {
        assert(iv.skip(n as int) =~= Seq::<DocV>::empty());
    }
    Ok(())
}

/// Loads one field encoding list; see [`spec_load_encoding`].
fn load_encoding_list(
    consts: &Vec<(String, u64)>,
    path_enc: &str,
    items: &Vec<DocValue>,
) -> (r: Result<Vec<BitRangeMap>, LoadError>)
    requires
        unique_keys(consts@),
    ensures
        r matches Ok(out) ==> spec_load_encoding(
            Seq::empty(),
            view_pairs(consts@),
            path_enc@,
            crate::doc::view_doc_list(items@),
        ) == Ok::<_, LoadErrV>(out@) && (forall|j: int|
            0 <= j < out@.len() ==> (#[trigger] out@[j]).wf()),
        r matches Err(e) ==> spec_load_encoding(
            Seq::empty(),
            view_pairs(consts@),
            path_enc@,
            crate::doc::view_doc_list(items@),
        ) == Err::<Seq<BitRangeMap>, _>(view_err(e)),
{
    let ghost iv = crate::doc::view_doc_list(items@);
    proof {
        crate::doc::lemma_view_doc_list_index(items@);
        assert(iv.skip(0) =~= iv);
        reveal_strlit("[][] length (must be 3)");
        reveal_strlit("[][] range");
        reveal_strlit("[][]");
        reveal_strlit("[] element");
    }
    let n = items.len();
    let mut out: Vec<BitRangeMap> = Vec::new();
    let mut i: usize = 0;
    #[verifier::loop_isolation(false)]
    while i < n
        invariant
            n == items@.len(),
            0 <= i <= n,
            iv == crate::doc::view_doc_list(items@),
            forall|j: int| 0 <= j < out@.len() ==> (#[trigger] out@[j]).wf(),
            spec_load_encoding(Seq::empty(), view_pairs(consts@), path_enc@, iv)
                == spec_load_encoding(out@, view_pairs(consts@), path_enc@, iv.skip(i as int)),
        decreases n - i,
    {
        proof {
            assert(iv.skip(i as int).first() == iv[i as int]);
            assert(iv.skip(i as int).drop_first() =~= iv.skip(i + 1 as int));
        }
        match &items[i] {
            DocValue::Arr(sub) => {
                proof {
                    crate::doc::lemma_view_doc_list_index(sub@);
                }
                if sub.len() != 3 {
                    return Err(
                        LoadError::BadType(cat2(path_enc, "[][] length (must be 3)")),
                    );
                }
                let vend = match toml_int(consts, cat2(path_enc, "[][]"), &sub[0]) {
                    Ok(x) => x,
                    Err(e) => {
                        return Err(e);
                    },
                };
                let vbegin = match toml_int(consts, cat2(path_enc, "[][]"), &sub[1]) {
                    Ok(x) => x,
                    Err(e) => {
                        return Err(e);
                    },
                };
                let ibegin = match toml_int(consts, cat2(path_enc, "[][]"), &sub[2]) {
                    Ok(x) => x,
                    Err(e) => {
                        return Err(e);
                    },
                };
                proof {
                    lemma_i64_as_i32(vend);
                    lemma_i64_as_i32(vbegin);
                    lemma_i64_as_i32(ibegin);
                }
                let m = BitRangeMap::new(
                    #[verifier::truncate] (vend as i32),
                    #[verifier::truncate] (vbegin as i32),
                    #[verifier::truncate] (ibegin as i32),
                );
                let ok = 0 <= m.value_first && m.value_first <= m.value_last && m.value_last < 64
                    && m.value_last - m.value_first + 1 <= 63 && 0 <= m.instruction_first
                    && m.instruction_first <= 0x0fff_ffff && m.value_last - m.value_first + 1
                    + m.instruction_first % 8 <= 64;
                proof {
                    assert(ok == m.wf());
                }
                if !ok {
                    return Err(LoadError::BadType(cat2(path_enc, "[][] range")));
                }
                out.push(m);
            },
            _ => {
                return Err(LoadError::BadType(cat2(path_enc, "[] element")));
            },
        }
        i = i + 1;
    }
    proof {
        assert(iv.skip(n as int) =~= Seq::<DocV>::empty());
    }
    Ok(out)
}

/// Loads the fields of one format; see [`spec_load_fields`].
fn load_fields_table(
    consts: &Vec<(String, u64)>,
    base: &str,
    entries: &Vec<(String, DocValue)>,
) -> (r: Result<Vec<InstructionField>, LoadError>)
    requires
        unique_keys(consts@),
    ensures
        r matches Ok(out) ==> spec_load_fields(
            Seq::empty(),
            view_pairs(consts@),
            base@,
            view_doc_tab(entries@),
        ) == Ok::<_, LoadErrV>(out@.map_values(|x: InstructionField| view_field(x))) && (
        forall|j: int| 0 <= j < out@.len() ==> (#[trigger] out@[j]).wf()),
        r matches Err(e) ==> spec_load_fields(
            Seq::empty(),
            view_pairs(consts@),
            base@,
            view_doc_tab(entries@),
        ) == Err::<Seq<FieldV>, _>(view_err(e)),
{
    let ghost ev = view_doc_tab(entries@);
    proof {
        crate::doc::lemma_view_doc_tab_index(entries@);
        assert(ev.skip(0) =~= ev);
        reveal_strlit(".");
        reveal_strlit(".type");
        reveal_strlit(".length");
        reveal_strlit(".encoding");
        reveal_strlit("value");
        reveal_strlit("register");
    }
    let n = entries.len();
    let mut out: Vec<InstructionField> = Vec::new();
    proof {
        assert(out@.map_values(|x: InstructionField| view_field(x)) =~= Seq::<FieldV>::empty());
    }
    let mut i: usize = 0;
    #[verifier::loop_isolation(false)]
    while i < n
        invariant
            n == entries@.len(),
            0 <= i <= n,
            ev == view_doc_tab(entries@),
            forall|j: int| 0 <= j < out@.len() ==> (#[trigger] out@[j]).wf(),
            spec_load_fields(Seq::empty(), view_pairs(consts@), base@, ev) == spec_load_fields(
                out@.map_values(|x: InstructionField| view_field(x)),
                view_pairs(consts@),
                base@,
                ev.skip(i as int),
            ),
        decreases n - i,
    {
        proof {
            assert(ev.skip(i as int).first() == ev[i as int]);
            assert(ev.skip(i as int).drop_first() =~= ev.skip(i + 1 as int));
        }
        let fldname = &entries[i].0;
        let path = cat3(base, ".", fldname.as_str());
        let fldt = match &entries[i].1 {
            DocValue::Tab(t) => t,
            _ => {
                return Err(LoadError::BadType(path));
            },
        };
        // field type
        let vtype = match crate::doc::doc_tab_get(fldt, "type") {
            None => {
                return Err(LoadError::MissingNode(cat2(path.as_str(), ".type")));
            },
            Some(DocValue::Str(tystr)) => {
                if crate::text::str_eq(tystr.as_str(), "value") {
                    FieldType::Value
                } else if crate::text::str_eq(tystr.as_str(), "register") {
                    FieldType::Register
                } else {
                    return Err(LoadError::BadType(cat2(path.as_str(), ".type")));
                }
            },
            Some(_) => {
                return Err(LoadError::BadType(cat2(path.as_str(), ".type")));
            },
        };
        // field length
        let lenv = match crate::doc::doc_tab_get(fldt, "length") {
            None => {
                return Err(LoadError::MissingNode(cat2(path.as_str(), ".length")));
            },
            Some(x) => x,
        };
        let leni = match toml_int(consts, cat2(path.as_str(), ".length"), lenv) {
            Ok(x) => x,
            Err(e) => {
                return Err(e);
            },
        };
        proof {
            lemma_i64_as_i32(leni);
        }
        // encoding
        let encitems = match crate::doc::doc_tab_get(fldt, "encoding") {
            None => {
                return Err(LoadError::MissingNode(cat2(path.as_str(), ".encoding")));
            },
            Some(DocValue::Arr(a)) => a,
            Some(_) => {
                return Err(LoadError::BadType(cat2(path.as_str(), ".encoding")));
            },
        };
        let enc = match load_encoding_list(consts, cat2(path.as_str(), ".encoding").as_str(), encitems) {
            Ok(v) => v,
            Err(e) => {
                return Err(e);
            },
        };
        let ghost prev = out@.map_values(|x: InstructionField| view_field(x));
        let fld = InstructionField {
            name: fldname.clone(),
            vtype,
            length: #[verifier::truncate] (leni as i32),
            encoding: enc,
        };
        out.push(fld);
        proof {
            assert(out@.map_values(|x: InstructionField| view_field(x)) =~= prev.push(
                view_field(out@[out@.len() - 1]),
            ));
        }
        i = i + 1;
    }
    proof {
        assert(ev.skip(n as int) =~= Seq::<(Seq<char>, DocV)>::empty());
    }
    Ok(out)
}

/// The field-list maximum is the same through views.
proof fn lemma_fields_last_view(fields: Seq<InstructionField>)
    ensures
        fields_last_v(fields.map_values(|x: InstructionField| view_field(x)))
            == crate::model::spec_fields_last(fields),
    decreases fields.len(),
{
    let fv = fields.map_values(|x: InstructionField| view_field(x));
    if fields.len() > 0 {
        lemma_fields_last_view(fields.drop_last());
        assert(fv.drop_last() =~= fields.drop_last().map_values(
            |x: InstructionField| view_field(x),
        ));
        assert(fv.last() == view_field(fields.last()));
    } else {
        assert(fv.len() == 0);
    }
}

/// Loads the instruction-formats section body; see [`spec_load_formats`].
fn load_formats_table(
    formats: &mut Vec<InstructionFormat>,
    consts: &Vec<(String, u64)>,
    entries: &Vec<(String, DocValue)>,
) -> (r: Result<(), LoadError>)
    requires
        unique_keys(consts@),
        forall|i: int|
            0 <= i < old(formats)@.len() ==> (#[trigger] old(formats)@[i]).wf(),
    ensures
        forall|i: int| 0 <= i < final(formats)@.len() ==> (#[trigger] final(formats)@[i]).wf(),
        old(formats)@.len() <= final(formats)@.len(),
        forall|i: int| 0 <= i < old(formats)@.len() ==> final(formats)@[i] == old(formats)@[i],
        r matches Ok(_) ==> spec_load_formats(
            old(formats)@.map_values(|f: InstructionFormat| view_format(f)),
            view_pairs(consts@),
            view_doc_tab(entries@),
        ) == Ok::<_, LoadErrV>(
            final(formats)@.map_values(|f: InstructionFormat| view_format(f)),
        ),
        r matches Err(e) ==> spec_load_formats(
            old(formats)@.map_values(|f: InstructionFormat| view_format(f)),
            view_pairs(consts@),
            view_doc_tab(entries@),
        ) == Err::<Seq<FormatV>, _>(view_err(e)),
{
    let ghost ev = view_doc_tab(entries@);
    proof {
        crate::doc::lemma_view_doc_tab_index(entries@);
        assert(ev.skip(0) =~= ev);
        reveal_strlit("instruction_formats.");
    }
    let n = entries.len();
    let mut i: usize = 0;
    #[verifier::loop_isolation(false)]
    while i < n
        invariant
            n == entries@.len(),
            0 <= i <= n,
            ev == view_doc_tab(entries@),
            forall|j: int| 0 <= j < formats@.len() ==> (#[trigger] formats@[j]).wf(),
            old(formats)@.len() <= formats@.len(),
            forall|j: int| 0 <= j < old(formats)@.len() ==> formats@[j] == old(formats)@[j],
            spec_load_formats(
                old(formats)@.map_values(|f: InstructionFormat| view_format(f)),
                view_pairs(consts@),
                ev,
            ) == spec_load_formats(
                formats@.map_values(|f: InstructionFormat| view_format(f)),
                view_pairs(consts@),
                ev.skip(i as int),
            ),
        decreases n - i,
    {
        proof {
            assert(ev.skip(i as int).first() == ev[i as int]);
            assert(ev.skip(i as int).drop_first() =~= ev.skip(i + 1 as int));
        }
        let fmtname = &entries[i].0;
        let ft = match &entries[i].1 {
            DocValue::Tab(t) => t,
            _ => {
                return Err(
                    LoadError::BadType(cat2("instruction_formats.", fmtname.as_str())),
                );
            },
        };
        let fields = match load_fields_table(
            consts,
            cat2("instruction_formats.", fmtname.as_str()).as_str(),
            ft,
        ) {
            Ok(v) => v,
            Err(e) => {
                return Err(e);
            },
        };
        let tmp = InstructionFormat { name: fmtname.clone(), fields, ilen: 0 };
        let last = tmp.last_encoded_bit();
        proof {
            crate::model::lemma_fields_last_bound(tmp.fields@);
            lemma_fields_last_view(tmp.fields@);
        }
        let fmtobj = InstructionFormat {
            name: tmp.name,
            fields: tmp.fields,
            ilen: (last + 1) as usize,
        };
        let ghost prev = formats@.map_values(|f: InstructionFormat| view_format(f));
        formats.push(fmtobj);
        proof {
            assert(formats@.map_values(|f: InstructionFormat| view_format(f)) =~= prev.push(
                view_format(formats@[formats@.len() - 1]),
            ));
        }
        i = i + 1;
    }
    proof {
        assert(ev.skip(n as int) =~= Seq::<(Seq<char>, DocV)>::empty());
    }
    Ok(())
}


/// When nothing in the first `i` formats carries the name, the find result
/// is decided by position `i`.
proof fn lemma_fmt_find_at(formats: Seq<FormatV>, name: Seq<char>, i: int)
    requires
        0 <= i <= formats.len(),
        forall|j: int| 0 <= j < i ==> (#[trigger] formats[j]).name != name,
    ensures
        i < formats.len() && formats[i].name == name ==> fmt_find(formats, name) == i,
        i == formats.len() ==> fmt_find(formats, name) == -1,
    decreases i,
{
    lemma_fmt_find_at_from(formats, name, 0, i);
    assert(formats.skip(0) =~= formats);
}

proof fn lemma_fmt_find_at_from(formats: Seq<FormatV>, name: Seq<char>, k: int, i: int)
    requires
        0 <= k <= i <= formats.len(),
        forall|j: int| k <= j < i ==> (#[trigger] formats[j]).name != name,
    ensures
        i < formats.len() && formats[i].name == name ==> fmt_find(formats.skip(k), name) == i - k,
        i == formats.len() ==> fmt_find(formats.skip(k), name) == -1,
    decreases i - k,
{
    if k < i {
        lemma_fmt_find_at_from(formats, name, k + 1, i);
        assert(formats.skip(k).first() == formats[k]);
        assert(formats.skip(k).drop_first() =~= formats.skip(k + 1));
    } else {
        if i < formats.len() && formats[i].name == name {
            assert(formats.skip(k).first() == formats[k]);
        } else if i == formats.len() {
            if formats.skip(k).len() > 0 {
                assert(formats.skip(k).first() == formats[k]);
                assert(false);
            }
        }
    }
}

/// Finds the position of the format with the given name.
fn find_format_position(formats: &Vec<InstructionFormat>, name: &str) -> (r: Option<usize>)
    ensures
        r matches Some(p) ==> p < formats@.len() && fmt_find(
            formats@.map_values(|f: InstructionFormat| view_format(f)),
            name@,
        ) == p,
        r is None ==> fmt_find(
            formats@.map_values(|f: InstructionFormat| view_format(f)),
            name@,
        ) == -1,
{
    let ghost fv = formats@.map_values(|f: InstructionFormat| view_format(f));
    let n = formats.len();
    let mut i: usize = 0;
    #[verifier::loop_isolation(false)]
    while i < n
        invariant
            n == formats@.len(),
            0 <= i <= n,
            fv == formats@.map_values(|f: InstructionFormat| view_format(f)),
            forall|j: int| 0 <= j < i ==> (#[trigger] fv[j]).name != name@,
        decreases n - i,
    {
        if crate::text::str_eq(formats[i].name.as_str(), name) {
            proof {
                lemma_fmt_find_at(fv, name@, i as int);
            }
            return Some(i);
        }
        i = i + 1;
    }
    proof {
        lemma_fmt_find_at(fv, name@, n as int);
    }
    None
}

/// When nothing in the first `i` fields carries the name, the find result
/// is decided by position `i`.
proof fn lemma_fieldv_find_at(fields: Seq<FieldV>, name: Seq<char>, i: int)
    requires
        0 <= i <= fields.len(),
        forall|j: int| 0 <= j < i ==> (#[trigger] fields[j]).name != name,
    ensures
        i < fields.len() && fields[i].name == name ==> fieldv_find(fields, name) == i,
        i == fields.len() ==> fieldv_find(fields, name) == -1,
    decreases i,
{
    lemma_fieldv_find_at_from(fields, name, 0, i);
    assert(fields.skip(0) =~= fields);
}

proof fn lemma_fieldv_find_at_from(fields: Seq<FieldV>, name: Seq<char>, k: int, i: int)
    requires
        0 <= k <= i <= fields.len(),
        forall|j: int| k <= j < i ==> (#[trigger] fields[j]).name != name,
    ensures
        i < fields.len() && fields[i].name == name ==> fieldv_find(fields.skip(k), name) == i - k,
        i == fields.len() ==> fieldv_find(fields.skip(k), name) == -1,
    decreases i - k,
{
    if k < i {
        lemma_fieldv_find_at_from(fields, name, k + 1, i);
        assert(fields.skip(k).first() == fields[k]);
        assert(fields.skip(k).drop_first() =~= fields.skip(k + 1));
    } else {
        if i < fields.len() && fields[i].name == name {
            assert(fields.skip(k).first() == fields[k]);
        } else if i == fields.len() {
            if fields.skip(k).len() > 0 {
                assert(fields.skip(k).first() == fields[k]);
                assert(false);
            }
        }
    }
}

/// Finds the position of the field with the given name.
fn find_field_position(fields: &Vec<InstructionField>, name: &str) -> (r: Option<usize>)
    ensures
        r matches Some(p) ==> p < fields@.len() && fieldv_find(
            fields@.map_values(|f: InstructionField| view_field(f)),
            name@,
        ) == p,
        r is None ==> fieldv_find(
            fields@.map_values(|f: InstructionField| view_field(f)),
            name@,
        ) == -1,
{
    let ghost fv = fields@.map_values(|f: InstructionField| view_field(f));
    let n = fields.len();
    let mut i: usize = 0;
    #[verifier::loop_isolation(false)]
    while i < n
        invariant
            n == fields@.len(),
            0 <= i <= n,
            fv == fields@.map_values(|f: InstructionField| view_field(f)),
            forall|j: int| 0 <= j < i ==> (#[trigger] fv[j]).name != name@,
        decreases n - i,
    {
        if crate::text::str_eq(fields[i].name.as_str(), name) {
            proof {
                lemma_fieldv_find_at(fv, name@, i as int);
            }
            return Some(i);
        }
        i = i + 1;
    }
    proof {
        lemma_fieldv_find_at(fv, name@, n as int);
    }
    None
}

/// Resolves the operand names of an instruction; see [`spec_args_idxs`].
fn load_args_idxs(
    fields: &Vec<InstructionField>,
    iname: &str,
    items: &Vec<DocValue>,
) -> (r: Result<Vec<usize>, LoadError>)
    ensures
        r matches Ok(out) ==> spec_args_idxs(
            Seq::empty(),
            fields@.map_values(|f: InstructionField| view_field(f)),
            iname@,
            crate::doc::view_doc_list(items@),
        ) == Ok::<_, LoadErrV>(out@) && (forall|j: int|
            0 <= j < out@.len() ==> (#[trigger] out@[j]) < fields@.len()),
        r matches Err(e) ==> spec_args_idxs(
            Seq::empty(),
            fields@.map_values(|f: InstructionField| view_field(f)),
            iname@,
            crate::doc::view_doc_list(items@),
        ) == Err::<Seq<usize>, _>(view_err(e)),
{
    let ghost iv = crate::doc::view_doc_list(items@);
    let ghost fv = fields@.map_values(|f: InstructionField| view_field(f));
    proof {
        crate::doc::lemma_view_doc_list_index(items@);
        assert(iv.skip(0) =~= iv);
        reveal_strlit("instructions.");
        reveal_strlit(".args[");
        reveal_strlit("]");
        reveal_strlit(".args[] item");
    }
    let n = items.len();
    let mut out: Vec<usize> = Vec::new();
    let mut i: usize = 0;
    #[verifier::loop_isolation(false)]
    while i < n
        invariant
            n == items@.len(),
            0 <= i <= n,
            iv == crate::doc::view_doc_list(items@),
            fv == fields@.map_values(|f: InstructionField| view_field(f)),
            forall|j: int| 0 <= j < out@.len() ==> (#[trigger] out@[j]) < fields@.len(),
            spec_args_idxs(Seq::empty(), fv, iname@, iv) == spec_args_idxs(
                out@,
                fv,
                iname@,
                iv.skip(i as int),
            ),
        decreases n - i,
    {
        proof {
            assert(iv.skip(i as int).first() == iv[i as int]);
            assert(iv.skip(i as int).drop_first() =~= iv.skip(i + 1 as int));
        }
        match &items[i] {
            DocValue::Str(a) => {
                match find_field_position(fields, a.as_str()) {
                    Some(p) => {
                        out.push(p);
                    },
                    None => {
                        return Err(
                            LoadError::BadInstructionFormat(
                                cat5("instructions.", iname, ".args[", a.as_str(), "]"),
                            ),
                        );
                    },
                }
            },
            _ => {
                return Err(
                    LoadError::BadType(cat3("instructions.", iname, ".args[] item")),
                );
            },
        }
        i = i + 1;
    }
    proof {
        assert(iv.skip(n as int) =~= Seq::<DocV>::empty());
    }
    Ok(out)
}

/// Resolves the fixed field values of an instruction; see
/// [`spec_insn_fields`].
fn load_insn_fields(
    fields: &Vec<InstructionField>,
    consts: &Vec<(String, u64)>,
    iname: &str,
    entries: &Vec<(String, DocValue)>,
) -> (r: Result<Vec<(usize, u64)>, LoadError>)
    requires
        unique_keys(consts@),
    ensures
        r matches Ok(out) ==> spec_insn_fields(
            Seq::empty(),
            fields@.map_values(|f: InstructionField| view_field(f)),
            view_pairs(consts@),
            iname@,
            view_doc_tab(entries@),
        ) == Ok::<_, LoadErrV>(out@) && (forall|j: int|
            0 <= j < out@.len() ==> (#[trigger] out@[j]).0 < fields@.len()),
        r matches Err(e) ==> spec_insn_fields(
            Seq::empty(),
            fields@.map_values(|f: InstructionField| view_field(f)),
            view_pairs(consts@),
            iname@,
            view_doc_tab(entries@),
        ) == Err::<Seq<(usize, u64)>, _>(view_err(e)),
{
    let ghost ev = view_doc_tab(entries@);
    let ghost fv = fields@.map_values(|f: InstructionField| view_field(f));
    proof {
        crate::doc::lemma_view_doc_tab_index(entries@);
        assert(ev.skip(0) =~= ev);
        reveal_strlit("instructions.");
        reveal_strlit(".fields[");
        reveal_strlit("]");
    }
    let n = entries.len();
    let mut out: Vec<(usize, u64)> = Vec::new();
    let mut i: usize = 0;
    #[verifier::loop_isolation(false)]
    while i < n
        invariant
            n == entries@.len(),
            0 <= i <= n,
            ev == view_doc_tab(entries@),
            fv == fields@.map_values(|f: InstructionField| view_field(f)),
            forall|j: int| 0 <= j < out@.len() ==> (#[trigger] out@[j]).0 < fields@.len(),
            spec_insn_fields(Seq::empty(), fv, view_pairs(consts@), iname@, ev)
                == spec_insn_fields(
                out@,
                fv,
                view_pairs(consts@),
                iname@,
                ev.skip(i as int),
            ),
        decreases n - i,
    {
        proof {
            assert(ev.skip(i as int).first() == ev[i as int]);
            assert(ev.skip(i as int).drop_first() =~= ev.skip(i + 1 as int));
        }
        let fname = &entries[i].0;
        let path = cat5("instructions.", iname, ".fields[", fname.as_str(), "]");
        let ghost pathv = path@;
        let fval = match toml_int(consts, path, &entries[i].1) {
            Ok(x) => x,
            Err(e) => {
                return Err(e);
            },
        };
        match find_field_position(fields, fname.as_str()) {
            Some(p) => {
                proof {
                    lemma_i64_as_u64(fval);
                }
                out.push((p, #[verifier::truncate] (fval as u64)));
            },
            None => {
                return Err(
                    LoadError::BadInstructionFormat(
                        cat5("instructions.", iname, ".fields[", fname.as_str(), "]"),
                    ),
                );
            },
        }
        i = i + 1;
    }
    proof {
        assert(ev.skip(n as int) =~= Seq::<(Seq<char>, DocV)>::empty());
    }
    Ok(out)
}

/// Loads the instructions section body; see [`spec_load_insns`].
fn load_insns_table(
    instructions: &mut Vec<InstructionDefinition>,
    lookup: &mut Vec<(String, usize)>,
    formats: &Vec<InstructionFormat>,
    consts: &Vec<(String, u64)>,
    entries: &Vec<(String, DocValue)>,
) -> (r: Result<(), LoadError>)
    requires
        unique_keys(consts@),
        unique_keys(old(lookup)@),
        forall|i: int|
            0 <= i < old(lookup)@.len() ==> (#[trigger] old(lookup)@[i]).1 < old(instructions)@.len() && old(instructions)@[old(lookup)@[i].1 as int].name@ == old(lookup)@[i].0@,
        forall|i: int|
            0 <= i < old(instructions)@.len() ==> crate::model::assoc_contains(
                old(lookup)@,
                (#[trigger] old(instructions)@[i]).name@,
            ),
        forall|i: int|
            0 <= i < old(instructions)@.len() ==> crate::model::insn_wf(
                #[trigger] old(instructions)@[i],
                formats@,
            ),
    ensures
        unique_keys(final(lookup)@),
        forall|i: int|
            0 <= i < final(lookup)@.len() ==> (#[trigger] final(lookup)@[i]).1 < final(instructions)@.len() && final(instructions)@[final(lookup)@[i].1 as int].name@ == final(lookup)@[i].0@,
        forall|i: int|
            0 <= i < final(instructions)@.len() ==> crate::model::assoc_contains(
                final(lookup)@,
                (#[trigger] final(instructions)@[i]).name@,
            ),
        forall|i: int|
            0 <= i < final(instructions)@.len() ==> crate::model::insn_wf(
                #[trigger] final(instructions)@[i],
                formats@,
            ),
        r matches Ok(_) ==> spec_load_insns(
            old(instructions)@.map_values(|d: InstructionDefinition| view_insn(d)),
            view_pairs(old(lookup)@),
            formats@.map_values(|f: InstructionFormat| view_format(f)),
            view_pairs(consts@),
            view_doc_tab(entries@),
        ) == Ok::<_, LoadErrV>(
            (
                final(instructions)@.map_values(|d: InstructionDefinition| view_insn(d)),
                view_pairs(final(lookup)@),
            ),
        ),
        r matches Err(e) ==> spec_load_insns(
            old(instructions)@.map_values(|d: InstructionDefinition| view_insn(d)),
            view_pairs(old(lookup)@),
            formats@.map_values(|f: InstructionFormat| view_format(f)),
            view_pairs(consts@),
            view_doc_tab(entries@),
        ) matches Err(ev) && ev == view_err(e),
{
    let ghost ev0 = view_doc_tab(entries@);
    let ghost fmv = formats@.map_values(|f: InstructionFormat| view_format(f));
    proof {
        crate::doc::lemma_view_doc_tab_index(entries@);
        assert(ev0.skip(0) =~= ev0);
        reveal_strlit("instructions.");
        reveal_strlit(".format");
        reveal_strlit(".args");
        reveal_strlit(".fields");
    }
    let n = entries.len();
    let mut i: usize = 0;
    #[verifier::loop_isolation(false)]
    while i < n
        invariant
            n == entries@.len(),
            0 <= i <= n,
            ev0 == view_doc_tab(entries@),
            fmv == formats@.map_values(|f: InstructionFormat| view_format(f)),
            unique_keys(lookup@),
            forall|j: int|
                0 <= j < lookup@.len() ==> (#[trigger] lookup@[j]).1 < instructions@.len()
                    && instructions@[lookup@[j].1 as int].name@ == lookup@[j].0@,
            forall|j: int|
                0 <= j < instructions@.len() ==> crate::model::assoc_contains(
                    lookup@,
                    (#[trigger] instructions@[j]).name@,
                ),
            forall|j: int|
                0 <= j < instructions@.len() ==> crate::model::insn_wf(
                    #[trigger] instructions@[j],
                    formats@,
                ),
            spec_load_insns(
                old(instructions)@.map_values(|d: InstructionDefinition| view_insn(d)),
                view_pairs(old(lookup)@),
                fmv,
                view_pairs(consts@),
                ev0,
            ) == spec_load_insns(
                instructions@.map_values(|d: InstructionDefinition| view_insn(d)),
                view_pairs(lookup@),
                fmv,
                view_pairs(consts@),
                ev0.skip(i as int),
            ),
        decreases n - i,
    {
        proof {
            assert(ev0.skip(i as int).first() == ev0[i as int]);
            assert(ev0.skip(i as int).drop_first() =~= ev0.skip(i + 1 as int));
        }
        let liname = ascii_lowercase(entries[i].0.as_str());
        let it = match &entries[i].1 {
            DocValue::Tab(t) => t,
            _ => {
                return Err(LoadError::BadType(cat2("instructions.", liname.as_str())));
            },
        };
        let fstr = match crate::doc::doc_tab_get(it, "format") {
            None => {
                return Err(
                    LoadError::MissingNode(cat3("instructions.", liname.as_str(), ".format")),
                );
            },
            Some(DocValue::Str(f)) => f,
            Some(_) => {
                return Err(
                    LoadError::BadType(cat3("instructions.", liname.as_str(), ".format")),
                );
            },
        };
        let argsarr = match crate::doc::doc_tab_get(it, "args") {
            None => {
                return Err(
                    LoadError::MissingNode(cat3("instructions.", liname.as_str(), ".args")),
                );
            },
            Some(DocValue::Arr(a)) => a,
            Some(_) => {
                return Err(
                    LoadError::BadType(cat3("instructions.", liname.as_str(), ".args")),
                );
            },
        };
        let fieldstab = match crate::doc::doc_tab_get(it, "fields") {
            None => {
                return Err(
                    LoadError::MissingNode(cat3("instructions.", liname.as_str(), ".fields")),
                );
            },
            Some(DocValue::Tab(t)) => t,
            Some(_) => {
                return Err(
                    LoadError::BadType(cat3("instructions.", liname.as_str(), ".fields")),
                );
            },
        };
        let fidx = match find_format_position(formats, fstr.as_str()) {
            Some(p) => p,
            None => {
                return Err(
                    LoadError::BadInstructionFormat(
                        cat3("instructions.", liname.as_str(), ".format"),
                    ),
                );
            },
        };
        proof {
            assert(fmv[fidx as int] == view_format(formats@[fidx as int]));
        }
        let argidx = match load_args_idxs(&formats[fidx].fields, liname.as_str(), argsarr) {
            Ok(v) => v,
            Err(e) => {
                return Err(e);
            },
        };
        let fpairs = match load_insn_fields(
            &formats[fidx].fields,
            consts,
            liname.as_str(),
            fieldstab,
        ) {
            Ok(v) => v,
            Err(e) => {
                return Err(e);
            },
        };
        proof {
            lemma_view_pairs_assoc(lookup@, liname@);
        }
        if crate::model::assoc_lookup(lookup, liname.as_str()).is_some() {
            return Err(LoadError::DuplicateInstruction(liname));
        }
        let newidx = instructions.len();
        let ghost prev_i = instructions@.map_values(|d: InstructionDefinition| view_insn(d));
        let ghost prev_l = view_pairs(lookup@);
        let ghost lk0 = lookup@;
        let insn = InstructionDefinition {
            name: liname.clone(),
            format_idx: fidx,
            args: argidx,
            fields: fpairs,
        };
        instructions.push(insn);
        lookup.push((liname, newidx));
        proof {
            assert(instructions@.map_values(|d: InstructionDefinition| view_insn(d))
                =~= prev_i.push(view_insn(instructions@[instructions@.len() - 1])));
            assert(view_pairs(lookup@) =~= prev_l.push((lookup@[lookup@.len() - 1].0@, newidx)));
            assert forall|j: int| 0 <= j < instructions@.len() implies crate::model::assoc_contains(
                lookup@,
                (#[trigger] instructions@[j]).name@,
            ) by {
                if j < instructions@.len() - 1 {
                    assert(crate::model::assoc_contains(lk0, instructions@[j].name@));
                    let w = choose|w: int|
                        0 <= w < lk0.len() && (#[trigger] lk0[w]).0@ == instructions@[j].name@;
                    assert(lookup@[w] == lk0[w]);
                    assert(crate::model::assoc_contains(lookup@, instructions@[j].name@));
                } else {
                    assert(lookup@[lookup@.len() - 1].0@ == instructions@[j].name@);
                }
            }
        }
        i = i + 1;
    }
    proof {
        assert(ev0.skip(n as int) =~= Seq::<(Seq<char>, DocV)>::empty());
    }
    Ok(())
}


/// Every entry of the lookup names a register that carries that name.
pub open spec fn lookup_entries_valid(lookup: Seq<(String, i32)>, registers: Seq<Register>) -> bool {
    forall|i: int|
        0 <= i < lookup.len() ==> crate::model::regs_contain(registers, (#[trigger] lookup[i]).1)
            && exists|k: int|
            0 <= k < crate::model::regs_get(registers, lookup[i].1).names@.len()
                && crate::model::regs_get(registers, lookup[i].1).names@[k]@ == lookup[i].0@
}

/// Rebuilds the register-name lookup from scratch; see [`rebuild_regs`].
/// After the rebuild every name of every register is in the lookup, and
/// every lookup entry names a register that carries it.
fn rebuild_register_lookup(lookup: &mut Vec<(String, i32)>, registers: &Vec<Register>)
    requires
        crate::model::unique_reg_indices(registers@),
    ensures
        unique_keys(final(lookup)@),
        view_pairs(final(lookup)@) == rebuild_regs(
            Seq::empty(),
            registers@.map_values(|x: Register| view_reg(x)),
        ),
        lookup_entries_valid(final(lookup)@, registers@),
        forall|j: int, k: int|
            #![trigger registers@[j].names@[k]]
            0 <= j < registers@.len() && 0 <= k < registers@[j].names@.len()
                ==> crate::model::assoc_contains(
                final(lookup)@,
                registers@[j].names@[k]@,
            ),
{
    let ghost rv = registers@.map_values(|x: Register| view_reg(x));
    lookup.clear();
    proof {
        assert(view_pairs(lookup@) =~= Seq::<(Seq<char>, i32)>::empty());
        assert(rv.skip(0) =~= rv);
    }
    let nr = registers.len();
    let mut r: usize = 0;
    #[verifier::loop_isolation(false)]
    while r < nr
        invariant
            nr == registers@.len(),
            0 <= r <= nr,
            rv == registers@.map_values(|x: Register| view_reg(x)),
            unique_keys(lookup@),
            rebuild_regs(Seq::empty(), rv) == rebuild_regs(view_pairs(lookup@), rv.skip(r as int)),
            lookup_entries_valid(lookup@, registers@),
            forall|j: int, k: int|
                #![trigger registers@[j].names@[k]]
                0 <= j < r && 0 <= k < registers@[j].names@.len()
                    ==> crate::model::assoc_contains(lookup@, registers@[j].names@[k]@),
        decreases nr - r,
    {
        proof {
            assert(rv.skip(r as int).first() == rv[r as int]);
            assert(rv.skip(r as int).drop_first() =~= rv.skip(r + 1 as int));
        }
        let idx = registers[r].index;
        let nn = registers[r].names.len();
        let ghost lk_start = view_pairs(lookup@);
        let ghost namesv = rv[r as int].names;
        proof {
            assert(namesv.skip(0) =~= namesv);
            assert(rv[r as int] == view_reg(registers@[r as int]));
        }
        let mut k: usize = 0;
        #[verifier::loop_isolation(false)]
        while k < nn
            invariant
                0 <= k <= nn,
                r < nr,
                nr == registers@.len(),
                rv == registers@.map_values(|x: Register| view_reg(x)),
                nn == registers@[r as int].names@.len(),
                idx == registers@[r as int].index,
                namesv == rv[r as int].names,
                unique_keys(lookup@),
                rebuild_names(lk_start, namesv, idx) == rebuild_names(
                    view_pairs(lookup@),
                    namesv.skip(k as int),
                    idx,
                ),
                lookup_entries_valid(lookup@, registers@),
                forall|j: int, k2: int|
                    #![trigger registers@[j].names@[k2]]
                    0 <= j < r && 0 <= k2 < registers@[j].names@.len()
                        ==> crate::model::assoc_contains(lookup@, registers@[j].names@[k2]@),
                forall|k2: int|
                    0 <= k2 < k ==> crate::model::assoc_contains(
                        lookup@,
                        registers@[r as int].names@[k2]@,
                    ),
            decreases nn - k,
        {
            proof {
                assert(namesv.skip(k as int).first() == namesv[k as int]);
                assert(namesv.skip(k as int).drop_first() =~= namesv.skip(k + 1 as int));
                assert(namesv[k as int] == registers@[r as int].names@[k as int]@);
            }
            let ghost lk0 = lookup@;
            let name = registers[r].names[k].clone();
            assoc_insert_val(lookup, &name, idx);
            proof {
                // every old entry keeps its key; the inserted pair is valid
                crate::model::lemma_regs_get_unique(registers@, r as int);
                assert forall|i: int|
                    0 <= i < lookup@.len() implies crate::model::regs_contain(
                    registers@,
                    (#[trigger] lookup@[i]).1,
                ) && exists|k2: int|
                    0 <= k2 < crate::model::regs_get(registers@, lookup@[i].1).names@.len()
                        && crate::model::regs_get(registers@, lookup@[i].1).names@[k2]@
                        == lookup@[i].0@ by {
                    assert(lookup_entries_valid(lk0, registers@));
                    if i < lk0.len() && lk0[i].0@ != name@ {
                        assert(lookup@[i].0@ == lk0[i].0@);
                        assert(lookup@[i].1 == lk0[i].1);
                        assert(crate::model::regs_contain(registers@, lk0[i].1));
                        let k2w = choose|k2: int|
                            0 <= k2 < crate::model::regs_get(registers@, lk0[i].1).names@.len()
                                && crate::model::regs_get(registers@, lk0[i].1).names@[k2]@
                                == lk0[i].0@;
                        assert(crate::model::regs_get(registers@, lookup@[i].1).names@[k2w]@
                            == lookup@[i].0@);
                    } else {
                        assert(lookup@[i].0@ == name@ && lookup@[i].1 == idx);
                        assert(crate::model::regs_get(registers@, idx) == registers@[r as int]);
                        assert(0 <= k < crate::model::regs_get(registers@, idx).names@.len());
                        assert(crate::model::regs_get(registers@, idx).names@[k as int]@ == name@);
                        assert(crate::model::regs_get(registers@, lookup@[i].1).names@[k as int]@
                            == lookup@[i].0@);
                    }
                }
                assert forall|j: int, k2: int|
                    0 <= j < r && 0 <= k2 < registers@[j].names@.len()
                        implies crate::model::assoc_contains(
                    lookup@,
                    #[trigger] registers@[j].names@[k2]@,
                ) by {
                    assert(crate::model::assoc_contains(lk0, registers@[j].names@[k2]@));
                    let w = choose|w: int|
                        0 <= w < lk0.len() && (#[trigger] lk0[w]).0@ == registers@[j].names@[k2]@;
                    assert(lookup@[w].0@ == lk0[w].0@);
                }
                assert forall|k2: int|
                    0 <= k2 < k + 1 implies crate::model::assoc_contains(
                    lookup@,
                    (#[trigger] registers@[r as int].names@[k2])@,
                ) by {
                    if k2 < k {
                        assert(crate::model::assoc_contains(lk0, registers@[r as int].names@[k2]@));
                        let w = choose|w: int|
                            0 <= w < lk0.len() && (#[trigger] lk0[w]).0@ == registers@[r as int].names@[k2]@;
                        assert(lookup@[w].0@ == lk0[w].0@);
                    } else {
                        lemma_assocv_insert_has(view_pairs(lk0), name@, idx);
                        lemma_view_pairs_assoc(lookup@, name@);
                        assert(crate::model::assoc_contains(lookup@, name@));
                    }
                }
            }
            k = k + 1;
        }
        proof {
            assert(namesv.skip(nn as int) =~= Seq::<Seq<char>>::empty());
            assert(rebuild_names(lk_start, namesv, idx) == view_pairs(lookup@));
            assert(rv[r as int] == view_reg(registers@[r as int]));
            assert(rv[r as int].index == idx);
            assert(rebuild_regs(lk_start, rv.skip(r as int)) == rebuild_regs(
                view_pairs(lookup@),
                rv.skip(r + 1 as int),
            ));
            assert forall|j: int, k2: int|
                0 <= j < r + 1 && 0 <= k2 < registers@[j].names@.len()
                    implies crate::model::assoc_contains(
                lookup@,
                #[trigger] registers@[j].names@[k2]@,
            ) by {
                if j == r {
                    assert(crate::model::assoc_contains(
                        lookup@,
                        registers@[r as int].names@[k2]@,
                    ));
                }
            }
        }
        r = r + 1;
    }
    proof {
        assert(rv.skip(nr as int) =~= Seq::<RegV>::empty());
    }
}

/// The optional consts section, as one call.
fn load_consts_section(consts: &mut Vec<(String, u64)>, doc: &DocValue) -> (r: Result<
    (),
    LoadError,
>)
    requires
        unique_keys(old(consts)@),
    ensures
        unique_keys(final(consts)@),
        r matches Ok(_) ==> spec_sec_consts(view_pairs(old(consts)@), view_doc(*doc)) == Ok::<
            _,
            LoadErrV,
        >(view_pairs(final(consts)@)),
        r matches Err(e) ==> spec_sec_consts(view_pairs(old(consts)@), view_doc(*doc)) == Err::<
            Seq<(Seq<char>, u64)>,
            _,
        >(view_err(e)),
{
    proof {
        reveal_strlit("consts");
    }
    match doc_get_exec(doc, "consts") {
        None => Ok(()),
        Some(DocValue::Tab(t)) => load_consts_table(consts, t),
        Some(_) => Err(LoadError::BadType("consts".to_owned())),
    }
}

/// The optional registers section, as one call.
fn load_registers_section(
    registers: &mut Vec<Register>,
    consts: &Vec<(String, u64)>,
    doc: &DocValue,
) -> (r: Result<(), LoadError>)
    requires
        crate::model::unique_reg_indices(old(registers)@),
        unique_keys(consts@),
    ensures
        crate::model::unique_reg_indices(final(registers)@),
        r matches Ok(_) ==> spec_sec_registers(
            old(registers)@.map_values(|x: Register| view_reg(x)),
            view_pairs(consts@),
            view_doc(*doc),
        ) == Ok::<_, LoadErrV>(final(registers)@.map_values(|x: Register| view_reg(x))),
        r matches Err(e) ==> spec_sec_registers(
            old(registers)@.map_values(|x: Register| view_reg(x)),
            view_pairs(consts@),
            view_doc(*doc),
        ) == Err::<Seq<RegV>, _>(view_err(e)),
{
    proof {
        reveal_strlit("registers");
        reveal_strlit("names");
        reveal_strlit("lengths");
        reveal_strlit("registers.names");
        reveal_strlit("registers.lengths");
    }
    match doc_get_exec(doc, "registers") {
        None => Ok(()),
        Some(DocValue::Tab(rt)) => {
            match crate::doc::doc_tab_get(rt, "names") {
                None => {},
                Some(DocValue::Tab(nt)) => {
                    if let Err(e) = load_reg_names_table(registers, nt) {
                        return Err(e);
                    }
                },
                Some(_) => {
                    return Err(LoadError::BadType("registers.names".to_owned()));
                },
            }
            match crate::doc::doc_tab_get(rt, "lengths") {
                None => Ok(()),
                Some(DocValue::Tab(lt)) => load_reg_lengths_table(registers, consts, lt),
                Some(_) => Err(LoadError::BadType("registers.lengths".to_owned())),
            }
        },
        Some(_) => Err(LoadError::BadType("registers".to_owned())),
    }
}

/// The optional instruction-formats section, as one call. Only appends.
fn load_formats_section(
    formats: &mut Vec<InstructionFormat>,
    consts: &Vec<(String, u64)>,
    doc: &DocValue,
) -> (r: Result<(), LoadError>)
    requires
        unique_keys(consts@),
        forall|i: int| 0 <= i < old(formats)@.len() ==> (#[trigger] old(formats)@[i]).wf(),
    ensures
        forall|i: int| 0 <= i < final(formats)@.len() ==> (#[trigger] final(formats)@[i]).wf(),
        old(formats)@.len() <= final(formats)@.len(),
        forall|i: int|
            0 <= i < old(formats)@.len() ==> (#[trigger] final(formats)@[i]).fields@.len() == old(formats)@[i].fields@.len(),
        r matches Ok(_) ==> spec_sec_formats(
            old(formats)@.map_values(|f: InstructionFormat| view_format(f)),
            view_pairs(consts@),
            view_doc(*doc),
        ) == Ok::<_, LoadErrV>(
            final(formats)@.map_values(|f: InstructionFormat| view_format(f)),
        ),
        r matches Err(e) ==> spec_sec_formats(
            old(formats)@.map_values(|f: InstructionFormat| view_format(f)),
            view_pairs(consts@),
            view_doc(*doc),
        ) == Err::<Seq<FormatV>, _>(view_err(e)),
{
    proof {
        reveal_strlit("instruction_formats");
    }
    match doc_get_exec(doc, "instruction_formats") {
        None => Ok(()),
        Some(DocValue::Tab(t)) => load_formats_table(formats, consts, t),
        Some(_) => Err(LoadError::BadType("instruction_formats".to_owned())),
    }
}

/// The optional instructions section, as one call.
fn load_insns_section(
    instructions: &mut Vec<InstructionDefinition>,
    lookup: &mut Vec<(String, usize)>,
    formats: &Vec<InstructionFormat>,
    consts: &Vec<(String, u64)>,
    doc: &DocValue,
) -> (r: Result<(), LoadError>)
    requires
        unique_keys(consts@),
        unique_keys(old(lookup)@),
        forall|i: int|
            0 <= i < old(lookup)@.len() ==> (#[trigger] old(lookup)@[i]).1 < old(instructions)@.len() && old(instructions)@[old(lookup)@[i].1 as int].name@ == old(lookup)@[i].0@,
        forall|i: int|
            0 <= i < old(instructions)@.len() ==> crate::model::assoc_contains(
                old(lookup)@,
                (#[trigger] old(instructions)@[i]).name@,
            ),
        forall|i: int|
            0 <= i < old(instructions)@.len() ==> crate::model::insn_wf(
                #[trigger] old(instructions)@[i],
                formats@,
            ),
    ensures
        unique_keys(final(lookup)@),
        forall|i: int|
            0 <= i < final(lookup)@.len() ==> (#[trigger] final(lookup)@[i]).1 < final(instructions)@.len() && final(instructions)@[final(lookup)@[i].1 as int].name@ == final(lookup)@[i].0@,
        forall|i: int|
            0 <= i < final(instructions)@.len() ==> crate::model::assoc_contains(
                final(lookup)@,
                (#[trigger] final(instructions)@[i]).name@,
            ),
        forall|i: int|
            0 <= i < final(instructions)@.len() ==> crate::model::insn_wf(
                #[trigger] final(instructions)@[i],
                formats@,
            ),
        r matches Ok(_) ==> spec_sec_insns(
            old(instructions)@.map_values(|d: InstructionDefinition| view_insn(d)),
            view_pairs(old(lookup)@),
            formats@.map_values(|f: InstructionFormat| view_format(f)),
            view_pairs(consts@),
            view_doc(*doc),
        ) == Ok::<_, LoadErrV>(
            (
                final(instructions)@.map_values(|d: InstructionDefinition| view_insn(d)),
                view_pairs(final(lookup)@),
            ),
        ),
        r matches Err(e) ==> spec_sec_insns(
            old(instructions)@.map_values(|d: InstructionDefinition| view_insn(d)),
            view_pairs(old(lookup)@),
            formats@.map_values(|f: InstructionFormat| view_format(f)),
            view_pairs(consts@),
            view_doc(*doc),
        ) matches Err(ev) && ev == view_err(e),
{
    proof {
        reveal_strlit("instructions");
    }
    match doc_get_exec(doc, "instructions") {
        None => Ok(()),
        Some(DocValue::Tab(t)) => load_insns_table(instructions, lookup, formats, consts, t),
        Some(_) => Err(LoadError::BadType("instructions".to_owned())),
    }
}

impl RiscVSpec {
    /// Loads one already parsed document into the spec; the new state, or
    /// the error, is exactly what [`spec_load_doc`] gives. A failed load
    /// leaves the spec in the partial state it reached.
    pub fn load_single_doc(&mut self, doc: &DocValue) -> (r: Result<(), LoadError>)
        requires
            old(self).wf(),
        ensures
            r matches Ok(_) ==> final(self).wf() && spec_load_doc(
                view_spec(*old(self)),
                view_doc(*doc),
            ) == Ok::<_, LoadErrV>(view_spec(*final(self))),
            r matches Err(e) ==> spec_load_doc(view_spec(*old(self)), view_doc(*doc)) matches Err(
                ev,
            ) && ev == view_err(e),
    {
        proof {
            reveal_strlit("meta");
            reveal_strlit("name");
            reveal_strlit("code");
            reveal_strlit("spec");
            reveal_strlit("meta.name");
            reveal_strlit("meta.code");
            reveal_strlit("meta.spec");
            reveal_strlit("consts");
            reveal_strlit("registers");
            reveal_strlit("names");
            reveal_strlit("lengths");
            reveal_strlit("registers.names");
            reveal_strlit("registers.lengths");
            reveal_strlit("instruction_formats");
            reveal_strlit("instructions");
        }
        let meta = match doc_get_exec(doc, "meta") {
            Some(m) => m,
            None => {
                return Err(LoadError::MissingNode("meta".to_owned()));
            },
        };
        let nm = match get_meta_str(meta, "name", "meta.name") {
            Ok(s) => s,
            Err(e) => {
                return Err(e);
            },
        };
        let cd = match get_meta_str(meta, "code", "meta.code") {
            Ok(s) => s,
            Err(e) => {
                return Err(e);
            },
        };
        let sp = match get_meta_str(meta, "spec", "meta.spec") {
            Ok(s) => s,
            Err(e) => {
                return Err(e);
            },
        };
        let ghost names0 = view_strings(self.loaded_names@);
        let ghost codes0 = view_strings(self.loaded_codes@);
        let ghost specs0 = view_strings(self.loaded_specs@);
        let ghost nmv = nm@;
        let ghost cdv = cd@;
        let ghost spv = sp@;
        self.loaded_names.push(nm);
        self.loaded_codes.push(cd);
        self.loaded_specs.push(sp);
        proof {
            assert(view_strings(self.loaded_names@) =~= names0.push(nmv));
            assert(view_strings(self.loaded_codes@) =~= codes0.push(cdv));
            assert(view_strings(self.loaded_specs@) =~= specs0.push(spv));
        }
        if let Err(e) = check_requires(&self.loaded_codes, meta) {
            return Err(e);
        }
        // constants
        if let Err(e) = load_consts_section(&mut self.consts, doc) {
            return Err(e);
        }
        // registers
        if let Err(e) = load_registers_section(&mut self.registers, &self.consts, doc) {
            return Err(e);
        }
        // instruction formats
        if let Err(e) = load_formats_section(&mut self.instruction_formats, &self.consts, doc) {
            return Err(e);
        }
        // instructions
        proof {
            assert forall|i: int|
                0 <= i < self.instructions@.len() implies crate::model::insn_wf(
                #[trigger] self.instructions@[i],
                self.instruction_formats@,
            ) by {
                assert(crate::model::insn_wf(
                    self.instructions@[i],
                    old(self).instruction_formats@,
                ));
                lemma_insn_wf_prefix(
                    self.instructions@[i],
                    old(self).instruction_formats@,
                    self.instruction_formats@,
                );
            }
        }
        if let Err(e) = load_insns_section(
            &mut self.instructions,
            &mut self.instruction_name_lookup,
            &self.instruction_formats,
            &self.consts,
            doc,
        ) {
            return Err(e);
        }
        // rebuild the register-name lookup
        rebuild_register_lookup(&mut self.register_name_lookup, &self.registers);
        Ok(())
    }

    /// Parses TOML text and loads the resulting document. A text that is
    /// not well-formed TOML is refused as a malformed document.
    pub fn load_single_cfg_string(&mut self, content: &str) -> (r: Result<(), LoadError>)
        requires
            old(self).wf(),
        ensures
            r matches Ok(_) ==> (final(self).wf() && (toml_doc_of(content@) matches Some(dv)
                && spec_load_doc(view_spec(*old(self)), dv) == Ok::<_, LoadErrV>(
                view_spec(*final(self)),
            ))),
            r matches Err(e) ==> ((toml_doc_of(content@) is None && e
                == LoadError::MalformedDocument) || (toml_doc_of(content@) matches Some(dv)
                && (spec_load_doc(view_spec(*old(self)), dv) matches Err(ev) && ev == view_err(
                e,
            )))),
            toml_doc_of(content@) is None ==> *final(self) == *old(self),
    {
        match parse_doc(content) {
            Some(doc) => self.load_single_doc(&doc),
            None => Err(LoadError::MalformedDocument),
        }
    }
}

/// An instruction stays well formed when formats are appended behind the
/// ones it refers to.
proof fn lemma_insn_wf_prefix(
    insn: InstructionDefinition,
    fs1: Seq<InstructionFormat>,
    fs2: Seq<InstructionFormat>,
)
    requires
        crate::model::insn_wf(insn, fs1),
        fs1.len() <= fs2.len(),
        forall|i: int|
            0 <= i < fs1.len() ==> (#[trigger] fs2[i]).fields@.len() == fs1[i].fields@.len(),
    ensures
        crate::model::insn_wf(insn, fs2),
{
}

} // verus!
