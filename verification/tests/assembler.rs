use rvasm::ast::Node;
use rvasm::bits::BitRangeMap;
use rvasm::emit::{emit_flat_binary, EmitError};
use rvasm::grammar::ast_from_str;
use rvasm::model::{LoadError, RiscVSpec};

/// A small RV32I base configuration: registers, the three formats the
/// tests need, and the four instructions the scenarios use. The `xor`
/// definition fixes `rs1` and routes both register operands through `rs2`
/// (operands encode after fixed fields, and later encodes win), and the
/// branch immediate scatters across four bit ranges.
const RV32I_CFG: &str = r#"
[meta]
name = "RISC-V 32-bit base integer ISA"
code = "RV32I"
spec = "2.1"

[consts]
XLEN = 32

[registers.names]
0 = ["x0", "zero"]
1 = ["x1", "ra"]
2 = ["x2", "sp"]
5 = ["x5", "t0"]
6 = ["x6", "t1"]
7 = ["x7", "t2"]

[registers.lengths]
0 = "XLEN"
1 = "XLEN"
2 = "XLEN"
5 = "XLEN"
6 = "XLEN"
7 = "XLEN"

[instruction_formats.itype.opcode]
type = "value"
length = 7
encoding = [[6, 0, 0]]

[instruction_formats.itype.rd]
type = "register"
length = 5
encoding = [[4, 0, 7]]

[instruction_formats.itype.funct3]
type = "value"
length = 3
encoding = [[2, 0, 12]]

[instruction_formats.itype.rs1]
type = "register"
length = 5
encoding = [[4, 0, 15]]

[instruction_formats.itype.imm]
type = "value"
length = 12
encoding = [[11, 0, 20]]

[instruction_formats.rtype.opcode]
type = "value"
length = 7
encoding = [[6, 0, 0]]

[instruction_formats.rtype.rd]
type = "register"
length = 5
encoding = [[4, 0, 7]]

[instruction_formats.rtype.funct3]
type = "value"
length = 3
encoding = [[2, 0, 12]]

[instruction_formats.rtype.rs1]
type = "value"
length = 5
encoding = [[4, 0, 15]]

[instruction_formats.rtype.rs2]
type = "register"
length = 5
encoding = [[4, 0, 20]]

[instruction_formats.rtype.funct7]
type = "value"
length = 7
encoding = [[6, 0, 25]]

[instruction_formats.btype.opcode]
type = "value"
length = 7
encoding = [[6, 0, 0]]

[instruction_formats.btype.funct3]
type = "value"
length = 3
encoding = [[2, 0, 12]]

[instruction_formats.btype.rs1]
type = "register"
length = 5
encoding = [[4, 0, 15]]

[instruction_formats.btype.rs2]
type = "register"
length = 5
encoding = [[4, 0, 20]]

[instruction_formats.btype.imm]
type = "value"
length = 13
encoding = [[12, 12, 31], [10, 5, 25], [3, 0, 8], [11, 11, 7]]

[instructions.addi]
format = "itype"
args = ["rd", "rs1", "imm"]

[instructions.addi.fields]
opcode = 0x13
funct3 = 0

[instructions.nop]
format = "itype"
args = []

[instructions.nop.fields]
opcode = 0x13
funct3 = 0
rd = 0
rs1 = 0
imm = 0

[instructions.xor]
format = "rtype"
args = ["rd", "rs2", "rs2"]

[instructions.xor.fields]
opcode = 0x33
funct3 = 4
funct7 = 0
rs1 = 7

[instructions.beq]
format = "btype"
args = ["rs1", "rs2", "imm"]

[instructions.beq.fields]
opcode = 0x63
funct3 = 0
"#;

fn rv32i() -> RiscVSpec {
    let mut rv = RiscVSpec::new();
    rv.load_single_cfg_string(RV32I_CFG).expect("base config must load");
    rv
}

fn assemble(src: &str) -> Result<Vec<u8>, EmitError> {
    let rv = rv32i();
    let ast = ast_from_str(src, &rv).expect("source must parse");
    emit_flat_binary(&rv, &ast)
}

#[test]
fn addi_encodes_to_canonical_word() {
    let bytes = assemble("addi x1, x0, 1").unwrap();
    assert_eq!(bytes, vec![0x93, 0x00, 0x10, 0x00]);
}

#[test]
fn nop_alias_encodes_fixed_fields_only() {
    let bytes = assemble("nop").unwrap();
    assert_eq!(bytes, vec![0x13, 0x00, 0x00, 0x00]);
}

#[test]
fn org_pads_and_places_instruction() {
    let bytes = assemble(".org 0x10\nxor x5,x6,x7").unwrap();
    assert_eq!(bytes.len(), 20);
    for i in 0..16 {
        assert_eq!(bytes[i], 0);
    }
    assert_eq!(&bytes[16..20], &[0xB3, 0xC2, 0x73, 0x00]);
}

#[test]
fn two_instructions_in_sequence() {
    let bytes = assemble("addi x1,x0,1\naddi x2,x0,2").unwrap();
    assert_eq!(bytes, vec![0x93, 0x00, 0x10, 0x00, 0x13, 0x01, 0x20, 0x00]);
}

#[test]
fn beq_scatters_branch_immediate() {
    let bytes = assemble("beq x0,x0,-4").unwrap();
    assert_eq!(bytes, vec![0xE3, 0x0C, 0x00, 0xFE]);
}

#[test]
fn unknown_mnemonic_fails_without_output() {
    let r = assemble("floop x1,x2");
    assert_eq!(r, Err(EmitError::InvalidInstruction("floop".to_string())));
}

#[test]
fn org_grows_buffer_to_exact_size_zero_filled() {
    let bytes = assemble(".org 5").unwrap();
    assert_eq!(bytes, vec![0, 0, 0, 0, 0]);
}

#[test]
fn unaligned_cursor_gets_zero_padding() {
    // cursor 1: three zero bytes pad up to the 4-byte boundary
    let bytes = assemble(".org 1\naddi x1, x0, 1").unwrap();
    assert_eq!(bytes, vec![0, 0, 0, 0, 0x93, 0x00, 0x10, 0x00]);
}

#[test]
fn max_integer_literal_parses() {
    let node = Node::parse_u64("FFFF_FFFF_FFFF_FFFF", 16);
    assert_eq!(node, Some(Node::Integer(u64::MAX)));
    // the low twelve bits land in the immediate field
    let bytes = assemble("addi x1, x0, 0xFFFF_FFFF_FFFF_FFFF").unwrap();
    assert_eq!(bytes, vec![0x93, 0x00, 0xF0, 0xFF]);
}

#[test]
fn underscores_only_literal_is_rejected() {
    assert_eq!(Node::parse_u64("____", 16), None);
    let rv = rv32i();
    assert!(ast_from_str("addi x1, x0, 0x____", &rv).is_err());
}

#[test]
fn arithmetic_shift_right_sign_extends() {
    let n = Node::Ashr(
        Box::new(Node::Integer(0x8000_0000_0000_0000)),
        Box::new(Node::Integer(1)),
    );
    assert_eq!(n.simplify(), Node::Integer(0xC000_0000_0000_0000));
}

#[test]
fn simplify_folds_once_and_stays_fixed() {
    let n = Node::Plus(Box::new(Node::Integer(2)), Box::new(Node::Integer(3)));
    let once = n.simplify();
    assert_eq!(once, Node::Integer(5));
    assert_eq!(once.simplify(), Node::Integer(5));
    // an unfoldable node is returned unchanged, twice
    let id = Node::Negation(Box::new(Node::Identifier("lbl".to_string())));
    let r1 = id.simplify();
    assert_eq!(r1, Node::Negation(Box::new(Node::Identifier("lbl".to_string()))));
    let r2 = r1.simplify();
    assert_eq!(r2, Node::Negation(Box::new(Node::Identifier("lbl".to_string()))));
}

#[test]
fn expressions_fold_during_parsing() {
    assert_eq!(assemble("addi x1, x0, (2+3)*2-4/2").unwrap(), assemble("addi x1, x0, 8").unwrap());
    assert_eq!(assemble("addi x1, x0, 1<<4").unwrap(), assemble("addi x1, x0, 16").unwrap());
    assert_eq!(assemble("addi x1, x0, 16>>2").unwrap(), assemble("addi x1, x0, 4").unwrap());
    assert_eq!(assemble("addi x1, x0, 16>>>2").unwrap(), assemble("addi x1, x0, 4").unwrap());
    assert_eq!(assemble("addi x1, x0, 'A'").unwrap(), assemble("addi x1, x0, 65").unwrap());
}

#[test]
fn register_lookup_finds_abi_aliases() {
    let rv = rv32i();
    assert_eq!(rv.get_register_by_name("zero").unwrap().index, 0);
    assert_eq!(rv.get_register_by_name("sp").unwrap().index, 2);
    assert_eq!(rv.get_register_by_name("x7").unwrap().index, 7);
    assert!(rv.get_register_by_name("frob").is_none());
    let r = rv.get_register(2).unwrap();
    assert_eq!(r.get_main_name().unwrap(), "x2");
    assert_eq!(r.get_abi_name().unwrap(), "sp");
    assert_eq!(r.size_in_bits, 32);
}

#[test]
fn instruction_lookup_is_case_insensitive() {
    let rv = rv32i();
    assert!(rv.get_instruction_by_name("ADDI").is_some());
    assert!(rv.get_instruction_by_name("addi").is_some());
    assert!(rv.get_instruction_by_name("slt").is_none());
}

#[test]
fn format_lookup_is_by_format_name() {
    let rv = rv32i();
    let f = rv.get_instruction_format_by_name("itype").unwrap();
    assert_eq!(f.name, "itype");
    assert_eq!(f.ilen, 32);
    // instruction names do not resolve as format names
    assert!(rv.get_instruction_format_by_name("addi").is_none());
}

#[test]
fn consts_resolve_in_later_sections() {
    let rv = rv32i();
    assert_eq!(rv.get_const("XLEN"), Some(32));
    assert_eq!(rv.get_const("ILEN"), None);
    assert_eq!(rv.get_register(0).unwrap().size_in_bits, 32);
}

#[test]
fn loaded_meta_is_reported() {
    let rv = rv32i();
    let abis = rv.get_loaded_abis();
    assert_eq!(abis.len(), 1);
    assert_eq!(abis[0].code, "RV32I");
    assert_eq!(abis[0].spec_version, "2.1");
}

#[test]
fn field_width_check_accepts_base_config() {
    let rv = rv32i();
    assert!(rv.check_field_widths());
}

#[test]
fn field_width_check_flags_oversized_opcode() {
    let cfg = r#"
[meta]
name = "n"
code = "c"
spec = "s"

[instruction_formats.f.op]
type = "value"
length = 7
encoding = [[6, 0, 0]]

[instructions.huge]
format = "f"
args = []

[instructions.huge.fields]
op = 0x93
"#;
    let mut rv = RiscVSpec::new();
    rv.load_single_cfg_string(cfg).unwrap();
    assert!(!rv.check_field_widths());
}

#[test]
fn load_errors_carry_their_cause() {
    let mut rv = RiscVSpec::new();
    assert_eq!(
        rv.load_single_cfg_string("not valid toml [["),
        Err(LoadError::MalformedDocument)
    );
    let mut rv = RiscVSpec::new();
    assert_eq!(
        rv.load_single_cfg_string("[consts]\nA = 1"),
        Err(LoadError::MissingNode("meta".to_string()))
    );
    let mut rv = RiscVSpec::new();
    assert_eq!(
        rv.load_single_cfg_string("[meta]\nname = \"n\"\ncode = \"c\"\nspec = \"s\"\nrequires = [\"RV32I\"]"),
        Err(LoadError::RequirementNotFound("RV32I".to_string()))
    );
    let mut rv = RiscVSpec::new();
    assert_eq!(
        rv.load_single_cfg_string("[meta]\nname = \"n\"\ncode = \"c\"\nspec = \"s\"\n[consts]\nA = \"NOPE\""),
        Err(LoadError::ConstNotFound("NOPE".to_string()))
    );
    let mut rv = RiscVSpec::new();
    assert_eq!(
        rv.load_single_cfg_string("[meta]\nname = \"n\"\ncode = \"c\"\nspec = 3"),
        Err(LoadError::BadType("meta.spec".to_string()))
    );
    let mut rv = RiscVSpec::new();
    assert_eq!(
        rv.load_single_cfg_string(
            "[meta]\nname = \"n\"\ncode = \"c\"\nspec = \"s\"\n[instructions.foo]\nformat = \"nosuch\"\nargs = []\n[instructions.foo.fields]\n"
        ),
        Err(LoadError::BadInstructionFormat("instructions.foo.format".to_string()))
    );
}

#[test]
fn duplicate_instruction_is_refused() {
    let mut rv = RiscVSpec::new();
    rv.load_single_cfg_string(RV32I_CFG).unwrap();
    // a second document redefining an existing mnemonic
    let dup = r#"
[meta]
name = "extension"
code = "X"
spec = "1"
requires = ["RV32I"]

[instruction_formats.g.op]
type = "value"
length = 7
encoding = [[6, 0, 0]]

[instructions.addi]
format = "g"
args = []

[instructions.addi.fields]
op = 1
"#;
    assert_eq!(
        rv.load_single_cfg_string(dup),
        Err(LoadError::DuplicateInstruction("addi".to_string()))
    );
}

#[test]
fn second_document_extends_registers() {
    let mut rv = RiscVSpec::new();
    rv.load_single_cfg_string(RV32I_CFG).unwrap();
    let ext = r#"
[meta]
name = "more names"
code = "XNAMES"
spec = "1"
requires = ["RV32I"]

[registers.names]
0 = ["x0", "zero", "nil"]
9 = ["x9"]
"#;
    rv.load_single_cfg_string(ext).unwrap();
    assert_eq!(rv.get_register_by_name("nil").unwrap().index, 0);
    assert_eq!(rv.get_register_by_name("x9").unwrap().index, 9);
    // the old alias still resolves after the lookup rebuild
    assert_eq!(rv.get_register_by_name("zero").unwrap().index, 0);
}

#[test]
fn emit_argument_errors() {
    let rv = rv32i();
    // wrong arity
    let ast = ast_from_str("addi x1, x0", &rv).unwrap();
    assert_eq!(
        emit_flat_binary(&rv, &ast),
        Err(EmitError::InvalidArgumentCount("addi".to_string()))
    );
    // a register where a value belongs
    let ast = ast_from_str("addi x1, x0, x2", &rv).unwrap();
    assert_eq!(
        emit_flat_binary(&rv, &ast),
        Err(EmitError::InvalidArgumentType("addi".to_string(), 2))
    );
    // a value where a register belongs
    let ast = ast_from_str("addi 1, x0, 1", &rv).unwrap();
    assert_eq!(
        emit_flat_binary(&rv, &ast),
        Err(EmitError::InvalidArgumentType("addi".to_string(), 0))
    );
    // .org argument shape and arity
    let ast = ast_from_str(".org x1", &rv).unwrap();
    assert_eq!(
        emit_flat_binary(&rv, &ast),
        Err(EmitError::InvalidArgumentType(".org".to_string(), 0))
    );
    let ast = ast_from_str(".org 1, 2", &rv).unwrap();
    assert_eq!(
        emit_flat_binary(&rv, &ast),
        Err(EmitError::InvalidArgumentCount(".org".to_string()))
    );
    // a stray non-statement node
    assert_eq!(
        emit_flat_binary(&rv, &Node::Integer(5)),
        Err(EmitError::UnexpectedNodeType)
    );
}

#[test]
fn oversized_format_is_refused_at_emit() {
    let cfg = r#"
[meta]
name = "wide"
code = "W"
spec = "1"

[instruction_formats.wide.op]
type = "value"
length = 7
encoding = [[6, 0, 0]]

[instruction_formats.wide.tail]
type = "value"
length = 1
encoding = [[0, 0, 40]]

[instructions.stretch]
format = "wide"
args = []

[instructions.stretch.fields]
op = 3
"#;
    let mut rv = RiscVSpec::new();
    rv.load_single_cfg_string(cfg).unwrap();
    let ast = ast_from_str("stretch", &rv).unwrap();
    assert_eq!(
        emit_flat_binary(&rv, &ast),
        Err(EmitError::InvalidEncoding("stretch".to_string()))
    );
}

#[test]
fn bit_range_encode_preserves_other_bits() {
    // one full byte window in the middle of a dirty buffer
    let m = BitRangeMap::new(7, 0, 8);
    let mut buf = vec![0xAAu8, 0xAA, 0xAA, 0xAA];
    m.encode_into(&mut buf, 0, 0x55);
    assert_eq!(buf, vec![0xAA, 0x55, 0xAA, 0xAA]);
    // a window straddling a byte boundary
    let m2 = BitRangeMap::new(11, 4, 12);
    let mut buf2 = vec![0x00u8, 0x00, 0x00, 0x00];
    m2.encode_into(&mut buf2, 0, 0xABC);
    // bits [11:4] of 0xABC are 0xAB, written at instruction bits 12..19
    assert_eq!(buf2, vec![0x00, 0xB0, 0x0A, 0x00]);
    // reading the window back yields the masked operand bits
    let mask = m2.value_bitmask();
    assert_eq!(mask, 0xFF0);
    let got = ((buf2[1] as u64) >> 4) | (((buf2[2] as u64) & 0x0F) << 4);
    assert_eq!(got, (0xABCu64 & mask) >> 4);
}

#[test]
fn emitter_simplify_resolves_constants_and_pc() {
    let consts: Vec<(String, u64)> = vec![("A".to_string(), 5)];
    let (n, ok) = Node::Identifier("A".to_string()).emitter_simplify(&consts, 100);
    assert_eq!((n, ok), (Node::Integer(5), true));
    let (n, ok) = Node::Identifier("B".to_string()).emitter_simplify(&consts, 100);
    assert_eq!((n, ok), (Node::Identifier("B".to_string()), false));
    let (n, ok) = Node::PcValue.emitter_simplify(&consts, 100);
    assert_eq!((n, ok), (Node::Integer(100), true));
    let (n, ok) = Node::Plus(
        Box::new(Node::Identifier("A".to_string())),
        Box::new(Node::Integer(2)),
    )
    .emitter_simplify(&consts, 0);
    assert_eq!((n, ok), (Node::Integer(7), true));
}

#[test]
fn labels_parse_and_emit_nothing() {
    let bytes = assemble("start:\naddi x1, x0, 1").unwrap();
    assert_eq!(bytes, vec![0x93, 0x00, 0x10, 0x00]);
}

#[test]
fn comments_and_continuations_are_whitespace() {
    let bytes = assemble("addi x1, x0, 1 ; sets x1\n\naddi x2, \\\nx0, 2").unwrap();
    assert_eq!(bytes.len(), 8);
}

#[test]
fn parse_errors_carry_positions() {
    let rv = rv32i();
    let e = ast_from_str("addi x1, x0, 1\n!!!", &rv).unwrap_err();
    assert_eq!(e.line, 2);
    assert_eq!(e.col, 1);
}

#[test]
fn register_index_keys_parse_as_decimal() {
    assert_eq!(rvasm::ast::parse_i32("17"), Some(17));
    assert_eq!(rvasm::ast::parse_i32("-3"), Some(-3));
    assert_eq!(rvasm::ast::parse_i32("+12"), Some(12));
    assert_eq!(rvasm::ast::parse_i32(""), None);
    assert_eq!(rvasm::ast::parse_i32("2147483647"), Some(2147483647));
    assert_eq!(rvasm::ast::parse_i32("2147483648"), None);
    assert_eq!(rvasm::ast::parse_i32("-2147483648"), Some(-2147483648));
    assert_eq!(rvasm::ast::parse_i32("1_2"), None);
}
