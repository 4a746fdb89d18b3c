//! The flat-binary emitter: walks an AST, looks instructions up in the
//! loaded spec, and encodes them into a growable, zero-padded byte image.

use crate::ast::Node;
use crate::bits::apply_map;
use crate::model::{
    assoc_contains, assoc_get, spec_encode_insn, FieldType, InstructionDefinition,
    InstructionFormat, RiscVSpec,
};
use crate::text::{lower_chars, str_eq};
use vstd::prelude::*;

verus! {

/// An error raised while emitting a program.
#[derive(Clone, Debug, PartialEq, Eq)]
pub enum EmitError {
    UnexpectedNodeType,
    InvalidInstruction(String),
    InvalidArgumentCount(String),
    InvalidArgumentType(String, usize),
    InvalidEncoding(String),
}

/// The mathematical emitter state: the bytes written so far and the output
/// cursor.
pub struct EmitStateV {
    pub buf: Seq<u8>,
    pub pos: int,
}

/// The buffer grown with zero bytes to at least `n` bytes; an already large
/// enough buffer is unchanged.
pub open spec fn grow_to(buf: Seq<u8>, n: int) -> Seq<u8> {
    if buf.len() >= n {
        buf
    } else {
        buf + Seq::new((n - buf.len()) as nat, |i: int| 0u8)
    }
}

/// The number of whole bytes needed for a bit count.
pub open spec fn bytes_for_bits(bits: u64) -> int {
    bits / 8 + if bits % 8 == 0 {
        0int
    } else {
        1int
    }
}

/// A configured constant in bits, with its default.
pub open spec fn cfg_bits(rv: RiscVSpec, name: Seq<char>, dflt: u64) -> u64 {
    if assoc_contains(rv.consts@, name) {
        assoc_get(rv.consts@, name)
    } else {
        dflt
    }
}

/// `pos` rounded up to the next multiple of `align`.
pub open spec fn align_up(pos: int, align: int) -> int {
    (pos + align - 1) / align * align
}

/// The 64-bit two's-complement bit pattern of a register index.
pub open spec fn reg_u64(rid: i32) -> u64 {
    if rid >= 0 {
        rid as u64
    } else {
        (rid + 0x1_0000_0000_0000_0000) as u64
    }
}

/// The operand position `i` has the node shape its field type demands:
/// `value` fields take `Argument(Integer(..))`, `register` fields take
/// `Argument(Register(..))`.
pub open spec fn arg_ok(
    fmt: InstructionFormat,
    insn: InstructionDefinition,
    args: Seq<Node>,
    i: int,
) -> bool {
    match fmt.fields@[insn.args@[i] as int].vtype {
        FieldType::Value => args[i] matches Node::Argument(inner) && *inner matches Node::Integer(
            _,
        ),
        FieldType::Register => args[i] matches Node::Argument(inner)
            && *inner matches Node::Register(_),
    }
}

/// The encoded 64-bit value of the operand at position `i` (meaningful when
/// the shape check passed).
pub open spec fn arg_value(
    fmt: InstructionFormat,
    insn: InstructionDefinition,
    args: Seq<Node>,
    i: int,
) -> u64 {
    match args[i] {
        Node::Argument(inner) => match *inner {
            Node::Integer(v) => v,
            Node::Register(rid) => reg_u64(rid),
            _ => 0,
        },
        _ => 0,
    }
}

/// The operand values of an instruction, in order.
pub open spec fn args_values(
    fmt: InstructionFormat,
    insn: InstructionDefinition,
    args: Seq<Node>,
) -> Seq<u64> {
    Seq::new(args.len(), |i: int| arg_value(fmt, insn, args, i))
}

/// The first operand position whose node shape does not fit its field type,
/// or the operand count when all fit.
pub open spec fn first_bad_arg(
    fmt: InstructionFormat,
    insn: InstructionDefinition,
    args: Seq<Node>,
    i: int,
) -> int
    decreases args.len() - i,
{
    if i < 0 || i >= args.len() {
        args.len() as int
    } else if !arg_ok(fmt, insn, args, i) {
        i
    } else {
        first_bad_arg(fmt, insn, args, i + 1)
    }
}

/// When the first `i` operands fit and operand `i` does not, it is the first
/// bad one.
proof fn lemma_first_bad_arg(
    fmt: InstructionFormat,
    insn: InstructionDefinition,
    args: Seq<Node>,
    i: int,
)
    requires
        0 <= i <= args.len(),
        forall|j: int| 0 <= j < i ==> arg_ok(fmt, insn, args, j),
    ensures
        i < args.len() && !arg_ok(fmt, insn, args, i) ==> first_bad_arg(fmt, insn, args, 0) == i,
        i == args.len() ==> first_bad_arg(fmt, insn, args, 0) >= i,
    decreases i,
{
    lemma_first_bad_arg_from(fmt, insn, args, 0, i);
}

/// Helper: the first bad position at or after `k` is `i` when everything in
/// `[k, i)` fits.
proof fn lemma_first_bad_arg_from(
    fmt: InstructionFormat,
    insn: InstructionDefinition,
    args: Seq<Node>,
    k: int,
    i: int,
)
    requires
        0 <= k <= i <= args.len(),
        forall|j: int| k <= j < i ==> arg_ok(fmt, insn, args, j),
    ensures
        i < args.len() && !arg_ok(fmt, insn, args, i) ==> first_bad_arg(fmt, insn, args, k) == i,
        i == args.len() ==> first_bad_arg(fmt, insn, args, k) >= i,
    decreases i - k,
{
    if k < i {
        lemma_first_bad_arg_from(fmt, insn, args, k + 1, i);
    }
}

/// The emitter applied to one node: the exact state transformation or error
/// described in the node-handling rules of the flat-binary format.
pub open spec fn spec_emit(rv: RiscVSpec, st: EmitStateV, n: Node) -> Result<EmitStateV, EmitError>
    decreases n, 1int,
{
    match n {
        Node::Root(nodes) => spec_emit_list(rv, st, nodes@),
        Node::Label(_) => Ok(st),
        Node::Instruction(iname, args) => if iname@ == ".org"@ || iname@ == ".ORG"@ {
            spec_emit_org(st, iname, args@)
        } else {
            spec_emit_insn_node(rv, st, iname, args@)
        },
        _ => Err(EmitError::UnexpectedNodeType),
    }
}

/// The emitter applied to a sequence of nodes, in order; the first error
/// stops the walk.
pub open spec fn spec_emit_list(rv: RiscVSpec, st: EmitStateV, ns: Seq<Node>) -> Result<
    EmitStateV,
    EmitError,
>
    decreases ns, 0int,
{
    if ns.len() == 0 {
        Ok(st)
    } else {
        match spec_emit(rv, st, ns.first()) {
            Ok(st1) => spec_emit_list(rv, st1, ns.drop_first()),
            Err(e) => Err(e),
        }
    }
}

/// The `.org` directive: exactly one integer argument, which becomes the new
/// cursor; the buffer grows zero-filled to the new cursor if it lies beyond
/// the end.
pub open spec fn spec_emit_org(st: EmitStateV, iname: String, args: Seq<Node>) -> Result<
    EmitStateV,
    EmitError,
> {
    if args.len() != 1 {
        Err(EmitError::InvalidArgumentCount(iname))
    } else {
        match args[0] {
            Node::Argument(inner) => match *inner {
                Node::Integer(adr) => {
                    let p = (adr as usize) as int;
                    Ok(EmitStateV { buf: grow_to(st.buf, p), pos: p })
                },
                _ => Err(EmitError::InvalidArgumentType(iname, 0)),
            },
            _ => Err(EmitError::InvalidArgumentType(iname, 0)),
        }
    }
}

/// An ordinary instruction: look the name up (lowercased), check arity and
/// operand shapes, check the encoded length against `ILEN`, align the cursor
/// up to the `IALIGN` byte boundary with zero padding, and encode fixed
/// fields then operands into the slot.
pub open spec fn spec_emit_insn_node(
    rv: RiscVSpec,
    st: EmitStateV,
    iname: String,
    args: Seq<Node>,
) -> Result<EmitStateV, EmitError> {
    if !assoc_contains(rv.instruction_name_lookup@, lower_chars(iname@)) {
        Err(EmitError::InvalidInstruction(iname))
    } else {
        let insn = rv.instructions@[assoc_get(
            rv.instruction_name_lookup@,
            lower_chars(iname@),
        ) as int];
        let fmt = rv.instruction_formats@[insn.format_idx as int];
        if args.len() != insn.args@.len() {
            Err(EmitError::InvalidArgumentCount(iname))
        } else if first_bad_arg(fmt, insn, args, 0) < args.len() {
            Err(
                EmitError::InvalidArgumentType(
                    iname,
                    first_bad_arg(fmt, insn, args, 0) as usize,
                ),
            )
        } else {
            let ilen_bytes = bytes_for_bits(fmt.ilen as u64);
            let ialign_bytes = bytes_for_bits(cfg_bits(rv, "IALIGN"@, 32));
            let max_ilen_bytes = bytes_for_bits(cfg_bits(rv, "ILEN"@, 32));
            if ilen_bytes > max_ilen_bytes {
                Err(EmitError::InvalidEncoding(iname))
            } else if ialign_bytes == 0 {
                Err(EmitError::InvalidEncoding(iname))
            } else if st.pos + ialign_bytes - 1 > usize::MAX {
                Err(EmitError::InvalidEncoding(iname))
            } else {
                let aligned = align_up(st.pos, ialign_bytes);
                if aligned + ilen_bytes > usize::MAX {
                    Err(EmitError::InvalidEncoding(iname))
                } else {
                    let grown = grow_to(st.buf, aligned + ilen_bytes);
                    Ok(
                        EmitStateV {
                            buf: spec_encode_insn(
                                grown,
                                insn,
                                fmt,
                                args_values(fmt, insn, args),
                                aligned,
                            ),
                            pos: aligned + ilen_bytes,
                        },
                    )
                }
            }
        }
    }
}

/// The growable output image and its cursor.
#[derive(Debug)]
pub struct BinaryEmitState {
    pub out_buf: Vec<u8>,
    pub out_pos: usize,
}

/// The mathematical value of an emitter state.
pub open spec fn state_v(st: BinaryEmitState) -> EmitStateV {
    EmitStateV { buf: st.out_buf@, pos: st.out_pos as int }
}

impl BinaryEmitState {
    /// Reserves `byte_count` bytes at the cursor, growing the buffer with
    /// zero fill if they reach beyond its end, and advances the cursor past
    /// them.
    pub fn accomodate_bytes(&mut self, byte_count: usize)
        requires
            old(self).out_pos + byte_count <= usize::MAX,
        ensures
            final(self).out_pos == old(self).out_pos + byte_count,
            final(self).out_buf@ == grow_to(
                old(self).out_buf@,
                old(self).out_pos + byte_count,
            ),
    {
        let end = self.out_pos + byte_count;
        if self.out_buf.len() < end {
            self.out_buf.resize(end, 0u8);
            proof {
                assert(self.out_buf@ =~= grow_to(old(self).out_buf@, end as int));
            }
        }
        self.out_pos = end;
    }
}

/// Emits one node into the state; the state afterwards, or the error, is
/// exactly what [`spec_emit`] gives.
pub fn emit_node(rv: &RiscVSpec, state: &mut BinaryEmitState, node: &Node) -> (r: Result<
    (),
    EmitError,
>)
    requires
        rv.wf(),
    ensures
        spec_emit(*rv, state_v(*old(state)), *node) matches Ok(stv) ==> r is Ok && state_v(
            *final(state),
        ) == stv,
        spec_emit(*rv, state_v(*old(state)), *node) matches Err(e) ==> r == Err::<(), EmitError>(
            e,
        ),
    decreases *node,
{
    match node {
        Node::Root(nodes) => {
            let n = nodes.len();
            let mut i: usize = 0;
            proof {
                assert(nodes@.skip(0) =~= nodes@);
            }
            #[verifier::loop_isolation(false)]
            while i < n
                invariant
                    n == nodes@.len(),
                    0 <= i <= n,
                    spec_emit_list(*rv, state_v(*old(state)), nodes@) == spec_emit_list(
                        *rv,
                        state_v(*state),
                        nodes@.skip(i as int),
                    ),
                decreases n - i,
            {
                proof {
                    assert(decreases_to!(*node => (*node)->Root_0));
                    assert(decreases_to!((*node)->Root_0 => (*node)->Root_0@));
                    assert(decreases_to!((*node)->Root_0@ => (*node)->Root_0@[i as int]));
                    assert(nodes@.skip(i as int).first() == nodes@[i as int]);
                    assert(nodes@.skip(i as int).drop_first() =~= nodes@.skip(i + 1 as int));
                }
                let r = emit_node(rv, state, &nodes[i]);
                if let Err(e) = r {
                    return Err(e);
                }
                i = i + 1;
            }
            proof {
                assert(nodes@.skip(n as int) =~= Seq::<Node>::empty());
            }
            Ok(())
        },
        Node::Label(_) => Ok(()),
        Node::Instruction(iname, args) => {
            if str_eq(iname.as_str(), ".org") || str_eq(iname.as_str(), ".ORG") {
                emit_org(state, iname, args)
            } else {
                emit_insn(rv, state, iname, args)
            }
        },
        _ => Err(EmitError::UnexpectedNodeType),
    }
}

/// Handles the `.org` directive; see [`spec_emit_org`].
fn emit_org(state: &mut BinaryEmitState, iname: &String, args: &Vec<Node>) -> (r: Result<
    (),
    EmitError,
>)
    ensures
        spec_emit_org(state_v(*old(state)), *iname, args@) matches Ok(stv) ==> r is Ok && state_v(
            *final(state),
        ) == stv,
        spec_emit_org(state_v(*old(state)), *iname, args@) matches Err(e) ==> r == Err::<
            (),
            EmitError,
        >(e),
{
    if args.len() != 1 {
        return Err(EmitError::InvalidArgumentCount(iname.clone()));
    }
    match &args[0] {
        Node::Argument(inner) => match &**inner {
            Node::Integer(adr) => {
                let new_out_pos = #[verifier::truncate] (*adr as usize);
                if new_out_pos > state.out_buf.len() {
                    state.out_buf.resize(new_out_pos, 0u8);
                    proof {
                        assert(state.out_buf@ =~= grow_to(
                            old(state).out_buf@,
                            new_out_pos as int,
                        ));
                    }
                }
                state.out_pos = new_out_pos;
                proof {
                    assert(state.out_buf@ =~= grow_to(old(state).out_buf@, new_out_pos as int));
                }
                Ok(())
            },
            _ => Err(EmitError::InvalidArgumentType(iname.clone(), 0)),
        },
        _ => Err(EmitError::InvalidArgumentType(iname.clone(), 0)),
    }
}

/// Handles an ordinary instruction; see [`spec_emit_insn_node`].
fn emit_insn(
    rv: &RiscVSpec,
    state: &mut BinaryEmitState,
    iname: &String,
    args: &Vec<Node>,
) -> (r: Result<(), EmitError>)
    requires
        rv.wf(),
    ensures
        spec_emit_insn_node(*rv, state_v(*old(state)), *iname, args@) matches Ok(stv) ==> r is Ok
            && state_v(*final(state)) == stv,
        spec_emit_insn_node(*rv, state_v(*old(state)), *iname, args@) matches Err(e) ==> r == Err::<
            (),
            EmitError,
        >(e),
{
    let specinsn = match rv.get_instruction_by_name(iname.as_str()) {
        Some(s) => s,
        None => {
            return Err(EmitError::InvalidInstruction(iname.clone()));
        },
    };
    let ghost insn_g = *specinsn;
    let fmt = specinsn.get_format(rv);
    let ghost fmt_g = *fmt;
    if args.len() != specinsn.args.len() {
        return Err(EmitError::InvalidArgumentCount(iname.clone()));
    }
    let nargs = args.len();
    let mut argv: Vec<u64> = Vec::new();
    let mut i: usize = 0;
    #[verifier::loop_isolation(false)]
    while i < nargs
        invariant
            nargs == args@.len(),
            0 <= i <= nargs,
            argv@.len() == i,
            forall|j: int| 0 <= j < i ==> arg_ok(fmt_g, insn_g, args@, j),
            forall|j: int| 0 <= j < i ==> argv@[j] == arg_value(fmt_g, insn_g, args@, j),
        decreases nargs - i,
    {
        let fldidx = specinsn.args[i];
        let arg = &args[i];
        match fmt.fields[fldidx].vtype {
            FieldType::Value => {
                match arg {
                    Node::Argument(inner) => match &**inner {
                        Node::Integer(val) => {
                            argv.push(*val);
                        },
                        _ => {
                            proof {
                                lemma_first_bad_arg(fmt_g, insn_g, args@, i as int);
                            }
                            return Err(EmitError::InvalidArgumentType(iname.clone(), i));
                        },
                    },
                    _ => {
                        proof {
                            lemma_first_bad_arg(fmt_g, insn_g, args@, i as int);
                        }
                        return Err(EmitError::InvalidArgumentType(iname.clone(), i));
                    },
                }
            },
            FieldType::Register => {
                match arg {
                    Node::Argument(inner) => match &**inner {
                        Node::Register(rid) => {
                            let v = #[verifier::truncate] (*rid as u64);
                            proof {
                                lemma_reg_u64(*rid);
                            }
                            argv.push(v);
                        },
                        _ => {
                            proof {
                                lemma_first_bad_arg(fmt_g, insn_g, args@, i as int);
                            }
                            return Err(EmitError::InvalidArgumentType(iname.clone(), i));
                        },
                    },
                    _ => {
                        proof {
                            lemma_first_bad_arg(fmt_g, insn_g, args@, i as int);
                        }
                        return Err(EmitError::InvalidArgumentType(iname.clone(), i));
                    },
                }
            },
        }
        i = i + 1;
    }
    proof {
        lemma_first_bad_arg(fmt_g, insn_g, args@, nargs as int);
        assert(argv@ =~= args_values(fmt_g, insn_g, args@));
    }
    // encoded length against the ILEN ceiling
    let ilen_bytes: usize = fmt.ilen / 8 + if fmt.ilen % 8 == 0 {
        0
    } else {
        1
    };
    let ilen_bits_cfg = match rv.get_const("ILEN") {
        Some(v) => v,
        None => 32,
    };
    let max_ilen_bytes: u64 = ilen_bits_cfg / 8 + if ilen_bits_cfg % 8 == 0 {
        0
    } else {
        1
    };
    proof {
        reveal_strlit("ILEN");
        reveal_strlit("IALIGN");
    }
    if ilen_bytes as u64 > max_ilen_bytes {
        return Err(EmitError::InvalidEncoding(iname.clone()));
    }
    // alignment
    let ialign_bits_cfg = match rv.get_const("IALIGN") {
        Some(v) => v,
        None => 32,
    };
    let ialign_bytes: u64 = ialign_bits_cfg / 8 + if ialign_bits_cfg % 8 == 0 {
        0
    } else {
        1
    };
    if ialign_bytes == 0 {
        return Err(EmitError::InvalidEncoding(iname.clone()));
    }
    let pos64 = state.out_pos as u64;
    if pos64 > u64::MAX - (ialign_bytes - 1) {
        return Err(EmitError::InvalidEncoding(iname.clone()));
    }
    if pos64 + (ialign_bytes - 1) > usize::MAX as u64 {
        return Err(EmitError::InvalidEncoding(iname.clone()));
    }
    let q = (pos64 + (ialign_bytes - 1)) / ialign_bytes;
    proof {
        assert(q * ialign_bytes <= pos64 + ialign_bytes - 1) by (nonlinear_arith)
            requires
                q == (pos64 + ialign_bytes - 1) as u64 / ialign_bytes && ialign_bytes >= 1,
        ;
    }
    let aligned: usize = (q * ialign_bytes) as usize;
    proof {
        lemma_align_up_bounds(state.out_pos as int, ialign_bytes as int);
        assert(aligned == align_up(state.out_pos as int, ialign_bytes as int));
    }
    if aligned as u64 > u64::MAX - ilen_bytes as u64 || aligned as u64 + ilen_bytes as u64
        > usize::MAX as u64 {
        return Err(EmitError::InvalidEncoding(iname.clone()));
    }
    if state.out_pos != aligned {
        // zero padding up to the alignment boundary
        state.out_pos = aligned;
    }
    let ghost grown = grow_to(old(state).out_buf@, aligned + ilen_bytes);
    if state.out_buf.len() < aligned + ilen_bytes {
        state.out_buf.resize(aligned + ilen_bytes, 0u8);
    }
    state.out_pos = aligned + ilen_bytes;
    proof {
        assert(state.out_buf@ =~= grown);
    }
    let r = specinsn.encode_into(&mut state.out_buf, aligned, rv, argv.as_slice());
    proof {
        assert(r is Ok);
    }
    Ok(())
}

/// A register index cast to 64 bits is its two's-complement bit pattern.
proof fn lemma_reg_u64(rid: i32)
    by (bit_vector)
    ensures
        (rid as u64) == (if rid >= 0 {
            rid as u64
        } else {
            ((rid + 0x1_0000_0000_0000_0000) as u64)
        }),
{
}

/// Rounding up to a positive alignment lands between `pos` and
/// `pos + align - 1`, on a multiple of `align`.
proof fn lemma_align_up_bounds(pos: int, align: int)
    requires
        0 <= pos,
        1 <= align,
    ensures
        pos <= align_up(pos, align) <= pos + align - 1,
        align_up(pos, align) % align == 0,
{
    let q = (pos + align - 1) / align;
    assert(q * align <= pos + align - 1 && pos <= q * align && (q * align) % align == 0)
        by (nonlinear_arith)
        requires
            q == (pos + align - 1) / align && 0 <= pos && 1 <= align,
    ;
}

/// Law: a `.org` directive whose address lies at or beyond the end of the
/// buffer grows it to exactly that many bytes, zero-filled, and moves the
/// cursor there.
pub proof fn lemma_org_grows(st: EmitStateV, iname: String, args: Seq<Node>, a: u64)
    requires
        args.len() == 1,
        args[0] matches Node::Argument(inner) && *inner == Node::Integer(a),
        ((a as usize) as int) >= st.buf.len(),
    ensures
        spec_emit_org(st, iname, args) matches Ok(st2) && st2.pos == (a as usize) && st2.buf.len()
            == (a as usize) as int && (forall|j: int|
            0 <= j < st.buf.len() ==> st2.buf[j] == st.buf[j]) && (forall|j: int|
            st.buf.len() <= j < st2.buf.len() ==> st2.buf[j] == 0),
{
    assert(spec_emit_org(st, iname, args) matches Ok(st2) && st2.buf =~= grow_to(
        st.buf,
        (a as usize) as int,
    ));
}

/// Law: an instruction emitted while the cursor sits at the end of the
/// buffer is preceded by exactly `(align - pos % align) % align` zero
/// padding bytes, where `align` is the configured alignment in bytes.
pub proof fn lemma_emit_alignment(
    rv: RiscVSpec,
    st: EmitStateV,
    iname: String,
    args: Seq<Node>,
    st2: EmitStateV,
)
    requires
        rv.wf(),
        spec_emit_insn_node(rv, st, iname, args) == Ok::<EmitStateV, EmitError>(st2),
        st.pos == st.buf.len(),
        0 <= st.pos,
    ensures
        ({
            let ab = bytes_for_bits(cfg_bits(rv, "IALIGN"@, 32));
            let aligned = align_up(st.pos, ab);
            &&& aligned - st.pos == (ab - st.pos % ab) % ab
            &&& forall|j: int| st.pos <= j < aligned ==> st2.buf[j] == 0
        }),
{
    let ab = bytes_for_bits(cfg_bits(rv, "IALIGN"@, 32));
    let aligned = align_up(st.pos, ab);
    let insn = rv.instructions@[assoc_get(rv.instruction_name_lookup@, lower_chars(iname@)) as int];
    let fmt = rv.instruction_formats@[insn.format_idx as int];
    let ilen_bytes = bytes_for_bits(fmt.ilen as u64);
    let p = st.pos;
    assert(ab >= 1);
    assert(aligned - p == (ab - p % ab) % ab) by (nonlinear_arith)
        requires
            aligned == (p + ab - 1) / ab * ab && ab >= 1 && p >= 0,
    ;
    let grown = grow_to(st.buf, aligned + ilen_bytes);
    assert(st2.buf == spec_encode_insn(grown, insn, fmt, args_values(fmt, insn, args), aligned));
    assert(fmt.wf());
    crate::model::lemma_encode_insn_frame(
        grown,
        insn,
        fmt,
        args_values(fmt, insn, args),
        aligned,
    );
    assert forall|j: int| st.pos <= j < aligned implies st2.buf[j] == 0 by {
        assert(grown[j] == 0);
        assert(st2.buf[j] == grown[j]);
    }
}

/// The byte positions an instruction node would occupy: the aligned slot
/// of its format's length. Directives, labels and unknown names occupy
/// nothing.
pub open spec fn spec_in_slot(rv: RiscVSpec, st: EmitStateV, n: Node, j: int) -> bool
    decreases n, 1int,
{
    match n {
        Node::Root(nodes) => spec_in_slot_list(rv, st, nodes@, j),
        Node::Instruction(iname, args) => if iname@ == ".org"@ || iname@ == ".ORG"@ {
            false
        } else if assoc_contains(rv.instruction_name_lookup@, lower_chars(iname@)) {
            let insn = rv.instructions@[assoc_get(
                rv.instruction_name_lookup@,
                lower_chars(iname@),
            ) as int];
            let fmt = rv.instruction_formats@[insn.format_idx as int];
            let ilen_bytes = bytes_for_bits(fmt.ilen as u64);
            let ialign_bytes = bytes_for_bits(cfg_bits(rv, "IALIGN"@, 32));
            ialign_bytes >= 1 && align_up(st.pos, ialign_bytes) <= j < align_up(
                st.pos,
                ialign_bytes,
            ) + ilen_bytes
        } else {
            false
        },
        _ => false,
    }
}

/// The byte positions any node of a sequence would occupy, each against
/// the emitter state its predecessors leave behind.
pub open spec fn spec_in_slot_list(rv: RiscVSpec, st: EmitStateV, ns: Seq<Node>, j: int) -> bool
    decreases ns, 0int,
{
    if ns.len() == 0 {
        false
    } else {
        spec_in_slot(rv, st, ns.first(), j) || (match spec_emit(rv, st, ns.first()) {
            Ok(st1) => spec_in_slot_list(rv, st1, ns.drop_first(), j),
            Err(_) => false,
        })
    }
}

/// A successful emit never shrinks the buffer.
pub proof fn lemma_emit_len_monotone(rv: RiscVSpec, st: EmitStateV, n: Node, st2: EmitStateV)
    requires
        rv.wf(),
        st.pos >= 0,
        spec_emit(rv, st, n) == Ok::<EmitStateV, EmitError>(st2),
    ensures
        st2.buf.len() >= st.buf.len(),
        st2.pos >= 0,
    decreases n, 1int,
{
    match n {
        Node::Root(nodes) => {
            lemma_emit_list_len_monotone(rv, st, nodes@, st2);
        },
        Node::Label(_) => {},
        Node::Instruction(iname, args) => {
            if iname@ == ".org"@ || iname@ == ".ORG"@ {
            } else {
                let insn = rv.instructions@[assoc_get(
                    rv.instruction_name_lookup@,
                    lower_chars(iname@),
                ) as int];
                let fmt = rv.instruction_formats@[insn.format_idx as int];
                let ialign_bytes = bytes_for_bits(cfg_bits(rv, "IALIGN"@, 32));
                let aligned = align_up(st.pos, ialign_bytes);
                let ilen_bytes = bytes_for_bits(fmt.ilen as u64);
                let grown = grow_to(st.buf, aligned + ilen_bytes);
                assert(fmt.wf());
                assert(crate::model::insn_wf(insn, rv.instruction_formats@));
                crate::model::lemma_encode_insn_frame(
                    grown,
                    insn,
                    fmt,
                    args_values(fmt, insn, args@),
                    aligned,
                );
            }
        },
        _ => {},
    }
}

/// A successful walk of a node sequence never shrinks the buffer.
pub proof fn lemma_emit_list_len_monotone(
    rv: RiscVSpec,
    st: EmitStateV,
    ns: Seq<Node>,
    st2: EmitStateV,
)
    requires
        rv.wf(),
        st.pos >= 0,
        spec_emit_list(rv, st, ns) == Ok::<EmitStateV, EmitError>(st2),
    ensures
        st2.buf.len() >= st.buf.len(),
        st2.pos >= 0,
    decreases ns, 0int,
{
    if ns.len() > 0 {
        match spec_emit(rv, st, ns.first()) {
            Ok(st1) => {
                lemma_emit_len_monotone(rv, st, ns.first(), st1);
                lemma_emit_list_len_monotone(rv, st1, ns.drop_first(), st2);
            },
            Err(_) => {},
        }
    }
}

/// Law: a successful emit touches nothing outside the instruction slots.
/// Every byte of the final buffer either lies in the slot of some emitted
/// instruction, or keeps the value it had on entry, or is a zero that
/// growth and padding wrote.
pub proof fn lemma_emit_outside_slots(
    rv: RiscVSpec,
    st: EmitStateV,
    n: Node,
    st2: EmitStateV,
    j: int,
)
    requires
        rv.wf(),
        st.pos >= 0,
        spec_emit(rv, st, n) == Ok::<EmitStateV, EmitError>(st2),
        0 <= j < st2.buf.len(),
    ensures
        spec_in_slot(rv, st, n, j) || (j < st.buf.len() && st2.buf[j] == st.buf[j]) || st2.buf[j]
            == 0,
    decreases n, 1int,
{
    match n {
        Node::Root(nodes) => {
            lemma_emit_list_outside_slots(rv, st, nodes@, st2, j);
        },
        Node::Label(_) => {},
        Node::Instruction(iname, args) => {
            if iname@ == ".org"@ || iname@ == ".ORG"@ {
            } else {
                let insn = rv.instructions@[assoc_get(
                    rv.instruction_name_lookup@,
                    lower_chars(iname@),
                ) as int];
                let fmt = rv.instruction_formats@[insn.format_idx as int];
                let ialign_bytes = bytes_for_bits(cfg_bits(rv, "IALIGN"@, 32));
                let aligned = align_up(st.pos, ialign_bytes);
                let ilen_bytes = bytes_for_bits(fmt.ilen as u64);
                let grown = grow_to(st.buf, aligned + ilen_bytes);
                assert(fmt.wf());
                assert(crate::model::insn_wf(insn, rv.instruction_formats@));
                crate::model::lemma_encode_insn_frame(
                    grown,
                    insn,
                    fmt,
                    args_values(fmt, insn, args@),
                    aligned,
                );
                if !(aligned <= j < aligned + ilen_bytes) {
                    assert(st2.buf[j] == grown[j]);
                }
            }
        },
        _ => {},
    }
}

/// Law, over a node sequence.
pub proof fn lemma_emit_list_outside_slots(
    rv: RiscVSpec,
    st: EmitStateV,
    ns: Seq<Node>,
    st2: EmitStateV,
    j: int,
)
    requires
        rv.wf(),
        st.pos >= 0,
        spec_emit_list(rv, st, ns) == Ok::<EmitStateV, EmitError>(st2),
        0 <= j < st2.buf.len(),
    ensures
        spec_in_slot_list(rv, st, ns, j) || (j < st.buf.len() && st2.buf[j] == st.buf[j])
            || st2.buf[j] == 0,
    decreases ns, 0int,
{
    if ns.len() > 0 {
        match spec_emit(rv, st, ns.first()) {
            Ok(st1) => {
                lemma_emit_len_monotone(rv, st, ns.first(), st1);
                lemma_emit_list_outside_slots(rv, st1, ns.drop_first(), st2, j);
                if !spec_in_slot_list(rv, st1, ns.drop_first(), j) {
                    if j < st1.buf.len() && st2.buf[j] == st1.buf[j] {
                        lemma_emit_outside_slots(rv, st, ns.first(), st1, j);
                    }
                }
            },
            Err(_) => {},
        }
    }
}

/// Law: a whole program emitted into the empty image has zeroes everywhere
/// outside the slots of its instructions (alignment padding and directive
/// fill are zero; nothing else is written).
pub proof fn lemma_program_zero_outside_slots(rv: RiscVSpec, ast: Node, st2: EmitStateV, j: int)
    requires
        rv.wf(),
        spec_emit(rv, EmitStateV { buf: Seq::empty(), pos: 0 }, ast) == Ok::<
            EmitStateV,
            EmitError,
        >(st2),
        0 <= j < st2.buf.len(),
        !spec_in_slot(rv, EmitStateV { buf: Seq::empty(), pos: 0 }, ast, j),
    ensures
        st2.buf[j] == 0,
{
    lemma_emit_outside_slots(rv, EmitStateV { buf: Seq::empty(), pos: 0 }, ast, st2, j);
}

/// Emits a whole program: an empty image, the AST walked from the root, the
/// populated image on success.
pub fn emit_flat_binary(rv: &RiscVSpec, ast: &Node) -> (r: Result<Vec<u8>, EmitError>)
    requires
        rv.wf(),
    ensures
        spec_emit(*rv, EmitStateV { buf: Seq::empty(), pos: 0 }, *ast) matches Ok(stv) ==> (
        r matches Ok(bytes) && bytes@ == stv.buf),
        spec_emit(*rv, EmitStateV { buf: Seq::empty(), pos: 0 }, *ast) matches Err(e) ==> r
            == Err::<Vec<u8>, EmitError>(e),
{
    let mut state = BinaryEmitState { out_buf: Vec::new(), out_pos: 0 };
    match emit_node(rv, &mut state, ast) {
        Ok(_) => Ok(state.out_buf),
        Err(e) => Err(e),
    }
}

} // verus!
