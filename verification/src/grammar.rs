//! The assembly grammar: a recursive-descent parser from ASCII source text
//! to the AST, with register recognition driven by the loaded spec and
//! constant folding applied at every reduction. The whole grammar is
//! mirrored by spec functions over character sequences, and the parser
//! returns exactly what the mirror describes.

use crate::ast::{
    digit_val_c, digits_val_c, spec_simplify_v, strip_c, valid_int_literal_c, view_node, AstV,
    Node,
};
use crate::model::{assoc_contains, assoc_get, regs_get, RiscVSpec};
use vstd::prelude::*;
use vstd::string::StrSliceExecFns;

verus! {

/// A positional syntax error: one-based line and column of the place the
/// parse stopped, and what was expected there.
#[derive(Debug, PartialEq, Eq)]
pub struct ParseError {
    pub line: usize,
    pub col: usize,
    pub expected: &'static str,
}

// ------------------------------------------------------------------
// Lexical shapes
// ------------------------------------------------------------------
/// A character that may start an identifier: a letter, a dot or an
/// underscore.
pub open spec fn ident_start_c(c: char) -> bool {
    ('A' <= c && c <= 'Z') || ('a' <= c && c <= 'z') || c == '.' || c == '_'
}

/// A character that may continue an identifier: a letter, a digit, a dot
/// or an underscore.
pub open spec fn ident_char_c(c: char) -> bool {
    ident_start_c(c) || ('0' <= c && c <= '9')
}

/// An identifier-shaped name: non-empty, opening with a letter, dot or
/// underscore, continuing with letters, digits, dots and underscores.
pub open spec fn ident_seq(nm: Seq<char>) -> bool {
    &&& nm.len() >= 1
    &&& ident_start_c(nm[0])
    &&& forall|i: int| 1 <= i < nm.len() ==> ident_char_c(#[trigger] nm[i])
}

/// A character of the digit section of an integer literal in the given
/// radix: a digit below the radix, or an underscore.
pub open spec fn digit_class_c(c: char, radix: int) -> bool {
    c == '_' || digit_val_c(c) < radix
}

/// A statement node against a loaded spec: a label or an instruction whose
/// name is identifier-shaped and is not a register name, and whose children
/// are all argument wrappers.
pub open spec fn stmt_ok(n: Node, rv: RiscVSpec) -> bool {
    match n {
        Node::Label(nm) => ident_seq(nm@) && !assoc_contains(rv.register_name_lookup@, nm@),
        Node::Instruction(nm, args) => ident_seq(nm@) && !assoc_contains(
            rv.register_name_lookup@,
            nm@,
        ) && forall|i: int| 0 <= i < args@.len() ==> (#[trigger] args@[i]) is Argument,
        _ => false,
    }
}

/// A well-formed parse result: a root whose children are all statements.
pub open spec fn root_ok(n: Node, rv: RiscVSpec) -> bool {
    &&& n is Root
    &&& match n {
        Node::Root(stmts) => forall|i: int|
            0 <= i < stmts@.len() ==> stmt_ok(#[trigger] stmts@[i], rv),
        _ => false,
    }
}

// ------------------------------------------------------------------
// The grammar as spec functions
//
// Each function mirrors the parser below it, position for position. A few
// recursive calls carry a redundant position guard (the position always
// moves forward, but the termination measure needs the comparison written
// out).
// ------------------------------------------------------------------
/// The rest of a comment: everything up to the next newline or the end.
pub open spec fn spec_skip_comment(s: Seq<char>, pos: int) -> int
    decreases s.len() - pos, 0int,
{
    if 0 <= pos < s.len() && s[pos] != '\n' {
        spec_skip_comment(s, pos + 1)
    } else {
        pos
    }
}

/// Whitespace: spaces, carriage returns, tabs, comments from `;` to the
/// end of the line, and backslash-newline continuations; newlines stay.
pub open spec fn spec_skip_white(s: Seq<char>, pos: int) -> int
    decreases s.len() - pos, 1int,
{
    if pos < 0 || pos >= s.len() {
        pos
    } else if s[pos] == ' ' || s[pos] == '\r' || s[pos] == '\t' {
        spec_skip_white(s, pos + 1)
    } else if s[pos] == ';' && pos + 1 < s.len() && s[pos + 1] != '\n' {
        spec_skip_comment(s, pos + 1)
    } else if s[pos] == '\\' && pos + 1 < s.len() && s[pos + 1] == '\n' {
        spec_skip_white(s, pos + 2)
    } else {
        pos
    }
}

/// Whitespace and newlines.
pub open spec fn spec_skip_white_nl(s: Seq<char>, pos: int) -> int
    decreases s.len() - pos,
{
    let p = spec_skip_white(s, pos);
    if pos <= p < s.len() && s[p] == '\n' {
        spec_skip_white_nl(s, p + 1)
    } else {
        p
    }
}

/// The end of an identifier whose first character stands at `pos - 1`.
pub open spec fn spec_ident_end(s: Seq<char>, pos: int) -> int
    decreases s.len() - pos,
{
    if 0 <= pos < s.len() && ident_char_c(s[pos]) {
        spec_ident_end(s, pos + 1)
    } else {
        pos
    }
}

/// The end of the identifier starting at `pos`, if one starts there.
pub open spec fn spec_scan_ident(s: Seq<char>, pos: int) -> Option<int> {
    if 0 <= pos < s.len() && ident_start_c(s[pos]) {
        Some(spec_ident_end(s, pos + 1))
    } else {
        None
    }
}

/// The end of the digit-class run starting at `pos`.
pub open spec fn spec_digit_run(s: Seq<char>, pos: int, radix: int) -> int
    decreases s.len() - pos,
{
    if 0 <= pos < s.len() && digit_class_c(s[pos], radix) {
        spec_digit_run(s, pos + 1, radix)
    } else {
        pos
    }
}

/// The value of the digit section `[from, to)` in the given radix, when it
/// holds at least one digit and the value fits in 64 bits.
pub open spec fn spec_literal(s: Seq<char>, from: int, to: int, radix: int) -> Option<(u64, int)> {
    let ds = s.subrange(from, to);
    if to > from && valid_int_literal_c(ds, radix) && digits_val_c(strip_c(ds), radix)
        <= u64::MAX {
        Some((digits_val_c(strip_c(ds), radix) as u64, to))
    } else {
        None
    }
}

/// An integer literal at `pos`: `0x` hex, `0o` octal, `0b` binary, `0d` or
/// bare digits decimal, underscores stripped. A prefix whose digit run is
/// empty falls back to the bare decimal form.
pub open spec fn spec_parse_integer(s: Seq<char>, pos: int) -> Option<(u64, int)> {
    if pos < 0 || pos >= s.len() {
        None
    } else {
        let radix: int = if pos + 1 < s.len() && s[pos] == '0' {
            if s[pos + 1] == 'x' {
                16
            } else if s[pos + 1] == 'o' {
                8
            } else if s[pos + 1] == 'b' {
                2
            } else if s[pos + 1] == 'd' {
                10
            } else {
                0
            }
        } else {
            0
        };
        if radix != 0 && spec_digit_run(s, pos + 2, radix) > pos + 2 {
            spec_literal(s, pos + 2, spec_digit_run(s, pos + 2, radix), radix)
        } else {
            spec_literal(s, pos, spec_digit_run(s, pos, 10), 10)
        }
    }
}

/// One character of a character literal, escapes included, as a byte.
pub open spec fn spec_char_byte(s: Seq<char>, pos: int, quote: char) -> Option<(u8, int)> {
    if pos < 0 || pos >= s.len() {
        None
    } else if s[pos] == '\\' {
        if pos + 2 > s.len() {
            None
        } else if s[pos + 1] == 'n' {
            Some((10u8, pos + 2))
        } else if s[pos + 1] == 't' {
            Some((9u8, pos + 2))
        } else if s[pos + 1] == '\\' {
            Some((92u8, pos + 2))
        } else if s[pos + 1] == 'r' {
            Some((13u8, pos + 2))
        } else if s[pos + 1] == 'x' {
            if pos + 4 <= s.len() {
                match spec_literal(s, pos + 2, pos + 4, 16) {
                    Some(v) => if v.0 <= 255 {
                        Some((v.0 as u8, pos + 4))
                    } else {
                        None
                    },
                    None => None,
                }
            } else {
                None
            }
        } else {
            None
        }
    } else if s[pos] == quote || s[pos] == '\n' {
        None
    } else {
        Some(((s[pos] as u8), pos + 1))
    }
}

/// A full expression: shift operators at the lowest precedence over
/// additive terms, all left-associative, every reduction folded.
pub open spec fn spec_parse_expr(s: Seq<char>, rv: RiscVSpec, pos: int) -> Option<(AstV, int)>
    decreases s.len() - pos, 7int,
{
    match spec_parse_add(s, rv, pos) {
        Some((x, p)) => if pos <= p <= s.len() {
            spec_shift_tail(s, rv, x, p)
        } else {
            Some((x, p))
        },
        None => None,
    }
}

/// The shift-operator continuations after a first additive term.
pub open spec fn spec_shift_tail(s: Seq<char>, rv: RiscVSpec, x: AstV, p: int) -> Option<
    (AstV, int),
>
    decreases s.len() - p, 6int,
{
    if p + 3 <= s.len() && s[p] == '>' && s[p + 1] == '>' && s[p + 2] == '>' {
        match spec_parse_add(s, rv, p + 3) {
            Some((y, p2)) => if p < p2 <= s.len() {
                spec_shift_tail(s, rv, spec_simplify_v(AstV::Ashr(Box::new(x), Box::new(y))), p2)
            } else {
                Some((spec_simplify_v(AstV::Ashr(Box::new(x), Box::new(y))), p2))
            },
            None => Some((x, p)),
        }
    } else if p + 2 <= s.len() && s[p] == '<' && s[p + 1] == '<' {
        match spec_parse_add(s, rv, p + 2) {
            Some((y, p2)) => if p < p2 <= s.len() {
                spec_shift_tail(s, rv, spec_simplify_v(AstV::Shl(Box::new(x), Box::new(y))), p2)
            } else {
                Some((spec_simplify_v(AstV::Shl(Box::new(x), Box::new(y))), p2))
            },
            None => Some((x, p)),
        }
    } else if p + 2 <= s.len() && s[p] == '>' && s[p + 1] == '>' {
        match spec_parse_add(s, rv, p + 2) {
            Some((y, p2)) => if p < p2 <= s.len() {
                spec_shift_tail(s, rv, spec_simplify_v(AstV::Shr(Box::new(x), Box::new(y))), p2)
            } else {
                Some((spec_simplify_v(AstV::Shr(Box::new(x), Box::new(y))), p2))
            },
            None => Some((x, p)),
        }
    } else {
        Some((x, p))
    }
}

/// An additive-level expression.
pub open spec fn spec_parse_add(s: Seq<char>, rv: RiscVSpec, pos: int) -> Option<(AstV, int)>
    decreases s.len() - pos, 5int,
{
    match spec_parse_mult(s, rv, pos) {
        Some((x, p)) => if pos <= p <= s.len() {
            spec_add_tail(s, rv, x, p)
        } else {
            Some((x, p))
        },
        None => None,
    }
}

/// The additive-operator continuations after a first multiplicative term.
pub open spec fn spec_add_tail(s: Seq<char>, rv: RiscVSpec, x: AstV, p: int) -> Option<
    (AstV, int),
>
    decreases s.len() - p, 4int,
{
    if 0 <= p < s.len() && s[p] == '+' {
        match spec_parse_mult(s, rv, p + 1) {
            Some((y, p2)) => if p < p2 <= s.len() {
                spec_add_tail(s, rv, spec_simplify_v(AstV::Plus(Box::new(x), Box::new(y))), p2)
            } else {
                Some((spec_simplify_v(AstV::Plus(Box::new(x), Box::new(y))), p2))
            },
            None => Some((x, p)),
        }
    } else if 0 <= p < s.len() && s[p] == '-' {
        match spec_parse_mult(s, rv, p + 1) {
            Some((y, p2)) => if p < p2 <= s.len() {
                spec_add_tail(s, rv, spec_simplify_v(AstV::Minus(Box::new(x), Box::new(y))), p2)
            } else {
                Some((spec_simplify_v(AstV::Minus(Box::new(x), Box::new(y))), p2))
            },
            None => Some((x, p)),
        }
    } else {
        Some((x, p))
    }
}

/// A multiplicative-level expression.
pub open spec fn spec_parse_mult(s: Seq<char>, rv: RiscVSpec, pos: int) -> Option<(AstV, int)>
    decreases s.len() - pos, 3int,
{
    match spec_parse_atom(s, rv, pos) {
        Some((x, p)) => if pos <= p <= s.len() {
            spec_mult_tail(s, rv, x, p)
        } else {
            Some((x, p))
        },
        None => None,
    }
}

/// The multiplicative-operator continuations after a first atom.
pub open spec fn spec_mult_tail(s: Seq<char>, rv: RiscVSpec, x: AstV, p: int) -> Option<
    (AstV, int),
>
    decreases s.len() - p, 2int,
{
    if 0 <= p < s.len() && s[p] == '*' {
        match spec_parse_atom(s, rv, p + 1) {
            Some((y, p2)) => if p < p2 <= s.len() {
                spec_mult_tail(s, rv, spec_simplify_v(AstV::Times(Box::new(x), Box::new(y))), p2)
            } else {
                Some((spec_simplify_v(AstV::Times(Box::new(x), Box::new(y))), p2))
            },
            None => Some((x, p)),
        }
    } else if 0 <= p < s.len() && s[p] == '/' {
        match spec_parse_atom(s, rv, p + 1) {
            Some((y, p2)) => if p < p2 <= s.len() {
                spec_mult_tail(s, rv, spec_simplify_v(AstV::Divide(Box::new(x), Box::new(y))), p2)
            } else {
                Some((spec_simplify_v(AstV::Divide(Box::new(x), Box::new(y))), p2))
            },
            None => Some((x, p)),
        }
    } else {
        Some((x, p))
    }
}

/// An atom: a parenthesized expression, a unary minus over a whole
/// expression, `$`, a character literal, an integer, or a non-register
/// identifier, each with surrounding whitespace.
pub open spec fn spec_parse_atom(s: Seq<char>, rv: RiscVSpec, pos: int) -> Option<(AstV, int)>
    decreases s.len() - pos, 1int,
{
    let p = spec_skip_white(s, pos);
    if p < pos || p >= s.len() {
        None
    } else if s[p] == '(' {
        match spec_parse_expr(s, rv, p + 1) {
            Some((e, p2)) => {
                let p3 = spec_skip_white(s, p2);
                if 0 <= p3 < s.len() && s[p3] == ')' {
                    Some((spec_simplify_v(e), spec_skip_white(s, p3 + 1)))
                } else {
                    None
                }
            },
            None => None,
        }
    } else if s[p] == '-' {
        match spec_parse_expr(s, rv, p + 1) {
            Some((e, p2)) => Some(
                (spec_simplify_v(AstV::Negation(Box::new(e))), spec_skip_white(s, p2)),
            ),
            None => None,
        }
    } else if s[p] == '$' {
        Some((AstV::PcValue, spec_skip_white(s, p + 1)))
    } else if s[p] == '\'' {
        match spec_char_byte(s, p + 1, '\'') {
            Some((v, p2)) => if 0 <= p2 < s.len() && s[p2] == '\'' {
                Some((AstV::Integer(v as u64), spec_skip_white(s, p2 + 1)))
            } else {
                None
            },
            None => None,
        }
    } else if '0' <= s[p] && s[p] <= '9' {
        match spec_parse_integer(s, p) {
            Some((v, p2)) => Some((AstV::Integer(v), spec_skip_white(s, p2))),
            None => None,
        }
    } else {
        match spec_scan_ident(s, p) {
            Some(e) => {
                let name = s.subrange(p, e);
                if assoc_contains(rv.register_name_lookup@, name) {
                    None
                } else {
                    Some((AstV::Identifier(name), spec_skip_white(s, e)))
                }
            },
            None => None,
        }
    }
}

/// One instruction argument: a register name, or an expression, wrapped in
/// an argument node.
/// The register reading of an argument at `p`: an identifier that is a
/// register name of the spec, as an argument-wrapped register node.
pub open spec fn spec_argument_reg(s: Seq<char>, rv: RiscVSpec, p: int) -> Option<(AstV, int)> {
    match spec_scan_ident(s, p) {
        Some(e) => {
            let name = s.subrange(p, e);
            if assoc_contains(rv.register_name_lookup@, name) {
                Some(
                    (
                        AstV::Argument(
                            Box::new(
                                AstV::Register(
                                    regs_get(
                                        rv.registers@,
                                        assoc_get(rv.register_name_lookup@, name),
                                    ).index,
                                ),
                            ),
                        ),
                        spec_skip_white(s, e),
                    ),
                )
            } else {
                None
            }
        },
        None => None,
    }
}

pub open spec fn spec_parse_argument(s: Seq<char>, rv: RiscVSpec, pos: int) -> Option<
    (AstV, int),
>
    decreases s.len() - pos, 8int,
{
    let p = spec_skip_white(s, pos);
    if p < pos || p > s.len() {
        None
    } else {
        match spec_argument_reg(s, rv, p) {
            Some(v) => Some(v),
            None => match spec_parse_expr(s, rv, p) {
                Some((e, p2)) => Some((AstV::Argument(Box::new(e)), spec_skip_white(s, p2))),
                None => None,
            },
        }
    }
}

/// The comma-separated argument continuations of an instruction.
pub open spec fn spec_args_tail(
    s: Seq<char>,
    rv: RiscVSpec,
    name: Seq<char>,
    args: Seq<AstV>,
    p: int,
) -> Option<(AstV, int)>
    decreases s.len() - p,
{
    if 0 <= p < s.len() && s[p] == ',' {
        match spec_parse_argument(s, rv, p + 1) {
            Some((an, pn)) => if p < pn <= s.len() {
                spec_args_tail(s, rv, name, args.push(an), pn)
            } else {
                Some((AstV::Instruction(name, args.push(an)), pn))
            },
            None => None,
        }
    } else {
        Some((AstV::Instruction(name, args), p))
    }
}

/// One statement: a label, or an instruction with comma-separated
/// arguments. A name that is a register name is neither.
pub open spec fn spec_parse_statement(s: Seq<char>, rv: RiscVSpec, pos: int) -> Option<
    (AstV, int),
> {
    let p = spec_skip_white(s, pos);
    match spec_scan_ident(s, p) {
        None => None,
        Some(e) => {
            let name = s.subrange(p, e);
            if assoc_contains(rv.register_name_lookup@, name) {
                None
            } else {
                let pl = spec_skip_white(s, e);
                if 0 <= pl < s.len() && s[pl] == ':' {
                    Some((AstV::Label(name), pl + 1))
                } else {
                    let pw = spec_skip_white(s, e);
                    if pw > e {
                        match spec_parse_argument(s, rv, pw) {
                            Some((a0, pa)) => spec_args_tail(s, rv, name, seq![a0], pa),
                            None => Some((AstV::Instruction(name, Seq::empty()), pw)),
                        }
                    } else {
                        Some((AstV::Instruction(name, Seq::empty()), e))
                    }
                }
            }
        },
    }
}

/// The statement sequence of a whole source text from `pos` on.
pub open spec fn spec_top(s: Seq<char>, rv: RiscVSpec, pos: int) -> Option<Seq<AstV>>
    decreases s.len() - pos,
{
    let p = spec_skip_white_nl(s, pos);
    if p >= s.len() {
        Some(Seq::empty())
    } else {
        match spec_parse_statement(s, rv, p) {
            Some((st, p2)) => if pos < p2 <= s.len() {
                match spec_top(s, rv, p2) {
                    Some(rest) => Some(seq![st] + rest),
                    None => None,
                }
            } else {
                None
            },
            None => None,
        }
    }
}

/// The parse of a whole source text: the statements under a root, or
/// nothing when the text is not ASCII or a statement cannot be read.
pub open spec fn spec_parse(s: Seq<char>, rv: RiscVSpec) -> Option<AstV> {
    if !vstd::utf8::is_ascii_chars(s) {
        None
    } else {
        match spec_top(s, rv, 0) {
            Some(stmts) => Some(AstV::Root(stmts)),
            None => None,
        }
    }
}

// ------------------------------------------------------------------
// The parser
// ------------------------------------------------------------------
/// Whether a character starts an identifier.
fn is_ident_start(c: char) -> (r: bool)
    ensures
        r == ident_start_c(c),
{
    ('A' <= c && c <= 'Z') || ('a' <= c && c <= 'z') || c == '.' || c == '_'
}

/// Whether a character continues an identifier.
fn is_ident_char(c: char) -> (r: bool)
    ensures
        r == ident_char_c(c),
{
    ('A' <= c && c <= 'Z') || ('a' <= c && c <= 'z') || ('0' <= c && c <= '9') || c == '.' || c
        == '_'
}

/// Whether a character belongs to the digit class of a radix.
fn is_digit_class(c: char, radix: u32) -> (r: bool)
    requires
        radix == 2 || radix == 8 || radix == 10 || radix == 16,
    ensures
        r == digit_class_c(c, radix as int),
{
    if c == '_' {
        true
    } else if radix == 16 {
        ('0' <= c && c <= '9') || ('a' <= c && c <= 'f') || ('A' <= c && c <= 'F')
    } else if radix == 10 {
        '0' <= c && c <= '9'
    } else if radix == 8 {
        '0' <= c && c <= '7'
    } else {
        c == '0' || c == '1'
    }
}

/// Consumes whitespace; see [`spec_skip_white`].
fn skip_white(s: &str, n: usize, pos: usize) -> (r: usize)
    requires
        vstd::string::is_ascii(s),
        n == s@.len(),
        pos <= n,
    ensures
        pos <= r <= n,
        r == spec_skip_white(s@, pos as int),
    decreases n - pos,
{
    if pos >= n {
        return pos;
    }
    let c = s.get_char(pos);
    if c == ' ' || c == '\r' || c == '\t' {
        skip_white(s, n, pos + 1)
    } else if c == ';' && pos + 1 < n && s.get_char(pos + 1) != '\n' {
        let mut p = pos + 1;
        #[verifier::loop_isolation(false)]
        while p < n && s.get_char(p) != '\n'
            invariant
                pos < p <= n,
                spec_skip_comment(s@, pos + 1) == spec_skip_comment(s@, p as int),
            decreases n - p,
        {
            p = p + 1;
        }
        p
    } else if c == '\\' && pos + 1 < n && s.get_char(pos + 1) == '\n' {
        skip_white(s, n, pos + 2)
    } else {
        pos
    }
}

/// Consumes whitespace and newlines; see [`spec_skip_white_nl`].
fn skip_white_nl(s: &str, n: usize, pos: usize) -> (r: usize)
    requires
        vstd::string::is_ascii(s),
        n == s@.len(),
        pos <= n,
    ensures
        pos <= r <= n,
        r == spec_skip_white_nl(s@, pos as int),
    decreases n - pos,
{
    let p = skip_white(s, n, pos);
    if p < n && s.get_char(p) == '\n' {
        skip_white_nl(s, n, p + 1)
    } else {
        p
    }
}

/// Scans an identifier starting at `pos`; see [`spec_scan_ident`].
fn scan_ident(s: &str, n: usize, pos: usize) -> (r: Option<usize>)
    requires
        vstd::string::is_ascii(s),
        n == s@.len(),
        pos <= n,
    ensures
        r matches Some(e) ==> pos < e <= n && ident_seq(s@.subrange(pos as int, e as int))
            && spec_scan_ident(s@, pos as int) == Some(e as int),
        r is None ==> spec_scan_ident(s@, pos as int) is None,
{
    if pos >= n || !is_ident_start(s.get_char(pos)) {
        return None;
    }
    let mut e = pos + 1;
    #[verifier::loop_isolation(false)]
    while e < n && is_ident_char(s.get_char(e))
        invariant
            pos < e <= n,
            ident_start_c(s@[pos as int]),
            forall|i: int| pos < i < e ==> ident_char_c(#[trigger] s@[i]),
            spec_ident_end(s@, pos + 1) == spec_ident_end(s@, e as int),
        decreases n - e,
    {
        e = e + 1;
    }
    proof {
        let sub = s@.subrange(pos as int, e as int);
        assert(sub[0] == s@[pos as int]);
        assert forall|i: int| 1 <= i < sub.len() implies ident_char_c(#[trigger] sub[i]) by {
            assert(sub[i] == s@[pos + i]);
        }
    }
    Some(e)
}

/// Scans a run of digit-class characters; see [`spec_digit_run`].
fn scan_digit_run(s: &str, n: usize, pos: usize, radix: u32) -> (r: usize)
    requires
        vstd::string::is_ascii(s),
        n == s@.len(),
        pos <= n,
        radix == 2 || radix == 8 || radix == 10 || radix == 16,
    ensures
        pos <= r <= n,
        r == spec_digit_run(s@, pos as int, radix as int),
{
    let mut e = pos;
    #[verifier::loop_isolation(false)]
    while e < n && is_digit_class(s.get_char(e), radix)
        invariant
            pos <= e <= n,
            spec_digit_run(s@, pos as int, radix as int) == spec_digit_run(
                s@,
                e as int,
                radix as int,
            ),
        decreases n - e,
    {
        e = e + 1;
    }
    e
}

/// Parses an integer literal; see [`spec_parse_integer`].
fn parse_integer(s: &str, n: usize, pos: usize) -> (r: Option<(Node, usize)>)
    requires
        vstd::string::is_ascii(s),
        n == s@.len(),
        pos <= n,
    ensures
        r matches Some(p) ==> pos < p.1 <= n && (spec_parse_integer(s@, pos as int) matches Some(
            v,
        ) && p.0 == Node::Integer(v.0) && p.1 == v.1),
        r is None ==> spec_parse_integer(s@, pos as int) is None,
{
    if pos >= n {
        return None;
    }
    // radix prefixes
    if pos + 1 < n && s.get_char(pos) == '0' {
        let p1 = s.get_char(pos + 1);
        let radix: u32 = if p1 == 'x' {
            16
        } else if p1 == 'o' {
            8
        } else if p1 == 'b' {
            2
        } else if p1 == 'd' {
            10
        } else {
            0
        };
        if radix != 0 {
            let e = scan_digit_run(s, n, pos + 2, radix);
            if e > pos + 2 {
                let digits = s.substring_ascii(pos + 2, e);
                match Node::parse_u64(digits, radix) {
                    Some(node) => {
                        return Some((node, e));
                    },
                    None => {
                        return None;
                    },
                }
            }
        }
    }
    // bare decimal digits
    let e = scan_digit_run(s, n, pos, 10);
    if e > pos {
        let digits = s.substring_ascii(pos, e);
        match Node::parse_u64(digits, 10) {
            Some(node) => Some((node, e)),
            None => None,
        }
    } else {
        None
    }
}

/// Parses one character of a character literal; see [`spec_char_byte`].
fn parse_char_byte(s: &str, n: usize, pos: usize, quote: char) -> (r: Option<(u8, usize)>)
    requires
        vstd::string::is_ascii(s),
        n == s@.len(),
        pos <= n,
    ensures
        r matches Some(p) ==> pos < p.1 <= n && spec_char_byte(s@, pos as int, quote) == Some(
            (p.0, p.1 as int),
        ),
        r is None ==> spec_char_byte(s@, pos as int, quote) is None,
{
    if pos >= n {
        return None;
    }
    let c = s.get_char(pos);
    if c == '\\' {
        if n - pos < 2 {
            return None;
        }
        let e = s.get_char(pos + 1);
        if e == 'n' {
            Some((10, pos + 2))
        } else if e == 't' {
            Some((9, pos + 2))
        } else if e == '\\' {
            Some((92, pos + 2))
        } else if e == 'r' {
            Some((13, pos + 2))
        } else if e == 'x' {
            if n - pos >= 4 {
                let h = s.substring_ascii(pos + 2, pos + 4);
                match Node::parse_u64(h, 16) {
                    Some(Node::Integer(v)) => {
                        if v <= 255 {
                            Some(((v as u8), pos + 4))
                        } else {
                            None
                        }
                    },
                    _ => None,
                }
            } else {
                None
            }
        } else {
            None
        }
    } else if c == quote || c == '\n' {
        None
    } else {
        Some((c as u8, pos + 1))
    }
}

/// Parses a full expression; see [`spec_parse_expr`].
fn parse_expression(s: &str, n: usize, rv: &RiscVSpec, pos: usize) -> (r: Option<(Node, usize)>)
    requires
        vstd::string::is_ascii(s),
        n == s@.len(),
        pos <= n,
        rv.wf(),
    ensures
        r matches Some(p) ==> pos < p.1 <= n && (spec_parse_expr(s@, *rv, pos as int) matches Some(
            v,
        ) && view_node(p.0) == v.0 && p.1 == v.1),
        r is None ==> spec_parse_expr(s@, *rv, pos as int) is None,
    decreases n - pos, 7int,
{
    let (x0, p0) = match parse_additive(s, n, rv, pos) {
        Some(v) => v,
        None => {
            return None;
        },
    };
    let mut x = x0;
    let mut p = p0;
    #[verifier::loop_isolation(false)]
    loop
        invariant
            rv.wf(),
            pos < p <= n,
            spec_parse_expr(s@, *rv, pos as int) == spec_shift_tail(
                s@,
                *rv,
                view_node(x),
                p as int,
            ),
        decreases n - p,
    {
        if n - p >= 3 && s.get_char(p) == '>' && s.get_char(p + 1) == '>' && s.get_char(p + 2)
            == '>' {
            match parse_additive(s, n, rv, p + 3) {
                Some((y, p2)) => {
                    let folded = Node::Ashr(Box::new(x), Box::new(y)).simplify();
                    proof {
                        crate::ast::lemma_view_simplify(
                            Node::Ashr(Box::new(x), Box::new(y)),
                        );
                    }
                    x = folded;
                    p = p2;
                },
                None => {
                    return Some((x, p));
                },
            }
        } else if n - p >= 2 && s.get_char(p) == '<' && s.get_char(p + 1) == '<' {
            match parse_additive(s, n, rv, p + 2) {
                Some((y, p2)) => {
                    let folded = Node::Shl(Box::new(x), Box::new(y)).simplify();
                    proof {
                        crate::ast::lemma_view_simplify(Node::Shl(Box::new(x), Box::new(y)));
                    }
                    x = folded;
                    p = p2;
                },
                None => {
                    return Some((x, p));
                },
            }
        } else if n - p >= 2 && s.get_char(p) == '>' && s.get_char(p + 1) == '>' {
            match parse_additive(s, n, rv, p + 2) {
                Some((y, p2)) => {
                    let folded = Node::Shr(Box::new(x), Box::new(y)).simplify();
                    proof {
                        crate::ast::lemma_view_simplify(Node::Shr(Box::new(x), Box::new(y)));
                    }
                    x = folded;
                    p = p2;
                },
                None => {
                    return Some((x, p));
                },
            }
        } else {
            return Some((x, p));
        }
    }
}

/// Parses an additive-level expression; see [`spec_parse_add`].
fn parse_additive(s: &str, n: usize, rv: &RiscVSpec, pos: usize) -> (r: Option<(Node, usize)>)
    requires
        vstd::string::is_ascii(s),
        n == s@.len(),
        pos <= n,
        rv.wf(),
    ensures
        r matches Some(p) ==> pos < p.1 <= n && (spec_parse_add(s@, *rv, pos as int) matches Some(
            v,
        ) && view_node(p.0) == v.0 && p.1 == v.1),
        r is None ==> spec_parse_add(s@, *rv, pos as int) is None,
    decreases n - pos, 5int,
{
    let (x0, p0) = match parse_multiplicative(s, n, rv, pos) {
        Some(v) => v,
        None => {
            return None;
        },
    };
    let mut x = x0;
    let mut p = p0;
    #[verifier::loop_isolation(false)]
    loop
        invariant
            rv.wf(),
            pos < p <= n,
            spec_parse_add(s@, *rv, pos as int) == spec_add_tail(s@, *rv, view_node(x), p as int),
        decreases n - p,
    {
        if p < n && s.get_char(p) == '+' {
            match parse_multiplicative(s, n, rv, p + 1) {
                Some((y, p2)) => {
                    let folded = Node::Plus(Box::new(x), Box::new(y)).simplify();
                    proof {
                        crate::ast::lemma_view_simplify(Node::Plus(Box::new(x), Box::new(y)));
                    }
                    x = folded;
                    p = p2;
                },
                None => {
                    return Some((x, p));
                },
            }
        } else if p < n && s.get_char(p) == '-' {
            match parse_multiplicative(s, n, rv, p + 1) {
                Some((y, p2)) => {
                    let folded = Node::Minus(Box::new(x), Box::new(y)).simplify();
                    proof {
                        crate::ast::lemma_view_simplify(Node::Minus(Box::new(x), Box::new(y)));
                    }
                    x = folded;
                    p = p2;
                },
                None => {
                    return Some((x, p));
                },
            }
        } else {
            return Some((x, p));
        }
    }
}

/// Parses a multiplicative-level expression; see [`spec_parse_mult`].
fn parse_multiplicative(s: &str, n: usize, rv: &RiscVSpec, pos: usize) -> (r: Option<
    (Node, usize),
>)
    requires
        vstd::string::is_ascii(s),
        n == s@.len(),
        pos <= n,
        rv.wf(),
    ensures
        r matches Some(p) ==> pos < p.1 <= n && (spec_parse_mult(s@, *rv, pos as int) matches Some(
            v,
        ) && view_node(p.0) == v.0 && p.1 == v.1),
        r is None ==> spec_parse_mult(s@, *rv, pos as int) is None,
    decreases n - pos, 3int,
{
    let (x0, p0) = match parse_atom(s, n, rv, pos) {
        Some(v) => v,
        None => {
            return None;
        },
    };
    let mut x = x0;
    let mut p = p0;
    #[verifier::loop_isolation(false)]
    loop
        invariant
            rv.wf(),
            pos < p <= n,
            spec_parse_mult(s@, *rv, pos as int) == spec_mult_tail(
                s@,
                *rv,
                view_node(x),
                p as int,
            ),
        decreases n - p,
    {
        if p < n && s.get_char(p) == '*' {
            match parse_atom(s, n, rv, p + 1) {
                Some((y, p2)) => {
                    let folded = Node::Times(Box::new(x), Box::new(y)).simplify();
                    proof {
                        crate::ast::lemma_view_simplify(Node::Times(Box::new(x), Box::new(y)));
                    }
                    x = folded;
                    p = p2;
                },
                None => {
                    return Some((x, p));
                },
            }
        } else if p < n && s.get_char(p) == '/' {
            match parse_atom(s, n, rv, p + 1) {
                Some((y, p2)) => {
                    let folded = Node::Divide(Box::new(x), Box::new(y)).simplify();
                    proof {
                        crate::ast::lemma_view_simplify(Node::Divide(Box::new(x), Box::new(y)));
                    }
                    x = folded;
                    p = p2;
                },
                None => {
                    return Some((x, p));
                },
            }
        } else {
            return Some((x, p));
        }
    }
}

/// Parses an atom; see [`spec_parse_atom`].
fn parse_atom(s: &str, n: usize, rv: &RiscVSpec, pos: usize) -> (r: Option<(Node, usize)>)
    requires
        vstd::string::is_ascii(s),
        n == s@.len(),
        pos <= n,
        rv.wf(),
    ensures
        r matches Some(p) ==> pos < p.1 <= n && (spec_parse_atom(s@, *rv, pos as int) matches Some(
            v,
        ) && view_node(p.0) == v.0 && p.1 == v.1),
        r is None ==> spec_parse_atom(s@, *rv, pos as int) is None,
    decreases n - pos, 1int,
{
    let p = skip_white(s, n, pos);
    if p >= n {
        return None;
    }
    let c = s.get_char(p);
    if c == '(' {
        // parenthesized expression
        let (e, p2) = match parse_expression(s, n, rv, p + 1) {
            Some(v) => v,
            None => {
                return None;
            },
        };
        let p3 = skip_white(s, n, p2);
        if p3 < n && s.get_char(p3) == ')' {
            let p4 = skip_white(s, n, p3 + 1);
            proof {
                crate::ast::lemma_view_simplify(e);
            }
            let folded = e.simplify();
            Some((folded, p4))
        } else {
            None
        }
    } else if c == '-' {
        // unary minus over a whole expression
        let (e, p2) = match parse_expression(s, n, rv, p + 1) {
            Some(v) => v,
            None => {
                return None;
            },
        };
        let p3 = skip_white(s, n, p2);
        let folded = Node::Negation(Box::new(e)).simplify();
        proof {
            crate::ast::lemma_view_simplify(Node::Negation(Box::new(e)));
        }
        Some((folded, p3))
    } else if c == '$' {
        let p2 = skip_white(s, n, p + 1);
        Some((Node::PcValue, p2))
    } else if c == '\'' {
        // character literal
        let (v, p2) = match parse_char_byte(s, n, p + 1, '\'') {
            Some(x) => x,
            None => {
                return None;
            },
        };
        if p2 < n && s.get_char(p2) == '\'' {
            let p3 = skip_white(s, n, p2 + 1);
            Some((Node::Integer(v as u64), p3))
        } else {
            None
        }
    } else if '0' <= c && c <= '9' {
        let (node, p2) = match parse_integer(s, n, p) {
            Some(v) => v,
            None => {
                return None;
            },
        };
        let p3 = skip_white(s, n, p2);
        Some((node, p3))
    } else {
        // a non-register identifier
        let e = match scan_ident(s, n, p) {
            Some(e) => e,
            None => {
                return None;
            },
        };
        let name = s.substring_ascii(p, e);
        if rv.get_register_by_name(name).is_some() {
            return None;
        }
        let p2 = skip_white(s, n, e);
        Some((Node::Identifier(name.to_owned()), p2))
    }
}

/// Parses one instruction argument; see [`spec_parse_argument`].
fn parse_argument(s: &str, n: usize, rv: &RiscVSpec, pos: usize) -> (r: Option<(Node, usize)>)
    requires
        vstd::string::is_ascii(s),
        n == s@.len(),
        pos <= n,
        rv.wf(),
    ensures
        r matches Some(p) ==> pos < p.1 <= n && p.0 is Argument && (spec_parse_argument(
            s@,
            *rv,
            pos as int,
        ) matches Some(v) && view_node(p.0) == v.0 && p.1 == v.1),
        r is None ==> spec_parse_argument(s@, *rv, pos as int) is None,
{
    let p = skip_white(s, n, pos);
    match scan_ident(s, n, p) {
        Some(e) => {
            let name = s.substring_ascii(p, e);
            match Node::parse_register(rv, name) {
                Ok(regnode) => {
                    let p2 = skip_white(s, n, e);
                    let rnode = Node::Argument(Box::new(regnode));
                    proof {
                        assert(spec_argument_reg(s@, *rv, p as int) matches Some(v) && v.1 == p2);
                        let ghost idx = regs_get(
                            rv.registers@,
                            assoc_get(
                                rv.register_name_lookup@,
                                s@.subrange(p as int, e as int),
                            ),
                        ).index;
                        assert(name@ == s@.subrange(p as int, e as int));
                        assert(regnode == Node::Register(idx));
                        assert(view_node(regnode) == AstV::Register(idx));
                        assert(view_node(rnode) == AstV::Argument(
                            Box::new(AstV::Register(idx)),
                        ));
                        assert(spec_argument_reg(s@, *rv, p as int) matches Some(v) && view_node(
                            rnode,
                        ) == v.0);
                        assert(spec_parse_argument(s@, *rv, pos as int) == spec_argument_reg(
                            s@,
                            *rv,
                            p as int,
                        ));
                    }
                    Some((rnode, p2))
                },
                Err(_) => parse_argument_expr(s, n, rv, pos, p),
            }
        },
        None => parse_argument_expr(s, n, rv, pos, p),
    }
}

/// The expression reading of an argument, taken when no register name
/// starts at the argument position.
fn parse_argument_expr(s: &str, n: usize, rv: &RiscVSpec, pos: usize, p: usize) -> (r: Option<
    (Node, usize),
>)
    requires
        vstd::string::is_ascii(s),
        n == s@.len(),
        pos <= p <= n,
        rv.wf(),
        p == spec_skip_white(s@, pos as int),
        spec_argument_reg(s@, *rv, p as int) is None,
    ensures
        r matches Some(q) ==> pos < q.1 <= n && q.0 is Argument && (spec_parse_argument(
            s@,
            *rv,
            pos as int,
        ) matches Some(v) && view_node(q.0) == v.0 && q.1 == v.1),
        r is None ==> spec_parse_argument(s@, *rv, pos as int) is None,
{
    match parse_expression(s, n, rv, p) {
        Some((e, p2)) => {
            let p3 = skip_white(s, n, p2);
            Some((Node::Argument(Box::new(e)), p3))
        },
        None => None,
    }
}

/// Parses one statement; see [`spec_parse_statement`].
#[verifier::rlimit(80)]
fn parse_statement(s: &str, n: usize, rv: &RiscVSpec, pos: usize) -> (r: Option<(Node, usize)>)
    requires
        vstd::string::is_ascii(s),
        n == s@.len(),
        pos <= n,
        rv.wf(),
    ensures
        r matches Some(p) ==> pos < p.1 <= n && stmt_ok(p.0, *rv) && (spec_parse_statement(
            s@,
            *rv,
            pos as int,
        ) matches Some(v) && view_node(p.0) == v.0 && p.1 == v.1),
        r is None ==> spec_parse_statement(s@, *rv, pos as int) is None,
{
    let p = skip_white(s, n, pos);
    let e = match scan_ident(s, n, p) {
        Some(e) => e,
        None => {
            return None;
        },
    };
    let name = s.substring_ascii(p, e);
    if rv.get_register_by_name(name).is_some() {
        // a register name can be neither a label nor a mnemonic
        return None;
    }
    // label?
    let pl = skip_white(s, n, e);
    if pl < n && s.get_char(pl) == ':' {
        return Some((Node::Label(name.to_owned()), pl + 1));
    }
    // instruction
    let mnemonic = name.to_owned();
    let ghost namev = name@;
    // a first argument needs whitespace after the mnemonic
    let pw = skip_white(s, n, e);
    if pw > e {
        match parse_argument(s, n, rv, pw) {
            Some((a0, pa)) => {
                let ghost a0v = view_node(a0);
                let mut args: Vec<Node> = Vec::new();
                args.push(a0);
                proof {
                    crate::ast::lemma_view_nodes_index(args@);
                    assert(crate::ast::view_nodes(args@) =~= seq![a0v]);
                }
                let mut p2 = pa;
                #[verifier::loop_isolation(false)]
                loop
                    invariant
                        rv.wf(),
                        pos < p2 <= n,
                        args@.len() >= 1,
                        forall|i: int| 0 <= i < args@.len() ==> (#[trigger] args@[i]) is Argument,
                        spec_parse_statement(s@, *rv, pos as int) == spec_args_tail(
                            s@,
                            *rv,
                            namev,
                            crate::ast::view_nodes(args@),
                            p2 as int,
                        ),
                    decreases n - p2,
                {
                    proof {
                        crate::ast::lemma_view_nodes_index(args@);
                    }
                    if p2 < n && s.get_char(p2) == ',' {
                        match parse_argument(s, n, rv, p2 + 1) {
                            Some((an, pn)) => {
                                let ghost argsold = args@;
                                args.push(an);
                                proof {
                                    crate::ast::lemma_view_nodes_push(argsold, an);
                                }
                                p2 = pn;
                            },
                            None => {
                                return None;
                            },
                        }
                    } else {
                        return Some((Node::Instruction(mnemonic, args), p2));
                    }
                }
            },
            None => {
                let args: Vec<Node> = Vec::new();
                proof {
                    assert(crate::ast::view_nodes(args@) =~= Seq::<AstV>::empty());
                }
                return Some((Node::Instruction(mnemonic, args), pw));
            },
        }
    }
    let args: Vec<Node> = Vec::new();
    proof {
        assert(crate::ast::view_nodes(args@) =~= Seq::<AstV>::empty());
    }
    Some((Node::Instruction(mnemonic, args), e))
}

/// Computes the one-based line and column of a position.
fn line_col(s: &str, n: usize, pos: usize) -> (r: (usize, usize))
    requires
        vstd::string::is_ascii(s),
        n == s@.len(),
        pos <= n,
{
    let mut line: usize = 1;
    let mut col: usize = 1;
    let mut i: usize = 0;
    while i < pos
        invariant
            vstd::string::is_ascii(s),
            n == s@.len(),
            pos <= n,
            0 <= i <= pos,
            1 <= line,
            1 <= col,
        decreases pos - i,
    {
        if s.get_char(i) == '\n' {
            if line < usize::MAX {
                line = line + 1;
            }
            col = 1;
        } else {
            if col < usize::MAX {
                col = col + 1;
            }
        }
        i = i + 1;
    }
    (line, col)
}

/// Prefixes a statement-sequence outcome, errors carried through.
pub open spec fn spec_top_prepend(prefix: Seq<AstV>, o: Option<Seq<AstV>>) -> Option<Seq<AstV>> {
    match o {
        Some(rest) => Some(prefix + rest),
        None => None,
    }
}

/// Parses a whole source text into an AST: exactly the statements that
/// [`spec_parse`] yields, under a root, or a positional error exactly when
/// it yields nothing (the text is not ASCII, or a statement cannot be
/// read).
pub fn ast_from_str(s: &str, rv: &RiscVSpec) -> (r: Result<Node, ParseError>)
    requires
        rv.wf(),
    ensures
        r matches Ok(ast) ==> root_ok(ast, *rv) && (spec_parse(s@, *rv) matches Some(v)
            && view_node(ast) == v),
        r is Err ==> spec_parse(s@, *rv) is None,
{
    if !s.is_ascii() {
        return Err(ParseError { line: 1, col: 1, expected: "ASCII source" });
    }
    let n = s.unicode_len();
    let mut stmts: Vec<Node> = Vec::new();
    let mut pos: usize = 0;
    proof {
        assert(crate::ast::view_nodes(stmts@) =~= Seq::<AstV>::empty());
        match spec_top(s@, *rv, 0) {
            Some(rest) => {
                assert(Seq::<AstV>::empty() + rest =~= rest);
            },
            None => {},
        }
    }
    #[verifier::loop_isolation(false)]
    loop
        invariant
            rv.wf(),
            pos <= n,
            forall|i: int| 0 <= i < stmts@.len() ==> stmt_ok(#[trigger] stmts@[i], *rv),
            spec_top(s@, *rv, 0) == spec_top_prepend(
                crate::ast::view_nodes(stmts@),
                spec_top(s@, *rv, pos as int),
            ),
        decreases n - pos,
    {
        let p = skip_white_nl(s, n, pos);
        if p >= n {
            proof {
                match spec_top(s@, *rv, 0) {
                    Some(all) => {
                        assert(crate::ast::view_nodes(stmts@) + Seq::<AstV>::empty()
                            =~= crate::ast::view_nodes(stmts@));
                    },
                    None => {},
                }
            }
            return Ok(Node::Root(stmts));
        }
        match parse_statement(s, n, rv, p) {
            Some((node, p2)) => {
                let ghost stmtsold = stmts@;
                let ghost prev = crate::ast::view_nodes(stmts@);
                let ghost stv = view_node(node);
                stmts.push(node);
                proof {
                    crate::ast::lemma_view_nodes_push(stmtsold, node);
                    match spec_top(s@, *rv, p2 as int) {
                        Some(rest) => {
                            assert(prev + (seq![stv] + rest) =~= prev.push(stv) + rest);
                        },
                        None => {},
                    }
                }
                pos = p2;
            },
            None => {
                let (line, col) = line_col(s, n, p);
                return Err(ParseError { line, col, expected: "label or instruction" });
            },
        }
    }
}

} // verus!
