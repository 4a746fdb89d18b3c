//! The abstract syntax tree of assembly source, together with the
//! constant-folding reducers that the grammar and the emitter apply.

use crate::model::{assoc_contains, assoc_get, regs_get, RiscVSpec};
use vstd::prelude::*;
use vstd::string::StringSliceAdditionalSpecFns;
use vstd::wrapping::u64_specs;

verus! {

/// A node of the assembly AST.
#[derive(Debug, PartialEq)]
pub enum Node {
    Identifier(String),
    Integer(u64),
    StringLiteral(Vec<u8>),
    Register(i32),
    PcValue,
    Negation(Box<Node>),
    Plus(Box<Node>, Box<Node>),
    Minus(Box<Node>, Box<Node>),
    Times(Box<Node>, Box<Node>),
    Divide(Box<Node>, Box<Node>),
    Shl(Box<Node>, Box<Node>),
    Shr(Box<Node>, Box<Node>),
    Ashr(Box<Node>, Box<Node>),
    Label(String),
    Argument(Box<Node>),
    Instruction(String, Vec<Node>),
    Root(Vec<Node>),
}

// ------------------------------------------------------------------
// Integer literals
// ------------------------------------------------------------------
/// The numeric value of one digit character: `0-9`, then `a-z` and `A-Z`
/// as 10 upward; any other character gets a sentinel above every radix.
pub open spec fn digit_val_c(c: char) -> int {
    if 48 <= c as int && c as int <= 57 {
        c as int - 48
    } else if 97 <= c as int && c as int <= 122 {
        c as int - 87
    } else if 65 <= c as int && c as int <= 90 {
        c as int - 55
    } else {
        99
    }
}

/// The character sequence with every underscore removed.
pub open spec fn strip_c(s: Seq<char>) -> Seq<char>
    decreases s.len(),
{
    if s.len() == 0 {
        Seq::empty()
    } else if s.last() == '_' {
        strip_c(s.drop_last())
    } else {
        strip_c(s.drop_last()).push(s.last())
    }
}

/// A valid integer-literal digit section: every character is an underscore
/// or a digit below the radix, and at least one real digit is present.
pub open spec fn valid_int_literal_c(s: Seq<char>, radix: int) -> bool {
    &&& strip_c(s).len() >= 1
    &&& forall|i: int| 0 <= i < s.len() ==> s[i] == '_' || digit_val_c(#[trigger] s[i]) < radix
}

/// The value of a decimal digit character sequence read most-significant
/// first.
pub open spec fn digits_val_c(s: Seq<char>, radix: int) -> int
    decreases s.len(),
{
    if s.len() == 0 {
        0
    } else {
        digits_val_c(s.drop_last(), radix) * radix + digit_val_c(s.last())
    }
}

/// The digit section of a decimal integer string: everything after an
/// optional leading sign.
pub open spec fn int_digits_c(s: Seq<char>) -> Seq<char> {
    if s.len() > 0 && (s[0] == '+' || s[0] == '-') {
        s.drop_first()
    } else {
        s
    }
}

/// The string starts with a minus sign.
pub open spec fn int_negative_c(s: Seq<char>) -> bool {
    s.len() > 0 && s[0] == '-'
}

/// A non-empty run of decimal digit characters.
pub open spec fn valid_dec_c(s: Seq<char>) -> bool {
    s.len() >= 1 && forall|i: int| 0 <= i < s.len() ==> digit_val_c(#[trigger] s[i]) < 10
}

/// The signed value of a decimal integer string.
pub open spec fn i32_of_chars(s: Seq<char>) -> int {
    if int_negative_c(s) {
        -digits_val_c(int_digits_c(s), 10)
    } else {
        digits_val_c(int_digits_c(s), 10)
    }
}

/// Digit values never go below zero, so neither does a digit string's
/// value.
proof fn lemma_digits_val_c_nonneg(s: Seq<char>, radix: int)
    requires
        radix >= 1,
    ensures
        digits_val_c(s, radix) >= 0,
    decreases s.len(),
{
    if s.len() > 0 {
        lemma_digits_val_c_nonneg(s.drop_last(), radix);
        assert(digits_val_c(s.drop_last(), radix) * radix >= 0) by (nonlinear_arith)
            requires
                digits_val_c(s.drop_last(), radix) >= 0 && radix >= 1,
        ;
    }
}

/// The value of a digit character string never shrinks as it grows to the
/// right.
proof fn lemma_digits_val_c_prefix(s: Seq<char>, i: int, radix: int)
    requires
        0 <= i <= s.len(),
        radix >= 1,
    ensures
        digits_val_c(s.take(i), radix) <= digits_val_c(s, radix),
    decreases s.len() - i,
{
    if i < s.len() {
        lemma_digits_val_c_prefix(s, i + 1, radix);
        assert(s.take(i + 1).drop_last() =~= s.take(i));
        let v = digits_val_c(s.take(i), radix);
        lemma_digits_val_c_nonneg(s.take(i), radix);
        assert(v * radix >= v) by (nonlinear_arith)
            requires
                v >= 0 && radix >= 1,
        ;
    } else {
        assert(s.take(i) =~= s);
    }
}

/// The value of a stripped digit string never shrinks as the string grows
/// to the right.
proof fn lemma_strip_val_c_prefix(s: Seq<char>, i: int, radix: int)
    requires
        0 <= i <= s.len(),
        radix >= 1,
    ensures
        digits_val_c(strip_c(s.take(i)), radix) <= digits_val_c(strip_c(s), radix),
    decreases s.len() - i,
{
    if i < s.len() {
        lemma_strip_val_c_prefix(s, i + 1, radix);
        assert(s.take(i + 1).drop_last() =~= s.take(i));
        if s.take(i + 1).last() != '_' {
            let prev = strip_c(s.take(i));
            let last = s.take(i + 1).last();
            assert(strip_c(s.take(i + 1)) == prev.push(last));
            assert(prev.push(last).drop_last() =~= prev);
            assert(prev.push(last).last() == last);
            let v = digits_val_c(prev, radix);
            lemma_digits_val_c_nonneg(prev, radix);
            assert(v * radix >= v) by (nonlinear_arith)
                requires
                    v >= 0 && radix >= 1,
            ;
            assert(digits_val_c(strip_c(s.take(i + 1)), radix) == v * radix + digit_val_c(last));
        } else {
            assert(strip_c(s.take(i + 1)) == strip_c(s.take(i)));
        }
    } else {
        assert(s.take(i) =~= s);
    }
}

/// Recognizes an optional leading sign character: how many characters it
/// occupies and whether it is a minus.
fn sign_prefix(s: &str) -> (r: (usize, bool))
    requires
        vstd::string::is_ascii(s),
        s@.len() >= 1,
    ensures
        (r.0 == 1) == (s@[0] == '+' || s@[0] == '-'),
        (r.0 == 0) == !(s@[0] == '+' || s@[0] == '-'),
        r.1 == (s@[0] == '-'),
{
    let c0 = s.get_char(0);
    if c0 == '+' || c0 == '-' {
        (1, c0 == '-')
    } else {
        (0, false)
    }
}

/// Parses a decimal integer with an optional leading sign, as a register
/// index key demands: yields the value exactly when the digit section is a
/// non-empty run of decimal digits and the signed value fits in 32 bits.
pub fn parse_i32(s: &str) -> (r: Option<i32>)
    ensures
        (r is Some) <==> (valid_dec_c(int_digits_c(s@)) && -0x8000_0000 <= i32_of_chars(s@)
            <= 0x7fff_ffff),
        r matches Some(v) ==> v as int == i32_of_chars(s@),
{
    if !s.is_ascii() {
        proof {
            let bad = choose|i: int| 0 <= i < s@.len() && !('\0' <= #[trigger] s@[i] <= '\u{7f}');
            let ds0 = int_digits_c(s@);
            if s@.len() > 0 && (s@[0] == '+' || s@[0] == '-') {
                assert(bad >= 1);
                assert(ds0[bad - 1] == s@[bad]);
                assert(digit_val_c(ds0[bad - 1]) >= 10);
            } else {
                assert(ds0[bad] == s@[bad]);
                assert(digit_val_c(ds0[bad]) >= 10);
            }
            assert(!valid_dec_c(ds0));
        }
        return None;
    }
    let n = s.unicode_len();
    let mut start: usize = 0;
    let mut neg = false;
    if n > 0 {
        let (st, ng) = sign_prefix(s);
        start = st;
        neg = ng;
    }
    let ghost ds = int_digits_c(s@);
    proof {
        if start == 1 {
            assert(ds == s@.drop_first());
        } else {
            assert(start == 0);
            if n == 0 {
                assert(s@.len() == 0);
                assert(ds == s@);
            } else {
                assert(s@.len() > 0);
                assert(!(s@[0] == '+' || s@[0] == '-'));
                assert(ds == s@);
            }
        }
        assert(ds =~= s@.skip(start as int));
        assert(int_negative_c(s@) == neg);
    }
    if start == n {
        return None;
    }
    let mut acc: u64 = 0;
    let mut i: usize = start;
    #[verifier::loop_isolation(false)]
    while i < n
        invariant
            start <= i <= n,
            n == s@.len(),
            ds == s@.skip(start as int),
            forall|j: int| 0 <= j < i - start ==> digit_val_c(#[trigger] ds[j]) < 10,
            acc == digits_val_c(ds.take(i - start), 10),
        decreases n - i,
    {
        let c = s.get_char(i);
        proof {
            assert(ds[i - start] == s@[i as int]);
            assert(ds.take(i - start + 1).drop_last() =~= ds.take(i - start));
            assert(ds.take(i - start + 1).last() == ds[i - start]);
        }
        if c < '0' || c > '9' {
            proof {
                assert(digit_val_c(ds[i - start]) >= 10);
            }
            return None;
        }
        let d: u32 = c as u32 - 48;
        proof {
            assert(digit_val_c(ds[i - start]) == d as int);
        }
        if acc > (u64::MAX - d as u64) / 10 {
            proof {
                lemma_digits_val_c_nonneg(ds.take(i - start), 10);
                assert(acc * 10 + d > u64::MAX) by (nonlinear_arith)
                    requires
                        acc > (u64::MAX - d as u64) as int / 10 && acc >= 0 && 0 <= d,
                ;
                lemma_digits_val_c_prefix(ds, i - start + 1, 10);
            }
            return None;
        }
        proof {
            assert(acc * 10 <= u64::MAX - d) by (nonlinear_arith)
                requires
                    acc <= (u64::MAX - d as u64) as int / 10 && acc >= 0 && 0 <= d <= 9,
            ;
        }
        acc = acc * 10 + d as u64;
        i = i + 1;
    }
    proof {
        assert(ds.take(n - start) =~= ds);
    }
    if neg {
        if acc > 0x8000_0000 {
            return None;
        }
        Some((0i64 - acc as i64) as i32)
    } else {
        if acc > 0x7fff_ffff {
            return None;
        }
        Some(acc as i32)
    }
}

// ------------------------------------------------------------------
// Arithmetic helpers
// ------------------------------------------------------------------
/// Arithmetic (sign-extending) right shift of a 64-bit value read as
/// two's-complement, for shift amounts below 64.
pub open spec fn ashr64(a: u64, b: u64) -> u64 {
    if b == 0 {
        a
    } else if a >> 63 == 0 {
        a >> b
    } else {
        (a >> b) | (!0u64 << ((64 - b) as u64))
    }
}

impl Node {
    /// Parses an integer literal whose digit section is `s` (underscores
    /// permitted and stripped) in the given radix. Yields the integer node
    /// exactly when the section holds at least one digit, every digit is
    /// below the radix, and the value fits in 64 bits.
    pub fn parse_u64(s: &str, radix: u32) -> (r: Option<Self>)
        requires
            2 <= radix <= 36,
        ensures
            (r is Some) <==> (valid_int_literal_c(s@, radix as int) && digits_val_c(
                strip_c(s@),
                radix as int,
            ) <= u64::MAX),
            r matches Some(n) ==> n == Node::Integer(
                digits_val_c(strip_c(s@), radix as int) as u64,
            ),
    {
        if !s.is_ascii() {
            proof {
                let bad = choose|i: int|
                    0 <= i < s@.len() && !('\0' <= #[trigger] s@[i] <= '\u{7f}');
                assert(s@[bad] != '_' && digit_val_c(s@[bad]) >= radix);
                assert(!valid_int_literal_c(s@, radix as int));
            }
            return None;
        }
        let n = s.unicode_len();
        let rad64: u64 = radix as u64;
        let mut acc: u64 = 0;
        let mut seen = false;
        let mut i: usize = 0;
        #[verifier::loop_isolation(false)]
        while i < n
            invariant
                2 <= radix <= 36,
                rad64 == radix,
                vstd::string::is_ascii(s),
                n == s@.len(),
                0 <= i <= n,
                forall|j: int| 0 <= j < i ==> s@[j] == '_' || digit_val_c(#[trigger] s@[j]) < radix,
                seen == (strip_c(s@.take(i as int)).len() >= 1),
                acc == digits_val_c(strip_c(s@.take(i as int)), radix as int),
            decreases n - i,
        {
            let c = s.get_char(i);
            proof {
                assert(s@.take(i + 1 as int).drop_last() =~= s@.take(i as int));
                assert(s@.take(i + 1 as int).last() == s@[i as int]);
            }
            if c == '_' {
                // an underscore is stripped out
            } else {
                let cv = c as u32;
                let d: u32 = if 48 <= cv && cv <= 57 {
                    cv - 48
                } else if 97 <= cv && cv <= 122 {
                    cv - 87
                } else if 65 <= cv && cv <= 90 {
                    cv - 55
                } else {
                    99
                };
                proof {
                    assert(d as int == digit_val_c(s@[i as int]));
                }
                if d >= radix {
                    return None;
                }
                if acc > (u64::MAX - d as u64) / rad64 {
                    proof {
                        lemma_digits_val_c_nonneg(strip_c(s@.take(i as int)), radix as int);
                        assert(acc * rad64 + d > u64::MAX) by (nonlinear_arith)
                            requires
                                acc > (u64::MAX - d as u64) as int / rad64 as int && rad64 >= 1
                                    && acc >= 0 && 0 <= d,
                        ;
                        let prev = strip_c(s@.take(i as int));
                        assert(strip_c(s@.take(i + 1 as int)) == prev.push(s@[i as int]));
                        assert(prev.push(s@[i as int]).drop_last() =~= prev);
                        assert(prev.push(s@[i as int]).last() == s@[i as int]);
                        assert(digits_val_c(strip_c(s@.take(i + 1 as int)), radix as int) == acc
                            * rad64 + d);
                        lemma_strip_val_c_prefix(s@, i + 1, radix as int);
                    }
                    return None;
                }
                proof {
                    assert(acc * rad64 <= u64::MAX - d) by (nonlinear_arith)
                        requires
                            acc <= (u64::MAX - d as u64) as int / rad64 as int && rad64 >= 1 && acc
                                >= 0 && 0 <= d <= 99,
                    ;
                    let prev = strip_c(s@.take(i as int));
                    assert(strip_c(s@.take(i + 1 as int)) == prev.push(s@[i as int]));
                    assert(prev.push(s@[i as int]).drop_last() =~= prev);
                    assert(prev.push(s@[i as int]).last() == s@[i as int]);
                }
                acc = acc * rad64 + d as u64;
                seen = true;
            }
            i = i + 1;
        }
        proof {
            assert(s@.take(n as int) =~= s@);
        }
        if seen {
            Some(Node::Integer(acc))
        } else {
            None
        }
    }

    /// Resolves an identifier as a register name against the loaded spec.
    pub fn parse_register(rv: &RiscVSpec, name: &str) -> (r: Result<Self, &'static str>)
        requires
            rv.wf(),
        ensures
            r matches Ok(n) ==> assoc_contains(rv.register_name_lookup@, name@) && n
                == Node::Register(
                regs_get(
                    rv.registers@,
                    assoc_get(rv.register_name_lookup@, name@),
                ).index,
            ),
            r matches Err(e) ==> !assoc_contains(rv.register_name_lookup@, name@) && e@
                == "invalid register"@,
    {
        match rv.get_register_by_name(name) {
            Some(reg) => Ok(Node::Register(reg.index)),
            None => Err("invalid register"),
        }
    }
}

// ------------------------------------------------------------------
// Constant folding
// ------------------------------------------------------------------
/// One constant-folding step: a unary or binary operator applied to integer
/// literals becomes the integer it evaluates to, with wrapping arithmetic;
/// division by zero and shifts of 64 or more places are left unfolded; any
/// other node is returned unchanged.
pub open spec fn spec_simplify(n: Node) -> Node {
    match n {
        Node::Negation(a) => match *a {
            Node::Integer(i) => Node::Integer(u64_specs::wrapping_sub(0, i)),
            _ => n,
        },
        Node::Plus(a, b) => match (*a, *b) {
            (Node::Integer(x), Node::Integer(y)) => Node::Integer(u64_specs::wrapping_add(x, y)),
            _ => n,
        },
        Node::Minus(a, b) => match (*a, *b) {
            (Node::Integer(x), Node::Integer(y)) => Node::Integer(u64_specs::wrapping_sub(x, y)),
            _ => n,
        },
        Node::Times(a, b) => match (*a, *b) {
            (Node::Integer(x), Node::Integer(y)) => Node::Integer(u64_specs::wrapping_mul(x, y)),
            _ => n,
        },
        Node::Divide(a, b) => match (*a, *b) {
            (Node::Integer(x), Node::Integer(y)) => if y != 0 {
                Node::Integer(x / y)
            } else {
                n
            },
            _ => n,
        },
        Node::Shl(a, b) => match (*a, *b) {
            (Node::Integer(x), Node::Integer(y)) => if y < 64 {
                Node::Integer(x << y)
            } else {
                n
            },
            _ => n,
        },
        Node::Shr(a, b) => match (*a, *b) {
            (Node::Integer(x), Node::Integer(y)) => if y < 64 {
                Node::Integer(x >> y)
            } else {
                n
            },
            _ => n,
        },
        Node::Ashr(a, b) => match (*a, *b) {
            (Node::Integer(x), Node::Integer(y)) => if y < 64 {
                Node::Integer(ashr64(x, y))
            } else {
                n
            },
            _ => n,
        },
        _ => n,
    }
}

/// Law: the reducer is idempotent; a second pass over an already reduced
/// node changes nothing.
pub proof fn lemma_simplify_idempotent(n: Node)
    ensures
        spec_simplify(spec_simplify(n)) == spec_simplify(n),
{
}

impl Node {
    /// Applies one constant-folding step to this node; see
    /// [`spec_simplify`] for the exact result.
    pub fn simplify(self) -> (r: Self)
        ensures
            r == spec_simplify(self),
    {
        match self {
            Node::Negation(a) => match *a {
                Node::Integer(i) => Node::Integer(0u64.wrapping_sub(i)),
                other => Node::Negation(Box::new(other)),
            },
            Node::Plus(a, b) => match (*a, *b) {
                (Node::Integer(x), Node::Integer(y)) => Node::Integer(x.wrapping_add(y)),
                (x, y) => Node::Plus(Box::new(x), Box::new(y)),
            },
            Node::Minus(a, b) => match (*a, *b) {
                (Node::Integer(x), Node::Integer(y)) => Node::Integer(x.wrapping_sub(y)),
                (x, y) => Node::Minus(Box::new(x), Box::new(y)),
            },
            Node::Times(a, b) => match (*a, *b) {
                (Node::Integer(x), Node::Integer(y)) => Node::Integer(x.wrapping_mul(y)),
                (x, y) => Node::Times(Box::new(x), Box::new(y)),
            },
            Node::Divide(a, b) => match (*a, *b) {
                (Node::Integer(x), Node::Integer(y)) => if y != 0 {
                    Node::Integer(x / y)
                } else {
                    Node::Divide(Box::new(Node::Integer(x)), Box::new(Node::Integer(y)))
                },
                (x, y) => Node::Divide(Box::new(x), Box::new(y)),
            },
            Node::Shl(a, b) => match (*a, *b) {
                (Node::Integer(x), Node::Integer(y)) => if y < 64 {
                    Node::Integer(x << y)
                } else {
                    Node::Shl(Box::new(Node::Integer(x)), Box::new(Node::Integer(y)))
                },
                (x, y) => Node::Shl(Box::new(x), Box::new(y)),
            },
            Node::Shr(a, b) => match (*a, *b) {
                (Node::Integer(x), Node::Integer(y)) => if y < 64 {
                    Node::Integer(x >> y)
                } else {
                    Node::Shr(Box::new(Node::Integer(x)), Box::new(Node::Integer(y)))
                },
                (x, y) => Node::Shr(Box::new(x), Box::new(y)),
            },
            Node::Ashr(a, b) => match (*a, *b) {
                (Node::Integer(x), Node::Integer(y)) => if y < 64 {
                    if y == 0 {
                        Node::Integer(x)
                    } else if x >> 63u64 == 0 {
                        Node::Integer(x >> y)
                    } else {
                        Node::Integer((x >> y) | (!0u64 << (64 - y)))
                    }
                } else {
                    Node::Ashr(Box::new(Node::Integer(x)), Box::new(Node::Integer(y)))
                },
                (x, y) => Node::Ashr(Box::new(x), Box::new(y)),
            },
            other => other,
        }
    }
}

// ------------------------------------------------------------------
// The deep view of an AST
// ------------------------------------------------------------------
/// The mathematical shape of an AST node: strings become character
/// sequences, child vectors become sequences.
pub enum AstV {
    Identifier(Seq<char>),
    Integer(u64),
    StringLiteral(Seq<u8>),
    Register(i32),
    PcValue,
    Negation(Box<AstV>),
    Plus(Box<AstV>, Box<AstV>),
    Minus(Box<AstV>, Box<AstV>),
    Times(Box<AstV>, Box<AstV>),
    Divide(Box<AstV>, Box<AstV>),
    Shl(Box<AstV>, Box<AstV>),
    Shr(Box<AstV>, Box<AstV>),
    Ashr(Box<AstV>, Box<AstV>),
    Label(Seq<char>),
    Argument(Box<AstV>),
    Instruction(Seq<char>, Seq<AstV>),
    Root(Seq<AstV>),
}

/// The deep view of a node.
pub open spec fn view_node(n: Node) -> AstV
    decreases n,
{
    match n {
        Node::Identifier(s) => AstV::Identifier(s@),
        Node::Integer(v) => AstV::Integer(v),
        Node::StringLiteral(b) => AstV::StringLiteral(b@),
        Node::Register(i) => AstV::Register(i),
        Node::PcValue => AstV::PcValue,
        Node::Negation(a) => AstV::Negation(Box::new(view_node(*a))),
        Node::Plus(a, b) => AstV::Plus(Box::new(view_node(*a)), Box::new(view_node(*b))),
        Node::Minus(a, b) => AstV::Minus(Box::new(view_node(*a)), Box::new(view_node(*b))),
        Node::Times(a, b) => AstV::Times(Box::new(view_node(*a)), Box::new(view_node(*b))),
        Node::Divide(a, b) => AstV::Divide(Box::new(view_node(*a)), Box::new(view_node(*b))),
        Node::Shl(a, b) => AstV::Shl(Box::new(view_node(*a)), Box::new(view_node(*b))),
        Node::Shr(a, b) => AstV::Shr(Box::new(view_node(*a)), Box::new(view_node(*b))),
        Node::Ashr(a, b) => AstV::Ashr(Box::new(view_node(*a)), Box::new(view_node(*b))),
        Node::Label(s) => AstV::Label(s@),
        Node::Argument(x) => AstV::Argument(Box::new(view_node(*x))),
        Node::Instruction(nm, args) => AstV::Instruction(nm@, view_nodes(args@)),
        Node::Root(ns) => AstV::Root(view_nodes(ns@)),
    }
}

/// The deep views of a sequence of nodes, in order.
pub open spec fn view_nodes(ns: Seq<Node>) -> Seq<AstV>
    decreases ns,
{
    if ns.len() == 0 {
        Seq::empty()
    } else {
        seq![view_node(ns.first())] + view_nodes(ns.drop_first())
    }
}

/// The view of a node sequence views each element.
pub proof fn lemma_view_nodes_index(ns: Seq<Node>)
    ensures
        view_nodes(ns).len() == ns.len(),
        forall|i: int| 0 <= i < ns.len() ==> view_nodes(ns)[i] == view_node(#[trigger] ns[i]),
    decreases ns.len(),
{
    if ns.len() > 0 {
        lemma_view_nodes_index(ns.drop_first());
        assert forall|i: int| 0 <= i < ns.len() implies view_nodes(ns)[i] == view_node(
            #[trigger] ns[i],
        ) by {
            if i > 0 {
                assert(ns.drop_first()[i - 1] == ns[i]);
            }
        }
    }
}

/// Viewing a pushed node appends its view.
pub proof fn lemma_view_nodes_push(ns: Seq<Node>, x: Node)
    ensures
        view_nodes(ns.push(x)) == view_nodes(ns).push(view_node(x)),
{
    lemma_view_nodes_index(ns);
    lemma_view_nodes_index(ns.push(x));
    assert forall|i: int| 0 <= i < ns.push(x).len() implies view_nodes(ns.push(x))[i]
        == view_nodes(ns).push(view_node(x))[i] by {
        assert(view_nodes(ns.push(x))[i] == view_node(ns.push(x)[i]));
        if i < ns.len() {
            assert(ns.push(x)[i] == ns[i]);
            assert(view_nodes(ns)[i] == view_node(ns[i]));
        } else {
            assert(ns.push(x)[i] == x);
        }
    }
    assert(view_nodes(ns.push(x)) =~= view_nodes(ns).push(view_node(x)));
}

/// Constant folding at the level of views; mirrors [`spec_simplify`].
pub open spec fn spec_simplify_v(v: AstV) -> AstV {
    match v {
        AstV::Negation(a) => match *a {
            AstV::Integer(i) => AstV::Integer(u64_specs::wrapping_sub(0, i)),
            _ => v,
        },
        AstV::Plus(a, b) => match (*a, *b) {
            (AstV::Integer(x), AstV::Integer(y)) => AstV::Integer(u64_specs::wrapping_add(x, y)),
            _ => v,
        },
        AstV::Minus(a, b) => match (*a, *b) {
            (AstV::Integer(x), AstV::Integer(y)) => AstV::Integer(u64_specs::wrapping_sub(x, y)),
            _ => v,
        },
        AstV::Times(a, b) => match (*a, *b) {
            (AstV::Integer(x), AstV::Integer(y)) => AstV::Integer(u64_specs::wrapping_mul(x, y)),
            _ => v,
        },
        AstV::Divide(a, b) => match (*a, *b) {
            (AstV::Integer(x), AstV::Integer(y)) => if y != 0 {
                AstV::Integer(x / y)
            } else {
                v
            },
            _ => v,
        },
        AstV::Shl(a, b) => match (*a, *b) {
            (AstV::Integer(x), AstV::Integer(y)) => if y < 64 {
                AstV::Integer(x << y)
            } else {
                v
            },
            _ => v,
        },
        AstV::Shr(a, b) => match (*a, *b) {
            (AstV::Integer(x), AstV::Integer(y)) => if y < 64 {
                AstV::Integer(x >> y)
            } else {
                v
            },
            _ => v,
        },
        AstV::Ashr(a, b) => match (*a, *b) {
            (AstV::Integer(x), AstV::Integer(y)) => if y < 64 {
                AstV::Integer(ashr64(x, y))
            } else {
                v
            },
            _ => v,
        },
        _ => v,
    }
}

/// A node views to an integer exactly when it is one, and then the values
/// agree.
pub proof fn lemma_view_is_integer(x: Node)
    ensures
        (view_node(x) is Integer) == (x is Integer),
        x is Integer ==> view_node(x) == AstV::Integer(x->Integer_0),
{
    match x {
        Node::Identifier(_) => {},
        Node::Integer(_) => {},
        Node::StringLiteral(_) => {},
        Node::Register(_) => {},
        Node::PcValue => {},
        Node::Negation(_) => {},
        Node::Plus(_, _) => {},
        Node::Minus(_, _) => {},
        Node::Times(_, _) => {},
        Node::Divide(_, _) => {},
        Node::Shl(_, _) => {},
        Node::Shr(_, _) => {},
        Node::Ashr(_, _) => {},
        Node::Label(_) => {},
        Node::Argument(_) => {},
        Node::Instruction(_, _) => {},
        Node::Root(_) => {},
    }
}

/// Folding commutes with taking views.
pub proof fn lemma_view_simplify(n: Node)
    ensures
        view_node(spec_simplify(n)) == spec_simplify_v(view_node(n)),
{
    match n {
        Node::Negation(a) => {
            lemma_view_is_integer(*a);
        },
        Node::Plus(a, b) => {
            lemma_view_is_integer(*a);
            lemma_view_is_integer(*b);
        },
        Node::Minus(a, b) => {
            lemma_view_is_integer(*a);
            lemma_view_is_integer(*b);
        },
        Node::Times(a, b) => {
            lemma_view_is_integer(*a);
            lemma_view_is_integer(*b);
        },
        Node::Divide(a, b) => {
            lemma_view_is_integer(*a);
            lemma_view_is_integer(*b);
        },
        Node::Shl(a, b) => {
            lemma_view_is_integer(*a);
            lemma_view_is_integer(*b);
        },
        Node::Shr(a, b) => {
            lemma_view_is_integer(*a);
            lemma_view_is_integer(*b);
        },
        Node::Ashr(a, b) => {
            lemma_view_is_integer(*a);
            lemma_view_is_integer(*b);
        },
        _ => {},
    }
}

// ------------------------------------------------------------------
// The emitter-side reducer
// ------------------------------------------------------------------
/// Every constant of the node reduces to an integer under the given
/// constant table: identifiers and labels are found in the table, `$` and
/// literals always reduce, and a compound node reduces when all of its
/// children do.
pub open spec fn all_reduced(n: Node, consts: Seq<(String, u64)>, pc: u64) -> bool
    decreases n,
{
    match n {
        Node::Identifier(id) => assoc_contains(consts, id@),
        Node::Label(l) => assoc_contains(consts, l@),
        Node::Integer(_) => true,
        Node::StringLiteral(_) => true,
        Node::Register(_) => true,
        Node::PcValue => true,
        Node::Negation(a) => all_reduced(*a, consts, pc),
        Node::Plus(a, b) => all_reduced(*a, consts, pc) && all_reduced(*b, consts, pc),
        Node::Minus(a, b) => all_reduced(*a, consts, pc) && all_reduced(*b, consts, pc),
        Node::Times(a, b) => all_reduced(*a, consts, pc) && all_reduced(*b, consts, pc),
        Node::Divide(a, b) => all_reduced(*a, consts, pc) && all_reduced(*b, consts, pc),
        Node::Shl(a, b) => all_reduced(*a, consts, pc) && all_reduced(*b, consts, pc),
        Node::Shr(a, b) => all_reduced(*a, consts, pc) && all_reduced(*b, consts, pc),
        Node::Ashr(a, b) => all_reduced(*a, consts, pc) && all_reduced(*b, consts, pc),
        Node::Argument(x) => all_reduced(*x, consts, pc),
        Node::Instruction(_, args) => forall|i: int|
            0 <= i < args@.len() ==> all_reduced(#[trigger] args@[i], consts, pc),
        Node::Root(ns) => forall|i: int|
            0 <= i < ns@.len() ==> all_reduced(#[trigger] ns@[i], consts, pc),
    }
}

/// The emitter-side reduction at the level of views: identifiers and labels
/// found in the constant table become integers, `$` becomes the program
/// counter, every operator node is re-folded, and instruction and root
/// children are reduced pointwise.
pub open spec fn spec_emitter_simplify(v: AstV, consts: Seq<(String, u64)>, pc: u64) -> AstV
    decreases v,
{
    match v {
        AstV::Identifier(id) => if assoc_contains(consts, id) {
            AstV::Integer(assoc_get(consts, id))
        } else {
            v
        },
        AstV::Label(l) => if assoc_contains(consts, l) {
            AstV::Integer(assoc_get(consts, l))
        } else {
            v
        },
        AstV::Integer(_) => v,
        AstV::StringLiteral(_) => v,
        AstV::Register(_) => v,
        AstV::PcValue => AstV::Integer(pc),
        AstV::Negation(a) => spec_simplify_v(
            AstV::Negation(Box::new(spec_emitter_simplify(*a, consts, pc))),
        ),
        AstV::Plus(a, b) => spec_simplify_v(
            AstV::Plus(
                Box::new(spec_emitter_simplify(*a, consts, pc)),
                Box::new(spec_emitter_simplify(*b, consts, pc)),
            ),
        ),
        AstV::Minus(a, b) => spec_simplify_v(
            AstV::Minus(
                Box::new(spec_emitter_simplify(*a, consts, pc)),
                Box::new(spec_emitter_simplify(*b, consts, pc)),
            ),
        ),
        AstV::Times(a, b) => spec_simplify_v(
            AstV::Times(
                Box::new(spec_emitter_simplify(*a, consts, pc)),
                Box::new(spec_emitter_simplify(*b, consts, pc)),
            ),
        ),
        AstV::Divide(a, b) => spec_simplify_v(
            AstV::Divide(
                Box::new(spec_emitter_simplify(*a, consts, pc)),
                Box::new(spec_emitter_simplify(*b, consts, pc)),
            ),
        ),
        AstV::Shl(a, b) => spec_simplify_v(
            AstV::Shl(
                Box::new(spec_emitter_simplify(*a, consts, pc)),
                Box::new(spec_emitter_simplify(*b, consts, pc)),
            ),
        ),
        AstV::Shr(a, b) => spec_simplify_v(
            AstV::Shr(
                Box::new(spec_emitter_simplify(*a, consts, pc)),
                Box::new(spec_emitter_simplify(*b, consts, pc)),
            ),
        ),
        AstV::Ashr(a, b) => spec_simplify_v(
            AstV::Ashr(
                Box::new(spec_emitter_simplify(*a, consts, pc)),
                Box::new(spec_emitter_simplify(*b, consts, pc)),
            ),
        ),
        AstV::Argument(x) => AstV::Argument(Box::new(spec_emitter_simplify(*x, consts, pc))),
        AstV::Instruction(nm, args) => AstV::Instruction(
            nm,
            spec_emitter_simplify_list(args, consts, pc),
        ),
        AstV::Root(ns) => AstV::Root(spec_emitter_simplify_list(ns, consts, pc)),
    }
}

/// Pointwise reduction of a sequence of views.
pub open spec fn spec_emitter_simplify_list(
    vs: Seq<AstV>,
    consts: Seq<(String, u64)>,
    pc: u64,
) -> Seq<AstV>
    decreases vs,
{
    if vs.len() == 0 {
        Seq::empty()
    } else {
        seq![spec_emitter_simplify(vs.first(), consts, pc)] + spec_emitter_simplify_list(
            vs.drop_first(),
            consts,
            pc,
        )
    }
}

/// Pointwise reduction reduces each element.
pub proof fn lemma_simplify_list_index(vs: Seq<AstV>, consts: Seq<(String, u64)>, pc: u64)
    ensures
        spec_emitter_simplify_list(vs, consts, pc).len() == vs.len(),
        forall|i: int|
            0 <= i < vs.len() ==> spec_emitter_simplify_list(vs, consts, pc)[i]
                == spec_emitter_simplify(#[trigger] vs[i], consts, pc),
    decreases vs.len(),
{
    if vs.len() > 0 {
        lemma_simplify_list_index(vs.drop_first(), consts, pc);
        assert forall|i: int|
            0 <= i < vs.len() implies spec_emitter_simplify_list(vs, consts, pc)[i]
            == spec_emitter_simplify(#[trigger] vs[i], consts, pc) by {
            if i > 0 {
                assert(vs.drop_first()[i - 1] == vs[i]);
            }
        }
    }
}

/// Copies a byte vector element by element.
fn clone_bytes(v: &Vec<u8>) -> (r: Vec<u8>)
    ensures
        r@ == v@,
{
    let n = v.len();
    let mut out: Vec<u8> = Vec::new();
    let mut i: usize = 0;
    while i < n
        invariant
            n == v@.len(),
            0 <= i <= n,
            out@ == v@.take(i as int),
        decreases n - i,
    {
        out.push(v[i]);
        proof {
            assert(out@ =~= v@.take(i + 1 as int));
        }
        i = i + 1;
    }
    proof {
        assert(v@.take(n as int) =~= v@);
    }
    out
}

impl Node {
    /// Reduces the node with the given constant table and current program
    /// counter: identifiers and labels found in the table become integers,
    /// `$` becomes `pc`, operators re-fold, and the second component of the
    /// result reports whether every constant reduced to an integer.
    #[verifier::rlimit(60)]
    pub fn emitter_simplify(&self, consts: &Vec<(String, u64)>, pc: u64) -> (r: (Node, bool))
        requires
            crate::model::unique_keys(consts@),
        ensures
            view_node(r.0) == spec_emitter_simplify(view_node(*self), consts@, pc),
            r.1 == all_reduced(*self, consts@, pc),
        decreases *self,
    {
        match self {
            Node::Identifier(id) => match crate::model::assoc_lookup(consts, id.as_str()) {
                Some(v) => (Node::Integer(v), true),
                None => (Node::Identifier(id.clone()), false),
            },
            Node::Label(l) => match crate::model::assoc_lookup(consts, l.as_str()) {
                Some(v) => (Node::Integer(v), true),
                None => (Node::Label(l.clone()), false),
            },
            Node::Integer(v) => (Node::Integer(*v), true),
            Node::StringLiteral(bytes) => (Node::StringLiteral(clone_bytes(bytes)), true),
            Node::Register(idx) => (Node::Register(*idx), true),
            Node::PcValue => (Node::Integer(pc), true),
            Node::Negation(a) => {
                let sa = a.emitter_simplify(consts, pc);
                let rn = Node::Negation(Box::new(sa.0)).simplify();
                proof {
                    lemma_view_simplify(Node::Negation(Box::new(sa.0)));
                }
                (rn, sa.1)
            },
            Node::Plus(a, b) => {
                let sa = a.emitter_simplify(consts, pc);
                let sb = b.emitter_simplify(consts, pc);
                let rn = Node::Plus(Box::new(sa.0), Box::new(sb.0)).simplify();
                proof {
                    lemma_view_simplify(Node::Plus(Box::new(sa.0), Box::new(sb.0)));
                }
                (rn, sa.1 && sb.1)
            },
            Node::Minus(a, b) => {
                let sa = a.emitter_simplify(consts, pc);
                let sb = b.emitter_simplify(consts, pc);
                let rn = Node::Minus(Box::new(sa.0), Box::new(sb.0)).simplify();
                proof {
                    lemma_view_simplify(Node::Minus(Box::new(sa.0), Box::new(sb.0)));
                }
                (rn, sa.1 && sb.1)
            },
            Node::Times(a, b) => {
                let sa = a.emitter_simplify(consts, pc);
                let sb = b.emitter_simplify(consts, pc);
                let rn = Node::Times(Box::new(sa.0), Box::new(sb.0)).simplify();
                proof {
                    lemma_view_simplify(Node::Times(Box::new(sa.0), Box::new(sb.0)));
                }
                (rn, sa.1 && sb.1)
            },
            Node::Divide(a, b) => {
                let sa = a.emitter_simplify(consts, pc);
                let sb = b.emitter_simplify(consts, pc);
                let rn = Node::Divide(Box::new(sa.0), Box::new(sb.0)).simplify();
                proof {
                    lemma_view_simplify(Node::Divide(Box::new(sa.0), Box::new(sb.0)));
                }
                (rn, sa.1 && sb.1)
            },
            Node::Shl(a, b) => {
                let sa = a.emitter_simplify(consts, pc);
                let sb = b.emitter_simplify(consts, pc);
                let rn = Node::Shl(Box::new(sa.0), Box::new(sb.0)).simplify();
                proof {
                    lemma_view_simplify(Node::Shl(Box::new(sa.0), Box::new(sb.0)));
                }
                (rn, sa.1 && sb.1)
            },
            Node::Shr(a, b) => {
                let sa = a.emitter_simplify(consts, pc);
                let sb = b.emitter_simplify(consts, pc);
                let rn = Node::Shr(Box::new(sa.0), Box::new(sb.0)).simplify();
                proof {
                    lemma_view_simplify(Node::Shr(Box::new(sa.0), Box::new(sb.0)));
                }
                (rn, sa.1 && sb.1)
            },
            Node::Ashr(a, b) => {
                let sa = a.emitter_simplify(consts, pc);
                let sb = b.emitter_simplify(consts, pc);
                let rn = Node::Ashr(Box::new(sa.0), Box::new(sb.0)).simplify();
                proof {
                    lemma_view_simplify(Node::Ashr(Box::new(sa.0), Box::new(sb.0)));
                }
                (rn, sa.1 && sb.1)
            },
            Node::Argument(x) => {
                let sx = x.emitter_simplify(consts, pc);
                (Node::Argument(Box::new(sx.0)), sx.1)
            },
            Node::Instruction(nm, args) => {
                let n = args.len();
                let mut sargs: Vec<Node> = Vec::new();
                let mut succ = true;
                let mut i: usize = 0;
                #[verifier::loop_isolation(false)]
                while i < n
                    invariant
                        n == args@.len(),
                        0 <= i <= n,
                        sargs@.len() == i,
                        forall|j: int|
                            0 <= j < i ==> view_node(#[trigger] sargs@[j]) == spec_emitter_simplify(
                                view_node(args@[j]),
                                consts@,
                                pc,
                            ),
                        succ == (forall|j: int|
                            0 <= j < i ==> all_reduced(#[trigger] args@[j], consts@, pc)),
                    decreases n - i,
                {
                    proof {
                        assert(decreases_to!(*self => (*self)->Instruction_1));
                        assert(decreases_to!((*self)->Instruction_1 => (*self)->Instruction_1@));
                        assert(decreases_to!(
                            (*self)->Instruction_1@ => (*self)->Instruction_1@[i as int]
                        ));
                    }
                    let s = args[i].emitter_simplify(consts, pc);
                    sargs.push(s.0);
                    succ = succ && s.1;
                    i = i + 1;
                }
                proof {
                    lemma_view_nodes_index(args@);
                    lemma_view_nodes_index(sargs@);
                    lemma_simplify_list_index(view_nodes(args@), consts@, pc);
                    assert forall|j: int| 0 <= j < n implies view_nodes(sargs@)[j]
                        == spec_emitter_simplify_list(view_nodes(args@), consts@, pc)[j] by {
                        assert(view_nodes(sargs@)[j] == view_node(sargs@[j]));
                        assert(view_node(sargs@[j]) == spec_emitter_simplify(
                            view_node(args@[j]),
                            consts@,
                            pc,
                        ));
                        assert(view_nodes(args@)[j] == view_node(args@[j]));
                        assert(spec_emitter_simplify_list(view_nodes(args@), consts@, pc)[j]
                            == spec_emitter_simplify(view_nodes(args@)[j], consts@, pc));
                    }
                    assert(view_nodes(sargs@) =~= spec_emitter_simplify_list(
                        view_nodes(args@),
                        consts@,
                        pc,
                    ));
                }
                (Node::Instruction(nm.clone(), sargs), succ)
            },
            Node::Root(ns) => {
                let n = ns.len();
                let mut sns: Vec<Node> = Vec::new();
                let mut succ = true;
                let mut i: usize = 0;
                #[verifier::loop_isolation(false)]
                while i < n
                    invariant
                        n == ns@.len(),
                        0 <= i <= n,
                        sns@.len() == i,
                        forall|j: int|
                            0 <= j < i ==> view_node(#[trigger] sns@[j]) == spec_emitter_simplify(
                                view_node(ns@[j]),
                                consts@,
                                pc,
                            ),
                        succ == (forall|j: int|
                            0 <= j < i ==> all_reduced(#[trigger] ns@[j], consts@, pc)),
                    decreases n - i,
                {
                    proof {
                        assert(decreases_to!(*self => (*self)->Root_0));
                        assert(decreases_to!((*self)->Root_0 => (*self)->Root_0@));
                        assert(decreases_to!((*self)->Root_0@ => (*self)->Root_0@[i as int]));
                    }
                    let s = ns[i].emitter_simplify(consts, pc);
                    sns.push(s.0);
                    succ = succ && s.1;
                    i = i + 1;
                }
                proof {
                    lemma_view_nodes_index(ns@);
                    lemma_view_nodes_index(sns@);
                    lemma_simplify_list_index(view_nodes(ns@), consts@, pc);
                    assert forall|j: int| 0 <= j < n implies view_nodes(sns@)[j]
                        == spec_emitter_simplify_list(view_nodes(ns@), consts@, pc)[j] by {
                        assert(view_nodes(sns@)[j] == view_node(sns@[j]));
                        assert(view_node(sns@[j]) == spec_emitter_simplify(
                            view_node(ns@[j]),
                            consts@,
                            pc,
                        ));
                        assert(view_nodes(ns@)[j] == view_node(ns@[j]));
                        assert(spec_emitter_simplify_list(view_nodes(ns@), consts@, pc)[j]
                            == spec_emitter_simplify(view_nodes(ns@)[j], consts@, pc));
                    }
                    assert(view_nodes(sns@) =~= spec_emitter_simplify_list(
                        view_nodes(ns@),
                        consts@,
                        pc,
                    ));
                }
                (Node::Root(sns), succ)
            },
        }
    }
}

} // verus!
