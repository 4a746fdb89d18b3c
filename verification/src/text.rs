//! Small text helpers shared by the spec loader, the parser and the emitter.

use vstd::prelude::*;

verus! {

/// An upper-case ASCII letter mapped to lower case; any other character is
/// left unchanged.
pub open spec fn lower_char(c: char) -> char {
    if 65 <= c as int && c as int <= 90 {
        (((c as u8) + 32) as u8) as char
    } else {
        c
    }
}

/// A character sequence mapped to ASCII lower case.
pub open spec fn lower_chars(s: Seq<char>) -> Seq<char> {
    s.map_values(|c: char| lower_char(c))
}

/// Compares two string slices by content, through owned copies, which the
/// standard specifications pin down exactly.
pub fn str_eq(a: &str, b: &str) -> (r: bool)
    ensures
        r == (a@ == b@),
{
    let ao = a.to_owned();
    let bo = b.to_owned();
    ao == bo
}

/// Maps a string to ASCII lower case: every upper-case ASCII letter is
/// replaced by its lower-case counterpart and every other character is
/// kept. The letters go through their lower-case literals, one arm each,
/// so the whole function verifies against [`lower_chars`].
pub fn ascii_lowercase(s: &str) -> (r: String)
    ensures
        r@ == lower_chars(s@),
{
    proof {
        assert(lower_chars(s@.take(0)) =~= Seq::<char>::empty());
            reveal_strlit("a");
            reveal_strlit("b");
            reveal_strlit("c");
            reveal_strlit("d");
            reveal_strlit("e");
            reveal_strlit("f");
            reveal_strlit("g");
            reveal_strlit("h");
            reveal_strlit("i");
            reveal_strlit("j");
            reveal_strlit("k");
            reveal_strlit("l");
            reveal_strlit("m");
            reveal_strlit("n");
            reveal_strlit("o");
            reveal_strlit("p");
            reveal_strlit("q");
            reveal_strlit("r");
            reveal_strlit("s");
            reveal_strlit("t");
            reveal_strlit("u");
            reveal_strlit("v");
            reveal_strlit("w");
            reveal_strlit("x");
            reveal_strlit("y");
            reveal_strlit("z");
    }
    let n = s.unicode_len();
    let mut out = String::new();
    let mut i: usize = 0;
    #[verifier::loop_isolation(false)]
    while i < n
        invariant
            0 <= i <= n,
            n == s@.len(),
            out@ == lower_chars(s@.take(i as int)),
        decreases n - i,
    {
        let c = s.get_char(i);
        let piece: &str = if c == 'A' {
            "a"
        } else if c == 'A' {
            "a"
        } else if c == 'B' {
            "b"
        } else if c == 'C' {
            "c"
        } else if c == 'D' {
            "d"
        } else if c == 'E' {
            "e"
        } else if c == 'F' {
            "f"
        } else if c == 'G' {
            "g"
        } else if c == 'H' {
            "h"
        } else if c == 'I' {
            "i"
        } else if c == 'J' {
            "j"
        } else if c == 'K' {
            "k"
        } else if c == 'L' {
            "l"
        } else if c == 'M' {
            "m"
        } else if c == 'N' {
            "n"
        } else if c == 'O' {
            "o"
        } else if c == 'P' {
            "p"
        } else if c == 'Q' {
            "q"
        } else if c == 'R' {
            "r"
        } else if c == 'S' {
            "s"
        } else if c == 'T' {
            "t"
        } else if c == 'U' {
            "u"
        } else if c == 'V' {
            "v"
        } else if c == 'W' {
            "w"
        } else if c == 'X' {
            "x"
        } else if c == 'Y' {
            "y"
        } else if c == 'Z' {
            "z"
        } else {
            s.substring_char(i, i + 1)
        };
        proof {
            assert(piece@ =~= seq![crate::text::lower_char(s@[i as int])]);
        }
        vstd::string::StringExecFns::append(&mut out, piece);
        proof {
            assert(out@ =~= lower_chars(s@.take(i + 1 as int)));
        }
        i = i + 1;
    }
    proof {
        assert(s@.take(n as int) =~= s@);
    }
    out
}

} // verus!
