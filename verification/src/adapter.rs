//! Pure kernels of the disassembler adapter: parsing hexadecimal addresses,
//! normalizing branch mnemonics into the four `Branch` variants, and locating
//! the block that covers an address.

use vstd::prelude::*;
use crate::db::{Branch, Dest};
use crate::util::str_eq;

verus! {

/// The value of one hexadecimal digit, upper or lower case, by code point:
/// `0` to `9` are 48 to 57, `a` to `f` are 97 to 102, `A` to `F` are 65 to 70.
pub open spec fn hex_digit_val(c: char) -> Option<int> {
    let v = c as int;
    if 48 <= v && v <= 57 {
        Some(v - 48)
    } else if 97 <= v && v <= 102 {
        Some(v - 97 + 10)
    } else if 65 <= v && v <= 70 {
        Some(v - 65 + 10)
    } else {
        None
    }
}

/// The unbounded value of a sequence of hexadecimal digits, or `None` if any
/// character is no digit.
pub open spec fn hex_val(s: Seq<char>) -> Option<int>
    decreases s.len(),
{
    if s.len() == 0 {
        Some(0)
    } else {
        match hex_val(s.drop_last()) {
            None => None,
            Some(v) => match hex_digit_val(s.last()) {
                None => None,
                Some(d) => Some(16 * v + d),
            },
        }
    }
}

/// What [`hex_to_u64`] accepts: a `0x` prefix, an optional plus sign, then at
/// least one hexadecimal digit, with a value that fits in 64 bits.
pub open spec fn hex_to_u64_spec(s: Seq<char>) -> Option<u64> {
    if s.len() >= 2 && s.subrange(0, 2) == "0x"@ {
        let body = s.skip(2);
        let digits = if body.len() > 0 && body[0] == '+' {
            body.skip(1)
        } else {
            body
        };
        if digits.len() == 0 {
            None
        } else {
            match hex_val(digits) {
                None => None,
                Some(v) => if v <= u64::MAX { Some(v as u64) } else { None },
            }
        }
    } else {
        None
    }
}

/// Every digit of a valid sequence is a digit; helper for scanning left to
/// right.
proof fn lemma_hex_val_prefix(s: Seq<char>, i: int)
    requires
        0 <= i <= s.len(),
    ensures
        hex_val(s) is Some ==> hex_val(s.subrange(0, i)) is Some,
    decreases s.len() - i,
{
    if i < s.len() {
        lemma_hex_val_prefix(s, i + 1);
        if hex_val(s) is Some {
            assert(s.subrange(0, i + 1).drop_last() =~= s.subrange(0, i));
            assert(s.subrange(0, i + 1).last() == s[i]);
        }
    } else {
        assert(s.subrange(0, s.len() as int) =~= s);
    }
}

/// Parse a `0x`-prefixed hexadecimal address; `None` when the prefix is
/// missing, a character is no digit, or the value overflows 64 bits.
#[verifier::loop_isolation(false)]
pub fn hex_to_u64(hex: &str) -> (r: Option<u64>)
    ensures
        r == hex_to_u64_spec(hex@),
{
    let n = hex.unicode_len();
    if n < 2 || hex.get_char(0) != '0' || hex.get_char(1) != 'x' {
        proof {
            reveal_strlit("0x");
            if hex@.len() >= 2 && hex@.subrange(0, 2) == "0x"@ {
                assert(hex@.subrange(0, 2)[0] == hex@[0]);
                assert(hex@.subrange(0, 2)[1] == hex@[1]);
            }
        }
        return None;
    }
    proof {
        reveal_strlit("0x");
        assert(hex@.subrange(0, 2) =~= "0x"@);
    }
    let mut i: usize = 2;
    if i < n && hex.get_char(i) == '+' {
        i = 3;
    }
    let ghost digits = hex@.skip(i as int);
    proof {
        if hex@.skip(2).len() > 0 {
            assert(hex@.skip(2)[0] == hex@[2]);
        }
        if i == 3 {
            assert(hex@.skip(2).skip(1) =~= hex@.skip(3));
        }
    }
    if i >= n {
        return None;
    }
    let mut acc: u64 = 0;
    let start = i;
    while i < n
        invariant
            start <= i <= n,
            n == hex@.len(),
            digits == hex@.skip(start as int),
            hex_val(digits.subrange(0, i - start)) == Some(acc as int),
        decreases n - i,
    {
        let c = hex.get_char(i);
        let v = c as u32;
        let d: u64 = if 48 <= v && v <= 57 {
            (v - 48) as u64
        } else if 97 <= v && v <= 102 {
            (v - 97) as u64 + 10
        } else if 65 <= v && v <= 70 {
            (v - 65) as u64 + 10
        } else {
            proof {
                lemma_hex_val_prefix(digits, i - start + 1);
                assert(digits.subrange(0, i - start + 1).last() == digits[i - start]);
                assert(digits[i - start] == hex@[i as int]);
                assert(hex_val(digits) is None) by {
                    if hex_val(digits) is Some {
                        assert(hex_val(digits.subrange(0, i - start + 1)) is Some);
                    }
                }
            }
            return None;
        };
        proof {
            assert(hex_digit_val(hex@[i as int]) == Some(d as int));
        }
        if acc > (u64::MAX - d) / 16 {
            proof {
                let prefix1 = digits.subrange(0, i - start + 1);
                assert(prefix1.drop_last() =~= digits.subrange(0, i - start));
                assert(prefix1.last() == digits[i - start]);
                assert(digits[i - start] == hex@[i as int]);
                assert(hex_val(prefix1) == Some(16 * acc as int + d as int));
                assert(16 * acc as int + d as int > u64::MAX as int) by (nonlinear_arith)
                    requires
                        acc as int > (u64::MAX as int - d as int) / 16,
                        0 <= d as int,
                        (d as int) < 16;
                lemma_hex_val_monotone(digits, i - start + 1);
            }
            return None;
        }
        proof {
            assert(16 * acc as int + d as int <= u64::MAX as int) by (nonlinear_arith)
                requires
                    acc as int <= (u64::MAX as int - d as int) / 16,
                    0 <= d as int,
                    (d as int) < 16;
            let prefix1 = digits.subrange(0, i - start + 1);
            assert(prefix1.drop_last() =~= digits.subrange(0, i - start));
            assert(prefix1.last() == digits[i - start]);
            assert(digits[i - start] == hex@[i as int]);
        }
        acc = acc * 16 + d;
        i = i + 1;
    }
    proof {
        assert(digits.subrange(0, n - start) =~= digits);
    }
    Some(acc)
}

/// A valid prefix that already overflows makes the whole sequence overflow:
/// the value of a digit sequence only grows as digits are appended.
proof fn lemma_hex_val_monotone(s: Seq<char>, i: int)
    requires
        0 <= i <= s.len(),
    ensures
        match (hex_val(s.subrange(0, i)), hex_val(s)) {
            (Some(p), Some(v)) => p <= v,
            _ => true,
        },
    decreases s.len() - i,
{
    if i < s.len() {
        lemma_hex_val_monotone(s, i + 1);
        let p0 = s.subrange(0, i);
        let p1 = s.subrange(0, i + 1);
        assert(p1.drop_last() =~= p0);
        if hex_val(p0) is Some && hex_val(s) is Some {
            lemma_hex_val_prefix(s, i + 1);
            let a = hex_val(p0).unwrap();
            let d = hex_digit_val(p1.last()).unwrap();
            assert(hex_val(p1).unwrap() == 16 * a + d);
            assert(a >= 0) by { lemma_hex_val_nonneg(p0); }
            assert(16 * a + d >= a) by (nonlinear_arith)
                requires a >= 0, d >= 0;
        }
    } else {
        assert(s.subrange(0, s.len() as int) =~= s);
    }
}

/// Digit sequences have non-negative values.
proof fn lemma_hex_val_nonneg(s: Seq<char>)
    ensures
        match hex_val(s) {
            Some(v) => v >= 0,
            None => true,
        },
    decreases s.len(),
{
    if s.len() > 0 {
        lemma_hex_val_nonneg(s.drop_last());
    }
}

/// The index of the first space in `s`, or its length if it has none.
pub open spec fn first_space(s: Seq<char>) -> int
    decreases s.len(),
{
    if s.len() == 0 {
        0
    } else if s[0] == ' ' {
        0
    } else {
        1 + first_space(s.drop_first())
    }
}

/// The mnemonic of an instruction: its text up to the first space.
pub open spec fn opcode_of(s: Seq<char>) -> Seq<char> {
    s.subrange(0, first_space(s))
}

proof fn lemma_first_space_at(s: Seq<char>, i: int)
    requires
        0 <= i <= s.len(),
        forall|j: int| 0 <= j < i ==> s[j] != ' ',
        i < s.len() ==> s[i] == ' ',
    ensures
        first_space(s) == i,
    decreases i,
{
    if s.len() == 0 {
    } else if s[0] == ' ' {
        assert(i == 0);
    } else {
        assert(i >= 1);
        let t = s.drop_first();
        assert(forall|j: int| 0 <= j < i - 1 ==> #[trigger] t[j] == s[j + 1]);
        assert(i - 1 < t.len() ==> t[i - 1] == s[i]);
        lemma_first_space_at(t, i - 1);
    }
}

/// The `Branch` an instruction normalizes to, per the adapter contract:
/// `ret` returns; less-than families put the fall-through first; greater-than
/// families put the jump first; equal families put the jump first; not-equal
/// families put the fall-through first; unconditional jumps are `Neutral` to
/// the jump; anything else falls back to `Neutral` to the fall-through.
pub open spec fn branch_of(s: Seq<char>, jump: u64, fail: u64) -> Branch {
    let op = opcode_of(s);
    if op == "ret"@ {
        Branch::Return
    } else {
        let fail_dest = Dest::Known(fail);
        let jump_dest = if jump == 0 { Dest::Unknown } else { Dest::Known(jump) };
        if op == "ble"@ || op == "blt"@ || op == "bls"@ || op == "jb"@ || op == "jl"@
            || op == "jle"@ || op == "jbe"@ {
            Branch::Inequality(fail_dest, jump_dest)
        } else if op == "bge"@ || op == "bgt"@ || op == "bhi"@ || op == "ja"@ || op == "jg"@
            || op == "jge"@ || op == "jae"@ {
            Branch::Inequality(jump_dest, fail_dest)
        } else if op == "beq"@ || op == "bpl"@ || op == "je"@ || op == "jz"@ || op == "jp"@ {
            Branch::Equality(jump_dest, fail_dest)
        } else if op == "bne"@ || op == "bmi"@ || op == "jne"@ || op == "jnz"@ || op == "jnp"@ {
            Branch::Equality(fail_dest, jump_dest)
        } else if op == "b"@ || op == "br"@ || op == "bx"@ || op == "bxr"@ || op == "jmp"@ {
            Branch::Neutral(jump_dest)
        } else {
            Branch::Neutral(fail_dest)
        }
    }
}

/// Normalize a terminator instruction to a `Branch`, taking the resolved jump
/// target (zero meaning unresolved) and the fall-through address.
pub fn get_branch_type(inst: &str, jump: u64, fail: u64) -> (r: Branch)
    ensures
        r == branch_of(inst@, jump, fail),
{
    let n = inst.unicode_len();
    let mut sp: usize = 0;
    while sp < n && inst.get_char(sp) != ' '
        invariant
            sp <= n,
            n == inst@.len(),
            forall|j: int| 0 <= j < sp ==> inst@[j] != ' ',
        decreases n - sp,
    {
        sp = sp + 1;
    }
    proof {
        lemma_first_space_at(inst@, sp as int);
    }
    let op = inst.substring_char(0, sp);
    let fail_dest = Dest::Known(fail);
    let jump_dest = if jump == 0 { Dest::Unknown } else { Dest::Known(jump) };
    if str_eq(op, "ret") {
        Branch::Return
    } else if str_eq(op, "ble") || str_eq(op, "blt") || str_eq(op, "bls") || str_eq(op, "jb")
        || str_eq(op, "jl") || str_eq(op, "jle") || str_eq(op, "jbe") {
        Branch::Inequality(fail_dest, jump_dest)
    } else if str_eq(op, "bge") || str_eq(op, "bgt") || str_eq(op, "bhi") || str_eq(op, "ja")
        || str_eq(op, "jg") || str_eq(op, "jge") || str_eq(op, "jae") {
        Branch::Inequality(jump_dest, fail_dest)
    } else if str_eq(op, "beq") || str_eq(op, "bpl") || str_eq(op, "je") || str_eq(op, "jz")
        || str_eq(op, "jp") {
        Branch::Equality(jump_dest, fail_dest)
    } else if str_eq(op, "bne") || str_eq(op, "bmi") || str_eq(op, "jne") || str_eq(op, "jnz")
        || str_eq(op, "jnp") {
        Branch::Equality(fail_dest, jump_dest)
    } else if str_eq(op, "b") || str_eq(op, "br") || str_eq(op, "bx") || str_eq(op, "bxr")
        || str_eq(op, "jmp") {
        Branch::Neutral(jump_dest)
    } else {
        Branch::Neutral(fail_dest)
    }
}

/// Find the greatest block start not beyond `val`: the address of the block
/// that covers `val` in a sorted pool of block starts.
pub fn nearest_block(val: u64, possible: &Vec<u64>) -> (r: Option<u64>)
    requires
        possible@.len() > 0,
        forall|i: int, j: int| 0 <= i < j < possible@.len() ==> possible@[i] <= possible@[j],
        possible@[0] <= val,
    ensures
        match r {
            Some(v) => possible@.contains(v) && v <= val && forall|i: int|
                0 <= i < possible@.len() && possible@[i] <= val ==> possible@[i] <= v,
            None => false,
        },
{
    let n = possible.len();
    let mut low: usize = 0;
    let mut high: usize = n - 1;

    while low <= high
        invariant
            n == possible@.len(),
            high < n,
            low <= high + 1,
            forall|i: int, j: int| 0 <= i < j < possible@.len() ==> possible@[i] <= possible@[j],
            possible@[0] <= val,
            low > 0 ==> possible@[low - 1] <= val,
            high + 1 < possible@.len() ==> possible@[high + 1] > val,
        decreases high + 1 - low,
    {
        let mid = low + (high - low) / 2;
        let mid_val = possible[mid];

        if mid_val == val {
            proof {
                assert(possible@.contains(mid_val)) by {
                    assert(possible@[mid as int] == mid_val);
                }
                assert forall|i: int| 0 <= i < possible@.len() && possible@[i] <= val implies
                    possible@[i] <= mid_val by {}
            }
            return Some(mid_val);
        } else if mid_val > val {
            proof {
                assert(mid > 0) by {
                    if mid == 0 {
                        assert(possible@[0] > val);
                    }
                }
            }
            high = mid - 1;
        } else {
            low = mid + 1;
        }
    }
    proof {
        assert(low == high + 1);
        assert(possible@[high as int] <= val);
        assert(possible@.contains(possible@[high as int]));
        assert forall|i: int| 0 <= i < possible@.len() && possible@[i] <= val implies
            possible@[i] <= possible@[high as int] by {
            if i > high {
                assert(possible@[high + 1] <= possible@[i]);
            }
        }
    }
    Some(possible[high])
}

} // verus!
