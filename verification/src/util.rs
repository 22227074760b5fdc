//! Small helpers: character-exact string comparison, hexadecimal rendering,
//! and option wrapping.

use vstd::prelude::*;

verus! {

/// Character-for-character equality of two string slices.
pub fn str_eq(a: &str, b: &str) -> (r: bool)
    ensures
        r == (a@ == b@),
{
    let n = a.unicode_len();
    if n != b.unicode_len() {
        return false;
    }
    let mut i: usize = 0;
    while i < n
        invariant
            i <= n,
            n == a@.len(),
            n == b@.len(),
            forall|j: int| 0 <= j < i ==> a@[j] == b@[j],
        decreases n - i,
    {
        if a.get_char(i) != b.get_char(i) {
            return false;
        }
        i = i + 1;
    }
    proof {
        assert(a@ =~= b@);
    }
    true
}

/// The lower-case hexadecimal digit for a value below sixteen.
pub open spec fn hex_digit(v: int) -> char {
    if v == 0 { '0' }
    else if v == 1 { '1' }
    else if v == 2 { '2' }
    else if v == 3 { '3' }
    else if v == 4 { '4' }
    else if v == 5 { '5' }
    else if v == 6 { '6' }
    else if v == 7 { '7' }
    else if v == 8 { '8' }
    else if v == 9 { '9' }
    else if v == 10 { 'a' }
    else if v == 11 { 'b' }
    else if v == 12 { 'c' }
    else if v == 13 { 'd' }
    else if v == 14 { 'e' }
    else { 'f' }
}

/// The hexadecimal digits of `v`, most significant first, no leading zeros
/// except for the single digit of zero itself.
pub open spec fn hex_digits(v: int) -> Seq<char>
    decreases v,
{
    if v < 16 {
        seq![hex_digit(v)]
    } else {
        hex_digits(v / 16) + seq![hex_digit(v % 16)]
    }
}

/// The `0x`-prefixed lower-case hexadecimal rendering of `v`.
pub open spec fn hex_render(v: u64) -> Seq<char> {
    "0x"@ + hex_digits(v as int)
}

fn push_hex_digit(v: u64, out: &mut String)
    requires
        v < 16,
    ensures
        final(out)@ == old(out)@ + seq![hex_digit(v as int)],
{
    proof {
        reveal_strlit("0");
        reveal_strlit("1");
        reveal_strlit("2");
        reveal_strlit("3");
        reveal_strlit("4");
        reveal_strlit("5");
        reveal_strlit("6");
        reveal_strlit("7");
        reveal_strlit("8");
        reveal_strlit("9");
        reveal_strlit("a");
        reveal_strlit("b");
        reveal_strlit("c");
        reveal_strlit("d");
        reveal_strlit("e");
        reveal_strlit("f");
    }
    if v == 0 { out.append("0"); }
    else if v == 1 { out.append("1"); }
    else if v == 2 { out.append("2"); }
    else if v == 3 { out.append("3"); }
    else if v == 4 { out.append("4"); }
    else if v == 5 { out.append("5"); }
    else if v == 6 { out.append("6"); }
    else if v == 7 { out.append("7"); }
    else if v == 8 { out.append("8"); }
    else if v == 9 { out.append("9"); }
    else if v == 10 { out.append("a"); }
    else if v == 11 { out.append("b"); }
    else if v == 12 { out.append("c"); }
    else if v == 13 { out.append("d"); }
    else if v == 14 { out.append("e"); }
    else { out.append("f"); }
    proof {
        assert(final(out)@ =~= old(out)@ + seq![hex_digit(v as int)]);
    }
}

fn push_hex(v: u64, out: &mut String)
    ensures
        final(out)@ == old(out)@ + hex_digits(v as int),
    decreases v,
{
    if v >= 16 {
        push_hex(v / 16, out);
        push_hex_digit(v % 16, out);
        proof {
            assert(final(out)@ =~= old(out)@ + hex_digits(v as int));
        }
    } else {
        push_hex_digit(v, out);
    }
}

/// Render `v` as `0x`-prefixed lower-case hexadecimal.
pub fn u64_to_hex(v: u64) -> (r: String)
    ensures
        r@ == hex_render(v),
{
    let mut out = String::new();
    out.append("0x");
    push_hex(v, &mut out);
    proof {
        assert(out@ =~= hex_render(v));
    }
    out
}

/// The decimal digit for a value below ten.
pub open spec fn dec_digit(v: int) -> char {
    if v == 0 { '0' }
    else if v == 1 { '1' }
    else if v == 2 { '2' }
    else if v == 3 { '3' }
    else if v == 4 { '4' }
    else if v == 5 { '5' }
    else if v == 6 { '6' }
    else if v == 7 { '7' }
    else if v == 8 { '8' }
    else { '9' }
}

/// The decimal digits of `v`, most significant first.
pub open spec fn dec_digits(v: int) -> Seq<char>
    decreases v,
{
    if v < 10 {
        seq![dec_digit(v)]
    } else {
        dec_digits(v / 10) + seq![dec_digit(v % 10)]
    }
}

fn push_dec_digit(v: usize, out: &mut String)
    requires
        v < 10,
    ensures
        final(out)@ == old(out)@ + seq![dec_digit(v as int)],
{
    proof {
        reveal_strlit("0");
        reveal_strlit("1");
        reveal_strlit("2");
        reveal_strlit("3");
        reveal_strlit("4");
        reveal_strlit("5");
        reveal_strlit("6");
        reveal_strlit("7");
        reveal_strlit("8");
        reveal_strlit("9");
    }
    if v == 0 { out.append("0"); }
    else if v == 1 { out.append("1"); }
    else if v == 2 { out.append("2"); }
    else if v == 3 { out.append("3"); }
    else if v == 4 { out.append("4"); }
    else if v == 5 { out.append("5"); }
    else if v == 6 { out.append("6"); }
    else if v == 7 { out.append("7"); }
    else if v == 8 { out.append("8"); }
    else { out.append("9"); }
    proof {
        assert(final(out)@ =~= old(out)@ + seq![dec_digit(v as int)]);
    }
}

/// Append the decimal rendering of `v`.
pub fn push_decimal(v: usize, out: &mut String)
    ensures
        final(out)@ == old(out)@ + dec_digits(v as int),
    decreases v,
{
    if v >= 10 {
        push_decimal(v / 10, out);
        push_dec_digit(v % 10, out);
        proof {
            assert(final(out)@ =~= old(out)@ + dec_digits(v as int));
        }
    } else {
        push_dec_digit(v, out);
    }
}

/// Rendering a value as hexadecimal text.
pub trait AsHex {
    fn as_hex(&self) -> String;
}

impl AsHex for u64 {
    /// The `0x`-prefixed lower-case hexadecimal form; see [`u64_to_hex`].
    fn as_hex(&self) -> String {
        u64_to_hex(*self)
    }
}

/// Wrapping any value in `Some`, for fluent option pipelines.
pub trait AsSome: Sized {
    fn as_some(self) -> (r: Option<Self>)
        ensures
            r == Some(self),
    ;
}

impl<T> AsSome for T {
    fn as_some(self) -> (r: Option<Self>)
        ensures
            r == Some(self),
    {
        Some(self)
    }
}

} // verus!
