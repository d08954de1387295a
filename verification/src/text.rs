//! Small text helpers: characters of a string, ASCII letter case, numbers, and building
//! strings.

use vstd::prelude::*;
use vstd::string::{StrSliceExecFns, StringExecFns};

verus! {

/// Appends one character: `String::push` puts it at the end of the text.
#[verifier::external_body]
pub(crate) fn push_char(s: &mut String, c: char)
    ensures
        final(s)@ == old(s)@.push(c),
{
    s.push(c);
}

/// The characters of a text.
pub fn chars_of(s: &str) -> (r: Vec<char>)
    ensures
        r@ == s@,
{
    let mut v: Vec<char> = Vec::new();
    let n = s.unicode_len();
    let mut i: usize = 0;
    while i < n
        invariant
            i <= n,
            n == s@.len(),
            v@ == s@.subrange(0, i as int),
        decreases n - i,
    {
        v.push(s.get_char(i));
        i += 1;
        assert(v@ =~= s@.subrange(0, i as int));
    }
    assert(v@ =~= s@);
    v
}

/// The string made of these characters.
pub fn string_of(v: &Vec<char>) -> (r: String)
    ensures
        r@ == v@,
{
    let mut s = String::new();
    let mut i: usize = 0;
    while i < v.len()
        invariant
            i <= v@.len(),
            s@ == v@.subrange(0, i as int),
        decreases v@.len() - i,
    {
        push_char(&mut s, v[i]);
        i += 1;
        assert(s@ =~= v@.subrange(0, i as int));
    }
    assert(s@ =~= v@);
    s
}

/// ASCII lower-case form of a character.
pub open spec fn lower(c: char) -> char {
    if 'A' <= c && c <= 'Z' {
        ((c as u32 + 32) as u32) as char
    } else {
        c
    }
}

/// ASCII upper-case form of a character.
pub open spec fn upper(c: char) -> char {
    if 'a' <= c && c <= 'z' {
        ((c as u32 - 32) as u32) as char
    } else {
        c
    }
}

/// Every character in ASCII lower case.
pub open spec fn lowered(s: Seq<char>) -> Seq<char> {
    s.map_values(|c: char| lower(c))
}

/// ASCII lower-case form of a character.
pub fn to_lower(c: char) -> (r: char)
    ensures
        r == lower(c),
{
    if 'A' <= c && c <= 'Z' {
        ((c as u8) + 32) as char
    } else {
        c
    }
}

/// ASCII upper-case form of a character.
pub fn to_upper(c: char) -> (r: char)
    ensures
        r == upper(c),
{
    if 'a' <= c && c <= 'z' {
        ((c as u8) - 32) as char
    } else {
        c
    }
}

/// The characters of a text in ASCII lower case.
pub fn lower_ascii(s: &str) -> (r: Vec<char>)
    ensures
        r@ == lowered(s@),
{
    let v = chars_of(s);
    let mut out: Vec<char> = Vec::new();
    let mut i: usize = 0;
    while i < v.len()
        invariant
            i <= v@.len(),
            v@ == s@,
            out@ == lowered(s@.subrange(0, i as int)),
        decreases v@.len() - i,
    {
        out.push(to_lower(v[i]));
        i += 1;
        assert(out@ =~= lowered(s@.subrange(0, i as int)));
    }
    assert(out@ =~= lowered(s@)) by {
        assert(s@.subrange(0, i as int) =~= s@);
    }
    out
}

/// Whether the characters spell the text.
pub fn matches_literal(v: &Vec<char>, lit: &str) -> (r: bool)
    ensures
        r == (v@ == lit@),
{
    let n = lit.unicode_len();
    if v.len() != n {
        return false;
    }
    let mut i: usize = 0;
    while i < n
        invariant
            i <= n,
            n == lit@.len(),
            n == v@.len(),
            forall|j: int| 0 <= j < i ==> v@[j] == lit@[j],
        decreases n - i,
    {
        if v[i] != lit.get_char(i) {
            return false;
        }
        i += 1;
    }
    assert(v@ =~= lit@);
    true
}

/// Appends a text.
pub fn push_text(s: &mut String, t: &str)
    ensures
        final(s)@ == old(s)@ + t@,
{
    s.append(t);
}

/// The character of a decimal digit.
pub open spec fn digit_char(n: nat) -> char {
    ('0' as int + n) as char
}

/// The decimal text of a number.
pub open spec fn decimal(n: nat) -> Seq<char>
    decreases n,
{
    if n < 10 {
        seq![digit_char(n)]
    } else {
        decimal(n / 10).push(digit_char(n % 10))
    }
}

/// The decimal text of an integer, with a sign where it is negative.
pub open spec fn decimal_int(n: int) -> Seq<char> {
    if n < 0 {
        seq!['-'] + decimal((-n) as nat)
    } else {
        decimal(n as nat)
    }
}

/// Appends the decimal text of a number.
pub fn push_natural(s: &mut String, n: u64)
    ensures
        final(s)@ == old(s)@ + decimal(n as nat),
    decreases n,
{
    let ghost before = s@;
    if n < 10 {
        push_char(s, (48u8 + n as u8) as char);
        assert(s@ =~= before + decimal(n as nat));
    } else {
        push_natural(s, n / 10);
        push_char(s, (48u8 + (n % 10) as u8) as char);
        assert(s@ =~= before + decimal(n as nat));
    }
}

/// Appends the decimal text of an integer.
pub fn push_integer(s: &mut String, n: i64)
    ensures
        final(s)@ == old(s)@ + decimal_int(n as int),
{
    let ghost before = s@;
    if n < 0 {
        push_char(s, '-');
        let m: u64 = if n == i64::MIN {
            0x8000_0000_0000_0000
        } else {
            (-n) as u64
        };
        push_natural(s, m);
        assert(s@ =~= before + decimal_int(n as int));
    } else {
        push_natural(s, n as u64);
    }
}

/// The upper-case character of a hexadecimal digit.
pub open spec fn hex_char(n: u64) -> char {
    if n < 10 {
        ('0' as int + n) as char
    } else {
        ('A' as int + n - 10) as char
    }
}

/// The last `n` hexadecimal digits of a number.
pub open spec fn hex_text(k: u64, n: nat) -> Seq<char>
    decreases n,
{
    if n == 0 {
        seq![]
    } else {
        seq![hex_char((k >> ((4 * (n - 1)) as u64)) % 16)] + hex_text(k, (n - 1) as nat)
    }
}

/// Appends a number as sixteen hexadecimal digits.
pub fn push_hex(s: &mut String, k: u64)
    ensures
        final(s)@ == old(s)@ + hex_text(k, 16),
{
    let ghost before = s@;
    let mut n: u64 = 16;
    while n > 0
        invariant
            n <= 16,
            s@ + hex_text(k, n as nat) == before + hex_text(k, 16),
        decreases n,
    {
        let ghost now = s@;
        let d: u64 = (k >> (4 * (n - 1))) % 16;
        push_char(
            s,
            if d < 10 {
                (48u8 + d as u8) as char
            } else {
                (65u8 + (d - 10) as u8) as char
            },
        );
        assert(s@ + hex_text(k, (n - 1) as nat) =~= now + hex_text(k, n as nat));
        n = n - 1;
    }
    assert(s@ =~= s@ + hex_text(k, 0));
}

} // verus!
