//! Rendering numbers and addresses as text.
use vstd::prelude::*;

verus! {

/// Relies on `String::push`: appends one character.
#[verifier::external_body]
pub(crate) fn push_char(s: &mut String, c: char)
    ensures
        final(s)@ == old(s)@.push(c),
{
    s.push(c)
}

/// Appends a string.
pub fn push_str(s: &mut String, t: &str)
    ensures
        final(s)@ == old(s)@ + t@,
{
    s.append(t)
}

/// The character of digit `d` (lowercase beyond 9).
pub open spec fn digit(d: int) -> char {
    if d == 0 {
        '0'
    } else if d == 1 {
        '1'
    } else if d == 2 {
        '2'
    } else if d == 3 {
        '3'
    } else if d == 4 {
        '4'
    } else if d == 5 {
        '5'
    } else if d == 6 {
        '6'
    } else if d == 7 {
        '7'
    } else if d == 8 {
        '8'
    } else if d == 9 {
        '9'
    } else if d == 10 {
        'a'
    } else if d == 11 {
        'b'
    } else if d == 12 {
        'c'
    } else if d == 13 {
        'd'
    } else if d == 14 {
        'e'
    } else {
        'f'
    }
}

/// The uppercase character of hex digit `d`.
pub open spec fn upper_digit(d: int) -> char {
    if d == 10 {
        'A'
    } else if d == 11 {
        'B'
    } else if d == 12 {
        'C'
    } else if d == 13 {
        'D'
    } else if d == 14 {
        'E'
    } else if d == 15 {
        'F'
    } else {
        digit(d)
    }
}

/// `n` in base `b` without leading zeros (lowercase digits).
pub open spec fn in_base(n: nat, b: nat) -> Seq<char>
    decreases n,
    via in_base_decreases
{
    if b < 2 || n < b {
        seq![digit(n as int)]
    } else {
        in_base(n / b, b).push(digit((n % b) as int))
    }
}

#[via_fn]
proof fn in_base_decreases(n: nat, b: nat) {
    if !(b < 2 || n < b) {
        assert(n / b < n) by (nonlinear_arith)
            requires
                b >= 2,
                n >= b,
        ;
    }
}

pub open spec fn decimal(n: nat) -> Seq<char> {
    in_base(n, 10)
}

fn digit_char(d: u64) -> (c: char)
    requires
        d < 16,
    ensures
        c == digit(d as int),
{
    match d {
        0 => '0',
        1 => '1',
        2 => '2',
        3 => '3',
        4 => '4',
        5 => '5',
        6 => '6',
        7 => '7',
        8 => '8',
        9 => '9',
        10 => 'a',
        11 => 'b',
        12 => 'c',
        13 => 'd',
        14 => 'e',
        _ => 'f',
    }
}

fn upper_digit_char(d: u64) -> (c: char)
    requires
        d < 16,
    ensures
        c == upper_digit(d as int),
{
    match d {
        10 => 'A',
        11 => 'B',
        12 => 'C',
        13 => 'D',
        14 => 'E',
        15 => 'F',
        _ => digit_char(d),
    }
}

/// Appends `n` in base `b`.
pub fn push_in_base(s: &mut String, n: u64, b: u64)
    requires
        2 <= b <= 16,
    ensures
        final(s)@ == old(s)@ + in_base(n as nat, b as nat),
    decreases n,
{
    if n >= b {
        assert(n / b < n) by (nonlinear_arith)
            requires
                b >= 2,
                n >= b,
        ;
        push_in_base(s, n / b, b);
    } else {
        assert(n % b == n) by (nonlinear_arith)
            requires
                n < b,
        ;
    }
    push_char(s, digit_char(n % b));
}

/// Appends the low `width` hex digits of `n`, uppercase, with leading zeros.
pub open spec fn upper_hex_fixed(n: nat, width: nat) -> Seq<char>
    decreases width,
{
    if width == 0 {
        Seq::empty()
    } else {
        upper_hex_fixed(n / 16, (width - 1) as nat).push(upper_digit((n % 16) as int))
    }
}

pub fn push_upper_hex_fixed(s: &mut String, n: u64, width: u64)
    ensures
        final(s)@ == old(s)@ + upper_hex_fixed(n as nat, width as nat),
    decreases width,
{
    if width > 0 {
        push_upper_hex_fixed(s, n / 16, width - 1);
        push_char(s, upper_digit_char(n % 16));
    }
}

/// The low `width` decimal digits of `n`, with leading zeros.
pub open spec fn decimal_fixed(n: nat, width: nat) -> Seq<char>
    decreases width,
{
    if width == 0 {
        Seq::empty()
    } else {
        decimal_fixed(n / 10, (width - 1) as nat).push(digit((n % 10) as int))
    }
}

pub fn push_decimal_fixed(s: &mut String, n: u64, width: u64)
    ensures
        final(s)@ == old(s)@ + decimal_fixed(n as nat, width as nat),
    decreases width,
{
    if width > 0 {
        push_decimal_fixed(s, n / 10, width - 1);
        push_char(s, digit_char(n % 10));
    }
}

/// An IPv4 address in dotted decimal.
pub open spec fn ipv4_text(a: Seq<u8>) -> Seq<char> {
    decimal(a[0] as nat) + seq!['.'] + decimal(a[1] as nat) + seq!['.'] + decimal(a[2] as nat)
        + seq!['.'] + decimal(a[3] as nat)
}

/// The 16-bit groups of an IPv6 address from `k` on, each in lowercase hex
/// without leading zeros, separated by colons.
pub open spec fn ipv6_groups(a: Seq<u8>, k: nat) -> Seq<char>
    decreases k,
{
    let g = in_base((a[2 * k as int] as nat) * 256 + a[2 * k as int + 1] as nat, 16);
    if k == 0 {
        g
    } else {
        ipv6_groups(a, (k - 1) as nat) + seq![':'] + g
    }
}

/// An IPv6 address as eight full groups.
pub open spec fn ipv6_text(a: Seq<u8>) -> Seq<char> {
    ipv6_groups(a, 7)
}

pub fn format_ipv4(a: &[u8; 4]) -> (r: String)
    ensures
        r@ == ipv4_text(a@),
{
    let mut s = String::new();
    push_in_base(&mut s, a[0] as u64, 10);
    push_char(&mut s, '.');
    push_in_base(&mut s, a[1] as u64, 10);
    push_char(&mut s, '.');
    push_in_base(&mut s, a[2] as u64, 10);
    push_char(&mut s, '.');
    push_in_base(&mut s, a[3] as u64, 10);
    assert(s@ =~= ipv4_text(a@));
    s
}

pub fn format_ipv6(a: &[u8; 16]) -> (r: String)
    ensures
        r@ == ipv6_text(a@),
{
    let mut s = String::new();
    let mut k: usize = 0;
    while k < 8
        invariant
            k <= 8,
            a@.len() == 16,
            k == 0 ==> s@ == Seq::<char>::empty(),
            k > 0 ==> s@ == ipv6_groups(a@, (k - 1) as nat),
        decreases 8 - k,
    {
        if k > 0 {
            push_char(&mut s, ':');
        }
        let g = (a[2 * k] as u64) * 256 + a[2 * k + 1] as u64;
        push_in_base(&mut s, g, 16);
        proof {
            if k == 0 {
                assert(s@ =~= ipv6_groups(a@, 0));
            } else {
                assert(s@ =~= ipv6_groups(a@, k as nat));
            }
        }
        k = k + 1;
    }
    s
}

} // verus!
