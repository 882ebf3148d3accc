//! Human-readable sizes, permission strings and octal modes.
use vstd::prelude::*;
use vstd::arithmetic::div_mod::lemma_fundamental_div_mod;
use vstd::arithmetic::div_mod::lemma_fundamental_div_mod_converse;
use crate::text::decimal;
use crate::text::digit;
use crate::text::digit_char;
use crate::text::push_char;
use crate::text::push_decimal;

verus! {

/// `1024` raised to the power `k`.
pub open spec fn pow1024(k: nat) -> nat
    decreases k,
{
    if k == 0 {
        1
    } else {
        1024 * pow1024((k - 1) as nat)
    }
}

/// The index of the unit in which `b` bytes are shown, starting from unit
/// `k`: the count is divided by 1024 while it stays at least 1024 and a larger
/// unit remains (the largest is EB, index 6).
pub open spec fn unit_step(b: nat, k: nat) -> nat
    decreases 6 - k,
{
    if k < 6 && b / pow1024(k) >= 1024 {
        unit_step(b, k + 1)
    } else {
        k
    }
}

/// The symbol of unit `k`: B, KB, MB, GB, TB, PB, EB.
pub open spec fn unit_name(k: nat) -> Seq<char> {
    if k == 0 {
        seq!['B']
    } else {
        let p = if k == 1 {
            'K'
        } else if k == 2 {
            'M'
        } else if k == 3 {
            'G'
        } else if k == 4 {
            'T'
        } else if k == 5 {
            'P'
        } else {
            'E'
        };
        seq![p, 'B']
    }
}

/// `n / d` rounded to the nearest integer, ties to the even neighbour.
pub open spec fn round_half_even(n: nat, d: nat) -> nat {
    let q = n / d;
    let r = n % d;
    if 2 * r > d || (2 * r == d && q % 2 == 1) {
        q + 1
    } else {
        q
    }
}

/// The text of a byte count: "0 B" for zero, else the count in its unit,
/// rounded to one decimal place, a space and the unit's symbol.
pub open spec fn bytes_text(b: nat) -> Seq<char> {
    if b == 0 {
        seq!['0', ' ', 'B']
    } else {
        let k = unit_step(b, 0);
        let t = round_half_even(10 * b, pow1024(k));
        decimal(t / 10) + seq!['.', digit_char(t % 10), ' '] + unit_name(k)
    }
}

/// However large the count, its unit is at most EB (index 6).
pub proof fn lemma_largest_unit(b: nat, k: nat)
    requires
        k <= 6,
    ensures
        k <= unit_step(b, k) <= 6,
    decreases 6 - k,
{
    if k < 6 {
        lemma_largest_unit(b, k + 1);
    }
}

proof fn lemma_pow1024_bound(k: nat)
    requires
        k <= 6,
    ensures
        pow1024(k) <= 1152921504606846976,
        pow1024(k) >= 1,
        k == 6 ==> pow1024(k) == 1152921504606846976,
{
    reveal_with_fuel(pow1024, 7);
}

/// Formats a byte count with base-1024 units, one decimal place, up to EB.
pub fn format_bytes(bytes: u64) -> (r: String)
    ensures
        r@ == bytes_text(bytes as nat),
{
    let mut s = String::new();
    if bytes == 0 {
        push_char(&mut s, '0');
        push_char(&mut s, ' ');
        push_char(&mut s, 'B');
        assert(s@ =~= bytes_text(0));
        return s;
    }
    let mut div: u64 = 1;
    let mut k: usize = 0;
    while k < 6 && bytes / div >= 1024
        invariant
            k <= 6,
            div >= 1,
            div as nat == pow1024(k as nat),
            unit_step(bytes as nat, k as nat) == unit_step(bytes as nat, 0),
        decreases 6 - k,
    {
        proof {
            lemma_pow1024_bound(k as nat);
            lemma_pow1024_bound((k + 1) as nat);
        }
        div = div * 1024;
        k = k + 1;
    }
    proof {
        lemma_pow1024_bound(k as nat);
    }
    let q = bytes / div;
    let r = bytes % div;
    assert(k < 6 ==> q < 1024);
    if k == 6 {
        assert(bytes / 1152921504606846976u64 < 16);
    }
    assert(r * 10 < 0x10000000000000000) by (nonlinear_arith)
        requires
            r < div,
            div <= 1152921504606846976,
    ;
    let r10 = r * 10;
    let f = r10 / div;
    let rem = r10 % div;
    assert(f < 10) by (nonlinear_arith)
        requires
            r < div,
            r10 == r * 10,
            f == r10 / div,
            div >= 1,
    ;
    let t = if 2 * rem > div || (2 * rem == div && f % 2 == 1) {
        q * 10 + f + 1
    } else {
        q * 10 + f
    };
    proof {
        let b = bytes as int;
        let d = div as int;
        lemma_fundamental_div_mod(b, d);
        lemma_fundamental_div_mod(r10 as int, d);
        assert(10 * b == (10 * q + f) * d + rem) by (nonlinear_arith)
            requires
                b == d * q + r,
                r10 == d * f + rem,
                r10 == r * 10,
        ;
        lemma_fundamental_div_mod_converse(10 * b, d, 10 * q + f, rem as int);
        assert((10 * q + f) % 2 == f % 2);
        assert(t as nat == round_half_even((10 * b) as nat, d as nat));
    }
    push_decimal(&mut s, t / 10);
    push_char(&mut s, '.');
    push_char(&mut s, digit(t % 10));
    push_char(&mut s, ' ');
    if k == 0 {
        push_char(&mut s, 'B');
    } else {
        let p = if k == 1 {
            'K'
        } else if k == 2 {
            'M'
        } else if k == 3 {
            'G'
        } else if k == 4 {
            'T'
        } else if k == 5 {
            'P'
        } else {
            'E'
        };
        push_char(&mut s, p);
        push_char(&mut s, 'B');
    }
    assert(s@ =~= bytes_text(bytes as nat));
    s
}

/// The first character of a permission string: 'd' for a directory, 'l' for
/// a symbolic link, '-' for anything else.
pub open spec fn kind_char(is_dir: bool, is_symlink: bool) -> char {
    if is_dir {
        'd'
    } else if is_symlink {
        'l'
    } else {
        '-'
    }
}

/// `c` where `mode` has `bit` set, '-' where it does not.
pub open spec fn flag_char(mode: u32, bit: u32, c: char) -> char {
    if mode & bit != 0 {
        c
    } else {
        '-'
    }
}

/// The ten-character permission string of a long listing: the kind, then
/// read, write and execute for owner, group and others.
pub open spec fn mode_text(mode: u32, is_dir: bool, is_symlink: bool) -> Seq<char> {
    seq![
        kind_char(is_dir, is_symlink),
        flag_char(mode, 0o400, 'r'),
        flag_char(mode, 0o200, 'w'),
        flag_char(mode, 0o100, 'x'),
        flag_char(mode, 0o040, 'r'),
        flag_char(mode, 0o020, 'w'),
        flag_char(mode, 0o010, 'x'),
        flag_char(mode, 0o004, 'r'),
        flag_char(mode, 0o002, 'w'),
        flag_char(mode, 0o001, 'x'),
    ]
}

/// The low nine bits of `mode` as three octal digits, zero-padded.
pub open spec fn octal_text(mode: u32) -> Seq<char> {
    let m = (mode as nat) % 512;
    seq![digit_char(m / 64), digit_char((m / 8) % 8), digit_char(m % 8)]
}

fn flag(mode: u32, bit: u32, c: char) -> (r: char)
    ensures
        r == flag_char(mode, bit, c),
{
    if mode & bit != 0 {
        c
    } else {
        '-'
    }
}

/// Formats the permission string of an entry from its mode bits.
pub fn format_mode_str(mode: u32, is_dir: bool, is_symlink: bool) -> (r: String)
    ensures
        r@ == mode_text(mode, is_dir, is_symlink),
        r@.len() == 10,
{
    let mut s = String::new();
    push_char(
        &mut s,
        if is_dir {
            'd'
        } else if is_symlink {
            'l'
        } else {
            '-'
        },
    );
    push_char(&mut s, flag(mode, 0o400, 'r'));
    push_char(&mut s, flag(mode, 0o200, 'w'));
    push_char(&mut s, flag(mode, 0o100, 'x'));
    push_char(&mut s, flag(mode, 0o040, 'r'));
    push_char(&mut s, flag(mode, 0o020, 'w'));
    push_char(&mut s, flag(mode, 0o010, 'x'));
    push_char(&mut s, flag(mode, 0o004, 'r'));
    push_char(&mut s, flag(mode, 0o002, 'w'));
    push_char(&mut s, flag(mode, 0o001, 'x'));
    assert(s@ =~= mode_text(mode, is_dir, is_symlink));
    s
}

/// Formats the permission bits of `mode` (its low nine bits) as three octal
/// digits.
pub fn format_octal(mode: u32) -> (r: String)
    ensures
        r@ == octal_text(mode),
        r@.len() == 3,
{
    let m = mode & 0o777;
    assert(m == mode % 512) by (bit_vector)
        requires
            m == mode & 0o777,
    ;
    let mut s = String::new();
    push_char(&mut s, digit((m / 64) as u64));
    push_char(&mut s, digit(((m / 8) % 8) as u64));
    push_char(&mut s, digit((m % 8) as u64));
    assert(s@ =~= octal_text(mode));
    s
}

} // verus!
