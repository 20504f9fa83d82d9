//! How a file is cut into packets, and how a size is shown to people.
use vstd::prelude::*;

use crate::text::{decimal, digit_char, digit_of, push_char, push_decimal};

verus! {

/// The number of packets of `packet_size` bytes that cover `file_size`
/// bytes: the ceiling of their quotient.
pub open spec fn packet_count(packet_size: nat, file_size: nat) -> nat
    recommends
        packet_size > 0,
{
    if file_size % packet_size == 0 {
        file_size / packet_size
    } else {
        file_size / packet_size + 1
    }
}

/// The packet count is the least number of packets whose combined
/// capacity covers the file, and it is zero exactly for an empty file.
pub proof fn lemma_packet_count_is_ceiling(packet_size: nat, file_size: nat)
    requires
        packet_size > 0,
    ensures
        packet_count(packet_size, file_size) * packet_size >= file_size,
        packet_count(packet_size, file_size) > 0 ==> (packet_count(packet_size, file_size) - 1)
            * packet_size < file_size,
        packet_count(packet_size, file_size) == 0 <==> file_size == 0,
{
    let q = file_size / packet_size;
    let r = file_size % packet_size;
    assert(file_size == q * packet_size + r && 0 <= r < packet_size) by (nonlinear_arith)
        requires
            q == file_size / packet_size,
            r == file_size % packet_size,
            packet_size > 0,
    ;
    if r == 0 {
        assert(q > 0 ==> (q - 1) * packet_size < file_size) by (nonlinear_arith)
            requires
                file_size == q * packet_size,
                packet_size > 0,
        ;
    } else {
        assert((q + 1) * packet_size >= file_size) by (nonlinear_arith)
            requires
                file_size == q * packet_size + r,
                r < packet_size,
        ;
    }
}

/// Number of packets needed to carry `file_size` bytes in packets of
/// `packet_size` bytes; the last packet may be short.
pub fn num_packets(packet_size: u64, file_size: u64) -> (r: u64)
    requires
        packet_size > 0,
    ensures
        r == packet_count(packet_size as nat, file_size as nat),
        r == 0 <==> file_size == 0,
{
    let q = file_size / packet_size;
    proof {
        lemma_packet_count_is_ceiling(packet_size as nat, file_size as nat);
    }
    if file_size % packet_size == 0 {
        q
    } else {
        proof {
            assert(q < file_size) by (nonlinear_arith)
                requires
                    q == file_size / packet_size,
                    packet_size > 0,
                    file_size % packet_size != 0,
            {
                assert(file_size == packet_size * q + file_size % packet_size);
            }
        }
        q + 1
    }
}

/// 1024 to the power `i`.
pub open spec fn unit(i: nat) -> nat
    decreases i,
{
    if i == 0 {
        1
    } else {
        1024 * unit((i - 1) as nat)
    }
}

/// The largest unit, up to petabytes, that is not larger than `size`;
/// bytes for anything under a kilobyte.
pub open spec fn unit_index(size: nat) -> nat {
    if size >= unit(5) {
        5
    } else if size >= unit(4) {
        4
    } else if size >= unit(3) {
        3
    } else if size >= unit(2) {
        2
    } else if size >= unit(1) {
        1
    } else {
        0
    }
}

pub open spec fn unit_name(i: nat) -> Seq<char> {
    if i == 0 {
        "B"@
    } else if i == 1 {
        "KB"@
    } else if i == 2 {
        "MB"@
    } else if i == 3 {
        "GB"@
    } else if i == 4 {
        "TB"@
    } else {
        "PB"@
    }
}

/// `n / d` rounded to the nearest integer, ties to the even one.
pub open spec fn round_half_even(n: nat, d: nat) -> nat
    recommends
        d > 0,
{
    let q = n / d;
    let r = n % d;
    if 2 * r > d || (2 * r == d && q % 2 == 1) {
        q + 1
    } else {
        q
    }
}

/// `size` in its unit, in hundredths, rounded.
pub open spec fn size_hundredths(size: nat) -> nat {
    round_half_even(size * 100, unit(unit_index(size)))
}

/// `size` in its unit with two decimals, then the unit: `1.50 KB`.
pub open spec fn size_text(size: nat) -> Seq<char> {
    let h = size_hundredths(size);
    decimal(h / 100) + seq!['.', digit_char((h % 100) / 10), digit_char(h % 10), ' ']
        + unit_name(unit_index(size))
}

fn unit_of(file_size: u64) -> (r: (u64, u128, &'static str))
    ensures
        r.0 == unit_index(file_size as nat),
        r.1 == unit(r.0 as nat),
        r.2@ == unit_name(r.0 as nat),
        1 <= r.1 <= 1125899906842624,
{
    proof {
        reveal_with_fuel(unit, 6);
    }
    if file_size >= 1125899906842624 {
        (5, 1125899906842624, "PB")
    } else if file_size >= 1099511627776 {
        (4, 1099511627776, "TB")
    } else if file_size >= 1073741824 {
        (3, 1073741824, "GB")
    } else if file_size >= 1048576 {
        (2, 1048576, "MB")
    } else if file_size >= 1024 {
        (1, 1024, "KB")
    } else {
        (0, 1, "B")
    }
}

fn rounded_hundredths(file_size: u64, divisor: u128) -> (h: u128)
    requires
        1 <= divisor <= 1125899906842624,
    ensures
        h == round_half_even(file_size as nat * 100, divisor as nat),
        h / 100 <= file_size,
{
    let n: u128 = file_size as u128 * 100;
    let q = n / divisor;
    let rem = n % divisor;
    assert(rem < divisor);
    let h: u128 = if 2 * rem > divisor || (2 * rem == divisor && q % 2 == 1) {
        q + 1
    } else {
        q
    };
    proof {
        if divisor == 1 {
            assert(q == n && rem == 0) by (nonlinear_arith)
                requires
                    divisor == 1,
                    q == n / divisor,
                    rem == n % divisor,
            ;
        } else {
            assert(q <= n / 2) by (nonlinear_arith)
                requires
                    divisor >= 2,
                    q == n / divisor,
            ;
        }
    }
    h
}

/// A file size for people: in the largest unit (B, KB, MB, GB, TB, PB, by
/// powers of 1024) that it reaches, with two decimals.
pub fn file_size_text(file_size: u64) -> (r: String)
    ensures
        r@ == size_text(file_size as nat),
{
    let (_index, divisor, name) = unit_of(file_size);
    let h = rounded_hundredths(file_size, divisor);
    let whole = (h / 100) as u64;
    let frac = (h % 100) as u64;
    let mut s = String::new();
    push_decimal(&mut s, whole);
    push_char(&mut s, '.');
    push_char(&mut s, digit_of(frac / 10));
    push_char(&mut s, digit_of(frac % 10));
    push_char(&mut s, ' ');
    s.append(name);
    proof {
        assert(s@ =~= size_text(file_size as nat));
    }
    s
}

} // verus!
