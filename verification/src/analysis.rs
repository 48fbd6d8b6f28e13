//! Which posting lists are the largest.

use vstd::prelude::*;

verus! {

/// What `records` hold: for each, the characters of its term and its size.
pub open spec fn entries(records: Seq<(String, u32)>) -> Seq<(Seq<char>, u32)> {
    Seq::new(records.len(), |i: int| (records[i].0@, records[i].1))
}

/// Whether the sizes of `s` descend; equal neighbours are allowed.
pub open spec fn largest_first(s: Seq<(Seq<char>, u32)>) -> bool {
    forall|i: int, j: int| 0 <= i <= j < s.len() ==> s[i].1 >= s[j].1
}

/// The entries of `s` whose size is `g`, in their order.
pub open spec fn of_size(s: Seq<(Seq<char>, u32)>, g: u32) -> Seq<(Seq<char>, u32)> {
    s.filter(|e: (Seq<char>, u32)| e.1 == g)
}

/// Whether `ranked` holds the entries of `s` with the largest first, those
/// of equal size in the order that they have in `s`.
pub open spec fn is_ranking(ranked: Seq<(Seq<char>, u32)>, s: Seq<(Seq<char>, u32)>) -> bool {
    &&& ranked.len() == s.len()
    &&& largest_first(ranked)
    &&& forall|g: u32| of_size(ranked, g) == of_size(s, g)
}

/// `<[T]>::sort_by_key` with the size in `std::cmp::Reverse` as the key:
/// afterwards the sizes descend, and as the sort is stable, the records of
/// each size are those that were there, in the order that they had.
#[verifier::external_body]
fn sort_largest_first(records: &mut Vec<(String, u32)>)
    ensures
        is_ranking(entries(final(records)@), entries(old(records)@)),
{
    records.sort_by_key(|record| std::cmp::Reverse(record.1));
}

/// The `n` largest of `records`, or all of them where there are fewer, the
/// largest first; of two records of equal size the one that came first
/// stays first.
pub fn largest_posting_lists(records: Vec<(String, u32)>, n: usize) -> (out: Vec<(String, usize)>)
    ensures
        out@.len() == if n <= records@.len() {
            n as nat
        } else {
            records@.len()
        },
        exists|ranked: Seq<(Seq<char>, u32)>| #[trigger]
            is_ranking(ranked, entries(records@)) && forall|i: int|
                0 <= i < out@.len() ==> (#[trigger] out@[i]).0@ == ranked[i].0 && out@[i].1
                    == ranked[i].1,
{
    let mut ranked = records;
    sort_largest_first(&mut ranked);
    let mut out: Vec<(String, usize)> = Vec::new();
    let mut i: usize = 0;
    while i < ranked.len() && i < n
        invariant
            i <= ranked@.len(),
            i <= n,
            out@.len() == i,
            forall|k: int|
                0 <= k < out@.len() ==> (#[trigger] out@[k]).0@ == entries(ranked@)[k].0
                    && out@[k].1 == entries(ranked@)[k].1,
        decreases ranked@.len() - i,
    {
        out.push((ranked[i].0.clone(), widen(ranked[i].1)));
        i += 1;
    }
    assert(is_ranking(entries(ranked@), entries(records@)));
    out
}

/// The character of the decimal digit `d`.
pub open spec fn digit(d: nat) -> char {
    seq!['0', '1', '2', '3', '4', '5', '6', '7', '8', '9'][d as int]
}

/// The decimal digits of `n`, without leading zeros.
pub open spec fn decimal(n: nat) -> Seq<char>
    decreases n,
{
    if n < 10 {
        seq![digit(n)]
    } else {
        decimal(n / 10).push(digit(n % 10))
    }
}

/// `n / d` to the nearest whole number; of two that are equally near, the even one.
pub open spec fn nearest(n: nat, d: nat) -> nat {
    if 2 * (n % d) > d || (2 * (n % d) == d && (n / d) % 2 == 1) {
        n / d + 1
    } else {
        n / d
    }
}

/// The distance between the double-precision numbers next to `bytes`, for a
/// number of bytes that a 64-bit word holds: 1 up to 2^53, and twice as much
/// with every further bit.
pub open spec fn double_step(bytes: nat) -> nat {
    if bytes < 0x20_0000_0000_0000 {
        1
    } else if bytes < 0x40_0000_0000_0000 {
        2
    } else if bytes < 0x80_0000_0000_0000 {
        4
    } else if bytes < 0x100_0000_0000_0000 {
        8
    } else if bytes < 0x200_0000_0000_0000 {
        16
    } else if bytes < 0x400_0000_0000_0000 {
        32
    } else if bytes < 0x800_0000_0000_0000 {
        64
    } else if bytes < 0x1000_0000_0000_0000 {
        128
    } else if bytes < 0x2000_0000_0000_0000 {
        256
    } else if bytes < 0x4000_0000_0000_0000 {
        512
    } else if bytes < 0x8000_0000_0000_0000 {
        1024
    } else {
        2048
    }
}

/// The double-precision number nearest to `bytes`; of two that are equally
/// near, the one with the even mantissa.
pub open spec fn as_double(bytes: nat) -> nat {
    nearest(bytes, double_step(bytes)) * double_step(bytes)
}

/// The place of the unit in which `bytes` is shown: 0 for bytes, and one
/// more for every factor of 1024 that the number reaches, up to 4.
pub open spec fn unit_of(bytes: nat) -> nat {
    if bytes < 1024 {
        0
    } else if bytes < 1024 * 1024 {
        1
    } else if bytes < 1024 * 1024 * 1024 {
        2
    } else if bytes < 1024 * 1024 * 1024 * 1024 {
        3
    } else {
        4
    }
}

/// The bytes that make one of the unit at place `unit`.
pub open spec fn unit_bytes(unit: nat) -> nat {
    if unit == 0 {
        1
    } else if unit == 1 {
        1024
    } else if unit == 2 {
        1024 * 1024
    } else if unit == 3 {
        1024 * 1024 * 1024
    } else {
        1024 * 1024 * 1024 * 1024
    }
}

/// The name of the unit at place `unit`.
pub open spec fn unit_name(unit: nat) -> Seq<char> {
    if unit == 0 {
        "B"@
    } else if unit == 1 {
        "KB"@
    } else if unit == 2 {
        "MB"@
    } else if unit == 3 {
        "GB"@
    } else {
        "TB"@
    }
}

/// `bytes` in hundredths of its unit: the double nearest to the number,
/// divided by the unit and rounded to the nearest hundredth, the even one of
/// two that are equally near.
pub open spec fn hundredths(bytes: nat) -> nat {
    nearest(as_double(bytes) * 100, unit_bytes(unit_of(bytes)))
}

/// `bytes` as a person reads it: the number in its unit with two decimals,
/// a space, and the name of the unit.
pub open spec fn readable(bytes: nat) -> Seq<char> {
    shown(hundredths(bytes) / 100, hundredths(bytes) % 100, unit_name(unit_of(bytes)))
}

/// `whole`, a point, the two digits of `cents`, a space, and `unit`.
pub open spec fn shown(whole: nat, cents: nat, unit: Seq<char>) -> Seq<char> {
    decimal(whole) + seq!['.', digit(cents / 10), digit(cents % 10), ' '] + unit
}

/// `format!` with a whole number, a point, a number below 100 in two
/// digits, a space and a string: the decimal digits of the first, the point,
/// the two digits, the space, and the string as it is.
#[verifier::external_body]
fn render(whole: u128, cents: u128, unit: &str) -> (out: String)
    requires
        cents < 100,
    ensures
        out@ == shown(whole as nat, cents as nat, unit@),
{
    format!("{}.{:02} {}", whole, cents, unit)
}

/// `n / d` to the nearest whole number; of two that are equally near, the even one.
fn nearest_of(n: u128, d: u128) -> (q: u128)
    requires
        0 < d <= 0x1_0000_0000_0000_0000,
        n <= 0x1000_0000_0000_0000_0000,
    ensures
        q == nearest(n as nat, d as nat),
        q * d <= n + d,
{
    let q = n / d;
    let r = n % d;
    assert(q * d + r == n && q <= n) by (nonlinear_arith)
        requires
            q == n / d,
            r == n % d,
            d > 0,
    ;
    assert((q + 1) * d == q * d + d) by (nonlinear_arith);
    if r * 2 > d || (r * 2 == d && q % 2 == 1) {
        q + 1
    } else {
        q
    }
}

/// The distance between the double-precision numbers next to `bytes`.
fn double_step_of(bytes: u128) -> (step: u128)
    ensures
        step == double_step(bytes as nat),
        0 < step <= 2048,
{
    if bytes < 0x20_0000_0000_0000 {
        1
    } else if bytes < 0x40_0000_0000_0000 {
        2
    } else if bytes < 0x80_0000_0000_0000 {
        4
    } else if bytes < 0x100_0000_0000_0000 {
        8
    } else if bytes < 0x200_0000_0000_0000 {
        16
    } else if bytes < 0x400_0000_0000_0000 {
        32
    } else if bytes < 0x800_0000_0000_0000 {
        64
    } else if bytes < 0x1000_0000_0000_0000 {
        128
    } else if bytes < 0x2000_0000_0000_0000 {
        256
    } else if bytes < 0x4000_0000_0000_0000 {
        512
    } else if bytes < 0x8000_0000_0000_0000 {
        1024
    } else {
        2048
    }
}

/// `bytes` as a person reads it, in the largest unit from B to TB that the
/// number reaches, with two decimals. The figure is the one that a
/// computation in double precision gives.
pub fn bytes_to_human_readable(bytes: usize) -> (out: String)
    ensures
        out@ == readable(bytes as nat),
{
    let b: u128 = bytes as u128;
    let step = double_step_of(b);
    let mantissa = nearest_of(b, step);
    let double = mantissa * step;
    let h = if b < 1024 {
        nearest_of(double * 100, 1)
    } else if b < 1024 * 1024 {
        nearest_of(double * 100, 1024)
    } else if b < 1024 * 1024 * 1024 {
        nearest_of(double * 100, 1024 * 1024)
    } else if b < 1024 * 1024 * 1024 * 1024 {
        nearest_of(double * 100, 1024 * 1024 * 1024)
    } else {
        nearest_of(double * 100, 1024 * 1024 * 1024 * 1024)
    };
    let unit = if b < 1024 {
        "B"
    } else if b < 1024 * 1024 {
        "KB"
    } else if b < 1024 * 1024 * 1024 {
        "MB"
    } else if b < 1024 * 1024 * 1024 * 1024 {
        "GB"
    } else {
        "TB"
    };
    render(h / 100, h % 100, unit)
}

/// `size` as a machine word.
fn widen(size: u32) -> (w: usize)
    ensures
        w == size,
{
    size as usize
}

} // verus!
