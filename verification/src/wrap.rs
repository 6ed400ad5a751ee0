use vstd::prelude::*;

use vstd::arithmetic::div_mod::{
    lemma_add_mod_noop, lemma_mod_bound, lemma_mod_sub_multiples_vanish, lemma_small_mod,
};
use vstd::arithmetic::mul::{
    lemma_mul_basics, lemma_mul_is_distributive_add_other_way, lemma_mul_nonnegative,
};

verus! {

/// `a` reduced into one byte: the wrapping arithmetic of a memory cell.
pub open spec fn wrap8(a: int) -> u8 {
    (a % 256) as u8
}

/// `a` reduced into the 16-bit address space of the tape.
pub open spec fn wrap16(a: int) -> u16 {
    (a % 65536) as u16
}

/// Adding `b < m` to `a` commutes with first reducing `a` modulo `m`.
pub proof fn lemma_wrap_add(a: int, b: int, m: int)
    requires
        0 <= a,
        0 <= b < m,
    ensures
        0 <= a % m < m,
        (a + b) % m == if a % m + b >= m {
            a % m + b - m
        } else {
            a % m + b
        },
{
    lemma_mod_bound(a, m);
    lemma_small_mod(b as nat, m as nat);
    lemma_add_mod_noop(a, b, m);
    let r = a % m + b;
    if r >= m {
        lemma_mod_sub_multiples_vanish(r, m);
        lemma_small_mod((r - m) as nat, m as nat);
    } else {
        lemma_small_mod(r as nat, m as nat);
    }
}

/// Byte addition wraps exactly as `wrap8` says.
pub proof fn lemma_wrap8_u8(a: u8, b: u8)
    ensures
        wrap8(a + b) == if a + b > 255 {
            (a + b - 256) as u8
        } else {
            (a + b) as u8
        },
{
    lemma_small_mod(a as nat, 256);
    lemma_wrap_add(a as int, b as int, 256);
}

/// Sixteen-bit addition wraps exactly as `wrap16` says.
pub proof fn lemma_wrap16_u16(a: u16, b: u16)
    ensures
        wrap16(a + b) == if a + b > 65535 {
            (a + b - 65536) as u16
        } else {
            (a + b) as u16
        },
{
    lemma_small_mod(a as nat, 65536);
    lemma_wrap_add(a as int, b as int, 65536);
}

/// Reducing modulo `m` first changes nothing about a later addition.
pub proof fn lemma_wrap_compose(a: int, b: int, m: int)
    requires
        0 <= a,
        0 <= b,
        0 < m,
    ensures
        (a % m + b) % m == (a + b) % m,
{
    vstd::arithmetic::div_mod::lemma_fundamental_div_mod(a, m);
    vstd::arithmetic::div_mod::lemma_mod_multiples_vanish(a / m, a % m + b, m);
}

/// The value after `j + 1` wrapping additions of `v`, from the value after
/// `j` of them.
pub proof fn lemma_wrap_seq_step(start: int, v: int, j: nat, m: int)
    requires
        0 <= start,
        0 <= v < m,
    ensures
        0 <= (start + j * v) % m < m,
        (start + (j + 1) * v) % m == if (start + j * v) % m + v >= m {
            (start + j * v) % m + v - m
        } else {
            (start + j * v) % m + v
        },
{
    lemma_mul_nonnegative(j as int, v);
    lemma_mul_is_distributive_add_other_way(v, j as int, 1);
    lemma_mul_basics(v);
    assert((j + 1) * v == j * v + v);
    lemma_wrap_add(start + j * v, v, m);
}

} // verus!
