//! The ids of jobs and streaming sessions: random UUIDs, held by their 128-bit
//! value.

use vstd::arithmetic::power::pow;
use vstd::prelude::*;

verus! {

/// The value has the shape of a random UUID: the version field holds 4 and the
/// variant field holds the bits `10`.
pub open spec fn is_random_uuid(id: u128) -> bool {
    &&& (id / 0x1000_0000_0000_0000_0000) % 16 == 4
    &&& (id / 0x4000_0000_0000_0000) % 4 == 2
}

/// The hexadecimal digit of value `n`, in lower case.
pub open spec fn hex_char(n: int) -> char {
    if n < 10 {
        ('0' as int + n) as char
    } else {
        ('a' as int + n - 10) as char
    }
}

/// The digit number `k` of the 32 hexadecimal digits of `id`, the most
/// significant one being number 0.
pub open spec fn hex_digit(id: u128, k: int) -> char {
    hex_char((id as int / pow(16, (31 - k) as nat)) % 16)
}

/// The text of an id: its 32 digits in groups of 8, 4, 4, 4 and 12 with a
/// hyphen in between.
pub open spec fn hyphenated(id: u128) -> Seq<char> {
    Seq::new(
        36,
        |i: int|
            if i == 8 || i == 13 || i == 18 || i == 23 {
                '-'
            } else if i < 8 {
                hex_digit(id, i)
            } else if i < 13 {
                hex_digit(id, i - 1)
            } else if i < 18 {
                hex_digit(id, i - 2)
            } else if i < 23 {
                hex_digit(id, i - 3)
            } else {
                hex_digit(id, i - 4)
            },
    )
}

/// Calls `uuid::Uuid::new_v4`, which draws a random UUID from the operating
/// system: of the 128 bits only the version and the variant are fixed. Nothing
/// is said of the others, not even that two calls give different ids. It panics
/// where the operating system has no random bytes to give.
#[verifier::external_body]
pub(crate) fn fresh_id() -> (id: u128)
    ensures
        is_random_uuid(id),
{
    uuid::Uuid::new_v4().as_u128()
}

/// Calls `to_string` on the `uuid::Uuid` with this value, which writes it in
/// lower-case hexadecimal digits with hyphens.
#[verifier::external_body]
pub(crate) fn id_text(id: u128) -> (out: String)
    ensures
        out@ == hyphenated(id),
{
    uuid::Uuid::from_u128(id).to_string()
}

proof fn lemma_hex_char_tells_apart(m: int, n: int)
    requires
        0 <= m < 16,
        0 <= n < 16,
        hex_char(m) == hex_char(n),
    ensures
        m == n,
{
}

/// The digits from number `k` on are those of the value without what stands in
/// front of them, so equal digits up to number `k` mean equal fronts.
proof fn lemma_equal_fronts(a: u128, b: u128, k: int)
    requires
        0 <= k <= 32,
        forall|j: int| 0 <= j < k ==> #[trigger] hex_digit(a, j) == hex_digit(b, j),
    ensures
        a as int / pow(16, (32 - k) as nat) == b as int / pow(16, (32 - k) as nat),
    decreases k,
{
    if k == 0 {
        lemma_pow_32();
        let p = pow(16, 32);
        assert(a as int / p == 0 && b as int / p == 0) by (nonlinear_arith)
            requires
                p == 0x1_0000_0000_0000_0000_0000_0000_0000_0000int,
        ;
    } else {
        lemma_equal_fronts(a, b, k - 1);
        let e = (32 - k) as nat;
        let p = pow(16, e);
        vstd::arithmetic::power::lemma_pow_positive(16, e);
        vstd::arithmetic::power::lemma_pow1(16);
        vstd::arithmetic::power::lemma_pow_adds(16, e, 1);
        assert(pow(16, e + 1) == p * 16);
        vstd::arithmetic::div_mod::lemma_div_denominator(a as int, p, 16);
        vstd::arithmetic::div_mod::lemma_div_denominator(b as int, p, 16);
        let x = a as int / p;
        let y = b as int / p;
        assert(hex_digit(a, k - 1) == hex_digit(b, k - 1));
        lemma_hex_char_tells_apart(x % 16, y % 16);
        assert(x / 16 == y / 16);
        assert(x == y);
    }
}

proof fn lemma_pow_32()
    ensures
        pow(16, 32) == 0x1_0000_0000_0000_0000_0000_0000_0000_0000int,
{
    vstd::arithmetic::power::lemma_pow_adds(16, 16, 16);
    vstd::arithmetic::power::lemma_pow_adds(16, 8, 8);
    assert(pow(16, 8) == 0x1_0000_0000) by {
        reveal_with_fuel(pow, 9);
    }
    assert(0x1_0000_0000int * 0x1_0000_0000int == 0x1_0000_0000_0000_0000int) by (nonlinear_arith);
    assert(0x1_0000_0000_0000_0000int * 0x1_0000_0000_0000_0000int
        == 0x1_0000_0000_0000_0000_0000_0000_0000_0000int) by (nonlinear_arith);
}

/// Different ids have different texts.
pub proof fn law_texts_tell_ids_apart(a: u128, b: u128)
    requires
        hyphenated(a) == hyphenated(b),
    ensures
        a == b,
{
    assert forall|k: int| 0 <= k < 32 implies #[trigger] hex_digit(a, k) == hex_digit(b, k) by {
        let i = if k < 8 {
            k
        } else if k < 12 {
            k + 1
        } else if k < 16 {
            k + 2
        } else if k < 20 {
            k + 3
        } else {
            k + 4
        };
        assert(hyphenated(a)[i] == hex_digit(a, k));
        assert(hyphenated(b)[i] == hex_digit(b, k));
    }
    lemma_equal_fronts(a, b, 32);
    vstd::arithmetic::power::lemma_pow0(16);
}

} // verus!
