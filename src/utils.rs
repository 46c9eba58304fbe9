use vstd::prelude::*;

verus! {

/// `n` is a positive power of two.
pub open spec fn is_pow2(n: int) -> bool
    decreases n,
{
    if n <= 0 {
        false
    } else if n == 1 {
        true
    } else {
        n % 2 == 0 && is_pow2(n / 2)
    }
}

/// The greatest multiple of `align` that is not above `addr`.
pub open spec fn align_down_spec(addr: int, align: int) -> int {
    addr - addr % align
}

/// The least multiple of `align` that is not below `addr`.
pub open spec fn align_up_spec(addr: int, align: int) -> int {
    if addr % align == 0 {
        addr
    } else {
        addr - addr % align + align
    }
}

/// Align downwards: the greatest `x <= addr` with `x % align == 0`.
///
/// An alignment of zero leaves the address as it is.
pub fn align_down(addr: usize, align: usize) -> (r: usize)
    requires
        align == 0 || is_pow2(align as int),
    ensures
        align == 0 ==> r == addr,
        align > 0 ==> r == align_down_spec(addr as int, align as int),
        align > 0 ==> r % align == 0 && r <= addr && addr < r + align,
{
    if align == 0 {
        addr
    } else {
        proof {
            lemma_align_down_facts(addr as int, align as int);
        }
        addr - addr % align
    }
}

proof fn lemma_align_down_facts(a: int, k: int)
    requires
        a >= 0,
        k > 0,
    ensures
        0 <= a % k < k,
        a % k <= a,
        align_down_spec(a, k) % k == 0,
{
    vstd::arithmetic::div_mod::lemma_div_pos_is_pos(a, k);
    assert(k * (a / k) >= 0) by (nonlinear_arith)
        requires
            k > 0,
            a / k >= 0,
    ;
    vstd::arithmetic::div_mod::lemma_fundamental_div_mod(a, k);
    vstd::arithmetic::div_mod::lemma_mod_multiples_basic(a / k, k);
    assert(k * (a / k) == (a / k) * k) by (nonlinear_arith);
}

/// Align upwards: the least `x >= addr` with `x % align == 0`.
pub fn align_up(addr: usize, align: usize) -> (r: usize)
    requires
        is_pow2(align as int),
        addr + align - 1 <= usize::MAX,
    ensures
        r == align_up_spec(addr as int, align as int),
        r % align == 0,
        addr <= r < addr + align,
{
    let r = align_down(addr + (align - 1), align);
    assert(r == align_up_spec(addr as int, align as int)) by {
        let a = addr as int;
        let k = align as int;
        assert(k > 0) by { reveal_with_fuel(is_pow2, 1); }
        lemma_align_up_via_down(a, k);
    }
    r
}

/// Rounding up to a multiple of `k` lands on the least multiple of `k` not below `a`.
pub proof fn lemma_align_up_via_down(a: int, k: int)
    requires
        a >= 0,
        k > 0,
    ensures
        align_down_spec(a + k - 1, k) == align_up_spec(a, k),
        align_up_spec(a, k) % k == 0,
        a <= align_up_spec(a, k) < a + k,
{
    let q = a / k;
    let m = a % k;
    vstd::arithmetic::div_mod::lemma_fundamental_div_mod(a, k);
    assert(k * q == q * k) by (nonlinear_arith);
    if m == 0 {
        vstd::arithmetic::div_mod::lemma_fundamental_div_mod_converse(a + k - 1, k, q, k - 1);
        vstd::arithmetic::div_mod::lemma_mod_multiples_basic(q, k);
    } else {
        assert((q + 1) * k == q * k + k) by (nonlinear_arith);
        assert(k * q == q * k) by (nonlinear_arith);
        vstd::arithmetic::div_mod::lemma_fundamental_div_mod_converse(a + k - 1, k, q + 1, m - 1);
        vstd::arithmetic::div_mod::lemma_mod_multiples_basic(q + 1, k);
    }
}

/// Of two powers of two, the larger is a multiple of the smaller.
pub proof fn lemma_pow2_divides(a: int, b: int)
    requires
        is_pow2(a),
        is_pow2(b),
        a <= b,
    ensures
        b % a == 0,
    decreases b,
{
    if a == 1 {
    } else {
        assert(a > 1 && b > 1);
        assert(a % 2 == 0 && is_pow2(a / 2));
        assert(b % 2 == 0 && is_pow2(b / 2));
        lemma_pow2_divides(a / 2, b / 2);
        let k = (b / 2) / (a / 2);
        vstd::arithmetic::div_mod::lemma_fundamental_div_mod(b / 2, a / 2);
        assert(b / 2 == (a / 2) * k);
        assert(b == a * k) by (nonlinear_arith)
            requires
                b / 2 == (a / 2) * k,
                b % 2 == 0,
                a % 2 == 0,
        ;
        vstd::arithmetic::div_mod::lemma_mod_multiples_basic(k, a);
        assert(k * a == a * k) by (nonlinear_arith);
    }
}

/// Whether `n` is a positive power of two.
pub fn is_power_of_two(n: usize) -> (r: bool)
    ensures
        r == is_pow2(n as int),
{
    if n == 0 {
        return false;
    }
    let mut m: usize = n;
    while m > 1 && m % 2 == 0
        invariant
            m > 0,
            is_pow2(n as int) == is_pow2(m as int),
        decreases m,
    {
        m = m / 2;
    }
    proof {
        reveal_with_fuel(is_pow2, 2);
    }
    m == 1
}

/// `n` shifted right by `i` hex digits.
pub open spec fn shifted(n: nat, i: nat) -> nat
    decreases i,
{
    if i == 0 {
        n
    } else {
        shifted(n, (i - 1) as nat) / 16
    }
}

/// The ASCII character of hex digit `d`: `0` is 48 and `A` is 65.
pub open spec fn hex_digit(d: nat) -> u8 {
    if d < 10 {
        (d + 48) as u8
    } else {
        (d - 10 + 65) as u8
    }
}

/// The lowest `len` hex digits of `n`, most significant first.
pub open spec fn hex_digits(n: nat, len: nat) -> Seq<u8> {
    Seq::new(len, |k: int| hex_digit(shifted(n, (len - 1 - k) as nat) % 16))
}

/// The number of hex digits in a `usize`: two for each byte.
pub open spec fn hex_width() -> nat {
    2 * vstd::layout::size_of::<usize>()
}

/// Writes the hex digits of `number`, one for each nibble of a `usize`, into
/// the last `hex_width()` bytes of `buf`, most significant first, in upper
/// case. The bytes in front of them are left as they are.
pub fn write_hex(number: usize, buf: &mut [u8])
    requires
        old(buf)@.len() >= hex_width(),
    ensures
        final(buf)@.len() == old(buf)@.len(),
        forall|j: int| 0 <= j < old(buf)@.len() - hex_width() ==> final(buf)@[j] == old(buf)@[j],
        final(buf)@.subrange(old(buf)@.len() - hex_width(), old(buf)@.len() as int) == hex_digits(
            number as nat,
            hex_width(),
        ),
{
    broadcast use vstd::layout::layout_of_primitives;

    let width = 2 * core::mem::size_of::<usize>();
    let len = buf.len();
    let mut rest: usize = number;
    let mut i: usize = 0;
    while i < width
        invariant
            width == hex_width(),
            len == buf@.len(),
            len == old(buf)@.len(),
            width <= len,
            0 <= i <= width,
            rest == shifted(number as nat, i as nat),
            forall|j: int| 0 <= j < len - i ==> buf@[j] == old(buf)@[j],
            forall|k: int|
                width - i <= k < width ==> buf@[len - width + k] == #[trigger] hex_digits(
                    number as nat,
                    width as nat,
                )[k],
        decreases width - i,
    {
        let d = (rest % 16) as u8;
        let c: u8 = if d < 10 {
            d + 48
        } else {
            d - 10 + 65
        };
        buf[len - 1 - i] = c;
        rest = rest / 16;
        i = i + 1;
    }
    assert(buf@.subrange(len - width, len as int) =~= hex_digits(number as nat, width as nat));
}

/// The name of the kernel mutex kept at address `addr`: the ASCII bytes of
/// `__rust_mutex_0x`, the hex digits of the address, and a terminating zero.
pub open spec fn mutex_name_spec(addr: nat) -> Seq<u8> {
    seq![95u8, 95, 114, 117, 115, 116, 95, 109, 117, 116, 101, 120, 95, 48, 120] + hex_digits(
        addr,
        hex_width(),
    ) + seq![0u8]
}

/// Builds the name of the kernel mutex kept at address `addr`.
pub fn mutex_name(addr: usize) -> (r: Vec<u8>)
    ensures
        r@ == mutex_name_spec(addr as nat),
{
    broadcast use vstd::layout::layout_of_primitives;

    let mut name: Vec<u8> = vec![
        95u8, 95, 114, 117, 115, 116, 95, 109, 117, 116, 101, 120, 95, 48, 120,
    ];
    let width = 2 * core::mem::size_of::<usize>();
    let mut digits: Vec<u8> = vec![0u8; width];
    write_hex(addr, digits.as_mut_slice());
    assert(digits@.subrange(0, width as int) =~= digits@);
    let mut i: usize = 0;
    while i < width
        invariant
            width == hex_width(),
            digits@ == hex_digits(addr as nat, width as nat),
            0 <= i <= width,
            name@ == seq![95u8, 95, 114, 117, 115, 116, 95, 109, 117, 116, 101, 120, 95, 48, 120]
                + digits@.take(i as int),
        decreases width - i,
    {
        name.push(digits[i]);
        i = i + 1;
        assert(digits@.take(i as int) =~= digits@.take(i - 1).push(digits@[i - 1]));
    }
    name.push(0u8);
    assert(digits@.take(width as int) =~= digits@);
    name
}

} // verus!
