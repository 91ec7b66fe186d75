use vstd::prelude::*;

verus! {

/// The ASCII code of the digit zero.
pub const ASCII_ZERO: u8 = 48;

/// The ASCII code of the digit `d`.
pub open spec fn digit_char(d: int) -> u8 {
    (48 + d) as u8
}

/// The decimal representation of `v`, most significant digit first, without
/// leading zeros ("0" for zero).
pub open spec fn decimal(v: nat) -> Seq<u8>
    decreases v,
{
    if v < 10 {
        seq![digit_char(v as int)]
    } else {
        decimal(v / 10).push(digit_char((v % 10) as int))
    }
}

/// The four decimal digits of `i` (below 10000), leading zeros kept.
pub open spec fn quad(i: int) -> Seq<u8> {
    seq![
        digit_char(i / 1000),
        digit_char((i / 100) % 10),
        digit_char((i / 10) % 10),
        digit_char(i % 10),
    ]
}

/// The number of decimal digits of `v` (below 10000).
pub open spec fn small_width(v: int) -> int {
    if v < 10 {
        1
    } else if v < 100 {
        2
    } else if v < 1000 {
        3
    } else {
        4
    }
}

/// The four-digit ASCII form of every integer in `[0, 9999]`, built once and
/// only read afterwards.
pub struct DigitTable {
    quads: Vec<[u8; 4]>,
}

impl DigitTable {
    /// Entry `i` holds the four digits of `i`, for each `i` below 10000.
    pub closed spec fn wf(&self) -> bool {
        &&& self.quads@.len() == 10000
        &&& forall|i: int| 0 <= i < 10000 ==> #[trigger] self.quads@[i]@ == quad(i)
    }

    /// Builds the table.
    pub fn new() -> (t: DigitTable)
        ensures
            t.wf(),
    {
        let mut quads: Vec<[u8; 4]> = Vec::new();
        let mut i: usize = 0;
        while i < 10000
            invariant
                i <= 10000,
                quads@.len() == i,
                forall|j: int| 0 <= j < i ==> #[trigger] quads@[j]@ == quad(j),
            decreases 10000 - i,
        {
            let entry: [u8; 4] = [
                ASCII_ZERO + (i / 1000) as u8,
                ASCII_ZERO + ((i / 100) % 10) as u8,
                ASCII_ZERO + ((i / 10) % 10) as u8,
                ASCII_ZERO + (i % 10) as u8,
            ];
            assert(entry@ =~= quad(i as int));
            quads.push(entry);
            i = i + 1;
        }
        DigitTable { quads }
    }

    /// The four digits of `i`.
    fn get(&self, i: u32) -> (r: [u8; 4])
        requires
            self.wf(),
            i < 10000,
        ensures
            r@ == quad(i as int),
    {
        self.quads[i as usize]
    }
}

/// Appending a digit to the decimal form of a positive number.
proof fn lemma_decimal_push(q: nat, d: nat)
    requires
        q >= 1,
        d < 10,
    ensures
        decimal(10 * q + d) == decimal(q).push(digit_char(d as int)),
{
    let v = 10 * q + d;
    assert(v / 10 == q && v % 10 == d) by (nonlinear_arith)
        requires
            v == 10 * q + d,
            d < 10,
    ;
}

/// A positive number with four more digits appended.
proof fn lemma_decimal_quad(q: nat, r: nat)
    requires
        q >= 1,
        r < 10000,
    ensures
        decimal(q * 10000 + r) == decimal(q) + quad(r as int),
{
    let r1 = r / 10;
    let r2 = r / 100;
    let r3 = r / 1000;
    assert(r1 == 10 * r2 + r1 % 10 && r == 10 * r1 + r % 10 && r2 == 10 * r3 + r2 % 10
        && r3 < 10 && r2 % 10 == (r / 100) % 10 && r1 % 10 == (r / 10) % 10) by (nonlinear_arith)
        requires
            r1 == r / 10,
            r2 == r / 100,
            r3 == r / 1000,
            r < 10000,
    ;
    let v3 = q * 10 + r3;
    let v2 = q * 100 + r2;
    let v1 = q * 1000 + r1;
    let v = q * 10000 + r;
    assert(v2 == 10 * v3 + r2 % 10 && v1 == 10 * v2 + r1 % 10 && v == 10 * v1 + r % 10)
        by (nonlinear_arith)
        requires
            r1 == 10 * r2 + r1 % 10,
            r == 10 * r1 + r % 10,
            r2 == 10 * r3 + r2 % 10,
            v3 == q * 10 + r3,
            v2 == q * 100 + r2,
            v1 == q * 1000 + r1,
            v == q * 10000 + r,
    ;
    lemma_decimal_push(q, r3);
    lemma_decimal_push(v3, (r2 % 10) as nat);
    lemma_decimal_push(v2, (r1 % 10) as nat);
    lemma_decimal_push(v1, (r % 10) as nat);
    assert(decimal(v) =~= decimal(q) + quad(r as int));
}

/// The decimal form of a number below 10000 is the tail of its four digits.
proof fn lemma_decimal_small(v: nat)
    requires
        v < 10000,
    ensures
        decimal(v) == quad(v as int).subrange(4 - small_width(v as int), 4),
{
    if v < 10 {
        assert(decimal(v) =~= quad(v as int).subrange(3, 4));
    } else if v < 100 {
        lemma_decimal_push(v / 10, v % 10);
        assert(v / 10 < 10 && (v / 10) % 10 == v / 10);
        assert(decimal(v) =~= quad(v as int).subrange(2, 4));
    } else if v < 1000 {
        let t = v / 10;
        assert(t / 10 == v / 100 && t % 10 == (v / 10) % 10 && (v / 100) % 10 == v / 100);
        lemma_decimal_push(t / 10, t % 10);
        lemma_decimal_push(t, v % 10);
        assert(decimal(v) =~= quad(v as int).subrange(1, 4));
    } else {
        let t = v / 10;
        let s = t / 10;
        assert(s == v / 100 && s / 10 == v / 1000 && s % 10 == (v / 100) % 10 && t % 10 == (v
            / 10) % 10);
        lemma_decimal_push(s / 10, s % 10);
        lemma_decimal_push(s, t % 10);
        lemma_decimal_push(t, v % 10);
        assert(decimal(v) =~= quad(v as int));
    }
}

/// The number that the ASCII digit string `s` spells, most significant first.
pub open spec fn digits_value(s: Seq<u8>) -> int
    decreases s.len(),
{
    if s.len() == 0 {
        0
    } else {
        digits_value(s.drop_last()) * 10 + (s.last() - 48)
    }
}

/// `decimal(v)` is the decimal form of `v`: one or more ASCII digits that
/// spell `v`, the first of them zero only for zero itself.
pub proof fn lemma_decimal_exact(v: nat)
    ensures
        decimal(v).len() >= 1,
        forall|i: int| 0 <= i < decimal(v).len() ==> 48 <= #[trigger] decimal(v)[i] <= 57,
        v > 0 ==> decimal(v)[0] != 48,
        digits_value(decimal(v)) == v,
    decreases v,
{
    if v >= 10 {
        lemma_decimal_exact(v / 10);
        let p = decimal(v / 10);
        let d = decimal(v);
        assert(d.drop_last() =~= p);
        assert(d[0] == p[0]);
        assert forall|i: int| 0 <= i < d.len() implies 48 <= #[trigger] d[i] <= 57 by {
            if i < p.len() {
                assert(d[i] == p[i]);
            }
        }
        assert(v == (v / 10) * 10 + v % 10);
        assert(d.last() == digit_char((v % 10) as int));
        assert(digit_char((v % 10) as int) as int == 48 + v % 10);
        assert(digits_value(d) == digits_value(p) * 10 + (d.last() - 48));
    } else {
        assert(decimal(v).drop_last() =~= Seq::<u8>::empty());
        assert(digit_char(v as int) as int == 48 + v);
        assert(digits_value(decimal(v).drop_last()) == 0);
    }
}

/// Ten to the power `k`.
pub open spec fn pow10(k: nat) -> int
    decreases k,
{
    if k == 0 {
        1
    } else {
        10 * pow10((k - 1) as nat)
    }
}

/// A number below `10^k` has at most `k` digits.
proof fn lemma_decimal_len(v: nat, k: nat)
    requires
        k >= 1,
        v < pow10(k),
    ensures
        decimal(v).len() <= k,
    decreases k,
{
    if v >= 10 {
        assert(pow10(1) == 10) by {
            reveal_with_fuel(pow10, 2);
        }
        let p = pow10((k - 1) as nat);
        if k == 1 {
            assert(false);
        }
        assert(v / 10 < p) by (nonlinear_arith)
            requires
                v < 10 * p,
        ;
        lemma_decimal_len(v / 10, (k - 1) as nat);
    }
}

/// A `u32` has at most ten digits.
proof fn lemma_decimal_u32_len(v: u32)
    ensures
        decimal(v as nat).len() <= 10,
{
    assert(pow10(10) == 10000000000) by {
        reveal_with_fuel(pow10, 11);
    }
    lemma_decimal_len(v as nat, 10);
}

/// Writes the decimal digits of `value` to the front of `buf` one at a time,
/// least significant first, then reverses them; returns how many were written.
pub fn build_digits_by_tens(buf: &mut [u8; 16], value: u32) -> (n: usize)
    ensures
        1 <= n <= 10,
        n == decimal(value as nat).len(),
        final(buf)@.subrange(0, n as int) == decimal(value as nat),
{
    if value == 0 {
        buf[0] = ASCII_ZERO;
        assert(final(buf)@.subrange(0, 1) =~= decimal(0));
        return 1;
    }
    let ghost full = decimal(value as nat);
    proof {
        lemma_decimal_u32_len(value);
    }
    let mut v: u32 = value;
    let mut count: usize = 0;
    while v >= 10
        invariant
            v >= 1,
            count + decimal(v as nat).len() == full.len(),
            full.len() <= 10,
            full.subrange(0, decimal(v as nat).len() as int) == decimal(v as nat),
            forall|j: int| 0 <= j < count ==> buf@[j] == full[full.len() - 1 - j],
        decreases v,
    {
        let quotient = v / 10;
        let remainder = v - quotient * 10;
        proof {
            lemma_decimal_push(quotient as nat, remainder as nat);
            assert(v == 10 * quotient + remainder);
            lemma_decimal_exact(quotient as nat);
            let d = decimal(v as nat);
            assert(full[d.len() - 1] == full.subrange(0, d.len() as int)[d.len() - 1]);
            assert(full[full.len() - 1 - count] == digit_char(remainder as int));
        }
        buf[count] = ASCII_ZERO + remainder as u8;
        v = quotient;
        count = count + 1;
        assert(full.subrange(0, decimal(v as nat).len() as int) =~= decimal(v as nat));
    }
    assert(decimal(v as nat).len() == 1);
    assert(full[full.len() - 1 - count] == decimal(v as nat)[0]);
    buf[count] = ASCII_ZERO + v as u8;
    count = count + 1;
    let n = count;
    let ghost forward = buf@;
    let mut i: usize = 0;
    while i < n / 2
        invariant
            n == full.len(),
            1 <= n <= 10,
            i <= n / 2,
            forward.len() == 16,
            buf@.len() == 16,
            forall|j: int| 0 <= j < n ==> forward[j] == full[n - 1 - j],
            forall|j: int| 0 <= j < i ==> buf@[j] == full[j],
            forall|j: int| n - i <= j < n ==> buf@[j] == full[j],
            forall|j: int| i <= j < n - i ==> buf@[j] == forward[j],
        decreases n / 2 - i,
    {
        let ghost b0 = buf@;
        assert(b0[i as int] == forward[i as int]);
        assert(forward[i as int] == full[n - 1 - i]);
        assert(b0[n - 1 - i] == forward[n - 1 - i]);
        assert(forward[n - 1 - i] == full[i as int]);
        let t = buf[i];
        buf[i] = buf[n - 1 - i];
        buf[n - 1 - i] = t;
        assert(buf@ == b0.update(i as int, b0[n - 1 - i]).update(n - 1 - i, b0[i as int]));
        i = i + 1;
    }
    assert forall|j: int| 0 <= j < n implies buf@[j] == full[j] by {
        if i <= j < n - i {
            assert(j == (n - 1) / 2);
            assert(forward[j] == full[n - 1 - j]);
        }
    }
    assert(buf@.subrange(0, n as int) =~= full);
    n
}

/// Writes the decimal digits of `value` to the front of `buf` and returns how
/// many were written.
pub fn build_digits(table: &DigitTable, buf: &mut [u8; 16], value: u32) -> (n: usize)
    requires
        table.wf(),
    ensures
        1 <= n <= 10,
        n == decimal(value as nat).len(),
        final(buf)@.subrange(0, n as int) == decimal(value as nat),
{
    if value < 10 {
        buf[0] = ASCII_ZERO + value as u8;
        assert(final(buf)@.subrange(0, 1) =~= decimal(value as nat));
        return 1;
    }
    let mut value: u32 = value;
    let ghost orig: nat = value as nat;
    let mut write_index: usize = 16;
    while value >= 10000
        invariant
            table.wf(),
            value >= 1,
            (write_index == 16 && value as nat == orig) || (write_index == 12 && value
                <= 429496) || (write_index == 8 && value <= 42),
            decimal(orig) == decimal(value as nat) + buf@.subrange(write_index as int, 16),
        decreases value,
    {
        let remainder: u32 = value % 10000;
        proof {
            lemma_decimal_quad((value / 10000) as nat, remainder as nat);
            assert(value == (value / 10000) * 10000 + remainder);
        }
        value = value / 10000;
        write_index = write_index - 4;
        let q = table.get(remainder);
        let ghost before = buf@;
        buf[write_index] = q[0];
        buf[write_index + 1] = q[1];
        buf[write_index + 2] = q[2];
        buf[write_index + 3] = q[3];
        assert(buf@.subrange(write_index as int, 16) =~= q@ + before.subrange(
            write_index + 4,
            16,
        ));
    }
    let q = table.get(value);
    proof {
        lemma_decimal_small(value as nat);
    }
    let ghost before = buf@;
    if value < 10 {
        write_index = write_index - 1;
        buf[write_index] = q[3];
    } else if value < 100 {
        write_index = write_index - 2;
        buf[write_index] = q[2];
        buf[write_index + 1] = q[3];
    } else if value < 1000 {
        write_index = write_index - 3;
        buf[write_index] = q[1];
        buf[write_index + 1] = q[2];
        buf[write_index + 2] = q[3];
    } else {
        write_index = write_index - 4;
        buf[write_index] = q[0];
        buf[write_index + 1] = q[1];
        buf[write_index + 2] = q[2];
        buf[write_index + 3] = q[3];
    }
    let ghost w = small_width(value as int);
    assert(buf@.subrange(write_index as int, 16) =~= quad(value as int).subrange(4 - w, 4)
        + before.subrange(write_index + w, 16));
    let n: usize = 16 - write_index;
    let ghost digits = buf@.subrange(write_index as int, 16);
    let mut i: usize = 0;
    while i < n
        invariant
            n == 16 - write_index,
            6 <= write_index <= 15,
            i <= n,
            digits.len() == n,
            forall|j: int| 0 <= j < i ==> buf@[j] == digits[j],
            forall|j: int| i <= j < 16 && j >= write_index + i ==> buf@[j] == digits[j
                - write_index],
        decreases n - i,
    {
        buf[i] = buf[write_index + i];
        i = i + 1;
    }
    assert(buf@.subrange(0, n as int) =~= digits);
    n
}

} // verus!
