//! Numbers written as bytes: big-endian at a fixed width, decimal text, and
//! hexadecimal text.

use vstd::prelude::*;

verus! {

/// 256 to the power `n`.
pub open spec fn pow256(n: nat) -> nat
    decreases n,
{
    if n == 0 {
        1
    } else {
        256 * pow256((n - 1) as nat)
    }
}

/// 10 to the power `n`.
pub open spec fn pow10(n: nat) -> nat
    decreases n,
{
    if n == 0 {
        1
    } else {
        10 * pow10((n - 1) as nat)
    }
}

/// The `width` low bytes of `v`, most significant first.
pub open spec fn be_bytes(v: nat, width: nat) -> Seq<u8>
    decreases width,
{
    if width == 0 {
        Seq::empty()
    } else {
        be_bytes(v / 256, (width - 1) as nat).push((v % 256) as u8)
    }
}

/// The number that the bytes spell, most significant first.
pub open spec fn be_value(s: Seq<u8>) -> nat
    decreases s.len(),
{
    if s.len() == 0 {
        0
    } else {
        be_value(s.drop_last()) * 256 + s.last() as nat
    }
}

/// The values of the powers of 256 at the widths in use.
pub proof fn lemma_pow256_values()
    ensures
        pow256(4) == 0x1_0000_0000,
        pow256(8) == 0x1_0000_0000_0000_0000,
        pow256(16) == 0x1_0000_0000_0000_0000_0000_0000_0000_0000,
{
    reveal_with_fuel(pow256, 17);
}

/// A higher power of 256 is a larger number.
pub proof fn lemma_pow256_grows(i: nat, j: nat)
    requires
        i <= j,
    ensures
        1 <= pow256(i) <= pow256(j),
    decreases j,
{
    if j > 0 {
        if i < j {
            lemma_pow256_grows(i, (j - 1) as nat);
        } else {
            lemma_pow256_grows((i - 1) as nat, (j - 1) as nat);
        }
    }
}

/// `be_bytes` writes exactly `width` bytes.
pub proof fn lemma_be_bytes_len(v: nat, width: nat)
    ensures
        be_bytes(v, width).len() == width,
    decreases width,
{
    if width > 0 {
        lemma_be_bytes_len(v / 256, (width - 1) as nat);
    }
}

/// Reading back what `be_bytes` wrote gives the number, where it fits the width.
pub proof fn lemma_be_value_of_bytes(v: nat, width: nat)
    requires
        v < pow256(width),
    ensures
        be_value(be_bytes(v, width)) == v,
    decreases width,
{
    if width > 0 {
        let front = be_bytes(v / 256, (width - 1) as nat);
        lemma_be_value_of_bytes(v / 256, (width - 1) as nat);
        assert(be_bytes(v, width).drop_last() == front);
    }
}

/// Any bytes are what `be_bytes` writes for the number they spell.
pub proof fn lemma_be_bytes_of_value(s: Seq<u8>)
    ensures
        be_value(s) < pow256(s.len()),
        be_bytes(be_value(s), s.len()) == s,
    decreases s.len(),
{
    if s.len() > 0 {
        lemma_be_bytes_of_value(s.drop_last());
        assert(s.drop_last().push(s.last()) == s);
    }
}

/// Appends the `width` low bytes of `v`, most significant first.
pub(crate) fn push_be(out: &mut Vec<u8>, v: u128, width: usize)
    ensures
        final(out)@ == old(out)@ + be_bytes(v as nat, width as nat),
    decreases width,
{
    if width > 0 {
        push_be(out, v / 256, width - 1);
        out.push((v % 256) as u8);
        proof {
            let front = be_bytes((v / 256) as nat, (width - 1) as nat);
            assert((old(out)@ + front).push((v % 256) as u8) == old(out)@ + front.push(
                (v % 256) as u8,
            ));
        }
    } else {
        proof {
            assert(old(out)@ + Seq::<u8>::empty() == old(out)@);
        }
    }
}

/// Reads the number that the `width` bytes from `from` on spell.
pub(crate) fn read_be(bytes: &[u8], from: usize, width: usize) -> (v: u128)
    requires
        from + width <= bytes@.len(),
        width <= 16,
    ensures
        v == be_value(bytes@.subrange(from as int, from + width)),
{
    let len: usize = bytes.len();
    let mut acc: u128 = 0;
    let mut i: usize = 0;
    while i < width
        invariant
            0 <= i <= width <= 16,
            from + width <= bytes@.len() == len,
            acc == be_value(bytes@.subrange(from as int, from + i)),
        decreases width - i,
    {
        proof {
            let part = bytes@.subrange(from as int, from + i);
            let next = bytes@.subrange(from as int, from + i + 1);
            lemma_be_bytes_of_value(part);
            lemma_pow256_grows((i + 1) as nat, 16);
            lemma_pow256_values();
            assert(next.drop_last() == part);
        }
        acc = acc * 256 + bytes[from + i] as u128;
        i += 1;
    }
    acc
}

/// Whether `b` is an ASCII decimal digit.
pub open spec fn is_digit(b: u8) -> bool {
    48 <= b <= 57
}

/// The decimal digits of `v` in ASCII, without leading zeros.
pub open spec fn decimal(v: nat) -> Seq<u8>
    decreases v,
{
    if v < 10 {
        seq![(48 + v) as u8]
    } else {
        decimal(v / 10).push((48 + v % 10) as u8)
    }
}

/// The number that a run of ASCII decimal digits spells.
pub open spec fn decimal_value(s: Seq<u8>) -> nat
    decreases s.len(),
{
    if s.len() == 0 {
        0
    } else {
        decimal_value(s.drop_last()) * 10 + if is_digit(s.last()) {
            (s.last() - 48) as nat
        } else {
            0
        }
    }
}

/// Number of decimal digits that follow one another in `s` from `from` on.
pub open spec fn digit_run(s: Seq<u8>, from: int) -> nat
    decreases s.len() - from,
{
    if 0 <= from < s.len() && is_digit(s[from]) {
        1 + digit_run(s, from + 1)
    } else {
        0
    }
}

/// `decimal` writes at least one byte, only digits, and they spell the number.
pub proof fn lemma_decimal(v: nat)
    ensures
        decimal(v).len() >= 1,
        forall|i: int| 0 <= i < decimal(v).len() ==> is_digit(#[trigger] decimal(v)[i]),
        decimal_value(decimal(v)) == v,
    decreases v,
{
    let d = decimal(v);
    if v < 10 {
        assert(d.last() == (48 + v) as u8);
        assert(decimal_value(d.drop_last()) == 0);
    } else {
        lemma_decimal(v / 10);
        assert(d.drop_last() == decimal(v / 10));
        assert(d.last() == (48 + v % 10) as u8);
    }
}

/// A number below the `n`-th power of ten has at most `n` digits.
pub proof fn lemma_decimal_len(v: nat, n: nat)
    requires
        n >= 1,
        v < pow10(n),
    ensures
        decimal(v).len() <= n,
    decreases n,
{
    if v >= 10 {
        if n == 1 {
            assert(pow10(1) == 10 * pow10(0));
        } else {
            lemma_decimal_len(v / 10, (n - 1) as nat);
        }
    }
}

/// A number that fits 64 bits has at most twenty digits.
pub proof fn lemma_decimal_len_64(v: nat)
    requires
        v <= 0x1_0000_0000_0000_0000,
    ensures
        1 <= decimal(v).len() <= 20,
{
    reveal_with_fuel(pow10, 21);
    lemma_decimal_len(v, 20);
    lemma_decimal(v);
}

/// A number that fits 63 bits, or is the 63rd power of two, has at most
/// nineteen digits.
pub proof fn lemma_decimal_len_63(v: nat)
    requires
        v <= 0x8000_0000_0000_0000,
    ensures
        1 <= decimal(v).len() <= 19,
{
    reveal_with_fuel(pow10, 20);
    lemma_decimal_len(v, 19);
    lemma_decimal(v);
}

/// The first digits of a run spell no more than the whole run.
pub proof fn lemma_decimal_value_prefix(s: Seq<u8>, k: int)
    requires
        0 <= k <= s.len(),
    ensures
        decimal_value(s.take(k)) <= decimal_value(s),
    decreases s.len(),
{
    if k < s.len() {
        lemma_decimal_value_prefix(s.drop_last(), k);
        assert(s.drop_last().take(k) == s.take(k));
    } else {
        assert(s.take(k) == s);
    }
}

/// Digits that end at a byte that is no digit, or at the end, form the whole run.
pub proof fn lemma_digit_run(s: Seq<u8>, from: int, n: nat)
    requires
        0 <= from,
        from + n <= s.len(),
        forall|i: int| from <= i < from + n ==> is_digit(#[trigger] s[i]),
        from + n == s.len() || !is_digit(s[from + n]),
    ensures
        digit_run(s, from) == n,
    decreases n,
{
    if n > 0 {
        lemma_digit_run(s, from + 1, (n - 1) as nat);
    }
}

/// Appends the decimal digits of `v`.
pub(crate) fn push_decimal(out: &mut Vec<u8>, v: u128)
    ensures
        final(out)@ == old(out)@ + decimal(v as nat),
    decreases v,
{
    if v < 10 {
        out.push(48 + v as u8);
        proof {
            assert(old(out)@.push((48 + v) as u8) == old(out)@ + seq![(48 + v) as u8]);
        }
    } else {
        push_decimal(out, v / 10);
        let d: u8 = (v % 10) as u8;
        out.push(48 + d);
        proof {
            let front = decimal((v / 10) as nat);
            assert((old(out)@ + front).push((48 + d) as u8) == old(out)@ + front.push(
                (48 + d) as u8,
            ));
        }
    }
}

/// What `read_decimal` finds in `s` at `from`: the number that the run of
/// digits there spells and the place behind the run, or nothing where the
/// number is above `limit`.
pub open spec fn scan_decimal(s: Seq<u8>, from: int, limit: nat) -> Option<(nat, int)> {
    let end = from + digit_run(s, from);
    let v = decimal_value(s.subrange(from, end));
    if v <= limit {
        Some((v, end))
    } else {
        None
    }
}

/// Reads the run of decimal digits at `from`.
pub(crate) fn read_decimal(bytes: &[u8], from: usize, limit: u64) -> (r: Option<(u64, usize)>)
    requires
        from <= bytes@.len(),
    ensures
        match r {
            Some((v, end)) => scan_decimal(bytes@, from as int, limit as nat) == Some(
                (v as nat, end as int),
            ),
            None => scan_decimal(bytes@, from as int, limit as nat) is None,
        },
        r matches Some((v, end)) ==> from <= end <= bytes@.len(),
{
    let mut acc: u128 = 0;
    let mut i: usize = from;
    while i < bytes.len() && 48 <= bytes[i] && bytes[i] <= 57
        invariant
            from <= i <= bytes@.len(),
            digit_run(bytes@, from as int) == (i - from) + digit_run(bytes@, i as int),
            acc == decimal_value(bytes@.subrange(from as int, i as int)),
            acc <= limit,
        decreases bytes@.len() - i,
    {
        let ghost part = bytes@.subrange(from as int, i as int);
        let ghost next = bytes@.subrange(from as int, i + 1);
        proof {
            assert(next.drop_last() == part);
        }
        acc = acc * 10 + (bytes[i] - 48) as u128;
        i += 1;
        if acc > limit as u128 {
            proof {
                let end = from + digit_run(bytes@, from as int);
                let run = bytes@.subrange(from as int, end);
                lemma_digit_run_within(bytes@, from as int);
                lemma_decimal_value_prefix(run, i - from);
                assert(run.take(i - from) == next);
            }
            return None;
        }
    }
    Some((acc as u64, i))
}

/// A run of digits never leaves the sequence.
pub proof fn lemma_digit_run_within(s: Seq<u8>, from: int)
    requires
        0 <= from <= s.len(),
    ensures
        from + digit_run(s, from) <= s.len(),
    decreases s.len() - from,
{
    if from < s.len() && is_digit(s[from]) {
        lemma_digit_run_within(s, from + 1);
    }
}

/// The lower-case hexadecimal digit for `d`, in ASCII.
pub open spec fn hex_digit(d: nat) -> u8 {
    if d < 10 {
        (48 + d) as u8
    } else {
        (87 + d) as u8
    }
}

/// What a hexadecimal digit stands for; zero for any other byte.
pub open spec fn nibble(b: u8) -> nat {
    if 48 <= b <= 57 {
        (b - 48) as nat
    } else if 97 <= b <= 102 {
        (b - 87) as nat
    } else {
        0
    }
}

/// Two lower-case hexadecimal digits for each byte, the high half first.
pub open spec fn hex(bytes: Seq<u8>) -> Seq<u8> {
    Seq::new(
        2 * bytes.len(),
        |i: int|
            hex_digit(
                if i % 2 == 0 {
                    (bytes[i / 2] / 16) as nat
                } else {
                    (bytes[i / 2] % 16) as nat
                },
            ),
    )
}

/// One byte for every two bytes of `text`, each pair read as hexadecimal digits.
pub open spec fn unhex(text: Seq<u8>) -> Seq<u8> {
    Seq::new(
        text.len() / 2,
        |i: int| ((nibble(text[2 * i]) * 16 + nibble(text[2 * i + 1])) % 256) as u8,
    )
}

/// Reading back what `hex` wrote gives the bytes.
pub proof fn lemma_unhex_of_hex(bytes: Seq<u8>)
    ensures
        unhex(hex(bytes)) == bytes,
{
    let text = hex(bytes);
    assert forall|i: int| 0 <= i < bytes.len() implies unhex(text)[i] == bytes[i] by {
        assert(text[2 * i] == hex_digit((bytes[i] / 16) as nat));
        assert(text[2 * i + 1] == hex_digit((bytes[i] % 16) as nat));
    }
    assert(unhex(text) =~= bytes);
}

fn hex_char(d: u8) -> (c: u8)
    requires
        d < 16,
    ensures
        c == hex_digit(d as nat),
{
    if d < 10 {
        48 + d
    } else {
        87 + d
    }
}

fn nibble_value(b: u8) -> (d: u8)
    ensures
        d == nibble(b),
        d < 16,
{
    if 48 <= b && b <= 57 {
        b - 48
    } else if 97 <= b && b <= 102 {
        b - 87
    } else {
        0
    }
}

/// Appends two hexadecimal digits for each byte of `bytes`.
pub(crate) fn push_hex(out: &mut Vec<u8>, bytes: &[u8])
    ensures
        final(out)@ == old(out)@ + hex(bytes@),
{
    let mut i: usize = 0;
    while i < bytes.len()
        invariant
            0 <= i <= bytes@.len(),
            out@ == old(out)@ + hex(bytes@.take(i as int)),
        decreases bytes@.len() - i,
    {
        let b = bytes[i];
        out.push(hex_char(b / 16));
        out.push(hex_char(b % 16));
        proof {
            let before = hex(bytes@.take(i as int));
            let after = hex(bytes@.take(i + 1));
            assert(after =~= before.push(hex_digit((b / 16) as nat)).push(
                hex_digit((b % 16) as nat),
            ));
            assert(out@ =~= old(out)@ + after);
        }
        i += 1;
    }
    proof {
        assert(bytes@.take(bytes@.len() as int) == bytes@);
    }
}

/// Reads `count` bytes from the `2 * count` hexadecimal digits at `from`.
pub(crate) fn read_hex(text: &[u8], from: usize, count: usize) -> (bytes: Vec<u8>)
    requires
        from + 2 * count <= text@.len(),
    ensures
        bytes@ == unhex(text@.subrange(from as int, from + 2 * count)),
{
    let len: usize = text.len();
    let mut bytes: Vec<u8> = Vec::with_capacity(count);
    let mut i: usize = 0;
    while i < count
        invariant
            0 <= i <= count,
            from + 2 * count <= text@.len() == len,
            bytes@ == unhex(text@.subrange(from as int, from + 2 * i)),
        decreases count - i,
    {
        let hi = nibble_value(text[from + 2 * i]);
        let lo = nibble_value(text[from + 2 * i + 1]);
        bytes.push(hi * 16 + lo);
        proof {
            let before = unhex(text@.subrange(from as int, from + 2 * i));
            let after = unhex(text@.subrange(from as int, from + 2 * (i + 1)));
            assert(after =~= before.push((hi * 16 + lo) as u8));
        }
        i += 1;
    }
    bytes
}

} // verus!
