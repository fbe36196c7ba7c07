//! How unsigned numbers are laid out as bytes, little or big endian.
use vstd::prelude::*;
use vstd::arithmetic::div_mod::{
    lemma_div_basics,
    lemma_div_denominator,
    lemma_fundamental_div_mod_converse,
    lemma_mod_breakdown,
};

verus! {

/// `256` raised to `n`: how many distinct values `n` bytes can hold.
pub open spec fn byte_base(n: nat) -> nat
    decreases n,
{
    if n == 0 {
        1
    } else {
        256 * byte_base((n - 1) as nat)
    }
}

/// The number whose little-endian encoding is `b` (least significant byte first).
pub open spec fn le_value(b: Seq<u8>) -> nat
    decreases b.len(),
{
    if b.len() == 0 {
        0
    } else {
        b[0] as nat + 256 * le_value(b.drop_first())
    }
}

/// The `n` low-order bytes of `x`, least significant first.
pub open spec fn le_bytes(x: nat, n: nat) -> Seq<u8> {
    Seq::new(n, |k: int| ((x / byte_base(k as nat)) % 256) as u8)
}

/// The number that `b` encodes in the given byte order.
pub open spec fn uint_value(b: Seq<u8>, le: bool) -> nat {
    if le {
        le_value(b)
    } else {
        le_value(b.reverse())
    }
}

/// The `n`-byte encoding of `x` in the given byte order (the high bytes of `x` beyond `n` are dropped).
pub open spec fn uint_bytes(x: nat, n: nat, le: bool) -> Seq<u8> {
    if le {
        le_bytes(x, n)
    } else {
        le_bytes(x, n).reverse()
    }
}

/// Every power of 256 is at least 1.
pub proof fn lemma_byte_base_positive(n: nat)
    ensures
        byte_base(n) >= 1,
    decreases n,
{
    if n > 0 {
        lemma_byte_base_positive((n - 1) as nat);
    }
}

/// Powers of 256 grow with the exponent.
pub proof fn lemma_byte_base_monotone(a: nat, b: nat)
    requires
        a <= b,
    ensures
        byte_base(a) <= byte_base(b),
    decreases b,
{
    if a < b {
        lemma_byte_base_monotone(a, (b - 1) as nat);
        lemma_byte_base_positive((b - 1) as nat);
    }
}

/// The bases of the widths that Rust's integers have.
pub proof fn lemma_byte_base_widths()
    ensures
        byte_base(1) == 0x100,
        byte_base(2) == 0x1_0000,
        byte_base(4) == 0x1_0000_0000,
        byte_base(8) == 0x1_0000_0000_0000_0000,
        byte_base(16) == 0x1_0000_0000_0000_0000_0000_0000_0000_0000,
{
    assert(byte_base(0) == 1);
    assert(byte_base(1) == 0x100);
    assert(byte_base(2) == 0x1_0000);
    assert(byte_base(3) == 0x100_0000);
    assert(byte_base(4) == 0x1_0000_0000);
    assert(byte_base(5) == 0x100_0000_0000);
    assert(byte_base(6) == 0x1_0000_0000_0000);
    assert(byte_base(7) == 0x100_0000_0000_0000);
    assert(byte_base(8) == 0x1_0000_0000_0000_0000);
    assert(byte_base(9) == 0x100_0000_0000_0000_0000);
    assert(byte_base(10) == 0x1_0000_0000_0000_0000_0000);
    assert(byte_base(11) == 0x100_0000_0000_0000_0000_0000);
    assert(byte_base(12) == 0x1_0000_0000_0000_0000_0000_0000);
    assert(byte_base(13) == 0x100_0000_0000_0000_0000_0000_0000);
    assert(byte_base(14) == 0x1_0000_0000_0000_0000_0000_0000_0000);
    assert(byte_base(15) == 0x100_0000_0000_0000_0000_0000_0000_0000);
    assert(byte_base(16) == 0x1_0000_0000_0000_0000_0000_0000_0000_0000);
}

/// `n` bytes hold a number below `256^n`.
pub proof fn lemma_le_value_bound(b: Seq<u8>)
    ensures
        le_value(b) < byte_base(b.len()),
    decreases b.len(),
{
    if b.len() > 0 {
        lemma_le_value_bound(b.drop_first());
    }
}

/// The number `b` encodes is below 256 to the power of its length, in either byte order.
pub proof fn lemma_uint_value_bound(b: Seq<u8>, le: bool)
    ensures
        uint_value(b, le) < byte_base(b.len()),
{
    lemma_le_value_bound(b);
    lemma_le_value_bound(b.reverse());
}

/// Dropping the lowest byte of an encoding is dividing the number by 256.
proof fn lemma_le_bytes_drop_first(x: nat, n: nat)
    requires
        n > 0,
    ensures
        le_bytes(x, n).drop_first() =~= le_bytes(x / 256, (n - 1) as nat),
        le_bytes(x, n)[0] as nat == x % 256,
{
    assert forall|k: int| 0 <= k < n - 1 implies #[trigger] le_bytes(x, n).drop_first()[k]
        == le_bytes(x / 256, (n - 1) as nat)[k] by {
        lemma_byte_base_positive(k as nat);
        lemma_div_denominator(x as int, 256, byte_base(k as nat) as int);
    }
    lemma_div_basics(x as int);
}

/// Reading back the `n`-byte encoding of `x` gives `x` modulo `256^n`.
pub proof fn lemma_le_value_of_le_bytes(x: nat, n: nat)
    ensures
        le_value(le_bytes(x, n)) == x % byte_base(n),
    decreases n,
{
    if n == 0 {
        assert(le_bytes(x, n).len() == 0);
    } else {
        lemma_le_bytes_drop_first(x, n);
        lemma_le_value_of_le_bytes(x / 256, (n - 1) as nat);
        lemma_byte_base_positive((n - 1) as nat);
        lemma_mod_breakdown(x as int, 256, byte_base((n - 1) as nat) as int);
    }
}

/// Encoding the number that `b` holds, in as many bytes as `b` has, gives `b` back.
pub proof fn lemma_le_bytes_of_le_value(b: Seq<u8>)
    ensures
        le_bytes(le_value(b), b.len()) =~= b,
    decreases b.len(),
{
    if b.len() > 0 {
        let v = le_value(b);
        let r = le_value(b.drop_first());
        lemma_fundamental_div_mod_converse(v as int, 256, r as int, b[0] as int);
        lemma_le_bytes_drop_first(v, b.len());
        lemma_le_bytes_of_le_value(b.drop_first());
        assert forall|k: int| 0 <= k < b.len() implies #[trigger] le_bytes(v, b.len())[k]
            == b[k] by {
            if k > 0 {
                assert(le_bytes(v, b.len())[k] == le_bytes(v, b.len()).drop_first()[k - 1]);
                assert(b[k] == b.drop_first()[k - 1]);
            }
        }
    }
}

/// An encoding read back in the same byte order gives the number (when it fits).
pub proof fn lemma_uint_value_of_bytes(x: nat, n: nat, le: bool)
    requires
        x < byte_base(n),
    ensures
        uint_value(uint_bytes(x, n, le), le) == x,
        uint_bytes(x, n, le).len() == n,
{
    lemma_le_value_of_le_bytes(x, n);
    lemma_byte_base_positive(n);
    vstd::arithmetic::div_mod::lemma_small_mod(x, byte_base(n));
    assert(le_bytes(x, n).reverse().reverse() =~= le_bytes(x, n));
}

/// Bytes read as a number and encoded again in the same byte order are the same bytes.
pub proof fn lemma_uint_bytes_of_value(b: Seq<u8>, le: bool)
    ensures
        uint_bytes(uint_value(b, le), b.len(), le) =~= b,
{
    lemma_le_bytes_of_le_value(b);
    lemma_le_bytes_of_le_value(b.reverse());
    assert(b.reverse().reverse() =~= b);
}

/// The big-endian encoding is the little-endian one in reverse order.
pub proof fn lemma_big_endian_is_reversed(x: nat, n: nat)
    ensures
        uint_bytes(x, n, false) == uint_bytes(x, n, true).reverse(),
{
}

/// Reads the `width` bytes of `bytes` that start at `start` as an unsigned number.
pub fn decode_uint(bytes: &[u8], start: usize, width: usize, le: bool) -> (r: u128)
    requires
        width <= 16,
        start + width <= bytes@.len(),
    ensures
        r == uint_value(bytes@.subrange(start as int, start + width), le),
{
    let ghost b = bytes@.subrange(start as int, start + width);
    proof {
        lemma_byte_base_widths();
    }
    let n = bytes.len();
    let mut v: u128 = 0;
    if le {
        let mut i: usize = width;
        while i > 0
            invariant
                i <= width <= 16,
                start + width <= n,
                n == bytes@.len(),
                b == bytes@.subrange(start as int, start + width),
                byte_base(16) == 0x1_0000_0000_0000_0000_0000_0000_0000_0000,
                v == le_value(b.subrange(i as int, width as int)),
            decreases i,
        {
            i = i - 1;
            proof {
                let tail = b.subrange(i as int, width as int);
                assert(tail.drop_first() =~= b.subrange(i + 1, width as int));
                lemma_le_value_bound(b.subrange(i + 1, width as int));
                lemma_byte_base_monotone((width - i - 1) as nat, 15);
                assert(tail[0] == bytes@[start + i]);
            }
            v = v * 256 + bytes[start + i] as u128;
        }
        assert(b.subrange(0, width as int) =~= b);
    } else {
        let mut i: usize = 0;
        while i < width
            invariant
                i <= width <= 16,
                start + width <= n,
                n == bytes@.len(),
                b == bytes@.subrange(start as int, start + width),
                byte_base(16) == 0x1_0000_0000_0000_0000_0000_0000_0000_0000,
                v == le_value(b.subrange(0, i as int).reverse()),
            decreases width - i,
        {
            proof {
                let prev = b.subrange(0, i as int).reverse();
                let next = b.subrange(0, i + 1).reverse();
                assert(next.drop_first() =~= prev);
                assert(next[0] == bytes@[start + i]);
                lemma_le_value_bound(prev);
                lemma_byte_base_monotone(i as nat, 15);
            }
            v = v * 256 + bytes[start + i] as u128;
            i = i + 1;
        }
        assert(b.subrange(0, width as int) =~= b);
    }
    v
}

/// Appends the `width`-byte encoding of `x` to `dst`.
pub fn encode_uint(x: u128, width: usize, le: bool, dst: &mut Vec<u8>)
    requires
        width <= 16,
    ensures
        final(dst)@ == old(dst)@ + uint_bytes(x as nat, width as nat, le),
{
    let mut low_first: Vec<u8> = Vec::new();
    let mut y = x;
    let mut i: usize = 0;
    proof {
        lemma_div_basics(x as int);
    }
    while i < width
        invariant
            i <= width,
            low_first@ =~= le_bytes(x as nat, i as nat),
            y as nat == x as nat / byte_base(i as nat),
        decreases width - i,
    {
        proof {
            lemma_byte_base_positive(i as nat);
            lemma_div_denominator(x as int, byte_base(i as nat) as int, 256);
        }
        low_first.push((y % 256) as u8);
        y = y / 256;
        i = i + 1;
    }
    let ghost before = dst@;
    let ghost enc = uint_bytes(x as nat, width as nat, le);
    let mut j: usize = 0;
    while j < width
        invariant
            j <= width,
            low_first@.len() == width,
            low_first@ == le_bytes(x as nat, width as nat),
            enc == uint_bytes(x as nat, width as nat, le),
            dst@ =~= before + enc.subrange(0, j as int),
        decreases width - j,
    {
        if le {
            dst.push(low_first[j]);
        } else {
            dst.push(low_first[width - 1 - j]);
        }
        j = j + 1;
    }
    assert(enc.subrange(0, width as int) =~= enc);
}

} // verus!
