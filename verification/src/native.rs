//! Integers as bytes in the byte order of the running machine.

use vstd::endian::{endianness, Endian};
use vstd::prelude::*;

verus! {

/// `256` to the power `n`: the number of values that `n` bytes can hold.
pub open spec fn pow256(n: nat) -> nat
    decreases n,
{
    if n == 0 {
        1
    } else {
        256 * pow256((n - 1) as nat)
    }
}

/// The number that the bytes `s` spell with the least significant byte first.
pub open spec fn le_value(s: Seq<u8>) -> nat
    decreases s.len(),
{
    if s.len() == 0 {
        0
    } else {
        s[0] as nat + 256 * le_value(s.drop_first())
    }
}

/// The `n` low bytes of `v`, least significant byte first.
pub open spec fn le_bytes(v: nat, n: nat) -> Seq<u8>
    decreases n,
{
    if n == 0 {
        Seq::empty()
    } else {
        seq![(v % 256) as u8] + le_bytes(v / 256, (n - 1) as nat)
    }
}

/// Whether the running machine stores the least significant byte first.
pub open spec fn little_endian() -> bool {
    endianness() is Little
}

/// The number that the bytes `s` spell in the machine's byte order.
pub open spec fn ne_value(s: Seq<u8>) -> nat {
    if little_endian() {
        le_value(s)
    } else {
        le_value(s.reverse())
    }
}

/// The `n` low bytes of `v` in the machine's byte order.
pub open spec fn ne_bytes(v: nat, n: nat) -> Seq<u8> {
    if little_endian() {
        le_bytes(v, n)
    } else {
        le_bytes(v, n).reverse()
    }
}

/// The two's-complement reading of an `n`-byte value.
pub open spec fn signed(v: nat, n: nat) -> int {
    if 2 * v < pow256(n) {
        v as int
    } else {
        v - pow256(n)
    }
}

/// The `n`-byte value whose two's-complement reading is `x`.
pub open spec fn unsigned(x: int, n: nat) -> nat {
    if x >= 0 {
        x as nat
    } else {
        (x + pow256(n)) as nat
    }
}

/// The powers of 256 up to the size of a 64-bit integer.
pub proof fn lemma_pow256_values()
    ensures
        pow256(0) == 1,
        pow256(1) == 0x100,
        pow256(2) == 0x1_0000,
        pow256(3) == 0x100_0000,
        pow256(4) == 0x1_0000_0000,
        pow256(5) == 0x100_0000_0000,
        pow256(6) == 0x1_0000_0000_0000,
        pow256(7) == 0x100_0000_0000_0000,
        pow256(8) == 0x1_0000_0000_0000_0000,
{
    reveal_with_fuel(pow256, 10);
}

/// More bytes hold more values.
pub proof fn lemma_pow256_monotonic(a: nat, b: nat)
    requires
        a <= b,
    ensures
        0 < pow256(a) <= pow256(b),
    decreases b,
{
    if b == 0 {
    } else if a == b {
        lemma_pow256_monotonic((a - 1) as nat, (b - 1) as nat);
    } else {
        lemma_pow256_monotonic(a, (b - 1) as nat);
    }
}

/// The `n` low bytes of a value are `n` bytes.
pub proof fn lemma_le_bytes_len(v: nat, n: nat)
    ensures
        le_bytes(v, n).len() == n,
    decreases n,
{
    if n > 0 {
        lemma_le_bytes_len(v / 256, (n - 1) as nat);
    }
}

/// Reading back the bytes of a value that fits gives the value.
pub proof fn lemma_le_round_trip(v: nat, n: nat)
    requires
        v < pow256(n),
    ensures
        le_value(le_bytes(v, n)) == v,
    decreases n,
{
    if n > 0 {
        let rest = le_bytes(v / 256, (n - 1) as nat);
        let s = le_bytes(v, n);
        lemma_le_round_trip(v / 256, (n - 1) as nat);
        assert(s.drop_first() =~= rest);
    }
}

/// Reading back, in the machine's order, the bytes of a value that fits gives the value.
pub proof fn lemma_ne_round_trip(v: nat, n: nat)
    requires
        v < pow256(n),
    ensures
        ne_value(ne_bytes(v, n)) == v,
        ne_bytes(v, n).len() == n,
{
    lemma_le_round_trip(v, n);
    lemma_le_bytes_len(v, n);
    let s = le_bytes(v, n);
    assert(s.reverse().reverse() =~= s);
}

/// Zero bytes spell zero when the least significant byte comes first.
pub proof fn lemma_zero_bytes_le(s: Seq<u8>)
    requires
        forall|i: int| 0 <= i < s.len() ==> s[i] == 0,
    ensures
        le_value(s) == 0,
    decreases s.len(),
{
    if s.len() > 0 {
        lemma_zero_bytes_le(s.drop_first());
    }
}

/// Zero bytes spell zero in the machine's byte order.
pub proof fn lemma_zero_bytes_value(s: Seq<u8>)
    requires
        forall|i: int| 0 <= i < s.len() ==> s[i] == 0,
    ensures
        ne_value(s) == 0,
{
    lemma_zero_bytes_le(s);
    lemma_zero_bytes_le(s.reverse());
}

/// Two's complement loses nothing on the integers that `n` bytes hold.
pub proof fn lemma_signed_round_trip(x: int, n: nat)
    requires
        -(pow256(n) as int) <= 2 * x < pow256(n),
    ensures
        unsigned(x, n) < pow256(n),
        signed(unsigned(x, n), n) == x,
{
}

/// The number of bytes in a machine word.
pub open spec fn word_len() -> nat {
    vstd::layout::size_of::<usize>()
}

/// A machine word has four or eight bytes, and holds what so many bytes can spell.
pub proof fn lemma_word_len()
    ensures
        word_len() == 4 || word_len() == 8,
        pow256(word_len()) == usize::MAX + 1,
{
    broadcast use vstd::layout::layout_of_primitives;

    lemma_pow256_values();
    assert(vstd::layout::size_of::<usize>() * 8 == usize::BITS);
}

/// The bytes of `x` as `u16::to_ne_bytes` orders them: the order of the running machine.
#[verifier::external_body]
fn u16_to_ne_bytes(x: u16) -> (r: [u8; 2])
    ensures
        r@ == ne_bytes(x as nat, 2),
{
    x.to_ne_bytes()
}

/// Whether the running machine stores the least significant byte first.
pub fn is_little_endian() -> (r: bool)
    ensures
        r == little_endian(),
{
    let probe = u16_to_ne_bytes(1);
    proof {
        reveal_with_fuel(le_bytes, 3);
        let le = le_bytes(1, 2);
        assert(le =~= seq![1u8, 0u8]);
        assert(le.reverse() =~= seq![0u8, 1u8]);
    }
    probe[0] == 1
}

/// The size of a machine word in bytes.
pub fn word_size() -> (r: usize)
    ensures
        r == word_len(),
        r == 4 || r == 8,
{
    proof {
        lemma_word_len();
    }
    core::mem::size_of::<usize>()
}

/// Reads the `n` bytes of `b` from `off` on as a number in the machine's byte order.
pub fn read_uint(b: &[u8], off: usize, n: usize) -> (v: u64)
    requires
        n <= 8,
        off + n <= b@.len(),
    ensures
        v == ne_value(b@.subrange(off as int, off + n)),
        v < pow256(n as nat),
{
    let ghost s = b@.subrange(off as int, off + n);
    let little = is_little_endian();
    let total: usize = b.len();
    let mut v: u64 = 0;
    let mut i: usize = 0;
    proof {
        lemma_pow256_values();
        if little {
            assert(s.subrange(n as int, n as int) =~= Seq::<u8>::empty());
        } else {
            assert(s.subrange(0, 0).reverse() =~= Seq::<u8>::empty());
        }
    }
    while i < n
        invariant
            i <= n <= 8,
            off + n <= b@.len() == total,
            s == b@.subrange(off as int, off + n),
            little == little_endian(),
            little ==> v == le_value(s.subrange(n - i, n as int)),
            !little ==> v == le_value(s.subrange(0, i as int).reverse()),
            v < pow256(i as nat),
        decreases n - i,
    {
        let at: usize = if little {
            off + (n - 1 - i)
        } else {
            off + i
        };
        let byte: u8 = b[at];
        proof {
            lemma_pow256_values();
            lemma_pow256_monotonic(i as nat, 7);
            if little {
                let cur = s.subrange(n - i - 1, n as int);
                assert(cur.drop_first() =~= s.subrange(n - i, n as int));
                assert(cur[0] == byte);
            } else {
                let cur = s.subrange(0, i + 1).reverse();
                assert(cur.drop_first() =~= s.subrange(0, i as int).reverse());
                assert(cur[0] == byte);
            }
        }
        v = v * 256 + byte as u64;
        i = i + 1;
    }
    proof {
        assert(s.subrange(0, n as int) =~= s);
    }
    v
}

/// Appends to `out` the `n` low bytes of `v` in the machine's byte order.
pub fn write_uint(out: &mut Vec<u8>, v: u64, n: usize)
    requires
        n <= 8,
    ensures
        final(out)@ == old(out)@ + ne_bytes(v as nat, n as nat),
{
    let ghost before = out@;
    let little = is_little_endian();
    let mut digits: Vec<u8> = Vec::new();
    let mut rest: u64 = v;
    let mut i: usize = 0;
    while i < n
        invariant
            i <= n,
            digits@.len() == i,
            digits@ + le_bytes(rest as nat, (n - i) as nat) == le_bytes(v as nat, n as nat),
        decreases n - i,
    {
        let ghost tail = le_bytes(rest as nat / 256, (n - i - 1) as nat);
        let ghost head = digits@;
        digits.push((rest % 256) as u8);
        proof {
            assert(digits@ + tail =~= head + (seq![(rest % 256) as u8] + tail));
        }
        rest = rest / 256;
        i = i + 1;
    }
    proof {
        assert(digits@ + Seq::<u8>::empty() =~= digits@);
    }
    let mut j: usize = 0;
    while j < n
        invariant
            j <= n,
            digits@.len() == n,
            digits@ == le_bytes(v as nat, n as nat),
            out@.len() == before.len() + j,
            out@ == before + ne_bytes(v as nat, n as nat).subrange(0, j as int),
            little == little_endian(),
        decreases n - j,
    {
        let at: usize = if little {
            j
        } else {
            n - 1 - j
        };
        let ghost prev = out@;
        out.push(digits[at]);
        proof {
            let ne = ne_bytes(v as nat, n as nat);
            assert(ne[j as int] == digits@[at as int]);
            assert(out@ =~= before + ne.subrange(0, j + 1));
        }
        j = j + 1;
    }
    proof {
        let ne = ne_bytes(v as nat, n as nat);
        assert(ne.subrange(0, n as int) =~= ne);
    }
}

/// The bytes of a machine word.
pub open spec fn word_bytes(v: usize) -> Seq<u8> {
    ne_bytes(v as nat, word_len())
}

/// The machine word that `word_len()` bytes spell.
pub open spec fn word_value(s: Seq<u8>) -> usize {
    ne_value(s) as usize
}

/// The four bytes of a signed 32-bit integer.
pub open spec fn i32_bytes(x: i32) -> Seq<u8> {
    ne_bytes(unsigned(x as int, 4), 4)
}

/// The signed 32-bit integer that four bytes spell.
pub open spec fn i32_value(s: Seq<u8>) -> i32 {
    signed(ne_value(s), 4) as i32
}

/// The unsigned 32-bit integer that four bytes spell.
pub open spec fn u32_value(s: Seq<u8>) -> u32 {
    ne_value(s) as u32
}

/// The signed integer that the bytes of one machine word spell.
pub open spec fn long_value(s: Seq<u8>) -> i64 {
    signed(ne_value(s), word_len()) as i64
}

/// A machine word survives being written and read back.
pub proof fn lemma_word_round_trip(v: usize)
    ensures
        word_bytes(v).len() == word_len(),
        word_value(word_bytes(v)) == v,
{
    lemma_word_len();
    lemma_ne_round_trip(v as nat, word_len());
}

/// A signed 32-bit integer survives being written and read back.
pub proof fn lemma_i32_round_trip(x: i32)
    ensures
        i32_bytes(x).len() == 4,
        i32_value(i32_bytes(x)) == x,
{
    lemma_pow256_values();
    lemma_signed_round_trip(x as int, 4);
    lemma_ne_round_trip(unsigned(x as int, 4), 4);
}

/// Reads the machine word that starts at `off`.
pub fn read_word(b: &[u8], off: usize) -> (v: usize)
    requires
        off + word_len() <= b@.len(),
    ensures
        v == word_value(b@.subrange(off as int, off + word_len())),
{
    let n = word_size();
    proof {
        lemma_word_len();
    }
    let v = read_uint(b, off, n);
    v as usize
}

/// Reads the signed 32-bit integer that starts at `off`.
pub fn read_i32(b: &[u8], off: usize) -> (x: i32)
    requires
        off + 4 <= b@.len(),
    ensures
        x == i32_value(b@.subrange(off as int, off + 4)),
{
    let v = read_uint(b, off, 4);
    proof {
        lemma_pow256_values();
    }
    if v < 0x8000_0000 {
        v as i32
    } else {
        (v as i64 - 0x1_0000_0000) as i32
    }
}

/// Reads the unsigned 32-bit integer that starts at `off`.
pub fn read_u32(b: &[u8], off: usize) -> (x: u32)
    requires
        off + 4 <= b@.len(),
    ensures
        x == u32_value(b@.subrange(off as int, off + 4)),
{
    let v = read_uint(b, off, 4);
    proof {
        lemma_pow256_values();
    }
    v as u32
}

/// Reads the signed integer of one machine word that starts at `off`.
pub fn read_long(b: &[u8], off: usize) -> (x: i64)
    requires
        off + word_len() <= b@.len(),
    ensures
        x == long_value(b@.subrange(off as int, off + word_len())),
{
    let n = word_size();
    let v = read_uint(b, off, n);
    proof {
        lemma_pow256_values();
    }
    if n == 4 {
        if v < 0x8000_0000 {
            v as i64
        } else {
            v as i64 - 0x1_0000_0000
        }
    } else {
        if v < 0x8000_0000_0000_0000 {
            v as i64
        } else {
            (v - 0x8000_0000_0000_0000) as i64 - 0x4000_0000_0000_0000 - 0x4000_0000_0000_0000
        }
    }
}

/// Appends the bytes of a machine word to `out`.
pub fn write_word(out: &mut Vec<u8>, v: usize)
    ensures
        final(out)@ == old(out)@ + word_bytes(v),
{
    let n = word_size();
    write_uint(out, v as u64, n);
}

/// Appends the four bytes of a signed 32-bit integer to `out`.
pub fn write_i32(out: &mut Vec<u8>, x: i32)
    ensures
        final(out)@ == old(out)@ + i32_bytes(x),
{
    proof {
        lemma_pow256_values();
    }
    let v: u64 = if x >= 0 {
        x as u64
    } else {
        (x as i64 + 0x1_0000_0000) as u64
    };
    write_uint(out, v, 4);
}

} // verus!
