//! A hash of bytes that is the same in every build: FNV-1a with 64 bits.

use vstd::prelude::*;

verus! {

/// What the hash starts from.
pub const OFFSET: u64 = 0xcbf2_9ce4_8422_2325;

/// What each step multiplies with.
pub const PRIME: u64 = 0x0000_0100_0000_01b3;

/// The FNV-1a hash.
pub open spec fn fnv1a(bytes: Seq<u8>) -> u64
    decreases bytes.len(),
{
    if bytes.len() == 0 {
        OFFSET
    } else {
        (fnv1a(bytes.drop_last()) ^ (bytes.last() as u64)).wrapping_mul(PRIME)
    }
}

/// The FNV-1a hash.
pub fn hash_bytes(bytes: &[u8]) -> (r: u64)
    ensures
        r == fnv1a(bytes@),
{
    let mut hash: u64 = OFFSET;
    let mut i: usize = 0;
    while i < bytes.len()
        invariant
            i <= bytes@.len(),
            hash == fnv1a(bytes@.take(i as int)),
        decreases bytes@.len() - i,
    {
        assert(bytes@.take(i + 1).drop_last() =~= bytes@.take(i as int));
        hash = (hash ^ (bytes[i] as u64)).wrapping_mul(PRIME);
        i += 1;
    }
    assert(bytes@.take(i as int) =~= bytes@);
    hash
}

/// One step of the hash can be undone: different states stay different, and different
/// bytes make the state differ.
proof fn lemma_step(h: u64, k: u64, b: u8, c: u8)
    ensures
        h != k ==> (h ^ (b as u64)).wrapping_mul(PRIME) != (k ^ (b as u64)).wrapping_mul(PRIME),
        b != c ==> (h ^ (b as u64)).wrapping_mul(PRIME) != (h ^ (c as u64)).wrapping_mul(PRIME),
{
    let x = b as u64;
    let y = c as u64;
    assert(h != k ==> h ^ x != k ^ x) by (bit_vector);
    assert(x != y ==> h ^ x != h ^ y) by (bit_vector);
    lemma_factor(h ^ x, k ^ x);
    lemma_factor(h ^ x, h ^ y);
}

/// The factor of the hash has an inverse, so that no two numbers have the same product
/// with it.
proof fn lemma_factor(a: u64, b: u64)
    ensures
        a != b ==> a.wrapping_mul(PRIME) != b.wrapping_mul(PRIME),
{
    lemma_undone(a);
    lemma_undone(b);
}

/// Multiplying with the inverse gives the number back.
proof fn lemma_undone(a: u64)
    ensures
        (a.wrapping_mul(PRIME) as int * 14886173955864302971int) % 0x1_0000_0000_0000_0000int
            == a,
{
    let m = 0x1_0000_0000_0000_0000int;
    let inverse = 14886173955864302971int;
    let times = 887285111055int;
    let product = a as int * PRIME as int;
    assert(a.wrapping_mul(PRIME) as int == product % m);
    vstd::arithmetic::div_mod::lemma_mul_mod_noop_left(product, inverse, m);
    assert(PRIME as int * inverse == times * m + 1);
    assert(product * inverse == m * (a as int * times) + a as int) by (nonlinear_arith)
        requires
            product == a as int * PRIME as int,
            PRIME as int * inverse == times * m + 1,
    ;
    vstd::arithmetic::div_mod::lemma_mod_multiples_vanish(a as int * times, a as int, m);
    vstd::arithmetic::div_mod::lemma_small_mod(a as nat, m as nat);
}

/// The hash depends on every byte: changing one byte changes it.
pub proof fn every_byte_counts(a: Seq<u8>, b: Seq<u8>, i: int)
    requires
        a.len() == b.len(),
        0 <= i < a.len(),
        a[i] != b[i],
        forall|j: int| 0 <= j < a.len() && j != i ==> #[trigger] a[j] == b[j],
    ensures
        fnv1a(a) != fnv1a(b),
    decreases a.len(),
{
    let x = a.drop_last();
    let y = b.drop_last();
    if i == a.len() - 1 {
        assert(x =~= y);
    } else {
        assert forall|j: int| 0 <= j < x.len() && j != i implies #[trigger] x[j] == y[j] by {
            assert(a[j] == b[j]);
        }
        every_byte_counts(x, y, i);
        assert(a[a.len() - 1] == b[b.len() - 1]);
    }
    lemma_step(fnv1a(x), fnv1a(y), a.last(), b.last());
}

/// A hexadecimal digit in lower case.
pub open spec fn hex_char(digit: nat) -> char {
    if digit < 10 {
        (48 + digit) as char
    } else {
        (87 + digit) as char
    }
}

/// The last `width` hexadecimal digits of a number.
pub open spec fn hex(n: nat, width: nat) -> Seq<char>
    decreases width,
{
    if width == 0 {
        Seq::empty()
    } else {
        hex(n / 16, (width - 1) as nat).push(hex_char(n % 16))
    }
}

/// Writes the last `width` hexadecimal digits of a number.
pub fn push_hex(out: &mut String, n: u64, width: usize)
    ensures
        final(out)@ == old(out)@ + hex(n as nat, width as nat),
    decreases width,
{
    if width > 0 {
        push_hex(out, n / 16, width - 1);
        let d: u8 = (n % 16) as u8;
        let c: u8 = if d < 10 {
            48 + d
        } else {
            87 + d
        };
        out.push(c as char);
        assert(out@ =~= old(out)@ + hex(n as nat, width as nat));
    } else {
        assert(old(out)@ + Seq::<char>::empty() =~= old(out)@);
    }
}

} // verus!
