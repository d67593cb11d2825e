//! CRC-32C (Castagnoli), table-driven, one byte at a time.

use vstd::prelude::*;

verus! {

/// The CRC-32C (Castagnoli) polynomial 0x1EDC6F41, bit-reversed.
pub const POLYNOMIAL: u32 = 0x82F63B78;

/// One step of bitwise long division by the reflected polynomial.
pub open spec fn crc_shift(r: u32) -> u32 {
    if r & 1 == 1 {
        (r >> 1) ^ POLYNOMIAL
    } else {
        r >> 1
    }
}

/// `n` steps of long division.
pub open spec fn crc_shifts(r: u32, n: nat) -> u32
    decreases n,
{
    if n == 0 {
        r
    } else {
        crc_shifts(crc_shift(r), (n - 1) as nat)
    }
}

/// Entry `i` of the byte-at-a-time lookup table.
pub open spec fn table_entry(i: u32) -> u32 {
    crc_shifts(i, 8)
}

/// The accumulator after taking in byte `b`.
pub open spec fn crc_update(acc: u32, b: u8) -> u32 {
    table_entry((b ^ ((acc & 0xff) as u8)) as u32) ^ (acc >> 8)
}

/// The accumulator after taking in `bytes`, starting from all ones.
pub open spec fn crc_acc(bytes: Seq<u8>) -> u32
    decreases bytes.len(),
{
    if bytes.len() == 0 {
        0xffff_ffff
    } else {
        crc_update(crc_acc(bytes.drop_last()), bytes.last())
    }
}

/// The CRC-32C of `bytes`.
pub open spec fn crc32c(bytes: Seq<u8>) -> u32 {
    crc_acc(bytes) ^ 0xffff_ffff
}

/// A 1KiB-sized table used to compute the checksum.
pub struct Table {
    pub data: Vec<u32>,
}

impl Table {
    pub open spec fn wf(self) -> bool {
        &&& self.data@.len() == 256
        &&& forall|i: int| 0 <= i < 256 ==> #[trigger] self.data@[i] == table_entry(i as u32)
    }
}

pub fn table() -> (t: Table)
    ensures
        t.wf(),
{
    let mut data: Vec<u32> = Vec::new();
    let mut i: u32 = 0;
    while i < 256
        invariant
            i <= 256,
            data@.len() == i,
            forall|j: int| 0 <= j < i ==> #[trigger] data@[j] == table_entry(j as u32),
        decreases 256 - i,
    {
        let mut result: u32 = i;
        let mut k: u32 = 0;
        while k < 8
            invariant
                k <= 8,
                crc_shifts(result, (8 - k) as nat) == table_entry(i),
            decreases 8 - k,
        {
            let lsb = result & 1;
            result = if lsb == 1 {
                (result >> 1) ^ POLYNOMIAL
            } else {
                result >> 1
            };
            k = k + 1;
        }
        data.push(result);
        i = i + 1;
    }
    Table { data }
}

pub fn compute(table: &Table, buffer: &[u8]) -> (r: u32)
    requires
        table.wf(),
    ensures
        r == crc32c(buffer@),
{
    let mut acc: u32 = 0xffff_ffff;
    let n = buffer.len();
    let mut i: usize = 0;
    while i < n
        invariant
            table.wf(),
            n == buffer@.len(),
            i <= n,
            acc == crc_acc(buffer@.subrange(0, i as int)),
        decreases n - i,
    {
        let b = buffer[i];
        let index: u8 = b ^ ((acc & 0xff) as u8);
        let lookup_value = table.data[index as usize];
        acc = lookup_value ^ (acc >> 8);
        proof {
            assert(buffer@.subrange(0, i + 1).drop_last() =~= buffer@.subrange(0, i as int));
        }
        i = i + 1;
    }
    proof {
        assert(buffer@.subrange(0, n as int) =~= buffer@);
    }
    acc ^ 0xffff_ffff
}

/// Eight steps of long division, spelled out.
pub open spec fn table_entry_unrolled(i: u32) -> u32 {
    crc_shift(crc_shift(crc_shift(crc_shift(crc_shift(crc_shift(crc_shift(crc_shift(i))))))))
}

proof fn lemma_table_entry_unrolled(i: u32)
    ensures
        table_entry(i) == table_entry_unrolled(i),
{
    reveal_with_fuel(crc_shifts, 9);
}

/// Taking in a byte is one-to-one on the accumulator.
proof fn lemma_update_injective(a1: u32, a2: u32, b: u8)
    by (bit_vector)
    requires
        table_entry_unrolled((b ^ ((a1 & 0xff) as u8)) as u32) ^ (a1 >> 8) == table_entry_unrolled(
            (b ^ ((a2 & 0xff) as u8)) as u32,
        ) ^ (a2 >> 8),
    ensures
        a1 == a2,
{
}

/// Taking in two different bytes from one accumulator gives two different
/// accumulators.
proof fn lemma_update_separates(a: u32, b1: u8, b2: u8)
    by (bit_vector)
    requires
        b1 != b2,
    ensures
        table_entry_unrolled((b1 ^ ((a & 0xff) as u8)) as u32) ^ (a >> 8) != table_entry_unrolled(
            (b2 ^ ((a & 0xff) as u8)) as u32,
        ) ^ (a >> 8),
{
}

proof fn lemma_update_unrolled(a: u32, b: u8)
    ensures
        crc_update(a, b) == table_entry_unrolled((b ^ ((a & 0xff) as u8)) as u32) ^ (a >> 8),
{
    lemma_table_entry_unrolled((b ^ ((a & 0xff) as u8)) as u32);
}

/// Two messages of the same length that differ in exactly the byte at `p`
/// leave different accumulators.
proof fn lemma_acc_differs(m1: Seq<u8>, m2: Seq<u8>, p: int)
    requires
        m1.len() == m2.len(),
        0 <= p < m1.len(),
        m1[p] != m2[p],
        forall|i: int| 0 <= i < m1.len() && i != p ==> m1[i] == m2[i],
    ensures
        crc_acc(m1) != crc_acc(m2),
    decreases m1.len(),
{
    let n = m1.len() as int;
    let a1 = crc_acc(m1.drop_last());
    let a2 = crc_acc(m2.drop_last());
    lemma_update_unrolled(a1, m1.last());
    lemma_update_unrolled(a2, m2.last());
    if p == n - 1 {
        assert(m1.drop_last() =~= m2.drop_last());
        lemma_update_separates(a1, m1.last(), m2.last());
    } else {
        lemma_acc_differs(m1.drop_last(), m2.drop_last(), p);
        assert(m1.last() == m2.last());
        if crc_acc(m1) == crc_acc(m2) {
            lemma_update_injective(a1, a2, m1.last());
        }
    }
}

/// Changing a single byte of a message changes its CRC-32C.
pub proof fn lemma_crc32c_detects_byte_change(m1: Seq<u8>, m2: Seq<u8>, p: int)
    requires
        m1.len() == m2.len(),
        0 <= p < m1.len(),
        m1[p] != m2[p],
        forall|i: int| 0 <= i < m1.len() && i != p ==> m1[i] == m2[i],
    ensures
        crc32c(m1) != crc32c(m2),
{
    lemma_acc_differs(m1, m2, p);
    let a1 = crc_acc(m1);
    let a2 = crc_acc(m2);
    assert(a1 ^ 0xffff_ffff != a2 ^ 0xffff_ffff) by (bit_vector)
        requires
            a1 != a2,
    ;
}

} // verus!
