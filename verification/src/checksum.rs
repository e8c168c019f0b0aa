use vstd::prelude::*;
use crate::buf::copy_bytes;

verus! {

/// One shift of the CRC-16/CCITT register.
pub open spec fn crc16_step(crc: u16) -> u16 {
    if crc & 0x8000 != 0 { ((crc << 1u16) ^ 0x1021u16) as u16 } else { (crc << 1u16) as u16 }
}

/// `n` shifts of the CRC-16/CCITT register.
pub open spec fn crc16_steps(crc: u16, n: nat) -> u16
    decreases n,
{
    if n == 0 { crc } else { crc16_step(crc16_steps(crc, (n - 1) as nat)) }
}

/// CRC-16/CCITT (initial value 0xffff, polynomial 0x1021, no final xor) of `data`.
pub open spec fn crc16_spec(data: Seq<u8>) -> u16
    decreases data.len(),
{
    if data.len() == 0 {
        0xffff
    } else {
        crc16_steps(crc16_spec(data.drop_last()) ^ ((data.last() as u16) << 8u16), 8)
    }
}

/// One shift of the reflected CRC-32 register (polynomial 0xedb88320).
pub open spec fn crc32_step(crc: u32) -> u32 {
    if crc & 1 != 0 { (crc >> 1u32) ^ 0xedb8_8320u32 } else { crc >> 1u32 }
}

/// `n` shifts of the CRC-32 register.
pub open spec fn crc32_steps(crc: u32, n: nat) -> u32
    decreases n,
{
    if n == 0 { crc } else { crc32_step(crc32_steps(crc, (n - 1) as nat)) }
}

/// The CRC-32 register after absorbing `data`, starting from 0xffffffff.
pub open spec fn crc32_reg(data: Seq<u8>) -> u32
    decreases data.len(),
{
    if data.len() == 0 {
        0xffff_ffff
    } else {
        crc32_steps(crc32_reg(data.drop_last()) ^ (data.last() as u32), 8)
    }
}

/// CRC-32 (ISO-HDLC: reflected, initial 0xffffffff, final complement) of `data`.
pub open spec fn crc32_spec(data: Seq<u8>) -> u32 {
    !crc32_reg(data)
}

/// The Fletcher sums after the first `n` little-endian 16-bit words of `data`.
pub open spec fn fletcher_words(data: Seq<u8>, n: nat) -> (u32, u32)
    decreases n,
{
    if n == 0 {
        (0xffff, 0xffff)
    } else {
        let (s1, s2) = fletcher_words(data, (n - 1) as nat);
        let word = data[2 * (n - 1)] + 0x100 * data[2 * (n - 1) + 1];
        let t1 = ((s1 + word) % 0xffff) as u32;
        (t1, ((s2 + t1) % 0xffff) as u32)
    }
}

/// Fletcher-32 over little-endian 16-bit words, a trailing odd byte taken as a word of its own.
pub open spec fn fletcher32_spec(data: Seq<u8>) -> u32 {
    let (s1, s2) = fletcher_words(data, data.len() / 2);
    let (f1, f2) = if data.len() % 2 == 1 {
        let t1 = ((s1 + data.last()) % 0xffff) as u32;
        (t1, ((s2 + t1) % 0xffff) as u32)
    } else {
        (s1, s2)
    };
    (f2 << 16u32) | f1
}

/// `x` rotated left by `r` bits.
pub open spec fn rotl32(x: u32, r: u32) -> u32 {
    if r % 32 == 0 { x } else { (x << (r % 32)) | (x >> ((32 - r % 32) as u32)) }
}

/// The rolling-tag state after absorbing the first `n` bytes of `data`.
pub open spec fn rolling_state(seed: u32, data: Seq<u8>, n: nat) -> u32
    decreases n,
{
    if n == 0 {
        seed ^ 0x9e37_79b9u32
    } else {
        let idx = (n - 1) as int;
        let s0 = rolling_state(seed, data, (n - 1) as nat);
        let s1 = s0 ^ (data[idx] as u32).wrapping_add(rotl32(idx as u32, (idx % 31) as u32));
        let s2 = rotl32(s1, 5).wrapping_mul(0x85eb_ca6b);
        s2 ^ (s2 >> 13u32)
    }
}

/// The rolling tag of `data` under `seed`.
pub open spec fn rolling_tag_spec(seed: u32, data: Seq<u8>) -> u32 {
    rolling_state(seed, data, data.len())
}

/// Xor of all bytes of `data`.
pub open spec fn parity_spec(data: Seq<u8>) -> u8
    decreases data.len(),
{
    if data.len() == 0 { 0 } else { parity_spec(data.drop_last()) ^ data.last() }
}

/// Sum, wrapping at 2^32, of each byte times its weight `(index mod 251) + 1`.
pub open spec fn weighted_spec(data: Seq<u8>) -> u32
    decreases data.len(),
{
    if data.len() == 0 {
        0
    } else {
        let idx = (data.len() - 1) as int;
        let weight = ((idx as u32) % 251 + 1) as u32;
        weighted_spec(data.drop_last()).wrapping_add(weight.wrapping_mul(data.last() as u32))
    }
}

/// `x` rotated left by `r` bits (`u32::rotate_left`).
pub fn rotate_left32(x: u32, r: u32) -> (y: u32)
    ensures y == rotl32(x, r),
{
    let k = r % 32;
    if k == 0 { x } else { (x << k) | (x >> (32 - k)) }
}

pub fn crc16_ccitt(data: &[u8]) -> (crc: u16)
    ensures crc == crc16_spec(data@),
{
    let mut crc = 0xffffu16;
    let mut i: usize = 0;
    while i < data.len()
        invariant
            0 <= i <= data@.len(),
            crc == crc16_spec(data@.take(i as int)),
        decreases data@.len() - i,
    {
        let c0 = crc ^ ((data[i] as u16) << 8u16);
        crc = c0;
        let mut k: usize = 0;
        while k < 8
            invariant 0 <= k <= 8, crc == crc16_steps(c0, k as nat),
            decreases 8 - k,
        {
            if crc & 0x8000 != 0 {
                crc = (crc << 1u16) ^ 0x1021;
            } else {
                crc = crc << 1u16;
            }
            k = k + 1;
        }
        proof {
            let t = data@.take(i + 1);
            assert(t.drop_last() =~= data@.take(i as int));
        }
        i = i + 1;
    }
    proof { assert(data@.take(i as int) =~= data@); }
    crc
}

pub fn crc32_iso(data: &[u8]) -> (crc: u32)
    ensures crc == crc32_spec(data@),
{
    let mut crc = 0xffff_ffffu32;
    let mut i: usize = 0;
    while i < data.len()
        invariant
            0 <= i <= data@.len(),
            crc == crc32_reg(data@.take(i as int)),
        decreases data@.len() - i,
    {
        let c0 = crc ^ (data[i] as u32);
        crc = c0;
        let mut k: usize = 0;
        while k < 8
            invariant 0 <= k <= 8, crc == crc32_steps(c0, k as nat),
            decreases 8 - k,
        {
            if crc & 1 != 0 {
                crc = (crc >> 1u32) ^ 0xedb8_8320;
            } else {
                crc = crc >> 1u32;
            }
            k = k + 1;
        }
        proof {
            let t = data@.take(i + 1);
            assert(t.drop_last() =~= data@.take(i as int));
        }
        i = i + 1;
    }
    proof { assert(data@.take(i as int) =~= data@); }
    !crc
}

pub fn fletcher32(data: &[u8]) -> (sum: u32)
    ensures sum == fletcher32_spec(data@),
{
    let mut sum1 = 0xffffu32;
    let mut sum2 = 0xffffu32;
    let len = data.len();
    let pairs = len / 2;
    let mut n: usize = 0;
    while n < pairs
        invariant
            0 <= n <= pairs, pairs == data@.len() / 2, len == data@.len(),
            (sum1, sum2) == fletcher_words(data@, n as nat),
            sum1 <= 0xffff, sum2 <= 0xffff,
        decreases pairs - n,
    {
        let word = data[2 * n] as u32 + (data[2 * n + 1] as u32) * 0x100;
        sum1 = (sum1 + word) % 0xffff;
        sum2 = (sum2 + sum1) % 0xffff;
        n = n + 1;
    }
    if data.len() % 2 == 1 {
        let byte = data[data.len() - 1];
        sum1 = (sum1 + byte as u32) % 0xffff;
        sum2 = (sum2 + sum1) % 0xffff;
    }
    (sum2 << 16u32) | sum1
}

pub fn rolling_tag(seed: u32, data: &[u8]) -> (tag: u32)
    ensures tag == rolling_tag_spec(seed, data@),
{
    let mut state = seed ^ 0x9e37_79b9;
    let mut idx: usize = 0;
    while idx < data.len()
        invariant
            0 <= idx <= data@.len(),
            state == rolling_state(seed, data@, idx as nat),
        decreases data@.len() - idx,
    {
        let rot = rotate_left32(idx as u32, (idx % 31) as u32);
        state = state ^ (data[idx] as u32).wrapping_add(rot);
        state = rotate_left32(state, 5).wrapping_mul(0x85eb_ca6b);
        state = state ^ (state >> 13u32);
        idx = idx + 1;
    }
    state
}

pub fn parity8(data: &[u8]) -> (p: u8)
    ensures p == parity_spec(data@),
{
    let mut acc = 0u8;
    let mut i: usize = 0;
    while i < data.len()
        invariant
            0 <= i <= data@.len(),
            acc == parity_spec(data@.take(i as int)),
        decreases data@.len() - i,
    {
        acc = acc ^ data[i];
        proof { assert(data@.take(i + 1).drop_last() =~= data@.take(i as int)); }
        i = i + 1;
    }
    proof { assert(data@.take(i as int) =~= data@); }
    acc
}

pub fn weighted_sum(data: &[u8]) -> (sum: u32)
    ensures sum == weighted_spec(data@),
{
    let mut sum = 0u32;
    let mut idx: usize = 0;
    while idx < data.len()
        invariant
            0 <= idx <= data@.len(),
            sum == weighted_spec(data@.take(idx as int)),
        decreases data@.len() - idx,
    {
        let weight = ((idx as u32) % 251) + 1;
        sum = sum.wrapping_add(weight.wrapping_mul(data[idx] as u32));
        proof {
            let t = data@.take(idx + 1);
            assert(t.drop_last() =~= data@.take(idx as int));
            assert(t.last() == data@[idx as int]);
        }
        idx = idx + 1;
    }
    proof { assert(data@.take(idx as int) =~= data@); }
    sum
}

pub fn verify_crc32(data: &[u8], expected: u32) -> (ok: bool)
    ensures ok == (crc32_spec(data@) == expected),
{
    crc32_iso(data) == expected
}

pub fn verify_crc16(data: &[u8], expected: u16) -> (ok: bool)
    ensures ok == (crc16_spec(data@) == expected),
{
    crc16_ccitt(data) == expected
}

/// The last 4096 bytes of `s` (all of `s` when shorter).
pub open spec fn window_tail(s: Seq<u8>) -> Seq<u8> {
    if s.len() > 4096 { s.subrange(s.len() - 4096, s.len() as int) } else { s }
}

/// A rolling tag over the most recent 4096 bytes pushed through it.
#[derive(Debug, Clone)]
pub struct ChecksumWindow {
    seed: u32,
    bytes: Vec<u8>,
}

impl ChecksumWindow {
    /// The seed of the tag.
    pub closed spec fn seed(&self) -> u32 { self.seed }

    /// The bytes in the window.
    pub closed spec fn bytes(&self) -> Seq<u8> { self.bytes@ }

    pub fn new(seed: u32) -> (w: Self)
        ensures w.seed() == seed, w.bytes() == Seq::<u8>::empty(),
    {
        ChecksumWindow { seed, bytes: Vec::new() }
    }

    pub fn push(&mut self, data: &[u8])
        ensures
            final(self).seed() == old(self).seed(),
            final(self).bytes() == window_tail(old(self).bytes() + data@),
    {
        crate::buf::append_bytes(&mut self.bytes, data);
        if self.bytes.len() > 4096 {
            let drain = self.bytes.len() - 4096;
            let kept = copy_bytes(&self.bytes.as_slice()[drain..self.bytes.len()]);
            self.bytes = kept;
        }
    }

    pub fn tag(&self) -> (t: u32)
        ensures t == rolling_tag_spec(self.seed(), self.bytes()),
    {
        rolling_tag(self.seed, self.bytes.as_slice())
    }

    pub fn len(&self) -> (n: usize)
        ensures n == self.bytes().len(),
    {
        self.bytes.len()
    }

    pub fn is_empty(&self) -> (b: bool)
        ensures b == (self.bytes().len() == 0),
    {
        self.bytes.len() == 0
    }

    pub fn reset(&mut self, seed: u32)
        ensures final(self).seed() == seed, final(self).bytes() == Seq::<u8>::empty(),
    {
        self.seed = seed;
        self.bytes.clear();
    }
}

} // verus!
