//! Preparing the live preview for remote clients: change detection by a fast
//! hash, downscaling of the 128 x 128 frame, optional gzip compression, and
//! fragmentation into datagrams.
use vstd::prelude::*;
use crate::udp::{UdpPacket, PacketType, PacketFlags, PacketModel, FrameData, FrameFormat, SpectrumData,
    MAX_PACKET_SIZE, frame_payload, FrameModel, spectrum_payload, plain_packet};
use crate::gzip::{gzip_fast, gzip_compress};
use vstd::slice::slice_to_vec;

verus! {

/// `256^k`.
pub open spec fn weight(k: nat) -> nat
    decreases k,
{
    if k == 0 { 1 } else { 256 * weight((k - 1) as nat) }
}

/// The little-endian value of the `k` bytes from `start` on, a byte past the
/// end of `data` counting as zero.
pub open spec fn word_part(data: Seq<u8>, start: int, k: nat) -> nat
    decreases k,
{
    if k == 0 {
        0
    } else {
        word_part(data, start, (k - 1) as nat)
            + (if start + k - 1 < data.len() { data[start + k - 1] as nat } else { 0 }) * weight((k - 1) as nat)
    }
}

/// The 64-bit little-endian word of the `i`-th eight-byte chunk of `data`,
/// zero-padded.
pub open spec fn chunk_word(data: Seq<u8>, i: int) -> u64 {
    word_part(data, 8 * i, 8) as u64
}

/// The hash of the first `n` chunks: the wrapping sum of each chunk's word
/// times its position counted from one.
pub open spec fn hash_upto(data: Seq<u8>, n: nat) -> u64
    decreases n,
{
    if n == 0 {
        0
    } else {
        hash_upto(data, (n - 1) as nat).wrapping_add(chunk_word(data, n - 1).wrapping_mul(n as u64))
    }
}

/// The number of eight-byte chunks of `len` bytes, the last one possibly short.
pub open spec fn chunk_count(len: int) -> int {
    (len + 7) / 8
}

/// The change-detection hash of `data`.
pub open spec fn frame_hash(data: Seq<u8>) -> u64 {
    hash_upto(data, chunk_count(data.len() as int) as nat)
}

proof fn lemma_word_part_bound(data: Seq<u8>, start: int, k: nat)
    ensures
        word_part(data, start, k) < weight(k),
    decreases k,
{
    if k > 0 {
        lemma_word_part_bound(data, start, (k - 1) as nat);
        let b: nat = if start + k - 1 < data.len() { data[start + k - 1] as nat } else { 0 };
        let w = weight((k - 1) as nat);
        let prev = word_part(data, start, (k - 1) as nat);
        assert(prev + b * w < 256 * w) by (nonlinear_arith)
            requires
                prev < w,
                b <= 255,
        ;
    }
}

/// The little-endian word of the eight bytes from `start` on, zero-padded.
fn chunk_word_at(data: &[u8], start: usize) -> (w: u64)
    ensures
        w == word_part(data@, start as int, 8),
{
    let mut word: u64 = 0;
    let mut weight_k: u64 = 1;
    let mut k: usize = 0;
    while k < 8
        invariant
            k <= 8,
            word == word_part(data@, start as int, k as nat),
            k < 8 ==> weight_k == weight(k as nat),
            k < 8 ==> weight_k <= 0x100_0000_0000_0000,
        decreases 8 - k,
    {
        proof {
            lemma_word_part_bound(data@, start as int, (k + 1) as nat);
            reveal_with_fuel(weight, 9);
        }
        let b: u64 = if start < data.len() && k < data.len() - start { data[start + k] as u64 } else { 0 };
        assert(b * weight_k <= 255 * 0x100_0000_0000_0000) by (nonlinear_arith)
            requires
                b <= 255,
                weight_k <= 0x100_0000_0000_0000,
        ;
        word = word + b * weight_k;
        if k < 7 {
            weight_k = weight_k * 256;
        }
        k = k + 1;
    }
    word
}

/// The change-detection hash of `data` (see `frame_hash`).
pub fn fast_hash(data: &[u8]) -> (h: u64)
    ensures
        h == frame_hash(data@),
{
    let len = data.len();
    let n = len / 8 + if len % 8 == 0 { 0 } else { 1 };
    assert(n == chunk_count(data@.len() as int));
    let mut acc: u64 = 0;
    let mut i: usize = 0;
    while i < n
        invariant
            n == chunk_count(data@.len() as int),
            len == data@.len(),
            n * 8 <= len + 7,
            i <= n,
            acc == hash_upto(data@, i as nat),
        decreases n - i,
    {
        assert(i * 8 <= len);
        let w = chunk_word_at(data, i * 8);
        acc = acc.wrapping_add(w.wrapping_mul(i as u64 + 1));
        i = i + 1;
    }
    acc
}

/// `x.wrapping_add(y)` is the sum modulo 2^64.
proof fn lemma_wrapping_add_mod(x: u64, y: u64)
    ensures
        x.wrapping_add(y) as int == (x as int + y as int) % 0x1_0000_0000_0000_0000,
{
    let m: int = 0x1_0000_0000_0000_0000;
    let s = x as int + y as int;
    if s > u64::MAX {
        vstd::arithmetic::div_mod::lemma_mod_sub_multiples_vanish(s, m);
        vstd::arithmetic::div_mod::lemma_small_mod((s - m) as nat, m as nat);
    } else {
        vstd::arithmetic::div_mod::lemma_small_mod(s as nat, m as nat);
    }
}

/// `x.wrapping_mul(y)` is the product modulo 2^64.
proof fn lemma_wrapping_mul_mod(x: u64, y: u64)
    ensures
        x.wrapping_mul(y) as int == (x as int * y as int) % 0x1_0000_0000_0000_0000,
{
}

/// `256^k` as `weight` computes it.
proof fn lemma_weight_is_pow(k: nat)
    ensures
        weight(k) == vstd::arithmetic::power::pow(256, k),
    decreases k,
{
    reveal(vstd::arithmetic::power::pow);
    if k > 0 {
        lemma_weight_is_pow((k - 1) as nat);
    }
}

/// Changing the byte at `p` changes the little-endian value of the `k` bytes
/// from `start` by the change times the byte's weight, when `p` is among
/// them, and not at all otherwise.
proof fn lemma_word_part_change(a: Seq<u8>, b: Seq<u8>, start: int, k: nat, p: int)
    requires
        a.len() == b.len(),
        0 <= start,
        0 <= p < a.len(),
        forall|q: int| 0 <= q < a.len() && q != p ==> a[q] == b[q],
    ensures
        word_part(b, start, k) - word_part(a, start, k) == if start <= p < start + k {
            (b[p] as int - a[p] as int) * weight((p - start) as nat)
        } else {
            0
        },
    decreases k,
{
    if k > 0 {
        lemma_word_part_change(a, b, start, (k - 1) as nat, p);
        let q = start + k - 1;
        if q == p {
            assert((b[p] as nat) * weight((k - 1) as nat) - (a[p] as nat) * weight((k - 1) as nat)
                == (b[p] as int - a[p] as int) * weight((k - 1) as nat)) by (nonlinear_arith);
        } else if 0 <= q < a.len() {
            assert(a[q] == b[q]);
        }
    }
}

/// The word of chunk `i` is the little-endian value of its eight bytes.
proof fn lemma_chunk_word_value(data: Seq<u8>, i: int)
    ensures
        chunk_word(data, i) as int == word_part(data, 8 * i, 8),
{
    lemma_word_part_bound(data, 8 * i, 8);
    reveal_with_fuel(weight, 9);
}

/// Two sequences whose chunk words differ only at chunk `i` have hashes over
/// the first `n` chunks that differ, modulo 2^64, by the word difference times
/// `i + 1` once chunk `i` is counted.
proof fn lemma_hash_upto_change(a: Seq<u8>, b: Seq<u8>, i: int, n: nat)
    requires
        0 <= i,
        n <= u64::MAX,
        forall|m: int| 0 <= m < n && m != i ==> chunk_word(a, m) == chunk_word(b, m),
    ensures
        (hash_upto(b, n) as int - hash_upto(a, n) as int) % 0x1_0000_0000_0000_0000 == if i < n {
            ((chunk_word(b, i) as int - chunk_word(a, i) as int) * (i + 1)) % 0x1_0000_0000_0000_0000
        } else {
            0
        },
    decreases n,
{
    let m: int = 0x1_0000_0000_0000_0000;
    if n > 0 {
        let n1 = (n - 1) as nat;
        lemma_hash_upto_change(a, b, i, n1);
        let ha = hash_upto(a, n1) as int;
        let hb = hash_upto(b, n1) as int;
        let wa = chunk_word(a, n1 as int);
        let wb = chunk_word(b, n1 as int);
        assert((n as u64) as int == n);
        let ta = wa.wrapping_mul(n as u64) as int;
        let tb = wb.wrapping_mul(n as u64) as int;
        lemma_wrapping_mul_mod(wa, n as u64);
        lemma_wrapping_mul_mod(wb, n as u64);
        lemma_wrapping_add_mod(hash_upto(a, n1), wa.wrapping_mul(n as u64));
        lemma_wrapping_add_mod(hash_upto(b, n1), wb.wrapping_mul(n as u64));
        assert(hash_upto(a, n) as int == (ha + ta) % m);
        assert(hash_upto(b, n) as int == (hb + tb) % m);
        vstd::arithmetic::div_mod::lemma_sub_mod_noop(hb + tb, ha + ta, m);
        assert((hash_upto(b, n) as int - hash_upto(a, n) as int) % m == ((hb - ha) + (tb - ta)) % m);
        vstd::arithmetic::div_mod::lemma_add_mod_noop(hb - ha, tb - ta, m);
        if n1 as int == i {
            assert((hb - ha) % m == 0);
            vstd::arithmetic::div_mod::lemma_sub_mod_noop(wb as int * n, wa as int * n, m);
            vstd::arithmetic::div_mod::lemma_mod_twice(wb as int * n - wa as int * n, m);
            assert((wb as int - wa as int) * (i + 1) == wb as int * n - wa as int * n) by (nonlinear_arith)
                requires
                    n == i + 1,
            ;
        } else {
            assert(wa == wb);
            vstd::arithmetic::div_mod::lemma_mod_twice(hb - ha, m);
        }
    }
}

/// The change-detection hash reads every byte of the data: changing the
/// single byte at `p` (in chunk `p / 8`, at place `p % 8` of it) changes the
/// hash by exactly `(new - old) * 256^(p % 8) * (p / 8 + 1)`, modulo 2^64.
/// In particular a change of one byte at the start of any chunk, wherever
/// the chunk lies, always changes the hash.
pub proof fn lemma_frame_hash_byte_change(a: Seq<u8>, b: Seq<u8>, p: int)
    requires
        a.len() == b.len(),
        a.len() <= 0x100_0000_0000_0000,
        0 <= p < a.len(),
        forall|q: int| 0 <= q < a.len() && q != p ==> a[q] == b[q],
    ensures
        (frame_hash(b) as int - frame_hash(a) as int
            - (b[p] as int - a[p] as int) * vstd::arithmetic::power::pow(256, (p % 8) as nat) * (p / 8 + 1))
            % 0x1_0000_0000_0000_0000 == 0,
        p % 8 == 0 && a[p] != b[p] ==> frame_hash(a) != frame_hash(b),
{
    let m: int = 0x1_0000_0000_0000_0000;
    let i = p / 8;
    let t = p % 8;
    let n = chunk_count(a.len() as int) as nat;
    assert forall|c: int| 0 <= c < n && c != i implies chunk_word(a, c) == chunk_word(b, c) by {
        lemma_word_part_change(a, b, 8 * c, 8, p);
        lemma_chunk_word_value(a, c);
        lemma_chunk_word_value(b, c);
    }
    lemma_hash_upto_change(a, b, i, n);
    lemma_word_part_change(a, b, 8 * i, 8, p);
    lemma_chunk_word_value(a, i);
    lemma_chunk_word_value(b, i);
    lemma_weight_is_pow(t as nat);
    let d = b[p] as int - a[p] as int;
    let w = vstd::arithmetic::power::pow(256, t as nat);
    assert(chunk_word(b, i) as int - chunk_word(a, i) as int == d * w);
    let diff = frame_hash(b) as int - frame_hash(a) as int;
    assert(diff % m == (d * w * (i + 1)) % m);
    vstd::arithmetic::div_mod::lemma_sub_mod_noop(diff, d * w * (i + 1), m);
    vstd::arithmetic::div_mod::lemma_mod_self_0(m);
    assert((diff % m - (d * w * (i + 1)) % m) == 0);
    vstd::arithmetic::div_mod::lemma_small_mod(0, m as nat);
    if t == 0 && a[p] != b[p] {
        assert(w == 1) by {
            reveal(vstd::arithmetic::power::pow);
        }
        assert(0 < i + 1 <= 0x20_0000_0000_0000);
        assert(d * w * (i + 1) == d * (i + 1)) by (nonlinear_arith)
            requires
                w == 1,
        ;
        assert(-0x4000_0000_0000_0000 < d * (i + 1) < 0x4000_0000_0000_0000 && d * (i + 1) != 0) by (nonlinear_arith)
            requires
                -255 <= d <= 255,
                d != 0,
                0 < i + 1 <= 0x20_0000_0000_0000,
        ;
        if frame_hash(a) == frame_hash(b) {
            assert(diff == 0);
            assert((d * (i + 1)) % m == 0);
            if d * (i + 1) > 0 {
                vstd::arithmetic::div_mod::lemma_small_mod((d * (i + 1)) as nat, m as nat);
            } else {
                vstd::arithmetic::div_mod::lemma_mod_add_multiples_vanish(d * (i + 1), m);
                vstd::arithmetic::div_mod::lemma_small_mod((m + d * (i + 1)) as nat, m as nat);
            }
        }
    }
}

/// After a round on frame `a`, a round on a frame `b` that differs from `a`
/// in one byte at the start of a chunk, wherever it lies, finds a new hash
/// and so sends the frame again (see `UdpFrameProcessor::prepare_packets`).
pub proof fn lemma_changed_frame_is_resent(last_hash: u64, a: Seq<u8>, b: Seq<u8>, p: int)
    requires
        last_hash == frame_hash(a),
        a.len() == b.len(),
        a.len() <= 0x100_0000_0000_0000,
        0 <= p < a.len(),
        p % 8 == 0,
        a[p] != b[p],
        forall|q: int| 0 <= q < a.len() && q != p ==> a[q] == b[q],
    ensures
        frame_hash(b) != last_hash,
{
    lemma_frame_hash_byte_change(a, b, p);
}

/// The hash of the first `n` values of `bits`: the wrapping sum of each value
/// times its position counted from one.
pub open spec fn bits_hash_upto(bits: Seq<u32>, n: nat) -> u64
    decreases n,
{
    if n == 0 {
        0
    } else {
        bits_hash_upto(bits, (n - 1) as nat).wrapping_add((bits[n - 1] as u64).wrapping_mul(n as u64))
    }
}

/// Two spectra whose band values differ only at band `i` have hashes over
/// the first `n` bands that differ, modulo 2^64, by the value difference
/// times `i + 1` once band `i` is counted.
proof fn lemma_bits_hash_upto_change(a: Seq<u32>, b: Seq<u32>, i: int, n: nat)
    requires
        0 <= i,
        n <= a.len(),
        a.len() == b.len(),
        n <= u64::MAX,
        forall|m: int| 0 <= m < a.len() && m != i ==> a[m] == b[m],
    ensures
        (bits_hash_upto(b, n) as int - bits_hash_upto(a, n) as int) % 0x1_0000_0000_0000_0000 == if i < n {
            ((b[i] as int - a[i] as int) * (i + 1)) % 0x1_0000_0000_0000_0000
        } else {
            0
        },
    decreases n,
{
    let m: int = 0x1_0000_0000_0000_0000;
    if n > 0 {
        let n1 = (n - 1) as nat;
        lemma_bits_hash_upto_change(a, b, i, n1);
        let ha = bits_hash_upto(a, n1) as int;
        let hb = bits_hash_upto(b, n1) as int;
        let wa = a[n1 as int] as u64;
        let wb = b[n1 as int] as u64;
        assert((n as u64) as int == n);
        let ta = wa.wrapping_mul(n as u64) as int;
        let tb = wb.wrapping_mul(n as u64) as int;
        lemma_wrapping_mul_mod(wa, n as u64);
        lemma_wrapping_mul_mod(wb, n as u64);
        lemma_wrapping_add_mod(bits_hash_upto(a, n1), wa.wrapping_mul(n as u64));
        lemma_wrapping_add_mod(bits_hash_upto(b, n1), wb.wrapping_mul(n as u64));
        assert(bits_hash_upto(a, n) as int == (ha + ta) % m);
        assert(bits_hash_upto(b, n) as int == (hb + tb) % m);
        vstd::arithmetic::div_mod::lemma_sub_mod_noop(hb + tb, ha + ta, m);
        vstd::arithmetic::div_mod::lemma_add_mod_noop(hb - ha, tb - ta, m);
        if n1 as int == i {
            vstd::arithmetic::div_mod::lemma_sub_mod_noop(wb as int * n, wa as int * n, m);
            vstd::arithmetic::div_mod::lemma_mod_twice(wb as int * n - wa as int * n, m);
            assert((wb as int - wa as int) * (i + 1) == wb as int * n - wa as int * n) by (nonlinear_arith)
                requires
                    n == i + 1,
            ;
        } else {
            assert(wa == wb);
            vstd::arithmetic::div_mod::lemma_mod_twice(hb - ha, m);
        }
    }
}

/// The spectrum hash reads every band: changing the value of band `i`
/// changes the hash by exactly `(new - old) * (i + 1)`, modulo 2^64, so a
/// spectrum that differs from the last one sent in a single band always has
/// a new hash and is sent again.
pub proof fn lemma_spectrum_hash_band_change(a: Seq<u32>, b: Seq<u32>, i: int)
    requires
        a.len() == b.len(),
        a.len() <= 0x8000_0000,
        0 <= i < a.len(),
        forall|m: int| 0 <= m < a.len() && m != i ==> a[m] == b[m],
    ensures
        (bits_hash_upto(b, b.len()) as int - bits_hash_upto(a, a.len()) as int - (b[i] as int - a[i] as int) * (i + 1))
            % 0x1_0000_0000_0000_0000 == 0,
        a[i] != b[i] ==> bits_hash_upto(a, a.len()) != bits_hash_upto(b, b.len()),
{
    let m: int = 0x1_0000_0000_0000_0000;
    lemma_bits_hash_upto_change(a, b, i, a.len());
    let d = b[i] as int - a[i] as int;
    let diff = bits_hash_upto(b, b.len()) as int - bits_hash_upto(a, a.len()) as int;
    vstd::arithmetic::div_mod::lemma_sub_mod_noop(diff, d * (i + 1), m);
    vstd::arithmetic::div_mod::lemma_small_mod(0, m as nat);
    if a[i] != b[i] {
        assert(-0x8000_0000_0000_0000 < d * (i + 1) < 0x8000_0000_0000_0000 && d * (i + 1) != 0) by (nonlinear_arith)
            requires
                -0x1_0000_0000 < d < 0x1_0000_0000,
                d != 0,
                0 < i + 1 <= 0x8000_0000,
        ;
        if bits_hash_upto(a, a.len()) == bits_hash_upto(b, b.len()) {
            assert((d * (i + 1)) % m == 0);
            if d * (i + 1) > 0 {
                vstd::arithmetic::div_mod::lemma_small_mod((d * (i + 1)) as nat, m as nat);
            } else {
                vstd::arithmetic::div_mod::lemma_mod_add_multiples_vanish(d * (i + 1), m);
                vstd::arithmetic::div_mod::lemma_small_mod((m + d * (i + 1)) as nat, m as nat);
            }
        }
    }
}

/// The change-detection hash of a spectrum, given the bit patterns of its
/// bands.
pub fn fast_hash_bits(bits: &[u32]) -> (h: u64)
    ensures
        h == bits_hash_upto(bits@, bits@.len()),
{
    let mut acc: u64 = 0;
    let mut i: usize = 0;
    while i < bits.len()
        invariant
            i <= bits@.len(),
            acc == bits_hash_upto(bits@, i as nat),
        decreases bits@.len() - i,
    {
        acc = acc.wrapping_add((bits[i] as u64).wrapping_mul(i as u64 + 1));
        i = i + 1;
    }
    acc
}

/// The three bytes of destination pixel (`x`, `y`): the source pixel at
/// (`x * scale`, `y * scale`), or black when it lies past the end of `src`.
pub open spec fn sample(src: Seq<u8>, src_width: int, scale: int, x: int, y: int) -> Seq<u8> {
    let idx = ((y * scale) * src_width + x * scale) * 3;
    if idx + 2 < src.len() { src.subrange(idx, idx + 3) } else { seq![0u8, 0u8, 0u8] }
}

/// The first `n` pixels of destination row `y`.
pub open spec fn sampled_row(src: Seq<u8>, src_width: int, scale: int, y: int, n: nat) -> Seq<u8>
    decreases n,
{
    if n == 0 { Seq::empty() } else { sampled_row(src, src_width, scale, y, (n - 1) as nat) + sample(src, src_width, scale, n - 1, y) }
}

/// The first `n` rows of the downscaled frame, each `dst_width` pixels wide.
pub open spec fn sampled_rows(src: Seq<u8>, src_width: int, scale: int, dst_width: nat, n: nat) -> Seq<u8>
    decreases n,
{
    if n == 0 {
        Seq::empty()
    } else {
        sampled_rows(src, src_width, scale, dst_width, (n - 1) as nat) + sampled_row(src, src_width, scale, n - 1, dst_width)
    }
}

/// The frame `src`, `src_width` pixels wide, downscaled by nearest neighbour
/// to `dst_width` x `dst_height` with the integer factor `src_width / dst_width`.
pub open spec fn downscaled(src: Seq<u8>, src_width: int, dst_width: nat, dst_height: nat) -> Seq<u8> {
    sampled_rows(src, src_width, src_width / (dst_width as int), dst_width, dst_height)
}

proof fn lemma_sampled_row_len(src: Seq<u8>, sw: int, scale: int, y: int, n: nat)
    requires
        sw >= 0,
        scale >= 0,
        y >= 0,
    ensures
        sampled_row(src, sw, scale, y, n).len() == 3 * n,
    decreases n,
{
    if n > 0 {
        lemma_sampled_row_len(src, sw, scale, y, (n - 1) as nat);
        let x = n - 1;
        assert(((y * scale) * sw + x * scale) * 3 >= 0) by (nonlinear_arith)
            requires
                sw >= 0,
                scale >= 0,
                y >= 0,
                x >= 0,
        ;
    }
}

proof fn lemma_sampled_rows_len(src: Seq<u8>, sw: int, scale: int, dw: nat, n: nat)
    requires
        sw >= 0,
        scale >= 0,
    ensures
        sampled_rows(src, sw, scale, dw, n).len() == 3 * dw * n,
    decreases n,
{
    if n > 0 {
        lemma_sampled_rows_len(src, sw, scale, dw, (n - 1) as nat);
        lemma_sampled_row_len(src, sw, scale, n - 1, dw);
        let m = (n - 1) as nat;
        assert(sampled_rows(src, sw, scale, dw, m).len() == 3 * dw * m);
        assert(sampled_row(src, sw, scale, m as int, dw).len() == 3 * dw);
        assert(sampled_rows(src, sw, scale, dw, n) == sampled_rows(src, sw, scale, dw, m) + sampled_row(src, sw, scale, m as int, dw));
        assert(3 * dw * m + 3 * dw == 3 * dw * n) by (nonlinear_arith)
            requires
                m == n - 1,
        ;
    } else {
        assert(3 * dw * n == 0) by (nonlinear_arith)
            requires
                n == 0,
        ;
    }
}

proof fn lemma_sampled_row_at(src: Seq<u8>, sw: int, scale: int, y: int, n: nat)
    requires
        sw >= 0,
        scale >= 0,
        y >= 0,
    ensures
        sampled_row(src, sw, scale, y, n).len() == 3 * n,
        forall|x: int, c: int| 0 <= x < n && 0 <= c < 3 ==> {
            let idx = ((y * scale) * sw + x * scale) * 3;
            #[trigger] sampled_row(src, sw, scale, y, n)[3 * x + c] == if idx + 2 < src.len() { src[idx + c] } else { 0u8 }
        },
    decreases n,
{
    lemma_sampled_row_len(src, sw, scale, y, n);
    if n > 0 {
        let n1 = (n - 1) as nat;
        lemma_sampled_row_at(src, sw, scale, y, n1);
        lemma_sampled_row_len(src, sw, scale, y, n1);
        let prev = sampled_row(src, sw, scale, y, n1);
        assert forall|x: int, c: int| 0 <= x < n && 0 <= c < 3 implies {
            let idx = ((y * scale) * sw + x * scale) * 3;
            #[trigger] sampled_row(src, sw, scale, y, n)[3 * x + c] == if idx + 2 < src.len() { src[idx + c] } else { 0u8 }
        } by {
            if x < n1 {
                assert(prev[3 * x + c] == sampled_row(src, sw, scale, y, n)[3 * x + c]);
            } else {
                let idx = ((y * scale) * sw + x * scale) * 3;
                assert(idx >= 0) by (nonlinear_arith)
                    requires
                        sw >= 0,
                        scale >= 0,
                        y >= 0,
                        x >= 0,
                        idx == ((y * scale) * sw + x * scale) * 3,
                ;
            }
        }
    }
}

/// What the downscaled frame holds: byte `c` of destination pixel
/// (`x`, `y`), at `3 (y dst_width + x)`, is byte `c` of source pixel
/// (`x s`, `y s`) with `s = src_width / dst_width`, or zero when that pixel
/// lies past the end of the source.  The 64 x 64 preview of a 128-pixel-wide
/// frame thus shows every other pixel of every other row.
pub proof fn lemma_downscaled_pixels(src: Seq<u8>, sw: int, dw: nat, dh: nat)
    requires
        sw >= 0,
        dw > 0,
    ensures
        downscaled(src, sw, dw, dh).len() == 3 * dw * dh,
        forall|x: int, y: int, c: int| 0 <= x < dw && 0 <= y < dh && 0 <= c < 3 ==> {
            let s = sw / (dw as int);
            let idx = ((y * s) * sw + x * s) * 3;
            #[trigger] downscaled(src, sw, dw, dh)[3 * (y * dw + x) + c] == if idx + 2 < src.len() { src[idx + c] } else { 0u8 }
        },
    decreases dh,
{
    let s = sw / (dw as int);
    lemma_sampled_rows_len(src, sw, s, dw, dh);
    if dh > 0 {
        let n1 = (dh - 1) as nat;
        lemma_downscaled_pixels(src, sw, dw, n1);
        lemma_sampled_row_at(src, sw, s, n1 as int, dw);
        let prev = downscaled(src, sw, dw, n1);
        assert forall|x: int, y: int, c: int| 0 <= x < dw && 0 <= y < dh && 0 <= c < 3 implies {
            let idx = ((y * s) * sw + x * s) * 3;
            #[trigger] downscaled(src, sw, dw, dh)[3 * (y * dw + x) + c] == if idx + 2 < src.len() { src[idx + c] } else { 0u8 }
        } by {
            if y < n1 {
                assert(3 * (y * dw + x) + c < 3 * dw * n1) by (nonlinear_arith)
                    requires
                        0 <= x < dw,
                        0 <= y < n1,
                        0 <= c < 3,
                ;
                assert(prev[3 * (y * dw + x) + c] == downscaled(src, sw, dw, dh)[3 * (y * dw + x) + c]);
            } else {
                assert(3 * (y * dw + x) + c == 3 * dw * n1 + (3 * x + c)) by (nonlinear_arith)
                    requires
                        y == n1,
                ;
            }
        }
    }
}

/// Pixel (`x`, `y`) of the 64 x 64 preview is pixel (`2 x`, `2 y`) of the
/// 128 x 128 frame.
pub proof fn lemma_preview_pixels(frame: Seq<u8>)
    requires
        frame.len() == 128 * 128 * 3,
    ensures
        downscaled(frame, 128, 64, 64).len() == 64 * 64 * 3,
        forall|x: int, y: int, c: int| 0 <= x < 64 && 0 <= y < 64 && 0 <= c < 3 ==>
            #[trigger] downscaled(frame, 128, 64, 64)[3 * (64 * y + x) + c] == frame[3 * (128 * (2 * y) + 2 * x) + c],
{
    lemma_downscaled_pixels(frame, 128, 64, 64);
    assert forall|x: int, y: int, c: int| 0 <= x < 64 && 0 <= y < 64 && 0 <= c < 3 implies
        #[trigger] downscaled(frame, 128, 64, 64)[3 * (64 * y + x) + c] == frame[3 * (128 * (2 * y) + 2 * x) + c] by {
        assert(3 * (64 * y + x) + c == 3 * (y * 64 + x) + c);
        assert(((y * 2) * 128 + x * 2) * 3 == 3 * (128 * (2 * y) + 2 * x));
    }
}

/// Every byte of the source index of a destination pixel fits a `usize`.
pub open spec fn downscale_fits(src_width: int, dst_width: int, dst_height: int) -> bool {
    dst_height * src_width * src_width * 3 + src_width * 3 + 3 <= usize::MAX
}

proof fn lemma_downscale_index(sw: int, dw: int, dh: int, x: int, y: int)
    requires
        dw > 0,
        0 <= x < dw,
        0 <= y < dh,
        sw >= 0,
        downscale_fits(sw, dw, dh),
    ensures
        ((y * (sw / dw)) * sw + x * (sw / dw)) * 3 + 2 <= usize::MAX,
        0 <= y * (sw / dw) <= usize::MAX,
        0 <= x * (sw / dw) <= usize::MAX,
        0 <= (y * (sw / dw)) * sw <= usize::MAX,
{
    let s = sw / dw;
    assert(0 <= s <= sw && s * dw <= sw) by (nonlinear_arith)
        requires
            dw > 0,
            sw >= 0,
            s == sw / dw,
    ;
    assert(((y * s) * sw + x * s) * 3 + 2 <= dh * sw * sw * 3 + sw * 3 + 3) by (nonlinear_arith)
        requires
            0 <= s <= sw,
            0 <= x < dw,
            0 <= y < dh,
            sw >= 0,
            dw > 0,
            s * dw <= sw,
    ;
    assert(y * s <= dh * sw * sw * 3 + sw * 3 + 3 && x * s <= dh * sw * sw * 3 + sw * 3 + 3
        && (y * s) * sw <= dh * sw * sw * 3 + sw * 3 + 3) by (nonlinear_arith)
        requires
            0 <= s <= sw,
            0 <= x < dw,
            0 <= y < dh,
            s * dw <= sw,
            dw > 0,
    ;
    assert(0 <= y * s && 0 <= x * s && 0 <= (y * s) * sw) by (nonlinear_arith)
        requires
            0 <= s,
            0 <= x,
            0 <= y,
            0 <= sw,
    ;
}

/// Appends to `out` the frame `src` downscaled to `dst_width` x `dst_height`
/// (see `downscaled`).
pub(crate) fn downscale_into(out: &mut Vec<u8>, src: &[u8], src_width: usize, dst_width: usize, dst_height: usize)
    requires
        dst_width > 0,
        downscale_fits(src_width as int, dst_width as int, dst_height as int),
    ensures
        final(out)@ == old(out)@ + downscaled(src@, src_width as int, dst_width as nat, dst_height as nat),
{
    let scale = src_width / dst_width;
    let ghost start = out@;
    let mut y: usize = 0;
    while y < dst_height
        invariant
            dst_width > 0,
            scale == src_width / dst_width,
            downscale_fits(src_width as int, dst_width as int, dst_height as int),
            y <= dst_height,
            out@ == start + sampled_rows(src@, src_width as int, scale as int, dst_width as nat, y as nat),
        decreases dst_height - y,
    {
        let ghost row_start = out@;
        let mut x: usize = 0;
        while x < dst_width
            invariant
                dst_width > 0,
                scale == src_width / dst_width,
                downscale_fits(src_width as int, dst_width as int, dst_height as int),
                y < dst_height,
                x <= dst_width,
                out@ == row_start + sampled_row(src@, src_width as int, scale as int, y as int, x as nat),
            decreases dst_width - x,
        {
            proof {
                lemma_downscale_index(src_width as int, dst_width as int, dst_height as int, x as int, y as int);
            }
            let src_y = y * scale;
            let src_x = x * scale;
            let src_idx = (src_y * src_width + src_x) * 3;
            if src_idx + 2 < src.len() {
                out.push(src[src_idx]);
                out.push(src[src_idx + 1]);
                out.push(src[src_idx + 2]);
            } else {
                out.push(0);
                out.push(0);
                out.push(0);
            }
            x = x + 1;
            assert(out@ =~= row_start + sampled_row(src@, src_width as int, scale as int, y as int, x as nat));
        }
        y = y + 1;
        assert(out@ =~= start + sampled_rows(src@, src_width as int, scale as int, dst_width as nat, y as nat));
    }
}

} // verus!

verus! {

/// Payload bytes a datagram can carry after its header.
pub open spec fn chunk_size() -> int {
    1460
}

/// The number of fragments a payload of `len` bytes is cut into.
pub open spec fn fragment_total(len: int) -> int {
    (len + 1459) / 1460
}

/// Fragment `i` of `n` of `payload`: flagged as a fragment, and as the last
/// one when it is, numbered from `base` on with wrap-around, carrying bytes
/// `1460 i` up to `1460 (i + 1)` (or the end).
pub open spec fn fragment(payload: Seq<u8>, t: PacketType, base: u32, i: int, n: int) -> PacketModel {
    PacketModel {
        packet_type: t,
        flags: if i == n - 1 { 6u8 } else { 2u8 },
        sequence: ((base + i) % 0x1_0000_0000) as u32,
        fragment_id: i as u16,
        fragment_count: n as u16,
        payload: payload.subrange(1460 * i, if 1460 * (i + 1) < payload.len() { 1460 * (i + 1) } else { payload.len() as int }),
    }
}

/// The datagrams that carry `payload`: one plain packet numbered `base` when
/// it fits, else its fragments in order.
pub open spec fn packets_for(payload: Seq<u8>, t: PacketType, base: u32) -> Seq<PacketModel> {
    if payload.len() <= chunk_size() {
        seq![plain_packet(t, base, payload)]
    } else {
        Seq::new(fragment_total(payload.len() as int) as nat, |i: int| fragment(payload, t, base, i, fragment_total(payload.len() as int)))
    }
}

/// The payloads of the first `k` packets, one after the other.
pub open spec fn joined(ps: Seq<PacketModel>, k: nat) -> Seq<u8>
    decreases k,
{
    if k == 0 { Seq::empty() } else { joined(ps, (k - 1) as nat) + ps[k - 1].payload }
}

proof fn lemma_joined_fragments(payload: Seq<u8>, t: PacketType, base: u32, k: nat)
    requires
        payload.len() > chunk_size(),
        k <= fragment_total(payload.len() as int),
    ensures
        joined(packets_for(payload, t, base), k) == payload.subrange(0, if 1460 * k < payload.len() { 1460 * k as int } else { payload.len() as int }),
    decreases k,
{
    let n = fragment_total(payload.len() as int);
    if k > 0 {
        lemma_joined_fragments(payload, t, base, (k - 1) as nat);
        let ps = packets_for(payload, t, base);
        assert(ps[k - 1] == fragment(payload, t, base, k - 1, n));
        assert(1460 * (k - 1) < payload.len());
        assert(joined(ps, k) =~= payload.subrange(0, if 1460 * k < payload.len() { 1460 * k as int } else { payload.len() as int }));
    } else {
        assert(joined(packets_for(payload, t, base), 0) =~= payload.subrange(0, 0));
    }
}

/// Joining the payloads of the datagrams that carry a payload gives the
/// payload back.
pub proof fn lemma_fragments_reassemble(payload: Seq<u8>, t: PacketType, base: u32)
    ensures
        joined(packets_for(payload, t, base), packets_for(payload, t, base).len()) == payload,
{
    if payload.len() <= chunk_size() {
        reveal_with_fuel(joined, 2);
        assert(joined(packets_for(payload, t, base), 1) =~= payload);
    } else {
        let n = fragment_total(payload.len() as int);
        lemma_joined_fragments(payload, t, base, n as nat);
        assert(payload.subrange(0, payload.len() as int) =~= payload);
    }
}

/// Every datagram of a fragmented payload is flagged as a fragment, exactly
/// the last one is flagged as the last fragment, and the fragments are
/// numbered 0, 1, ... in order.
pub proof fn lemma_fragment_numbering(payload: Seq<u8>, t: PacketType, base: u32, i: int)
    requires
        payload.len() > chunk_size(),
        payload.len() <= 1460 * 65535,
        0 <= i < packets_for(payload, t, base).len(),
    ensures
        packets_for(payload, t, base)[i].fragment_id == i,
        packets_for(payload, t, base)[i].fragment_count == packets_for(payload, t, base).len(),
        packets_for(payload, t, base)[i].flags & 2 == 2,
        (packets_for(payload, t, base)[i].flags & 4 == 4) == (i == packets_for(payload, t, base).len() - 1),
{
    assert(6u8 & 2 == 2 && 2u8 & 2 == 2 && 6u8 & 4 == 4 && 2u8 & 4 == 0) by (bit_vector);
}

/// Appends to `out` the datagrams that carry `payload` (see `packets_for`).
fn fragment_payload(payload: Vec<u8>, packet_type: PacketType, sequence: u32, out: &mut Vec<UdpPacket>)
    requires
        payload@.len() <= 1460 * 65535,
    ensures
        final(out)@.map_values(|p: UdpPacket| p@) == old(out)@.map_values(|p: UdpPacket| p@) + packets_for(payload@, packet_type, sequence),
        forall|i: int| 0 <= i < final(out)@.len() ==> old(out)@.len() <= i ==> (#[trigger] final(out)@[i]).flags.wf(),
{
    let ghost start = out@.map_values(|p: UdpPacket| p@);
    let chunk: usize = MAX_PACKET_SIZE - 12;
    if payload.len() <= chunk {
        out.push(UdpPacket::new(packet_type, sequence, payload));
        assert(out@.map_values(|p: UdpPacket| p@) =~= start + packets_for(payload@, packet_type, sequence));
        return;
    }
    let len = payload.len();
    let count = len / chunk + if len % chunk == 0 { 0 } else { 1 };
    assert(count == fragment_total(len as int));
    let fragment_count = count as u16;
    let mut current = sequence;
    let mut i: usize = 0;
    let ghost n = count as int;
    let ghost old_len = old(out)@.len();
    while i < count
        invariant
            len == payload@.len(),
            len > 1460,
            chunk == 1460,
            count == fragment_total(len as int),
            n == count,
            count <= 65535,
            fragment_count == count,
            i <= count,
            current == ((sequence + i) % 0x1_0000_0000) as u32,
            old_len == old(out)@.len(),
            out@.len() == old_len + i,
            out@.map_values(|p: UdpPacket| p@) == start + Seq::new(i as nat, |k: int| fragment(payload@, packet_type, sequence, k, n)),
            forall|k: int| old_len <= k < out@.len() ==> (#[trigger] out@[k]).flags.wf(),
            forall|k: int| 0 <= k < old_len ==> out@[k] == old(out)@[k],
        decreases count - i,
    {
        let start_byte = i * chunk;
        let end_byte = if start_byte + chunk < len { start_byte + chunk } else { len };
        let piece = crate::udp::copy_range(payload.as_slice(), start_byte, end_byte);
        let mut packet = UdpPacket::new(packet_type, current, piece);
        packet.flags = packet.flags.union(PacketFlags::fragmented());
        packet.fragment_id = i as u16;
        packet.fragment_count = fragment_count;
        if i == count - 1 {
            packet.flags = packet.flags.union(PacketFlags::last_fragment());
        }
        proof {
            assert(0u8 | 2u8 == 2u8) by (bit_vector);
            assert(2u8 | 4u8 == 6u8) by (bit_vector);
        }
        assert(packet@ == fragment(payload@, packet_type, sequence, i as int, n));
        let ghost prev_out = out@;
        let ghost pv = packet@;
        out.push(packet);
        assert(out@ == prev_out.push(packet));
        assert(out@.map_values(|p: UdpPacket| p@) =~= prev_out.map_values(|p: UdpPacket| p@).push(pv));
        current = current.wrapping_add(1);
        i = i + 1;
        assert(out@.map_values(|p: UdpPacket| p@) =~= start + Seq::new(i as nat, |k: int| fragment(payload@, packet_type, sequence, k, n)));
    }
    assert(Seq::new(count as nat, |k: int| fragment(payload@, packet_type, sequence, k, n)) =~= packets_for(payload@, packet_type, sequence));
}

/// Which payload a preview frame travels in, and as which packet type: its
/// gzip stream when compression is wanted, the payload is over 1 KiB and the
/// stream is under three quarters of its size; else the payload itself.
pub open spec fn chosen_payload(payload: Seq<u8>, use_compression: bool) -> (Seq<u8>, PacketType) {
    let c = gzip_fast(payload);
    if use_compression && payload.len() > 1024 && c.len() < payload.len() * 3 / 4 {
        (c, PacketType::FrameDataCompressed)
    } else {
        (payload, PacketType::FrameData)
    }
}

/// The payload of the 64 x 64 preview of a 128-pixel-wide frame.
pub open spec fn preview_payload(frame: Seq<u8>) -> Seq<u8> {
    frame_payload(FrameModel { width: 64, height: 64, format: FrameFormat::RGB, data: downscaled(frame, 128, 64, 64) })
}

/// The datagrams of one preparation round: those of the frame payload `fp`
/// (of type `t`) when the frame is sent, then one spectrum packet when the
/// spectrum is sent, numbered after the frame's.
pub open spec fn round_packets(send_frame: bool, fp: Seq<u8>, t: PacketType, base: u32, send_spectrum: bool, reduced: Seq<u32>) -> Seq<PacketModel> {
    let frame_part = if send_frame { packets_for(fp, t, base) } else { Seq::empty() };
    let next = ((base + frame_part.len()) % 0x1_0000_0000) as u32;
    frame_part + if send_spectrum { seq![plain_packet(PacketType::SpectrumData, next, spectrum_payload(reduced))] } else { Seq::empty() }
}

/// Every datagram of a round carries at most 1460 payload bytes, and the
/// datagrams are numbered from `base` on, one after the other, with
/// wrap-around, when the frame payload needs at most 65535 fragments and the
/// spectrum has at most 32 bands.
pub proof fn lemma_round_layout(send_frame: bool, fp: Seq<u8>, t: PacketType, base: u32, send_spectrum: bool, reduced: Seq<u32>)
    requires
        fp.len() <= 1460 * 65535,
        reduced.len() <= 32,
    ensures
        forall|i: int| 0 <= i < round_packets(send_frame, fp, t, base, send_spectrum, reduced).len() ==> {
            &&& (#[trigger] round_packets(send_frame, fp, t, base, send_spectrum, reduced)[i]).payload.len() <= 1460
            &&& round_packets(send_frame, fp, t, base, send_spectrum, reduced)[i].sequence == ((base + i) % 0x1_0000_0000) as u32
        },
{
    let r = round_packets(send_frame, fp, t, base, send_spectrum, reduced);
    let frame_part = if send_frame { packets_for(fp, t, base) } else { Seq::<PacketModel>::empty() };
    crate::udp::lemma_bands_bytes_len(reduced, reduced.len());
    assert forall|i: int| 0 <= i < r.len() implies {
        &&& (#[trigger] r[i]).payload.len() <= 1460
        &&& r[i].sequence == ((base + i) % 0x1_0000_0000) as u32
    } by {
        if i < frame_part.len() {
            assert(r[i] == frame_part[i]);
            if fp.len() > chunk_size() {
                let n = fragment_total(fp.len() as int);
                assert(1460 * i <= fp.len() - 1) by (nonlinear_arith)
                    requires
                        0 <= i < n,
                        n == (fp.len() + 1459) / 1460,
                ;
            }
        } else {
            assert(r[i].payload == spectrum_payload(reduced));
        }
    }
}

/// Turns the current frame and spectrum into datagrams for one client,
/// sending each only when it changed (the frame also every 60 rounds).
pub struct UdpFrameProcessor {
    frame_buffer: Vec<u8>,
    last_frame_hash: u64,
    last_spectrum_hash: u64,
    frame_counter: u32,
}

impl UdpFrameProcessor {
    /// The hash of the last frame sent.
    pub closed spec fn spec_last_frame_hash(&self) -> u64 {
        self.last_frame_hash
    }

    /// The hash of the last spectrum sent.
    pub closed spec fn spec_last_spectrum_hash(&self) -> u64 {
        self.last_spectrum_hash
    }

    /// The number of rounds so far, wrapping.
    pub closed spec fn spec_frame_counter(&self) -> u32 {
        self.frame_counter
    }

    /// The last preview produced.
    pub closed spec fn spec_frame_buffer(&self) -> Seq<u8> {
        self.frame_buffer@
    }

    /// A processor that has sent nothing yet.
    pub fn new() -> (p: Self)
        ensures
            p.spec_last_frame_hash() == 0,
            p.spec_last_spectrum_hash() == 0,
            p.spec_frame_counter() == 0,
            p.spec_frame_buffer() == Seq::<u8>::empty(),
    {
        UdpFrameProcessor { frame_buffer: Vec::with_capacity(128 * 128 * 3), last_frame_hash: 0, last_spectrum_hash: 0, frame_counter: 0 }
    }

    /// The last preview produced.
    pub fn frame_buffer(&self) -> (b: &Vec<u8>)
        ensures
            b@ == self.spec_frame_buffer(),
    {
        &self.frame_buffer
    }

    /// The change-detection hash of `data` (see `frame_hash`).
    pub fn fast_hash(data: &[u8]) -> (h: u64)
        ensures
            h == frame_hash(data@),
    {
        fast_hash(data)
    }

    /// Replaces the preview with `src` downscaled to `dst_width` x
    /// `dst_height` (see `downscaled`).
    pub fn downscale_frame(&mut self, src: &[u8], src_width: usize, dst_width: usize, dst_height: usize)
        requires
            dst_width > 0,
            downscale_fits(src_width as int, dst_width as int, dst_height as int),
        ensures
            final(self).spec_frame_buffer() == downscaled(src@, src_width as int, dst_width as nat, dst_height as nat),
            final(self).spec_last_frame_hash() == old(self).spec_last_frame_hash(),
            final(self).spec_last_spectrum_hash() == old(self).spec_last_spectrum_hash(),
            final(self).spec_frame_counter() == old(self).spec_frame_counter(),
    {
        self.frame_buffer.clear();
        downscale_into(&mut self.frame_buffer, src, src_width, dst_width, dst_height);
        assert(self.frame_buffer@ =~= downscaled(src@, src_width as int, dst_width as nat, dst_height as nat));
    }

    /// Gzip-compresses `data`; always succeeds.
    pub fn compress_data(&mut self, data: &[u8]) -> (r: Option<Vec<u8>>)
        ensures
            r matches Some(v) && v@ == gzip_fast(data@),
            *final(self) == *old(self),
    {
        Some(gzip_compress(data))
    }

    /// The datagrams of one round (see `round_packets`).  The frame (its
    /// 64 x 64 preview, compressed when that pays) is sent when its hash
    /// differs from the last one sent or every 60th round; the spectrum,
    /// given by the bit patterns of its bands `spectrum_bits` and already
    /// reduced to `reduced_spectrum`, is sent when its hash differs from the
    /// last one sent.  Packets are numbered from `sequence_base` on.
    #[verifier::spinoff_prover]
    #[verifier::rlimit(40)]
    pub fn prepare_packets(&mut self, frame: &[u8], spectrum_bits: &[u32], reduced_spectrum: &[u32], sequence_base: u32, use_compression: bool) -> (r: Vec<UdpPacket>)
        requires
            reduced_spectrum@.len() <= 32,
        ensures
            ({
                let send_frame = frame_hash(frame@) != old(self).spec_last_frame_hash() || old(self).spec_frame_counter() % 60 == 0;
                let send_spectrum = bits_hash_upto(spectrum_bits@, spectrum_bits@.len()) != old(self).spec_last_spectrum_hash();
                &&& r@.map_values(|p: UdpPacket| p@) == round_packets(
                        send_frame,
                        chosen_payload(preview_payload(frame@), use_compression).0,
                        chosen_payload(preview_payload(frame@), use_compression).1,
                        sequence_base,
                        send_spectrum,
                        reduced_spectrum@,
                    )
                &&& final(self).spec_last_frame_hash() == if send_frame { frame_hash(frame@) } else { old(self).spec_last_frame_hash() }
                &&& final(self).spec_last_frame_hash() == frame_hash(frame@)
                &&& final(self).spec_last_spectrum_hash() == bits_hash_upto(spectrum_bits@, spectrum_bits@.len())
                &&& final(self).spec_frame_counter() == old(self).spec_frame_counter().wrapping_add(1)
                &&& send_frame ==> final(self).spec_frame_buffer() == downscaled(frame@, 128, 64, 64)
            }),
            forall|i: int| 0 <= i < r@.len() ==> (#[trigger] r@[i]).flags.wf(),
            forall|i: int| 0 <= i < r@.len() ==> (#[trigger] r@[i]).payload@.len() <= 1460
                && r@[i].sequence == ((sequence_base + i) % 0x1_0000_0000) as u32,
    {
        let mut packets: Vec<UdpPacket> = Vec::new();
        let mut current_sequence = sequence_base;
        let frame_hash_now = fast_hash(frame);
        let send_frame = frame_hash_now != self.last_frame_hash || self.frame_counter % 60 == 0;
        if send_frame {
            self.last_frame_hash = frame_hash_now;
            self.downscale_frame(frame, 128, 64, 64);
            let frame_data = FrameData { width: 64, height: 64, format: FrameFormat::RGB, data: self.frame_buffer.clone() };
            let payload = frame_data.to_payload();
            proof {
                lemma_sampled_rows_len(frame@, 128, 2, 64, 64);
            }
            assert(payload@ == preview_payload(frame@));
            let (final_payload, packet_type) = if use_compression && payload.len() > 1024 {
                match self.compress_data(payload.as_slice()) {
                    Some(c) => {
                        if c.len() < payload.len() * 3 / 4 {
                            (c, PacketType::FrameDataCompressed)
                        } else {
                            (payload, PacketType::FrameData)
                        }
                    },
                    None => (payload, PacketType::FrameData),
                }
            } else {
                (payload, PacketType::FrameData)
            };
            assert((final_payload@, packet_type) == chosen_payload(preview_payload(frame@), use_compression));
            assert(final_payload@.len() <= 12293);
            let ghost before = packets@.map_values(|p: UdpPacket| p@);
            fragment_payload(final_payload, packet_type, current_sequence, &mut packets);
            let n = packets.len();
            current_sequence = current_sequence.wrapping_add(n as u32);
        }
        let spectrum_hash = fast_hash_bits(spectrum_bits);
        let send_spectrum = spectrum_hash != self.last_spectrum_hash;
        if send_spectrum {
            self.last_spectrum_hash = spectrum_hash;
            let spectrum_data = SpectrumData { bands: slice_to_vec(reduced_spectrum) };
            let payload = spectrum_data.to_payload();
            packets.push(UdpPacket::new(PacketType::SpectrumData, current_sequence, payload));
        }
        self.frame_counter = self.frame_counter.wrapping_add(1);
        assert(packets@.map_values(|p: UdpPacket| p@) =~= round_packets(
            send_frame,
            chosen_payload(preview_payload(frame@), use_compression).0,
            chosen_payload(preview_payload(frame@), use_compression).1,
            sequence_base,
            send_spectrum,
            reduced_spectrum@,
        ));
        proof {
            let cp = chosen_payload(preview_payload(frame@), use_compression);
            lemma_sampled_rows_len(frame@, 128, 2, 64, 64);
            assert(preview_payload(frame@).len() == 12293);
            assert(cp.0.len() <= 12293);
            lemma_round_layout(send_frame, cp.0, cp.1, sequence_base, send_spectrum, reduced_spectrum@);
            let m = packets@.map_values(|p: UdpPacket| p@);
            assert forall|i: int| 0 <= i < packets@.len() implies (#[trigger] packets@[i]).payload@.len() <= 1460
                && packets@[i].sequence == ((sequence_base + i) % 0x1_0000_0000) as u32 by {
                assert(m[i] == packets@[i]@);
            }
        }
        packets
    }
}

} // verus!
