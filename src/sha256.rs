//! SHA-256 (FIPS 180-4) over bytes, and its lower-case hex form.
//!
//! The spec functions below state the standard algorithm: padding, the
//! message schedule, the 64 rounds of the compression function, and the
//! chaining of blocks from the initial hash value.
use vstd::prelude::*;
use crate::text::{hex_digits, hex_char, push_char};

verus! {

broadcast use vstd::seq::group_seq_axioms;

/// Addition modulo 2^32.
pub open spec fn add32(a: u32, b: u32) -> u32 {
    ((a as int + b as int) % 0x1_0000_0000) as u32
}

fn add_mod(a: u32, b: u32) -> (r: u32)
    ensures
        r == add32(a, b),
{
    ((a as u64 + b as u64) % 0x1_0000_0000) as u32
}

pub open spec fn rotr_spec(x: u32, n: u32) -> u32 {
    (x >> n) | (x << ((32 - n) as u32))
}

fn rotr(value: u32, bits: u32) -> (r: u32)
    requires
        0 < bits < 32,
    ensures
        r == rotr_spec(value, bits),
{
    (value >> bits) | (value << (32 - bits))
}

pub open spec fn ch_spec(x: u32, y: u32, z: u32) -> u32 {
    (x & y) ^ (!x & z)
}

fn ch(x: u32, y: u32, z: u32) -> (r: u32)
    ensures
        r == ch_spec(x, y, z),
{
    (x & y) ^ (!x & z)
}

pub open spec fn maj_spec(x: u32, y: u32, z: u32) -> u32 {
    (x & y) ^ (x & z) ^ (y & z)
}

fn maj(x: u32, y: u32, z: u32) -> (r: u32)
    ensures
        r == maj_spec(x, y, z),
{
    (x & y) ^ (x & z) ^ (y & z)
}

pub open spec fn big_sigma0_spec(x: u32) -> u32 {
    rotr_spec(x, 2) ^ rotr_spec(x, 13) ^ rotr_spec(x, 22)
}

fn big_sigma0(x: u32) -> (r: u32)
    ensures
        r == big_sigma0_spec(x),
{
    rotr(x, 2) ^ rotr(x, 13) ^ rotr(x, 22)
}

pub open spec fn big_sigma1_spec(x: u32) -> u32 {
    rotr_spec(x, 6) ^ rotr_spec(x, 11) ^ rotr_spec(x, 25)
}

fn big_sigma1(x: u32) -> (r: u32)
    ensures
        r == big_sigma1_spec(x),
{
    rotr(x, 6) ^ rotr(x, 11) ^ rotr(x, 25)
}

pub open spec fn small_sigma0_spec(x: u32) -> u32 {
    rotr_spec(x, 7) ^ rotr_spec(x, 18) ^ (x >> 3)
}

fn small_sigma0(x: u32) -> (r: u32)
    ensures
        r == small_sigma0_spec(x),
{
    rotr(x, 7) ^ rotr(x, 18) ^ (x >> 3)
}

pub open spec fn small_sigma1_spec(x: u32) -> u32 {
    rotr_spec(x, 17) ^ rotr_spec(x, 19) ^ (x >> 10)
}

fn small_sigma1(x: u32) -> (r: u32)
    ensures
        r == small_sigma1_spec(x),
{
    rotr(x, 17) ^ rotr(x, 19) ^ (x >> 10)
}

/// The initial hash value.
pub open spec fn initial_state() -> Seq<u32> {
    seq![0x6a09e667, 0xbb67ae85, 0x3c6ef372, 0xa54ff53a, 0x510e527f, 0x9b05688c, 0x1f83d9ab, 0x5be0cd19]
}

/// The round constants.
pub open spec fn round_constant(i: int) -> u32 {

    if i == 0 {
        0x428a2f98
    } else if i == 1 {
        0x71374491
    } else if i == 2 {
        0xb5c0fbcf
    } else if i == 3 {
        0xe9b5dba5
    } else if i == 4 {
        0x3956c25b
    } else if i == 5 {
        0x59f111f1
    } else if i == 6 {
        0x923f82a4
    } else if i == 7 {
        0xab1c5ed5
    } else if i == 8 {
        0xd807aa98
    } else if i == 9 {
        0x12835b01
    } else if i == 10 {
        0x243185be
    } else if i == 11 {
        0x550c7dc3
    } else if i == 12 {
        0x72be5d74
    } else if i == 13 {
        0x80deb1fe
    } else if i == 14 {
        0x9bdc06a7
    } else if i == 15 {
        0xc19bf174
    } else if i == 16 {
        0xe49b69c1
    } else if i == 17 {
        0xefbe4786
    } else if i == 18 {
        0x0fc19dc6
    } else if i == 19 {
        0x240ca1cc
    } else if i == 20 {
        0x2de92c6f
    } else if i == 21 {
        0x4a7484aa
    } else if i == 22 {
        0x5cb0a9dc
    } else if i == 23 {
        0x76f988da
    } else if i == 24 {
        0x983e5152
    } else if i == 25 {
        0xa831c66d
    } else if i == 26 {
        0xb00327c8
    } else if i == 27 {
        0xbf597fc7
    } else if i == 28 {
        0xc6e00bf3
    } else if i == 29 {
        0xd5a79147
    } else if i == 30 {
        0x06ca6351
    } else if i == 31 {
        0x14292967
    } else if i == 32 {
        0x27b70a85
    } else if i == 33 {
        0x2e1b2138
    } else if i == 34 {
        0x4d2c6dfc
    } else if i == 35 {
        0x53380d13
    } else if i == 36 {
        0x650a7354
    } else if i == 37 {
        0x766a0abb
    } else if i == 38 {
        0x81c2c92e
    } else if i == 39 {
        0x92722c85
    } else if i == 40 {
        0xa2bfe8a1
    } else if i == 41 {
        0xa81a664b
    } else if i == 42 {
        0xc24b8b70
    } else if i == 43 {
        0xc76c51a3
    } else if i == 44 {
        0xd192e819
    } else if i == 45 {
        0xd6990624
    } else if i == 46 {
        0xf40e3585
    } else if i == 47 {
        0x106aa070
    } else if i == 48 {
        0x19a4c116
    } else if i == 49 {
        0x1e376c08
    } else if i == 50 {
        0x2748774c
    } else if i == 51 {
        0x34b0bcb5
    } else if i == 52 {
        0x391c0cb3
    } else if i == 53 {
        0x4ed8aa4a
    } else if i == 54 {
        0x5b9cca4f
    } else if i == 55 {
        0x682e6ff3
    } else if i == 56 {
        0x748f82ee
    } else if i == 57 {
        0x78a5636f
    } else if i == 58 {
        0x84c87814
    } else if i == 59 {
        0x8cc70208
    } else if i == 60 {
        0x90befffa
    } else if i == 61 {
        0xa4506ceb
    } else if i == 62 {
        0xbef9a3f7
    } else if i == 63 {
        0xc67178f2
    } else {
        0
    }
}

fn k_at(i: usize) -> (r: u32)
    requires
        i < 64,
    ensures
        r == round_constant(i as int),
{
    match i {
        0 => 0x428a2f98,
        1 => 0x71374491,
        2 => 0xb5c0fbcf,
        3 => 0xe9b5dba5,
        4 => 0x3956c25b,
        5 => 0x59f111f1,
        6 => 0x923f82a4,
        7 => 0xab1c5ed5,
        8 => 0xd807aa98,
        9 => 0x12835b01,
        10 => 0x243185be,
        11 => 0x550c7dc3,
        12 => 0x72be5d74,
        13 => 0x80deb1fe,
        14 => 0x9bdc06a7,
        15 => 0xc19bf174,
        16 => 0xe49b69c1,
        17 => 0xefbe4786,
        18 => 0x0fc19dc6,
        19 => 0x240ca1cc,
        20 => 0x2de92c6f,
        21 => 0x4a7484aa,
        22 => 0x5cb0a9dc,
        23 => 0x76f988da,
        24 => 0x983e5152,
        25 => 0xa831c66d,
        26 => 0xb00327c8,
        27 => 0xbf597fc7,
        28 => 0xc6e00bf3,
        29 => 0xd5a79147,
        30 => 0x06ca6351,
        31 => 0x14292967,
        32 => 0x27b70a85,
        33 => 0x2e1b2138,
        34 => 0x4d2c6dfc,
        35 => 0x53380d13,
        36 => 0x650a7354,
        37 => 0x766a0abb,
        38 => 0x81c2c92e,
        39 => 0x92722c85,
        40 => 0xa2bfe8a1,
        41 => 0xa81a664b,
        42 => 0xc24b8b70,
        43 => 0xc76c51a3,
        44 => 0xd192e819,
        45 => 0xd6990624,
        46 => 0xf40e3585,
        47 => 0x106aa070,
        48 => 0x19a4c116,
        49 => 0x1e376c08,
        50 => 0x2748774c,
        51 => 0x34b0bcb5,
        52 => 0x391c0cb3,
        53 => 0x4ed8aa4a,
        54 => 0x5b9cca4f,
        55 => 0x682e6ff3,
        56 => 0x748f82ee,
        57 => 0x78a5636f,
        58 => 0x84c87814,
        59 => 0x8cc70208,
        60 => 0x90befffa,
        61 => 0xa4506ceb,
        62 => 0xbef9a3f7,
        _ => 0xc67178f2,
    }
}

/// The big-endian word of the four bytes at `p`.
pub open spec fn be32(b: Seq<u8>, p: int) -> u32 {
    ((b[p] as u32) << 24u32) | ((b[p + 1] as u32) << 16u32) | ((b[p + 2] as u32) << 8u32) | (b[p + 3] as u32)
}

/// Word `i` of the message schedule of a 64-byte block.
pub open spec fn schedule(block: Seq<u8>, i: int) -> u32
    decreases i,
{
    if i < 0 {
        0
    } else if i < 16 {
        be32(block, 4 * i)
    } else {
        add32(
            add32(add32(schedule(block, i - 16), small_sigma0_spec(schedule(block, i - 15))), schedule(block, i - 7)),
            small_sigma1_spec(schedule(block, i - 2)),
        )
    }
}

/// One round of the compression function on the working variables.
pub open spec fn round(s: Seq<u32>, k: u32, w: u32) -> Seq<u32> {
    let t1 = add32(add32(add32(add32(s[7], big_sigma1_spec(s[4])), ch_spec(s[4], s[5], s[6])), k), w);
    let t2 = add32(big_sigma0_spec(s[0]), maj_spec(s[0], s[1], s[2]));
    seq![add32(t1, t2), s[0], s[1], s[2], add32(s[3], t1), s[4], s[5], s[6]]
}

/// The working variables after the first `t` rounds on `block`.
pub open spec fn rounds(s: Seq<u32>, block: Seq<u8>, t: int) -> Seq<u32>
    decreases t,
{
    if t <= 0 {
        s
    } else {
        round(rounds(s, block, t - 1), round_constant(t - 1), schedule(block, t - 1))
    }
}

/// The hash state after one more block.
#[verifier::opaque]
pub open spec fn compress(s: Seq<u32>, block: Seq<u8>) -> Seq<u32> {
    let r = rounds(s, block, 64);
    Seq::new(8, |i: int| add32(s[i], r[i]))
}

/// The zero bytes between the `0x80` marker and the length field.
pub open spec fn zero_count(n: nat) -> nat {
    ((119 - (n % 64) as int) % 64) as nat
}

/// The eight big-endian bytes of `v`.
pub open spec fn be64(v: u64) -> Seq<u8> {
    Seq::new(8, |i: int| ((v >> ((56 - 8 * i) as u64)) & 0xff) as u8)
}

#[verifier::opaque]
/// The padded message: a `0x80` byte, zeros, and the bit length, so that
/// the whole is a multiple of 64 bytes.
pub open spec fn padding(data: Seq<u8>) -> Seq<u8> {
    data + seq![0x80u8] + Seq::new(zero_count(data.len()), |_i: int| 0u8) + be64((data.len() * 8) as u64)
}

/// The hash state after the first `n` blocks of a padded message.
pub open spec fn digest_state(p: Seq<u8>, n: int) -> Seq<u32>
    decreases n,
{
    if n <= 0 {
        initial_state()
    } else {
        compress(digest_state(p, n - 1), p.subrange(64 * (n - 1), 64 * n))
    }
}

/// The big-endian bytes of a hash state.
pub open spec fn state_bytes(s: Seq<u32>) -> Seq<u8> {
    Seq::new(32, |i: int| ((s[i / 4] >> ((24 - 8 * (i % 4)) as u32)) & 0xff) as u8)
}

/// The SHA-256 digest of `data`.
pub open spec fn sha256(data: Seq<u8>) -> Seq<u8> {
    let p = padding(data);
    state_bytes(digest_state(p, p.len() as int / 64))
}

fn pad(data: &[u8]) -> (r: Vec<u8>)
    requires
        data@.len() <= 0x1fff_ffff_ffff_ffff,
    ensures
        r@ == padding(data@),
        r@.len() % 64 == 0,
{
    reveal(padding);
    let mut padded: Vec<u8> = Vec::new();
    let mut i: usize = 0;
    while i < data.len()
        invariant
            i <= data@.len(),
            padded@ == data@.subrange(0, i as int),
        decreases data.len() - i,
    {
        padded.push(data[i]);
        i += 1;
        assert(padded@ =~= data@.subrange(0, i as int));
    }
    assert(data@.subrange(0, data@.len() as int) =~= data@);
    padded.push(0x80);
    let zeros = (119 - data.len() % 64) % 64;
    let mut k: usize = 0;
    while k < zeros
        invariant
            k <= zeros,
            zeros == zero_count(data@.len()),
            padded@ == data@ + seq![0x80u8] + Seq::new(k as nat, |_i: int| 0u8),
        decreases zeros - k,
    {
        padded.push(0);
        k += 1;
        assert(padded@ =~= data@ + seq![0x80u8] + Seq::new(k as nat, |_i: int| 0u8));
    }
    let bit_len = (data.len() as u64) * 8;
    let ghost prefix = padded@;
    let mut j: u64 = 0;
    while j < 8
        invariant
            j <= 8,
            bit_len == (data@.len() * 8) as u64,
            padded@ == prefix + be64(bit_len).subrange(0, j as int),
        decreases 8 - j,
    {
        padded.push(((bit_len >> (56 - 8 * j)) & 0xff) as u8);
        j += 1;
        assert(padded@ =~= prefix + be64(bit_len).subrange(0, j as int));
    }
    assert(be64(bit_len).subrange(0, 8) =~= be64(bit_len));
    assert(padded@.len() == data@.len() + 1 + zero_count(data@.len()) + 8);
    padded
}

fn word_at(p: &Vec<u8>, at: usize) -> (r: u32)
    requires
        at + 4 <= p.len(),
    ensures
        r == be32(p@, at as int),
{
    ((p[at] as u32) << 24u32) | ((p[at + 1] as u32) << 16u32) | ((p[at + 2] as u32) << 8u32) | (p[at + 3] as u32)
}

/// The hash state after the 64-byte block at `off`.
fn compress_block(state: &Vec<u32>, p: &Vec<u8>, off: usize) -> (r: Vec<u32>)
    requires
        state@.len() == 8,
        off + 64 <= p@.len(),
    ensures
        r@ == compress(state@, p@.subrange(off as int, off + 64)),
        r@.len() == 8,
{
    reveal(compress);
    let ghost block = p@.subrange(off as int, off + 64);
    let plen = p.len();
    let mut w: Vec<u32> = Vec::new();
    let mut i: usize = 0;
    while i < 16
        invariant
            block == p@.subrange(off as int, off + 64),
            off + 64 <= p@.len(),
            plen == p@.len(),
            i <= 16,
            w@.len() == i,
            forall|j: int| 0 <= j < i ==> #[trigger] w@[j] == schedule(block, j),
        decreases 16 - i,
    {
        let at = off + 4 * i;
        let word = word_at(p, at);
        assert(be32(p@, off + 4 * i) == be32(block, 4 * i));
        w.push(word);
        i += 1;
    }
    while i < 64
        invariant
            16 <= i <= 64,
            w@.len() == i,
            forall|j: int| 0 <= j < i ==> #[trigger] w@[j] == schedule(block, j),
        decreases 64 - i,
    {
        let s0 = small_sigma0(w[i - 15]);
        let s1 = small_sigma1(w[i - 2]);
        let word = add_mod(add_mod(add_mod(w[i - 16], s0), w[i - 7]), s1);
        w.push(word);
        i += 1;
    }
    let mut a = state[0];
    let mut b = state[1];
    let mut c = state[2];
    let mut d = state[3];
    let mut e = state[4];
    let mut f = state[5];
    let mut g = state[6];
    let mut h = state[7];
    assert(seq![a, b, c, d, e, f, g, h] =~= state@);
    let mut t: usize = 0;
    while t < 64
        invariant
            t <= 64,
            w@.len() == 64,
            forall|j: int| 0 <= j < 64 ==> #[trigger] w@[j] == schedule(block, j),
            seq![a, b, c, d, e, f, g, h] == rounds(state@, block, t as int),
        decreases 64 - t,
    {
        let t1 = add_mod(add_mod(add_mod(add_mod(h, big_sigma1(e)), ch(e, f, g)), k_at(t)), w[t]);
        let t2 = add_mod(big_sigma0(a), maj(a, b, c));
        let ghost before = seq![a, b, c, d, e, f, g, h];
        h = g;
        g = f;
        f = e;
        e = add_mod(d, t1);
        d = c;
        c = b;
        b = a;
        a = add_mod(t1, t2);
        t += 1;
        assert(seq![a, b, c, d, e, f, g, h] =~= round(before, round_constant(t - 1), schedule(block, t - 1)));
    }
    let ghost r = rounds(state@, block, 64);
    let mut out: Vec<u32> = Vec::new();
    out.push(add_mod(state[0], a));
    out.push(add_mod(state[1], b));
    out.push(add_mod(state[2], c));
    out.push(add_mod(state[3], d));
    out.push(add_mod(state[4], e));
    out.push(add_mod(state[5], f));
    out.push(add_mod(state[6], g));
    out.push(add_mod(state[7], h));
    assert(r == seq![a, b, c, d, e, f, g, h]);
    assert(out@ =~= compress(state@, block));
    out
}

/// The SHA-256 digest of `data`.
pub fn hash(data: &[u8]) -> (r: [u8; 32])
    requires
        data@.len() <= 0x1fff_ffff_ffff_ffff,
    ensures
        r@ == sha256(data@),
{
    let padded = pad(data);
    let mut state: Vec<u32> = Vec::new();
    state.push(0x6a09e667);
    state.push(0xbb67ae85);
    state.push(0x3c6ef372);
    state.push(0xa54ff53a);
    state.push(0x510e527f);
    state.push(0x9b05688c);
    state.push(0x1f83d9ab);
    state.push(0x5be0cd19);
    assert(state@ =~= initial_state());
    let plen = padded.len();
    let blocks = plen / 64;
    let mut n: usize = 0;
    while n < blocks
        invariant
            plen == padded@.len(),
            padded@ == padding(data@),
            blocks == padded@.len() / 64,
            padded@.len() % 64 == 0,
            n <= blocks,
            state@.len() == 8,
            state@ == digest_state(padded@, n as int),
        decreases blocks - n,
    {
        assert(n * 64 + 64 <= plen) by (nonlinear_arith)
            requires
                n < blocks,
                blocks == plen / 64,
        ;
        let ghost before = state@;
        state = compress_block(&state, &padded, n * 64);
        assert(64 * (n + 1) == n * 64 + 64);
        assert(digest_state(padded@, n + 1) == compress(before, padded@.subrange(64 * n as int, 64 * (n + 1))));
        n += 1;
    }
    let ghost fin = digest_state(padded@, blocks as int);
    let mut out = [0u8; 32];
    let mut i: usize = 0;
    while i < 32
        invariant
            i <= 32,
            state@ == fin,
            state@.len() == 8,
            forall|j: int| 0 <= j < i ==> #[trigger] out@[j] == state_bytes(fin)[j],
        decreases 32 - i,
    {
        out[i] = ((state[i / 4] >> (24 - 8 * (i % 4) as u32)) & 0xff) as u8;
        i += 1;
    }
    assert(out@ =~= sha256(data@));
    out
}

/// Lower-case hex, two digits per byte.
pub open spec fn hex_text(b: Seq<u8>) -> Seq<char> {
    Seq::new(
        2 * b.len(),
        |i: int| if i % 2 == 0 {
            hex_digits()[(b[i / 2] / 16) as int]
        } else {
            hex_digits()[(b[i / 2] % 16) as int]
        },
    )
}

/// The SHA-256 digest of `data` in lower-case hex.
pub fn hash_hex(data: &[u8]) -> (r: String)
    requires
        data@.len() <= 0x1fff_ffff_ffff_ffff,
    ensures
        r@ == hex_text(sha256(data@)),
{
    let digest = hash(data);
    let mut out = String::new();
    let mut i: usize = 0;
    while i < 32
        invariant
            i <= 32,
            digest@ == sha256(data@),
            out@ == hex_text(digest@.subrange(0, i as int)),
        decreases 32 - i,
    {
        let byte = digest[i];
        push_char(&mut out, hex_char((byte / 16) as u32));
        push_char(&mut out, hex_char((byte % 16) as u32));
        i += 1;
        assert(out@ =~= hex_text(digest@.subrange(0, i as int)));
    }
    assert(digest@.subrange(0, 32) =~= digest@);
    out
}

} // verus!
