//! SHA-256, and digests as text.

use vstd::prelude::*;

use crate::bytes;
use crate::text;

verus! {

/// `x` turned right by `n` bits.
pub open spec fn turned(x: u32, n: u32) -> u32 {
    (x >> n) | (x << ((32 - n) as u32))
}

/// The sum of two words, in a word.
pub open spec fn sum(a: u32, b: u32) -> u32 {
    ((a + b) % 0x1_0000_0000) as u32
}

/// The round constants.
pub open spec fn constants() -> Seq<u32> {
    seq![
        0x428a2f98u32,
        0x71374491,
        0xb5c0fbcf,
        0xe9b5dba5,
        0x3956c25b,
        0x59f111f1,
        0x923f82a4,
        0xab1c5ed5,
        0xd807aa98,
        0x12835b01,
        0x243185be,
        0x550c7dc3,
        0x72be5d74,
        0x80deb1fe,
        0x9bdc06a7,
        0xc19bf174,
        0xe49b69c1,
        0xefbe4786,
        0x0fc19dc6,
        0x240ca1cc,
        0x2de92c6f,
        0x4a7484aa,
        0x5cb0a9dc,
        0x76f988da,
        0x983e5152,
        0xa831c66d,
        0xb00327c8,
        0xbf597fc7,
        0xc6e00bf3,
        0xd5a79147,
        0x06ca6351,
        0x14292967,
        0x27b70a85,
        0x2e1b2138,
        0x4d2c6dfc,
        0x53380d13,
        0x650a7354,
        0x766a0abb,
        0x81c2c92e,
        0x92722c85,
        0xa2bfe8a1,
        0xa81a664b,
        0xc24b8b70,
        0xc76c51a3,
        0xd192e819,
        0xd6990624,
        0xf40e3585,
        0x106aa070,
        0x19a4c116,
        0x1e376c08,
        0x2748774c,
        0x34b0bcb5,
        0x391c0cb3,
        0x4ed8aa4a,
        0x5b9cca4f,
        0x682e6ff3,
        0x748f82ee,
        0x78a5636f,
        0x84c87814,
        0x8cc70208,
        0x90befffa,
        0xa4506ceb,
        0xbef9a3f7,
        0xc67178f2,
    ]
}

/// The first state.
pub open spec fn first_state() -> Seq<u32> {
    seq![
        0x6a09e667u32,
        0xbb67ae85,
        0x3c6ef372,
        0xa54ff53a,
        0x510e527f,
        0x9b05688c,
        0x1f83d9ab,
        0x5be0cd19,
    ]
}

/// The word behind the words in `w`, of which there are sixteen or more.
pub open spec fn next_word(w: Seq<u32>) -> u32 {
    let n = w.len() as int;
    let x = w[n - 15];
    let y = w[n - 2];
    let s0 = turned(x, 7) ^ turned(x, 18) ^ (x >> 3);
    let s1 = turned(y, 17) ^ turned(y, 19) ^ (y >> 10);
    sum(sum(w[n - 16], s0), sum(w[n - 7], s1))
}

/// The first `n` words of the schedule for the block at `at`.
pub open spec fn schedule(m: Seq<u8>, at: int, n: nat) -> Seq<u32>
    decreases n,
{
    if n == 0 {
        seq![]
    } else {
        let before = schedule(m, at, (n - 1) as nat);
        if n <= 16 {
            before.push(bytes::be32(m, at + 4 * (n - 1)) as u32)
        } else {
            before.push(next_word(before))
        }
    }
}

/// One round.
pub open spec fn round(s: Seq<u32>, k: u32, w: u32) -> Seq<u32> {
    let (a, b, c, e, f, g) = (s[0], s[1], s[2], s[4], s[5], s[6]);
    let s1 = turned(e, 6) ^ turned(e, 11) ^ turned(e, 25);
    let ch = (e & f) ^ (!e & g);
    let t1 = sum(sum(sum(s[7], s1), ch), sum(k, w));
    let s0 = turned(a, 2) ^ turned(a, 13) ^ turned(a, 22);
    let maj = (a & b) ^ (a & c) ^ (b & c);
    let t2 = sum(s0, maj);
    seq![sum(t1, t2), a, b, c, sum(s[3], t1), e, f, g]
}

/// The state after the first `n` rounds.
pub open spec fn rounds(s: Seq<u32>, w: Seq<u32>, n: nat) -> Seq<u32>
    decreases n,
{
    if n == 0 {
        s
    } else {
        round(rounds(s, w, (n - 1) as nat), constants()[n - 1], w[n - 1])
    }
}

/// The state after a block.
pub open spec fn block(s: Seq<u32>, m: Seq<u8>, at: int) -> Seq<u32> {
    let t = rounds(s, schedule(m, at, 64), 64);
    Seq::new(8, |i: int| sum(s[i], t[i]))
}

/// The state after the first `n` blocks.
pub open spec fn blocks(m: Seq<u8>, n: nat) -> Seq<u32>
    decreases n,
{
    if n == 0 {
        first_state()
    } else {
        block(blocks(m, (n - 1) as nat), m, 64 * (n - 1))
    }
}

/// How many zeros fill a message of `n` bytes up to its length field.
pub open spec fn fill(n: int) -> int {
    (119 - n % 64) % 64
}

/// The message as it is hashed: a bit, zeros up to a whole number of blocks, and its length in
/// bits.
pub open spec fn padded(m: Seq<u8>) -> Seq<u8> {
    let bits = (8 * m.len()) % 0x1_0000_0000_0000_0000;
    m + seq![0x80u8] + bytes::zeros(fill(m.len() as int) as nat) + bytes::be32_bytes(bits as int / 0x1_0000_0000)
        + bytes::be32_bytes(bits as int % 0x1_0000_0000)
}

/// The bytes of the first `n` words of a state.
pub open spec fn state_bytes(s: Seq<u32>, n: nat) -> Seq<u8>
    decreases n,
{
    if n == 0 {
        seq![]
    } else {
        state_bytes(s, (n - 1) as nat) + bytes::be32_bytes(s[n - 1] as int)
    }
}

/// The SHA-256 of a message.
pub open spec fn sha256(m: Seq<u8>) -> Seq<u8> {
    let p = padded(m);
    state_bytes(blocks(p, p.len() / 64), 8)
}

/// A byte as two hexadecimal digits.
pub open spec fn hex_byte(b: u8) -> Seq<char> {
    seq![text::digit_char(b as int / 16), text::digit_char(b as int % 16)]
}

/// The first `n` bytes in hexadecimal.
pub open spec fn hex_of(b: Seq<u8>, n: nat) -> Seq<char>
    decreases n,
{
    if n == 0 {
        seq![]
    } else {
        hex_of(b, (n - 1) as nat) + hex_byte(b[n - 1])
    }
}

fn add32(a: u32, b: u32) -> (r: u32)
    ensures
        r == sum(a, b),
{
    ((a as u64 + b as u64) % 0x1_0000_0000) as u32
}

fn turn(x: u32, n: u32) -> (r: u32)
    requires
        0 < n < 32,
    ensures
        r == turned(x, n),
{
    (x >> n) | (x << (32 - n))
}

fn round_constants() -> (r: [u32; 64])
    ensures
        r@ == constants(),
{
    let k: [u32; 64] = [
        0x428a2f98,
        0x71374491,
        0xb5c0fbcf,
        0xe9b5dba5,
        0x3956c25b,
        0x59f111f1,
        0x923f82a4,
        0xab1c5ed5,
        0xd807aa98,
        0x12835b01,
        0x243185be,
        0x550c7dc3,
        0x72be5d74,
        0x80deb1fe,
        0x9bdc06a7,
        0xc19bf174,
        0xe49b69c1,
        0xefbe4786,
        0x0fc19dc6,
        0x240ca1cc,
        0x2de92c6f,
        0x4a7484aa,
        0x5cb0a9dc,
        0x76f988da,
        0x983e5152,
        0xa831c66d,
        0xb00327c8,
        0xbf597fc7,
        0xc6e00bf3,
        0xd5a79147,
        0x06ca6351,
        0x14292967,
        0x27b70a85,
        0x2e1b2138,
        0x4d2c6dfc,
        0x53380d13,
        0x650a7354,
        0x766a0abb,
        0x81c2c92e,
        0x92722c85,
        0xa2bfe8a1,
        0xa81a664b,
        0xc24b8b70,
        0xc76c51a3,
        0xd192e819,
        0xd6990624,
        0xf40e3585,
        0x106aa070,
        0x19a4c116,
        0x1e376c08,
        0x2748774c,
        0x34b0bcb5,
        0x391c0cb3,
        0x4ed8aa4a,
        0x5b9cca4f,
        0x682e6ff3,
        0x748f82ee,
        0x78a5636f,
        0x84c87814,
        0x8cc70208,
        0x90befffa,
        0xa4506ceb,
        0xbef9a3f7,
        0xc67178f2,
    ];
    assert(k@ =~= constants());
    k
}

fn make_schedule(m: &Vec<u8>, at: usize) -> (r: Vec<u32>)
    requires
        at + 64 <= m@.len(),
    ensures
        r@ == schedule(m@, at as int, 64),
        r@.len() == 64,
{
    let ghost n = m.len();
    let mut w: Vec<u32> = Vec::new();
    let mut t: usize = 0;
    assert(w@ =~= schedule(m@, at as int, 0));
    while t < 64
        invariant
            at + 64 <= m@.len() == n,
            t <= 64,
            w@.len() == t,
            w@ == schedule(m@, at as int, t as nat),
        decreases 64 - t,
    {
        if t < 16 {
            let x: u32 = bytes::get_be32(m.as_slice(), at + 4 * t);
            w.push(x);
        } else {
            let x: u32 = w[t - 15];
            let y: u32 = w[t - 2];
            let s0: u32 = turn(x, 7) ^ turn(x, 18) ^ (x >> 3);
            let s1: u32 = turn(y, 17) ^ turn(y, 19) ^ (y >> 10);
            let z: u32 = add32(add32(w[t - 16], s0), add32(w[t - 7], s1));
            w.push(z);
        }
        t += 1;
    }
    w
}

fn take_block(s: &Vec<u32>, m: &Vec<u8>, at: usize, k: &[u32; 64]) -> (r: Vec<u32>)
    requires
        s@.len() == 8,
        at + 64 <= m@.len(),
        k@ == constants(),
    ensures
        r@ == block(s@, m@, at as int),
        r@.len() == 8,
{
    let w = make_schedule(m, at);
    let (mut a, mut b, mut c, mut d) = (s[0], s[1], s[2], s[3]);
    let (mut e, mut f, mut g, mut h) = (s[4], s[5], s[6], s[7]);
    let mut t: usize = 0;
    assert(seq![a, b, c, d, e, f, g, h] =~= s@);
    while t < 64
        invariant
            t <= 64,
            w@.len() == 64,
            k@ == constants(),
            seq![a, b, c, d, e, f, g, h] == rounds(s@, w@, t as nat),
        decreases 64 - t,
    {
        let ghost now = seq![a, b, c, d, e, f, g, h];
        assert(now[0] == a && now[1] == b && now[2] == c && now[3] == d);
        assert(now[4] == e && now[5] == f && now[6] == g && now[7] == h);
        let s1: u32 = turn(e, 6) ^ turn(e, 11) ^ turn(e, 25);
        let ch: u32 = (e & f) ^ (!e & g);
        let t1: u32 = add32(add32(add32(h, s1), ch), add32(k[t], w[t]));
        let s0: u32 = turn(a, 2) ^ turn(a, 13) ^ turn(a, 22);
        let maj: u32 = (a & b) ^ (a & c) ^ (b & c);
        let t2: u32 = add32(s0, maj);
        h = g;
        g = f;
        f = e;
        e = add32(d, t1);
        d = c;
        c = b;
        b = a;
        a = add32(t1, t2);
        assert(seq![a, b, c, d, e, f, g, h] =~= round(now, k@[t as int], w@[t as int]));
        t += 1;
    }
    let ghost last = seq![a, b, c, d, e, f, g, h];
    let mut r: Vec<u32> = Vec::new();
    r.push(add32(s[0], a));
    r.push(add32(s[1], b));
    r.push(add32(s[2], c));
    r.push(add32(s[3], d));
    r.push(add32(s[4], e));
    r.push(add32(s[5], f));
    r.push(add32(s[6], g));
    r.push(add32(s[7], h));
    assert(r@ =~= Seq::new(8, |i: int| sum(s@[i], last[i])));
    r
}

fn filled_up(m: &Vec<u8>) -> (r: Vec<u8>)
    ensures
        r@ == padded(m@),
        r@.len() % 64 == 0,
{
    let n: usize = m.len();
    let mut p: Vec<u8> = Vec::new();
    bytes::push_all(&mut p, m.as_slice());
    p.push(0x80);
    let zeros: usize = (119 - n % 64) % 64;
    let mut i: usize = 0;
    let ghost lead = p@;
    assert(lead + bytes::zeros(0) =~= lead);
    while i < zeros
        invariant
            i <= zeros,
            p@ == lead + bytes::zeros(i as nat),
        decreases zeros - i,
    {
        p.push(0);
        assert(p@ =~= lead + bytes::zeros((i + 1) as nat));
        i += 1;
    }
    let ghost filled = p@;
    assert(filled =~= m@ + seq![0x80u8] + bytes::zeros(fill(m@.len() as int) as nat));
    let bits: u64 = ((n as u128 * 8) % 0x1_0000_0000_0000_0000) as u64;
    bytes::push_be32(&mut p, (bits / 0x1_0000_0000) as u32);
    bytes::push_be32(&mut p, (bits % 0x1_0000_0000) as u32);
    proof {
        fill_is_whole(m@.len() as int);
    }
    p
}

proof fn fill_is_whole(n: int)
    requires
        n >= 0,
    ensures
        fill(n) >= 0,
        (n + 1 + fill(n) + 8) % 64 == 0,
{
    let q = n / 64;
    let r = n % 64;
    assert(n == 64 * q + r);
    if r <= 55 {
        assert(fill(n) == 55 - r);
        assert((64 * q + 64) % 64 == 0);
    } else {
        assert(fill(n) == 119 - r);
        assert((64 * q + 128) % 64 == 0);
    }
}

/// Bytes being hashed.
pub struct Sha256 {
    message: Vec<u8>,
}

impl View for Sha256 {
    type V = Seq<u8>;

    closed spec fn view(&self) -> Seq<u8> {
        self.message@
    }
}

impl Sha256 {
    pub fn new() -> (r: Sha256)
        ensures
            r@ == Seq::<u8>::empty(),
    {
        Sha256 { message: Vec::new() }
    }

    pub fn update(&mut self, data: &[u8])
        ensures
            final(self)@ == old(self)@ + data@,
    {
        bytes::push_all(&mut self.message, data);
    }

    pub fn finish(&self) -> (r: Vec<u8>)
        ensures
            r@ == sha256(self@),
            r@.len() == 32,
    {
        let k = round_constants();
        let m = filled_up(&self.message);
        let mut s: Vec<u32> = Vec::new();
        s.push(0x6a09e667);
        s.push(0xbb67ae85);
        s.push(0x3c6ef372);
        s.push(0xa54ff53a);
        s.push(0x510e527f);
        s.push(0x9b05688c);
        s.push(0x1f83d9ab);
        s.push(0x5be0cd19);
        assert(s@ =~= first_state());
        let n: usize = m.len() / 64;
        let mut i: usize = 0;
        while i < n
            invariant
                n == m@.len() / 64,
                k@ == constants(),
                i <= n,
                s@.len() == 8,
                s@ == blocks(m@, i as nat),
            decreases n - i,
        {
            let ghost len = m.len();
            assert(64 * n <= len);
            s = take_block(&s, &m, 64 * i, &k);
            i += 1;
        }
        let mut out: Vec<u8> = Vec::new();
        let mut i: usize = 0;
        assert(out@ =~= state_bytes(s@, 0));
        while i < 8
            invariant
                i <= 8,
                s@.len() == 8,
                out@.len() == 4 * i,
                out@ == state_bytes(s@, i as nat),
            decreases 8 - i,
        {
            bytes::push_be32(&mut out, s[i]);
            i += 1;
        }
        out
    }
}

/// Bytes in hexadecimal.
pub fn hex(b: &[u8]) -> (r: String)
    ensures
        r@ == hex_of(b@, b@.len()),
{
    let mut r = String::new();
    let mut i: usize = 0;
    assert(r@ =~= hex_of(b@, 0));
    while i < b.len()
        invariant
            i <= b@.len(),
            r@ == hex_of(b@, i as nat),
        decreases b@.len() - i,
    {
        let ghost before = r@;
        r.push(text::digit_text((b[i] / 16) as u128));
        r.push(text::digit_text((b[i] % 16) as u128));
        assert(r@ =~= before + hex_byte(b@[i as int]));
        i += 1;
    }
    r
}

} // verus!
