use vstd::prelude::*;
use vstd::arithmetic::div_mod::{lemma_div_is_ordered, lemma_div_plus_one, lemma_multiply_divide_le};
use vstd::arithmetic::mul::lemma_mul_inequality;

use rand::Rng;
use rand_pcg::Lcg128Xsl64;
use rand_seeder::Seeder;

use crate::cli::{config_error, BitDistribution, EncodeOpts, StegMethod};
use crate::image::CoverImage;
use crate::StegError;

verus! {

// ----- bit level model -----

/// The terminator "$T3G" that closes every encoded message.
pub open spec fn end_bytes() -> Seq<u8> {
    seq![0x24u8, 0x54u8, 0x33u8, 0x47u8]
}

/// Bit `i` (0 = most significant) of byte `b`, as 0 or 1.
pub open spec fn bit_of(b: u8, i: int) -> u8 {
    (b >> ((7 - i) as u8)) & 1u8
}

/// The bytes expanded into bits, eight per byte, most significant first.
pub open spec fn bits_of(bytes: Seq<u8>) -> Seq<u8> {
    Seq::new(8 * bytes.len(), |j: int| bit_of(bytes[j / 8], j % 8))
}

/// The terminator's bits.
pub open spec fn end_bits() -> Seq<u8> {
    bits_of(end_bytes())
}

/// The bits that encoding a message writes: its own, then the terminator's if it is used.
pub open spec fn stream_bits(msg: Seq<u8>, end_sequence: bool) -> Seq<u8> {
    if end_sequence {
        bits_of(msg + end_bytes())
    } else {
        bits_of(msg)
    }
}

/// The value of a bit sequence read as a binary number, most significant bit first.
pub open spec fn bits_value(bits: Seq<u8>) -> nat
    decreases bits.len(),
{
    if bits.len() == 0 {
        0
    } else {
        2 * bits_value(bits.drop_last()) + (bits.last() as nat)
    }
}

/// The bits regrouped into bytes, eight at a time; a shorter last group gives the value
/// of its own bits.
pub open spec fn bytes_of_bits(bits: Seq<u8>) -> Seq<u8> {
    Seq::new(
        ((bits.len() + 7) / 8) as nat,
        |k: int|
            bits_value(
                bits.subrange(8 * k, if 8 * k + 8 <= bits.len() { 8 * k + 8 } else { bits.len() as int }),
            ) as u8,
    )
}

/// The mask of significant bit `n` (1 to 4): 0b0001, 0b0010, 0b0100 or 0b1000.
pub open spec fn mask_of(n: u8) -> u8 {
    if n == 1 {
        1
    } else if n == 2 {
        2
    } else if n == 3 {
        4
    } else {
        8
    }
}

/// A channel value after writing `bit` under `mask`: cleared for 0, set for 1.
pub open spec fn put_bit(c: u8, mask: u8, bit: u8) -> u8 {
    if bit == 0 {
        c & !mask
    } else if bit == 1 {
        c | mask
    } else {
        c
    }
}

/// The bit that a channel value carries under `mask`.
pub open spec fn read_bit(c: u8, mask: u8) -> u8 {
    if c & mask != 0 {
        1
    } else {
        0
    }
}

/// `bytes` ends with `end`.
pub open spec fn ends_with(bytes: Seq<u8>, end: Seq<u8>) -> bool {
    bytes.len() >= end.len() && bytes.subrange(bytes.len() - end.len(), bytes.len() as int) == end
}

// ----- bit strategies -----

/// A way to hide one bit in a channel value and read it back.
///
/// `mask_at(k)` is the single-bit mask that the `k`-th next call works on; every call
/// consumes one mask.
pub trait BitEncoding {
    spec fn wf(&self) -> bool;

    spec fn mask_at(&self, k: nat) -> u8;

    /// Every mask selects one of the four least significant bits.
    proof fn lemma_mask_single_bit(&self, k: nat)
        ensures
            self.mask_at(k) == 1 || self.mask_at(k) == 2 || self.mask_at(k) == 4 || self.mask_at(k) == 8,
    ;

    /// Encodes a bit (0 or 1) into a channel value.
    fn encode(&mut self, bit: &u8, color_val: &mut u8)
        requires
            old(self).wf(),
        ensures
            final(self).wf(),
            *final(color_val) == put_bit(*old(color_val), old(self).mask_at(0), *bit),
            forall|k: nat| #[trigger] final(self).mask_at(k) == old(self).mask_at(k + 1),
    ;

    /// Decodes a bit from a channel value.
    fn decode(&mut self, color_val: &u8) -> (r: u8)
        requires
            old(self).wf(),
        ensures
            final(self).wf(),
            r == read_bit(*color_val, old(self).mask_at(0)),
            forall|k: nat| #[trigger] final(self).mask_at(k) == old(self).mask_at(k + 1),
    ;
}

fn put_bit_exec(c: u8, mask: u8, bit: u8) -> (r: u8)
    ensures
        r == put_bit(c, mask, bit),
{
    if bit == 0 {
        c & !mask
    } else if bit == 1 {
        c | mask
    } else {
        c
    }
}

fn read_bit_exec(c: u8, mask: u8) -> (r: u8)
    ensures
        r == read_bit(c, mask),
{
    if c & mask != 0 {
        1
    } else {
        0
    }
}

/// Least significant bit encoding: every bit goes into bit 0 of a channel value.
#[derive(Debug, Clone, Copy, PartialEq, Eq)]
pub struct Lsb;

impl Lsb {
    /// Creates a new `Lsb`.
    pub fn new() -> (r: Lsb)
        ensures
            r.wf(),
    {
        Lsb
    }
}

impl Default for Lsb {
    fn default() -> (r: Lsb)
        ensures
            r.wf(),
    {
        Lsb::new()
    }
}

impl BitEncoding for Lsb {
    open spec fn wf(&self) -> bool {
        true
    }

    open spec fn mask_at(&self, k: nat) -> u8 {
        1
    }

    proof fn lemma_mask_single_bit(&self, k: nat) {
    }

    fn encode(&mut self, bit: &u8, color_val: &mut u8) {
        *color_val = put_bit_exec(*color_val, 1, *bit);
    }

    fn decode(&mut self, color_val: &u8) -> (r: u8) {
        read_bit_exec(*color_val, 1)
    }
}


#[verifier::external_type_specification]
#[verifier::external_body]
pub struct ExLcg128Xsl64(Lcg128Xsl64);

/// The `index`-th number (counting from 0) that `gen_range(1..=max)` draws from the PCG-64
/// generator seeded with the string `seed`.
pub uninterp spec fn seeded_draw(seed: Seq<char>, max: u8, index: nat) -> u8;

/// Random significant bit encoding: every bit goes into one of the `max` least
/// significant bits of a channel value, chosen by a generator seeded from a string.
pub struct Rsb {
    /// The highest significant bit that may carry a bit (1 to 4).
    max: u8,
    rng: Lcg128Xsl64,
    /// The seed the generator was built from.
    seed: Ghost<Seq<char>>,
    /// How many numbers have been drawn from the generator.
    drawn: Ghost<nat>,
}

impl Rsb {
    pub closed spec fn max_bit(&self) -> u8 {
        self.max
    }

    pub closed spec fn seed_text(&self) -> Seq<char> {
        self.seed@
    }

    pub closed spec fn draws(&self) -> nat {
        self.drawn@
    }

    /// A generator for `max` significant bits seeded from `seed`; equal arguments give
    /// equal mask sequences.
    pub fn new(max: u8, seed: &str) -> (r: Rsb)
        requires
            1 <= max <= 4,
        ensures
            r.wf(),
            r.max_bit() == max,
            r.seed_text() == seed@,
            r.draws() == 0,
    {
        Rsb::seeded(max, seed)
    }

    /// Relies on rand_seeder's `Seeder::from(seed).make_rng()`: a PCG-64 generator whose
    /// state is derived from the string alone, with nothing drawn from it yet.
    #[verifier::external_body]
    fn seeded(max: u8, seed: &str) -> (r: Rsb)
        ensures
            r.max == max,
            r.seed@ == seed@,
            r.drawn@ == 0,
    {
        Rsb { max, rng: Seeder::from(seed).make_rng(), seed: Ghost(seed@), drawn: Ghost(0) }
    }

    /// Relies on rand's `Rng::gen_range(1..=max)`, which panics only on an empty range: on
    /// a generator seeded from `seed` and drawn from `drawn` times with the same range, the
    /// result is the `drawn`-th draw of that seed and lies in the range.
    #[verifier::external_body]
    fn next_index(&mut self) -> (r: u8)
        requires
            1 <= old(self).max,
        ensures
            r == seeded_draw(old(self).seed@, old(self).max, old(self).drawn@),
            1 <= r <= old(self).max,
            final(self).max == old(self).max,
            final(self).seed == old(self).seed,
            final(self).drawn@ == old(self).drawn@ + 1,
    {
        self.rng.gen_range(1..=self.max)
    }

    /// The mask for the next bit; advances the generator once.
    pub fn next_mask(&mut self) -> (r: u8)
        requires
            old(self).wf(),
        ensures
            final(self).wf(),
            r == old(self).mask_at(0),
            forall|k: nat| #[trigger] final(self).mask_at(k) == old(self).mask_at(k + 1),
            final(self).max_bit() == old(self).max_bit(),
            final(self).seed_text() == old(self).seed_text(),
            final(self).draws() == old(self).draws() + 1,
    {
        let n = self.next_index();
        proof {
            assert forall|k: nat| #[trigger] self.mask_at(k) == old(self).mask_at(k + 1) by {
                assert(self.drawn@ + k == old(self).drawn@ + (k + 1));
            }
        }
        if n == 1 {
            1
        } else if n == 2 {
            2
        } else if n == 3 {
            4
        } else {
            8
        }
    }
}

impl BitEncoding for Rsb {
    closed spec fn wf(&self) -> bool {
        1 <= self.max <= 4
    }

    closed spec fn mask_at(&self, k: nat) -> u8 {
        mask_of(clip_draw(seeded_draw(self.seed@, self.max, self.drawn@ + k), self.max))
    }

    proof fn lemma_mask_single_bit(&self, k: nat) {
    }

    fn encode(&mut self, bit: &u8, color_val: &mut u8) {
        let mask = self.next_mask();
        *color_val = put_bit_exec(*color_val, mask, *bit);
    }

    fn decode(&mut self, color_val: &u8) -> (r: u8) {
        let mask = self.next_mask();
        read_bit_exec(*color_val, mask)
    }
}

/// A drawn number kept within `1..=max`; draws already lie there, so this changes none.
pub open spec fn clip_draw(d: u8, max: u8) -> u8 {
    if d < 1 {
        1
    } else if d > max {
        max
    } else {
        d
    }
}

/// Random significant bit encoding writes only below its highest bit: a channel value
/// keeps every bit from position `max` up.
pub proof fn lemma_rsb_keeps_high_bits(r: Rsb, k: nat, c: u8, bit: u8)
    requires
        r.wf(),
    ensures
        put_bit(c, r.mask_at(k), bit) >> r.max_bit() == c >> r.max_bit(),
{
    let m = r.mask_at(k);
    let mx = r.max;
    assert(m == 1 || (m == 2 && mx >= 2) || (m == 4 && mx >= 3) || (m == 8 && mx >= 4));
    assert(((c | m) >> mx) == (c >> mx) && ((c & !m) >> mx) == (c >> mx)) by (bit_vector)
        requires
            1 <= mx <= 4,
            m == 1 || (m == 2 && mx >= 2) || (m == 4 && mx >= 3) || (m == 8 && mx >= 4),
    ;
}

/// With highest bit 1, random significant bit encoding always uses the least
/// significant bit, as `Lsb` does.
pub proof fn lemma_rsb_one_is_lsb(r: Rsb, l: Lsb)
    requires
        r.wf(),
        r.max_bit() == 1,
    ensures
        forall|k: nat| #[trigger] r.mask_at(k) == l.mask_at(k),
{
}

/// An image that random significant bit encoding with highest bit 1 made from a message
/// that fits decodes with `Lsb` to the message, unless the terminator occurs in the stream
/// before its end.
pub proof fn lemma_rsb_one_decodes_with_lsb(
    enc: Rsb,
    dec: Lsb,
    before: CoverImage,
    msg: Seq<u8>,
    after: CoverImage,
)
    requires
        before.wf(),
        enc.wf(),
        enc.max_bit() == 1,
        fits(before.pixel_count(), msg.len(), true),
        no_early_end(msg),
        encodes(enc, before, BitDistribution::Sequential, stream_bits(msg, true), after),
    ensures
        decoded(dec, after, BitDistribution::Sequential, true) == Some(msg),
{
    lemma_rsb_one_is_lsb(enc, dec);
    lemma_round_trip(enc, dec, BitDistribution::Sequential, BitDistribution::Sequential, before, msg, after);
}

/// Seed determinism: two generators with the same seed, the same highest bit and the same
/// number of draws give the same masks from then on; in particular two fresh ones built
/// from equal arguments.
pub proof fn lemma_seed_determinism(a: Rsb, b: Rsb)
    requires
        a.seed_text() == b.seed_text(),
        a.max_bit() == b.max_bit(),
        a.draws() == b.draws(),
    ensures
        forall|k: nat| #[trigger] a.mask_at(k) == b.mask_at(k),
{
}

/// The bit strategy chosen by the options.
pub enum BitMethod {
    Lsb(Lsb),
    Rsb(Rsb),
}

impl BitEncoding for BitMethod {
    open spec fn wf(&self) -> bool {
        match self {
            BitMethod::Lsb(l) => l.wf(),
            BitMethod::Rsb(r) => r.wf(),
        }
    }

    open spec fn mask_at(&self, k: nat) -> u8 {
        match self {
            BitMethod::Lsb(l) => l.mask_at(k),
            BitMethod::Rsb(r) => r.mask_at(k),
        }
    }

    proof fn lemma_mask_single_bit(&self, k: nat) {
        match self {
            BitMethod::Lsb(l) => l.lemma_mask_single_bit(k),
            BitMethod::Rsb(r) => r.lemma_mask_single_bit(k),
        }
    }

    fn encode(&mut self, bit: &u8, color_val: &mut u8) {
        match self {
            BitMethod::Lsb(l) => l.encode(bit, color_val),
            BitMethod::Rsb(r) => r.encode(bit, color_val),
        }
    }

    fn decode(&mut self, color_val: &u8) -> (r: u8) {
        match self {
            BitMethod::Lsb(l) => l.decode(color_val),
            BitMethod::Rsb(r) => r.decode(color_val),
        }
    }
}

// ----- where the bits go -----

/// The pixel of group `g` when `groups` groups are spread evenly, first and last pixel
/// included, over `n` pixels: `floor(g * (n - 1) / (groups - 1))`.
pub open spec fn linear_pixel(n: nat, groups: nat, g: nat) -> nat {
    if groups <= 1 || n == 0 {
        0
    } else {
        (g * ((n - 1) as nat)) / ((groups - 1) as nat)
    }
}

/// Channel index of bit `j` under the linear distribution: its group's pixel, then
/// R, G, B in turn.
pub open spec fn linear_position(n: nat, groups: nat, j: nat) -> nat {
    3 * linear_pixel(n, groups, j / 3) + j % 3
}

/// Number of three-bit groups that `bits` bits need.
pub open spec fn group_count(bits: nat) -> nat {
    (bits + 2) / 3
}

/// Channel index that bit `j` of an `l`-bit stream is written to, in an image of `n` pixels.
pub open spec fn encode_position(dist: BitDistribution, n: nat, l: nat, j: nat) -> nat {
    match dist {
        BitDistribution::Sequential => j,
        BitDistribution::Linear { .. } => linear_position(n, group_count(l), j),
    }
}

/// Number of channel values that decoding visits, at most, in an image of `n` pixels.
pub open spec fn decode_count(dist: BitDistribution, n: nat) -> nat {
    match dist {
        BitDistribution::Sequential => 3 * n,
        BitDistribution::Linear { length } => if n == 0 {
            0
        } else {
            3 * (length as nat)
        },
    }
}

/// Channel index that decoding reads as its `j`-th value.
pub open spec fn decode_position(dist: BitDistribution, n: nat, j: nat) -> nat {
    match dist {
        BitDistribution::Sequential => j,
        BitDistribution::Linear { length } => linear_position(n, length as nat, j),
    }
}

/// Number of terminator bits: 32 when the terminator is used, else 0.
pub open spec fn end_len(end_sequence: bool) -> nat {
    if end_sequence {
        32
    } else {
        0
    }
}

/// Capacity in bytes of an image of `n` pixels: `floor((3n - terminator bits) / 8)`,
/// or 0 when the terminator alone does not fit.
pub open spec fn capacity_of(n: nat, end_sequence: bool) -> nat {
    if 3 * n >= end_len(end_sequence) {
        ((3 * n - end_len(end_sequence)) as nat) / 8
    } else {
        0
    }
}

/// A message of `len` bytes fits in an image of `n` pixels.
pub open spec fn fits(n: nat, len: nat, end_sequence: bool) -> bool {
    3 * n >= end_len(end_sequence) && len <= capacity_of(n, end_sequence)
}

/// `after` is `before` with the `bits` written by the masks of `e`, at the positions of
/// `dist`, and every other channel value unchanged.
pub open spec fn encodes<E: BitEncoding>(
    e: E,
    before: CoverImage,
    dist: BitDistribution,
    bits: Seq<u8>,
    after: CoverImage,
) -> bool {
    let n = before.pixel_count();
    let l = bits.len();
    &&& after.width == before.width
    &&& after.height == before.height
    &&& after.data@.len() == before.data@.len()
    &&& forall|j: int|
        0 <= j < l ==> after.data@[#[trigger] encode_position(dist, n, l, j as nat) as int]
            == put_bit(
            before.data@[encode_position(dist, n, l, j as nat) as int],
            e.mask_at(j as nat),
            bits[j],
        )
    &&& forall|i: int|
        0 <= i < before.data@.len() && !(exists|j: int|
            0 <= j < l && #[trigger] encode_position(dist, n, l, j as nat) == i) ==> after.data@[i]
            == before.data@[i]
}

/// The bits that decoding reads with the masks of `e`, in the order of `dist`.
pub open spec fn read_bits<E: BitEncoding>(e: E, img: CoverImage, dist: BitDistribution) -> Seq<u8> {
    let n = img.pixel_count();
    Seq::new(
        decode_count(dist, n),
        |j: int| read_bit(img.data@[decode_position(dist, n, j as nat) as int], e.mask_at(j as nat)),
    )
}

/// Number of bits read before decoding stops: the first `k` from `from` on at which the
/// bits read so far end with the terminator, or all of them.
pub open spec fn scan_len(rb: Seq<u8>, from: nat) -> nat
    decreases rb.len() - from,
{
    if from >= rb.len() {
        rb.len()
    } else if ends_with(rb.take(from as int), end_bits()) {
        from
    } else {
        scan_len(rb, from + 1)
    }
}

/// The message that decoding `img` finds, or `None` when the terminator is required and
/// absent.
pub open spec fn decoded<E: BitEncoding>(
    e: E,
    img: CoverImage,
    dist: BitDistribution,
    end_sequence: bool,
) -> Option<Seq<u8>> {
    let rb = read_bits(e, img, dist);
    let k = scan_len(rb, 0);
    if end_sequence {
        if ends_with(rb.take(k as int), end_bits()) {
            Some(bytes_of_bits(rb.take(k - 32)))
        } else {
            None
        }
    } else {
        Some(bytes_of_bits(rb.take(k as int)))
    }
}

// ----- arithmetic of the positions -----

proof fn lemma_linear_pixel_bound(n: nat, groups: nat, g: nat)
    requires
        n >= 1,
        g < groups,
    ensures
        linear_pixel(n, groups, g) <= n - 1,
{
    if groups > 1 {
        let q = (n - 1) as nat;
        let d = (groups - 1) as nat;
        lemma_mul_inequality(g as int, d as int, q as int);
        assert(d * q == q * d) by (nonlinear_arith);
        lemma_multiply_divide_le((g * q) as int, d as int, q as int);
    }
}

proof fn lemma_linear_pixel_strict(n: nat, groups: nat, g1: nat, g2: nat)
    requires
        groups <= n,
        g1 < g2 < groups,
    ensures
        linear_pixel(n, groups, g1) < linear_pixel(n, groups, g2),
{
    let q = (n - 1) as nat;
    let d = (groups - 1) as nat;
    assert(g2 * q >= (g1 + 1) * q) by (nonlinear_arith)
        requires
            g2 >= g1 + 1,
    ;
    assert((g1 + 1) * q == g1 * q + q) by (nonlinear_arith);
    lemma_div_is_ordered((d + g1 * q) as int, (g2 * q) as int, d as int);
    lemma_div_plus_one((g1 * q) as int, d as int);
}

/// Positions of an `l`-bit stream that fits in `n` pixels are in range and distinct.
proof fn lemma_encode_positions(dist: BitDistribution, n: nat, l: nat)
    requires
        l <= 3 * n,
    ensures
        forall|j: nat| j < l ==> #[trigger] encode_position(dist, n, l, j) < 3 * n,
        forall|j1: nat, j2: nat|
            j1 < l && j2 < l && j1 != j2 ==> #[trigger] encode_position(dist, n, l, j1)
                != #[trigger] encode_position(dist, n, l, j2),
{
    let groups = group_count(l);
    assert forall|j: nat| j < l implies #[trigger] encode_position(dist, n, l, j) < 3 * n by {
        if dist is Linear {
            lemma_linear_pixel_bound(n, groups, j / 3);
        }
    }
    assert forall|j1: nat, j2: nat|
        j1 < l && j2 < l && j1 != j2 implies #[trigger] encode_position(dist, n, l, j1)
            != #[trigger] encode_position(dist, n, l, j2) by {
        if dist is Linear {
            let g1 = j1 / 3;
            let g2 = j2 / 3;
            if g1 < g2 {
                lemma_linear_pixel_strict(n, groups, g1, g2);
            } else if g2 < g1 {
                lemma_linear_pixel_strict(n, groups, g2, g1);
            }
        }
    }
}

fn linear_pixel_exec(n: usize, groups: usize, g: usize) -> (r: usize)
    requires
        n >= 1,
        g < groups,
    ensures
        r == linear_pixel(n as nat, groups as nat, g as nat),
        r < n,
{
    proof {
        lemma_linear_pixel_bound(n as nat, groups as nat, g as nat);
    }
    if groups <= 1 {
        0
    } else {
        let a: u128 = g as u128;
        let b: u128 = (n - 1) as u128;
        assert(a * b <= 0xffff_ffff_ffff_ffffu128 * 0xffff_ffff_ffff_ffffu128) by (nonlinear_arith)
            requires
                a <= 0xffff_ffff_ffff_ffffu128,
                b <= 0xffff_ffff_ffff_ffffu128,
        ;
        let q: u128 = a * b / ((groups - 1) as u128);
        q as usize
    }
}

/// Point `i` of `n` points spread evenly from `a` to `b`, both included, rounded down.
pub open spec fn linspace_at(a: nat, b: nat, n: nat, i: nat) -> nat {
    if n <= 1 {
        a
    } else {
        a + (i * ((b - a) as nat)) / ((n - 1) as nat)
    }
}

/// `n` integers spread evenly from `a` to `b`, both included, each rounded down.
pub fn get_linspace(a: usize, b: usize, n: usize) -> (r: Vec<usize>)
    requires
        a <= b,
    ensures
        r@.len() == n,
        forall|i: int| 0 <= i < n ==> r@[i] == linspace_at(a as nat, b as nat, n as nat, i as nat),
{
    let mut r: Vec<usize> = Vec::new();
    let mut i: usize = 0;
    while i < n
        invariant
            a <= b,
            i <= n,
            r@.len() == i,
            forall|k: int| 0 <= k < i ==> r@[k] == linspace_at(a as nat, b as nat, n as nat, k as nat),
        decreases n - i,
    {
        let p: usize = if n <= 1 {
            0
        } else {
            proof {
                lemma_linear_pixel_bound((b - a + 1) as nat, n as nat, i as nat);
            }
            let x: u128 = i as u128;
            let y: u128 = (b - a) as u128;
            assert(x * y <= 0xffff_ffff_ffff_ffffu128 * 0xffff_ffff_ffff_ffffu128) by (nonlinear_arith)
                requires
                    x <= 0xffff_ffff_ffff_ffffu128,
                    y <= 0xffff_ffff_ffff_ffffu128,
            ;
            (x * y / ((n - 1) as u128)) as usize
        };
        r.push(a + p);
        i = i + 1;
    }
    r
}

/// Expands bytes into bits, eight per byte, most significant first.
fn expand_bits(bytes: &Vec<u8>) -> (r: Vec<u8>)
    requires
        8 * bytes@.len() <= usize::MAX,
    ensures
        r@ == bits_of(bytes@),
{
    let mut r: Vec<u8> = Vec::new();
    let mut i: usize = 0;
    while i < bytes.len()
        invariant
            8 * bytes@.len() <= usize::MAX,
            i <= bytes@.len(),
            r@.len() == 8 * i,
            forall|j: int| 0 <= j < 8 * i ==> r@[j] == bit_of(bytes@[j / 8], j % 8),
        decreases bytes@.len() - i,
    {
        let b = bytes[i];
        let mut t: usize = 0;
        while t < 8
            invariant
                i < bytes@.len(),
                b == bytes@[i as int],
                t <= 8,
                r@.len() == 8 * i + t,
                forall|j: int| 0 <= j < 8 * i + t ==> r@[j] == bit_of(bytes@[j / 8], j % 8),
            decreases 8 - t,
        {
            r.push((b >> ((7 - t) as u8)) & 1u8);
            proof {
                let j = 8 * i + t;
                assert(j / 8 == i as int && j % 8 == t as int);
            }
            t = t + 1;
        }
        i = i + 1;
    }
    assert(r@ =~= bits_of(bytes@));
    r
}

/// Reads bits as bytes, eight at a time, most significant first.
fn collect_bytes(bits: &Vec<u8>) -> (r: Vec<u8>)
    requires
        forall|i: int| 0 <= i < bits@.len() ==> bits@[i] <= 1,
    ensures
        r@ == bytes_of_bits(bits@),
{
    let n = bits.len();
    let mut r: Vec<u8> = Vec::new();
    let mut k: usize = 0;
    while k < n
        invariant
            n == bits@.len(),
            forall|i: int| 0 <= i < bits@.len() ==> bits@[i] <= 1,
            k <= n,
            k < n ==> k % 8 == 0,
            r@.len() == (k + 7) / 8,
            k < n ==> r@.len() * 8 == k,
            forall|c: int| 0 <= c < r@.len() ==> r@[c] == bytes_of_bits(bits@)[c],
        decreases n - k,
    {
        let stop: usize = if n - k >= 8 { k + 8 } else { n };
        let ghost chunk = bits@.subrange(k as int, stop as int);
        let mut v: u32 = 0;
        let mut t: usize = k;
        proof {
            vstd::arithmetic::power2::lemma2_to64();
        }
        while t < stop
            invariant
                n == bits@.len(),
                forall|i: int| 0 <= i < bits@.len() ==> bits@[i] <= 1,
                k <= t <= stop,
                stop <= n,
                stop - k <= 8,
                chunk == bits@.subrange(k as int, stop as int),
                v == bits_value(chunk.take(t - k)),
                v < vstd::arithmetic::power2::pow2((t - k) as nat),
            decreases stop - t,
        {
            proof {
                assert(chunk.take(t - k + 1).drop_last() =~= chunk.take(t - k));
                vstd::arithmetic::power2::lemma_pow2_unfold((t - k + 1) as nat);
                vstd::arithmetic::power2::lemma2_to64();
            }
            v = 2 * v + bits[t] as u32;
            t = t + 1;
        }
        proof {
            assert(chunk.take(stop - k) =~= chunk);
            vstd::arithmetic::power2::lemma2_to64();
        }
        let ghost before = r@;
        r.push(v as u8);
        proof {
            let c = (k / 8) as int;
            assert(8 * c == k);
            assert forall|c2: int| 0 <= c2 < r@.len() implies r@[c2] == bytes_of_bits(bits@)[c2] by {
                if c2 < before.len() {
                } else {
                    assert(c2 == c);
                }
            }
        }
        k = stop;
    }
    assert(r@ =~= bytes_of_bits(bits@));
    r
}


/// Determines whether the stream `bytes` ends with the sequence `end`.
pub fn has_end(bytes: &[u8], end: &[u8]) -> (r: bool)
    ensures
        r == ends_with(bytes@, end@),
{
    let n = bytes.len();
    let m = end.len();
    if n < m {
        return false;
    }
    let off = n - m;
    let mut i: usize = 0;
    while i < m
        invariant
            n == bytes@.len(),
            m == end@.len(),
            off == n - m,
            i <= m,
            forall|k: int| 0 <= k < i ==> bytes@[off + k] == end@[k],
        decreases m - i,
    {
        if bytes[off + i] != end[i] {
            assert(bytes@.subrange(off as int, n as int)[i as int] != end@[i as int]);
            return false;
        }
        i = i + 1;
    }
    assert(bytes@.subrange(off as int, n as int) =~= end@);
    true
}

proof fn lemma_scan_stops(rb: Seq<u8>, from: nat, k: nat)
    requires
        from <= k <= rb.len(),
        forall|m: int| from <= m < k ==> !ends_with(#[trigger] rb.take(m), end_bits()),
        k == rb.len() || ends_with(rb.take(k as int), end_bits()),
    ensures
        scan_len(rb, from) == k,
    decreases k - from,
{
    if from < k {
        lemma_scan_stops(rb, from + 1, k);
    }
}

/// The terminator's bits.
fn end_marker_bits() -> (r: Vec<u8>)
    ensures
        r@ == end_bits(),
{
    let end = end_marker();
    expand_bits(&end)
}

/// A copy of `s` in a new vector.
pub fn copy_bytes(s: &[u8]) -> (r: Vec<u8>)
    ensures
        r@ == s@,
{
    let mut r: Vec<u8> = Vec::with_capacity(s.len());
    let mut i: usize = 0;
    while i < s.len()
        invariant
            i <= s@.len(),
            r@ == s@.take(i as int),
        decreases s@.len() - i,
    {
        r.push(s[i]);
        i = i + 1;
        assert(r@ =~= s@.take(i as int));
    }
    assert(s@.take(s@.len() as int) =~= s@);
    r
}

/// The terminator's bytes.
fn end_marker() -> (r: Vec<u8>)
    ensures
        r@ == end_bytes(),
{
    let r: Vec<u8> = vec![0x24u8, 0x54u8, 0x33u8, 0x47u8];
    assert(r@ =~= end_bytes());
    r
}

/// Encodes messages into images and decodes them back out.
pub trait Steganography {
    spec fn ready(&self) -> bool;

    /// The longest message, in bytes, that fits in `img`.
    spec fn capacity(&self, img: CoverImage) -> nat;

    /// A message of `len` bytes fits in `img`.
    spec fn fits_message(&self, img: CoverImage, len: nat) -> bool;

    /// `out` is `img` with `msg` encoded.
    spec fn encodes_message(&self, img: CoverImage, msg: Seq<u8>, out: CoverImage) -> bool;

    /// The message found in `img`, if any.
    spec fn message_in(&self, img: CoverImage) -> Option<Seq<u8>>;

    /// Encodes a message into a copy of an image.
    fn encode(&mut self, img: &CoverImage, msg: &[u8]) -> (r: Result<CoverImage, StegError>)
        requires
            old(self).ready(),
            img.wf(),
        ensures
            final(self).ready(),
            match r {
                Ok(out) => old(self).fits_message(*img, msg@.len()) && old(self).encodes_message(*img, msg@, out),
                Err(e) => !old(self).fits_message(*img, msg@.len()) && e == StegError::MessageTooLong {
                    length: msg@.len() as usize,
                    capacity: old(self).capacity(*img) as usize,
                },
            },
    ;

    /// Decodes a message from an image.
    fn decode(&mut self, img: &CoverImage) -> (r: Result<Vec<u8>, StegError>)
        requires
            old(self).ready(),
            img.wf(),
        ensures
            final(self).ready(),
            match old(self).message_in(*img) {
                Some(m) => r matches Ok(v) && v@ == m,
                None => r == Err::<Vec<u8>, StegError>(StegError::EncodingNotFound),
            },
    ;

    /// The longest message, in bytes, that fits in an image.
    fn max_len(&self, img: &CoverImage) -> (r: usize)
        requires
            img.wf(),
        ensures
            r == self.capacity(*img),
    ;
}

/// Hides messages in images: one bit strategy, one bit distribution, and whether a
/// terminator closes each message.
pub struct BitEncoder<E: BitEncoding> {
    pub encoder: E,
    /// Bit distribution method to use when encoding and decoding bits.
    pub bit_dist: BitDistribution,
    /// Whether the terminator is appended on encoding and required on decoding.
    pub end_sequence: bool,
}

impl<E: BitEncoding> BitEncoder<E> {
    /// A codec with the given bit strategy and distribution (sequential by default),
    /// using the terminator.
    pub fn new(encoder: E, bd: Option<BitDistribution>) -> (r: Self)
        ensures
            r.encoder == encoder,
            r.bit_dist == (match bd {
                Some(d) => d,
                None => BitDistribution::Sequential,
            }),
            r.end_sequence,
    {
        let bit_dist = match bd {
            Some(d) => d,
            None => BitDistribution::Sequential,
        };
        BitEncoder { encoder, bit_dist, end_sequence: true }
    }

    /// The longest message, in bytes, that fits in `img`.
    pub fn max_len(&self, img: &CoverImage) -> (r: usize)
        requires
            img.wf(),
        ensures
            r == capacity_of(img.pixel_count(), self.end_sequence),
    {
        let total = img.data.len();
        let e: usize = if self.end_sequence { 32 } else { 0 };
        if total >= e {
            (total - e) / 8
        } else {
            0
        }
    }

    /// Hides `msg` in a copy of `img`.
    #[verifier::rlimit(100)]
    #[verifier::spinoff_prover]
    pub fn encode(&mut self, img: &CoverImage, msg: &[u8]) -> (r: Result<CoverImage, StegError>)
        requires
            old(self).encoder.wf(),
            img.wf(),
        ensures
            final(self).encoder.wf(),
            final(self).bit_dist == old(self).bit_dist,
            final(self).end_sequence == old(self).end_sequence,
            match r {
                Ok(out) => {
                    &&& fits(img.pixel_count(), msg@.len(), old(self).end_sequence)
                    &&& out.wf()
                    &&& encodes(
                        old(self).encoder,
                        *img,
                        old(self).bit_dist,
                        stream_bits(msg@, old(self).end_sequence),
                        out,
                    )
                    &&& forall|k: nat| #[trigger] final(self).encoder.mask_at(k)
                        == old(self).encoder.mask_at(
                        k + stream_bits(msg@, old(self).end_sequence).len(),
                    )
                },
                Err(e) => {
                    &&& !fits(img.pixel_count(), msg@.len(), old(self).end_sequence)
                    &&& e == StegError::MessageTooLong {
                        length: msg@.len() as usize,
                        capacity: capacity_of(img.pixel_count(), old(self).end_sequence) as usize,
                    }
                    &&& final(self).encoder == old(self).encoder
                },
            },
    {
        let total = img.data.len();
        let cap = self.max_len(img);
        let e: usize = if self.end_sequence { 32 } else { 0 };
        if total < e || msg.len() > cap {
            return Err(StegError::MessageTooLong { length: msg.len(), capacity: cap });
        }
        let n: usize = total / 3;
        let mut full: Vec<u8> = copy_bytes(msg);
        if self.end_sequence {
            let mut end = end_marker();
            full.append(&mut end);
        }
        assert(full@ == (if self.end_sequence { msg@ + end_bytes() } else { msg@ }));
        let bits = expand_bits(&full);
        assert(bits@ == stream_bits(msg@, self.end_sequence));
        let l = bits.len();
        assert(l <= 3 * n);
        let groups: usize = (l + 2) / 3;
        proof {
            lemma_encode_positions(self.bit_dist, n as nat, l as nat);
        }
        let mut data = img.data.clone();
        let ghost e0 = self.encoder;
        let ghost dist = self.bit_dist;
        let mut j: usize = 0;
        while j < l
            invariant
                img.wf(),
                n == img.pixel_count(),
                total == img.data@.len(),
                total == 3 * n,
                l == bits@.len(),
                l <= 3 * n,
                groups == group_count(l as nat),
                j <= l,
                dist == self.bit_dist,
                self.end_sequence == old(self).end_sequence,
                bits@ == stream_bits(msg@, old(self).end_sequence),
                self.encoder.wf(),
                data@.len() == total,
                forall|k: nat| #[trigger] self.encoder.mask_at(k) == e0.mask_at(k + j as nat),
                forall|jj: nat| jj < l ==> #[trigger] encode_position(dist, n as nat, l as nat, jj) < 3 * n,
                forall|j1: nat, j2: nat|
                    j1 < l && j2 < l && j1 != j2 ==> #[trigger] encode_position(dist, n as nat, l as nat, j1)
                        != #[trigger] encode_position(dist, n as nat, l as nat, j2),
                forall|jj: int|
                    0 <= jj < j ==> data@[#[trigger] encode_position(dist, n as nat, l as nat, jj as nat) as int]
                        == put_bit(
                        img.data@[encode_position(dist, n as nat, l as nat, jj as nat) as int],
                        e0.mask_at(jj as nat),
                        bits@[jj],
                    ),
                forall|i: int|
                    0 <= i < total && !(exists|jj: int|
                        0 <= jj < j && #[trigger] encode_position(dist, n as nat, l as nat, jj as nat) == i)
                        ==> data@[i] == img.data@[i],
            decreases l - j,
        {
            let p: usize = match self.bit_dist {
                BitDistribution::Sequential => j,
                BitDistribution::Linear { .. } => {
                    let px = linear_pixel_exec(n, groups, j / 3);
                    3 * px + j % 3
                },
            };
            assert(p == encode_position(dist, n as nat, l as nat, j as nat));
            let mut c: u8 = data[p];
            assert(c == img.data@[p as int]) by {
                if exists|jj: int| 0 <= jj < j && #[trigger] encode_position(dist, n as nat, l as nat, jj as nat) == p {
                    let jj = choose|jj: int| 0 <= jj < j && #[trigger] encode_position(dist, n as nat, l as nat, jj as nat) == p;
                    assert(encode_position(dist, n as nat, l as nat, jj as nat) != encode_position(dist, n as nat, l as nat, j as nat));
                }
            }
            let ghost mask = self.encoder.mask_at(0);
            self.encoder.encode(&bits[j], &mut c);
            data.set(p, c);
            proof {
                assert(mask == e0.mask_at(j as nat)) by {
                    assert(0 + j == j);
                }
                assert forall|k: nat| #[trigger] self.encoder.mask_at(k) == e0.mask_at(k + (j + 1) as nat) by {
                    assert(k + 1 + j as nat == k + (j + 1) as nat);
                }
                assert forall|jj: int|
                    0 <= jj < j + 1 implies data@[#[trigger] encode_position(dist, n as nat, l as nat, jj as nat) as int]
                        == put_bit(
                        img.data@[encode_position(dist, n as nat, l as nat, jj as nat) as int],
                        e0.mask_at(jj as nat),
                        bits@[jj],
                    ) by {
                    if jj < j {
                        assert(encode_position(dist, n as nat, l as nat, jj as nat) != encode_position(dist, n as nat, l as nat, j as nat));
                    }
                }
                assert forall|i: int|
                    0 <= i < total && !(exists|jj: int|
                        0 <= jj < j + 1 && #[trigger] encode_position(dist, n as nat, l as nat, jj as nat) == i)
                        implies data@[i] == img.data@[i] by {
                    assert(encode_position(dist, n as nat, l as nat, j as nat) != i);
                }
            }
            j = j + 1;
        }
        let out = CoverImage { width: img.width, height: img.height, data };
        proof {
            assert forall|i: int|
                0 <= i < img.data@.len() && !(exists|jj: int|
                    0 <= jj < bits@.len() && #[trigger] encode_position(dist, n as nat, l as nat, jj as nat) == i)
                    implies out.data@[i] == img.data@[i] by {
            }
        }
        Ok(out)
    }

    /// Recovers the message hidden in `img`.
    pub fn decode(&mut self, img: &CoverImage) -> (r: Result<Vec<u8>, StegError>)
        requires
            old(self).encoder.wf(),
            img.wf(),
        ensures
            final(self).encoder.wf(),
            final(self).bit_dist == old(self).bit_dist,
            final(self).end_sequence == old(self).end_sequence,
            match decoded(old(self).encoder, *img, old(self).bit_dist, old(self).end_sequence) {
                Some(m) => r matches Ok(v) && v@ == m,
                None => r == Err::<Vec<u8>, StegError>(StegError::EncodingNotFound),
            },
            forall|k: nat| #[trigger] final(self).encoder.mask_at(k)
                == old(self).encoder.mask_at(
                k + scan_len(read_bits(old(self).encoder, *img, old(self).bit_dist), 0),
            ),
    {
        let total = img.data.len();
        let n: usize = total / 3;
        let cnt: u128 = match self.bit_dist {
            BitDistribution::Sequential => total as u128,
            BitDistribution::Linear { length } => if n == 0 {
                0
            } else {
                3 * (length as u128)
            },
        };
        let ghost e0 = self.encoder;
        let ghost dist = self.bit_dist;
        let ghost rb = read_bits(e0, *img, dist);
        assert(rb.len() == cnt);
        let end = end_marker_bits();
        let mut bits: Vec<u8> = Vec::new();
        let mut stop = has_end(bits.as_slice(), end.as_slice());
        assert(bits@ =~= rb.take(0));
        let mut j: u128 = 0;
        while j < cnt && !stop
            invariant
                img.wf(),
                n == img.pixel_count(),
                total == img.data@.len(),
                cnt == rb.len(),
                rb == read_bits(e0, *img, dist),
                end@ == end_bits(),
                j <= cnt,
                dist == self.bit_dist,
                self.end_sequence == old(self).end_sequence,
                self.encoder.wf(),
                forall|k: nat| #[trigger] self.encoder.mask_at(k) == e0.mask_at(k + j as nat),
                bits@ == rb.take(j as int),
                stop == ends_with(rb.take(j as int), end_bits()),
                forall|m: int| 0 <= m < j ==> !ends_with(#[trigger] rb.take(m), end_bits()),
            decreases cnt - j,
        {
            let p: usize = match self.bit_dist {
                BitDistribution::Sequential => j as usize,
                BitDistribution::Linear { length } => {
                    let g: usize = (j / 3) as usize;
                    let px = linear_pixel_exec(n, length, g);
                    3 * px + (j % 3) as usize
                },
            };
            assert(p == decode_position(dist, n as nat, j as nat));
            let ghost mask = self.encoder.mask_at(0);
            let v = self.encoder.decode(&img.data[p]);
            assert(mask == e0.mask_at(j as nat)) by {
                assert(0 + j as nat == j as nat);
            }
            bits.push(v);
            proof {
                assert(bits@ =~= rb.take(j + 1));
                assert forall|k: nat| #[trigger] self.encoder.mask_at(k) == e0.mask_at(k + (j + 1) as nat) by {
                    assert(k + 1 + j as nat == k + (j + 1) as nat);
                }
            }
            j = j + 1;
            stop = has_end(bits.as_slice(), end.as_slice());
        }
        proof {
            lemma_scan_stops(rb, 0, j as nat);
            assert forall|i: int| 0 <= i < bits@.len() implies bits@[i] <= 1 by {}
        }
        if self.end_sequence {
            if !stop {
                return Err(StegError::EncodingNotFound);
            }
            bits.truncate(bits.len() - end.len());
            assert(bits@ =~= rb.take(j - 32));
        }
        Ok(collect_bytes(&bits))
    }
}


// ----- laws -----

/// The terminator does not occur in the stream of `msg` before the stream's end.
pub open spec fn no_early_end(msg: Seq<u8>) -> bool {
    let stream = stream_bits(msg, true);
    forall|k: int| 0 <= k < stream.len() ==> !ends_with(#[trigger] stream.take(k), end_bits())
}

proof fn lemma_read_put(c: u8, mask: u8, bit: u8)
    requires
        mask == 1 || mask == 2 || mask == 4 || mask == 8,
        bit <= 1,
    ensures
        read_bit(put_bit(c, mask, bit), mask) == bit,
{
    assert((c | mask) & mask != 0) by (bit_vector)
        requires
            mask == 1 || mask == 2 || mask == 4 || mask == 8,
    ;
    assert((c & !mask) & mask == 0) by (bit_vector);
}

proof fn lemma_bit_of_le_1(b: u8, i: int)
    ensures
        bit_of(b, i) <= 1,
{
    let s = (7 - i) as u8;
    assert((b >> s) & 1u8 <= 1u8) by (bit_vector);
}

proof fn lemma_byte_value(b: u8)
    ensures
        bits_value(Seq::new(8, |i: int| bit_of(b, i))) == b,
{
    let s = Seq::new(8, |i: int| bit_of(b, i));
    reveal_with_fuel(bits_value, 9);
    assert(s.drop_last() =~= Seq::new(7, |i: int| bit_of(b, i)));
    assert(s.drop_last().drop_last() =~= Seq::new(6, |i: int| bit_of(b, i)));
    assert(s.drop_last().drop_last().drop_last() =~= Seq::new(5, |i: int| bit_of(b, i)));
    assert(s.drop_last().drop_last().drop_last().drop_last() =~= Seq::new(4, |i: int| bit_of(b, i)));
    assert(s.drop_last().drop_last().drop_last().drop_last().drop_last() =~= Seq::new(3, |i: int| bit_of(b, i)));
    assert(s.drop_last().drop_last().drop_last().drop_last().drop_last().drop_last() =~= Seq::new(2, |i: int| bit_of(b, i)));
    assert(s.drop_last().drop_last().drop_last().drop_last().drop_last().drop_last().drop_last() =~= Seq::new(1, |i: int| bit_of(b, i)));
    assert(s.drop_last().drop_last().drop_last().drop_last().drop_last().drop_last().drop_last().drop_last() =~= Seq::<u8>::empty());
    assert((b as u32) == ((b >> 7u8) & 1u8) as u32 * 128 + ((b >> 6u8) & 1u8) as u32 * 64
        + ((b >> 5u8) & 1u8) as u32 * 32 + ((b >> 4u8) & 1u8) as u32 * 16 + ((b >> 3u8) & 1u8) as u32 * 8
        + ((b >> 2u8) & 1u8) as u32 * 4 + ((b >> 1u8) & 1u8) as u32 * 2 + ((b >> 0u8) & 1u8) as u32) by (bit_vector);
}

/// Regrouping the bits of a byte sequence gives the sequence back.
proof fn lemma_bytes_of_bits_of(bytes: Seq<u8>)
    ensures
        bytes_of_bits(bits_of(bytes)) == bytes,
{
    let bits = bits_of(bytes);
    assert forall|c: int| 0 <= c < bytes.len() implies #[trigger] bytes_of_bits(bits)[c] == bytes[c] by {
        let chunk = bits.subrange(8 * c, 8 * c + 8);
        assert(chunk =~= Seq::new(8, |i: int| bit_of(bytes[c], i))) by {
            assert forall|i: int| 0 <= i < 8 implies chunk[i] == bit_of(bytes[c], i) by {
                assert((8 * c + i) / 8 == c && (8 * c + i) % 8 == i);
            }
        }
        lemma_byte_value(bytes[c]);
    }
    assert(bytes_of_bits(bits) =~= bytes);
}

/// The bits of `a + b` are those of `a`, then those of `b`.
proof fn lemma_bits_of_concat(a: Seq<u8>, b: Seq<u8>)
    ensures
        bits_of(a + b).take((8 * a.len()) as int) == bits_of(a),
        bits_of(a + b).subrange((8 * a.len()) as int, (8 * (a.len() + b.len())) as int) == bits_of(b),
{
    let s = bits_of(a + b);
    assert forall|j: int| 0 <= j < 8 * a.len() implies #[trigger] s[j] == bits_of(a)[j] by {
        assert(j / 8 < a.len());
    }
    assert(s.take((8 * a.len()) as int) =~= bits_of(a));
    assert forall|t: int| 0 <= t < 8 * b.len() implies #[trigger] s[8 * a.len() + t] == bits_of(b)[t] by {
        assert((8 * a.len() + t) / 8 == a.len() + t / 8);
        assert((8 * a.len() + t) % 8 == t % 8);
    }
    assert(s.subrange((8 * a.len()) as int, (8 * (a.len() + b.len())) as int) =~= bits_of(b));
}

/// Round trip: an image that encoding produced from a message that fits decodes, with a
/// strategy that draws the same masks and the matching distribution (sequential, or linear
/// with the encoder's group count), to the message, unless the terminator occurs in the
/// stream before its end.
pub proof fn lemma_round_trip<E: BitEncoding, D: BitEncoding>(
    enc: E,
    dec: D,
    enc_dist: BitDistribution,
    dec_dist: BitDistribution,
    before: CoverImage,
    msg: Seq<u8>,
    after: CoverImage,
)
    requires
        before.wf(),
        forall|k: nat| #[trigger] dec.mask_at(k) == enc.mask_at(k),
        fits(before.pixel_count(), msg.len(), true),
        no_early_end(msg),
        encodes(enc, before, enc_dist, stream_bits(msg, true), after),
        (enc_dist == BitDistribution::Sequential && dec_dist == BitDistribution::Sequential) || (
        enc_dist is Linear && dec_dist is Linear && dec_dist->length as nat == group_count(
            stream_bits(msg, true).len(),
        )),
    ensures
        decoded(dec, after, dec_dist, true) == Some(msg),
{
    let n = before.pixel_count();
    let stream = stream_bits(msg, true);
    let l = stream.len();
    assert(l == 8 * (msg.len() + 4));
    assert(l <= 3 * n);
    let rb = read_bits(dec, after, dec_dist);
    lemma_encode_positions(enc_dist, n, l);
    assert(rb.len() >= l) by {
        if dec_dist is Linear {
            assert(n >= 1);
        }
    }
    assert forall|j: int| 0 <= j < l implies #[trigger] rb[j] == stream[j] by {
        let p = encode_position(enc_dist, n, l, j as nat);
        assert(decode_position(dec_dist, n, j as nat) == p);
        enc.lemma_mask_single_bit(j as nat);
        lemma_bit_of_le_1((msg + end_bytes())[j / 8], j % 8);
        lemma_read_put(before.data@[p as int], enc.mask_at(j as nat), stream[j]);
    }
    assert(rb.take(l as int) =~= stream);
    assert forall|m: int| 0 <= m < l implies !ends_with(#[trigger] rb.take(m), end_bits()) by {
        assert(rb.take(m) =~= stream.take(m));
    }
    lemma_bits_of_concat(msg, end_bytes());
    assert(ends_with(rb.take(l as int), end_bits()));
    lemma_scan_stops(rb, 0, l);
    assert(rb.take(l - 32) =~= bits_of(msg));
    lemma_bytes_of_bits_of(msg);
}

/// Capacity: a message of exactly `capacity_of` bytes fits, one byte more does not.
pub proof fn lemma_capacity_exact(n: nat)
    requires
        3 * n >= 32,
    ensures
        capacity_of(n, true) == ((3 * n - 32) as nat) / 8,
        fits(n, capacity_of(n, true), true),
        !fits(n, capacity_of(n, true) + 1, true),
{
}

impl<E: BitEncoding> Steganography for BitEncoder<E> {
    open spec fn ready(&self) -> bool {
        self.encoder.wf()
    }

    open spec fn capacity(&self, img: CoverImage) -> nat {
        capacity_of(img.pixel_count(), self.end_sequence)
    }

    open spec fn fits_message(&self, img: CoverImage, len: nat) -> bool {
        fits(img.pixel_count(), len, self.end_sequence)
    }

    open spec fn encodes_message(&self, img: CoverImage, msg: Seq<u8>, out: CoverImage) -> bool {
        out.wf() && encodes(self.encoder, img, self.bit_dist, stream_bits(msg, self.end_sequence), out)
    }

    open spec fn message_in(&self, img: CoverImage) -> Option<Seq<u8>> {
        decoded(self.encoder, img, self.bit_dist, self.end_sequence)
    }

    fn encode(&mut self, img: &CoverImage, msg: &[u8]) -> (r: Result<CoverImage, StegError>) {
        BitEncoder::encode(self, img, msg)
    }

    fn decode(&mut self, img: &CoverImage) -> (r: Result<Vec<u8>, StegError>) {
        BitEncoder::decode(self, img)
    }

    fn max_len(&self, img: &CoverImage) -> (r: usize) {
        BitEncoder::max_len(self, img)
    }
}

/// The group count that decoding with the linear distribution needs for a message of
/// `msg_len` bytes: one group per three stream bits or part of them.
pub fn linear_length(msg_len: usize, end_sequence: bool) -> (r: Option<usize>)
    ensures
        r == (if group_count(8 * (msg_len as nat) + end_len(end_sequence)) <= usize::MAX {
            Some(group_count(8 * (msg_len as nat) + end_len(end_sequence)) as usize)
        } else {
            None::<usize>
        }),
{
    let e: u128 = if end_sequence { 32 } else { 0 };
    let g: u128 = (8 * (msg_len as u128) + e + 2) / 3;
    if g > usize::MAX as u128 {
        None
    } else {
        Some(g as usize)
    }
}

/// Round trip with random significant bits: two generators built from the same seed and
/// highest bit, with equally many draws behind them, encode and decode a message that fits
/// back to itself, unless the terminator occurs in its stream before the end.
pub proof fn lemma_rsb_round_trip(
    enc: Rsb,
    dec: Rsb,
    before: CoverImage,
    msg: Seq<u8>,
    after: CoverImage,
)
    requires
        before.wf(),
        enc.seed_text() == dec.seed_text(),
        enc.max_bit() == dec.max_bit(),
        enc.draws() == dec.draws(),
        fits(before.pixel_count(), msg.len(), true),
        no_early_end(msg),
        encodes(enc, before, BitDistribution::Sequential, stream_bits(msg, true), after),
    ensures
        decoded(dec, after, BitDistribution::Sequential, true) == Some(msg),
{
    lemma_seed_determinism(dec, enc);
    lemma_round_trip(enc, dec, BitDistribution::Sequential, BitDistribution::Sequential, before, msg, after);
}

/// The distribution the options name, sequential by default.
pub open spec fn dist_or_default(d: Option<BitDistribution>) -> BitDistribution {
    match d {
        Some(d) => d,
        None => BitDistribution::Sequential,
    }
}

/// Builds the codec that the options describe, after checking them.
pub fn encoder_from_opts(opts: &EncodeOpts) -> (r: Result<BitEncoder<BitMethod>, StegError>)
    ensures
        match config_error(*opts) {
            Some(c) => r == Err::<BitEncoder<BitMethod>, StegError>(StegError::InvalidConfiguration(c)),
            None => r matches Ok(e) && {
                &&& e.encoder.wf()
                &&& e.end_sequence
                &&& e.bit_dist == dist_or_default(opts.distribution)
                &&& if opts.method == Some(StegMethod::RandomSignificantBit) {
                    e.encoder matches BitMethod::Rsb(g) && g.max_bit() == opts.max_bit->0
                        && g.seed_text() == opts.seed->0@ && g.draws() == 0
                } else {
                    e.encoder is Lsb
                }
            },
        },
{
    match opts.validate() {
        Err(e) => {
            return Err(e);
        },
        Ok(()) => {},
    }
    let method = match opts.method {
        Some(StegMethod::RandomSignificantBit) => {
            let max = match opts.max_bit {
                Some(b) => b,
                None => 1,
            };
            let seed: &str = match &opts.seed {
                Some(s) => s.as_str(),
                None => "",
            };
            BitMethod::Rsb(Rsb::new(max, seed))
        },
        _ => BitMethod::Lsb(Lsb::new()),
    };
    Ok(BitEncoder::new(method, opts.distribution))
}

} // verus!
