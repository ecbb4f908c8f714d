//! Data in the low bits of the colour channels.
//!
//! The bits of the data, lowest first, go into the low `bpc` bits of red, green
//! and blue, pixel by pixel.
use crate::error::{outcome, Error, ErrorView, Fault};
use crate::progress::{
    counted_to, lemma_counted_push, lemma_own, tell, told_all, ProgressPhase, ProgressSink, Report,
    Scale, Silent,
};
use crate::raster::{resizable, resized, Opened, OpenedImage, Raster, RgbaImage};
use rayon::iter::{IndexedParallelIterator, ParallelIterator};
use rayon::slice::ParallelSliceMut;
use vstd::arithmetic::div_mod::{lemma_fundamental_div_mod, lemma_fundamental_div_mod_converse};
use vstd::arithmetic::power2::{lemma2_to64, pow2};
use vstd::prelude::*;

verus! {

/// The weight of bit `i` of a byte.
pub open spec fn weight(i: int) -> int {
    if i == 0 {
        1
    } else if i == 1 {
        2
    } else if i == 2 {
        4
    } else if i == 3 {
        8
    } else if i == 4 {
        16
    } else if i == 5 {
        32
    } else if i == 6 {
        64
    } else {
        128
    }
}

/// Bit `i` of `byte`.
#[verifier::opaque]
pub open spec fn bit(byte: u8, i: int) -> bool {
    (byte as int / weight(i)) % 2 == 1
}

/// `weight(i)` where the bit is set, 0 where it is not.
pub open spec fn weighed(set: bool, i: int) -> int {
    if set {
        weight(i)
    } else {
        0
    }
}

/// Bit `g` of a byte string, lowest bits first.
pub open spec fn data_bit(data: Seq<u8>, g: int) -> bool {
    bit(data[g / 8], g % 8)
}

/// The place in the bytes of an image that holds bit `g`.
pub open spec fn channel_of(bpc: int, g: int) -> int {
    4 * (g / (3 * bpc)) + (g % (3 * bpc)) / bpc
}

/// Bit `g` of the data in the low bits of an image.
pub open spec fn image_bit(raw: Seq<u8>, bpc: int, g: int) -> bool {
    bit(raw[channel_of(bpc, g)], g % bpc)
}

/// The byte that holds bits `8 * k` to `8 * k + 7` of an image.
#[verifier::opaque]
pub open spec fn image_byte(raw: Seq<u8>, bpc: int, k: int) -> u8 {
    (weighed(image_bit(raw, bpc, 8 * k), 0) + weighed(image_bit(raw, bpc, 8 * k + 1), 1) + weighed(
        image_bit(raw, bpc, 8 * k + 2),
        2,
    ) + weighed(image_bit(raw, bpc, 8 * k + 3), 3) + weighed(image_bit(raw, bpc, 8 * k + 4), 4)
        + weighed(image_bit(raw, bpc, 8 * k + 5), 5) + weighed(image_bit(raw, bpc, 8 * k + 6), 6)
        + weighed(image_bit(raw, bpc, 8 * k + 7), 7)) as u8
}

/// The number of bits that the low bits of an image hold.
pub open spec fn capacity_in_bits(img: Raster, bpc: int) -> int {
    img.pixels() * 3 * bpc
}

/// The whole bytes that the low bits of an image hold.
pub open spec fn extracted(img: Raster, bpc: int) -> Seq<u8> {
    Seq::new((capacity_in_bits(img, bpc) / 8) as nat, |k: int| image_byte(img.data, bpc, k))
}

/// The low bits that a channel takes from the data from bit `g` on; past the end
/// of the data they are 0.
pub open spec fn low_bits(data: Seq<u8>, bpc: int, g: int) -> int {
    weighed(g < 8 * data.len() && data_bit(data, g), 0) + weighed(
        1 < bpc && g + 1 < 8 * data.len() && data_bit(data, g + 1),
        1,
    ) + weighed(2 < bpc && g + 2 < 8 * data.len() && data_bit(data, g + 2), 2) + weighed(
        3 < bpc && g + 3 < 8 * data.len() && data_bit(data, g + 3),
        3,
    )
}

/// A byte of a pixel after embedding: `place` is its place in the pixel and
/// `pixel` the index of the pixel. Alpha and what lies past the end of the data
/// stay as they are.
#[verifier::opaque]
pub open spec fn embedded_byte(
    before: u8,
    data: Seq<u8>,
    bpc: int,
    pixel: int,
    place: int,
) -> u8 {
    let g = (3 * pixel + place) * bpc;
    if place < 3 && g < 8 * data.len() {
        (before as int - before as int % weight(bpc) + low_bits(data, bpc, g)) as u8
    } else {
        before
    }
}

/// The bytes of an image after embedding `data`.
pub open spec fn embedded(raw: Seq<u8>, data: Seq<u8>, bpc: int) -> Seq<u8> {
    Seq::new(raw.len(), |i: int| embedded_byte(raw[i], data, bpc, i / 4, i % 4))
}

/// Bits per channel that can be used.
pub open spec fn valid_bpc(bpc: int) -> bool {
    1 <= bpc <= 4
}

/// A byte is the sum of its bits.
proof fn lemma_byte_of_bits(x: u8)
    ensures
        x as int == weighed(bit(x, 0), 0) + weighed(bit(x, 1), 1) + weighed(bit(x, 2), 2) + weighed(
            bit(x, 3),
            3,
        ) + weighed(bit(x, 4), 4) + weighed(bit(x, 5), 5) + weighed(bit(x, 6), 6) + weighed(
            bit(x, 7),
            7,
        ),
{
    reveal(bit);
    let x = x as int;
    assert(x == 2 * (x / 2) + (x / 1) % 2);
    assert(x / 2 == 2 * (x / 4) + (x / 2) % 2);
    assert(x / 4 == 2 * (x / 8) + (x / 4) % 2);
    assert(x / 8 == 2 * (x / 16) + (x / 8) % 2);
    assert(x / 16 == 2 * (x / 32) + (x / 16) % 2);
    assert(x / 32 == 2 * (x / 64) + (x / 32) % 2);
    assert(x / 64 == 2 * (x / 128) + (x / 64) % 2);
    assert(x / 128 == (x / 128) % 2);
}

/// The binary digit of a number above its lower ones.
proof fn lemma_digit(n: int, w: int, higher: int, digit: int, lower: int)
    requires
        n == w * (2 * higher + digit) + lower,
        0 <= digit <= 1,
        0 <= lower < w,
    ensures
        (n / w) % 2 == digit,
{
    let q = 2 * higher + digit;
    assert(w * q == q * w) by (nonlinear_arith);
    lemma_fundamental_div_mod_converse(n, w, q, lower);
    assert((2 * higher + digit) % 2 == digit);
}

/// A byte whose low `bpc` bits are replaced has the new bits there.
proof fn lemma_replaced_bits(before: u8, bpc: int, b: int, b0: bool, b1: bool, b2: bool, b3: bool)
    requires
        valid_bpc(bpc),
        0 <= b < bpc,
    ensures
        ({
            let low = weighed(b0, 0) + weighed(1 < bpc && b1, 1) + weighed(2 < bpc && b2, 2)
                + weighed(3 < bpc && b3, 3);
            let after = before as int - before as int % weight(bpc) + low;
            &&& 0 <= after < 256
            &&& bit(after as u8, b) == (if b == 0 {
                b0
            } else if b == 1 {
                b1
            } else if b == 2 {
                b2
            } else {
                b3
            })
        }),
{
    reveal(bit);
    let x = before as int;
    let (i0, i1) = (weighed(b0, 0), weighed(b1, 0));
    let (i2, i3) = (weighed(b2, 0), weighed(b3, 0));
    let low = weighed(b0, 0) + weighed(1 < bpc && b1, 1) + weighed(2 < bpc && b2, 2) + weighed(
        3 < bpc && b3,
        3,
    );
    let after = x - x % weight(bpc) + low;
    if bpc == 1 {
        let q = x / 2;
        assert(after == 2 * q + i0);
        lemma_digit(after, 1, q, i0, 0);
    } else if bpc == 2 {
        let q = x / 4;
        assert(after == 4 * q + i0 + 2 * i1);
        lemma_digit(after, 1, 2 * q + i1, i0, 0);
        lemma_digit(after, 2, q, i1, i0);
    } else if bpc == 3 {
        let q = x / 8;
        assert(after == 8 * q + i0 + 2 * i1 + 4 * i2);
        lemma_digit(after, 1, 4 * q + i1 + 2 * i2, i0, 0);
        lemma_digit(after, 2, 2 * q + i2, i1, i0);
        lemma_digit(after, 4, q, i2, i0 + 2 * i1);
    } else {
        let q = x / 16;
        assert(after == 16 * q + i0 + 2 * i1 + 4 * i2 + 8 * i3);
        lemma_digit(after, 1, 8 * q + i1 + 2 * i2 + 4 * i3, i0, 0);
        lemma_digit(after, 2, 4 * q + i2 + 2 * i3, i1, i0);
        lemma_digit(after, 4, 2 * q + i3, i2, i0 + 2 * i1);
        lemma_digit(after, 8, q, i3, i0 + 2 * i1 + 4 * i2);
    }
}

/// The low bits of an embedded channel are those of the data.
proof fn lemma_channel_bits(before: u8, data: Seq<u8>, bpc: int, g: int, b: int)
    requires
        valid_bpc(bpc),
        0 <= b < bpc,
        0 <= g,
        g + b < 8 * data.len(),
    ensures
        bit((before as int - before as int % weight(bpc) + low_bits(data, bpc, g)) as u8, b)
            == data_bit(data, g + b),
{
    let n = 8 * data.len();
    lemma_replaced_bits(
        before,
        bpc,
        b,
        g < n && data_bit(data, g),
        g + 1 < n && data_bit(data, g + 1),
        g + 2 < n && data_bit(data, g + 2),
        g + 3 < n && data_bit(data, g + 3),
    );
}

/// Where the bits of an image lie.
proof fn lemma_channel_of(bpc: int, g: int)
    requires
        valid_bpc(bpc),
        0 <= g,
    ensures
        ({
            let at = channel_of(bpc, g);
            let first = (3 * (at / 4) + at % 4) * bpc;
            &&& 0 <= at
            &&& at / 4 == g / (3 * bpc)
            &&& 0 <= at % 4 < 3
            &&& first + g % bpc == g
            &&& 0 <= g % bpc < bpc
        }),
{
    let q = g / (3 * bpc);
    let r = g % (3 * bpc);
    let c = r / bpc;
    lemma_fundamental_div_mod(g, 3 * bpc);
    lemma_fundamental_div_mod(r, bpc);
    assert(0 <= q && 0 <= r < 3 * bpc) by (nonlinear_arith)
        requires
            q == g / (3 * bpc),
            r == g % (3 * bpc),
            0 <= g,
            1 <= bpc,
    ;
    assert(0 <= c < 3) by (nonlinear_arith)
        requires
            c == r / bpc,
            0 <= r < 3 * bpc,
            1 <= bpc,
    ;
    assert(g == (3 * q + c) * bpc + r % bpc) by (nonlinear_arith)
        requires
            g == (3 * bpc) * q + r,
            r == bpc * c + r % bpc,
    ;
    lemma_fundamental_div_mod_converse(g, bpc, 3 * q + c, r % bpc);
}

/// Bit `g` of an image after embedding is bit `g` of the data.
proof fn lemma_embedded_bit(raw: Seq<u8>, data: Seq<u8>, bpc: int, g: int)
    requires
        valid_bpc(bpc),
        0 <= g < 8 * data.len(),
        channel_of(bpc, g) < raw.len(),
    ensures
        image_bit(embedded(raw, data, bpc), bpc, g) == data_bit(data, g),
{
    reveal(embedded_byte);
    lemma_channel_of(bpc, g);
    let at = channel_of(bpc, g);
    let first = (3 * (at / 4) + at % 4) * bpc;
    assert(0 <= first) by (nonlinear_arith)
        requires
            first == (3 * (at / 4) + at % 4) * bpc,
            at >= 0,
            bpc >= 1,
    ;
    lemma_channel_bits(raw[at], data, bpc, first, g % bpc);
}

/// The bits that an image holds lie in its bytes.
proof fn lemma_bit_in_image(img: Raster, bpc: int, g: int)
    requires
        img.wf(),
        valid_bpc(bpc),
        0 <= g < capacity_in_bits(img, bpc),
    ensures
        channel_of(bpc, g) < img.data.len(),
{
    lemma_channel_of(bpc, g);
    let n = img.pixels() as int;
    assert(g / (3 * bpc) < n) by (nonlinear_arith)
        requires
            0 <= g < n * 3 * bpc,
            bpc >= 1,
    ;
}

/// A byte of an image after embedding is the byte of the data.
proof fn lemma_embedded_byte(img: Raster, data: Seq<u8>, bpc: int, k: int)
    requires
        img.wf(),
        valid_bpc(bpc),
        8 * data.len() <= capacity_in_bits(img, bpc),
        0 <= k < data.len(),
    ensures
        image_byte(embedded(img.data, data, bpc), bpc, k) == data[k],
{
    reveal(image_byte);
    let after = embedded(img.data, data, bpc);
    assert forall|g: int| 8 * k <= g < 8 * k + 8 implies #[trigger] image_bit(after, bpc, g) == bit(
        data[k],
        g - 8 * k,
    ) by {
        lemma_bit_in_image(img, bpc, g);
        lemma_embedded_bit(img.data, data, bpc, g);
    }
    lemma_byte_of_bits(data[k]);
}

/// What is embedded in an image that has room for it is what is read back, and
/// nothing of it is lost.
pub proof fn law_embed_extract(img: Raster, data: Seq<u8>, bpc: int)
    requires
        img.wf(),
        valid_bpc(bpc),
        8 * data.len() <= capacity_in_bits(img, bpc),
    ensures
        data.len() <= extracted(
            Raster { data: embedded(img.data, data, bpc), ..img },
            bpc,
        ).len(),
        extracted(Raster { data: embedded(img.data, data, bpc), ..img }, bpc).take(
            data.len() as int,
        ) == data,
{
    let out = extracted(Raster { data: embedded(img.data, data, bpc), ..img }, bpc);
    assert forall|k: int| 0 <= k < data.len() implies out[k] == data[k] by {
        lemma_embedded_byte(img, data, bpc, k);
    }
    assert(out.take(data.len() as int) =~= data);
}

/// Embedding keeps the higher bits of a byte.
proof fn lemma_high_bits_stay(before: u8, data: Seq<u8>, bpc: int, pixel: int, place: int)
    requires
        valid_bpc(bpc),
    ensures
        embedded_byte(before, data, bpc, pixel, place) as int / weight(bpc) == before as int
            / weight(bpc),
{
    reveal(embedded_byte);
    let low = low_bits(data, bpc, (3 * pixel + place) * bpc);
    let x = before as int;
    assert(0 <= low < weight(bpc));
    if bpc == 1 {
        assert((x - x % 2 + low) / 2 == x / 2);
    } else if bpc == 2 {
        assert((x - x % 4 + low) / 4 == x / 4);
    } else if bpc == 3 {
        assert((x - x % 8 + low) / 8 == x / 8);
    } else {
        assert((x - x % 16 + low) / 16 == x / 16);
    }
}

/// Embedding changes nothing but the low bits of red, green and blue: alpha
/// stays, the higher bits stay, and what comes after the data stays.
pub proof fn law_embed_is_local(raw: Seq<u8>, data: Seq<u8>, bpc: int)
    requires
        valid_bpc(bpc),
    ensures
        embedded(raw, data, bpc).len() == raw.len(),
        forall|i: int|
            #![trigger embedded(raw, data, bpc)[i]]
            0 <= i < raw.len() ==> {
                let after = embedded(raw, data, bpc)[i];
                &&& after as int / weight(bpc) == raw[i] as int / weight(bpc)
                &&& i % 4 == 3 ==> after == raw[i]
                &&& (3 * (i / 4) + i % 4) * bpc >= 8 * data.len() ==> after == raw[i]
            },
{
    reveal(embedded_byte);
    assert forall|i: int| 0 <= i < raw.len() implies (#[trigger] embedded(raw, data, bpc)[i]) as int
        / weight(bpc) == raw[i] as int / weight(bpc) by {
        lemma_high_bits_stay(raw[i], data, bpc, i / 4, i % 4);
    }
}

/// Two byte strings, one after the other.
#[derive(Clone, Copy)]
pub struct BlobRef<'a> {
    head: &'a [u8],
    tail: &'a [u8],
}

impl<'a> View for BlobRef<'a> {
    type V = Seq<u8>;

    closed spec fn view(&self) -> Seq<u8> {
        self.head@ + self.tail@
    }
}

impl<'a> BlobRef<'a> {
    #[verifier::type_invariant]
    spec fn valid(self) -> bool {
        self.head@.len() + self.tail@.len() <= usize::MAX
    }

    /// The bytes of `head`, then those of `tail`.
    pub fn new(head: &'a [u8], tail: &'a [u8]) -> (out: BlobRef<'a>)
        requires
            head@.len() + tail@.len() <= usize::MAX,
        ensures
            out@ == head@ + tail@,
    {
        BlobRef { head, tail }
    }

    /// The number of bytes.
    pub fn len_bytes(&self) -> (out: usize)
        ensures
            out == self@.len(),
    {
        proof {
            use_type_invariant(self);
        }
        self.head.len() + self.tail.len()
    }

    /// The byte at `idx`.
    pub fn byte_at(&self, idx: usize) -> (out: u8)
        requires
            idx < self@.len(),
        ensures
            out == self@[idx as int],
    {
        proof {
            use_type_invariant(self);
        }
        if idx < self.head.len() {
            self.head[idx]
        } else {
            self.tail[idx - self.head.len()]
        }
    }
}

/// Shifting brings a bit to the lowest place.
proof fn lemma_shifted_bit(x: u8, i: u8)
    requires
        i < 8,
    ensures
        ((x >> i) & 1u8 == 1u8) == bit(x, i as int),
{
    reveal(bit);
    if i == 0 {
        assert((x >> 0u8) & 1u8 == (x / 1u8) % 2u8) by (bit_vector);
    } else if i == 1 {
        assert((x >> 1u8) & 1u8 == (x / 2u8) % 2u8) by (bit_vector);
    } else if i == 2 {
        assert((x >> 2u8) & 1u8 == (x / 4u8) % 2u8) by (bit_vector);
    } else if i == 3 {
        assert((x >> 3u8) & 1u8 == (x / 8u8) % 2u8) by (bit_vector);
    } else if i == 4 {
        assert((x >> 4u8) & 1u8 == (x / 16u8) % 2u8) by (bit_vector);
    } else if i == 5 {
        assert((x >> 5u8) & 1u8 == (x / 32u8) % 2u8) by (bit_vector);
    } else if i == 6 {
        assert((x >> 6u8) & 1u8 == (x / 64u8) % 2u8) by (bit_vector);
    } else {
        assert((x >> 7u8) & 1u8 == (x / 128u8) % 2u8) by (bit_vector);
    }
}

/// Bit `i` of `byte`.
fn bit_at(byte: u8, i: u8) -> (out: bool)
    requires
        i < 8,
    ensures
        out == bit(byte, i as int),
{
    proof {
        lemma_shifted_bit(byte, i);
    }
    (byte >> i) & 1 == 1
}

/// The weight of bit `i` of a byte.
fn weight_of(i: u8) -> (out: u8)
    requires
        i < 8,
    ensures
        out as int == weight(i as int),
{
    match i {
        0 => 1,
        1 => 2,
        2 => 4,
        3 => 8,
        4 => 16,
        5 => 32,
        6 => 64,
        _ => 128,
    }
}

/// The low bits that a channel takes from the first `n` of its data bits.
spec fn low_bits_up_to(data: Seq<u8>, n: int, g: int) -> int {
    weighed(0 < n && g < 8 * data.len() && data_bit(data, g), 0) + weighed(
        1 < n && g + 1 < 8 * data.len() && data_bit(data, g + 1),
        1,
    ) + weighed(2 < n && g + 2 < 8 * data.len() && data_bit(data, g + 2), 2) + weighed(
        3 < n && g + 3 < 8 * data.len() && data_bit(data, g + 3),
        3,
    )
}

/// Writes the data's bits for one pixel into its bytes.
#[verifier::rlimit(40)]
fn embed_pixel(px: &mut [u8], idx: usize, data: &BlobRef, bpc: u8)
    requires
        old(px)@.len() == 4,
        1 <= bpc <= 4,
        8 * data@.len() <= usize::MAX,
        (3 * idx + 3) * bpc <= usize::MAX,
    ensures
        final(px)@ == Seq::new(
            4,
            |place: int|
                embedded_byte(old(px)@[place], data@, bpc as int, idx as int, place),
        ),
{
    let total_bits: usize = data.len_bytes() * 8;
    let step: u8 = weight_of(bpc);
    let mut chan: usize = 0;
    while chan < 3
        invariant
            chan <= 3,
            px@.len() == 4,
            old(px)@.len() == 4,
            1 <= bpc <= 4,
            step as int == weight(bpc as int),
            total_bits == 8 * data@.len(),
            (3 * idx + 3) * bpc <= usize::MAX,
            forall|place: int|
                0 <= place < 4 ==> px@[place] == (if place < chan {
                    embedded_byte(old(px)@[place], data@, bpc as int, idx as int, place)
                } else {
                    old(px)@[place]
                }),
        decreases 3 - chan,
    {
        reveal(embedded_byte);
        assert((3 * idx + chan) * bpc <= (3 * idx + 3) * bpc - bpc) by (nonlinear_arith)
            requires
                chan < 3,
                bpc >= 1,
        ;
        assert(3 * idx + 3 <= (3 * idx + 3) * bpc) by (nonlinear_arith)
            requires
                bpc >= 1,
        ;
        let first: usize = (3 * idx + chan) * bpc as usize;
        if first < total_bits {
            let mut low: u8 = 0;
            let mut b: u8 = 0;
            while b < bpc && first + (b as usize) < total_bits
                invariant
                    b <= bpc <= 4,
                    first + bpc <= usize::MAX,
                    total_bits == 8 * data@.len(),
                    low as int == low_bits_up_to(data@, b as int, first as int),
                decreases bpc - b,
            {
                let g: usize = first + b as usize;
                let byte: u8 = data.byte_at(g / 8);
                if bit_at(byte, (g % 8) as u8) {
                    low = low + weight_of(b);
                }
                b = b + 1;
            }
            assert(low as int == low_bits(data@, bpc as int, first as int));
            proof {
                lemma_replaced_bits(px@[chan as int], bpc as int, 0, false, false, false, false);
                assert(low < weight(bpc as int));
            }
            let value: u8 = px[chan];
            px[chan] = value - value % step + low;
        }
        chan = chan + 1;
    }
    reveal(embedded_byte);
    assert(px@ =~= Seq::new(
        4,
        |place: int| embedded_byte(old(px)@[place], data@, bpc as int, idx as int, place),
    ));
}

/// Runs `embed_pixel` over the first `count` pixels with rayon's
/// `par_chunks_mut`, `take`, `enumerate` and `for_each`: the closure gets each of
/// these chunks of four bytes once, with its index, and the other bytes stay.
#[verifier::external_body]
fn embed_pixels(raw: &mut Vec<u8>, count: usize, data: &BlobRef, bpc: u8)
    requires
        old(raw)@.len() % 4 == 0,
        4 * count <= old(raw)@.len(),
        1 <= bpc <= 4,
        8 * data@.len() <= usize::MAX,
        3 * count * bpc <= usize::MAX,
    ensures
        final(raw)@ == Seq::new(
            old(raw)@.len(),
            |i: int|
                if i < 4 * count {
                    embedded_byte(old(raw)@[i], data@, bpc as int, i / 4, i % 4)
                } else {
                    old(raw)@[i]
                },
        ),
{
    raw.par_chunks_mut(4).take(count).enumerate().for_each(
        |(idx, px)| embed_pixel(px, idx, data, bpc),
    );
}

/// The number of whole bytes that an image holds, as far as it can be counted.
pub open spec fn capacity(img: Raster, bpc: int) -> int {
    let bytes = img.pixels() * 3 * bpc / 8;
    if bytes <= usize::MAX {
        bytes
    } else {
        usize::MAX as int
    }
}

/// The number of whole bytes that an image holds.
pub fn capacity_bytes(img: &RgbaImage, bpc: u8) -> (out: usize)
    ensures
        out == capacity(img@, bpc as int),
{
    let width: u32 = img.width();
    let height: u32 = img.height();
    assert(width as int * height as int <= 0xffff_ffff * 0xffff_ffff) by (nonlinear_arith)
        requires
            width <= 0xffff_ffff,
            height <= 0xffff_ffff,
    ;
    let pixels: u128 = width as u128 * height as u128;
    assert(pixels * 3 * bpc <= pixels * 3 * 255) by (nonlinear_arith)
        requires
            pixels >= 0,
            bpc <= 255,
    ;
    let bytes: u128 = pixels * 3 * bpc as u128 / 8;
    if bytes <= usize::MAX as u128 {
        bytes as usize
    } else {
        usize::MAX
    }
}

/// The size that an image takes when it has to grow, and the largest number of
/// pixels that it may take.
#[derive(Clone, Copy, Debug)]
pub struct Growth {
    pub width: u32,
    pub height: u32,
    pub max_pixels: u64,
}

impl Growth {
    /// The number of pixels of the grown image.
    pub open spec fn pixels(self) -> nat {
        self.width as nat * self.height as nat
    }

    /// The number of pixels of the grown image.
    pub fn count(&self) -> (out: u64)
        ensures
            out as nat == self.pixels(),
    {
        assert(self.width as int * self.height as int <= 0xffff_ffff * 0xffff_ffff)
            by (nonlinear_arith)
            requires
                self.width <= 0xffff_ffff,
                self.height <= 0xffff_ffff,
        ;
        self.width as u64 * self.height as u64
    }
}

/// The image that data of `len` bytes goes into: the opened one where it has
/// room, else the grown one where that is allowed.
pub open spec fn roomy(
    img: Opened,
    bpc: int,
    len: nat,
    allow_upscale: bool,
    growth: Growth,
) -> Result<Raster, ErrorView> {
    if len <= capacity(img.image, bpc) {
        Ok(img.image)
    } else if !allow_upscale {
        Err(Fault::UpscaleDisabled)
    } else if growth.pixels() > growth.max_pixels {
        Err(
            Fault::UpscaleTooLarge {
                width: growth.width,
                height: growth.height,
                pixels: growth.pixels() as u64,
            },
        )
    } else if growth.pixels() * 3 * bpc / 8 < len {
        Err(Fault::UpscaleTooSmall { width: growth.width, height: growth.height })
    } else {
        resized(img, growth.width, growth.height)
    }
}

/// Whether an image takes data of `len` bytes: as it is, or grown where that is
/// allowed and can be done.
pub open spec fn fits(img: Raster, bpc: int, len: nat, allow_upscale: bool, growth: Growth) -> bool {
    ||| len <= capacity(img, bpc)
    ||| {
        &&& allow_upscale
        &&& growth.pixels() <= growth.max_pixels
        &&& len <= growth.pixels() * 3 * bpc / 8
        &&& resizable(img.width, img.height, growth.width, growth.height)
    }
}

/// The size after embedding: that of the opened image where it has room, else the
/// one that it grows to.
pub open spec fn grown(before: Raster, after: Raster, bpc: int, len: nat, growth: Growth) -> bool {
    if len <= capacity(before, bpc) {
        after.width == before.width && after.height == before.height
    } else {
        after.width == growth.width && after.height == growth.height
    }
}

/// Makes sure that an image has room for `payload_len` bytes. The image that it gives
/// has.
fn ensure_capacity(
    img: OpenedImage,
    bpc: u8,
    payload_len: usize,
    allow_upscale: bool,
    growth: Growth,
) -> (out: Result<RgbaImage, Error>)
    ensures
        outcome(out) == roomy(img@, bpc as int, payload_len as nat, allow_upscale, growth),
        out is Ok <==> fits(img@.image, bpc as int, payload_len as nat, allow_upscale, growth),
        out is Ok ==> payload_len <= capacity(out->Ok_0@, bpc as int),
        out matches Ok(r) ==> grown(img@.image, r@, bpc as int, payload_len as nat, growth),
{
    if payload_len <= capacity_bytes(img.image(), bpc) {
        return Ok(img.into_image());
    }
    if !allow_upscale {
        return Err(Fault::UpscaleDisabled);
    }
    let pixels: u64 = growth.count();
    if pixels > growth.max_pixels {
        return Err(Fault::UpscaleTooLarge { width: growth.width, height: growth.height, pixels });
    }
    assert(pixels * 3 * bpc <= pixels * 3 * 255) by (nonlinear_arith)
        requires
            pixels >= 0,
            bpc <= 255,
    ;
    if pixels as u128 * 3 * bpc as u128 / 8 < payload_len as u128 {
        return Err(Fault::UpscaleTooSmall { width: growth.width, height: growth.height });
    }
    img.resize(growth.width, growth.height)
}

/// Whether the bits of `len` bytes, filled up to whole pixels, can be counted.
pub open spec fn countable(len: nat) -> bool {
    8 * len + 12 <= usize::MAX
}

/// What embedding makes of an opened image, or why it does not.
pub open spec fn embedding(
    img: Opened,
    data: Seq<u8>,
    bpc: int,
    allow_upscale: bool,
    growth: Growth,
) -> Result<Raster, ErrorView> {
    if !valid_bpc(bpc) {
        Err(Fault::InvalidBpc)
    } else if !countable(data.len()) {
        Err(Fault::OutputOverflow)
    } else {
        match roomy(img, bpc, data.len(), allow_upscale, growth) {
            Ok(r) => Ok(Raster { data: embedded(r.data, data, bpc), ..r }),
            Err(e) => Err(e),
        }
    }
}

/// The pixels that take part in embedding are those that have data left.
proof fn lemma_touched_pixels(raw: Seq<u8>, data: Seq<u8>, bpc: int, needed: int, count: int)
    requires
        valid_bpc(bpc),
        raw.len() % 4 == 0,
        needed * (3 * bpc) >= 8 * data.len(),
        count == needed || 4 * count == raw.len(),
        0 <= count,
        4 * count <= raw.len(),
    ensures
        Seq::new(
            raw.len(),
            |i: int|
                if i < 4 * count {
                    embedded_byte(raw[i], data, bpc, i / 4, i % 4)
                } else {
                    raw[i]
                },
        ) == embedded(raw, data, bpc),
{
    reveal(embedded_byte);
    assert forall|i: int| 4 * count <= i < raw.len() implies embedded_byte(
        raw[i],
        data,
        bpc,
        i / 4,
        i % 4,
    ) == raw[i] by {
        assert((3 * (i / 4) + i % 4) * bpc >= needed * (3 * bpc)) by (nonlinear_arith)
            requires
                i / 4 >= needed,
                i % 4 >= 0,
                bpc >= 1,
        ;
    }
    assert(Seq::new(
        raw.len(),
        |i: int|
            if i < 4 * count {
                embedded_byte(raw[i], data, bpc, i / 4, i % 4)
            } else {
                raw[i]
            },
    ) =~= embedded(raw, data, bpc));
}

/// Embeds `data` into the pixels of an image. What does not fit is left out.
pub fn embed_bits(img: RgbaImage, data: BlobRef, bpc: u8) -> (out: RgbaImage)
    requires
        1 <= bpc <= 4,
        countable(data@.len()),
    ensures
        out@ == (Raster { data: embedded(img@.data, data@, bpc as int), ..img@ }),
{
    let width: u32 = img.width();
    let height: u32 = img.height();
    let mut raw: Vec<u8> = img.into_raw();
    let total_bits: usize = data.len_bytes() * 8;
    let bits_per_pixel: usize = bpc as usize * 3;
    let pixels_needed: usize = (total_bits + bits_per_pixel - 1) / bits_per_pixel;
    let total_pixels: usize = raw.len() / 4;
    let count: usize = if pixels_needed < total_pixels {
        pixels_needed
    } else {
        total_pixels
    };
    let ghost before = raw@;
    proof {
        assert(pixels_needed * (3 * bpc) >= total_bits) by (nonlinear_arith)
            requires
                pixels_needed == (total_bits + bits_per_pixel - 1) / bits_per_pixel as int,
                bits_per_pixel == bpc * 3,
                bpc >= 1,
        ;
        assert(3 * count * bpc <= 16 * total_pixels) by (nonlinear_arith)
            requires
                count <= total_pixels,
                1 <= bpc <= 4,
        ;
    }
    embed_pixels(&mut raw, count, &data, bpc);
    proof {
        if count == total_pixels {
            assert(4 * count == before.len());
        }
        lemma_touched_pixels(before, data@, bpc as int, pixels_needed as int, count as int);
    }
    RgbaImage::from_raw(width, height, raw).unwrap()
}

/// The capacity of an image can be counted in bits.
proof fn lemma_capacity(img: Raster, bpc: int)
    requires
        img.wf(),
        valid_bpc(bpc),
    ensures
        0 <= capacity_in_bits(img, bpc) <= 12 * img.pixels() <= usize::MAX,
        capacity(img, bpc) == capacity_in_bits(img, bpc) / 8,
{
    let n = img.pixels() as int;
    assert(0 <= n * 3 * bpc <= 12 * n) by (nonlinear_arith)
        requires
            0 <= n,
            1 <= bpc <= 4,
    ;
}

/// Data that fits a grown image can be counted in bits.
pub proof fn lemma_growth_countable(
    img: Raster,
    bpc: int,
    len: nat,
    allow_upscale: bool,
    growth: Growth,
)
    requires
        valid_bpc(bpc),
        len > capacity(img, bpc),
        fits(img, bpc, len, allow_upscale, growth),
    ensures
        countable(len),
{
    let n = growth.pixels() as int;
    let widest = if img.width > growth.width {
        img.width as int
    } else {
        growth.width as int
    };
    let highest = if img.height > growth.height {
        img.height as int
    } else {
        growth.height as int
    };
    assert(n <= widest * highest) by (nonlinear_arith)
        requires
            n == growth.width as int * growth.height as int,
            growth.width <= widest,
            growth.height <= highest,
    ;
    assert(n * 3 * bpc <= 12 * n) by (nonlinear_arith)
        requires
            0 <= n,
            bpc <= 4,
    ;
}

/// What embedding `len` bytes reports: that nothing is embedded, then that all is.
pub open spec fn embedding_log(len: nat) -> Seq<Report> {
    seq![
        Report { phase: ProgressPhase::Embed, done: 0, total: len as u64 },
        Report { phase: ProgressPhase::Embed, done: len as u64, total: len as u64 },
    ]
}

/// Embeds `data` into an opened image, which grows where it has to and may. What is
/// extracted from the image that it gives starts with the data.
pub fn embed_lsb_parallel<P: ProgressSink>(
    img: OpenedImage,
    data: BlobRef,
    bpc: u8,
    allow_upscale: bool,
    growth: Growth,
    progress: &mut P,
) -> (out: Result<RgbaImage, Error>)
    ensures
        outcome(out) == embedding(img@, data@, bpc as int, allow_upscale, growth),
        out is Ok <==> valid_bpc(bpc as int) && fits(
            img@.image,
            bpc as int,
            data@.len(),
            allow_upscale,
            growth,
        ),
        out is Ok ==> data@.len() <= capacity(out->Ok_0@, bpc as int) && extracted(
            out->Ok_0@,
            bpc as int,
        ).take(data@.len() as int) == data@,
        out matches Ok(r) ==> grown(img@.image, r@, bpc as int, data@.len(), growth),
        out is Ok ==> img@.wf(),
        out is Ok ==> told_all(*old(progress), embedding_log(data@.len()), *final(progress)),
        out is Err ==> *final(progress) == *old(progress),
{
    if bpc == 0 || bpc > 4 {
        return Err(Fault::InvalidBpc);
    }
    let len: usize = data.len_bytes();
    let fits_as_it_is: bool = len <= capacity_bytes(img.image(), bpc);
    proof {
        lemma_capacity(img@.image, bpc as int);
    }
    if !fits_as_it_is && len > (usize::MAX - 12) / 8 {
        proof {
            if fits(img@.image, bpc as int, len as nat, allow_upscale, growth) {
                lemma_growth_countable(img@.image, bpc as int, len as nat, allow_upscale, growth);
            }
        }
        return Err(Fault::OutputOverflow);
    }
    let img = ensure_capacity(img, bpc, len, allow_upscale, growth)?;
    let ghost before = img@;
    let none = Report { phase: ProgressPhase::Embed, done: 0, total: len as u64 };
    let all = Report { phase: ProgressPhase::Embed, done: len as u64, total: len as u64 };
    proof {
        lemma_own(Seq::empty());
        lemma_own(seq![none, all]);
        assert(Seq::<Report>::empty().push(none) =~= seq![none]);
        assert(seq![none].push(all) =~= seq![none, all]);
    }
    tell(progress, Scale::Own, none, Ghost(*old(progress)), Ghost(Seq::empty()));
    let out: RgbaImage = embed_bits(img, data, bpc);
    let ghost first = seq![none];
    tell(progress, Scale::Own, all, Ghost(*old(progress)), Ghost(first));
    proof {
        lemma_capacity(before, bpc as int);
        law_embed_extract(before, data@, bpc as int);
    }
    Ok(out)
}

/// The first `n` bits of byte `k` of an image, as a number.
spec fn started_byte(raw: Seq<u8>, bpc: int, k: int, n: int) -> int
    decreases n,
{
    if n <= 0 {
        0
    } else {
        started_byte(raw, bpc, k, n - 1) + weighed(image_bit(raw, bpc, 8 * k + n - 1), n - 1)
    }
}

/// A byte that was started and has all its bits is the image's byte.
proof fn lemma_started_byte(raw: Seq<u8>, bpc: int, k: int, n: int)
    requires
        0 <= n <= 8,
    ensures
        0 <= started_byte(raw, bpc, k, n),
        n < 8 ==> started_byte(raw, bpc, k, n) < weight(n),
        n == 8 ==> started_byte(raw, bpc, k, n) < 256,
        n == 8 ==> started_byte(raw, bpc, k, n) == image_byte(raw, bpc, k),
    decreases n,
{
    reveal(image_byte);
    reveal_with_fuel(started_byte, 9);
}

/// What has been read from an image.
#[verifier::ext_equal]
pub struct BitReading {
    pub image: Raster,
    pub bpc: int,
    pub bits: int,
}

impl BitReading {
    /// Whole bytes have been read, or all there is.
    pub open spec fn wf(self) -> bool {
        &&& self.image.wf()
        &&& valid_bpc(self.bpc)
        &&& 0 <= self.bits <= capacity_in_bits(self.image, self.bpc)
        &&& self.bits % 8 == 0 || self.bits == capacity_in_bits(self.image, self.bpc)
    }
}

/// Reads the bytes in the low bits of an image one by one.
pub struct BitStreamReader<'a> {
    image: &'a RgbaImage,
    bpc: u8,
    byte_acc: u8,
    bits_filled: u8,
    pixel_idx: usize,
    channel_idx: usize,
    bit_in_channel: u8,
}

impl<'a> View for BitStreamReader<'a> {
    type V = BitReading;

    closed spec fn view(&self) -> BitReading {
        BitReading { image: self.image@, bpc: self.bpc as int, bits: self.position() }
    }
}

/// The number of the bit at a pixel, a channel and a bit in the channel.
#[verifier::opaque]
spec fn bit_number(bpc: int, pixel: int, channel: int, b: int) -> int {
    (3 * pixel + channel) * bpc + b
}

/// Where the bit of a number lies.
proof fn lemma_place(bpc: int, pixel: int, channel: int, b: int)
    requires
        valid_bpc(bpc),
        0 <= pixel,
        0 <= channel < 3,
        0 <= b < bpc,
    ensures
        ({
            let g = bit_number(bpc, pixel, channel, b);
            0 <= g && channel_of(bpc, g) == 4 * pixel + channel && g % bpc == b
        }),
{
    reveal(bit_number);
    let g = bit_number(bpc, pixel, channel, b);
    let r = channel * bpc + b;
    assert(0 <= r < 3 * bpc) by (nonlinear_arith)
        requires
            r == channel * bpc + b,
            0 <= channel < 3,
            0 <= b < bpc,
    ;
    assert(g == pixel * (3 * bpc) + r && 0 <= pixel * (3 * bpc)) by (nonlinear_arith)
        requires
            g == (3 * pixel + channel) * bpc + b,
            r == channel * bpc + b,
            0 <= pixel,
            1 <= bpc,
    ;
    lemma_fundamental_div_mod_converse(g, 3 * bpc, pixel, r);
    lemma_fundamental_div_mod_converse(r, bpc, channel, b);
    lemma_fundamental_div_mod_converse(g, bpc, 3 * pixel + channel, b);
}

/// The bit after a bit is in the same channel, or the first of the next one, or the
/// first of the next pixel.
proof fn lemma_next_place(bpc: int, pixel: int, channel: int, b: int)
    ensures
        bit_number(bpc, pixel, channel, b + 1) == bit_number(bpc, pixel, channel, b) + 1,
        bit_number(bpc, pixel, channel + 1, 0) == bit_number(bpc, pixel, channel, bpc - 1) + 1,
        bit_number(bpc, pixel + 1, 0, 0) == bit_number(bpc, pixel, 2, bpc - 1) + 1,
{
    reveal(bit_number);
    assert((3 * pixel + (channel + 1)) * bpc == (3 * pixel + channel) * bpc + bpc)
        by (nonlinear_arith);
    assert((3 * (pixel + 1) + 0) * bpc == (3 * pixel + 2) * bpc + bpc) by (nonlinear_arith);
}

impl<'a> BitStreamReader<'a> {
    /// The number of bits that have been read.
    spec fn position(self) -> int {
        bit_number(
            self.bpc as int,
            self.pixel_idx as int,
            self.channel_idx as int,
            self.bit_in_channel as int,
        )
    }

    /// The places are in range and the byte that is being read has its first bits.
    spec fn consistent(self) -> bool {
        let raw = self.image@.data;
        let bpc = self.bpc as int;
        &&& self.image@.wf()
        &&& valid_bpc(bpc)
        &&& self.channel_idx < 3
        &&& self.bit_in_channel < self.bpc
        &&& self.position() <= capacity_in_bits(self.image@, bpc)
        &&& self.bits_filled <= 8
        &&& (self.position() - self.bits_filled) % 8 == 0
        &&& self.bits_filled <= self.position()
        &&& self.byte_acc as int == started_byte(
            raw,
            bpc,
            (self.position() - self.bits_filled) / 8,
            self.bits_filled as int,
        )
    }

    /// Whole bytes have been read, or all there is.
    pub closed spec fn wf(self) -> bool {
        &&& self.consistent()
        &&& self.bits_filled < 8
        &&& self.bits_filled == 0 || self.position() == capacity_in_bits(
            self.image@,
            self.bpc as int,
        )
    }

    /// A reader at the start of an image.
    pub fn new(image: &'a RgbaImage, bpc: u8) -> (out: Result<BitStreamReader<'a>, Error>)
        ensures
            1 <= bpc <= 4 ==> out is Ok && out->Ok_0@ == (BitReading {
                image: image@,
                bpc: bpc as int,
                bits: 0,
            }) && out->Ok_0.wf(),
            !(1 <= bpc <= 4) ==> out is Err && out->Err_0@ == ErrorView::InvalidBpc,
    {
        if bpc == 0 || bpc > 4 {
            return Err(Fault::InvalidBpc);
        }
        let width: u32 = image.width();
        proof {
            lemma_capacity(image@, bpc as int);
        }
        let out = BitStreamReader {
            image,
            bpc,
            byte_acc: 0,
            bits_filled: 0,
            pixel_idx: 0,
            channel_idx: 0,
            bit_in_channel: 0,
        };
        assert(out.position() == 0) by {
            reveal(bit_number);
            assert((3 * 0int + 0int) * bpc == 0) by (nonlinear_arith);
        }
        assert(started_byte(image@.data, bpc as int, 0, 0) == 0);
        Ok(out)
    }

    /// The number of bits that have been read.
    pub fn bits_read(&self) -> (out: usize)
        requires
            self.wf(),
        ensures
            out == self@.bits,
            self@.wf(),
    {
        self.position_now()
    }

    /// The number of bits that the image holds.
    pub fn capacity_bits(&self) -> (out: usize)
        requires
            self.wf(),
        ensures
            out == capacity_in_bits(self@.image, self@.bpc),
    {
        self.all_bits()
    }

    /// The number of bits that have been read.
    fn position_now(&self) -> (out: usize)
        requires
            self.consistent(),
        ensures
            out == self.position(),
    {
        proof {
            reveal(bit_number);
            lemma_capacity(self.image@, self.bpc as int);
            let (p, c, b) = (self.pixel_idx as int, self.channel_idx as int, self.bpc as int);
            assert(0 <= p * 3 + c <= (p * 3 + c) * b && (p * 3 + c) * b == (3 * p + c) * b)
                by (nonlinear_arith)
                requires
                    0 <= p,
                    0 <= c,
                    1 <= b,
            ;
        }
        (self.pixel_idx * 3 + self.channel_idx) * self.bpc as usize + self.bit_in_channel as usize
    }

    /// The number of bits that the image holds.
    fn all_bits(&self) -> (out: usize)
        requires
            self.consistent(),
        ensures
            out == capacity_in_bits(self.image@, self.bpc as int),
    {
        let total: usize = self.image.as_raw().len();
        proof {
            lemma_capacity(self.image@, self.bpc as int);
            let n = self.image@.pixels() as int;
            let b = self.bpc as int;
            assert(n * b <= n * 4 && n * b * 3 == n * 3 * b && n * 3 * b <= n * 12)
                by (nonlinear_arith)
                requires
                    0 <= n,
                    1 <= b <= 4,
            ;
        }
        total / 4 * self.bpc as usize * 3
    }

    /// Reads one bit into the byte that is being read.
    fn take_bit(&mut self)
        requires
            old(self).consistent(),
            old(self).bits_filled < 8,
            old(self).position() < capacity_in_bits(old(self).image@, old(self).bpc as int),
        ensures
            final(self).consistent(),
            final(self).image == old(self).image,
            final(self).bpc == old(self).bpc,
            final(self).bits_filled == old(self).bits_filled + 1,
            final(self).position() == old(self).position() + 1,
    {
        let ghost g = self.position();
        let ghost k = (g - self.bits_filled) / 8;
        let ghost bpc = self.bpc as int;
        proof {
            lemma_place(
                bpc,
                self.pixel_idx as int,
                self.channel_idx as int,
                self.bit_in_channel as int,
            );
            lemma_bit_in_image(self.image@, bpc, g);
            lemma_started_byte(self.image@.data, bpc, k, self.bits_filled as int);
            lemma_started_byte(self.image@.data, bpc, k, self.bits_filled + 1);
            lemma_next_place(
                bpc,
                self.pixel_idx as int,
                self.channel_idx as int,
                self.bit_in_channel as int,
            );
            lemma_channel_of(bpc, g);
        }
        let channel: u8 = self.image.as_raw()[self.pixel_idx * 4 + self.channel_idx];
        if bit_at(channel, self.bit_in_channel) {
            self.byte_acc = self.byte_acc + weight_of(self.bits_filled);
        }
        self.bits_filled = self.bits_filled + 1;
        self.bit_in_channel = self.bit_in_channel + 1;
        if self.bit_in_channel >= self.bpc {
            self.bit_in_channel = 0;
            self.channel_idx = self.channel_idx + 1;
            if self.channel_idx >= 3 {
                self.channel_idx = 0;
                self.pixel_idx = self.pixel_idx + 1;
            }
        }
    }

    /// Reads the next byte. Where no whole byte is left, reads to the end.
    pub fn next_byte(&mut self) -> (out: Option<u8>)
        requires
            old(self).wf(),
        ensures
            final(self).wf(),
            final(self)@.image == old(self)@.image,
            final(self)@.bpc == old(self)@.bpc,
            ({
                let all = extracted(old(self)@.image, old(self)@.bpc);
                let k = old(self)@.bits / 8;
                if old(self)@.bits % 8 == 0 && k < all.len() {
                    out == Some(all[k]) && final(self)@.bits == old(self)@.bits + 8
                } else {
                    out is None && final(self)@.bits == capacity_in_bits(
                        old(self)@.image,
                        old(self)@.bpc,
                    )
                }
            }),
    {
        let total_bits: usize = self.all_bits();
        let ghost start = self.position() - self.bits_filled;
        while self.bits_filled < 8
            invariant
                self.consistent(),
                self.image == old(self).image,
                self.bpc == old(self).bpc,
                old(self).wf(),
                start == old(self).position() - old(self).bits_filled,
                start == self.position() - self.bits_filled,
                total_bits == capacity_in_bits(self.image@, self.bpc as int),
            decreases 8 - self.bits_filled,
        {
            if self.position_now() >= total_bits {
                return None;
            }
            self.take_bit();
        }
        let out: u8 = self.byte_acc;
        proof {
            lemma_started_byte(self.image@.data, self.bpc as int, start / 8, 8);
        }
        self.byte_acc = 0;
        self.bits_filled = 0;
        Some(out)
    }
}

/// Reads all bytes in the low bits of an image.
pub fn extract_lsb(img: &RgbaImage, bpc: u8) -> (out: Result<Vec<u8>, Error>)
    ensures
        outcome(out) == (if valid_bpc(bpc as int) {
            Ok(extracted(img@, bpc as int))
        } else {
            Err(ErrorView::InvalidBpc)
        }),
{
    extract_lsb_with_progress(img, bpc, &mut Silent)
}

/// A hundredth of the bits, but at least one.
pub open spec fn hundredth(bits: int) -> int {
    if bits / 100 > 1 {
        bits / 100
    } else {
        1
    }
}

/// Whether the reports of reading these bits each tell of more bits, and tell of all
/// that were read but for less than a hundredth.
pub open spec fn extraction_log(log: Seq<Report>, total: int, read: int) -> bool {
    exists|done: u64|
        #[trigger] counted_to(log, ProgressPhase::Extract, total as u64, done) && read - done
            < hundredth(total)
}

/// Reads all bytes in the low bits of an image and reports about every hundredth.
pub fn extract_lsb_with_progress<P: ProgressSink>(
    img: &RgbaImage,
    bpc: u8,
    progress: &mut P,
) -> (out: Result<Vec<u8>, Error>)
    ensures
        outcome(out) == (if valid_bpc(bpc as int) {
            Ok(extracted(img@, bpc as int))
        } else {
            Err(ErrorView::InvalidBpc)
        }),
        out is Ok ==> exists|log: Seq<Report>|
            told_all(*old(progress), log, *final(progress)) && extraction_log(
                log,
                capacity_in_bits(img@, bpc as int),
                8 * extracted(img@, bpc as int).len() as int,
            ),
        out is Err ==> *final(progress) == *old(progress),
{
    let mut reader: BitStreamReader = BitStreamReader::new(img, bpc)?;
    let total_bits: usize = reader.capacity_bits();
    let every: usize = if total_bits / 100 > 1 {
        total_bits / 100
    } else {
        1
    };
    let mut out: Vec<u8> = Vec::new();
    let mut last_report: usize = 0;
    let ghost all = extracted(img@, bpc as int);
    let ghost mut log: Seq<Report> = Seq::empty();
    loop
        invariant
            reader.wf(),
            reader@.image == img@,
            reader@.bpc == bpc,
            valid_bpc(bpc as int),
            reader@.bits == 8 * out@.len(),
            total_bits == capacity_in_bits(img@, bpc as int),
            all == extracted(img@, bpc as int),
            out@.len() <= all.len(),
            out@ == all.take(out@.len() as int),
            last_report <= 8 * out@.len() <= total_bits,
            8 * out@.len() - last_report < every,
            every == hundredth(total_bits as int),
            told_all(*old(progress), log, *progress),
            counted_to(log, ProgressPhase::Extract, total_bits as u64, last_report as u64),
        decreases all.len() - out@.len(),
    {
        match reader.next_byte() {
            None => {
                assert(out@ =~= all);
                assert(extraction_log(log, total_bits as int, 8 * all.len() as int));
                return Ok(out);
            },
            Some(byte) => {
                out.push(byte);
                assert(out@ =~= all.take(out@.len() as int));
                let done: usize = out.len() * 8;
                if done - last_report >= every || done >= total_bits {
                    let r = Report {
                        phase: ProgressPhase::Extract,
                        done: done as u64,
                        total: total_bits as u64,
                    };
                    proof {
                        lemma_own(log);
                        lemma_own(log.push(r));
                        lemma_counted_push(log, last_report as u64, r);
                    }
                    tell(progress, Scale::Own, r, Ghost(*old(progress)), Ghost(log));
                    proof {
                        log = log.push(r);
                    }
                    last_report = done;
                }
            },
        }
    }
}

/// More bits per channel hold at least as many bytes.
pub proof fn law_more_bits_hold_more(img: Raster, less: u8, more: u8)
    requires
        less <= more,
    ensures
        capacity(img, less as int) <= capacity(img, more as int),
{
    let n = img.pixels() as int;
    assert(n * 3 * less <= n * 3 * more) by (nonlinear_arith)
        requires
            0 <= n,
            less <= more,
    ;
}

/// The bits of a byte weigh the powers of two.
proof fn lemma_weights(i: int)
    requires
        0 <= i < 8,
    ensures
        weight(i) == pow2(i as nat),
{
    lemma2_to64();
}

/// One bit to eight bytes: an image of `width` by `height` pixels holds `3 * bpc` bits
/// to a pixel, and as many bytes as those bits fill.
pub proof fn law_capacity(img: Raster, bpc: u8)
    ensures
        ({
            let bits = img.width as int * img.height as int * 3 * bpc;
            let bytes = capacity(img, bpc as int);
            bits / 8 <= usize::MAX ==> 8 * bytes <= bits < 8 * (bytes + 1)
        }),
        img.width as int * img.height as int * 3 * bpc / 8 > usize::MAX ==> capacity(
            img,
            bpc as int,
        ) == usize::MAX,
        img.wf() && 1 <= bpc <= 4 ==> extracted(img, bpc as int).len() == capacity(
            img,
            bpc as int,
        ),
{
    if img.wf() && 1 <= bpc <= 4 {
        lemma_capacity(img, bpc as int);
    }
}

/// Where the hidden bits lie: bit `j` of byte `k` of the data, counted from the lowest,
/// is the next free one of the lowest `bpc` bits of red, green and blue, pixel after
/// pixel.
pub proof fn law_bits_in_order(raw: Seq<u8>, data: Seq<u8>, bpc: int, k: int, j: int)
    requires
        1 <= bpc <= 4,
        0 <= k < data.len(),
        0 <= j < 8,
        4 * ((8 * k + j) / (3 * bpc)) + 3 < raw.len(),
    ensures
        ({
            let n = 8 * k + j;
            let (pixel, channel) = (n / (3 * bpc), (n % (3 * bpc)) / bpc);
            let after = embedded(raw, data, bpc)[4 * pixel + channel] as int;
            0 <= channel < 3 && (after / pow2((n % bpc) as nat) as int) % 2 == (data[k] as int
                / pow2(j as nat) as int) % 2
        }),
{
    let g = 8 * k + j;
    lemma_channel_of(bpc, g);
    lemma_embedded_bit(raw, data, bpc, g);
    lemma_weights(j);
    lemma_weights(g % bpc);
    reveal(bit);
    assert(g / 8 == k && g % 8 == j);
}

/// What is read from an image is what lies there: bit `j` of byte `k` is the one at
/// its place in the low bits of the colour channels.
pub proof fn law_bits_are_read_in_order(img: Raster, bpc: int, k: int, j: int)
    requires
        1 <= bpc <= 4,
        0 <= k < extracted(img, bpc).len(),
        0 <= j < 8,
    ensures
        ({
            let n = 8 * k + j;
            let (pixel, channel) = (n / (3 * bpc), (n % (3 * bpc)) / bpc);
            (extracted(img, bpc)[k] as int / pow2(j as nat) as int) % 2 == (img.data[4 * pixel
                + channel] as int / pow2((n % bpc) as nat) as int) % 2
        }),
{
    let g = 8 * k + j;
    lemma_channel_of(bpc, g);
    lemma_weights(j);
    lemma_weights(g % bpc);
    lemma_bits_of_byte(img.data, bpc, k, j);
    reveal(bit);
}

/// The binary digits of a number that is put together of them.
proof fn lemma_digits(b: Seq<int>, x: int, j: int)
    requires
        b.len() == 8,
        forall|i: int| 0 <= i < 8 ==> 0 <= #[trigger] b[i] <= 1,
        x == b[0] + 2 * b[1] + 4 * b[2] + 8 * b[3] + 16 * b[4] + 32 * b[5] + 64 * b[6] + 128 * b[7],
        0 <= j < 8,
    ensures
        0 <= x < 256,
        (x / weight(j)) % 2 == b[j],
{
    let (b0, b1, b2, b3, b4, b5, b6, b7) = (b[0], b[1], b[2], b[3], b[4], b[5], b[6], b[7]);
    let y6 = b6 + 2 * b7;
    let y5 = b5 + 2 * y6;
    let y4 = b4 + 2 * y5;
    let y3 = b3 + 2 * y4;
    let y2 = b2 + 2 * y3;
    let y1 = b1 + 2 * y2;
    let z1 = b0 + 2 * b1;
    let z2 = z1 + 4 * b2;
    let z3 = z2 + 8 * b3;
    let z4 = z3 + 16 * b4;
    let z5 = z4 + 32 * b5;
    let z6 = z5 + 64 * b6;
    if j == 0 {
        lemma_digit(x, 1, y1, b0, 0);
    } else if j == 1 {
        lemma_digit(x, 2, y2, b1, b0);
    } else if j == 2 {
        lemma_digit(x, 4, y3, b2, z1);
    } else if j == 3 {
        lemma_digit(x, 8, y4, b3, z2);
    } else if j == 4 {
        lemma_digit(x, 16, y5, b4, z3);
    } else if j == 5 {
        lemma_digit(x, 32, y6, b5, z4);
    } else if j == 6 {
        lemma_digit(x, 64, b7, b6, z5);
    } else {
        lemma_digit(x, 128, 0, b7, z6);
    }
}

/// The bits of a byte that is put together of bits.
proof fn lemma_bits_of_byte(raw: Seq<u8>, bpc: int, k: int, j: int)
    requires
        0 <= j < 8,
    ensures
        bit(image_byte(raw, bpc, k), j) == image_bit(raw, bpc, 8 * k + j),
{
    reveal(image_byte);
    let b = Seq::new(8, |i: int| weighed(image_bit(raw, bpc, 8 * k + i), 0));
    let x = b[0] + 2 * b[1] + 4 * b[2] + 8 * b[3] + 16 * b[4] + 32 * b[5] + 64 * b[6] + 128 * b[7];
    lemma_digits(b, x, j);
    assert(x == image_byte(raw, bpc, k));
    reveal(bit);
}

/// Embedding leaves everything but low bits as it is: alpha, the bits above the lowest
/// `bpc` of a channel, and the channels that the data does not reach.
pub proof fn law_embedding_is_faint(raw: Seq<u8>, data: Seq<u8>, bpc: int, i: int)
    requires
        1 <= bpc <= 4,
        0 <= i < raw.len(),
    ensures
        embedded(raw, data, bpc).len() == raw.len(),
        embedded(raw, data, bpc)[i] as int / pow2(bpc as nat) as int == raw[i] as int / pow2(
            bpc as nat,
        ) as int,
        i % 4 == 3 ==> embedded(raw, data, bpc)[i] == raw[i],
        8 * data.len() <= (3 * (i / 4) + i % 4) * bpc ==> embedded(raw, data, bpc)[i] == raw[i],
{
    lemma_weights(bpc);
    law_embed_is_local(raw, data, bpc);
    assert(embedded(raw, data, bpc)[i] == embedded(raw, data, bpc)[i]);
}

/// One to four bits of a channel can be used.
pub proof fn law_bits_that_can_be_used(bpc: int)
    ensures
        valid_bpc(bpc) <==> bpc == 1 || bpc == 2 || bpc == 3 || bpc == 4,
{
}

/// Data goes into an image as it is where eight bits to its bytes fit three channels of
/// `bpc` bits to a pixel. Other data needs a grown image, which has to be allowed, to
/// stay within the limit and to have room: the answer says which of these fails.
pub proof fn law_room(img: Opened, bpc: u8, len: nat, allow_upscale: bool, growth: Growth)
    requires
        len <= usize::MAX,
    ensures
        ({
            let has = img.image.width as nat * img.image.height as nat * 3 * bpc as nat;
            let grows = growth.width as nat * growth.height as nat;
            let room = roomy(img, bpc as int, len, allow_upscale, growth);
            let answer = fits(img.image, bpc as int, len, allow_upscale, growth);
            if 8 * len <= has {
                room == Ok::<Raster, ErrorView>(img.image) && answer
            } else if !allow_upscale {
                room == Err::<Raster, ErrorView>(Fault::UpscaleDisabled) && !answer
            } else if grows > growth.max_pixels {
                room == Err::<Raster, ErrorView>(
                    Fault::UpscaleTooLarge {
                        width: growth.width,
                        height: growth.height,
                        pixels: grows as u64,
                    },
                ) && !answer
            } else if 8 * len > grows * 3 * bpc as nat {
                room == Err::<Raster, ErrorView>(
                    Fault::UpscaleTooSmall { width: growth.width, height: growth.height },
                ) && !answer
            } else {
                room == resized(img, growth.width, growth.height) && answer == resizable(
                    img.image.width,
                    img.image.height,
                    growth.width,
                    growth.height,
                )
            }
        }),
{
    law_capacity(img.image, bpc);
}

/// What hiding data makes of an image: the image itself, or the grown one where it has
/// no room, with nothing but low bits changed, and with the data in them. Other bits
/// per channel than one to four are refused.
pub proof fn law_embedding_shows_the_image(
    img: Opened,
    data: Seq<u8>,
    bpc: u8,
    allow_upscale: bool,
    growth: Growth,
)
    ensures
        !(1 <= bpc <= 4) ==> embedding(img, data, bpc as int, allow_upscale, growth) == Err::<
            Raster,
            ErrorView,
        >(Fault::InvalidBpc),
        1 <= bpc <= 4 && 8 * data.len() + 12 <= usize::MAX ==> (embedding(
            img,
            data,
            bpc as int,
            allow_upscale,
            growth,
        ) matches Err(e) ==> roomy(img, bpc as int, data.len(), allow_upscale, growth) == Err::<
            Raster,
            ErrorView,
        >(e)),
        1 <= bpc <= 4 && 8 * data.len() + 12 <= usize::MAX && roomy(
            img,
            bpc as int,
            data.len(),
            allow_upscale,
            growth,
        ) is Ok ==> embedding(img, data, bpc as int, allow_upscale, growth) is Ok,
        embedding(img, data, bpc as int, allow_upscale, growth) matches Ok(after) ==> roomy(
            img,
            bpc as int,
            data.len(),
            allow_upscale,
            growth,
        ) matches Ok(before) && after.width == before.width && after.height == before.height
            && after.data.len() == before.data.len() && after.data == embedded(
            before.data,
            data,
            bpc as int,
        ) && forall|i: int|
            #![trigger after.data[i]]
            0 <= i < before.data.len() ==> after.data[i] as int / pow2(bpc as nat) as int
                == before.data[i] as int / pow2(bpc as nat) as int && (i % 4 == 3 ==> after.data[i]
                == before.data[i]),
{
    if embedding(img, data, bpc as int, allow_upscale, growth) is Ok {
        let before = roomy(img, bpc as int, data.len(), allow_upscale, growth)->Ok_0;
        assert forall|i: int| 0 <= i < before.data.len() implies embedded(
            before.data,
            data,
            bpc as int,
        )[i] as int / pow2(bpc as nat) as int == before.data[i] as int / pow2(bpc as nat) as int
            && (i % 4 == 3 ==> embedded(before.data, data, bpc as int)[i] == before.data[i]) by {
            law_embedding_is_faint(before.data, data, bpc as int, i);
        }
    }
}

} // verus!
