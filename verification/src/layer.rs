//! Depth layers. A layer is stored as a one-bit mask so that it can be used
//! directly as a physics collision mask.

use vstd::prelude::*;
use vstd::std_specs::bits::{u32_trailing_zeros, axiom_u32_trailing_zeros};
use vstd::string::StringSliceAdditionalSpecFns;

verus! {

/// Bytes of the prefix that marks a gameplay layer in the map editor ("Layer ").
pub open spec fn layer_name_prefix() -> Seq<u8> {
    seq![76u8, 97u8, 121u8, 101u8, 114u8, 32u8]
}

/// Whether a byte is an ASCII decimal digit.
pub open spec fn is_digit(b: u8) -> bool {
    48 <= b <= 57
}

/// Decimal value of a sequence of ASCII digits.
pub open spec fn decimal_value(d: Seq<u8>) -> nat
    decreases d.len(),
{
    if d.len() == 0 {
        0
    } else {
        decimal_value(d.drop_last()) * 10 + (d.last() - 48) as nat
    }
}

/// Whether every byte is an ASCII decimal digit.
pub open spec fn all_digits(d: Seq<u8>) -> bool {
    forall|i: int| 0 <= i < d.len() ==> is_digit(#[trigger] d[i])
}

/// The digit part of a number's text: without a leading `+` that is not the whole text.
pub open spec fn digit_part(b: Seq<u8>) -> Seq<u8> {
    if b.len() > 1 && b[0] == 43u8 {
        b.drop_first()
    } else {
        b
    }
}

/// What `str::parse::<u32>` accepts: an optional `+` that is not the whole text,
/// then at least one ASCII digit, with a value that fits in a `u32`.
pub open spec fn parse_u32(b: Seq<u8>) -> Option<u32> {
    let digits = digit_part(b);
    if digits.len() > 0 && all_digits(digits) && decimal_value(digits) <= u32::MAX {
        Some(decimal_value(digits) as u32)
    } else {
        None
    }
}

/// The layer number written in a map layer's name, when the name is `Layer <number>`.
pub open spec fn parsed_layer_id(name: Seq<u8>) -> Option<u32> {
    if name.len() >= 6 && name.take(6) == layer_name_prefix() {
        parse_u32(name.skip(6))
    } else {
        None
    }
}

/// A mask rotated by one bit towards the high end, the top bit wrapping to bit 0.
pub open spec fn rotate_up(m: u32) -> u32 {
    (m << 1u32) | (m >> 31u32)
}

/// A mask rotated by one bit towards the low end, bit 0 wrapping to the top bit.
pub open spec fn rotate_down(m: u32) -> u32 {
    (m >> 1u32) | (m << 31u32)
}

/// The mask of the layer with the given number.
pub open spec fn layer_bit(id: u32) -> u32 {
    1u32 << id
}

/// A depth layer on which an object stands.
#[derive(Clone, Copy, Debug, PartialEq, Eq, Structural, PartialOrd, Ord, Hash)]
pub struct Layer {
    mask: u32,
}

impl View for Layer {
    type V = u32;

    closed spec fn view(&self) -> u32 {
        self.mask
    }
}

impl Default for Layer {
    /// The empty mask, which is no gameplay layer.
    fn default() -> (r: Layer)
        ensures
            r@ == 0,
    {
        Layer { mask: 0 }
    }
}

impl Layer {
    /// The number of the layer: the position of its lowest set bit (32 for an empty mask).
    pub open spec fn spec_id(self) -> u32 {
        u32_trailing_zeros(self@)
    }

    /// Whether the layer is the layer with number `id`.
    pub open spec fn is_layer(self, id: u32) -> bool {
        id < 32 && self@ == layer_bit(id)
    }

    /// The bottom gameplay layer, number 1.
    pub fn bottom() -> (r: Layer)
        ensures
            r.is_layer(1),
            r.spec_id() == 1,
    {
        proof {
            lemma_layer_bit_id(1);
            assert(layer_bit(1) == 2) by (bit_vector);
        }
        Layer { mask: 2 }
    }

    /// The layer with the given number.
    pub fn new(id: u32) -> (r: Layer)
        requires
            1 <= id <= 31,
        ensures
            r.is_layer(id),
            r.spec_id() == id,
    {
        proof {
            lemma_layer_bit_id(id);
        }
        Layer { mask: 1u32 << id }
    }

    /// The layer's number.
    pub fn id(self) -> (r: u32)
        ensures
            r == self.spec_id(),
            r <= 32,
    {
        proof {
            axiom_u32_trailing_zeros(self.mask);
        }
        self.mask.trailing_zeros()
    }

    /// The next layer outwards; the mask is rotated, so the last layer wraps to number 0.
    pub fn next(self) -> (r: Layer)
        ensures
            r@ == rotate_up(self@),
            forall|k: u32| self.is_layer(k) ==> r.is_layer(((k + 1) % 32) as u32),
    {
        let m = self.mask;
        let r = Layer { mask: (m << 1u32) | (m >> 31u32) };
        assert forall|k: u32| self.is_layer(k) implies r.is_layer(((k + 1) % 32) as u32) by {
            assert(k < 32 && m == 1u32 << k ==> (m << 1u32) | (m >> 31u32) == 1u32 << ((k + 1)
                % 32)) by (bit_vector);
        }
        r
    }

    /// The previous layer inwards; the mask is rotated, so layer 0 wraps to number 31.
    pub fn prev(self) -> (r: Layer)
        ensures
            r@ == rotate_down(self@),
            forall|k: u32| self.is_layer(k) ==> r.is_layer(((k + 31) % 32) as u32),
    {
        let m = self.mask;
        let r = Layer { mask: (m >> 1u32) | (m << 31u32) };
        assert forall|k: u32| self.is_layer(k) implies r.is_layer(((k + 31) % 32) as u32) by {
            assert(k < 32 && m == 1u32 << k ==> (m >> 1u32) | (m << 31u32) == 1u32 << ((k + 31)
                % 32)) by (bit_vector);
        }
        r
    }

    /// The layer of a map layer named `Layer <number>`; other names are not gameplay layers.
    pub fn from_tiled_name(name: &str) -> (r: Option<Layer>)
        requires
            parsed_layer_id(name.spec_bytes()) matches Some(id) ==> 1 <= id <= 31,
        ensures
            r matches Some(l) <==> parsed_layer_id(name.spec_bytes()) is Some,
            r matches Some(l) ==> l.is_layer(parsed_layer_id(name.spec_bytes())->0) && l.spec_id()
                == parsed_layer_id(name.spec_bytes())->0,
    {
        match tiled_layer_id(name) {
            Some(id) => Some(Layer::new(id)),
            None => None,
        }
    }

    /// The layer's bits as a physics collision mask.
    pub fn to_bits(&self) -> (r: u32)
        ensures
            r == self@,
    {
        self.mask
    }

    /// The layer with the given mask bits.
    pub fn from_bits(mask: u32) -> (r: Layer)
        ensures
            r@ == mask,
    {
        Layer { mask }
    }

    /// The mask that holds every layer.
    pub fn all_bits() -> (r: u32)
        ensures
            r == u32::MAX,
    {
        u32::MAX
    }

    /// The collision filter of a moving object on this layer: its own layer and the
    /// location's boundary walls, which are on bit 0.
    pub fn collision_filters(&self) -> (r: u32)
        ensures
            r == self@ | 1u32,
    {
        self.mask | 1u32
    }

    /// Orders two layers as the derived `Ord` does: by their masks.
    pub fn precedes(&self, other: &Layer) -> (r: bool)
        ensures
            r == (self@ < other@),
    {
        self.mask < other.mask
    }
}

/// The layer number written in a map layer's name, when the name is `Layer <number>`.
pub fn tiled_layer_id(name: &str) -> (r: Option<u32>)
    ensures
        r == parsed_layer_id(name.spec_bytes()),
{
    let b = name.as_bytes();
    let n = b.len();
    if n < 6 || b[0] != 76u8 || b[1] != 97u8 || b[2] != 121u8 || b[3] != 101u8 || b[4] != 114u8
        || b[5] != 32u8 {
        assert(n >= 6 ==> b@.take(6) != layer_name_prefix()) by {
            if n >= 6 && b@.take(6) == layer_name_prefix() {
                assert(b@.take(6)[0] == b@[0]);
                assert(b@.take(6)[1] == b@[1]);
                assert(b@.take(6)[2] == b@[2]);
                assert(b@.take(6)[3] == b@[3]);
                assert(b@.take(6)[4] == b@[4]);
                assert(b@.take(6)[5] == b@[5]);
            }
        }
        return None;
    }
    assert(b@.take(6) =~= layer_name_prefix());
    parse_u32_from(b, 6)
}

/// Parses the bytes of `b` from `start` on as `str::parse::<u32>` does.
fn parse_u32_from(b: &[u8], start: usize) -> (r: Option<u32>)
    requires
        start <= b@.len(),
    ensures
        r == parse_u32(b@.skip(start as int)),
{
    let n = b.len();
    let ghost rest = b@.skip(start as int);
    let mut i = start;
    if n - start > 1 && b[start] == 43u8 {
        i = start + 1;
    }
    let i0 = i;
    let ghost digits = b@.subrange(i0 as int, n as int);
    assert(digits =~= digit_part(rest));
    if i >= n {
        return None;
    }
    let mut acc: u64 = 0;
    assert(b@.subrange(i0 as int, i0 as int) =~= Seq::<u8>::empty());
    while i < n
        invariant
            start <= i0 <= i <= n,
            n == b@.len(),
            digits == b@.subrange(i0 as int, n as int),
            rest == b@.skip(start as int),
            digits == digit_part(rest),
            i0 < n,
            acc == decimal_value(b@.subrange(i0 as int, i as int)),
            acc <= u32::MAX,
            forall|j: int| i0 <= j < i ==> is_digit(#[trigger] b@[j]),
        decreases n - i,
    {
        let c = b[i];
        if c < 48u8 || c > 57u8 {
            proof {
                assert(!is_digit(digits[i - i0]));
            }
            return None;
        }
        let ghost pre = b@.subrange(i0 as int, i + 1);
        assert(pre.drop_last() =~= b@.subrange(i0 as int, i as int));
        acc = acc * 10 + (c - 48u8) as u64;
        if acc > u32::MAX as u64 {
            proof {
                if all_digits(digits) {
                    assert(digits.take(i + 1 - i0) =~= pre);
                    lemma_decimal_prefix_le(digits, i + 1 - i0);
                }
            }
            return None;
        }
        i = i + 1;
    }
    assert(b@.subrange(i0 as int, i as int) =~= digits);
    Some(acc as u32)
}

/// A prefix of a digit sequence has at most the value of the whole sequence.
proof fn lemma_decimal_prefix_le(d: Seq<u8>, k: int)
    requires
        0 <= k <= d.len(),
        all_digits(d),
    ensures
        decimal_value(d.take(k)) <= decimal_value(d),
    decreases d.len(),
{
    if k < d.len() {
        assert(d.drop_last().take(k) =~= d.take(k));
        assert forall|j: int| 0 <= j < d.drop_last().len() implies is_digit(
            #[trigger] d.drop_last()[j],
        ) by {
            assert(d.drop_last()[j] == d[j]);
        }
        lemma_decimal_prefix_le(d.drop_last(), k);
    } else {
        assert(d.take(k) =~= d);
    }
}

/// Moving a layer outwards and then inwards, or inwards and then outwards, gives the
/// layer back, whatever its mask.
pub proof fn lemma_next_prev_inverse(m: u32)
    ensures
        rotate_down(rotate_up(m)) == m,
        rotate_up(rotate_down(m)) == m,
{
    assert(((((m << 1u32) | (m >> 31u32)) >> 1u32) | (((m << 1u32) | (m >> 31u32)) << 31u32))
        == m) by (bit_vector);
    assert(((((m >> 1u32) | (m << 31u32)) << 1u32) | (((m >> 1u32) | (m << 31u32)) >> 31u32))
        == m) by (bit_vector);
}

/// The mask with the single bit `id` has `id` trailing zeros.
pub proof fn lemma_layer_bit_id(id: u32)
    requires
        id < 32,
    ensures
        u32_trailing_zeros(layer_bit(id)) == id,
        layer_bit(id) != 0,
{
    let i = layer_bit(id);
    axiom_u32_trailing_zeros(i);
    assert(id < 32 ==> (1u32 << id) != 0u32) by (bit_vector);
    let t = u32_trailing_zeros(i);
    assert(forall|j: u32| #![auto] id < 32 && j < 32 ==> ((((1u32 << id) >> j) & 1u32 == 1u32)
        == (j == id))) by (bit_vector);
    if t < id {
        assert((i >> t) & 1u32 == 1u32);
    } else if t > id {
        assert((i >> id) & 1u32 == 0u32);
    }
}

} // verus!
