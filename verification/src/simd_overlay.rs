//! Overlay tints applied to rows of packed RGB bytes, sixteen lanes at a time.

use vstd::prelude::*;
use wide::u8x16;

verus! {

/// A tint applied to the pixels under an overlay rectangle.
#[derive(Clone, Copy, Debug, PartialEq, Eq, Structural)]
pub enum OverlayOp {
    /// Cools the pixel down towards blue.
    Comment,
    /// Warms the pixel up towards red.
    Selection,
    /// Inverts the pixel.
    Cursor,
}

/// `a + b`, held at 255.
pub open spec fn lane_add(a: u8, b: u8) -> u8 {
    if a + b > 255 {
        255u8
    } else {
        (a + b) as u8
    }
}

/// `a - b`, held at 0.
pub open spec fn lane_sub(a: u8, b: u8) -> u8 {
    if a < b {
        0u8
    } else {
        (a - b) as u8
    }
}

impl OverlayOp {
    /// How much the tint adds to a channel (0 red, 1 green, 2 blue).
    pub open spec fn gain(self, channel: int) -> u8 {
        match self {
            OverlayOp::Comment => if channel == 2 { 20u8 } else { 0u8 },
            OverlayOp::Selection => if channel == 0 { 40u8 } else { 0u8 },
            OverlayOp::Cursor => 0u8,
        }
    }

    /// How much the tint takes from a channel.
    pub open spec fn loss(self, channel: int) -> u8 {
        match self {
            OverlayOp::Comment => if channel == 0 { 15u8 } else { 0u8 },
            OverlayOp::Selection => if channel == 1 { 20u8 } else if channel == 2 { 60u8 } else { 0u8 },
            OverlayOp::Cursor => 0u8,
        }
    }

    /// The tinted value of one channel.
    pub open spec fn tint(self, channel: int, value: u8) -> u8 {
        match self {
            OverlayOp::Cursor => (255 - value) as u8,
            _ => lane_sub(lane_add(value, self.gain(channel)), self.loss(channel)),
        }
    }
}

/// A row after the tint: every whole pixel is tinted, bytes left over after
/// the last whole pixel stay.
pub open spec fn tinted_row(row: Seq<u8>, op: OverlayOp) -> Seq<u8> {
    Seq::new(
        row.len(),
        |i: int| if i < row.len() / 3 * 3 { op.tint(i % 3, row[i]) } else { row[i] },
    )
}

/// `wide::u8x16::saturating_add`: each lane of the result is the sum of the
/// two lanes, held at 255.
#[verifier::external_body]
fn add_lanes(a: [u8; 16], b: [u8; 16]) -> (r: [u8; 16])
    ensures
        forall|i: int| 0 <= i < 16 ==> r@[i] == lane_add(a@[i], b@[i]),
{
    u8x16::new(a).saturating_add(u8x16::new(b)).to_array()
}

/// `wide::u8x16::saturating_sub`: each lane of the result is the difference of
/// the two lanes, held at 0.
#[verifier::external_body]
fn sub_lanes(a: [u8; 16], b: [u8; 16]) -> (r: [u8; 16])
    ensures
        forall|i: int| 0 <= i < 16 ==> r@[i] == lane_sub(a@[i], b@[i]),
{
    u8x16::new(a).saturating_sub(u8x16::new(b)).to_array()
}

/// `wide::u8x16` subtraction: each lane of the result is the difference of the
/// two lanes. Lanes that would wrap are left out.
#[verifier::external_body]
fn difference_of_lanes(a: [u8; 16], b: [u8; 16]) -> (r: [u8; 16])
    requires
        forall|i: int| 0 <= i < 16 ==> b@[i] <= a@[i],
    ensures
        forall|i: int| 0 <= i < 16 ==> r@[i] == a@[i] - b@[i],
{
    (u8x16::new(a) - u8x16::new(b)).to_array()
}

const SEL_ADD_0: [u8; 16] = [40, 0, 0, 40, 0, 0, 40, 0, 0, 40, 0, 0, 40, 0, 0, 40];
const SEL_ADD_1: [u8; 16] = [0, 0, 40, 0, 0, 40, 0, 0, 40, 0, 0, 40, 0, 0, 40, 0];
const SEL_ADD_2: [u8; 16] = [0, 40, 0, 0, 40, 0, 0, 40, 0, 0, 40, 0, 0, 40, 0, 0];
const SEL_SUB_0: [u8; 16] = [0, 20, 60, 0, 20, 60, 0, 20, 60, 0, 20, 60, 0, 20, 60, 0];
const SEL_SUB_1: [u8; 16] = [20, 60, 0, 20, 60, 0, 20, 60, 0, 20, 60, 0, 20, 60, 0, 20];
const SEL_SUB_2: [u8; 16] = [60, 0, 20, 60, 0, 20, 60, 0, 20, 60, 0, 20, 60, 0, 20, 60];
const CMT_ADD_0: [u8; 16] = [0, 0, 20, 0, 0, 20, 0, 0, 20, 0, 0, 20, 0, 0, 20, 0];
const CMT_ADD_1: [u8; 16] = [0, 20, 0, 0, 20, 0, 0, 20, 0, 0, 20, 0, 0, 20, 0, 0];
const CMT_ADD_2: [u8; 16] = [20, 0, 0, 20, 0, 0, 20, 0, 0, 20, 0, 0, 20, 0, 0, 20];
const CMT_SUB_0: [u8; 16] = [15, 0, 0, 15, 0, 0, 15, 0, 0, 15, 0, 0, 15, 0, 0, 15];
const CMT_SUB_1: [u8; 16] = [0, 0, 15, 0, 0, 15, 0, 0, 15, 0, 0, 15, 0, 0, 15, 0];
const CMT_SUB_2: [u8; 16] = [0, 15, 0, 0, 15, 0, 0, 15, 0, 0, 15, 0, 0, 15, 0, 0];
const ONES: [u8; 16] = [255, 255, 255, 255, 255, 255, 255, 255, 255, 255, 255, 255, 255, 255, 255, 255];

/// Sixteen bytes of `row` from `at` on.
fn load_lanes(row: &[u8], at: usize) -> (r: [u8; 16])
    requires
        at + 16 <= row@.len(),
    ensures
        forall|i: int| 0 <= i < 16 ==> r@[i] == row@[at + i],
{
    let mut r: [u8; 16] = [0; 16];
    let len: usize = row.len();
    let mut i: usize = 0;
    while i < 16
        invariant
            i <= 16,
            at + 16 <= len,
            len == row@.len(),
            forall|j: int| 0 <= j < i ==> r@[j] == row@[at + j],
        decreases 16 - i,
    {
        r[i] = row[at + i];
        i += 1;
    }
    r
}

/// Writes sixteen bytes into `row` from `at` on.
fn store_lanes(row: &mut [u8], at: usize, v: [u8; 16])
    requires
        at + 16 <= old(row)@.len(),
    ensures
        final(row)@.len() == old(row)@.len(),
        forall|i: int| at <= i < at + 16 ==> #[trigger] final(row)@[i] == v@[i - at],
        forall|i: int| 0 <= i < old(row)@.len() && (i < at || at + 16 <= i) ==> final(row)@[i]
            == old(row)@[i],
{
    let len: usize = row.len();
    let mut i: usize = 0;
    while i < 16
        invariant
            i <= 16,
            at + 16 <= len,
            len == old(row)@.len(),
            row@.len() == old(row)@.len(),
            forall|j: int| at <= j < at + i ==> #[trigger] row@[j] == v@[j - at],
            forall|j: int| 0 <= j < old(row)@.len() && (j < at || at + i <= j) ==> row@[j]
                == old(row)@[j],
        decreases 16 - i,
    {
        row[at + i] = v[i];
        i += 1;
    }
}

/// Tints sixteen bytes whose first byte is of channel `phase`.
fn tint_lanes(v: [u8; 16], phase: usize, op: OverlayOp) -> (r: [u8; 16])
    requires
        phase == 0 || phase == 1 || phase == 2,
    ensures
        forall|i: int| 0 <= i < 16 ==> r@[i] == op.tint((phase + i) % 3, v@[i]),
{
    match op {
        OverlayOp::Comment => {
            if phase == 0 {
                sub_lanes(add_lanes(v, CMT_ADD_0), CMT_SUB_0)
            } else if phase == 1 {
                sub_lanes(add_lanes(v, CMT_ADD_1), CMT_SUB_1)
            } else {
                sub_lanes(add_lanes(v, CMT_ADD_2), CMT_SUB_2)
            }
        },
        OverlayOp::Selection => {
            if phase == 0 {
                sub_lanes(add_lanes(v, SEL_ADD_0), SEL_SUB_0)
            } else if phase == 1 {
                sub_lanes(add_lanes(v, SEL_ADD_1), SEL_SUB_1)
            } else {
                sub_lanes(add_lanes(v, SEL_ADD_2), SEL_SUB_2)
            }
        },
        OverlayOp::Cursor => difference_of_lanes(ONES, v),
    }
}

/// Tints one channel.
pub fn tint_channel(value: u8, channel: usize, op: OverlayOp) -> (r: u8)
    ensures
        r == op.tint(channel as int, value),
{
    match op {
        OverlayOp::Comment => if channel == 0 {
            value.saturating_sub(15)
        } else if channel == 2 {
            value.saturating_add(20)
        } else {
            value
        },
        OverlayOp::Selection => if channel == 0 {
            value.saturating_add(40)
        } else if channel == 1 {
            value.saturating_sub(20)
        } else if channel == 2 {
            value.saturating_sub(60)
        } else {
            value
        },
        OverlayOp::Cursor => 255 - value,
    }
}

/// Tints every whole pixel of a row of packed RGB bytes.
pub fn apply_row_simd(row: &mut [u8], op: OverlayOp)
    ensures
        final(row)@ == tinted_row(old(row)@, op),
{
    let len: usize = row.len();
    let simd_end: usize = len / 48 * 48;
    let mut at: usize = 0;
    while at < simd_end
        invariant
            len == old(row)@.len(),
            row@.len() == len,
            simd_end == len / 48 * 48,
            at <= simd_end,
            at % 48 == 0,
            forall|i: int| 0 <= i < at ==> row@[i] == op.tint(i % 3, old(row)@[i]),
            forall|i: int| at <= i < len ==> row@[i] == old(row)@[i],
        decreases simd_end - at,
    {
        let ghost before = row@;
        let v0 = tint_lanes(load_lanes(row, at), 0, op);
        let v1 = tint_lanes(load_lanes(row, at + 16), 1, op);
        let v2 = tint_lanes(load_lanes(row, at + 32), 2, op);
        store_lanes(row, at, v0);
        store_lanes(row, at + 16, v1);
        store_lanes(row, at + 32, v2);
        assert forall|i: int| 0 <= i < at + 48 implies row@[i] == op.tint(
            i % 3,
            old(row)@[i],
        ) by {
            if i < at {
                assert(row@[i] == before[i]);
            } else if i < at + 16 {
                assert(row@[i] == v0@[i - at]);
                assert(i % 3 == (i - at) % 3);
            } else if i < at + 32 {
                assert(row@[i] == v1@[i - at - 16]);
                assert(i % 3 == (1 + (i - at - 16)) % 3);
            } else {
                assert(row@[i] == v2@[i - at - 32]);
                assert(i % 3 == (2 + (i - at - 32)) % 3);
            }
        }
        at += 48;
    }
    let px_end: usize = len / 3 * 3;
    while at < px_end
        invariant
            len == old(row)@.len(),
            row@.len() == len,
            px_end == len / 3 * 3,
            at <= px_end,
            at % 3 == 0,
            forall|i: int| 0 <= i < at ==> row@[i] == op.tint(i % 3, old(row)@[i]),
            forall|i: int| at <= i < len ==> row@[i] == old(row)@[i],
        decreases px_end - at,
    {
        row[at] = tint_channel(row[at], 0, op);
        row[at + 1] = tint_channel(row[at + 1], 1, op);
        row[at + 2] = tint_channel(row[at + 2], 2, op);
        at += 3;
    }
}

} // verus!
