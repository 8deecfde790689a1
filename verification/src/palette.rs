//! The brush palette and the colours of peers.

use vstd::prelude::*;

use crate::ids::{be_bytes, id_bytes};
use crate::types::{ClientId, Rgba};

verus! {

/// How many brush colours the toolbar shows.
pub const PALETTE_LEN: usize = 10;

/// Curated brush palette shown as swatches in the toolbar.
pub open spec fn palette_colors() -> Seq<Rgba> {
    seq![
        Rgba::of_hex(0x1e1e2e),
        Rgba::of_hex(0xf38ba8),
        Rgba::of_hex(0xfab387),
        Rgba::of_hex(0xf9e2af),
        Rgba::of_hex(0xa6e3a1),
        Rgba::of_hex(0x94e2d5),
        Rgba::of_hex(0x89b4fa),
        Rgba::of_hex(0xcba6f7),
        Rgba::of_hex(0xf5c2e7),
        Rgba::of_hex(0xffffff),
    ]
}

/// Curated brush palette shown as swatches in the toolbar.
pub fn palette() -> (r: [Rgba; 10])
    ensures
        r@ == palette_colors(),
{
    let r = [
        Rgba::from_hex(0x1e1e2e),
        Rgba::from_hex(0xf38ba8),
        Rgba::from_hex(0xfab387),
        Rgba::from_hex(0xf9e2af),
        Rgba::from_hex(0xa6e3a1),
        Rgba::from_hex(0x94e2d5),
        Rgba::from_hex(0x89b4fa),
        Rgba::from_hex(0xcba6f7),
        Rgba::from_hex(0xf5c2e7),
        Rgba::from_hex(0xffffff),
    ];
    assert(r@ =~= palette_colors());
    r
}

/// Bytes mixed into one number of thirty-two bits.
pub open spec fn mix(bytes: Seq<u8>) -> int
    decreases bytes.len(),
{
    if bytes.len() == 0 {
        0
    } else {
        (mix(bytes.drop_last()) * 31 + bytes.last()) % 0x1_0000_0000
    }
}

/// The presence colour of a peer. The near-black and white entries of the
/// palette are skipped: they are poor cursor colours.
pub open spec fn presence(id: ClientId) -> Rgba {
    palette_colors()[1 + mix(be_bytes(id as nat, 16)) % (PALETTE_LEN - 2)]
}

/// Pick a stable presence colour for a peer from its id.
pub fn presence_color(id: ClientId) -> (r: Rgba)
    ensures
        r == presence(id),
        palette_colors().subrange(1, PALETTE_LEN - 1).contains(r),
{
    let bytes = id_bytes(id);
    let ghost all = bytes@;
    let mut h: u64 = 0;
    let mut i: usize = 0;
    while i < 16
        invariant
            i <= 16,
            bytes@ == all,
            all.len() == 16,
            h == mix(all.take(i as int)),
            h < 0x1_0000_0000,
        decreases 16 - i,
    {
        proof {
            assert(all.take(i + 1).drop_last() =~= all.take(i as int));
        }
        h = (h * 31 + bytes[i] as u64) % 0x1_0000_0000;
        i += 1;
    }
    assert(all.take(16) =~= all);
    let pick: usize = 1 + (h % 8) as usize;
    let r = palette()[pick];
    assert(palette_colors().subrange(1, PALETTE_LEN - 1)[pick - 1] == r);
    r
}

} // verus!
