//! Compact colour identifiers and packed per-cell records for the rendering
//! boundary.
//!
//! A colour is carried as four 8-bit channels. It can be written as a hex
//! identifier string (`#RRGGBB`, or `#RRGGBBAA` when translucent), read back
//! from such a string with a white fallback for anything ill-formed, or
//! packed into a single 32-bit word. The host converts between its own
//! floating-point channels and these bytes.

use vstd::prelude::*;

verus! {

/// `#`.
pub const B_HASH: u8 = 35;

/// The upper-case hex digit byte of a value below sixteen.
pub open spec fn hex_digit(d: int) -> u8 {
    if d < 10 {
        (48 + d) as u8
    } else {
        (55 + d) as u8
    }
}

/// The two hex digit bytes of one channel.
pub open spec fn hex_byte(b: u8) -> Seq<u8> {
    seq![hex_digit(b as int / 16), hex_digit(b as int % 16)]
}

/// The identifier of a colour: `#RRGGBB`, with the alpha channel appended
/// only when it is not fully opaque.
pub open spec fn color_id_of(r: u8, g: u8, b: u8, a: u8) -> Seq<u8> {
    if a == 255 {
        seq![B_HASH] + hex_byte(r) + hex_byte(g) + hex_byte(b)
    } else {
        seq![B_HASH] + hex_byte(r) + hex_byte(g) + hex_byte(b) + hex_byte(a)
    }
}

/// One hex digit byte of a value below sixteen, executably.
fn hex_digit_exec(d: u8) -> (r: u8)
    requires
        d < 16,
    ensures
        r == hex_digit(d as int),
{
    if d < 10 {
        48 + d
    } else {
        55 + d
    }
}

/// Append one channel as two hex digits.
fn push_hex_byte(out: &mut Vec<u8>, b: u8)
    ensures
        final(out)@ == old(out)@ + hex_byte(b),
{
    out.push(hex_digit_exec(b / 16));
    out.push(hex_digit_exec(b % 16));
    proof {
        assert(final(out)@ =~= old(out)@ + hex_byte(b));
    }
}

/// Write a colour as a compact hex identifier: `#RRGGBB`, or `#RRGGBBAA`
/// when the alpha channel is not fully opaque.
pub fn color_to_id(r: u8, g: u8, b: u8, a: u8) -> (id: Vec<u8>)
    ensures
        id@ == color_id_of(r, g, b, a),
{
    let mut out: Vec<u8> = Vec::new();
    out.push(B_HASH);
    push_hex_byte(&mut out, r);
    push_hex_byte(&mut out, g);
    push_hex_byte(&mut out, b);
    if a != 255 {
        push_hex_byte(&mut out, a);
    }
    proof {
        assert(out@ =~= color_id_of(r, g, b, a));
    }
    out
}

/// Whether a byte is a hex digit, upper or lower case.
pub open spec fn is_hex(c: u8) -> bool {
    (48 <= c <= 57) || (65 <= c <= 70) || (97 <= c <= 102)
}

/// The value of a hex digit byte.
pub open spec fn nib(c: u8) -> int {
    if 48 <= c <= 57 {
        c - 48
    } else if 65 <= c <= 70 {
        c - 55
    } else {
        c - 87
    }
}

/// An identifier with every leading `#` removed.
pub open spec fn strip_hashes(s: Seq<u8>) -> Seq<u8>
    decreases s.len(),
{
    if s.len() > 0 && s[0] == B_HASH {
        strip_hashes(s.drop_first())
    } else {
        s
    }
}

pub open spec fn all_hex(s: Seq<u8>) -> bool {
    forall|j: int| 0 <= j < s.len() ==> is_hex(#[trigger] s[j])
}

/// The channel at pair position `i` of a hex digit string.
pub open spec fn hex_pair(s: Seq<u8>, i: int) -> u8 {
    (nib(s[2 * i]) * 16 + nib(s[2 * i + 1])) as u8
}

/// The colour an identifier denotes: six hex digits after the hashes give an
/// opaque colour, eight give one with alpha, and anything else falls back to
/// opaque white.
pub open spec fn id_color_of(s: Seq<u8>) -> (u8, u8, u8, u8) {
    let t = strip_hashes(s);
    if t.len() == 6 && all_hex(t) {
        (hex_pair(t, 0), hex_pair(t, 1), hex_pair(t, 2), 255u8)
    } else if t.len() == 8 && all_hex(t) {
        (hex_pair(t, 0), hex_pair(t, 1), hex_pair(t, 2), hex_pair(t, 3))
    } else {
        (255u8, 255u8, 255u8, 255u8)
    }
}

/// Read a colour back from a hex identifier; ill-formed identifiers give
/// opaque white.
pub fn id_to_color(id: &Vec<u8>) -> (c: (u8, u8, u8, u8))
    ensures
        c == id_color_of(id@),
{
    let mut start: usize = 0;
    proof {
        assert(id@.skip(0) =~= id@);
    }
    while start < id.len() && id[start] == B_HASH
        invariant
            start <= id@.len(),
            strip_hashes(id@) == strip_hashes(id@.skip(start as int)),
        decreases id@.len() - start,
    {
        proof {
            assert(id@.skip(start as int).drop_first() =~= id@.skip(start + 1));
        }
        start += 1;
    }
    let t = crate::text::sub_vec(id, start, id.len());
    proof {
        assert(t@ =~= id@.skip(start as int));
        if start < id@.len() {
            assert(strip_hashes(t@) == t@);
        } else {
            assert(t@ =~= Seq::<u8>::empty());
        }
        assert(strip_hashes(id@) == t@);
    }
    if !(t.len() == 6 || t.len() == 8) {
        return (255, 255, 255, 255);
    }
    if !check_all_hex(&t) {
        return (255, 255, 255, 255);
    }
    let r = hex_pair_exec(&t, 0);
    let g = hex_pair_exec(&t, 1);
    let b = hex_pair_exec(&t, 2);
    if t.len() == 8 {
        let a = hex_pair_exec(&t, 3);
        (r, g, b, a)
    } else {
        (r, g, b, 255)
    }
}

/// Whether every byte is a hex digit.
fn check_all_hex(b: &Vec<u8>) -> (r: bool)
    ensures
        r == all_hex(b@),
{
    let mut i: usize = 0;
    while i < b.len()
        invariant
            i <= b@.len(),
            forall|j: int| 0 <= j < i ==> is_hex(#[trigger] b@[j]),
        decreases b@.len() - i,
    {
        let c = b[i];
        if !((48 <= c && c <= 57) || (65 <= c && c <= 70) || (97 <= c && c <= 102)) {
            return false;
        }
        i += 1;
    }
    true
}

/// Read the channel at pair position `i`.
fn hex_pair_exec(t: &Vec<u8>, i: usize) -> (r: u8)
    requires
        i < 4,
        2 * i + 1 < t@.len(),
        all_hex(t@),
    ensures
        r == hex_pair(t@, i as int),
{
    let hi = t[2 * i];
    let lo = t[2 * i + 1];
    let hv: u8 = if 48 <= hi && hi <= 57 {
        hi - 48
    } else if 65 <= hi && hi <= 70 {
        hi - 55
    } else {
        hi - 87
    };
    let lv: u8 = if 48 <= lo && lo <= 57 {
        lo - 48
    } else if 65 <= lo && lo <= 70 {
        lo - 55
    } else {
        lo - 87
    };
    hv * 16 + lv
}

/// Pack four channels into one 32-bit word: red in the top byte, then
/// green, blue, alpha.
pub fn color_to_u32(r: u8, g: u8, b: u8, a: u8) -> (c: u32)
    ensures
        c == ((r as u32) << 24) | ((g as u32) << 16) | ((b as u32) << 8) | (a as u32),
{
    ((r as u32) << 24) | ((g as u32) << 16) | ((b as u32) << 8) | (a as u32)
}

/// Unpack a 32-bit word into its four channels.
pub fn u32_to_color(c: u32) -> (t: (u8, u8, u8, u8))
    ensures
        t.0 as u32 == (c >> 24) & 0xff,
        t.1 as u32 == (c >> 16) & 0xff,
        t.2 as u32 == (c >> 8) & 0xff,
        t.3 as u32 == c & 0xff,
{
    proof {
        assert((c >> 24) & 0xff < 256 && (c >> 16) & 0xff < 256 && (c >> 8) & 0xff < 256 && c
            & 0xff < 256) by (bit_vector);
    }
    (((c >> 24) & 0xff) as u8, ((c >> 16) & 0xff) as u8, ((c >> 8) & 0xff) as u8, (c & 0xff) as u8)
}

/// Packing four channels and unpacking them again returns each channel
/// unchanged.
pub proof fn lemma_color_u32_roundtrip(r: u8, g: u8, b: u8, a: u8)
    ensures
        ((((r as u32) << 24) | ((g as u32) << 16) | ((b as u32) << 8) | (a as u32)) >> 24) & 0xff
            == r as u32,
        ((((r as u32) << 24) | ((g as u32) << 16) | ((b as u32) << 8) | (a as u32)) >> 16) & 0xff
            == g as u32,
        ((((r as u32) << 24) | ((g as u32) << 16) | ((b as u32) << 8) | (a as u32)) >> 8) & 0xff
            == b as u32,
        (((r as u32) << 24) | ((g as u32) << 16) | ((b as u32) << 8) | (a as u32)) & 0xff
            == a as u32,
{
    let rv = r as u32;
    let gv = g as u32;
    let bv = b as u32;
    let av = a as u32;
    assert(((rv << 24) | (gv << 16) | (bv << 8) | av) >> 24 == rv && (((rv << 24) | (gv << 16) | (
    bv << 8) | av) >> 16) & 0xff == gv && (((rv << 24) | (gv << 16) | (bv << 8) | av) >> 8) & 0xff
        == bv && ((rv << 24) | (gv << 16) | (bv << 8) | av) & 0xff == av) by (bit_vector)
        requires
            rv < 256,
            gv < 256,
            bv < 256,
            av < 256,
    ;
    assert(rv & 0xff == rv) by (bit_vector)
        requires
            rv < 256,
    ;
}

/// One packed per-cell record for a rendering buffer: the raw bit patterns
/// of the three position coordinates, and a word holding the colour's three
/// channels in its low bits with the cell identifier above them.
#[derive(Clone, Copy, Debug, Default)]
pub struct CellUVec4 {
    /// Bit pattern of the x position.
    pub x: u32,
    /// Bit pattern of the y position.
    pub y: u32,
    /// Bit pattern of the z position.
    pub z: u32,
    /// Packed red, green, blue and identifier bits.
    pub w: u32,
}

impl CellUVec4 {
    /// Pack one cell record from position bit patterns, a colour, and an
    /// identifier; the identifier occupies the bits above the three colour
    /// channels.
    pub fn new(x: u32, y: u32, z: u32, rgb: [u8; 3], id: u32) -> (r: CellUVec4)
        ensures
            r.x == x,
            r.y == y,
            r.z == z,
            r.w == (id << 24) | ((rgb@[2] as u32) << 16) | ((rgb@[1] as u32) << 8) | (
            rgb@[0] as u32),
    {
        let color_bits: u32 = (rgb[0] as u32) | ((rgb[1] as u32) << 8) | ((rgb[2] as u32) << 16);
        let w = (id << 24) | color_bits;
        proof {
            let r0 = rgb@[0] as u32;
            let r1 = rgb@[1] as u32;
            let r2 = rgb@[2] as u32;
            assert((id << 24) | (r0 | (r1 << 8) | (r2 << 16)) == (id << 24) | (r2 << 16) | (r1
                << 8) | r0) by (bit_vector);
        }
        CellUVec4 { x, y, z, w }
    }
}

} // verus!
