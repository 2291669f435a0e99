//! Art-Net output: the ArtDMX packet, and the mapping of a 128 x 128 frame
//! onto DMX universes, both for the physical wall (64 strips of 259 LEDs,
//! two universes per strip, four controllers) and for the simulator (two
//! universes per column).
use vstd::prelude::*;
use vstd::string::StringExecFns;
use crate::text::{decimal, push_decimal};

verus! {

/// The 18-byte ArtDMX header for `universe`: "Art-Net", opcode 0x5000,
/// protocol version 14, no sequence, physical port 0, the universe in little
/// endian, and a data length of 512.
pub open spec fn artnet_header(universe_lo: u8, universe_hi: u8) -> Seq<u8> {
    seq![65u8, 114u8, 116u8, 45u8, 78u8, 101u8, 116u8, 0u8, 0x00u8, 0x50u8, 0u8, 14u8, 0u8, 0u8, universe_lo, universe_hi, 0x02u8, 0x00u8]
}

/// `dmx` cut or padded with zeros to the 512 channels of a universe.
pub open spec fn dmx_512(dmx: Seq<u8>) -> Seq<u8> {
    Seq::new(512, |i: int| if i < dmx.len() { dmx[i] } else { 0u8 })
}

/// Appends the ArtDMX header with the two universe bytes given.
fn push_header(out: &mut Vec<u8>, lo: u8, hi: u8)
    ensures
        final(out)@ == old(out)@ + artnet_header(lo, hi),
{
    out.push(65);
    out.push(114);
    out.push(116);
    out.push(45);
    out.push(78);
    out.push(101);
    out.push(116);
    out.push(0);
    out.push(0x00);
    out.push(0x50);
    out.push(0);
    out.push(14);
    out.push(0);
    out.push(0);
    out.push(lo);
    out.push(hi);
    out.push(0x02);
    out.push(0x00);
    assert(final(out)@ =~= old(out)@ + artnet_header(lo, hi));
}

/// The ArtDMX header for `universe`; a universe past 65535 keeps only its
/// second byte in the high field.
pub fn create_artnet_header(universe: usize) -> (h: Vec<u8>)
    ensures
        h@ == artnet_header((universe % 256) as u8, ((universe / 256) % 256) as u8),
{
    let mut h: Vec<u8> = Vec::new();
    push_header(&mut h, (universe % 256) as u8, ((universe / 256) % 256) as u8);
    h
}

/// The ArtDMX packet carrying `dmx_data` (cut or padded to 512 channels) to
/// `universe`.
pub fn create_artnet_packet(universe: u16, dmx_data: &[u8]) -> (p: Vec<u8>)
    ensures
        p@ == artnet_header((universe % 256) as u8, (universe / 256) as u8) + dmx_512(dmx_data@),
{
    let mut packet: Vec<u8> = Vec::new();
    push_header(&mut packet, (universe % 256) as u8, (universe / 256) as u8);
    let ghost head = packet@;
    let mut i: usize = 0;
    while i < 512
        invariant
            i <= 512,
            packet@ == head + dmx_512(dmx_data@).subrange(0, i as int),
        decreases 512 - i,
    {
        let b = if i < dmx_data.len() { dmx_data[i] } else { 0 };
        packet.push(b);
        i = i + 1;
        assert(packet@ =~= head + dmx_512(dmx_data@).subrange(0, i as int));
    }
    assert(dmx_512(dmx_data@).subrange(0, 512) =~= dmx_512(dmx_data@));
    packet
}

/// Number of DMX slots a strip universe drives: 170 in the first, 89 in the
/// second.
pub open spec fn band_slots(uni_in_band: int) -> int {
    if uni_in_band == 0 { 170 } else { 89 }
}

/// The frame pixel (column, row) shown by slot `s` of universe
/// `uni_in_band` of a strip whose rising half is column `col_up` and
/// falling half column `col_down`: the first universe shows the rising half
/// (130 LEDs spread over the 128 rows, bottom first) then the first 40 LEDs
/// of the falling half; the second universe the other 89 LEDs of the falling
/// half (129 LEDs spread over the rows, top first).
pub open spec fn band_slot_pixel(uni_in_band: int, col_up: int, col_down: int, s: int) -> (int, int) {
    if uni_in_band == 0 {
        if s < 130 { (col_up, 127 - s * 128 / 130) } else { (col_down, (s - 130) * 128 / 129) }
    } else {
        (col_down, (s + 40) * 128 / 129)
    }
}

/// Byte `c` of the pixel at (`x`, `y`) of a 128-pixel-wide frame, or `none`
/// when the pixel lies past the end of the frame.
pub open spec fn pixel_byte_or(frame: Seq<u8>, x: int, y: int, c: int, none: u8) -> u8 {
    let idx = (y * 128 + x) * 3;
    if idx + 2 < frame.len() { frame[idx + c] } else { none }
}

/// `dmx` after the strip mapping: each driven slot takes the colour of its
/// pixel when that pixel is in the frame; every other byte is left as it
/// was.  Nothing changes when either column is off the matrix.
pub open spec fn mapped_band(dmx: Seq<u8>, frame: Seq<u8>, col_up: int, col_down: int, uni_in_band: int) -> Seq<u8> {
    if col_up >= 128 || col_down >= 128 {
        dmx
    } else {
        Seq::new(dmx.len(), |j: int|
            if j / 3 < band_slots(uni_in_band) {
                let p = band_slot_pixel(uni_in_band, col_up, col_down, j / 3);
                pixel_byte_or(frame, p.0, p.1, j % 3, dmx[j])
            } else {
                dmx[j]
            })
    }
}

/// `dmx` with slots `0..k` of the strip mapping applied.
pub open spec fn mapped_band_upto(dmx: Seq<u8>, frame: Seq<u8>, col_up: int, col_down: int, uni_in_band: int, k: int) -> Seq<u8> {
    Seq::new(dmx.len(), |j: int|
        if j / 3 < k {
            let p = band_slot_pixel(uni_in_band, col_up, col_down, j / 3);
            pixel_byte_or(frame, p.0, p.1, j % 3, dmx[j])
        } else {
            dmx[j]
        })
}

/// Writes slot `s` of the strip mapping into `dmx`.
fn write_slot(dmx: &mut Vec<u8>, frame: &[u8], x: usize, y: usize, s: usize, ghost_k: Ghost<int>, ghost_orig: Ghost<Seq<u8>>, uni_in_band: usize, col_up: usize, col_down: usize)
    requires
        x < 128,
        y < 128,
        3 * s + 2 < old(dmx)@.len(),
        s == ghost_k@,
        ghost_orig@.len() == old(dmx)@.len(),
        band_slot_pixel(uni_in_band as int, col_up as int, col_down as int, s as int) == (x as int, y as int),
        old(dmx)@ == mapped_band_upto(ghost_orig@, frame@, col_up as int, col_down as int, uni_in_band as int, s as int),
    ensures
        final(dmx)@ == mapped_band_upto(ghost_orig@, frame@, col_up as int, col_down as int, uni_in_band as int, s + 1),
{
    let pixel_idx = (y * 128 + x) * 3;
    if pixel_idx + 2 < frame.len() {
        dmx.set(3 * s, frame[pixel_idx]);
        dmx.set(3 * s + 1, frame[pixel_idx + 1]);
        dmx.set(3 * s + 2, frame[pixel_idx + 2]);
    }
    assert(final(dmx)@ =~= mapped_band_upto(ghost_orig@, frame@, col_up as int, col_down as int, uni_in_band as int, s + 1));
}

/// Writes into `dmx` the colours universe `uni_in_band` of the strip with
/// columns `col_up` and `col_down` must show (see `mapped_band`).
pub fn map_pixels_to_band(dmx_data: &mut Vec<u8>, frame: &[u8], col_up: usize, col_down: usize, uni_in_band: usize)
    requires
        old(dmx_data)@.len() >= 510,
    ensures
        final(dmx_data)@ == mapped_band(old(dmx_data)@, frame@, col_up as int, col_down as int, uni_in_band as int),
{
    if col_up >= 128 || col_down >= 128 {
        return;
    }
    let ghost orig = dmx_data@;
    assert(dmx_data@ =~= mapped_band_upto(orig, frame@, col_up as int, col_down as int, uni_in_band as int, 0));
    if uni_in_band == 0 {
        let mut led: usize = 0;
        while led < 130
            invariant
                led <= 130,
                col_up < 128,
                col_down < 128,
                uni_in_band == 0,
                orig.len() >= 510,
                dmx_data@ == mapped_band_upto(orig, frame@, col_up as int, col_down as int, 0, led as int),
            decreases 130 - led,
        {
            let y = 127 - (led * 128 / 130);
            write_slot(dmx_data, frame, col_up, y, led, Ghost(led as int), Ghost(orig), uni_in_band, col_up, col_down);
            led = led + 1;
        }
        let mut led: usize = 0;
        while led < 40
            invariant
                led <= 40,
                col_up < 128,
                col_down < 128,
                uni_in_band == 0,
                orig.len() >= 510,
                dmx_data@ == mapped_band_upto(orig, frame@, col_up as int, col_down as int, 0, 130 + led),
            decreases 40 - led,
        {
            let y = led * 128 / 129;
            write_slot(dmx_data, frame, col_down, y, 130 + led, Ghost(130 + led as int), Ghost(orig), uni_in_band, col_up, col_down);
            led = led + 1;
        }
    } else {
        let mut led: usize = 40;
        while led < 129
            invariant
                40 <= led <= 129,
                col_up < 128,
                col_down < 128,
                uni_in_band != 0,
                orig.len() >= 510,
                dmx_data@ == mapped_band_upto(orig, frame@, col_up as int, col_down as int, uni_in_band as int, led - 40),
            decreases 129 - led,
        {
            let y = led * 128 / 129;
            write_slot(dmx_data, frame, col_down, y, led - 40, Ghost(led - 40), Ghost(orig), uni_in_band, col_up, col_down);
            led = led + 1;
        }
    }
    assert(dmx_data@ =~= mapped_band(orig, frame@, col_up as int, col_down as int, uni_in_band as int));
}

} // verus!

verus! {

/// The 512 channels the simulator gets for universe `uni_in_col` (0 or 1)
/// of column `col`: 64 pixels of the column, bottom-up in even columns and
/// top-down in odd ones, black where the frame is too short.
pub open spec fn simulator_dmx(frame: Seq<u8>, col: int, uni_in_col: int) -> Seq<u8> {
    Seq::new(512, |j: int|
        if j / 3 < 64 {
            let pixel = uni_in_col * 64 + j / 3;
            let y = if col % 2 == 0 { 127 - pixel } else { pixel };
            pixel_byte_or(frame, col, y, j % 3, 0u8)
        } else {
            0u8
        })
}

/// What the simulator's universes show: channel `3 s + c` of universe
/// `uni_in_col` of column `col` is byte `c` of the pixel of column `col` at
/// row `127 - (64 uni_in_col + s)` in an even column and row
/// `64 uni_in_col + s` in an odd one, for each of the 64 slots `s` (black
/// when the frame is too short); the other channels are zero.  The two
/// universes of a column together show all 128 of its rows.
pub proof fn lemma_simulator_rows(frame: Seq<u8>, col: int, uni_in_col: int)
    requires
        0 <= col < 128,
        0 <= uni_in_col < 2,
    ensures
        simulator_dmx(frame, col, uni_in_col).len() == 512,
        forall|s: int, c: int| 0 <= s < 64 && 0 <= c < 3 ==> {
            let y = if col % 2 == 0 { 127 - (64 * uni_in_col + s) } else { 64 * uni_in_col + s };
            let idx = (y * 128 + col) * 3;
            #[trigger] simulator_dmx(frame, col, uni_in_col)[3 * s + c] == if idx + 2 < frame.len() { frame[idx + c] } else { 0u8 }
        },
        forall|j: int| 192 <= j < 512 ==> #[trigger] simulator_dmx(frame, col, uni_in_col)[j] == 0u8,
{
    assert forall|s: int, c: int| 0 <= s < 64 && 0 <= c < 3 implies {
        let y = if col % 2 == 0 { 127 - (64 * uni_in_col + s) } else { 64 * uni_in_col + s };
        let idx = (y * 128 + col) * 3;
        #[trigger] simulator_dmx(frame, col, uni_in_col)[3 * s + c] == if idx + 2 < frame.len() { frame[idx + c] } else { 0u8 }
    } by {
        assert((3 * s + c) / 3 == s && (3 * s + c) % 3 == c);
    }
}

/// The row slot `s` of universe `u` of column `col` shows on the
/// simulator: counted from the bottom in even columns, from the top in odd
/// ones.
pub open spec fn serpentine_row(col: int, u: int, s: int) -> int {
    if col % 2 == 0 { 127 - (64 * u + s) } else { 64 * u + s }
}

/// Every row of a column is shown by a slot of one of the column's
/// two simulator universes.
pub proof fn lemma_simulator_covers_column(frame: Seq<u8>, col: int, y: int)
    requires
        0 <= col < 128,
        0 <= y < 128,
    ensures
        exists|u: int, s: int| 0 <= u < 2 && 0 <= s < 64
            && #[trigger] serpentine_row(col, u, s) == y
            && forall|c: int| 0 <= c < 3 ==> #[trigger] simulator_dmx(frame, col, u)[3 * s + c]
                == if (y * 128 + col) * 3 + 2 < frame.len() { frame[(y * 128 + col) * 3 + c] } else { 0u8 },
{
    let r = if col % 2 == 0 { 127 - y } else { y };
    let u = r / 64;
    let s = r % 64;
    lemma_simulator_rows(frame, col, u);
    assert(serpentine_row(col, u, s) == y);
    assert forall|c: int| 0 <= c < 3 implies #[trigger] simulator_dmx(frame, col, u)[3 * s + c]
        == if (y * 128 + col) * 3 + 2 < frame.len() { frame[(y * 128 + col) * 3 + c] } else { 0u8 } by {
    }
}

/// The simulator's universe `k` (0..256) is numbered `k` and shows universe
/// `k % 2` of column `k / 2` as `lemma_simulator_rows` describes it.
pub proof fn lemma_simulator_universes_rows(frame: Seq<u8>)
    ensures
        simulator_universes(frame).len() == 256,
        forall|k: int, s: int, c: int| 0 <= k < 256 && 0 <= s < 64 && 0 <= c < 3 ==> {
            let col = k / 2;
            let y = if col % 2 == 0 { 127 - (64 * (k % 2) + s) } else { 64 * (k % 2) + s };
            let idx = (y * 128 + col) * 3;
            &&& simulator_universes(frame)[k].0 == k
            &&& #[trigger] simulator_universes(frame)[k].1[3 * s + c] == if idx + 2 < frame.len() { frame[idx + c] } else { 0u8 }
        },
{
    assert forall|k: int, s: int, c: int| 0 <= k < 256 && 0 <= s < 64 && 0 <= c < 3 implies {
        let col = k / 2;
        let y = if col % 2 == 0 { 127 - (64 * (k % 2) + s) } else { 64 * (k % 2) + s };
        let idx = (y * 128 + col) * 3;
        &&& simulator_universes(frame)[k].0 == k
        &&& #[trigger] simulator_universes(frame)[k].1[3 * s + c] == if idx + 2 < frame.len() { frame[idx + c] } else { 0u8 }
    } by {
        lemma_simulator_rows(frame, k / 2, k % 2);
    }
}

/// The channels of universe `uni_in_col` of column `col` for the simulator
/// (see `simulator_dmx`).
pub fn simulator_universe_data(frame: &[u8], col: usize, uni_in_col: usize) -> (dmx: Vec<u8>)
    requires
        col < 128,
        uni_in_col < 2,
    ensures
        dmx@ == simulator_dmx(frame@, col as int, uni_in_col as int),
        dmx@.len() == 512,
        forall|s: int, c: int| 0 <= s < 64 && 0 <= c < 3 ==> {
            let y = if col % 2 == 0 { 127 - (64 * uni_in_col + s) } else { 64 * uni_in_col + s };
            let idx = (y * 128 + col) * 3;
            #[trigger] dmx@[3 * s + c] == if idx + 2 < frame@.len() { frame@[idx + c] } else { 0u8 }
        },
{
    proof {
        lemma_simulator_rows(frame@, col as int, uni_in_col as int);
    }
    let mut dmx: Vec<u8> = Vec::new();
    let start_pixel = uni_in_col * 64;
    let mut j: usize = 0;
    while j < 512
        invariant
            j <= 512,
            col < 128,
            uni_in_col < 2,
            start_pixel == uni_in_col * 64,
            dmx@ == simulator_dmx(frame@, col as int, uni_in_col as int).subrange(0, j as int),
        decreases 512 - j,
    {
        let led_idx = j / 3;
        let b: u8 = if led_idx < 64 {
            let pixel = start_pixel + led_idx;
            let y = if col % 2 == 0 { 127 - pixel } else { pixel };
            let pixel_idx = (y * 128 + col) * 3;
            if pixel_idx + 2 < frame.len() { frame[pixel_idx + j % 3] } else { 0 }
        } else {
            0
        };
        dmx.push(b);
        j = j + 1;
        assert(dmx@ =~= simulator_dmx(frame@, col as int, uni_in_col as int).subrange(0, j as int));
    }
    assert(simulator_dmx(frame@, col as int, uni_in_col as int).subrange(0, 512) =~= simulator_dmx(frame@, col as int, uni_in_col as int));
    dmx
}

/// The universes the simulator receives for a frame: universe `k` (0..256)
/// carries universe `k % 2` of column `k / 2`.
pub open spec fn simulator_universes(frame: Seq<u8>) -> Seq<(u16, Seq<u8>)> {
    Seq::new(256, |k: int| (k as u16, simulator_dmx(frame, k / 2, k % 2)))
}

/// The universe numbers and channels of a frame for the simulator (see
/// `simulator_universes`), in sending order.
pub fn simulator_frame_universes(frame: &[u8]) -> (out: Vec<(u16, Vec<u8>)>)
    ensures
        out@.map_values(|u: (u16, Vec<u8>)| (u.0, u.1@)) == simulator_universes(frame@),
{
    let mut out: Vec<(u16, Vec<u8>)> = Vec::new();
    let mut universe: u16 = 0;
    let mut col: usize = 0;
    while col < 128
        invariant
            col <= 128,
            universe == 2 * col,
            out@.map_values(|u: (u16, Vec<u8>)| (u.0, u.1@)) == simulator_universes(frame@).subrange(0, 2 * col as int),
        decreases 128 - col,
    {
        let mut uni_in_col: usize = 0;
        while uni_in_col < 2
            invariant
                col < 128,
                uni_in_col <= 2,
                universe == 2 * col + uni_in_col,
                out@.map_values(|u: (u16, Vec<u8>)| (u.0, u.1@)) == simulator_universes(frame@).subrange(0, universe as int),
            decreases 2 - uni_in_col,
        {
            let dmx = simulator_universe_data(frame, col, uni_in_col);
            let ghost prev = out@;
            let ghost item = (universe, dmx@);
            assert((universe as int) / 2 == col && (universe as int) % 2 == uni_in_col);
            assert(item == simulator_universes(frame@)[universe as int]);
            out.push((universe, dmx));
            assert(out@.map_values(|u: (u16, Vec<u8>)| (u.0, u.1@)) =~= prev.map_values(|u: (u16, Vec<u8>)| (u.0, u.1@)).push(item));
            assert(out@.map_values(|u: (u16, Vec<u8>)| (u.0, u.1@)) =~= simulator_universes(frame@).subrange(0, universe + 1));
            universe = universe + 1;
            uni_in_col = uni_in_col + 1;
        }
        col = col + 1;
    }
    assert(simulator_universes(frame@).subrange(0, 256) =~= simulator_universes(frame@));
    out
}

/// The 512 channels universe `uni_in_band` of physical strip `band` (0..64)
/// carries: its columns `2 band` and `2 band + 1` mapped onto zeros.
pub open spec fn production_dmx(frame: Seq<u8>, band: int, uni_in_band: int) -> Seq<u8> {
    mapped_band(Seq::new(512, |i: int| 0u8), frame, 2 * band, 2 * band + 1, uni_in_band)
}

/// The universes of a frame for the physical wall: universe `k` (0..128)
/// goes to controller `k / 32` and carries universe `k % 2` of strip `k / 2`.
pub open spec fn production_universes(frame: Seq<u8>) -> Seq<(usize, u16, Seq<u8>)> {
    Seq::new(128, |k: int| ((k / 32) as usize, k as u16, production_dmx(frame, k / 2, k % 2)))
}

/// What the physical wall's universes carry: universe `k` (0..128) goes to
/// controller `k / 32`, is numbered `k`, and carries half `k % 2` of
/// physical strip `b = k / 2`, made of columns `2 b` (rising) and `2 b + 1`
/// (falling).  In the first half, slot `s` shows column `2 b` at row
/// `127 - 128 s / 130` for `s < 130`, then column `2 b + 1` at row
/// `128 (s - 130) / 129` up to slot 170; in the second half, slot `s` shows
/// column `2 b + 1` at row `128 (s + 40) / 129` up to slot 89.  Channel
/// `3 s + c` is byte `c` of that pixel (zero when the frame is too short),
/// and every other channel is zero.
pub proof fn lemma_production_strips(frame: Seq<u8>)
    ensures
        production_universes(frame).len() == 128,
        forall|k: int| 0 <= k < 128 ==> {
            &&& (#[trigger] production_universes(frame)[k]).0 == k / 32
            &&& production_universes(frame)[k].1 == k
            &&& production_universes(frame)[k].2.len() == 512
        },
        forall|k: int, j: int| 0 <= k < 128 && 0 <= j < 512 ==> {
            let b = k / 2;
            let s = j / 3;
            let px: (int, int) = if k % 2 == 0 {
                if s < 130 { (2 * b, 127 - s * 128 / 130) } else { (2 * b + 1, (s - 130) * 128 / 129) }
            } else {
                (2 * b + 1, (s + 40) * 128 / 129)
            };
            let shown = if k % 2 == 0 { s < 170 } else { s < 89 };
            let idx = (px.1 * 128 + px.0) * 3;
            #[trigger] production_universes(frame)[k].2[j] == if shown && idx + 2 < frame.len() { frame[idx + j % 3] } else { 0u8 }
        },
{
}

/// Each universe of the physical wall depends on its own strip's two columns
/// only: two frames of the same length that agree on columns `2 (k / 2)` and
/// `2 (k / 2) + 1` give universe `k` the same channels.
pub proof fn lemma_production_strip_columns(f1: Seq<u8>, f2: Seq<u8>, k: int)
    requires
        0 <= k < 128,
        f1.len() == f2.len(),
        forall|i: int| 0 <= i < f1.len() && (i / 3) % 128 == 2 * (k / 2) ==> f1[i] == f2[i],
        forall|i: int| 0 <= i < f1.len() && (i / 3) % 128 == 2 * (k / 2) + 1 ==> f1[i] == f2[i],
    ensures
        production_universes(f1)[k].2 == production_universes(f2)[k].2,
{
    lemma_production_strips(f1);
    lemma_production_strips(f2);
    assert forall|j: int| 0 <= j < 512 implies #[trigger] production_universes(f1)[k].2[j] == production_universes(f2)[k].2[j] by {
        let b = k / 2;
        let s = j / 3;
        let px: (int, int) = if k % 2 == 0 {
            if s < 130 { (2 * b, 127 - s * 128 / 130) } else { (2 * b + 1, (s - 130) * 128 / 129) }
        } else {
            (2 * b + 1, (s + 40) * 128 / 129)
        };
        let idx = (px.1 * 128 + px.0) * 3;
        let i = idx + j % 3;
        if idx + 2 < f1.len() && 0 <= px.1 {
            assert(i / 3 == px.1 * 128 + px.0);
            assert((px.1 * 128 + px.0) % 128 == px.0) by (nonlinear_arith)
                requires
                    0 <= px.0 < 128,
                    0 <= px.1,
            ;
        }
    }
    assert(production_universes(f1)[k].2 =~= production_universes(f2)[k].2);
}

/// The controller index, universe number and channels of each universe of a
/// frame for the physical wall (see `production_universes`), in sending
/// order.
pub fn production_frame_universes(frame: &[u8]) -> (out: Vec<(usize, u16, Vec<u8>)>)
    ensures
        out@.map_values(|u: (usize, u16, Vec<u8>)| (u.0, u.1, u.2@)) == production_universes(frame@),
{
    let mut out: Vec<(usize, u16, Vec<u8>)> = Vec::new();
    let mut quarter: usize = 0;
    while quarter < 4
        invariant
            quarter <= 4,
            out@.map_values(|u: (usize, u16, Vec<u8>)| (u.0, u.1, u.2@)) == production_universes(frame@).subrange(0, 32 * quarter as int),
        decreases 4 - quarter,
    {
        let base_universe = quarter * 32;
        let mut band_in_quarter: usize = 0;
        while band_in_quarter < 16
            invariant
                quarter < 4,
                band_in_quarter <= 16,
                base_universe == quarter * 32,
                out@.map_values(|u: (usize, u16, Vec<u8>)| (u.0, u.1, u.2@)) == production_universes(frame@).subrange(0, base_universe + 2 * band_in_quarter),
            decreases 16 - band_in_quarter,
        {
            let physical_band = quarter * 16 + band_in_quarter;
            let col_up = physical_band * 2;
            let col_down = physical_band * 2 + 1;
            let mut uni_in_band: usize = 0;
            while uni_in_band < 2
                invariant
                    quarter < 4,
                    band_in_quarter < 16,
                    uni_in_band <= 2,
                    base_universe == quarter * 32,
                    physical_band == quarter * 16 + band_in_quarter,
                    col_up == 2 * physical_band,
                    col_down == 2 * physical_band + 1,
                    out@.map_values(|u: (usize, u16, Vec<u8>)| (u.0, u.1, u.2@)) == production_universes(frame@).subrange(0, base_universe + 2 * band_in_quarter + uni_in_band),
                decreases 2 - uni_in_band,
            {
                let universe = base_universe + band_in_quarter * 2 + uni_in_band;
                let mut dmx_data: Vec<u8> = vec![0u8; 512];
                assert(dmx_data@ =~= Seq::new(512, |i: int| 0u8));
                map_pixels_to_band(&mut dmx_data, frame, col_up, col_down, uni_in_band);
                let ghost k = universe as int;
                assert(k / 32 == quarter && k / 2 == physical_band && k % 2 == uni_in_band);
                let ghost prev = out@;
                let ghost item = (quarter, universe as u16, dmx_data@);
                assert(item == production_universes(frame@)[k]);
                out.push((quarter, universe as u16, dmx_data));
                assert(out@.map_values(|u: (usize, u16, Vec<u8>)| (u.0, u.1, u.2@)) =~= prev.map_values(|u: (usize, u16, Vec<u8>)| (u.0, u.1, u.2@)).push(item));
                assert(out@.map_values(|u: (usize, u16, Vec<u8>)| (u.0, u.1, u.2@)) =~= production_universes(frame@).subrange(0, k + 1));
                uni_in_band = uni_in_band + 1;
            }
            band_in_quarter = band_in_quarter + 1;
        }
        quarter = quarter + 1;
    }
    assert(production_universes(frame@).subrange(0, 128) =~= production_universes(frame@));
    out
}

} // verus!

verus! {

/// The most channels a DMX universe carries.
pub const DMX_UNIVERSE_SIZE: usize = 512;

/// The message that refuses DMX data of `len` bytes.
pub open spec fn dmx_length_message(len: usize) -> Seq<char> {
    "Données DMX trop larges: "@ + decimal(len as nat) + " bytes (max 512)"@
}

/// The refusal of DMX data of `len` bytes (see `dmx_length_message`).
fn dmx_length_error(len: usize) -> (s: String)
    ensures
        s@ == dmx_length_message(len),
{
    let mut s = String::from_str("Données DMX trop larges: ");
    push_decimal(&mut s, len);
    s.append(" bytes (max 512)");
    s
}

/// The ArtDMX packet that sends `dmx_data` to `universe`; data longer than a
/// universe is refused.
pub fn universe_packet(universe: u16, dmx_data: &[u8]) -> (r: Result<Vec<u8>, String>)
    ensures
        r is Ok <==> dmx_data@.len() <= DMX_UNIVERSE_SIZE,
        r matches Ok(p) ==> p@ == artnet_header((universe % 256) as u8, (universe / 256) as u8) + dmx_512(dmx_data@),
        r matches Err(m) ==> m@ == dmx_length_message(dmx_data@.len() as usize),
{
    if dmx_data.len() > DMX_UNIVERSE_SIZE {
        return Err(dmx_length_error(dmx_data.len()));
    }
    Ok(create_artnet_packet(universe, dmx_data))
}

/// `target` with the Art-Net port appended when it names no port.
pub open spec fn with_default_port(target: Seq<char>) -> Seq<char> {
    if target.contains(':') { target } else { target + ":6454"@ }
}

/// `target` followed by the Art-Net port.
fn append_artnet_port(target: &str) -> (s: String)
    ensures
        s@ == target@ + ":6454"@,
{
    let mut s = String::from_str(target);
    s.append(":6454");
    s
}

/// The address packets for `target` go to: `target` itself when it holds a
/// colon, else `target` on the Art-Net port.
pub fn target_with_port(target: &str) -> (s: String)
    ensures
        s@ == with_default_port(target@),
{
    let n = target.unicode_len();
    let mut i: usize = 0;
    while i < n
        invariant
            n == target@.len(),
            i <= n,
            forall|k: int| 0 <= k < i ==> target@[k] != ':',
        decreases n - i,
    {
        if target.get_char(i) == ':' {
            assert(target@[i as int] == ':');
            return target.to_owned();
        }
        i = i + 1;
    }
    append_artnet_port(target)
}

/// What an Art-Net client has sent: packets and bytes.
#[derive(Debug, Clone, Copy)]
pub struct ArtNetStats {
    pub packets_sent: u64,
    pub bytes_sent: u64,
}

impl ArtNetStats {
    /// Nothing sent yet.
    pub fn new() -> (s: Self)
        ensures
            s.packets_sent == 0,
            s.bytes_sent == 0,
    {
        ArtNetStats { packets_sent: 0, bytes_sent: 0 }
    }

    /// Counts one packet of `bytes` bytes.
    pub fn record_sent(&mut self, bytes: usize)
        requires
            old(self).packets_sent < u64::MAX,
            old(self).bytes_sent + bytes <= u64::MAX,
        ensures
            final(self).packets_sent == old(self).packets_sent + 1,
            final(self).bytes_sent == old(self).bytes_sent + bytes,
    {
        self.packets_sent = self.packets_sent + 1;
        self.bytes_sent = self.bytes_sent + bytes as u64;
    }

    /// The packets and bytes sent.
    pub fn get_stats(&self) -> (r: (u64, u64))
        ensures
            r == (self.packets_sent, self.bytes_sent),
    {
        (self.packets_sent, self.bytes_sent)
    }

    /// Starts counting afresh and hands out the counts it had.
    pub fn reset_stats(&mut self) -> (r: (u64, u64))
        ensures
            r == (old(self).packets_sent, old(self).bytes_sent),
            final(self).packets_sent == 0,
            final(self).bytes_sent == 0,
    {
        let r = (self.packets_sent, self.bytes_sent);
        self.packets_sent = 0;
        self.bytes_sent = 0;
        r
    }
}

} // verus!
