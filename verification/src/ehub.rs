//! eHub: the entity protocol spoken to the LED wall's controllers.
//!
//! An entity is one physical LED, known by a 16-bit id, with red, green, blue
//! and white levels.  On the wire an entity is a "sextet": the id in little
//! endian followed by the four levels.  A universe configuration says which
//! sextet slot carries which entity.
use vstd::prelude::*;
use crate::wire::{le16, from_le16, lemma_le16_roundtrip, lemma_from_le16_roundtrip, u16_to_le, u16_from_le, push_le16, push_all};
use crate::gzip::gzip_fast;

verus! {

/// Message type of a configuration message.
pub const MSG_TYPE_CONFIG: u8 = 1;
/// Message type of an update message.
pub const MSG_TYPE_UPDATE: u8 = 2;
/// Largest payload a single UDP datagram can carry.
pub const MAX_UDP_SIZE: usize = 65507;
/// Update messages per second.
pub const UPDATE_FREQUENCY: u64 = 40;
/// Configuration messages per second.
pub const CONFIG_FREQUENCY: u64 = 1;

/// The four magic bytes that open every eHub message: `eHuB`.
pub fn ehub_magic() -> (r: [u8; 4])
    ensures
        r@ == seq![101u8, 72u8, 117u8, 66u8],
{
    let r = [101u8, 72u8, 117u8, 66u8];
    assert(r@ =~= seq![101u8, 72u8, 117u8, 66u8]);
    r
}

/// A configuration message as it stands on the wire.
#[derive(Debug, Clone)]
pub struct EHubConfig {
    pub magic: [u8; 4],
    pub msg_type: u8,
    pub universe: u8,
    pub range_count: u16,
    pub payload_size: u16,
    pub payload: Vec<u8>,
}

/// An update message as it stands on the wire.
#[derive(Debug, Clone)]
pub struct EHubUpdate {
    pub magic: [u8; 4],
    pub msg_type: u8,
    pub universe: u8,
    pub entity_count: u16,
    pub payload_size: u16,
    pub payload: Vec<u8>,
}

/// A run of consecutive entity ids carried by consecutive sextet slots.
#[derive(Debug, Clone, Copy, PartialEq, Eq)]
pub struct EntityRange {
    pub sextet_start: u16,
    pub entity_start: u16,
    pub sextet_end: u16,
    pub entity_end: u16,
}

/// One LED with its red, green, blue and white levels.
#[derive(Debug, Clone, Copy, PartialEq, Eq)]
pub struct Entity {
    pub id: u16,
    pub r: u8,
    pub g: u8,
    pub b: u8,
    pub w: u8,
}

/// The six bytes of an entity on the wire.
pub open spec fn sextet(e: Entity) -> Seq<u8> {
    le16(e.id) + seq![e.r, e.g, e.b, e.w]
}

/// The entity read from the first six bytes of `data`, if there are six.
pub open spec fn entity_of_sextet(data: Seq<u8>) -> Option<Entity> {
    if data.len() < 6 {
        None
    } else {
        Some(Entity { id: from_le16(data[0], data[1]), r: data[2], g: data[3], b: data[4], w: data[5] })
    }
}

/// Reading back the sextet of an entity gives the entity.
pub proof fn lemma_sextet_roundtrip(e: Entity)
    ensures
        entity_of_sextet(sextet(e)) == Some(e),
{
    lemma_le16_roundtrip(e.id);
}

/// The sextet of the entity read from `data` is the first six bytes of `data`.
pub proof fn lemma_sextet_of_read(data: Seq<u8>)
    requires
        data.len() >= 6,
    ensures
        sextet(entity_of_sextet(data).unwrap()) == data.subrange(0, 6),
{
    lemma_from_le16_roundtrip(data[0], data[1]);
    assert(sextet(entity_of_sextet(data).unwrap()) =~= data.subrange(0, 6));
}

impl Entity {
    /// An entity with no white component.
    pub fn new(id: u16, r: u8, g: u8, b: u8) -> (e: Self)
        ensures
            e == (Entity { id, r, g, b, w: 0 }),
    {
        Entity { id, r, g, b, w: 0 }
    }

    /// An entity with all four components.
    pub fn new_rgbw(id: u16, r: u8, g: u8, b: u8, w: u8) -> (e: Self)
        ensures
            e == (Entity { id, r, g, b, w }),
    {
        Entity { id, r, g, b, w }
    }

    /// The six bytes of this entity on the wire.
    pub fn to_sextet(&self) -> (s: [u8; 6])
        ensures
            s@ == sextet(*self),
    {
        let id = u16_to_le(self.id);
        let s = [id[0], id[1], self.r, self.g, self.b, self.w];
        assert(s@ =~= sextet(*self));
        s
    }

    /// The entity carried by the first six bytes of `data`; `None` when there
    /// are fewer than six.
    pub fn from_sextet(data: &[u8]) -> (r: Option<Self>)
        ensures
            r == entity_of_sextet(data@),
    {
        if data.len() < 6 {
            return None;
        }
        let id = u16_from_le(data[0], data[1]);
        Some(Entity { id, r: data[2], g: data[3], b: data[4], w: data[5] })
    }
}

/// Whether `range` covers entity `id`.
pub open spec fn range_contains(range: EntityRange, id: u16) -> bool {
    range.entity_start <= id && id <= range.entity_end
}

/// The sextet slot of `id` under the first range, from index `i` on, that
/// covers it, as an unbounded integer.
pub open spec fn position_from(ranges: Seq<EntityRange>, id: u16, i: int) -> Option<int>
    decreases ranges.len() - i,
{
    if i < 0 || i >= ranges.len() {
        None
    } else if range_contains(ranges[i], id) {
        Some(ranges[i].sextet_start + (id - ranges[i].entity_start))
    } else {
        position_from(ranges, id, i + 1)
    }
}

/// A slot position narrowed to the 16 bits it travels in.
pub open spec fn slot_of(p: Option<int>) -> Option<u16> {
    match p {
        Some(v) => Some(v as u16),
        None => None,
    }
}

/// The range that `add_range` appends.
pub open spec fn new_range(entity_start: u16, entity_end: u16, sextet_start: u16) -> EntityRange {
    EntityRange {
        sextet_start,
        entity_start,
        sextet_end: (sextet_start + (entity_end - entity_start)) as u16,
        entity_end,
    }
}

/// Which sextet slots of a universe carry which entities.
#[derive(Debug, Clone)]
pub struct UniverseConfig {
    pub universe_id: u8,
    pub entity_ranges: Vec<EntityRange>,
}

impl UniverseConfig {
    /// A universe with no ranges.
    pub fn new(universe_id: u8) -> (c: Self)
        ensures
            c.universe_id == universe_id,
            c.entity_ranges@ == Seq::<EntityRange>::empty(),
    {
        UniverseConfig { universe_id, entity_ranges: Vec::new() }
    }

    /// Appends the range of entities `entity_start..=entity_end`, carried from
    /// slot `sextet_start` on.
    pub fn add_range(&mut self, entity_start: u16, entity_end: u16, sextet_start: u16)
        requires
            entity_start <= entity_end,
            entity_end - entity_start + 1 <= u16::MAX,
            sextet_start + (entity_end - entity_start + 1) <= u16::MAX,
        ensures
            final(self).universe_id == old(self).universe_id,
            final(self).entity_ranges@ == old(self).entity_ranges@.push(
                new_range(entity_start, entity_end, sextet_start),
            ),
    {
        let count = entity_end - entity_start + 1;
        let sextet_end = sextet_start + count - 1;
        self.entity_ranges.push(EntityRange { sextet_start, entity_start, sextet_end, entity_end });
    }

    /// The slot of entity `entity_id` under the first range that covers it;
    /// `None` when no range covers it.
    pub fn get_sextet_position(&self, entity_id: u16) -> (r: Option<u16>)
        requires
            position_from(self.entity_ranges@, entity_id, 0) matches Some(p) ==> p <= u16::MAX,
        ensures
            r == slot_of(position_from(self.entity_ranges@, entity_id, 0)),
    {
        let mut i: usize = 0;
        while i < self.entity_ranges.len()
            invariant
                i <= self.entity_ranges@.len(),
                position_from(self.entity_ranges@, entity_id, 0)
                    == position_from(self.entity_ranges@, entity_id, i as int),
                position_from(self.entity_ranges@, entity_id, 0) matches Some(p) ==> p <= u16::MAX,
            decreases self.entity_ranges@.len() - i,
        {
            let range = self.entity_ranges[i];
            if entity_id >= range.entity_start && entity_id <= range.entity_end {
                let offset = entity_id - range.entity_start;
                return Some(range.sextet_start + offset);
            }
            i = i + 1;
        }
        None
    }
}

} // verus!

verus! {

/// An entity message tuple: id, red, green, blue, white.
pub type EntityTuple = (u16, u8, u8, u8, u8);

/// First entity id of physical strip `k` (0..64): four quarters of sixteen
/// strips, quarter `q` starting at `100 + 5000 q`, strips 300 ids apart.
pub open spec fn strip_base(k: int) -> int {
    100 + 5000 * (k / 16) + 300 * (k % 16)
}

/// An unlit entity.
pub open spec fn dark(id: int) -> EntityTuple {
    (id as u16, 0u8, 0u8, 0u8, 0u8)
}

/// The entity `id` lit with the pixel whose red byte is at `idx`.
pub open spec fn lit(frame: Seq<u8>, id: int, idx: int) -> EntityTuple {
    (id as u16, frame[idx], frame[idx + 1], frame[idx + 2], 0u8)
}

/// Byte index of pixel (`x`, `y`) in a frame `width` pixels wide.
pub open spec fn pixel_index(width: int, x: int, y: int) -> int {
    (y * width + x) * 3
}

/// The first `n` LEDs of the rising half of a strip: LED `1 + i` shows column
/// `col` at row `height - 1 - i`, and is left out when that pixel lies past the
/// end of the frame.
pub open spec fn rising(frame: Seq<u8>, width: int, height: int, col: int, base: int, n: nat) -> Seq<EntityTuple>
    decreases n,
{
    if n == 0 {
        Seq::empty()
    } else {
        let i = n - 1;
        let prev = rising(frame, width, height, col, base, (n - 1) as nat);
        let idx = pixel_index(width, col, height - 1 - i);
        if idx + 2 < frame.len() { prev.push(lit(frame, base + 1 + i, idx)) } else { prev }
    }
}

/// The first `n` LEDs of the falling half of a strip: LED `130 + i` shows
/// column `col` at row `i`, and is left out when that pixel lies past the end
/// of the frame.
pub open spec fn falling(frame: Seq<u8>, width: int, col: int, base: int, n: nat) -> Seq<EntityTuple>
    decreases n,
{
    if n == 0 {
        Seq::empty()
    } else {
        let i = n - 1;
        let prev = falling(frame, width, col, base, (n - 1) as nat);
        let idx = pixel_index(width, col, i);
        if idx + 2 < frame.len() { prev.push(lit(frame, base + 130 + i, idx)) } else { prev }
    }
}

/// The entities of strip `k`: its rising half shows column `2k` when that
/// column exists, framed by two unlit LEDs, and its falling half shows column
/// `2k + 1` when that column exists, followed by one unlit LED.
pub open spec fn strip_entities(frame: Seq<u8>, width: int, height: int, k: int) -> Seq<EntityTuple> {
    let base = strip_base(k);
    let up = if 2 * k < width {
        seq![dark(base)] + rising(frame, width, height, 2 * k, base, 128) + seq![dark(base + 129)]
    } else {
        Seq::empty()
    };
    let down = if 2 * k + 1 < width {
        falling(frame, width, 2 * k + 1, base, 128) + seq![dark(base + 258)]
    } else {
        Seq::empty()
    };
    up + down
}

/// The entities of the first `n` strips, in order.
pub open spec fn strips_entities(frame: Seq<u8>, width: int, height: int, n: nat) -> Seq<EntityTuple>
    decreases n,
{
    if n == 0 {
        Seq::empty()
    } else {
        strips_entities(frame, width, height, (n - 1) as nat) + strip_entities(frame, width, height, n - 1)
    }
}

proof fn lemma_index_bound(width: int, height: int, x: int, y: int)
    requires
        0 <= x < width,
        0 <= y < height,
    ensures
        0 <= y * width + x < height * width,
{
    assert(y * width <= (height - 1) * width) by (nonlinear_arith)
        requires
            0 <= y < height,
            0 <= width,
    ;
    assert((height - 1) * width + width == height * width) by (nonlinear_arith);
    assert(0 <= y * width) by (nonlinear_arith)
        requires
            0 <= y,
            0 <= width,
    ;
}

proof fn lemma_rising_full(frame: Seq<u8>, col: int, base: int, n: nat)
    requires
        frame.len() == 128 * 128 * 3,
        0 <= col < 128,
        n <= 128,
    ensures
        rising(frame, 128, 128, col, base, n).len() == n,
        forall|i: int| 0 <= i < n ==> {
            let idx = ((127 - i) * 128 + col) * 3;
            #[trigger] rising(frame, 128, 128, col, base, n)[i]
                == ((base + 1 + i) as u16, frame[idx], frame[idx + 1], frame[idx + 2], 0u8)
        },
    decreases n,
{
    if n > 0 {
        lemma_rising_full(frame, col, base, (n - 1) as nat);
    }
}

proof fn lemma_falling_full(frame: Seq<u8>, col: int, base: int, n: nat)
    requires
        frame.len() == 128 * 128 * 3,
        0 <= col < 128,
        n <= 128,
    ensures
        falling(frame, 128, col, base, n).len() == n,
        forall|i: int| 0 <= i < n ==> {
            let idx = (i * 128 + col) * 3;
            #[trigger] falling(frame, 128, col, base, n)[i]
                == ((base + 130 + i) as u16, frame[idx], frame[idx + 1], frame[idx + 2], 0u8)
        },
    decreases n,
{
    if n > 0 {
        lemma_falling_full(frame, col, base, (n - 1) as nat);
    }
}

proof fn lemma_strips_at(frame: Seq<u8>, n: nat)
    requires
        frame.len() == 128 * 128 * 3,
        n <= 64,
    ensures
        strips_entities(frame, 128, 128, n).len() == 259 * n,
        forall|k: int, j: int| 0 <= k < n && 0 <= j < 259 ==>
            #[trigger] strips_entities(frame, 128, 128, n)[259 * k + j] == strip_entities(frame, 128, 128, k)[j],
    decreases n,
{
    if n > 0 {
        let n1 = (n - 1) as nat;
        lemma_strips_at(frame, n1);
        let k1 = n1 as int;
        lemma_rising_full(frame, 2 * k1, strip_base(k1), 128);
        lemma_falling_full(frame, 2 * k1 + 1, strip_base(k1), 128);
        assert(strip_entities(frame, 128, 128, k1).len() == 259);
        let prev = strips_entities(frame, 128, 128, n1);
        assert forall|k: int, j: int| 0 <= k < n && 0 <= j < 259 implies
            #[trigger] strips_entities(frame, 128, 128, n)[259 * k + j] == strip_entities(frame, 128, 128, k)[j] by {
            if k < n1 {
                assert(prev[259 * k + j] == strip_entities(frame, 128, 128, k)[j]);
            }
        }
    }
}

/// The entities of a full 128 x 128 frame, strip by strip: strip `k`
/// (0..64) takes the 259 entities from `259 k` on, with ids counted from
/// `b = 100 + 5000 (k / 16) + 300 (k % 16)`.  Entity `b` is unlit; entity
/// `b + 1 + i` shows column `2 k` at row `127 - i` (bottom to top); entity
/// `b + 129` is unlit; entity `b + 130 + i` shows column `2 k + 1` at row `i`
/// (top to bottom); entity `b + 258` is unlit.  A shown pixel gives its red,
/// green and blue, and white 0.
pub proof fn lemma_full_frame_entities(frame: Seq<u8>)
    requires
        frame.len() == 128 * 128 * 3,
    ensures
        strips_entities(frame, 128, 128, 64).len() == 64 * 259,
        forall|k: int| 0 <= k < 64 ==> {
            let b = 100 + 5000 * (k / 16) + 300 * (k % 16);
            &&& #[trigger] strips_entities(frame, 128, 128, 64)[259 * k] == (b as u16, 0u8, 0u8, 0u8, 0u8)
            &&& strips_entities(frame, 128, 128, 64)[259 * k + 129] == ((b + 129) as u16, 0u8, 0u8, 0u8, 0u8)
            &&& strips_entities(frame, 128, 128, 64)[259 * k + 258] == ((b + 258) as u16, 0u8, 0u8, 0u8, 0u8)
        },
        forall|k: int, i: int| 0 <= k < 64 && 0 <= i < 128 ==> {
            let b = 100 + 5000 * (k / 16) + 300 * (k % 16);
            let up = ((127 - i) * 128 + 2 * k) * 3;
            let down = (i * 128 + 2 * k + 1) * 3;
            &&& #[trigger] strips_entities(frame, 128, 128, 64)[259 * k + 1 + i]
                == ((b + 1 + i) as u16, frame[up], frame[up + 1], frame[up + 2], 0u8)
            &&& strips_entities(frame, 128, 128, 64)[259 * k + 130 + i]
                == ((b + 130 + i) as u16, frame[down], frame[down + 1], frame[down + 2], 0u8)
        },
{
    lemma_strips_at(frame, 64);
    assert forall|k: int| 0 <= k < 64 implies {
        let b = 100 + 5000 * (k / 16) + 300 * (k % 16);
        &&& #[trigger] strips_entities(frame, 128, 128, 64)[259 * k] == (b as u16, 0u8, 0u8, 0u8, 0u8)
        &&& strips_entities(frame, 128, 128, 64)[259 * k + 129] == ((b + 129) as u16, 0u8, 0u8, 0u8, 0u8)
        &&& strips_entities(frame, 128, 128, 64)[259 * k + 258] == ((b + 258) as u16, 0u8, 0u8, 0u8, 0u8)
    } by {
        lemma_rising_full(frame, 2 * k, strip_base(k), 128);
        lemma_falling_full(frame, 2 * k + 1, strip_base(k), 128);
        assert(strips_entities(frame, 128, 128, 64)[259 * k + 0] == strip_entities(frame, 128, 128, k)[0]);
        assert(strips_entities(frame, 128, 128, 64)[259 * k + 129] == strip_entities(frame, 128, 128, k)[129]);
        assert(strips_entities(frame, 128, 128, 64)[259 * k + 258] == strip_entities(frame, 128, 128, k)[258]);
    }
    assert forall|k: int, i: int| 0 <= k < 64 && 0 <= i < 128 implies {
        let b = 100 + 5000 * (k / 16) + 300 * (k % 16);
        let up = ((127 - i) * 128 + 2 * k) * 3;
        let down = (i * 128 + 2 * k + 1) * 3;
        &&& #[trigger] strips_entities(frame, 128, 128, 64)[259 * k + 1 + i]
            == ((b + 1 + i) as u16, frame[up], frame[up + 1], frame[up + 2], 0u8)
        &&& strips_entities(frame, 128, 128, 64)[259 * k + 130 + i]
            == ((b + 130 + i) as u16, frame[down], frame[down + 1], frame[down + 2], 0u8)
    } by {
        lemma_rising_full(frame, 2 * k, strip_base(k), 128);
        lemma_falling_full(frame, 2 * k + 1, strip_base(k), 128);
        assert(strips_entities(frame, 128, 128, 64)[259 * k + (1 + i)] == strip_entities(frame, 128, 128, k)[1 + i]);
        assert(strips_entities(frame, 128, 128, 64)[259 * k + (130 + i)] == strip_entities(frame, 128, 128, k)[130 + i]);
    }
}

/// Maps a rendered RGB frame, `width` x `height` pixels, onto the entities of
/// the wall's 64 strips, strip after strip (see `strip_entities`).
pub fn frame_to_entities(frame: &[u8], width: usize, height: usize) -> (out: Vec<EntityTuple>)
    requires
        width == 0 || height >= 128,
        height * width * 3 <= usize::MAX,
    ensures
        out@ == strips_entities(frame@, width as int, height as int, 64),
{
    let mut entities: Vec<EntityTuple> = Vec::new();
    let mut quarter: usize = 0;
    while quarter < 4
        invariant
            quarter <= 4,
            width == 0 || height >= 128,
            height * width * 3 <= usize::MAX,
            entities@ == strips_entities(frame@, width as int, height as int, (quarter * 16) as nat),
        decreases 4 - quarter,
    {
        let base_entity: u16 = if quarter == 0 {
            100
        } else if quarter == 1 {
            5100
        } else if quarter == 2 {
            10100
        } else {
            15100
        };
        let mut band: usize = 0;
        while band < 16
            invariant
                quarter < 4,
                band <= 16,
                width == 0 || height >= 128,
                height * width * 3 <= usize::MAX,
                base_entity == 100 + 5000 * quarter,
                entities@ == strips_entities(frame@, width as int, height as int, (quarter * 16 + band) as nat),
            decreases 16 - band,
        {
            let ghost k: int = (quarter * 16 + band) as int;
            let ghost before = entities@;
            let col_start = quarter * 32 + band * 2;
            let entity_base: u16 = base_entity + (band as u16) * 300;
            assert(k / 16 == quarter && k % 16 == band);
            assert(col_start == 2 * k);
            assert(entity_base == strip_base(k));
            let col1 = col_start;
            if col1 < width {
                entities.push((entity_base, 0, 0, 0, 0));
                let mut i: usize = 0;
                while i < 128
                    invariant
                        i <= 128,
                        col1 < width,
                        height >= 128,
                        height * width * 3 <= usize::MAX,
                        entity_base == strip_base(k),
                        col1 == 2 * k,
                        0 <= k < 64,
                        entities@ == before + seq![dark(strip_base(k))]
                            + rising(frame@, width as int, height as int, col1 as int, strip_base(k), i as nat),
                    decreases 128 - i,
                {
                    let y = height - 1 - i;
                    proof {
                        lemma_index_bound(width as int, height as int, col1 as int, y as int);
                    }
                    let pixel_idx = (y * width + col1) * 3;
                    if pixel_idx + 2 < frame.len() {
                        entities.push((entity_base + 1 + (i as u16), frame[pixel_idx], frame[pixel_idx + 1], frame[pixel_idx + 2], 0));
                    }
                    i = i + 1;
                }
                entities.push((entity_base + 129, 0, 0, 0, 0));
            }
            let ghost mid = entities@;
            assert(mid == before + (if 2 * k < width {
                seq![dark(strip_base(k))] + rising(frame@, width as int, height as int, 2 * k, strip_base(k), 128)
                    + seq![dark(strip_base(k) + 129)]
            } else {
                Seq::<EntityTuple>::empty()
            }));
            let col2 = col_start + 1;
            if col2 < width {
                let mut i: usize = 0;
                while i < 128
                    invariant
                        i <= 128,
                        col2 < width,
                        height >= 128,
                        height * width * 3 <= usize::MAX,
                        entity_base == strip_base(k),
                        col2 == 2 * k + 1,
                        0 <= k < 64,
                        entities@ == mid + falling(frame@, width as int, col2 as int, strip_base(k), i as nat),
                    decreases 128 - i,
                {
                    proof {
                        lemma_index_bound(width as int, height as int, col2 as int, i as int);
                    }
                    let pixel_idx = (i * width + col2) * 3;
                    if pixel_idx + 2 < frame.len() {
                        entities.push((entity_base + 130 + (i as u16), frame[pixel_idx], frame[pixel_idx + 1], frame[pixel_idx + 2], 0));
                    }
                    i = i + 1;
                }
                entities.push((entity_base + 258, 0, 0, 0, 0));
            }
            assert(entities@ =~= strips_entities(frame@, width as int, height as int, (k + 1) as nat));
            band = band + 1;
        }
        quarter = quarter + 1;
    }
    entities
}

} // verus!

verus! {

/// The entity message tuples stored by id, strictly increasing.
pub open spec fn sorted_by_id(v: Seq<EntityTuple>) -> bool {
    forall|i: int, j: int| 0 <= i < j < v.len() ==> (#[trigger] v[i]).0 < (#[trigger] v[j]).0
}

/// The levels stored for `id`, if any.
pub open spec fn lookup(v: Seq<EntityTuple>, id: u16) -> Option<(u8, u8, u8, u8)> {
    if exists|i: int| 0 <= i < v.len() && (#[trigger] v[i]).0 == id {
        let i = choose|i: int| 0 <= i < v.len() && (#[trigger] v[i]).0 == id;
        Some((v[i].1, v[i].2, v[i].3, v[i].4))
    } else {
        None
    }
}

/// The levels the last of the first `n` updates gives `id`, if any does.
pub open spec fn last_update(list: Seq<EntityTuple>, n: nat, id: u16) -> Option<(u8, u8, u8, u8)>
    decreases n,
{
    if n == 0 {
        None
    } else if list[n - 1].0 == id {
        Some((list[n - 1].1, list[n - 1].2, list[n - 1].3, list[n - 1].4))
    } else {
        last_update(list, (n - 1) as nat, id)
    }
}

/// The sextets of the stored entities, in id order.
pub open spec fn entity_payload(v: Seq<EntityTuple>, n: nat) -> Seq<u8>
    decreases n,
{
    if n == 0 {
        Seq::empty()
    } else {
        entity_payload(v, (n - 1) as nat) + sextet(Entity { id: v[n - 1].0, r: v[n - 1].1, g: v[n - 1].2, b: v[n - 1].3, w: v[n - 1].4 })
    }
}

/// The eight bytes of a range in a configuration payload: first slot, first
/// id, last slot, last id.
pub open spec fn range_bytes(r: EntityRange) -> Seq<u8> {
    le16(r.sextet_start) + le16(r.entity_start) + le16(r.sextet_end) + le16(r.entity_end)
}

/// The configuration payload of the first `n` ranges.
pub open spec fn ranges_payload(rs: Seq<EntityRange>, n: nat) -> Seq<u8>
    decreases n,
{
    if n == 0 { Seq::empty() } else { ranges_payload(rs, (n - 1) as nat) + range_bytes(rs[n - 1]) }
}

/// The four magic bytes of eHub messages.
pub open spec fn ehub_magic_bytes() -> Seq<u8> {
    seq![101u8, 72u8, 117u8, 66u8]
}

proof fn lemma_lookup_of(v: Seq<EntityTuple>, i: int)
    requires
        sorted_by_id(v),
        0 <= i < v.len(),
    ensures
        lookup(v, v[i].0) == Some((v[i].1, v[i].2, v[i].3, v[i].4)),
{
    let j = choose|j: int| 0 <= j < v.len() && (#[trigger] v[j]).0 == v[i].0;
    if j != i {
        if j < i {
            assert(v[j].0 < v[i].0);
        } else {
            assert(v[i].0 < v[j].0);
        }
    }
}

/// Stores `e` in the id-sorted entities: replaces the entity of the same id,
/// or inserts it in order.
fn upsert(v: &mut Vec<EntityTuple>, e: EntityTuple)
    requires
        sorted_by_id(old(v)@),
    ensures
        sorted_by_id(final(v)@),
        forall|id: u16| #[trigger] lookup(final(v)@, id) == if id == e.0 { Some((e.1, e.2, e.3, e.4)) } else { lookup(old(v)@, id) },
{
    let mut pos: usize = 0;
    while pos < v.len() && v[pos].0 < e.0
        invariant
            pos <= v@.len(),
            v@ == old(v)@,
            forall|k: int| 0 <= k < pos ==> (#[trigger] v@[k]).0 < e.0,
        decreases v@.len() - pos,
    {
        pos = pos + 1;
    }
    let ghost old_v = v@;
    if pos < v.len() && v[pos].0 == e.0 {
        v.set(pos, e);
        proof {
            assert forall|a: int, b: int| 0 <= a < b < v@.len() implies (#[trigger] v@[a]).0 < (#[trigger] v@[b]).0 by {
                assert(old_v[a].0 < old_v[b].0);
            }
            assert forall|id: u16| #[trigger] lookup(v@, id) == if id == e.0 { Some((e.1, e.2, e.3, e.4)) } else { lookup(old_v, id) } by {
                if id == e.0 {
                    lemma_lookup_of(v@, pos as int);
                } else {
                    if exists|i: int| 0 <= i < old_v.len() && (#[trigger] old_v[i]).0 == id {
                        let i = choose|i: int| 0 <= i < old_v.len() && (#[trigger] old_v[i]).0 == id;
                        lemma_lookup_of(old_v, i);
                        assert(v@[i] == old_v[i]);
                        lemma_lookup_of(v@, i);
                    } else {
                        assert forall|i: int| 0 <= i < v@.len() implies (#[trigger] v@[i]).0 != id by {
                            if i != pos {
                                assert(v@[i] == old_v[i]);
                            }
                        }
                    }
                }
            }
        }
    } else {
        v.insert(pos, e);
        proof {
            let p = pos as int;
            assert forall|a: int, b: int| 0 <= a < b < v@.len() implies (#[trigger] v@[a]).0 < (#[trigger] v@[b]).0 by {
                if b < p {
                    assert(v@[a] == old_v[a] && v@[b] == old_v[b]);
                } else if b == p {
                    assert(v@[a] == old_v[a]);
                } else if a < p {
                    assert(v@[a] == old_v[a] && v@[b] == old_v[b - 1]);
                    assert(old_v[p].0 > e.0 || old_v[p].0 == e.0);
                    assert(old_v[p].0 != e.0);
                    if b - 1 > p {
                        assert(old_v[p].0 < old_v[b - 1].0);
                    }
                } else if a == p {
                    assert(v@[b] == old_v[b - 1]);
                    assert(old_v[p].0 != e.0);
                    if b - 1 > p {
                        assert(old_v[p].0 < old_v[b - 1].0);
                    }
                } else {
                    assert(v@[a] == old_v[a - 1] && v@[b] == old_v[b - 1]);
                }
            }
            assert forall|id: u16| #[trigger] lookup(v@, id) == if id == e.0 { Some((e.1, e.2, e.3, e.4)) } else { lookup(old_v, id) } by {
                if id == e.0 {
                    lemma_lookup_of(v@, p);
                } else {
                    if exists|i: int| 0 <= i < old_v.len() && (#[trigger] old_v[i]).0 == id {
                        let i = choose|i: int| 0 <= i < old_v.len() && (#[trigger] old_v[i]).0 == id;
                        lemma_lookup_of(old_v, i);
                        let j = if i < p { i } else { i + 1 };
                        assert(v@[j] == old_v[i]);
                        lemma_lookup_of(v@, j);
                    } else {
                        assert forall|i: int| 0 <= i < v@.len() implies (#[trigger] v@[i]).0 != id by {
                            if i < p {
                                assert(v@[i] == old_v[i]);
                            } else if i > p {
                                assert(v@[i] == old_v[i - 1]);
                            }
                        }
                    }
                }
            }
        }
    }
}

/// The protocol state of the link to one eHub controller: its universe, the
/// last levels of every entity, and the ranges it is configured with.  The
/// socket that carries the messages belongs to the caller.
pub struct EHubController {
    universe: u8,
    entities: Vec<EntityTuple>,
    entity_ranges: Vec<EntityRange>,
    last_config_ms: u64,
}

impl EHubController {
    /// The universe number.
    pub closed spec fn spec_universe(&self) -> u8 {
        self.universe
    }

    /// The stored entities, in id order.
    pub closed spec fn spec_entities(&self) -> Seq<EntityTuple> {
        self.entities@
    }

    /// The configured ranges.
    pub closed spec fn spec_ranges(&self) -> Seq<EntityRange> {
        self.entity_ranges@
    }

    /// When the configuration was last sent, in milliseconds since the link
    /// was created.
    pub closed spec fn spec_last_config(&self) -> u64 {
        self.last_config_ms
    }

    /// The entities are kept sorted by id.
    pub closed spec fn wf(&self) -> bool {
        sorted_by_id(self.entities@)
    }

    /// A link to universe `universe` with no entity and no range.
    pub fn new(universe: u8) -> (c: Self)
        ensures
            c.wf(),
            c.spec_universe() == universe,
            c.spec_entities() == Seq::<EntityTuple>::empty(),
            c.spec_ranges() == Seq::<EntityRange>::empty(),
            c.spec_last_config() == 0,
    {
        EHubController { universe, entities: Vec::new(), entity_ranges: Vec::new(), last_config_ms: 0 }
    }

    /// The configuration message: the ranges, compressed; always built.
    pub fn config_message(&self) -> (m: Option<Vec<u8>>)
        ensures
            m matches Some(v) && v@ == crate::hubmsg::hub_message(
                ehub_magic_bytes(), MSG_TYPE_CONFIG, self.spec_universe(), self.spec_ranges().len() as int,
                gzip_fast(ranges_payload(self.spec_ranges(), self.spec_ranges().len()))),
    {
        let mut payload: Vec<u8> = Vec::new();
        let mut i: usize = 0;
        while i < self.entity_ranges.len()
            invariant
                i <= self.entity_ranges@.len(),
                payload@ == ranges_payload(self.entity_ranges@, i as nat),
            decreases self.entity_ranges@.len() - i,
        {
            let r = self.entity_ranges[i];
            push_le16(&mut payload, r.sextet_start);
            push_le16(&mut payload, r.entity_start);
            push_le16(&mut payload, r.sextet_end);
            push_le16(&mut payload, r.entity_end);
            i = i + 1;
            assert(payload@ =~= ranges_payload(self.entity_ranges@, i as nat));
        }
        crate::hubmsg::build_hub_message(ehub_magic(), MSG_TYPE_CONFIG, self.universe, self.entity_ranges.len(), payload.as_slice())
    }

    /// The update message: every stored entity, in id order, compressed;
    /// always built.
    pub fn update_message(&self) -> (m: Option<Vec<u8>>)
        ensures
            m matches Some(v) && v@ == crate::hubmsg::hub_message(
                ehub_magic_bytes(), MSG_TYPE_UPDATE, self.spec_universe(), self.spec_entities().len() as int,
                gzip_fast(entity_payload(self.spec_entities(), self.spec_entities().len()))),
    {
        let mut payload: Vec<u8> = Vec::new();
        let mut i: usize = 0;
        while i < self.entities.len()
            invariant
                i <= self.entities@.len(),
                payload@ == entity_payload(self.entities@, i as nat),
            decreases self.entities@.len() - i,
        {
            let (id, r, g, b, w) = self.entities[i];
            let e = Entity { id, r, g, b, w };
            let s = e.to_sextet();
            push_all(&mut payload, &s);
            i = i + 1;
            assert(payload@ =~= entity_payload(self.entities@, i as nat));
        }
        crate::hubmsg::build_hub_message(ehub_magic(), MSG_TYPE_UPDATE, self.universe, self.entities.len(), payload.as_slice())
    }

    /// Replaces the ranges and gives the configuration message to send.
    pub fn configure_entities(&mut self, ranges: Vec<EntityRange>) -> (m: Option<Vec<u8>>)
        requires
            old(self).wf(),
        ensures
            final(self).wf(),
            final(self).spec_ranges() == ranges@,
            final(self).spec_entities() == old(self).spec_entities(),
            final(self).spec_universe() == old(self).spec_universe(),
            final(self).spec_last_config() == old(self).spec_last_config(),
            m matches Some(v) && v@ == crate::hubmsg::hub_message(
                ehub_magic_bytes(), MSG_TYPE_CONFIG, old(self).spec_universe(), ranges@.len() as int,
                gzip_fast(ranges_payload(ranges@, ranges@.len()))),
    {
        self.entity_ranges = ranges;
        self.config_message()
    }

    /// Records new levels (a later update of an id wins) and gives the update
    /// message to send.
    pub fn update_entities(&mut self, entities: Vec<EntityTuple>) -> (m: Option<Vec<u8>>)
        requires
            old(self).wf(),
        ensures
            final(self).wf(),
            forall|id: u16| #[trigger] lookup(final(self).spec_entities(), id) == match last_update(entities@, entities@.len(), id) {
                Some(l) => Some(l),
                None => lookup(old(self).spec_entities(), id),
            },
            final(self).spec_ranges() == old(self).spec_ranges(),
            final(self).spec_universe() == old(self).spec_universe(),
            final(self).spec_last_config() == old(self).spec_last_config(),
            m matches Some(v) && v@ == crate::hubmsg::hub_message(
                ehub_magic_bytes(), MSG_TYPE_UPDATE, old(self).spec_universe(), final(self).spec_entities().len() as int,
                gzip_fast(entity_payload(final(self).spec_entities(), final(self).spec_entities().len()))),
    {
        let ghost start = self.entities@;
        let mut i: usize = 0;
        while i < entities.len()
            invariant
                i <= entities@.len(),
                sorted_by_id(self.entities@),
                self.entity_ranges == old(self).entity_ranges,
                self.universe == old(self).universe,
                self.last_config_ms == old(self).last_config_ms,
                forall|id: u16| #[trigger] lookup(self.entities@, id) == match last_update(entities@, i as nat, id) {
                    Some(l) => Some(l),
                    None => lookup(start, id),
                },
            decreases entities@.len() - i,
        {
            let e = entities[i];
            let ghost before = self.entities@;
            upsert(&mut self.entities, e);
            i = i + 1;
            assert forall|id: u16| #[trigger] lookup(self.entities@, id) == match last_update(entities@, i as nat, id) {
                Some(l) => Some(l),
                None => lookup(start, id),
            } by {
                assert(lookup(before, id) == match last_update(entities@, (i - 1) as nat, id) {
                    Some(l) => Some(l),
                    None => lookup(start, id),
                });
            }
        }
        self.update_message()
    }

    /// The configuration message when it is due at `now_ms` (a second or
    /// more after it was last due), which then becomes the time it was last
    /// sent; `None` exactly when it is not due.
    pub fn tick(&mut self, now_ms: u64) -> (m: Option<Vec<u8>>)
        requires
            old(self).wf(),
        ensures
            final(self).wf(),
            final(self).spec_entities() == old(self).spec_entities(),
            final(self).spec_ranges() == old(self).spec_ranges(),
            final(self).spec_universe() == old(self).spec_universe(),
            final(self).spec_last_config() == if crate::hubmsg::config_is_due(old(self).spec_last_config(), now_ms) {
                now_ms
            } else {
                old(self).spec_last_config()
            },
            !crate::hubmsg::config_is_due(old(self).spec_last_config(), now_ms) ==> m is None,
            crate::hubmsg::config_is_due(old(self).spec_last_config(), now_ms) ==> (m matches Some(v) && v@ == crate::hubmsg::hub_message(
                ehub_magic_bytes(), MSG_TYPE_CONFIG, old(self).spec_universe(), old(self).spec_ranges().len() as int,
                gzip_fast(ranges_payload(old(self).spec_ranges(), old(self).spec_ranges().len())))),
    {
        if crate::hubmsg::config_due(self.last_config_ms, now_ms) {
            let m = self.config_message();
            self.last_config_ms = now_ms;
            m
        } else {
            None
        }
    }
}

} // verus!
