//! iHub: the faster successor of the eHub protocol.  Same sextet encoding of
//! entities, plus a sorted lookup table for slot positions and a batch that
//! remembers which entities changed since the last send.
use vstd::prelude::*;
use crate::wire::{le16, from_le16, lemma_le16_roundtrip, lemma_from_le16_roundtrip, u16_to_le, u16_from_le, push_le16, push_all};
use crate::gzip::gzip_fast;

verus! {

/// Message type of a configuration message.
pub const MSG_TYPE_CONFIG: u8 = 1;
/// Message type of a full update message.
pub const MSG_TYPE_UPDATE: u8 = 2;
/// Message type of an update that carries only the changed entities.
pub const MSG_TYPE_DIFFERENTIAL: u8 = 3;
/// Largest payload a single UDP datagram can carry.
pub const MAX_UDP_SIZE: usize = 65507;
/// Update messages per second.
pub const UPDATE_FREQUENCY: u64 = 40;
/// Configuration messages per second.
pub const CONFIG_FREQUENCY: u64 = 1;
/// Compression level used for payloads.
pub const COMPRESSION_LEVEL: i32 = 1;

/// The four magic bytes that open every iHub message: `iHuB`.
pub fn ihub_magic() -> (r: [u8; 4])
    ensures
        r@ == seq![105u8, 72u8, 117u8, 66u8],
{
    let r = [105u8, 72u8, 117u8, 66u8];
    assert(r@ =~= seq![105u8, 72u8, 117u8, 66u8]);
    r
}

/// A configuration message as it stands on the wire.
#[derive(Debug, Clone)]
pub struct IHubConfig {
    pub magic: [u8; 4],
    pub msg_type: u8,
    pub universe: u8,
    pub range_count: u16,
    pub payload_size: u16,
    pub payload: Vec<u8>,
}

/// An update message as it stands on the wire.
#[derive(Debug, Clone)]
pub struct IHubUpdate {
    pub magic: [u8; 4],
    pub msg_type: u8,
    pub universe: u8,
    pub entity_count: u16,
    pub payload_size: u16,
    pub payload: Vec<u8>,
}

/// A run of consecutive entity ids carried by consecutive sextet slots.
#[derive(Debug, Clone, Copy, PartialEq, Eq)]
pub struct EntityRange {
    pub sextet_start: u16,
    pub entity_start: u16,
    pub sextet_end: u16,
    pub entity_end: u16,
}

/// One LED with its red, green, blue and white levels.
#[derive(Debug, Clone, Copy, PartialEq, Eq, Structural)]
pub struct Entity {
    pub id: u16,
    pub r: u8,
    pub g: u8,
    pub b: u8,
    pub w: u8,
}

/// The six bytes of an entity on the wire.
pub open spec fn sextet(e: Entity) -> Seq<u8> {
    le16(e.id) + seq![e.r, e.g, e.b, e.w]
}

/// The entity read from the first six bytes of `data`, if there are six.
pub open spec fn entity_of_sextet(data: Seq<u8>) -> Option<Entity> {
    if data.len() < 6 {
        None
    } else {
        Some(Entity { id: from_le16(data[0], data[1]), r: data[2], g: data[3], b: data[4], w: data[5] })
    }
}

/// Reading back the sextet of an entity gives the entity.
pub proof fn lemma_sextet_roundtrip(e: Entity)
    ensures
        entity_of_sextet(sextet(e)) == Some(e),
{
    lemma_le16_roundtrip(e.id);
}

/// The sextet of the entity read from `data` is the first six bytes of `data`.
pub proof fn lemma_sextet_of_read(data: Seq<u8>)
    requires
        data.len() >= 6,
    ensures
        sextet(entity_of_sextet(data).unwrap()) == data.subrange(0, 6),
{
    lemma_from_le16_roundtrip(data[0], data[1]);
    assert(sextet(entity_of_sextet(data).unwrap()) =~= data.subrange(0, 6));
}

/// Whether any component of `e` is on.
pub open spec fn spec_is_lit(e: Entity) -> bool {
    e.r > 0 || e.g > 0 || e.b > 0 || e.w > 0
}

/// The sum of the four components of `e`.
pub open spec fn spec_brightness(e: Entity) -> int {
    e.r + e.g + e.b + e.w
}

/// An entity is lit exactly when its brightness is not zero.
pub proof fn lemma_lit_iff_bright(e: Entity)
    ensures
        spec_is_lit(e) <==> spec_brightness(e) > 0,
{
}

impl Entity {
    /// An entity with no white component.
    pub fn new(id: u16, r: u8, g: u8, b: u8) -> (e: Self)
        ensures
            e == (Entity { id, r, g, b, w: 0 }),
    {
        Entity { id, r, g, b, w: 0 }
    }

    /// An entity with all four components.
    pub fn new_rgbw(id: u16, r: u8, g: u8, b: u8, w: u8) -> (e: Self)
        ensures
            e == (Entity { id, r, g, b, w }),
    {
        Entity { id, r, g, b, w }
    }

    /// The six bytes of this entity on the wire.
    pub fn to_sextet(&self) -> (s: [u8; 6])
        ensures
            s@ == sextet(*self),
    {
        let id = u16_to_le(self.id);
        let s = [id[0], id[1], self.r, self.g, self.b, self.w];
        assert(s@ =~= sextet(*self));
        s
    }

    /// The entity carried by the first six bytes of `data`; `None` when there
    /// are fewer than six.
    pub fn from_sextet(data: &[u8]) -> (r: Option<Self>)
        ensures
            r == entity_of_sextet(data@),
    {
        if data.len() < 6 {
            return None;
        }
        let id = u16_from_le(data[0], data[1]);
        Some(Entity { id, r: data[2], g: data[3], b: data[4], w: data[5] })
    }

    /// Whether any component is on.
    pub fn is_lit(&self) -> (r: bool)
        ensures
            r == spec_is_lit(*self),
    {
        self.r > 0 || self.g > 0 || self.b > 0 || self.w > 0
    }

    /// The sum of the four components.
    pub fn brightness(&self) -> (r: u16)
        ensures
            r == spec_brightness(*self),
    {
        self.r as u16 + self.g as u16 + self.b as u16 + self.w as u16
    }
}

} // verus!

verus! {

/// Whether `range` covers entity `id`.
pub open spec fn range_contains(range: EntityRange, id: u16) -> bool {
    range.entity_start <= id && id <= range.entity_end
}

/// The slot of `id` under `range`, as an unbounded integer.
pub open spec fn slot_in(range: EntityRange, id: u16) -> int {
    range.sextet_start + (id - range.entity_start)
}

/// Whether the two ranges share an entity id.
pub open spec fn ranges_overlap(a: EntityRange, b: EntityRange) -> bool {
    a.entity_start <= b.entity_end && b.entity_start <= a.entity_end
}

/// Every range is non-empty and no two ranges share an entity id.
pub open spec fn ranges_disjoint(rs: Seq<EntityRange>) -> bool {
    &&& forall|i: int| 0 <= i < rs.len() ==> #[trigger] rs[i].entity_start <= rs[i].entity_end
    &&& forall|i: int, j: int|
        0 <= i < rs.len() && 0 <= j < rs.len() && i != j ==> !ranges_overlap(#[trigger] rs[i], #[trigger] rs[j])
}

/// Whether some range covers `id`.
pub open spec fn covered(rs: Seq<EntityRange>, id: u16) -> bool {
    exists|i: int| 0 <= i < rs.len() && range_contains(#[trigger] rs[i], id)
}

/// With disjoint ranges an entity is covered by at most one range, so its
/// slot, when it has one, is unique.
pub proof fn lemma_disjoint_cover_unique(rs: Seq<EntityRange>, id: u16, i: int, j: int)
    requires
        ranges_disjoint(rs),
        0 <= i < rs.len(),
        0 <= j < rs.len(),
        range_contains(rs[i], id),
        range_contains(rs[j], id),
    ensures
        i == j,
        slot_in(rs[i], id) == slot_in(rs[j], id),
{
    if i != j {
        assert(!ranges_overlap(rs[i], rs[j]));
    }
}

/// Range `i` covers `id` and shares no id with any other range, and every
/// range is non-empty.
pub open spec fn covers_alone(rs: Seq<EntityRange>, id: u16, i: int) -> bool {
    &&& 0 <= i < rs.len()
    &&& range_contains(rs[i], id)
    &&& forall|j: int| 0 <= j < rs.len() ==> #[trigger] rs[j].entity_start <= rs[j].entity_end
    &&& forall|j: int| 0 <= j < rs.len() && j != i ==> !ranges_overlap(rs[i], #[trigger] rs[j])
}

/// A non-empty range added to non-empty ranges, sharing no id with any of
/// them, is the only range that covers each of its ids: a later lookup of
/// such an id gives its slot under the added range.
pub proof fn lemma_added_range_alone(rs: Seq<EntityRange>, added: EntityRange, id: u16)
    requires
        forall|j: int| 0 <= j < rs.len() ==> #[trigger] rs[j].entity_start <= rs[j].entity_end,
        added.entity_start <= added.entity_end,
        forall|j: int| 0 <= j < rs.len() ==> !ranges_overlap(added, #[trigger] rs[j]),
        range_contains(added, id),
    ensures
        covers_alone(rs.push(added), id, rs.len() as int),
{
    let t = rs.push(added);
    assert forall|j: int| 0 <= j < t.len() implies #[trigger] t[j].entity_start <= t[j].entity_end by {
        if j < rs.len() {
            assert(t[j] == rs[j]);
        }
    }
    assert forall|j: int| 0 <= j < t.len() && j != rs.len() implies !ranges_overlap(t[rs.len() as int], #[trigger] t[j]) by {
        assert(t[j] == rs[j]);
        assert(!ranges_overlap(added, rs[j]));
    }
}

/// The lookup-table row of a range: first id, last id, first slot.
pub open spec fn cache_key(r: EntityRange) -> (u16, u16, u16) {
    (r.entity_start, r.entity_end, r.sextet_start)
}

/// Whether `t` is the row of one of the ranges.
pub open spec fn is_row_of(rs: Seq<EntityRange>, t: (u16, u16, u16)) -> bool {
    exists|i: int| 0 <= i < rs.len() && #[trigger] cache_key(rs[i]) == t
}

/// Whether the row of some range equals `t`.
pub open spec fn in_table(c: Seq<(u16, u16, u16)>, t: (u16, u16, u16)) -> bool {
    exists|j: int| 0 <= j < c.len() && #[trigger] c[j] == t
}

/// The lookup table holds the rows of exactly the ranges, ordered by first id.
pub open spec fn table_matches(c: Seq<(u16, u16, u16)>, rs: Seq<EntityRange>) -> bool {
    &&& forall|a: int, b: int| 0 <= a <= b < c.len() ==> (#[trigger] c[a]).0 <= (#[trigger] c[b]).0
    &&& forall|j: int| 0 <= j < c.len() ==> is_row_of(rs, #[trigger] c[j])
    &&& forall|i: int| 0 <= i < rs.len() ==> in_table(c, cache_key(#[trigger] rs[i]))
}

/// Which sextet slots of a universe carry which entities, with a lookup table
/// built on first use and dropped whenever a range is added.
#[derive(Debug, Clone)]
pub struct UniverseConfig {
    pub universe_id: u8,
    pub entity_ranges: Vec<EntityRange>,
    lookup_cache: Option<Vec<(u16, u16, u16)>>,
}

/// The range that `add_range` appends.
pub open spec fn new_range(entity_start: u16, entity_end: u16, sextet_start: u16) -> EntityRange {
    EntityRange {
        sextet_start,
        entity_start,
        sextet_end: (sextet_start + (entity_end - entity_start)) as u16,
        entity_end,
    }
}

/// The number of entities the first `n` ranges cover.
pub open spec fn entities_in(rs: Seq<EntityRange>, n: nat) -> int
    decreases n,
{
    if n == 0 {
        0
    } else {
        entities_in(rs, (n - 1) as nat) + (rs[n - 1].entity_end - rs[n - 1].entity_start + 1)
    }
}

impl UniverseConfig {
    /// The ranges, in the order they were added.
    pub closed spec fn ranges(&self) -> Seq<EntityRange> {
        self.entity_ranges@
    }

    /// The universe number.
    pub closed spec fn universe(&self) -> u8 {
        self.universe_id
    }

    /// The lookup table, when built, agrees with the ranges.
    pub closed spec fn wf(&self) -> bool {
        match self.lookup_cache {
            None => true,
            Some(c) => table_matches(c@, self.entity_ranges@),
        }
    }

    /// Whether the lookup table has been built.
    pub closed spec fn has_table(&self) -> bool {
        self.lookup_cache is Some
    }

    /// A universe with no ranges.
    pub fn new(universe_id: u8) -> (c: Self)
        ensures
            c.wf(),
            !c.has_table(),
            c.universe() == universe_id,
            c.ranges() == Seq::<EntityRange>::empty(),
    {
        UniverseConfig { universe_id, entity_ranges: Vec::with_capacity(64), lookup_cache: None }
    }

    /// Whether the lookup table has been built.
    pub fn has_lookup_cache(&self) -> (r: bool)
        ensures
            r == self.has_table(),
    {
        self.lookup_cache.is_some()
    }

    /// Appends the range of entities `entity_start..=entity_end`, carried from
    /// slot `sextet_start` on, and drops the lookup table.
    pub fn add_range(&mut self, entity_start: u16, entity_end: u16, sextet_start: u16)
        requires
            entity_start <= entity_end,
            entity_end - entity_start + 1 <= u16::MAX,
            sextet_start + (entity_end - entity_start + 1) <= u16::MAX,
        ensures
            final(self).wf(),
            !final(self).has_table(),
            final(self).universe() == old(self).universe(),
            final(self).ranges() == old(self).ranges().push(
                new_range(entity_start, entity_end, sextet_start),
            ),
    {
        let count = entity_end - entity_start + 1;
        let sextet_end = sextet_start + count - 1;
        self.entity_ranges.push(EntityRange { sextet_start, entity_start, sextet_end, entity_end });
        self.lookup_cache = None;
    }

    /// Builds the lookup table (the rows of the ranges sorted by first id) if
    /// it is not there.
    fn build_cache(&mut self)
        requires
            old(self).wf(),
        ensures
            final(self).wf(),
            final(self).has_table(),
            final(self).ranges() == old(self).ranges(),
            final(self).universe() == old(self).universe(),
    {
        if self.lookup_cache.is_none() {
            let rs = &self.entity_ranges;
            let mut cache: Vec<(u16, u16, u16)> = Vec::new();
            let ghost mut src: Seq<int> = Seq::empty();
            let ghost mut at: Seq<int> = Seq::empty();
            let mut i: usize = 0;
            while i < rs.len()
                invariant
                    i <= rs@.len(),
                    cache@.len() == i,
                    src.len() == i,
                    at.len() == i,
                    forall|a: int, b: int| 0 <= a <= b < cache@.len() ==> (#[trigger] cache@[a]).0 <= (#[trigger] cache@[b]).0,
                    forall|j: int| 0 <= j < i ==> 0 <= #[trigger] src[j] < i && cache@[j] == cache_key(rs@[src[j]]),
                    forall|k: int| 0 <= k < i ==> 0 <= #[trigger] at[k] < i && cache@[at[k]] == cache_key(rs@[k]),
                decreases rs@.len() - i,
            {
                let r = rs[i];
                let key = (r.entity_start, r.entity_end, r.sextet_start);
                let mut pos: usize = 0;
                while pos < cache.len() && cache[pos].0 <= key.0
                    invariant
                        pos <= cache@.len(),
                        forall|a: int| 0 <= a < pos ==> (#[trigger] cache@[a]).0 <= key.0,
                    decreases cache@.len() - pos,
                {
                    pos = pos + 1;
                }
                let ghost old_cache = cache@;
                cache.insert(pos, key);
                proof {
                    let p = pos as int;
                    assert forall|a: int, b: int| 0 <= a <= b < cache@.len() implies (#[trigger] cache@[a]).0 <= (#[trigger] cache@[b]).0 by {
                        if a < p && b < p {
                            assert(cache@[a] == old_cache[a] && cache@[b] == old_cache[b]);
                        } else if a < p && b == p {
                            assert(cache@[a] == old_cache[a]);
                        } else if a < p && b > p {
                            assert(cache@[a] == old_cache[a] && cache@[b] == old_cache[b - 1]);
                        } else if a == p && b > p {
                            assert(cache@[b] == old_cache[b - 1]);
                            assert(old_cache[p].0 > key.0);
                            assert(old_cache[p].0 <= old_cache[b - 1].0);
                        } else if a > p {
                            assert(cache@[a] == old_cache[a - 1] && cache@[b] == old_cache[b - 1]);
                        }
                    }
                    let old_src = src;
                    let old_at = at;
                    src = old_src.insert(p, i as int);
                    at = Seq::new((i + 1) as nat, |k: int| if k == i as int { p } else if old_at[k] >= p { old_at[k] + 1 } else { old_at[k] });
                    assert forall|j: int| 0 <= j < i + 1 implies 0 <= #[trigger] src[j] < i + 1 && cache@[j] == cache_key(rs@[src[j]]) by {
                        if j < p {
                            assert(src[j] == old_src[j]);
                        } else if j > p {
                            assert(src[j] == old_src[j - 1]);
                        }
                    }
                    assert forall|k: int| 0 <= k < i + 1 implies 0 <= #[trigger] at[k] < i + 1 && cache@[at[k]] == cache_key(rs@[k]) by {
                        if k < i {
                            assert(cache@[old_at[k]] == cache_key(rs@[k]) || true);
                            if old_at[k] >= p {
                                assert(cache@[old_at[k] + 1] == old_cache[old_at[k]]);
                            } else {
                                assert(cache@[old_at[k]] == old_cache[old_at[k]]);
                            }
                        }
                    }
                }
                i = i + 1;
            }
            proof {
                assert forall|j: int| 0 <= j < cache@.len() implies is_row_of(rs@, #[trigger] cache@[j]) by {
                    assert(cache_key(rs@[src[j]]) == cache@[j]);
                }
                assert forall|k: int| 0 <= k < rs@.len() implies in_table(cache@, cache_key(#[trigger] rs@[k])) by {
                    assert(cache@[at[k]] == cache_key(rs@[k]));
                }
            }
            self.lookup_cache = Some(cache);
        }
    }

    /// The slot of entity `entity_id`, found by binary search in the lookup
    /// table (built first if needed).  A `Some` answer is always the slot of
    /// `entity_id` under a range that covers it.  When every range is
    /// non-empty and the range that covers `entity_id` shares no id with any
    /// other range, the answer is that range's slot; in particular, with
    /// disjoint non-empty ranges, `None` means that no range covers it.
    pub fn get_sextet_position(&mut self, entity_id: u16) -> (r: Option<u16>)
        requires
            old(self).wf(),
            forall|i: int| 0 <= i < old(self).ranges().len() && range_contains(#[trigger] old(self).ranges()[i], entity_id)
                ==> slot_in(old(self).ranges()[i], entity_id) <= u16::MAX,
        ensures
            final(self).wf(),
            final(self).has_table(),
            final(self).ranges() == old(self).ranges(),
            final(self).universe() == old(self).universe(),
            r matches Some(p) ==> exists|i: int| 0 <= i < old(self).ranges().len()
                && range_contains(#[trigger] old(self).ranges()[i], entity_id)
                && p == slot_in(old(self).ranges()[i], entity_id),
            forall|i: int| #[trigger] covers_alone(old(self).ranges(), entity_id, i)
                ==> r == Some(slot_in(old(self).ranges()[i], entity_id) as u16),
            ranges_disjoint(old(self).ranges()) && covered(old(self).ranges(), entity_id) ==> r is Some,
    {
        self.build_cache();
        let ghost rs = self.entity_ranges@;
        let ghost alone: Option<int> = if exists|i: int| #[trigger] covers_alone(rs, entity_id, i) {
            Some(choose|i: int| #[trigger] covers_alone(rs, entity_id, i))
        } else {
            None
        };
        proof {
            if ranges_disjoint(rs) && covered(rs, entity_id) {
                let i = choose|i: int| 0 <= i < rs.len() && range_contains(#[trigger] rs[i], entity_id);
                assert forall|j: int| 0 <= j < rs.len() && j != i implies !ranges_overlap(rs[i], #[trigger] rs[j]) by {
                    assert(!ranges_overlap(rs[i], rs[j]));
                }
                assert(covers_alone(rs, entity_id, i));
            }
        }
        match &self.lookup_cache {
            None => None,
            Some(cache) => {
                let mut lo: usize = 0;
                let mut hi: usize = cache.len();
                while lo < hi
                    invariant
                        lo <= hi <= cache@.len(),
                        table_matches(cache@, rs),
                        rs == old(self).ranges(),
                        self.wf(),
                        self.has_table(),
                        self.ranges() == old(self).ranges(),
                        self.universe() == old(self).universe(),
                        forall|i: int| 0 <= i < rs.len() && range_contains(#[trigger] rs[i], entity_id)
                            ==> slot_in(rs[i], entity_id) <= u16::MAX,
                        alone matches Some(a) ==> covers_alone(rs, entity_id, a),
                        alone is Some ==> forall|j: int| 0 <= j < cache@.len() && !(lo <= j < hi)
                            ==> !(#[trigger] cache@[j].0 <= entity_id && entity_id <= cache@[j].1),
                    decreases hi - lo,
                {
                    let mid = lo + (hi - lo) / 2;
                    let (start, end, sextet_start) = cache[mid];
                    proof {
                        assert(is_row_of(rs, cache@[mid as int]));
                    }
                    if entity_id < start {
                        hi = mid;
                    } else if entity_id > end {
                        proof {
                            if alone is Some {
                                let i = alone->0;
                                assert forall|j: int| 0 <= j < cache@.len() && !(mid + 1 <= j < hi)
                                    implies !(#[trigger] cache@[j].0 <= entity_id && entity_id <= cache@[j].1) by {
                                    if lo <= j <= mid && cache@[j].0 <= entity_id && entity_id <= cache@[j].1 {
                                        assert(is_row_of(rs, cache@[j]));
                                        let a = choose|a: int| 0 <= a < rs.len() && #[trigger] cache_key(rs[a]) == cache@[j];
                                        let b = choose|b: int| 0 <= b < rs.len() && #[trigger] cache_key(rs[b]) == cache@[mid as int];
                                        assert(cache@[j].0 <= cache@[mid as int].0);
                                        assert(range_contains(rs[a], entity_id));
                                        if a != i {
                                            assert(!ranges_overlap(rs[i], rs[a]));
                                        }
                                        assert(rs[b].entity_start <= rs[b].entity_end);
                                        if b == i {
                                            assert(range_contains(rs[b], entity_id));
                                        } else {
                                            assert(!ranges_overlap(rs[i], rs[b]));
                                        }
                                    }
                                }
                            }
                        }
                        lo = mid + 1;
                    } else {
                        let ghost a = choose|a: int| 0 <= a < rs.len() && #[trigger] cache_key(rs[a]) == cache@[mid as int];
                        proof {
                            assert(range_contains(rs[a], entity_id));
                            assert(slot_in(rs[a], entity_id) <= u16::MAX);
                            if alone is Some {
                                let i = alone->0;
                                if a != i {
                                    assert(!ranges_overlap(rs[i], rs[a]));
                                }
                            }
                            assert forall|k: int| #[trigger] covers_alone(rs, entity_id, k) implies k == a by {
                                if k != a {
                                    assert(!ranges_overlap(rs[k], rs[a]));
                                }
                            }
                        }
                        let offset = entity_id - start;
                        return Some(sextet_start + offset);
                    }
                }
                proof {
                    if alone is Some {
                        let i = alone->0;
                        assert(in_table(cache@, cache_key(rs[i])));
                        let j = choose|j: int| 0 <= j < cache@.len() && #[trigger] cache@[j] == cache_key(rs[i]);
                        assert(cache@[j].0 <= entity_id && entity_id <= cache@[j].1);
                        assert(false);
                    }
                    assert forall|k: int| #[trigger] covers_alone(rs, entity_id, k) implies false by {
                        assert(alone is Some);
                    }
                }
                None
            }
        }
    }

    /// The number of entities the ranges cover.
    pub fn total_entities(&self) -> (n: u32)
        requires
            forall|i: int| 0 <= i < self.ranges().len() ==> (#[trigger] self.ranges()[i]).entity_start
                <= self.ranges()[i].entity_end,
            forall|i: int| 0 <= i < self.ranges().len() ==> (#[trigger] self.ranges()[i]).entity_end
                - self.ranges()[i].entity_start < u16::MAX,
            forall|n: nat| n <= self.ranges().len() ==> #[trigger] entities_in(self.ranges(), n) <= u32::MAX,
        ensures
            n == entities_in(self.ranges(), self.ranges().len()),
    {
        let mut total: u32 = 0;
        let mut i: usize = 0;
        while i < self.entity_ranges.len()
            invariant
                i <= self.ranges().len(),
                total == entities_in(self.ranges(), i as nat),
                forall|k: int| 0 <= k < self.ranges().len() ==> (#[trigger] self.ranges()[k]).entity_start
                    <= self.ranges()[k].entity_end,
                forall|k: int| 0 <= k < self.ranges().len() ==> (#[trigger] self.ranges()[k]).entity_end
                    - self.ranges()[k].entity_start < u16::MAX,
                forall|n: nat| n <= self.ranges().len() ==> #[trigger] entities_in(self.ranges(), n) <= u32::MAX,
            decreases self.ranges().len() - i,
        {
            let r = self.entity_ranges[i];
            assert(entities_in(self.ranges(), (i + 1) as nat) <= u32::MAX);
            total = total + (r.entity_end - r.entity_start + 1) as u32;
            i = i + 1;
        }
        total
    }
}

} // verus!

verus! {

/// The entities of `ents` whose flag in `flags` is set, among the first `n`,
/// in order.
pub open spec fn flagged(ents: Seq<Entity>, flags: Seq<bool>, n: nat) -> Seq<Entity>
    decreases n,
{
    if n == 0 {
        Seq::empty()
    } else {
        let prev = flagged(ents, flags, (n - 1) as nat);
        if flags[n - 1] { prev.push(ents[n - 1]) } else { prev }
    }
}

/// Whether no two entities share an id.
pub open spec fn ids_unique(ents: Seq<Entity>) -> bool {
    forall|i: int, j: int| 0 <= i < ents.len() && 0 <= j < ents.len() && i != j ==> (#[trigger] ents[i]).id != (#[trigger] ents[j]).id
}

/// A call made on an entity batch.
pub enum BatchOp {
    Update(Entity),
    Clear,
}

/// The entities and flags after recording `e`: an entity with a new id is
/// appended and flagged; one whose id is known replaces the stored one and is
/// flagged when it differs from it.
pub open spec fn step_update(items: Seq<Entity>, flags: Seq<bool>, e: Entity) -> (Seq<Entity>, Seq<bool>) {
    if exists|i: int| 0 <= i < items.len() && (#[trigger] items[i]).id == e.id {
        let i = choose|i: int| 0 <= i < items.len() && (#[trigger] items[i]).id == e.id;
        if items[i] == e { (items, flags) } else { (items.update(i, e), flags.update(i, true)) }
    } else {
        (items.push(e), flags.push(true))
    }
}

/// The entities and flags of a batch after the calls `ops`, from an empty
/// batch.
pub open spec fn replay(ops: Seq<BatchOp>) -> (Seq<Entity>, Seq<bool>)
    decreases ops.len(),
{
    if ops.len() == 0 {
        (Seq::empty(), Seq::empty())
    } else {
        let prev = replay(ops.drop_last());
        match ops.last() {
            BatchOp::Update(e) => step_update(prev.0, prev.1, e),
            BatchOp::Clear => (prev.0, Seq::new(prev.1.len(), |i: int| false)),
        }
    }
}

/// Whether call `k` of `ops` is an update that changed the batch: no stored
/// entity equalled the one given.
pub open spec fn update_changed(ops: Seq<BatchOp>, k: int) -> bool {
    match ops[k] {
        BatchOp::Update(e) => !(exists|j: int| 0 <= j < replay(ops.take(k)).0.len() && #[trigger] replay(ops.take(k)).0[j] == e),
        BatchOp::Clear => false,
    }
}

/// Whether call `k` of `ops` is an update of entity id `id` that changed the
/// batch and came after the last clearing.
pub open spec fn changed_since_clear(ops: Seq<BatchOp>, k: int, id: u16) -> bool {
    &&& 0 <= k < ops.len()
    &&& ops[k] matches BatchOp::Update(e) && e.id == id
    &&& update_changed(ops, k)
    &&& forall|c: int| k < c < ops.len() ==> !(#[trigger] ops[c] is Clear)
}

proof fn lemma_replay_shape(ops: Seq<BatchOp>)
    ensures
        replay(ops).1.len() == replay(ops).0.len(),
        ids_unique(replay(ops).0),
    decreases ops.len(),
{
    if ops.len() > 0 {
        lemma_replay_shape(ops.drop_last());
        let prev = replay(ops.drop_last());
        match ops.last() {
            BatchOp::Update(e) => {
                let (items, flags) = (prev.0, prev.1);
                if exists|i: int| 0 <= i < items.len() && (#[trigger] items[i]).id == e.id {
                    let i = choose|i: int| 0 <= i < items.len() && (#[trigger] items[i]).id == e.id;
                    if items[i] != e {
                        let t = items.update(i, e);
                        assert forall|a: int, b: int| 0 <= a < t.len() && 0 <= b < t.len() && a != b
                            implies (#[trigger] t[a]).id != (#[trigger] t[b]).id by {
                            if a == i {
                                assert(items[b].id != items[i].id);
                            } else if b == i {
                                assert(items[a].id != items[i].id);
                            } else {
                                assert(items[a].id != items[b].id);
                            }
                        }
                    }
                } else {
                    let t = items.push(e);
                    assert forall|a: int, b: int| 0 <= a < t.len() && 0 <= b < t.len() && a != b
                        implies (#[trigger] t[a]).id != (#[trigger] t[b]).id by {
                        if a == items.len() {
                            assert(t[b] == items[b]);
                        } else if b == items.len() {
                            assert(t[a] == items[a]);
                        } else {
                            assert(items[a].id != items[b].id);
                        }
                    }
                }
            },
            BatchOp::Clear => {},
        }
    }
}

/// What a batch reports as changed after any sequence of calls: entity `m`
/// (stored entities keep the position their id first took) is flagged exactly
/// when an update of its id changed the batch after the last clearing.
pub proof fn lemma_flags_after_calls(ops: Seq<BatchOp>)
    ensures
        replay(ops).1.len() == replay(ops).0.len(),
        ids_unique(replay(ops).0),
        forall|m: int| 0 <= m < replay(ops).0.len() ==> (#[trigger] replay(ops).1[m]
            <==> exists|k: int| changed_since_clear(ops, k, replay(ops).0[m].id)),
    decreases ops.len(),
{
    lemma_replay_shape(ops);
    if ops.len() > 0 {
        let prev_ops = ops.drop_last();
        let n = ops.len() - 1;
        lemma_flags_after_calls(prev_ops);
        let prev = replay(prev_ops);
        let (items, flags) = (prev.0, prev.1);
        let cur = replay(ops);
        assert(ops.take(n) =~= prev_ops);
        assert forall|k: int, id: u16| 0 <= k < n implies
            (changed_since_clear(ops, k, id) <==> (changed_since_clear(prev_ops, k, id) && !(ops[n] is Clear))) by {
            assert(ops.take(k) =~= prev_ops.take(k));
            assert(ops[k] == prev_ops[k]);
            if changed_since_clear(prev_ops, k, id) && !(ops[n] is Clear) {
                assert forall|c: int| k < c < ops.len() implies !(#[trigger] ops[c] is Clear) by {
                    if c < n {
                        assert(ops[c] == prev_ops[c]);
                    }
                }
            }
            if changed_since_clear(ops, k, id) {
                assert forall|c: int| k < c < prev_ops.len() implies !(#[trigger] prev_ops[c] is Clear) by {
                    assert(ops[c] == prev_ops[c]);
                }
            }
        }
        match ops.last() {
            BatchOp::Clear => {
                assert forall|m: int| 0 <= m < cur.0.len() implies (#[trigger] cur.1[m]
                    <==> exists|k: int| changed_since_clear(ops, k, cur.0[m].id)) by {
                    if exists|k: int| changed_since_clear(ops, k, cur.0[m].id) {
                        let k = choose|k: int| changed_since_clear(ops, k, cur.0[m].id);
                        if k == n {
                        } else {
                            assert(ops[n] is Clear);
                        }
                    }
                }
            },
            BatchOp::Update(e) => {
                let ch = update_changed(ops, n);
                assert(ch == !(exists|j: int| 0 <= j < items.len() && #[trigger] items[j] == e));
                if exists|i: int| 0 <= i < items.len() && (#[trigger] items[i]).id == e.id {
                    let i = choose|i: int| 0 <= i < items.len() && (#[trigger] items[i]).id == e.id;
                    if items[i] == e {
                        assert(!ch);
                        assert forall|m: int| 0 <= m < cur.0.len() implies (#[trigger] cur.1[m]
                            <==> exists|k: int| changed_since_clear(ops, k, cur.0[m].id)) by {
                            if exists|k: int| changed_since_clear(ops, k, cur.0[m].id) {
                                let k = choose|k: int| changed_since_clear(ops, k, cur.0[m].id);
                                assert(k != n);
                                assert(changed_since_clear(prev_ops, k, items[m].id));
                            }
                            if flags[m] {
                                let k = choose|k: int| changed_since_clear(prev_ops, k, items[m].id);
                                assert(changed_since_clear(ops, k, cur.0[m].id));
                            }
                        }
                    } else {
                        assert(ch) by {
                            if exists|j: int| 0 <= j < items.len() && #[trigger] items[j] == e {
                                let j = choose|j: int| 0 <= j < items.len() && #[trigger] items[j] == e;
                                if j != i {
                                    assert(items[j].id != items[i].id);
                                }
                            }
                        }
                        assert forall|m: int| 0 <= m < cur.0.len() implies (#[trigger] cur.1[m]
                            <==> exists|k: int| changed_since_clear(ops, k, cur.0[m].id)) by {
                            if m == i {
                                assert(changed_since_clear(ops, n, cur.0[m].id));
                            } else {
                                assert(cur.0[m] == items[m]);
                                assert(items[m].id != items[i].id);
                                if exists|k: int| changed_since_clear(ops, k, cur.0[m].id) {
                                    let k = choose|k: int| changed_since_clear(ops, k, cur.0[m].id);
                                    assert(k != n);
                                    assert(changed_since_clear(prev_ops, k, items[m].id));
                                }
                                if flags[m] {
                                    let k = choose|k: int| changed_since_clear(prev_ops, k, items[m].id);
                                    assert(changed_since_clear(ops, k, cur.0[m].id));
                                }
                            }
                        }
                    }
                } else {
                    assert(ch) by {
                        if exists|j: int| 0 <= j < items.len() && #[trigger] items[j] == e {
                            let j = choose|j: int| 0 <= j < items.len() && #[trigger] items[j] == e;
                            assert(items[j].id == e.id);
                        }
                    }
                    assert forall|m: int| 0 <= m < cur.0.len() implies (#[trigger] cur.1[m]
                        <==> exists|k: int| changed_since_clear(ops, k, cur.0[m].id)) by {
                        if m == items.len() {
                            assert(changed_since_clear(ops, n, cur.0[m].id));
                        } else {
                            assert(cur.0[m] == items[m]);
                            assert(items[m].id != e.id);
                            if exists|k: int| changed_since_clear(ops, k, cur.0[m].id) {
                                let k = choose|k: int| changed_since_clear(ops, k, cur.0[m].id);
                                assert(k != n);
                                assert(changed_since_clear(prev_ops, k, items[m].id));
                            }
                            if flags[m] {
                                let k = choose|k: int| changed_since_clear(prev_ops, k, items[m].id);
                                assert(changed_since_clear(ops, k, cur.0[m].id));
                            }
                        }
                    }
                }
            },
        }
    }
}

/// Entities keep the position their id first took: every entity stored
/// after the first `j` calls is still stored, at the same position with the
/// same id, after all the calls.
pub proof fn lemma_positions_stay(ops: Seq<BatchOp>, j: int)
    requires
        0 <= j <= ops.len(),
    ensures
        replay(ops.take(j)).0.len() <= replay(ops).0.len(),
        forall|m: int| 0 <= m < replay(ops.take(j)).0.len()
            ==> (#[trigger] replay(ops).0[m]).id == replay(ops.take(j)).0[m].id,
    decreases ops.len(),
{
    if j == ops.len() {
        assert(ops.take(j) =~= ops);
    } else {
        let prev_ops = ops.drop_last();
        lemma_positions_stay(prev_ops, j);
        assert(ops.take(j) =~= prev_ops.take(j));
        lemma_replay_shape(prev_ops);
    }
}

/// After the flags are cleared, recording an entity equal to a stored one
/// changes nothing: the entities stay as they were and nothing is flagged.
pub proof fn lemma_clear_then_equal_update(ops: Seq<BatchOp>, e: Entity)
    requires
        exists|i: int| 0 <= i < replay(ops).0.len() && #[trigger] replay(ops).0[i] == e,
    ensures
        replay(ops.push(BatchOp::Clear).push(BatchOp::Update(e))).0 == replay(ops).0,
        forall|m: int| 0 <= m < replay(ops).0.len()
            ==> !(#[trigger] replay(ops.push(BatchOp::Clear).push(BatchOp::Update(e))).1[m]),
{
    let c = ops.push(BatchOp::Clear);
    let u = c.push(BatchOp::Update(e));
    assert(u.drop_last() =~= c);
    assert(c.drop_last() =~= ops);
    lemma_replay_shape(ops);
    let items = replay(ops).0;
    let cleared = Seq::new(replay(ops).1.len(), |k: int| false);
    assert(replay(c) == (items, cleared));
    assert(replay(u) == step_update(items, cleared, e));
    let j = choose|i: int| 0 <= i < items.len() && #[trigger] items[i] == e;
    assert(items[j].id == e.id);
    let i = choose|i: int| 0 <= i < items.len() && (#[trigger] items[i]).id == e.id;
    if i != j {
        assert(items[i].id != items[j].id);
    }
}

/// A set of entities, each kept once by id, with a flag that tells which ones
/// changed since the flags were last cleared.
pub struct EntityBatch {
    entities: Vec<Entity>,
    dirty_mask: Vec<bool>,
    calls: Ghost<Seq<BatchOp>>,
}

impl EntityBatch {
    /// The entities, in the order they first arrived.
    pub closed spec fn items(&self) -> Seq<Entity> {
        self.entities@
    }

    /// For each entity, whether it changed since the flags were last cleared.
    pub closed spec fn changed(&self) -> Seq<bool> {
        self.dirty_mask@.subrange(0, self.entities@.len() as int)
    }

    /// The calls made on the batch since it was created.
    pub closed spec fn history(&self) -> Seq<BatchOp> {
        self.calls@
    }

    /// Every entity has a flag, no two entities share an id, and the
    /// entities and flags are those the calls made give.
    pub closed spec fn wf(&self) -> bool {
        &&& self.dirty_mask@.len() >= self.entities@.len()
        &&& ids_unique(self.entities@)
        &&& replay(self.calls@).0 == self.entities@
        &&& replay(self.calls@).1 == self.dirty_mask@.subrange(0, self.entities@.len() as int)
    }

    /// In a well-formed batch every entity has exactly one flag, no two
    /// entities share an id, and the entities and flags are those that the
    /// calls made on it give (see `lemma_flags_after_calls`).
    pub proof fn lemma_wf(&self)
        requires
            self.wf(),
        ensures
            self.changed().len() == self.items().len(),
            ids_unique(self.items()),
            replay(self.history()) == (self.items(), self.changed()),
    {
    }

    /// An empty batch, with nothing flagged, with room for `capacity` flags.
    pub fn new(capacity: usize) -> (b: Self)
        ensures
            b.wf(),
            b.items() == Seq::<Entity>::empty(),
            b.changed() == Seq::<bool>::empty(),
            b.history() == Seq::<BatchOp>::empty(),
    {
        let b = EntityBatch { entities: Vec::with_capacity(capacity), dirty_mask: vec![false; capacity], calls: Ghost(Seq::empty()) };
        assert(b.dirty_mask@.subrange(0, 0) =~= Seq::<bool>::empty());
        b
    }

    /// Records `entity`.  An entity with a new id is appended and flagged; an
    /// entity whose id is known replaces the old one and is flagged when it
    /// differs from it.  Returns whether anything changed.
    pub fn update(&mut self, entity: Entity) -> (changed: bool)
        requires
            old(self).wf(),
            (exists|i: int| 0 <= i < old(self).items().len() && (#[trigger] old(self).items()[i]).id == entity.id)
                || old(self).items().len() < usize::MAX - 100,
        ensures
            final(self).wf(),
            final(self).history() == old(self).history().push(BatchOp::Update(entity)),
            final(self).changed().len() == final(self).items().len(),
            ids_unique(final(self).items()),
            changed == (final(self).items() != old(self).items()),
            changed == !(exists|i: int| 0 <= i < old(self).items().len() && #[trigger] old(self).items()[i] == entity),
            exists|i: int| 0 <= i < final(self).items().len() && #[trigger] final(self).items()[i] == entity
                && (changed ==> final(self).changed()[i]),
            (exists|i: int| 0 <= i < old(self).items().len() && (#[trigger] old(self).items()[i]).id == entity.id) ==> {
                let i = choose|i: int| 0 <= i < old(self).items().len() && (#[trigger] old(self).items()[i]).id == entity.id;
                &&& final(self).items() == old(self).items().update(i, entity)
                &&& final(self).changed() == (if changed { old(self).changed().update(i, true) } else { old(self).changed() })
            },
            !(exists|i: int| 0 <= i < old(self).items().len() && (#[trigger] old(self).items()[i]).id == entity.id) ==> {
                &&& final(self).items() == old(self).items().push(entity)
                &&& final(self).changed() == old(self).changed().push(true)
            },
    {
        let ghost calls = self.calls@.push(BatchOp::Update(entity));
        proof {
            assert(calls.drop_last() =~= old(self).calls@);
        }
        let mut pos: usize = 0;
        while pos < self.entities.len() && self.entities[pos].id != entity.id
            invariant
                pos <= self.entities@.len(),
                forall|k: int| 0 <= k < pos ==> (#[trigger] self.entities@[k]).id != entity.id,
            decreases self.entities@.len() - pos,
        {
            pos = pos + 1;
        }
        if pos < self.entities.len() {
            proof {
                assert(old(self).items()[pos as int].id == entity.id);
                let i = choose|i: int| 0 <= i < old(self).items().len() && (#[trigger] old(self).items()[i]).id == entity.id;
                assert(i == pos as int);
            }
            if self.entities[pos] != entity {
                self.entities.set(pos, entity);
                self.dirty_mask.set(pos, true);
                assert(self.entities@[pos as int] == entity);
                assert(old(self).entities@[pos as int] != entity);
                assert(self.entities@ != old(self).entities@);
                assert(self.changed() =~= old(self).changed().update(pos as int, true));
                assert(ids_unique(self.entities@));
                self.calls = Ghost(calls);
                assert(self.dirty_mask@.subrange(0, self.entities@.len() as int) =~= self.changed());
                assert(self.items()[pos as int] == entity && self.changed()[pos as int]);
                true
            } else {
                assert(self.entities@ =~= old(self).entities@.update(pos as int, entity));
                self.calls = Ghost(calls);
                assert(self.items()[pos as int] == entity);
                false
            }
        } else {
            if self.dirty_mask.len() <= self.entities.len() + 1 {
                self.dirty_mask.resize(self.entities.len() + 101, false);
            }
            let ghost mask_before = self.dirty_mask@;
            self.entities.push(entity);
            let last = self.entities.len() - 1;
            self.dirty_mask.set(last, true);
            assert(self.entities@[last as int] == entity);
            assert(self.entities@.len() != old(self).entities@.len());
            assert(self.changed() =~= old(self).changed().push(true)) by {
                assert(old(self).changed() =~= mask_before.subrange(0, old(self).entities@.len() as int));
            }
            self.calls = Ghost(calls);
            assert(self.dirty_mask@.subrange(0, self.entities@.len() as int) =~= self.changed());
            assert(self.items()[last as int] == entity && self.changed()[last as int]);
            true
        }
    }

    /// The flagged entities, in order.
    pub fn get_dirty_entities(&self) -> (r: Vec<&Entity>)
        requires
            self.wf(),
        ensures
            r@.map_values(|e: &Entity| *e) == flagged(self.items(), self.changed(), self.items().len()),
    {
        let mut out: Vec<&Entity> = Vec::new();
        let mut i: usize = 0;
        while i < self.entities.len()
            invariant
                i <= self.entities@.len(),
                self.wf(),
                out@.map_values(|e: &Entity| *e) == flagged(self.items(), self.changed(), i as nat),
            decreases self.entities@.len() - i,
        {
            if self.dirty_mask[i] {
                out.push(&self.entities[i]);
            }
            assert(out@.map_values(|e: &Entity| *e) =~= flagged(self.items(), self.changed(), (i + 1) as nat));
            i = i + 1;
        }
        out
    }

    /// Clears every flag.
    pub fn clear_dirty_flags(&mut self)
        requires
            old(self).wf(),
        ensures
            final(self).wf(),
            final(self).history() == old(self).history().push(BatchOp::Clear),
            final(self).items() == old(self).items(),
            forall|i: int| 0 <= i < final(self).changed().len() ==> !(#[trigger] final(self).changed()[i]),
            flagged(final(self).items(), final(self).changed(), final(self).items().len()) == Seq::<Entity>::empty(),
    {
        let mut i: usize = 0;
        while i < self.dirty_mask.len()
            invariant
                i <= self.dirty_mask@.len(),
                self.dirty_mask@.len() == old(self).dirty_mask@.len(),
                self.entities == old(self).entities,
                self.calls == old(self).calls,
                forall|k: int| 0 <= k < i ==> !(#[trigger] self.dirty_mask@[k]),
            decreases self.dirty_mask@.len() - i,
        {
            self.dirty_mask.set(i, false);
            i = i + 1;
        }
        let ghost calls = self.calls@.push(BatchOp::Clear);
        proof {
            assert(calls.drop_last() =~= self.calls@);
        }
        self.calls = Ghost(calls);
        assert(self.dirty_mask@.subrange(0, self.entities@.len() as int)
            =~= Seq::new(replay(old(self).calls@).1.len(), |i: int| false));
        proof {
            lemma_cleared_reports_nothing(self.items(), self.changed(), self.items().len());
        }
    }
}

/// With every flag cleared, no entity is reported as changed.
pub proof fn lemma_cleared_reports_nothing(ents: Seq<Entity>, flags: Seq<bool>, n: nat)
    requires
        n <= flags.len(),
        forall|i: int| 0 <= i < flags.len() ==> !(#[trigger] flags[i]),
    ensures
        flagged(ents, flags, n) == Seq::<Entity>::empty(),
    decreases n,
{
    if n > 0 {
        lemma_cleared_reports_nothing(ents, flags, (n - 1) as nat);
    }
}

} // verus!

verus! {

/// An entity message tuple: id, red, green, blue, white.
pub type EntityTuple = (u16, u8, u8, u8, u8);

/// First entity id of physical strip `k` (0..64).
pub open spec fn strip_base(k: int) -> int {
    100 + 5000 * (k / 16) + 300 * (k % 16)
}

/// An unlit entity.
pub open spec fn dark(id: int) -> EntityTuple {
    (id as u16, 0u8, 0u8, 0u8, 0u8)
}

/// The entity `id` lit with the pixel whose red byte is at `idx`.
pub open spec fn lit(frame: Seq<u8>, id: int, idx: int) -> EntityTuple {
    (id as u16, frame[idx], frame[idx + 1], frame[idx + 2], 0u8)
}

/// Row shown by LED `1 + i` of a rising half: counted from the bottom,
/// stopping at the top row.
pub open spec fn rising_row(height: int, i: int) -> int {
    if height - (1 + i) > 0 { height - (1 + i) } else { 0 }
}

/// The first `n` LEDs of the rising half of a strip (LED `1 + i` shows column
/// `col` at `rising_row(height, i)`), leaving out pixels past the end of the
/// frame.
pub open spec fn rising(frame: Seq<u8>, width: int, height: int, col: int, base: int, n: nat) -> Seq<EntityTuple>
    decreases n,
{
    if n == 0 {
        Seq::empty()
    } else {
        let i = n - 1;
        let prev = rising(frame, width, height, col, base, (n - 1) as nat);
        let idx = (rising_row(height, i) * width + col) * 3;
        if idx + 2 < frame.len() { prev.push(lit(frame, base + 1 + i, idx)) } else { prev }
    }
}

/// The first `n` LEDs of the falling half of a strip (LED `130 + i` shows
/// column `col` at row `i`), leaving out pixels past the end of the frame.
pub open spec fn falling(frame: Seq<u8>, width: int, col: int, base: int, n: nat) -> Seq<EntityTuple>
    decreases n,
{
    if n == 0 {
        Seq::empty()
    } else {
        let i = n - 1;
        let prev = falling(frame, width, col, base, (n - 1) as nat);
        let idx = (i * width + col) * 3;
        if idx + 2 < frame.len() { prev.push(lit(frame, base + 130 + i, idx)) } else { prev }
    }
}

/// The entities of strip `k`, present only when both of its columns `2k` and
/// `2k + 1` exist: an unlit LED, the rising half, an unlit LED, the falling
/// half, an unlit LED.
pub open spec fn strip_entities(frame: Seq<u8>, width: int, height: int, k: int) -> Seq<EntityTuple> {
    let base = strip_base(k);
    if 2 * k + 1 >= width {
        Seq::empty()
    } else {
        seq![dark(base)] + rising(frame, width, height, 2 * k, base, 128) + seq![dark(base + 129)]
            + falling(frame, width, 2 * k + 1, base, 128) + seq![dark(base + 258)]
    }
}

/// The entities of the first `n` strips, in order.
pub open spec fn strips_entities(frame: Seq<u8>, width: int, height: int, n: nat) -> Seq<EntityTuple>
    decreases n,
{
    if n == 0 {
        Seq::empty()
    } else {
        strips_entities(frame, width, height, (n - 1) as nat) + strip_entities(frame, width, height, n - 1)
    }
}

/// The number of rows the mapping may read: the frame's height, and at least
/// the 128 rows of a strip half.
pub open spec fn rows_read(height: int) -> int {
    if height > 128 { height } else { 128 }
}

proof fn lemma_index_bound(width: int, rows: int, x: int, y: int)
    requires
        0 <= x < width,
        0 <= y < rows,
    ensures
        0 <= y * width + x < rows * width,
{
    assert(y * width <= (rows - 1) * width) by (nonlinear_arith)
        requires
            0 <= y < rows,
            0 <= width,
    ;
    assert((rows - 1) * width + width == rows * width) by (nonlinear_arith);
    assert(0 <= y * width) by (nonlinear_arith)
        requires
            0 <= y,
            0 <= width,
    ;
}

proof fn lemma_rising_full(frame: Seq<u8>, col: int, base: int, n: nat)
    requires
        frame.len() == 128 * 128 * 3,
        0 <= col < 128,
        n <= 128,
    ensures
        rising(frame, 128, 128, col, base, n).len() == n,
        forall|i: int| 0 <= i < n ==> {
            let idx = ((127 - i) * 128 + col) * 3;
            #[trigger] rising(frame, 128, 128, col, base, n)[i]
                == ((base + 1 + i) as u16, frame[idx], frame[idx + 1], frame[idx + 2], 0u8)
        },
    decreases n,
{
    if n > 0 {
        lemma_rising_full(frame, col, base, (n - 1) as nat);
    }
}

proof fn lemma_falling_full(frame: Seq<u8>, col: int, base: int, n: nat)
    requires
        frame.len() == 128 * 128 * 3,
        0 <= col < 128,
        n <= 128,
    ensures
        falling(frame, 128, col, base, n).len() == n,
        forall|i: int| 0 <= i < n ==> {
            let idx = (i * 128 + col) * 3;
            #[trigger] falling(frame, 128, col, base, n)[i]
                == ((base + 130 + i) as u16, frame[idx], frame[idx + 1], frame[idx + 2], 0u8)
        },
    decreases n,
{
    if n > 0 {
        lemma_falling_full(frame, col, base, (n - 1) as nat);
    }
}

proof fn lemma_strips_at(frame: Seq<u8>, n: nat)
    requires
        frame.len() == 128 * 128 * 3,
        n <= 64,
    ensures
        strips_entities(frame, 128, 128, n).len() == 259 * n,
        forall|k: int, j: int| 0 <= k < n && 0 <= j < 259 ==>
            #[trigger] strips_entities(frame, 128, 128, n)[259 * k + j] == strip_entities(frame, 128, 128, k)[j],
    decreases n,
{
    if n > 0 {
        let n1 = (n - 1) as nat;
        lemma_strips_at(frame, n1);
        let k1 = n1 as int;
        lemma_rising_full(frame, 2 * k1, strip_base(k1), 128);
        lemma_falling_full(frame, 2 * k1 + 1, strip_base(k1), 128);
        assert(strip_entities(frame, 128, 128, k1).len() == 259);
        let prev = strips_entities(frame, 128, 128, n1);
        assert forall|k: int, j: int| 0 <= k < n && 0 <= j < 259 implies
            #[trigger] strips_entities(frame, 128, 128, n)[259 * k + j] == strip_entities(frame, 128, 128, k)[j] by {
            if k < n1 {
                assert(prev[259 * k + j] == strip_entities(frame, 128, 128, k)[j]);
            }
        }
    }
}

/// The entities of a full 128 x 128 frame, strip by strip: strip `k`
/// (0..64) takes the 259 entities from `259 k` on, with ids counted from
/// `b = 100 + 5000 (k / 16) + 300 (k % 16)`.  Entity `b` is unlit; entity
/// `b + 1 + i` shows column `2 k` at row `127 - i` (bottom to top); entity
/// `b + 129` is unlit; entity `b + 130 + i` shows column `2 k + 1` at row `i`
/// (top to bottom); entity `b + 258` is unlit.  A shown pixel gives its red,
/// green and blue, and white 0.
pub proof fn lemma_full_frame_entities(frame: Seq<u8>)
    requires
        frame.len() == 128 * 128 * 3,
    ensures
        strips_entities(frame, 128, 128, 64).len() == 64 * 259,
        forall|k: int| 0 <= k < 64 ==> {
            let b = 100 + 5000 * (k / 16) + 300 * (k % 16);
            &&& #[trigger] strips_entities(frame, 128, 128, 64)[259 * k] == (b as u16, 0u8, 0u8, 0u8, 0u8)
            &&& strips_entities(frame, 128, 128, 64)[259 * k + 129] == ((b + 129) as u16, 0u8, 0u8, 0u8, 0u8)
            &&& strips_entities(frame, 128, 128, 64)[259 * k + 258] == ((b + 258) as u16, 0u8, 0u8, 0u8, 0u8)
        },
        forall|k: int, i: int| 0 <= k < 64 && 0 <= i < 128 ==> {
            let b = 100 + 5000 * (k / 16) + 300 * (k % 16);
            let up = ((127 - i) * 128 + 2 * k) * 3;
            let down = (i * 128 + 2 * k + 1) * 3;
            &&& #[trigger] strips_entities(frame, 128, 128, 64)[259 * k + 1 + i]
                == ((b + 1 + i) as u16, frame[up], frame[up + 1], frame[up + 2], 0u8)
            &&& strips_entities(frame, 128, 128, 64)[259 * k + 130 + i]
                == ((b + 130 + i) as u16, frame[down], frame[down + 1], frame[down + 2], 0u8)
        },
{
    lemma_strips_at(frame, 64);
    assert forall|k: int| 0 <= k < 64 implies {
        let b = 100 + 5000 * (k / 16) + 300 * (k % 16);
        &&& #[trigger] strips_entities(frame, 128, 128, 64)[259 * k] == (b as u16, 0u8, 0u8, 0u8, 0u8)
        &&& strips_entities(frame, 128, 128, 64)[259 * k + 129] == ((b + 129) as u16, 0u8, 0u8, 0u8, 0u8)
        &&& strips_entities(frame, 128, 128, 64)[259 * k + 258] == ((b + 258) as u16, 0u8, 0u8, 0u8, 0u8)
    } by {
        lemma_rising_full(frame, 2 * k, strip_base(k), 128);
        lemma_falling_full(frame, 2 * k + 1, strip_base(k), 128);
        assert(strips_entities(frame, 128, 128, 64)[259 * k + 0] == strip_entities(frame, 128, 128, k)[0]);
        assert(strips_entities(frame, 128, 128, 64)[259 * k + 129] == strip_entities(frame, 128, 128, k)[129]);
        assert(strips_entities(frame, 128, 128, 64)[259 * k + 258] == strip_entities(frame, 128, 128, k)[258]);
    }
    assert forall|k: int, i: int| 0 <= k < 64 && 0 <= i < 128 implies {
        let b = 100 + 5000 * (k / 16) + 300 * (k % 16);
        let up = ((127 - i) * 128 + 2 * k) * 3;
        let down = (i * 128 + 2 * k + 1) * 3;
        &&& #[trigger] strips_entities(frame, 128, 128, 64)[259 * k + 1 + i]
            == ((b + 1 + i) as u16, frame[up], frame[up + 1], frame[up + 2], 0u8)
        &&& strips_entities(frame, 128, 128, 64)[259 * k + 130 + i]
            == ((b + 130 + i) as u16, frame[down], frame[down + 1], frame[down + 2], 0u8)
    } by {
        lemma_rising_full(frame, 2 * k, strip_base(k), 128);
        lemma_falling_full(frame, 2 * k + 1, strip_base(k), 128);
        assert(strips_entities(frame, 128, 128, 64)[259 * k + (1 + i)] == strip_entities(frame, 128, 128, k)[1 + i]);
        assert(strips_entities(frame, 128, 128, 64)[259 * k + (130 + i)] == strip_entities(frame, 128, 128, k)[130 + i]);
    }
}

/// Replaces the contents of `output` with the entities of the wall's 64
/// strips for a rendered RGB frame of `width` x `height` pixels (see
/// `strip_entities`).
pub fn frame_to_entities_optimized(frame: &[u8], width: usize, height: usize, output: &mut Vec<EntityTuple>)
    requires
        rows_read(height as int) * width * 3 <= usize::MAX,
    ensures
        final(output)@ == strips_entities(frame@, width as int, height as int, 64),
{
    output.clear();
    output.reserve(64 * 259);
    let quarter_bases: [u16; 4] = [100, 5100, 10100, 15100];
    let mut quarter: usize = 0;
    while quarter < 4
        invariant
            quarter <= 4,
            quarter_bases@ == seq![100u16, 5100u16, 10100u16, 15100u16],
            rows_read(height as int) * width * 3 <= usize::MAX,
            output@ == strips_entities(frame@, width as int, height as int, (quarter * 16) as nat),
        decreases 4 - quarter,
    {
        let base_entity = quarter_bases[quarter];
        let quarter_x_offset = quarter * 32;
        let mut band: usize = 0;
        while band < 16
            invariant
                quarter < 4,
                band <= 16,
                rows_read(height as int) * width * 3 <= usize::MAX,
                base_entity == 100 + 5000 * quarter,
                quarter_x_offset == quarter * 32,
                quarter_bases@ == seq![100u16, 5100u16, 10100u16, 15100u16],
                output@ == strips_entities(frame@, width as int, height as int, (quarter * 16 + band) as nat),
            decreases 16 - band,
        {
            let ghost k: int = (quarter * 16 + band) as int;
            let ghost before = output@;
            let col_start = quarter_x_offset + band * 2;
            let entity_base: u16 = base_entity + (band as u16) * 300;
            assert(k / 16 == quarter && k % 16 == band);
            assert(entity_base == strip_base(k));
            if col_start + 1 >= width {
                assert(output@ =~= strips_entities(frame@, width as int, height as int, (k + 1) as nat));
                band = band + 1;
                continue;
            }
            output.push((entity_base, 0, 0, 0, 0));
            let col1 = col_start;
            let mut i: usize = 0;
            while i < 128
                invariant
                    i <= 128,
                    col1 + 1 < width,
                    rows_read(height as int) * width * 3 <= usize::MAX,
                    entity_base == strip_base(k),
                    col1 == 2 * k,
                    0 <= k < 64,
                    output@ == before + seq![dark(strip_base(k))]
                        + rising(frame@, width as int, height as int, col1 as int, strip_base(k), i as nat),
                decreases 128 - i,
            {
                let y = height.saturating_sub(1 + i);
                assert(y == rising_row(height as int, i as int));
                proof {
                    lemma_index_bound(width as int, rows_read(height as int), col1 as int, y as int);
                }
                let pixel_idx = (y * width + col1) * 3;
                if pixel_idx + 2 < frame.len() {
                    output.push((entity_base + 1 + (i as u16), frame[pixel_idx], frame[pixel_idx + 1], frame[pixel_idx + 2], 0));
                }
                i = i + 1;
            }
            output.push((entity_base + 129, 0, 0, 0, 0));
            let ghost mid = output@;
            let col2 = col_start + 1;
            let mut i: usize = 0;
            while i < 128
                invariant
                    i <= 128,
                    col2 < width,
                    rows_read(height as int) * width * 3 <= usize::MAX,
                    entity_base == strip_base(k),
                    col2 == 2 * k + 1,
                    0 <= k < 64,
                    output@ == mid + falling(frame@, width as int, col2 as int, strip_base(k), i as nat),
                decreases 128 - i,
            {
                proof {
                    lemma_index_bound(width as int, rows_read(height as int), col2 as int, i as int);
                }
                let pixel_idx = (i * width + col2) * 3;
                if pixel_idx + 2 < frame.len() {
                    output.push((entity_base + 130 + (i as u16), frame[pixel_idx], frame[pixel_idx + 1], frame[pixel_idx + 2], 0));
                }
                i = i + 1;
            }
            output.push((entity_base + 258, 0, 0, 0, 0));
            assert(output@ =~= strips_entities(frame@, width as int, height as int, (k + 1) as nat));
            band = band + 1;
        }
        quarter = quarter + 1;
    }
}

/// The entities of the wall's 64 strips for a rendered RGB frame (see
/// `frame_to_entities_optimized`).
pub fn frame_to_entities(frame: &[u8], width: usize, height: usize) -> (out: Vec<EntityTuple>)
    requires
        rows_read(height as int) * width * 3 <= usize::MAX,
    ensures
        out@ == strips_entities(frame@, width as int, height as int, 64),
{
    let mut entities: Vec<EntityTuple> = Vec::with_capacity(64 * 259);
    frame_to_entities_optimized(frame, width, height, &mut entities);
    entities
}

} // verus!

verus! {

broadcast use vstd::seq_lib::group_to_multiset_ensures;

/// The entities stored by id, strictly increasing.
pub open spec fn sorted_entities(v: Seq<Entity>) -> bool {
    forall|i: int, j: int| 0 <= i < j < v.len() ==> (#[trigger] v[i]).id < (#[trigger] v[j]).id
}

/// The stored entity with id `id`, if any.
pub open spec fn stored(v: Seq<Entity>, id: u16) -> Option<Entity> {
    if exists|i: int| 0 <= i < v.len() && (#[trigger] v[i]).id == id {
        Some(v[choose|i: int| 0 <= i < v.len() && (#[trigger] v[i]).id == id])
    } else {
        None
    }
}

/// The entity an update tuple describes.
pub open spec fn entity_of(t: EntityTuple) -> Entity {
    Entity { id: t.0, r: t.1, g: t.2, b: t.3, w: t.4 }
}

/// The entity stored for `id` after the first `n` updates of `list`,
/// starting from `start`.
pub open spec fn stored_after(start: Seq<Entity>, list: Seq<EntityTuple>, n: nat, id: u16) -> Option<Entity>
    decreases n,
{
    if n == 0 {
        stored(start, id)
    } else if list[n - 1].0 == id {
        Some(entity_of(list[n - 1]))
    } else {
        stored_after(start, list, (n - 1) as nat, id)
    }
}

/// The ids, in update order, of the first `n` updates that changed what was
/// stored (a new id, or new levels for a known id).
pub open spec fn changed_ids(start: Seq<Entity>, list: Seq<EntityTuple>, n: nat) -> Seq<u16>
    decreases n,
{
    if n == 0 {
        Seq::empty()
    } else {
        let prev = changed_ids(start, list, (n - 1) as nat);
        if stored_after(start, list, (n - 1) as nat, list[n - 1].0) != Some(entity_of(list[n - 1])) {
            prev.push(list[n - 1].0)
        } else {
            prev
        }
    }
}

/// The sextets of the stored entities with the ids of `ids`, in that order.
pub open spec fn sextets_of_ids(v: Seq<Entity>, ids: Seq<u16>, n: nat) -> Seq<u8>
    decreases n,
{
    if n == 0 { Seq::empty() } else { sextets_of_ids(v, ids, (n - 1) as nat) + sextet(stored(v, ids[n - 1]).unwrap()) }
}

/// The sextets of the first `n` stored entities.
pub open spec fn all_sextets(v: Seq<Entity>, n: nat) -> Seq<u8>
    decreases n,
{
    if n == 0 { Seq::empty() } else { all_sextets(v, (n - 1) as nat) + sextet(v[n - 1]) }
}

/// The eight bytes of a range in a configuration payload.
pub open spec fn range_bytes(r: EntityRange) -> Seq<u8> {
    le16(r.sextet_start) + le16(r.entity_start) + le16(r.sextet_end) + le16(r.entity_end)
}

/// The configuration payload of the first `n` ranges.
pub open spec fn ranges_payload(rs: Seq<EntityRange>, n: nat) -> Seq<u8>
    decreases n,
{
    if n == 0 { Seq::empty() } else { ranges_payload(rs, (n - 1) as nat) + range_bytes(rs[n - 1]) }
}

/// The four magic bytes of iHub messages.
pub open spec fn ihub_magic_bytes() -> Seq<u8> {
    seq![105u8, 72u8, 117u8, 66u8]
}

/// Whether `s` is in non-decreasing order.
pub open spec fn nondecreasing(s: Seq<u16>) -> bool {
    forall|i: int, j: int| 0 <= i <= j < s.len() ==> (#[trigger] s[i]) <= (#[trigger] s[j])
}

proof fn lemma_stored_at(v: Seq<Entity>, i: int)
    requires
        sorted_entities(v),
        0 <= i < v.len(),
    ensures
        stored(v, v[i].id) == Some(v[i]),
{
    let j = choose|j: int| 0 <= j < v.len() && (#[trigger] v[j]).id == v[i].id;
    if j < i {
        assert(v[j].id < v[i].id);
    } else if j > i {
        assert(v[i].id < v[j].id);
    }
}

/// The position of the entity with id `id`, if stored.
fn find_entity(v: &Vec<Entity>, id: u16) -> (r: Option<usize>)
    requires
        sorted_entities(v@),
    ensures
        match r {
            Some(i) => i < v@.len() && v@[i as int].id == id && stored(v@, id) == Some(v@[i as int]),
            None => stored(v@, id) is None,
        },
{
    let mut i: usize = 0;
    while i < v.len()
        invariant
            i <= v@.len(),
            sorted_entities(v@),
            forall|k: int| 0 <= k < i ==> (#[trigger] v@[k]).id != id,
        decreases v@.len() - i,
    {
        if v[i].id == id {
            proof {
                lemma_stored_at(v@, i as int);
            }
            return Some(i);
        }
        i = i + 1;
    }
    None
}

/// Stores `e`, replacing the entity of the same id or inserting it in order.
fn store_entity(v: &mut Vec<Entity>, e: Entity)
    requires
        sorted_entities(old(v)@),
    ensures
        sorted_entities(final(v)@),
        forall|id: u16| #[trigger] stored(final(v)@, id) == if id == e.id { Some(e) } else { stored(old(v)@, id) },
        final(v)@.len() == old(v)@.len() + if stored(old(v)@, e.id) is Some { 0int } else { 1int },
{
    let mut pos: usize = 0;
    while pos < v.len() && v[pos].id < e.id
        invariant
            pos <= v@.len(),
            v@ == old(v)@,
            forall|k: int| 0 <= k < pos ==> (#[trigger] v@[k]).id < e.id,
        decreases v@.len() - pos,
    {
        pos = pos + 1;
    }
    let ghost old_v = v@;
    if pos < v.len() && v[pos].id == e.id {
        proof {
            lemma_stored_at(old_v, pos as int);
        }
        v.set(pos, e);
        proof {
            assert forall|a: int, b: int| 0 <= a < b < v@.len() implies (#[trigger] v@[a]).id < (#[trigger] v@[b]).id by {
                assert(old_v[a].id < old_v[b].id);
            }
            assert forall|id: u16| #[trigger] stored(v@, id) == if id == e.id { Some(e) } else { stored(old_v, id) } by {
                if id == e.id {
                    lemma_stored_at(v@, pos as int);
                } else if exists|i: int| 0 <= i < old_v.len() && (#[trigger] old_v[i]).id == id {
                    let i = choose|i: int| 0 <= i < old_v.len() && (#[trigger] old_v[i]).id == id;
                    lemma_stored_at(old_v, i);
                    assert(v@[i] == old_v[i]);
                    lemma_stored_at(v@, i);
                } else {
                    assert forall|i: int| 0 <= i < v@.len() implies (#[trigger] v@[i]).id != id by {
                        if i != pos {
                            assert(v@[i] == old_v[i]);
                        }
                    }
                }
            }
        }
    } else {
        proof {
            assert forall|i: int| 0 <= i < old_v.len() implies (#[trigger] old_v[i]).id != e.id by {
                if i >= pos {
                    if i > pos {
                        assert(old_v[pos as int].id < old_v[i].id);
                    }
                }
            }
        }
        v.insert(pos, e);
        proof {
            let p = pos as int;
            assert forall|a: int, b: int| 0 <= a < b < v@.len() implies (#[trigger] v@[a]).id < (#[trigger] v@[b]).id by {
                if b < p {
                    assert(v@[a] == old_v[a] && v@[b] == old_v[b]);
                } else if b == p {
                    assert(v@[a] == old_v[a]);
                } else if a < p {
                    assert(v@[a] == old_v[a] && v@[b] == old_v[b - 1]);
                    if b - 1 > p {
                        assert(old_v[p].id < old_v[b - 1].id);
                    }
                } else if a == p {
                    assert(v@[b] == old_v[b - 1]);
                    if b - 1 > p {
                        assert(old_v[p].id < old_v[b - 1].id);
                    }
                } else {
                    assert(v@[a] == old_v[a - 1] && v@[b] == old_v[b - 1]);
                }
            }
            assert forall|id: u16| #[trigger] stored(v@, id) == if id == e.id { Some(e) } else { stored(old_v, id) } by {
                if id == e.id {
                    lemma_stored_at(v@, p);
                } else if exists|i: int| 0 <= i < old_v.len() && (#[trigger] old_v[i]).id == id {
                    let i = choose|i: int| 0 <= i < old_v.len() && (#[trigger] old_v[i]).id == id;
                    lemma_stored_at(old_v, i);
                    let j = if i < p { i } else { i + 1 };
                    assert(v@[j] == old_v[i]);
                    lemma_stored_at(v@, j);
                } else {
                    assert forall|i: int| 0 <= i < v@.len() implies (#[trigger] v@[i]).id != id by {
                        if i < p {
                            assert(v@[i] == old_v[i]);
                        } else if i > p {
                            assert(v@[i] == old_v[i - 1]);
                        }
                    }
                }
            }
        }
    }
}

/// `ids` sorted into non-decreasing order.
fn sort_ids(ids: &Vec<u16>) -> (out: Vec<u16>)
    ensures
        nondecreasing(out@),
        out@.to_multiset() == ids@.to_multiset(),
{
    let mut out: Vec<u16> = Vec::new();
    let mut i: usize = 0;
    while i < ids.len()
        invariant
            i <= ids@.len(),
            nondecreasing(out@),
            out@.to_multiset() == ids@.subrange(0, i as int).to_multiset(),
        decreases ids@.len() - i,
    {
        let x = ids[i];
        let mut pos: usize = 0;
        while pos < out.len() && out[pos] <= x
            invariant
                pos <= out@.len(),
                forall|k: int| 0 <= k < pos ==> (#[trigger] out@[k]) <= x,
            decreases out@.len() - pos,
        {
            pos = pos + 1;
        }
        let ghost old_out = out@;
        out.insert(pos, x);
        proof {
            let p = pos as int;
            assert forall|a: int, b: int| 0 <= a <= b < out@.len() implies (#[trigger] out@[a]) <= (#[trigger] out@[b]) by {
                if b < p {
                    assert(out@[a] == old_out[a] && out@[b] == old_out[b]);
                } else if b == p {
                    if a < p {
                        assert(out@[a] == old_out[a]);
                    }
                } else if a < p {
                    assert(out@[a] == old_out[a] && out@[b] == old_out[b - 1]);
                    assert(old_out[p] > x);
                } else if a == p {
                    assert(out@[b] == old_out[b - 1]);
                    assert(old_out[p] > x);
                } else {
                    assert(out@[a] == old_out[a - 1] && out@[b] == old_out[b - 1]);
                }
            }
            assert(out@.remove(p) =~= old_out);
            assert(out@.remove(p).to_multiset() =~= out@.to_multiset().remove(x));
            assert(out@.to_multiset().count(x) > 0) by {
                assert(out@.contains(x)) by {
                    assert(out@[p] == x);
                }
            }
            assert(out@.to_multiset() =~= old_out.to_multiset().insert(x));
            assert(ids@.subrange(0, i + 1) =~= ids@.subrange(0, i as int).push(x));
        }
        i = i + 1;
    }
    assert(ids@.subrange(0, ids@.len() as int) =~= ids@);
    out
}

} // verus!

verus! {

/// The protocol state of the link to one iHub controller: its universe, the
/// last state of every entity, the ranges it is configured with, the ids
/// changed by the last batch, and whether small changes are sent alone.
/// The socket that carries the messages belongs to the caller.
pub struct IHubController {
    universe: u8,
    entities: Vec<Entity>,
    entity_ranges: Vec<EntityRange>,
    dirty_entities: Vec<u16>,
    use_differential_updates: bool,
    last_config_ms: u64,
}

impl IHubController {
    /// When the configuration was last sent, in milliseconds since the link
    /// was created.
    pub closed spec fn spec_last_config(&self) -> u64 {
        self.last_config_ms
    }

    /// The universe number.
    pub closed spec fn spec_universe(&self) -> u8 {
        self.universe
    }

    /// The stored entities, in id order.
    pub closed spec fn spec_entities(&self) -> Seq<Entity> {
        self.entities@
    }

    /// The configured ranges.
    pub closed spec fn spec_ranges(&self) -> Seq<EntityRange> {
        self.entity_ranges@
    }

    /// The ids changed by the last batch.
    pub closed spec fn spec_dirty(&self) -> Seq<u16> {
        self.dirty_entities@
    }

    /// Whether small changes are sent alone.
    pub closed spec fn spec_differential(&self) -> bool {
        self.use_differential_updates
    }

    /// The entities are kept sorted by id.
    pub closed spec fn wf(&self) -> bool {
        sorted_entities(self.entities@)
    }

    /// A link to universe `universe` with no entity, no range, and
    /// differential updates on.
    pub fn new(universe: u8) -> (c: Self)
        ensures
            c.wf(),
            c.spec_universe() == universe,
            c.spec_entities() == Seq::<Entity>::empty(),
            c.spec_ranges() == Seq::<EntityRange>::empty(),
            c.spec_dirty() == Seq::<u16>::empty(),
            c.spec_differential(),
            c.spec_last_config() == 0,
    {
        IHubController {
            universe,
            entities: Vec::new(),
            entity_ranges: Vec::new(),
            dirty_entities: Vec::new(),
            use_differential_updates: true,
            last_config_ms: 0,
        }
    }

    /// The ids changed by the last batch.
    pub fn dirty_entities(&self) -> (d: &Vec<u16>)
        ensures
            d@ == self.spec_dirty(),
    {
        &self.dirty_entities
    }

    /// Turns the sending of small changes alone on or off.
    pub fn set_differential_updates(&mut self, enabled: bool)
        ensures
            final(self).spec_differential() == enabled,
            final(self).spec_entities() == old(self).spec_entities(),
            final(self).spec_ranges() == old(self).spec_ranges(),
            final(self).spec_dirty() == old(self).spec_dirty(),
            final(self).spec_universe() == old(self).spec_universe(),
            final(self).spec_last_config() == old(self).spec_last_config(),
            final(self).wf() == old(self).wf(),
    {
        self.use_differential_updates = enabled;
    }

    /// The configuration message: the ranges, compressed; always built.
    pub fn config_message(&self) -> (m: Option<Vec<u8>>)
        ensures
            m matches Some(v) && v@ == crate::hubmsg::hub_message(
                ihub_magic_bytes(), MSG_TYPE_CONFIG, self.spec_universe(), self.spec_ranges().len() as int,
                gzip_fast(ranges_payload(self.spec_ranges(), self.spec_ranges().len()))),
    {
        let mut payload: Vec<u8> = Vec::new();
        let mut i: usize = 0;
        while i < self.entity_ranges.len()
            invariant
                i <= self.entity_ranges@.len(),
                payload@ == ranges_payload(self.entity_ranges@, i as nat),
            decreases self.entity_ranges@.len() - i,
        {
            let r = self.entity_ranges[i];
            push_le16(&mut payload, r.sextet_start);
            push_le16(&mut payload, r.entity_start);
            push_le16(&mut payload, r.sextet_end);
            push_le16(&mut payload, r.entity_end);
            i = i + 1;
            assert(payload@ =~= ranges_payload(self.entity_ranges@, i as nat));
        }
        crate::hubmsg::build_hub_message(ihub_magic(), MSG_TYPE_CONFIG, self.universe, self.entity_ranges.len(), payload.as_slice())
    }

    /// The configuration message when it is due at `now_ms` (a second or
    /// more after it was last due), which then becomes the time it was last
    /// sent; `None` exactly when it is not due.
    pub fn tick(&mut self, now_ms: u64) -> (m: Option<Vec<u8>>)
        requires
            old(self).wf(),
        ensures
            final(self).wf(),
            final(self).spec_entities() == old(self).spec_entities(),
            final(self).spec_ranges() == old(self).spec_ranges(),
            final(self).spec_dirty() == old(self).spec_dirty(),
            final(self).spec_universe() == old(self).spec_universe(),
            final(self).spec_differential() == old(self).spec_differential(),
            final(self).spec_last_config() == if crate::hubmsg::config_is_due(old(self).spec_last_config(), now_ms) {
                now_ms
            } else {
                old(self).spec_last_config()
            },
            !crate::hubmsg::config_is_due(old(self).spec_last_config(), now_ms) ==> m is None,
            crate::hubmsg::config_is_due(old(self).spec_last_config(), now_ms) ==> (m matches Some(v) && v@ == crate::hubmsg::hub_message(
                ihub_magic_bytes(), MSG_TYPE_CONFIG, old(self).spec_universe(), old(self).spec_ranges().len() as int,
                gzip_fast(ranges_payload(old(self).spec_ranges(), old(self).spec_ranges().len())))),
    {
        if crate::hubmsg::config_due(self.last_config_ms, now_ms) {
            let m = self.config_message();
            self.last_config_ms = now_ms;
            m
        } else {
            None
        }
    }

    /// Replaces the ranges and gives the configuration message to send.
    pub fn configure_entities(&mut self, ranges: Vec<EntityRange>) -> (m: Option<Vec<u8>>)
        requires
            old(self).wf(),
        ensures
            final(self).wf(),
            final(self).spec_ranges() == ranges@,
            final(self).spec_entities() == old(self).spec_entities(),
            final(self).spec_dirty() == old(self).spec_dirty(),
            final(self).spec_universe() == old(self).spec_universe(),
            final(self).spec_last_config() == old(self).spec_last_config(),
            final(self).spec_differential() == old(self).spec_differential(),
            m matches Some(v) && v@ == crate::hubmsg::hub_message(
                ihub_magic_bytes(), MSG_TYPE_CONFIG, old(self).spec_universe(), ranges@.len() as int,
                gzip_fast(ranges_payload(ranges@, ranges@.len()))),
    {
        self.entity_ranges = ranges;
        self.config_message()
    }

    /// The update carrying the entities with the ids in `dirty`, in order.
    fn differential_message(&self) -> (m: Option<Vec<u8>>)
        requires
            self.wf(),
            forall|k: int| 0 <= k < self.spec_dirty().len() ==> stored(self.spec_entities(), #[trigger] self.spec_dirty()[k]) is Some,
        ensures
            m matches Some(v) && v@ == crate::hubmsg::hub_message(
                ihub_magic_bytes(), MSG_TYPE_DIFFERENTIAL, self.spec_universe(), self.spec_dirty().len() as int,
                gzip_fast(sextets_of_ids(self.spec_entities(), self.spec_dirty(), self.spec_dirty().len()))),
    {
        let mut payload: Vec<u8> = Vec::new();
        let mut i: usize = 0;
        while i < self.dirty_entities.len()
            invariant
                i <= self.dirty_entities@.len(),
                self.wf(),
                forall|k: int| 0 <= k < self.spec_dirty().len() ==> stored(self.spec_entities(), #[trigger] self.spec_dirty()[k]) is Some,
                payload@ == sextets_of_ids(self.entities@, self.dirty_entities@, i as nat),
            decreases self.dirty_entities@.len() - i,
        {
            let id = self.dirty_entities[i];
            assert(stored(self.spec_entities(), self.spec_dirty()[i as int]) is Some);
            match find_entity(&self.entities, id) {
                Some(p) => {
                    let s = self.entities[p].to_sextet();
                    push_all(&mut payload, &s);
                },
                None => {},
            }
            i = i + 1;
            assert(payload@ =~= sextets_of_ids(self.entities@, self.dirty_entities@, i as nat));
        }
        crate::hubmsg::build_hub_message(ihub_magic(), MSG_TYPE_DIFFERENTIAL, self.universe, self.dirty_entities.len(), payload.as_slice())
    }

    /// The update carrying every stored entity, in id order.
    fn full_message(&self) -> (m: Option<Vec<u8>>)
        ensures
            m matches Some(v) && v@ == crate::hubmsg::hub_message(
                ihub_magic_bytes(), MSG_TYPE_UPDATE, self.spec_universe(), self.spec_entities().len() as int,
                gzip_fast(all_sextets(self.spec_entities(), self.spec_entities().len()))),
    {
        let mut payload: Vec<u8> = Vec::new();
        let mut i: usize = 0;
        while i < self.entities.len()
            invariant
                i <= self.entities@.len(),
                payload@ == all_sextets(self.entities@, i as nat),
            decreases self.entities@.len() - i,
        {
            let s = self.entities[i].to_sextet();
            push_all(&mut payload, &s);
            i = i + 1;
            assert(payload@ =~= all_sextets(self.entities@, i as nat));
        }
        crate::hubmsg::build_hub_message(ihub_magic(), MSG_TYPE_UPDATE, self.universe, self.entities.len(), payload.as_slice())
    }

    /// Records a batch of entity states and gives the message to send, if any.
    /// The ids whose state changed are remembered in batch order; when none
    /// changed nothing is sent.  When differential updates are on and fewer
    /// than a quarter of the stored entities changed, the changed ids are
    /// sorted and only their entities are sent (type 3, once per change);
    /// otherwise every entity is sent (type 2).
    pub fn update_entities(&mut self, entities: &[EntityTuple]) -> (m: Option<Vec<u8>>)
        requires
            old(self).wf(),
        ensures
            final(self).wf(),
            forall|id: u16| #[trigger] stored(final(self).spec_entities(), id) == stored_after(old(self).spec_entities(), entities@, entities@.len(), id),
            final(self).spec_ranges() == old(self).spec_ranges(),
            final(self).spec_universe() == old(self).spec_universe(),
            final(self).spec_last_config() == old(self).spec_last_config(),
            final(self).spec_differential() == old(self).spec_differential(),
            ({
                let d = changed_ids(old(self).spec_entities(), entities@, entities@.len());
                let n = final(self).spec_entities().len();
                if d.len() == 0 {
                    m is None && final(self).spec_dirty() == d
                } else if old(self).spec_differential() && d.len() < n / 4 {
                    &&& nondecreasing(final(self).spec_dirty())
                    &&& final(self).spec_dirty().to_multiset() == d.to_multiset()
                    &&& m matches Some(v) && v@ == crate::hubmsg::hub_message(
                        ihub_magic_bytes(), MSG_TYPE_DIFFERENTIAL, old(self).spec_universe(), d.len() as int,
                        gzip_fast(sextets_of_ids(final(self).spec_entities(), final(self).spec_dirty(), d.len())))
                } else {
                    &&& final(self).spec_dirty() == d
                    &&& m matches Some(v) && v@ == crate::hubmsg::hub_message(
                        ihub_magic_bytes(), MSG_TYPE_UPDATE, old(self).spec_universe(), n as int,
                        gzip_fast(all_sextets(final(self).spec_entities(), n)))
                }
            }),
    {
        self.dirty_entities.clear();
        let ghost start = self.entities@;
        let mut i: usize = 0;
        while i < entities.len()
            invariant
                i <= entities@.len(),
                sorted_entities(self.entities@),
                start == old(self).entities@,
                self.entity_ranges == old(self).entity_ranges,
                self.universe == old(self).universe,
                self.last_config_ms == old(self).last_config_ms,
                self.use_differential_updates == old(self).use_differential_updates,
                self.dirty_entities@ == changed_ids(start, entities@, i as nat),
                forall|id: u16| #[trigger] stored(self.entities@, id) == stored_after(start, entities@, i as nat, id),
                forall|k: int| 0 <= k < self.dirty_entities@.len() ==> stored(self.entities@, #[trigger] self.dirty_entities@[k]) is Some,
            decreases entities@.len() - i,
        {
            let (id, r, g, b, w) = entities[i];
            let entity = Entity::new_rgbw(id, r, g, b, w);
            assert(entity == entity_of(entities@[i as int]));
            let ghost before = self.entities@;
            let ghost dirty_before = self.dirty_entities@;
            match find_entity(&self.entities, id) {
                Some(p) => {
                    if self.entities[p] != entity {
                        store_entity(&mut self.entities, entity);
                        self.dirty_entities.push(id);
                    }
                },
                None => {
                    store_entity(&mut self.entities, entity);
                    self.dirty_entities.push(id);
                },
            }
            proof {
                assert forall|k: int| 0 <= k < self.dirty_entities@.len() implies stored(self.entities@, #[trigger] self.dirty_entities@[k]) is Some by {
                    if k < dirty_before.len() {
                        assert(self.dirty_entities@[k] == dirty_before[k]);
                        assert(stored(before, dirty_before[k]) is Some);
                    }
                }
            }
            i = i + 1;
            assert(self.dirty_entities@ =~= changed_ids(start, entities@, i as nat));
        }
        if self.dirty_entities.len() == 0 {
            return None;
        }
        if self.use_differential_updates && self.dirty_entities.len() < self.entities.len() / 4 {
            let ghost d = self.dirty_entities@;
            let sorted = sort_ids(&self.dirty_entities);
            self.dirty_entities = sorted;
            proof {
                assert forall|k: int| 0 <= k < self.dirty_entities@.len() implies stored(self.entities@, #[trigger] self.dirty_entities@[k]) is Some by {
                    let x = self.dirty_entities@[k];
                    assert(self.dirty_entities@.contains(x));
                    assert(self.dirty_entities@.to_multiset().count(x) > 0);
                    assert(d.to_multiset().count(x) > 0);
                    assert(d.contains(x));
                    let j = choose|j: int| 0 <= j < d.len() && d[j] == x;
                    assert(stored(self.entities@, d[j]) is Some);
                }
                assert(self.dirty_entities@.to_multiset().len() == d.to_multiset().len());
                assert(self.dirty_entities@.len() == d.len());
            }
            self.differential_message()
        } else {
            self.full_message()
        }
    }
}

} // verus!
