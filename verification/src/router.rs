//! Routing of iHub entities onto Art-Net universes.  The wall's four
//! quarters each hold 16 strips of 259 LEDs; a strip's entities start 300
//! ids apart, its first 170 LEDs fill one universe and the other 89 the next,
//! three channels per LED.  Quarter `q` is driven by controller
//! 192.168.1.(45 + q) on universes `32 q` to `32 q + 31`.
use vstd::prelude::*;
use crate::ihub::{Entity, EntityTuple, UniverseConfig, frame_to_entities, strips_entities, rows_read, strip_entities, strip_base,
    rising, falling};
use crate::artnet::artnet_header;

verus! {

/// A controller of the installation.
#[derive(Debug, Clone)]
pub struct ControllerConfig {
    pub ip_address: String,
    pub start_universe: u16,
    pub universe_count: u16,
}

/// Where an entity's colour goes: controller, universe and first channel.
#[derive(Debug, Clone)]
pub struct EntityMapping {
    pub controller_ip: String,
    pub universe: u16,
    pub dmx_channel: u16,
}

/// Counts describing a router.
#[derive(Debug, Clone, Copy, PartialEq, Eq, Structural)]
pub struct RouterStats {
    pub entity_count: usize,
    pub controller_count: usize,
    pub universe_count: usize,
    pub total_dmx_channels: usize,
}

/// An installation: its name, its controllers and the universe
/// configurations they carry.
#[derive(Debug, Clone)]
pub struct InstallationConfig {
    pub name: String,
    pub controllers: Vec<ControllerConfig>,
    pub universe_configs: Vec<UniverseConfig>,
}

/// Number of universes the installation drives.
pub open spec fn universe_total() -> int {
    128
}

/// Number of entities with a mapping: 4 quarters of 16 strips of 259 LEDs.
pub open spec fn mapped_entity_total() -> int {
    16576
}

/// The universe and first channel of entity `id`, if it has a mapping.
pub open spec fn route_of(id: int) -> Option<(int, int)> {
    if id < 100 {
        None
    } else {
        let q = (id - 100) / 5000;
        let off = (id - 100) % 5000;
        let band = off / 300;
        let led = off % 300;
        if q >= 4 || off > 4758 || led >= 259 {
            None
        } else {
            let universe = 32 * q + 2 * band + if led < 170 { 0int } else { 1int };
            let channel = 3 * (if led < 170 { led } else { led - 170 });
            Some((universe, channel))
        }
    }
}

/// Every mapped entity lands on one of the 128 universes, on a channel whose
/// three bytes fit in the universe.
pub proof fn lemma_route_in_range(id: int)
    requires
        route_of(id) is Some,
    ensures
        0 <= route_of(id).unwrap().0 < universe_total(),
        0 <= route_of(id).unwrap().1 && route_of(id).unwrap().1 + 2 < 512,
{
}

/// LED `led` of strip `k` has a route.
proof fn lemma_strip_led_routed(k: int, led: int)
    requires
        0 <= k < 64,
        0 <= led < 259,
    ensures
        route_of(strip_base(k) + led) is Some,
{
    let q = k / 16;
    let b = k % 16;
    let x = 300 * b + led;
    assert(0 <= x <= 4758);
    assert(strip_base(k) + led - 100 == 5000 * q + x);
    assert((5000 * q + x) / 5000 == q && (5000 * q + x) % 5000 == x) by (nonlinear_arith)
        requires
            0 <= x < 5000,
            0 <= q,
    ;
    assert(x / 300 == b && x % 300 == led) by (nonlinear_arith)
        requires
            x == 300 * b + led,
            0 <= led < 300,
            0 <= b,
    ;
}

/// Where each LED of the wall goes: LED `led` (0..259) of strip `k` (0..64),
/// entity `100 + 5000 (k / 16) + 300 (k % 16) + led`, goes to universe `2 k`
/// at channel `3 led` when `led < 170`, and to universe `2 k + 1` at channel
/// `3 (led - 170)` otherwise, so that universe `u` carries half `u % 2` of
/// strip `u / 2`.
pub proof fn lemma_strip_routes(k: int, led: int)
    requires
        0 <= k < 64,
        0 <= led < 259,
    ensures
        route_of(100 + 5000 * (k / 16) + 300 * (k % 16) + led) == Some(
            if led < 170 { (2 * k, 3 * led) } else { (2 * k + 1, 3 * (led - 170)) },
        ),
{
    lemma_strip_led_routed(k, led);
    let q = k / 16;
    let b = k % 16;
    let x = 300 * b + led;
    assert(100 + 5000 * (k / 16) + 300 * (k % 16) + led - 100 == 5000 * q + x);
    assert((5000 * q + x) / 5000 == q && (5000 * q + x) % 5000 == x) by (nonlinear_arith)
        requires
            0 <= x < 5000,
            0 <= q,
    ;
    assert(x / 300 == b && x % 300 == led) by (nonlinear_arith)
        requires
            x == 300 * b + led,
            0 <= led < 300,
            0 <= b,
    ;
    assert(32 * q + 2 * b == 2 * k);
}

/// The ids of the first `n` LEDs of a rising half run from `base + 1` to
/// `base + n`.
proof fn lemma_rising_ids(frame: Seq<u8>, width: int, height: int, col: int, base: int, n: nat)
    requires
        0 <= base,
        base + n < 65536,
    ensures
        forall|m: int| 0 <= m < rising(frame, width, height, col, base, n).len()
            ==> base + 1 <= (#[trigger] rising(frame, width, height, col, base, n)[m]).0 <= base + n,
    decreases n,
{
    if n > 0 {
        lemma_rising_ids(frame, width, height, col, base, (n - 1) as nat);
        let prev = rising(frame, width, height, col, base, (n - 1) as nat);
        let r = rising(frame, width, height, col, base, n);
        assert forall|m: int| 0 <= m < r.len() implies base + 1 <= (#[trigger] r[m]).0 <= base + n by {
            if m < prev.len() {
                assert(r[m] == prev[m]);
            } else {
                assert(r[m].0 == (base + 1 + (n - 1)) as u16);
            }
        }
    }
}

/// The ids of the first `n` LEDs of a falling half run from `base + 130` to
/// `base + 129 + n`.
proof fn lemma_falling_ids(frame: Seq<u8>, width: int, col: int, base: int, n: nat)
    requires
        0 <= base,
        base + 129 + n < 65536,
    ensures
        forall|m: int| 0 <= m < falling(frame, width, col, base, n).len()
            ==> base + 130 <= (#[trigger] falling(frame, width, col, base, n)[m]).0 <= base + 129 + n,
    decreases n,
{
    if n > 0 {
        lemma_falling_ids(frame, width, col, base, (n - 1) as nat);
        let prev = falling(frame, width, col, base, (n - 1) as nat);
        let r = falling(frame, width, col, base, n);
        assert forall|m: int| 0 <= m < r.len() implies base + 130 <= (#[trigger] r[m]).0 <= base + 129 + n by {
            if m < prev.len() {
                assert(r[m] == prev[m]);
            } else {
                assert(r[m].0 == (base + 130 + (n - 1)) as u16);
            }
        }
    }
}

/// Every entity of strip `k` has a route.
proof fn lemma_strip_routed(frame: Seq<u8>, width: int, height: int, k: int)
    requires
        0 <= k < 64,
    ensures
        forall|m: int| 0 <= m < strip_entities(frame, width, height, k).len()
            ==> route_of((#[trigger] strip_entities(frame, width, height, k)[m]).0 as int) is Some,
{
    let base = strip_base(k);
    assert(100 <= base <= 19600);
    if 2 * k + 1 < width {
        let up = rising(frame, width, height, 2 * k, base, 128);
        let down = falling(frame, width, 2 * k + 1, base, 128);
        lemma_rising_ids(frame, width, height, 2 * k, base, 128);
        lemma_falling_ids(frame, width, 2 * k + 1, base, 128);
        let s = strip_entities(frame, width, height, k);
        assert forall|m: int| 0 <= m < s.len() implies route_of((#[trigger] s[m]).0 as int) is Some by {
            let a = seq![crate::ihub::dark(base)];
            let b = a + up;
            let c = b + seq![crate::ihub::dark(base + 129)];
            let d = c + down;
            assert(s == d + seq![crate::ihub::dark(base + 258)]);
            if m == 0 {
                lemma_strip_led_routed(k, 0);
            } else if m < b.len() {
                assert(s[m] == up[m - 1]);
                lemma_strip_led_routed(k, s[m].0 - base);
            } else if m == b.len() {
                lemma_strip_led_routed(k, 129);
            } else if m < d.len() {
                assert(s[m] == down[m - c.len()]);
                lemma_strip_led_routed(k, s[m].0 - base);
            } else {
                lemma_strip_led_routed(k, 258);
            }
        }
    }
}

/// Every entity of the first `n` strips has a route.
proof fn lemma_strips_routed(frame: Seq<u8>, width: int, height: int, n: nat)
    requires
        n <= 64,
    ensures
        forall|m: int| 0 <= m < strips_entities(frame, width, height, n).len()
            ==> route_of((#[trigger] strips_entities(frame, width, height, n)[m]).0 as int) is Some,
    decreases n,
{
    if n > 0 {
        lemma_strips_routed(frame, width, height, (n - 1) as nat);
        lemma_strip_routed(frame, width, height, n - 1);
        let prev = strips_entities(frame, width, height, (n - 1) as nat);
        let last = strip_entities(frame, width, height, n - 1);
        let s = strips_entities(frame, width, height, n);
        assert forall|m: int| 0 <= m < s.len() implies route_of((#[trigger] s[m]).0 as int) is Some by {
            if m < prev.len() {
                assert(s[m] == prev[m]);
            } else {
                assert(s[m] == last[m - prev.len()]);
            }
        }
    }
}

/// Every entity the frame mapping produces has a route onto a universe:
/// routing a frame never drops one of its LEDs.
pub proof fn lemma_frame_entities_routed(frame: Seq<u8>, width: int, height: int, m: int)
    requires
        0 <= m < strips_entities(frame, width, height, 64).len(),
    ensures
        route_of(strips_entities(frame, width, height, 64)[m].0 as int) is Some,
{
    lemma_strips_routed(frame, width, height, 64);
}

/// The universes after routing the first `n` entities onto `bufs`: each
/// mapped entity writes its red, green and blue into its three channels, a
/// later entity overwriting an earlier one.
pub open spec fn routed(bufs: Seq<Seq<u8>>, entities: Seq<Entity>, n: nat) -> Seq<Seq<u8>>
    decreases n,
{
    if n == 0 {
        bufs
    } else {
        let prev = routed(bufs, entities, (n - 1) as nat);
        let e = entities[n - 1];
        match route_of(e.id as int) {
            Some((u, ch)) => if 0 <= u < prev.len() && prev[u].len() == 512 {
                prev.update(u, prev[u].update(ch, e.r).update(ch + 1, e.g).update(ch + 2, e.b))
            } else {
                prev
            },
            None => prev,
        }
    }
}

/// 128 universes of 512 zero channels.
pub open spec fn blank_universes() -> Seq<Seq<u8>> {
    Seq::new(128, |u: int| Seq::new(512, |c: int| 0u8))
}

/// The address of the controller of quarter `q`.
pub open spec fn controller_ip(q: int) -> Seq<char> {
    if q == 0 {
        "192.168.1.45"@
    } else if q == 1 {
        "192.168.1.46"@
    } else if q == 2 {
        "192.168.1.47"@
    } else {
        "192.168.1.48"@
    }
}

/// Routes entities to the universes of the installation.  Until it is
/// configured it knows no mapping and holds no universe.
pub struct IHubRouter {
    controllers: Vec<ControllerConfig>,
    configured: bool,
    dmx_buffers: Vec<Vec<u8>>,
}

impl IHubRouter {
    /// The channels of each universe, universe `u` at index `u`.
    pub closed spec fn universes(&self) -> Seq<Seq<u8>> {
        self.dmx_buffers@.map_values(|b: Vec<u8>| b@)
    }

    /// Whether the mappings are built.
    pub closed spec fn is_configured(&self) -> bool {
        self.configured
    }

    /// The number of controllers given.
    pub closed spec fn controller_total(&self) -> nat {
        self.controllers@.len()
    }

    /// A configured router has 128 universes of 512 channels; an
    /// unconfigured one none.
    pub closed spec fn wf(&self) -> bool {
        &&& self.configured ==> self.dmx_buffers@.len() == 128
        &&& !self.configured ==> self.dmx_buffers@.len() == 0
        &&& forall|u: int| 0 <= u < self.dmx_buffers@.len() ==> (#[trigger] self.dmx_buffers@[u])@.len() == 512
    }

    /// A router with no controller and no mapping.
    pub fn new() -> (r: Self)
        ensures
            r.wf(),
            !r.is_configured(),
            r.controller_total() == 0,
    {
        IHubRouter { controllers: Vec::new(), configured: false, dmx_buffers: Vec::new() }
    }

    /// Takes the installation's controllers and builds the mappings: every
    /// universe starts dark.
    pub fn configure_controllers(&mut self, controllers: Vec<ControllerConfig>)
        ensures
            final(self).wf(),
            final(self).is_configured(),
            final(self).controller_total() == controllers@.len(),
            final(self).universes() == blank_universes(),
    {
        self.controllers = controllers;
        self.build_entity_mappings();
    }

    /// Builds the mappings and a dark buffer for each of the 128 universes.
    fn build_entity_mappings(&mut self)
        ensures
            final(self).wf(),
            final(self).is_configured(),
            final(self).controllers == old(self).controllers,
            final(self).universes() == blank_universes(),
    {
        let mut bufs: Vec<Vec<u8>> = Vec::new();
        let mut u: usize = 0;
        while u < 128
            invariant
                u <= 128,
                bufs@.len() == u,
                forall|k: int| 0 <= k < u ==> (#[trigger] bufs@[k])@ == Seq::new(512, |c: int| 0u8),
            decreases 128 - u,
        {
            let b: Vec<u8> = vec![0u8; 512];
            assert(b@ =~= Seq::new(512, |c: int| 0u8));
            bufs.push(b);
            u = u + 1;
        }
        self.dmx_buffers = bufs;
        self.configured = true;
        assert(self.universes() =~= blank_universes());
    }

    /// Where entity `id` goes (see `route_of`); `None` for an entity without
    /// mapping or before configuration.
    pub fn entity_mapping(&self, id: u16) -> (m: Option<EntityMapping>)
        ensures
            match (m, route_of(id as int)) {
                (Some(em), Some((u, ch))) => self.is_configured() && em.universe == u && em.dmx_channel == ch
                    && em.controller_ip@ == controller_ip(u / 32),
                (None, r) => !self.is_configured() || r is None,
                _ => false,
            },
    {
        if !self.configured {
            return None;
        }
        match route(id) {
            Some((universe, channel)) => {
                let q = universe / 32;
                let ip: &str = if q == 0 {
                    "192.168.1.45"
                } else if q == 1 {
                    "192.168.1.46"
                } else if q == 2 {
                    "192.168.1.47"
                } else {
                    "192.168.1.48"
                };
                Some(EntityMapping { controller_ip: ip.to_owned(), universe, dmx_channel: channel })
            },
            None => None,
        }
    }

    /// Clears every universe, then writes each mapped entity's colour into
    /// its channels, in order (see `routed`).
    pub fn route_entities(&mut self, entities: &[Entity])
        requires
            old(self).wf(),
        ensures
            final(self).wf(),
            final(self).is_configured() == old(self).is_configured(),
            final(self).controller_total() == old(self).controller_total(),
            final(self).universes() == if old(self).is_configured() {
                routed(blank_universes(), entities@, entities@.len())
            } else {
                Seq::<Seq<u8>>::empty()
            },
    {
        let nb = self.dmx_buffers.len();
        let mut u: usize = 0;
        let ghost target: Seq<Seq<u8>> = if self.configured { blank_universes() } else { Seq::empty() };
        while u < nb
            invariant
                nb == self.dmx_buffers@.len(),
                u <= nb,
                self.wf(),
                self.configured == old(self).configured,
                self.controllers == old(self).controllers,
                target == if self.configured { blank_universes() } else { Seq::<Seq<u8>>::empty() },
                forall|k: int| 0 <= k < u ==> (#[trigger] self.dmx_buffers@[k])@ == Seq::new(512, |c: int| 0u8),
            decreases nb - u,
        {
            let b: Vec<u8> = vec![0u8; 512];
            assert(b@ =~= Seq::new(512, |c: int| 0u8));
            self.dmx_buffers.set(u, b);
            u = u + 1;
        }
        assert(self.universes() =~= target);
        let mut i: usize = 0;
        while i < entities.len()
            invariant
                i <= entities@.len(),
                self.wf(),
                self.configured == old(self).configured,
                self.controllers == old(self).controllers,
                target == if self.configured { blank_universes() } else { Seq::<Seq<u8>>::empty() },
                self.universes() == routed(target, entities@, i as nat),
            decreases entities@.len() - i,
        {
            let e = entities[i];
            let ghost before = self.universes();
            match route(e.id) {
                Some((universe, channel)) => {
                    let uidx = universe as usize;
                    let ch = channel as usize;
                    if uidx < self.dmx_buffers.len() {
                        let mut buf = self.dmx_buffers[uidx].clone();
                        if ch + 2 < 512 {
                            buf.set(ch, e.r);
                            buf.set(ch + 1, e.g);
                            buf.set(ch + 2, e.b);
                        }
                        self.dmx_buffers.set(uidx, buf);
                    }
                },
                None => {},
            }
            i = i + 1;
            assert(self.universes() =~= routed(target, entities@, i as nat));
        }
    }

    /// Routes the entities of a rendered frame (see
    /// `ihub::frame_to_entities`).
    pub fn route_frame(&mut self, frame: &[u8], width: usize, height: usize)
        requires
            old(self).wf(),
            rows_read(height as int) * width * 3 <= usize::MAX,
        ensures
            final(self).wf(),
            final(self).is_configured() == old(self).is_configured(),
            final(self).controller_total() == old(self).controller_total(),
            final(self).universes() == if old(self).is_configured() {
                routed(blank_universes(), strips_entities(frame@, width as int, height as int, 64).map_values(|t: EntityTuple| Entity { id: t.0, r: t.1, g: t.2, b: t.3, w: t.4 }), strips_entities(frame@, width as int, height as int, 64).len())
            } else {
                Seq::<Seq<u8>>::empty()
            },
    {
        let tuples = frame_to_entities(frame, width, height);
        let mut entities: Vec<Entity> = Vec::with_capacity(tuples.len());
        let mut i: usize = 0;
        while i < tuples.len()
            invariant
                i <= tuples@.len(),
                entities@ == tuples@.subrange(0, i as int).map_values(|t: EntityTuple| Entity { id: t.0, r: t.1, g: t.2, b: t.3, w: t.4 }),
            decreases tuples@.len() - i,
        {
            let (id, r, g, b, w) = tuples[i];
            entities.push(Entity { id, r, g, b, w });
            i = i + 1;
            assert(entities@ =~= tuples@.subrange(0, i as int).map_values(|t: EntityTuple| Entity { id: t.0, r: t.1, g: t.2, b: t.3, w: t.4 }));
        }
        assert(tuples@.subrange(0, tuples@.len() as int) =~= tuples@);
        self.route_entities(entities.as_slice());
    }

    /// Reserved for re-patching entities; does nothing.
    pub fn apply_patch(&mut self, _patch: Vec<(u16, u16)>)
        ensures
            *final(self) == *old(self),
    {
    }

    /// The number of mapped entities, of controllers, of universes and of
    /// channels.
    pub fn get_stats(&self) -> (s: RouterStats)
        requires
            self.wf(),
        ensures
            s.entity_count == if self.is_configured() { mapped_entity_total() } else { 0 },
            s.controller_count == self.controller_total(),
            s.universe_count == self.universes().len(),
            s.total_dmx_channels == 512 * self.universes().len(),
    {
        RouterStats {
            entity_count: if self.configured { 16576 } else { 0 },
            controller_count: self.controllers.len(),
            universe_count: self.dmx_buffers.len(),
            total_dmx_channels: 512 * self.dmx_buffers.len(),
        }
    }

    /// The Art-Net packet of each universe, with its controller's address,
    /// in universe order.
    pub fn artnet_packets(&self) -> (out: Vec<(String, Vec<u8>)>)
        requires
            self.wf(),
        ensures
            out@.len() == self.universes().len(),
            forall|u: int| 0 <= u < out@.len() ==> (#[trigger] out@[u]).0@ == controller_ip(u / 32)
                && out@[u].1@ == artnet_header((u % 256) as u8, (u / 256) as u8) + self.universes()[u],
    {
        let mut out: Vec<(String, Vec<u8>)> = Vec::new();
        let mut u: usize = 0;
        while u < self.dmx_buffers.len()
            invariant
                u <= self.dmx_buffers@.len(),
                self.wf(),
                out@.len() == u,
                forall|k: int| 0 <= k < u ==> (#[trigger] out@[k]).0@ == controller_ip(k / 32)
                    && out@[k].1@ == artnet_header((k % 256) as u8, (k / 256) as u8) + self.universes()[k],
            decreases self.dmx_buffers@.len() - u,
        {
            let q = u / 32;
            let ip: &str = if q == 0 {
                "192.168.1.45"
            } else if q == 1 {
                "192.168.1.46"
            } else if q == 2 {
                "192.168.1.47"
            } else {
                "192.168.1.48"
            };
            let packet = crate::artnet::create_artnet_packet(u as u16, self.dmx_buffers[u].as_slice());
            assert(crate::artnet::dmx_512(self.dmx_buffers@[u as int]@) =~= self.universes()[u as int]);
            out.push((ip.to_owned(), packet));
            u = u + 1;
        }
        out
    }
}

/// The universe and first channel of entity `id` (see `route_of`).
fn route(id: u16) -> (r: Option<(u16, u16)>)
    ensures
        match (r, route_of(id as int)) {
            (Some((u, ch)), Some((su, sch))) => u == su && ch == sch,
            (None, None) => true,
            _ => false,
        },
{
    if id < 100 {
        return None;
    }
    let q = (id - 100) / 5000;
    let off = (id - 100) % 5000;
    let band = off / 300;
    let led = off % 300;
    if q >= 4 || off > 4758 || led >= 259 {
        return None;
    }
    let universe = 32 * q + 2 * band + if led < 170 { 0 } else { 1 };
    let channel = 3 * (if led < 170 { led } else { led - 170 });
    Some((universe, channel))
}

} // verus!
