//! Zones: a zone is a connected set of maps, i.e. a map, plus all its
//! neighbors, plus all their neighbors, and so on. Each map is placed in
//! exactly one zone, at a grid position found by walking the neighbor
//! links from the zone's first map.
use vstd::prelude::*;
use crate::canvas::Canvas;
use crate::map::{in_map, map_drawable, map_pixel, neighbor_spec, WorldMap, NUM_MAPS};
use crate::MIN_ROM_LEN;

verus! {

/// A map placed at a grid position of a zone.
#[derive(Copy, Clone, Debug, PartialEq, Eq, Structural)]
pub struct Placement {
    pub x: i16,
    pub y: i16,
    pub map_id: u16,
}

/// The maps of one zone, in the order in which they were placed.
pub struct Zone {
    pub map_locations: Vec<Placement>,
}

/// Traversal state kept across the zones of one sweep: the maps that were
/// already placed.
pub struct ZoneBuilder {
    pub already_visited: Vec<bool>,
}

/// The grid step to the neighbor in direction `d` (up, right, down, left).
pub open spec fn delta(d: int) -> (int, int) {
    if d == 0 {
        (0, -1)
    } else if d == 1 {
        (1, 0)
    } else if d == 2 {
        (0, 1)
    } else {
        (-1, 0)
    }
}

/// Whether `q` is placed as the neighbor of `p` in direction `d`: it holds
/// that neighbor's map, one grid step from `p` in that direction.
#[verifier::opaque]
pub open spec fn placed_from(rom: Seq<u8>, p: Placement, q: Placement, d: int) -> bool {
    &&& 0 <= d < 4
    &&& neighbor_spec(rom, p.map_id as int, d) == Some(WorldMap { map_id: q.map_id })
    &&& q.x == p.x + delta(d).0
    &&& q.y == p.y + delta(d).1
}

/// Whether each placement after the first is placed as the neighbor of an
/// earlier one.
pub open spec fn well_placed(rom: Seq<u8>, s: Seq<Placement>) -> bool {
    forall|k: int| 0 < k < s.len() ==> #[trigger] has_parent(rom, s, k)
}

/// Whether placement `k` of `s` is placed as the neighbor of an earlier one.
pub open spec fn has_parent(rom: Seq<u8>, s: Seq<Placement>, k: int) -> bool {
    exists|j: int, d: int| 0 <= j < k && #[trigger] placed_from(rom, s[j], s[k], d)
}

proof fn lemma_well_placed_push(rom: Seq<u8>, s: Seq<Placement>, p: Placement, j: int, d: int)
    requires
        well_placed(rom, s),
        s.len() > 0 ==> 0 <= j < s.len() && placed_from(rom, s[j], p, d),
    ensures
        well_placed(rom, s.push(p)),
{
    let t = s.push(p);
    assert forall|k: int| 0 < k < t.len() implies #[trigger] has_parent(rom, t, k) by {
        if k < s.len() {
            assert(t[k] == s[k]);
            assert(has_parent(rom, s, k));
            let (j2, d2) = choose|j2: int, d2: int| 0 <= j2 < k && #[trigger] placed_from(rom, s[j2], s[k], d2);
            assert(t[j2] == s[j2]);
            assert(placed_from(rom, t[j2], t[k], d2));
        } else {
            assert(t[j] == s[j]);
            assert(placed_from(rom, t[j], t[k], d));
        }
    }
}

/// Whether some placement of `s` holds map `id`.
pub open spec fn holds_map(s: Seq<Placement>, id: int) -> bool {
    exists|k: int| 0 <= k < s.len() && #[trigger] s[k].map_id == id
}

/// Number of maps not yet visited.
pub open spec fn count_unvisited(v: Seq<bool>) -> nat
    decreases v.len(),
{
    if v.len() == 0 {
        0
    } else {
        count_unvisited(v.drop_last()) + if v.last() {
            0nat
        } else {
            1nat
        }
    }
}

proof fn lemma_count_unvisited_le(v: Seq<bool>)
    ensures
        count_unvisited(v) <= v.len(),
    decreases v.len(),
{
    if v.len() > 0 {
        lemma_count_unvisited_le(v.drop_last());
    }
}

proof fn lemma_count_unvisited_mark(v: Seq<bool>, i: int)
    requires
        0 <= i < v.len(),
        !v[i],
    ensures
        count_unvisited(v.update(i, true)) + 1 == count_unvisited(v),
    decreases v.len(),
{
    if i < v.len() - 1 {
        assert(v.update(i, true).drop_last() =~= v.drop_last().update(i, true));
        lemma_count_unvisited_mark(v.drop_last(), i);
    } else {
        assert(v.update(i, true).drop_last() =~= v.drop_last());
    }
}

impl ZoneBuilder {
    /// One flag for each map.
    pub open spec fn wf(&self) -> bool {
        self.already_visited@.len() == NUM_MAPS
    }

    /// A builder with no map visited.
    pub fn new() -> (r: ZoneBuilder)
        ensures
            r.wf(),
            forall|i: int| 0 <= i < NUM_MAPS ==> !#[trigger] r.already_visited@[i],
    {
        ZoneBuilder { already_visited: vec![false; NUM_MAPS as usize] }
    }

    /// Builds the zone that grows from `starting_map` over the maps not
    /// visited yet, and marks its maps visited. A neighbor that is already
    /// placed is skipped, so zones may loop or have discontinuities.
    pub fn build_zone(&mut self, rom: &[u8], starting_map: u16) -> (z: Zone)
        requires
            old(self).wf(),
            starting_map < NUM_MAPS,
            rom@.len() >= MIN_ROM_LEN,
        ensures
            final(self).wf(),
            // The zone starts with the starting map at (0, 0), unless that
            // map was visited already; then it is empty.
            old(self).already_visited@[starting_map as int] ==> z.map_locations@.len() == 0,
            !old(self).already_visited@[starting_map as int] ==> z.map_locations@.len() > 0
                && z.map_locations@[0] == (Placement { x: 0, y: 0, map_id: starting_map }),
            // The zone holds exactly the maps that it marked visited.
            forall|i: int| 0 <= i < NUM_MAPS ==> #[trigger] final(self).already_visited@[i] == (
                old(self).already_visited@[i] || holds_map(z.map_locations@, i)),
            forall|k: int| 0 <= k < z.map_locations@.len() ==> #[trigger] z.map_locations@[k].map_id < NUM_MAPS
                && !old(self).already_visited@[z.map_locations@[k].map_id as int],
            forall|k1: int, k2: int| 0 <= k1 < k2 < z.map_locations@.len()
                ==> #[trigger] z.map_locations@[k1].map_id != #[trigger] z.map_locations@[k2].map_id,
            // Each later map is placed as a neighbor of an earlier one.
            well_placed(rom@, z.map_locations@),
            // Every neighbor of a map of the zone has been visited.
            forall|k: int, d: int| 0 <= k < z.map_locations@.len() && 0 <= d < 4
                && #[trigger] neighbor_spec(rom@, z.map_locations@[k].map_id as int, d) is Some
                ==> final(self).already_visited@[neighbor_spec(rom@, z.map_locations@[k].map_id as int, d)->0.map_id as int],
    {
        let ghost start = old(self).already_visited@;
        let mut placed: Vec<Placement> = Vec::new();
        let mut seeds: Vec<Placement> = Vec::new();
        seeds.push(Placement { x: 0, y: 0, map_id: starting_map });
        // For each seed: the index of the placement it was seeded from, and the direction.
        let ghost mut parents: Seq<(int, int)> = seq![(0int, 0int)];
        proof {
            lemma_count_unvisited_le(start);
        }
        while seeds.len() > 0
            invariant
                self.wf(),
                rom@.len() >= MIN_ROM_LEN,
                start.len() == NUM_MAPS,
                count_unvisited(start) <= NUM_MAPS,
                placed@.len() + count_unvisited(self.already_visited@) == count_unvisited(start),
                start[starting_map as int] ==> placed@.len() == 0
                    && forall|s: int| 0 <= s < seeds@.len() ==> (#[trigger] seeds@[s]).map_id == starting_map,
                !start[starting_map as int] ==> (placed@.len() == 0 && seeds@ == seq![Placement { x: 0, y: 0, map_id: starting_map }])
                    || (placed@.len() > 0 && placed@[0] == (Placement { x: 0, y: 0, map_id: starting_map })),
                forall|s: int| 0 <= s < seeds@.len() ==> (#[trigger] seeds@[s]).map_id < NUM_MAPS
                    && -placed@.len() <= seeds@[s].x <= placed@.len()
                    && -placed@.len() <= seeds@[s].y <= placed@.len(),
                forall|i: int| 0 <= i < NUM_MAPS ==> #[trigger] self.already_visited@[i] == (start[i] || holds_map(placed@, i)),
                forall|k: int| 0 <= k < placed@.len() ==> #[trigger] placed@[k].map_id < NUM_MAPS
                    && !start[placed@[k].map_id as int],
                forall|k1: int, k2: int| 0 <= k1 < k2 < placed@.len()
                    ==> #[trigger] placed@[k1].map_id != #[trigger] placed@[k2].map_id,
                forall|k: int, d: int| 0 <= k < placed@.len() && 0 <= d < 4
                    && #[trigger] neighbor_spec(rom@, placed@[k].map_id as int, d) is Some
                    ==> self.already_visited@[neighbor_spec(rom@, placed@[k].map_id as int, d)->0.map_id as int]
                        || holds_map(seeds@, neighbor_spec(rom@, placed@[k].map_id as int, d)->0.map_id as int),
                parents.len() == seeds@.len(),
                forall|t: int| 0 <= t < seeds@.len() && placed@.len() > 0 ==> 0 <= (#[trigger] parents[t]).0 < placed@.len()
                    && placed_from(rom@, placed@[parents[t].0], seeds@[t], parents[t].1),
                well_placed(rom@, placed@),
            decreases 5 * count_unvisited(self.already_visited@) + seeds@.len(),
        {
            let ghost seeds_before = seeds@;
            let seed = seeds.pop().unwrap();
            assert(seeds_before == seeds@.push(seed));
            let ghost parents_before = parents;
            proof {
                parents = parents.drop_last();
            }
            let ghost seed_parent = parents_before.last();
            assert forall|k: int, d: int| 0 <= k < placed@.len() && 0 <= d < 4
                && #[trigger] neighbor_spec(rom@, placed@[k].map_id as int, d) is Some
                implies self.already_visited@[neighbor_spec(rom@, placed@[k].map_id as int, d)->0.map_id as int]
                    || holds_map(seeds@, neighbor_spec(rom@, placed@[k].map_id as int, d)->0.map_id as int)
                    || neighbor_spec(rom@, placed@[k].map_id as int, d)->0.map_id == seed.map_id by {
                let n = neighbor_spec(rom@, placed@[k].map_id as int, d)->0.map_id as int;
                if !self.already_visited@[n] {
                    let s = choose|s: int| 0 <= s < seeds_before.len() && #[trigger] seeds_before[s].map_id == n;
                    if s < seeds@.len() {
                        assert(seeds@[s].map_id == n);
                    }
                }
            }
            if self.already_visited[seed.map_id as usize] {
                // Placed since it was seeded.
                continue;
            }
            let ghost visited_before = self.already_visited@;
            let ghost placed_before = placed@;
            proof {
                lemma_count_unvisited_mark(visited_before, seed.map_id as int);
            }
            placed.push(seed);
            self.already_visited.set(seed.map_id as usize, true);
            assert(placed@[placed@.len() - 1] == seed);
            proof {
                if placed_before.len() > 0 {
                    let t = seeds_before.len() - 1;
                    assert(seeds_before[t] == seed);
                    assert(0 <= parents_before[t].0 < placed_before.len());
                    lemma_well_placed_push(rom@, placed_before, seed, seed_parent.0, seed_parent.1);
                } else {
                    lemma_well_placed_push(rom@, placed_before, seed, 0, 0);
                }
                assert(placed@ == placed_before.push(seed));
            }
            assert forall|i: int| 0 <= i < NUM_MAPS implies #[trigger] self.already_visited@[i] == (start[i] || holds_map(placed@, i)) by {
                if holds_map(placed_before, i) {
                    let k = choose|k: int| 0 <= k < placed_before.len() && #[trigger] placed_before[k].map_id == i;
                    assert(placed@[k].map_id == i);
                }
                if holds_map(placed@, i) && i != seed.map_id {
                    let k = choose|k: int| 0 <= k < placed@.len() && #[trigger] placed@[k].map_id == i;
                    assert(placed_before[k].map_id == i);
                }
            }
            let neighbors = WorldMap::with_id(seed.map_id).neighbors(rom);
            let mut d: usize = 0;
            while d < 4
                invariant
                    self.wf(),
                    rom@.len() >= MIN_ROM_LEN,
                    start.len() == NUM_MAPS,
                    placed@.len() > 0,
                    placed@.last() == seed,
                    seed.map_id < NUM_MAPS,
                    -placed@.len() < seed.x < placed@.len(),
                    -placed@.len() < seed.y < placed@.len(),
                    placed@.len() <= NUM_MAPS,
                    d <= 4,
                    forall|e: int| 0 <= e < 4 ==> #[trigger] neighbors@[e] == neighbor_spec(rom@, seed.map_id as int, e),
                    forall|s: int| 0 <= s < seeds@.len() ==> (#[trigger] seeds@[s]).map_id < NUM_MAPS
                        && -placed@.len() <= seeds@[s].x <= placed@.len()
                        && -placed@.len() <= seeds@[s].y <= placed@.len(),
                    forall|s: int| 0 <= s < seeds_before.len() - 1 ==> seeds@[s] == #[trigger] seeds_before[s],
                    seeds@.len() >= seeds_before.len() - 1,
                    seeds@.len() <= seeds_before.len() - 1 + d,
                    well_placed(rom@, placed@),
                    parents.len() == seeds@.len(),
                    forall|t: int| 0 <= t < seeds@.len() ==> 0 <= (#[trigger] parents[t]).0 < placed@.len()
                        && placed_from(rom@, placed@[parents[t].0], seeds@[t], parents[t].1),
                    forall|e: int| 0 <= e < d && #[trigger] neighbor_spec(rom@, seed.map_id as int, e) is Some
                        ==> self.already_visited@[neighbor_spec(rom@, seed.map_id as int, e)->0.map_id as int]
                            || holds_map(seeds@, neighbor_spec(rom@, seed.map_id as int, e)->0.map_id as int),
                decreases 4 - d,
            {
                if let Some(neighbor) = neighbors[d] {
                    if !self.already_visited[neighbor.map_id as usize] {
                        let (dx, dy): (i16, i16) = if d == 0 {
                            (0, -1)
                        } else if d == 1 {
                            (1, 0)
                        } else if d == 2 {
                            (0, 1)
                        } else {
                            (-1, 0)
                        };
                        let ghost seeds_mid = seeds@;
                        let ghost parents_mid = parents;
                        seeds.push(Placement { x: seed.x + dx, y: seed.y + dy, map_id: neighbor.map_id });
                        proof {
                            parents = parents.push(((placed@.len() - 1) as int, d as int));
                            assert forall|t: int| 0 <= t < seeds@.len() implies 0 <= (#[trigger] parents[t]).0 < placed@.len()
                                && placed_from(rom@, placed@[parents[t].0], seeds@[t], parents[t].1) by {
                                if t < seeds_mid.len() {
                                    assert(parents[t] == parents_mid[t]);
                                    assert(seeds@[t] == seeds_mid[t]);
                                } else {
                                    assert(neighbors@[d as int] == neighbor_spec(rom@, seed.map_id as int, d as int));
                                    reveal(placed_from);
                                }
                            }
                        }
                        assert(seeds@[seeds@.len() - 1].map_id == neighbor.map_id);
                        assert forall|e: int| 0 <= e < d && #[trigger] neighbor_spec(rom@, seed.map_id as int, e) is Some
                            implies self.already_visited@[neighbor_spec(rom@, seed.map_id as int, e)->0.map_id as int]
                                || holds_map(seeds@, neighbor_spec(rom@, seed.map_id as int, e)->0.map_id as int) by {
                            let n = neighbor_spec(rom@, seed.map_id as int, e)->0.map_id as int;
                            if holds_map(seeds_mid, n) {
                                let s = choose|s: int| 0 <= s < seeds_mid.len() && #[trigger] seeds_mid[s].map_id == n;
                                assert(seeds@[s].map_id == n);
                            }
                        }
                    }
                }
                d += 1;
            }
            assert forall|k: int, e: int| 0 <= k < placed@.len() && 0 <= e < 4
                && #[trigger] neighbor_spec(rom@, placed@[k].map_id as int, e) is Some
                implies self.already_visited@[neighbor_spec(rom@, placed@[k].map_id as int, e)->0.map_id as int]
                    || holds_map(seeds@, neighbor_spec(rom@, placed@[k].map_id as int, e)->0.map_id as int) by {
                let n = neighbor_spec(rom@, placed@[k].map_id as int, e)->0.map_id as int;
                if k < placed@.len() - 1 {
                    assert(placed_before[k] == placed@[k]);
                    if !self.already_visited@[n] && n != seed.map_id {
                        let s = choose|s: int| 0 <= s < seeds_before.len() - 1 && #[trigger] seeds_before[s].map_id == n;
                        assert(seeds@[s].map_id == n);
                    }
                }
            }
        }
        Zone { map_locations: placed }
    }
}

/// The map of placement `k` of zone `zi`.
pub open spec fn zone_map(zones: Seq<Zone>, zi: int, k: int) -> int {
    zones[zi].map_locations@[k].map_id as int
}

/// Whether some zone holds map `id`.
pub open spec fn in_zones(zones: Seq<Zone>, id: int) -> bool {
    exists|zi: int, k: int| 0 <= zi < zones.len() && 0 <= k < zones[zi].map_locations@.len()
        && #[trigger] zone_map(zones, zi, k) == id
}

/// Splits all maps into zones: each not yet visited map, in order of id,
/// starts a new zone. Every map ends up in exactly one zone, once.
pub fn sweep_zones(rom: &[u8]) -> (zones: Vec<Zone>)
    requires
        rom@.len() >= MIN_ROM_LEN,
    ensures
        forall|i: int| 0 <= i < NUM_MAPS ==> #[trigger] in_zones(zones@, i),
        forall|zi: int, k: int| 0 <= zi < zones@.len() && 0 <= k < zones@[zi].map_locations@.len()
            ==> 0 <= #[trigger] zone_map(zones@, zi, k) < NUM_MAPS,
        forall|z1: int, k1: int, z2: int, k2: int|
            0 <= z1 < zones@.len() && 0 <= k1 < zones@[z1].map_locations@.len()
            && 0 <= z2 < zones@.len() && 0 <= k2 < zones@[z2].map_locations@.len()
            && (z1 != z2 || k1 != k2)
            ==> #[trigger] zone_map(zones@, z1, k1) != #[trigger] zone_map(zones@, z2, k2),
        forall|zi: int| 0 <= zi < zones@.len() ==> (#[trigger] zones@[zi]).map_locations@.len() > 0,
{
    let mut builder = ZoneBuilder::new();
    let mut zones: Vec<Zone> = Vec::new();
    let mut map_id: u16 = 0;
    while map_id < NUM_MAPS
        invariant
            builder.wf(),
            rom@.len() >= MIN_ROM_LEN,
            map_id <= NUM_MAPS,
            forall|i: int| 0 <= i < map_id ==> #[trigger] builder.already_visited@[i],
            forall|i: int| 0 <= i < NUM_MAPS ==> #[trigger] builder.already_visited@[i] == in_zones(zones@, i),
            forall|zi: int, k: int| 0 <= zi < zones@.len() && 0 <= k < zones@[zi].map_locations@.len()
                ==> 0 <= #[trigger] zone_map(zones@, zi, k) < NUM_MAPS,
            forall|z1: int, k1: int, z2: int, k2: int|
                0 <= z1 < zones@.len() && 0 <= k1 < zones@[z1].map_locations@.len()
                && 0 <= z2 < zones@.len() && 0 <= k2 < zones@[z2].map_locations@.len()
                && (z1 != z2 || k1 != k2)
                ==> #[trigger] zone_map(zones@, z1, k1) != #[trigger] zone_map(zones@, z2, k2),
            forall|zi: int| 0 <= zi < zones@.len() ==> (#[trigger] zones@[zi]).map_locations@.len() > 0,
        decreases NUM_MAPS - map_id,
    {
        if !builder.already_visited[map_id as usize] {
            // Not in a previous zone: it starts a new one.
            let ghost before = zones@;
            let ghost visited = builder.already_visited@;
            let zone = builder.build_zone(rom, map_id);
            let ghost z = zone.map_locations@;
            zones.push(zone);
            assert(zones@ == before.push(zone));
            let ghost n = before.len() as int;
            assert(z[0].map_id == map_id);
            assert(builder.already_visited@[map_id as int]);
            assert forall|i: int| 0 <= i <= map_id implies #[trigger] builder.already_visited@[i] by {
                if i < map_id {
                    assert(visited[i]);
                }
            }
            assert forall|i: int| 0 <= i < NUM_MAPS implies #[trigger] builder.already_visited@[i] == in_zones(zones@, i) by {
                if in_zones(before, i) {
                    let (zi, k) = choose|zi: int, k: int| 0 <= zi < before.len() && 0 <= k < before[zi].map_locations@.len()
                        && #[trigger] zone_map(before, zi, k) == i;
                    assert(zone_map(zones@, zi, k) == i);
                }
                if holds_map(z, i) {
                    let k = choose|k: int| 0 <= k < z.len() && #[trigger] z[k].map_id == i;
                    assert(zone_map(zones@, n, k) == i);
                }
                if in_zones(zones@, i) {
                    let (zi, k) = choose|zi: int, k: int| 0 <= zi < zones@.len() && 0 <= k < zones@[zi].map_locations@.len()
                        && #[trigger] zone_map(zones@, zi, k) == i;
                    if zi < n {
                        assert(zone_map(before, zi, k) == i);
                    } else {
                        assert(z[k].map_id == i);
                    }
                }
            }
            assert forall|zi: int, k: int| 0 <= zi < zones@.len() && 0 <= k < zones@[zi].map_locations@.len()
                implies 0 <= #[trigger] zone_map(zones@, zi, k) < NUM_MAPS by {
                if zi < n {
                    assert(zone_map(before, zi, k) == zone_map(zones@, zi, k));
                } else {
                    assert(z[k].map_id < NUM_MAPS);
                }
            }
            assert forall|z1: int, k1: int, z2: int, k2: int|
                0 <= z1 < zones@.len() && 0 <= k1 < zones@[z1].map_locations@.len()
                && 0 <= z2 < zones@.len() && 0 <= k2 < zones@[z2].map_locations@.len()
                && (z1 != z2 || k1 != k2)
                implies #[trigger] zone_map(zones@, z1, k1) != #[trigger] zone_map(zones@, z2, k2) by {
                if z1 < n && z2 < n {
                    assert(zone_map(before, z1, k1) != zone_map(before, z2, k2));
                } else if z1 < n {
                    let i = zone_map(before, z1, k1);
                    assert(in_zones(before, i));
                    assert(!visited[z[k2].map_id as int]);
                } else if z2 < n {
                    let i = zone_map(before, z2, k2);
                    assert(in_zones(before, i));
                    assert(!visited[z[k1].map_id as int]);
                } else if k1 < k2 {
                    assert(z[k1].map_id != z[k2].map_id);
                } else {
                    assert(z[k2].map_id != z[k1].map_id);
                }
            }
        }
        map_id += 1;
    }
    assert forall|i: int| 0 <= i < NUM_MAPS implies #[trigger] in_zones(zones@, i) by {
        assert(builder.already_visited@[i]);
    }
    zones
}

/// The least and greatest x and y of the placements (xmin, xmax, ymin, ymax).
pub open spec fn zone_bounds(s: Seq<Placement>) -> (int, int, int, int)
    decreases s.len(),
{
    if s.len() == 0 {
        (0, 0, 0, 0)
    } else if s.len() == 1 {
        (s[0].x as int, s[0].x as int, s[0].y as int, s[0].y as int)
    } else {
        let b = zone_bounds(s.drop_last());
        let p = s.last();
        (
            if p.x < b.0 { p.x as int } else { b.0 },
            if p.x > b.1 { p.x as int } else { b.1 },
            if p.y < b.2 { p.y as int } else { b.2 },
            if p.y > b.3 { p.y as int } else { b.3 },
        )
    }
}

proof fn lemma_zone_bounds(s: Seq<Placement>)
    requires
        s.len() > 0,
    ensures
        forall|k: int| 0 <= k < s.len() ==> zone_bounds(s).0 <= #[trigger] s[k].x <= zone_bounds(s).1
            && zone_bounds(s).2 <= s[k].y <= zone_bounds(s).3,
    decreases s.len(),
{
    if s.len() > 1 {
        lemma_zone_bounds(s.drop_last());
        assert forall|k: int| 0 <= k < s.len() - 1 implies #[trigger] s[k] == s.drop_last()[k] by {}
    }
}

/// The color of pixel (px, py) of a zone image whose top-left grid cell is
/// (ox, oy): that of the last placed map that covers it, else black.
pub open spec fn zone_pixel(rom: Seq<u8>, s: Seq<Placement>, ox: int, oy: int, px: int, py: int) -> (u8, u8, u8)
    decreases s.len(),
{
    if s.len() == 0 {
        (0u8, 0u8, 0u8)
    } else {
        let p = s.last();
        let mx = 160 * (p.x - ox);
        let my = 144 * (p.y - oy);
        if in_map(mx, my, px, py) {
            map_pixel(rom, p.map_id as int, px - mx, py - my)
        } else {
            zone_pixel(rom, s.drop_last(), ox, oy, px, py)
        }
    }
}

/// Whether a canvas of `w` by `h` pixels fits in memory.
pub open spec fn canvas_fits(w: int, h: int) -> bool {
    3 * w * h <= usize::MAX
}

impl Zone {
    /// Every placement holds a valid map id.
    pub open spec fn wf(&self) -> bool {
        forall|k: int| 0 <= k < self.map_locations@.len() ==> (#[trigger] self.map_locations@[k]).map_id < NUM_MAPS
    }

    /// Draws the zone: each map at its grid position, with the zone's
    /// top-left grid cell at the canvas origin. `None` when the zone is
    /// empty, too large, or holds a map that cannot be drawn.
    pub fn draw_zone(&self, rom: &[u8]) -> (r: Option<Canvas>)
        requires
            self.wf(),
            rom@.len() >= MIN_ROM_LEN,
        ensures
            ({
                let s = self.map_locations@;
                let b = zone_bounds(s);
                let w = 160 * (b.1 - b.0 + 1);
                let h = 144 * (b.3 - b.2 + 1);
                &&& r is Some <==> s.len() > 0 && canvas_fits(w, h)
                    && forall|k: int| 0 <= k < s.len() ==> map_drawable(rom@, #[trigger] s[k].map_id as int)
                &&& r matches Some(c) ==> {
                    &&& c.wf()
                    &&& c.width == w
                    &&& c.height == h
                    &&& forall|px: int, py: int| #[trigger] c.in_bounds(px, py)
                        ==> c.color_at(px, py) == zone_pixel(rom@, s, b.0, b.2, px, py)
                }
            }),
    {
        let n = self.map_locations.len();
        if n == 0 {
            return None;
        }
        let ghost s = self.map_locations@;
        // Find the zone bounds.
        let first = self.map_locations[0];
        let mut x_min: i16 = first.x;
        let mut x_max: i16 = first.x;
        let mut y_min: i16 = first.y;
        let mut y_max: i16 = first.y;
        let mut k: usize = 1;
        while k < n
            invariant
                n == s.len(),
                s == self.map_locations@,
                1 <= k <= n,
                zone_bounds(s.subrange(0, k as int)) == (x_min as int, x_max as int, y_min as int, y_max as int),
            decreases n - k,
        {
            let p = self.map_locations[k];
            assert(s.subrange(0, k + 1).drop_last() =~= s.subrange(0, k as int));
            if p.x < x_min {
                x_min = p.x;
            }
            if p.x > x_max {
                x_max = p.x;
            }
            if p.y < y_min {
                y_min = p.y;
            }
            if p.y > y_max {
                y_max = p.y;
            }
            k += 1;
        }
        assert(s.subrange(0, n as int) =~= s);
        proof {
            lemma_zone_bounds(s);
        }
        let w: u64 = 160 * (x_max as i64 - x_min as i64 + 1) as u64;
        let h: u64 = 144 * (y_max as i64 - y_min as i64 + 1) as u64;
        assert(3 * w * h <= 3 * 10485760 * 9437184) by (nonlinear_arith)
            requires
                w <= 10485760,
                h <= 9437184,
        ;
        if 3 * w * h > usize::MAX as u64 {
            return None;
        }
        let mut canvas = Canvas::new(w as u32, h as u32);
        let mut k: usize = 0;
        while k < n
            invariant
                n == s.len(),
                s == self.map_locations@,
                self.wf(),
                rom@.len() >= MIN_ROM_LEN,
                k <= n,
                zone_bounds(s) == (x_min as int, x_max as int, y_min as int, y_max as int),
                forall|j: int| 0 <= j < s.len() ==> x_min <= #[trigger] s[j].x <= x_max && y_min <= s[j].y <= y_max,
                forall|j: int| 0 <= j < k ==> map_drawable(rom@, #[trigger] s[j].map_id as int),
                canvas.wf(),
                canvas.width == w,
                canvas.height == h,
                forall|px: int, py: int| #[trigger] canvas.in_bounds(px, py)
                    ==> canvas.color_at(px, py) == zone_pixel(rom@, s.subrange(0, k as int), x_min as int, y_min as int, px, py),
            decreases n - k,
        {
            let p = self.map_locations[k];
            let map = WorldMap::with_id(p.map_id);
            let mx = 160 * (p.x as i32 - x_min as i32) as u32;
            let my = 144 * (p.y as i32 - y_min as i32) as u32;
            let ghost prev = canvas;
            if !map.draw(rom, &mut canvas, mx, my) {
                return None;
            }
            assert(s.subrange(0, k + 1).drop_last() =~= s.subrange(0, k as int));
            assert(s.subrange(0, k + 1).last() == p);
            assert forall|px: int, py: int| #[trigger] canvas.in_bounds(px, py)
                implies canvas.color_at(px, py) == zone_pixel(rom@, s.subrange(0, k + 1), x_min as int, y_min as int, px, py) by {
                assert(prev.in_bounds(px, py));
            }
            k += 1;
        }
        assert(s.subrange(0, n as int) =~= s);
        Some(canvas)
    }
}

} // verus!
