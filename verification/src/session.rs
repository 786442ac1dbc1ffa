//! The per-session orchestrator: owns the structure registry, the pipe
//! network, the terrain simulator state, the power table from the last
//! recomputation, the ore purse and the frame counter, and runs the
//! per-tick update passes in their required order.

use vstd::prelude::*;
use crate::grid::{Shape, disk_average, shape_on_grid};
use crate::pipe::Pipe;
use crate::power::{
    PipeNetwork, PowerState, consumer_powered, endpoints_registered, is_live_root,
    kept_pipes, removed_pipe_ids, sources_has_key, sources_ok, sources_unique,
    source_entry_ok, powered_pipes_ok, root_pipes_done, sources_incident,
};
use crate::registry::{StructureRegistry, within_radius, STRUCTURE_HEALTH};
use crate::structure::{
    Structure, StructureType, POS_LIMIT, can_be_powered_of, clean_radius_of, damage_radius_of,
    initial_amount_of, initially_powered_of,
};
use crate::terrain::TerrainSim;
use rand::RngExt;

verus! {

/// How the terrain grid is laid over the world: the world coordinates of the
/// grid's top-left corner and the world size the 256 cells span, in tenths
/// of a world unit.
#[derive(Debug, Copy, Clone, PartialEq, Eq, Structural)]
pub struct TerrainMapping {
    pub top_left_x: i64,
    pub top_left_y: i64,
    pub size_x: i64,
    pub size_y: i64,
}

impl TerrainMapping {
    pub open spec fn wf(self) -> bool {
        &&& 0 < self.size_x <= POS_LIMIT
        &&& 0 < self.size_y <= POS_LIMIT
        &&& -POS_LIMIT <= self.top_left_x <= POS_LIMIT
        &&& -POS_LIMIT <= self.top_left_y <= POS_LIMIT
    }
}

/// One world axis mapped to a grid coordinate, clamped onto the grid.
pub open spec fn grid_coord(delta: int, size: int) -> int {
    let raw = delta * 256 / size;
    if raw < 0 {
        0
    } else if raw > 255 {
        255
    } else {
        raw
    }
}

/// A world radius scaled to grid cells, along the horizontal axis. The
/// result is clamped at 65535, far beyond the grid diagonal, so the clamp
/// never changes which grid cells the disk holds.
pub open spec fn grid_radius(size: int, r: u32) -> int {
    let raw = r * 256 / size;
    if raw > 65535 {
        65535
    } else {
        raw
    }
}

/// The grid disk a structure at world position `(x, y)` affects with world
/// radius `r`.
pub open spec fn effect_circle(m: TerrainMapping, x: i64, y: i64, r: u32) -> Shape {
    Shape::Circle {
        row: grid_coord(x - m.top_left_x, m.size_x as int) as usize,
        col: grid_coord(y - m.top_left_y, m.size_y as int) as usize,
        radius: grid_radius(m.size_x as int, r) as usize,
    }
}

/// One world axis mapped to a grid coordinate.
fn grid_coord_exec(world: i64, origin: i64, size: i64) -> (c: usize)
    requires
        0 < size <= POS_LIMIT,
        -POS_LIMIT <= origin <= POS_LIMIT,
        -POS_LIMIT <= world <= POS_LIMIT,
    ensures
        c == grid_coord(world - origin, size as int),
        c < 256,
{
    let delta = world - origin;
    if delta <= 0 {
        proof {
            vstd::arithmetic::div_mod::lemma_div_is_ordered(delta * 256, 0, size as int);
            assert(delta * 256 <= 0) by (nonlinear_arith)
                requires
                    delta <= 0,
            ;
            assert(0int / (size as int) == 0);
        }
        0
    } else {
        let raw = delta * 256 / size;
        proof {
            assert(0 <= delta * 256 <= 512_000_000_000) by (nonlinear_arith)
                requires
                    0 < delta <= 2_000_000_000,
            ;
            vstd::arithmetic::div_mod::lemma_div_pos_is_pos(delta * 256, size as int);
        }
        if raw > 255 {
            255
        } else {
            raw as usize
        }
    }
}

/// A world radius scaled to grid cells.
fn grid_radius_exec(r: u32, size: i64) -> (c: usize)
    requires
        0 < size <= POS_LIMIT,
    ensures
        c == grid_radius(size as int, r),
{
    let scaled = (r as i64) * 256 / size;
    proof {
        assert(0 <= (r as i64) * 256 <= 1_099_511_627_776) by (nonlinear_arith)
            requires
                0 <= r <= u32::MAX,
        ;
        vstd::arithmetic::div_mod::lemma_div_pos_is_pos((r as i64) * 256, size as int);
    }
    if scaled > 65535 {
        65535
    } else {
        scaled as usize
    }
}

/// Structures with their power flags set from the source table: consumers
/// hold power exactly when the table lists them, other types keep their
/// flag.
pub open spec fn with_power_flags(ss: Seq<Structure>, srcs: Seq<(i64, i64)>) -> Seq<Structure> {
    ss.map_values(
        |s: Structure|
            if can_be_powered_of(s.ty) {
                s.with_powered(sources_has_key(srcs, s.id))
            } else {
                s
            },
    )
}

/// Relies on `rand::Rng::random_range` over `lo..hi`: some value of the
/// range; nothing more is promised of a random draw.
#[verifier::external_body]
fn sample_range(lo: i64, hi: i64) -> (r: i64)
    requires
        lo < hi,
    ensures
        lo <= r < hi,
{
    rand::rng().random_range(lo..hi)
}

/// `n` random world positions inside the start area, in tenths of a world
/// unit.
pub fn random_positions(n: usize) -> (v: Vec<(i64, i64)>)
    ensures
        v@.len() == n,
        forall|i: int|
            0 <= i < n ==> -400 <= (#[trigger] v@[i]).0 < 400 && -400 <= v@[i].1 < 400,
{
    let mut v: Vec<(i64, i64)> = Vec::new();
    let mut k: usize = 0;
    while k < n
        invariant
            k <= n,
            v@.len() == k,
            forall|i: int|
                0 <= i < k ==> -400 <= (#[trigger] v@[i]).0 < 400 && -400 <= v@[i].1 < 400,
        decreases n - k,
    {
        let x = sample_range(-400, 400);
        let y = sample_range(-400, 400);
        v.push((x, y));
        k += 1;
    }
    v
}




/// The health a structure loses this tick from an ambient blight average of
/// `avg`, in thousandths of a hit point: proportional to the elapsed time
/// and the intensity.
pub open spec fn blight_damage(dt_ms: u64, avg: int) -> int {
    dt_ms * 80 * avg / 256
}

/// A structure after one blight tick: a type with a damage radius whose
/// local average blight exceeds the threshold of 200 takes proportional
/// damage, everything else is untouched.
pub open spec fn damaged_by_blight(s: Structure, cells: Seq<u8>, m: TerrainMapping, dt_ms: u64) -> Structure {
    match damage_radius_of(s.ty) {
        Some(dr) => {
            let avg = disk_average(cells, effect_circle(m, s.pos_x, s.pos_y, dr));
            if avg > 200 {
                s.damaged(blight_damage(dt_ms, avg) as u32)
            } else {
                s
            }
        },
        None => s,
    }
}

/// The whole table after one blight tick's damage pass.
pub open spec fn blight_damaged_all(
    ss: Seq<Structure>,
    cells: Seq<u8>,
    m: TerrainMapping,
    dt_ms: u64,
) -> Seq<Structure> {
    ss.map_values(|s: Structure| damaged_by_blight(s, cells, m, dt_ms))
}

/// Whether the table holds a destroyed structure with this id.
pub open spec fn dead_in(ss: Seq<Structure>, id: i64) -> bool {
    exists|i: int| 0 <= i < ss.len() && (#[trigger] ss[i]).id == id && ss[i].health == 0
}

/// Whether the pipe touches some structure the table lists as destroyed.
pub open spec fn pipe_touches_dead(ss: Seq<Structure>, p: Pipe) -> bool {
    exists|id: i64| #[trigger] dead_in(ss, id) && p.touches(id)
}

/// Whether the paint batch holds a clean command for this shape.
pub open spec fn clean_cmd_in(b: Seq<(Shape, u8)>, sh: Shape) -> bool {
    exists|q: int| 0 <= q < b.len() && #[trigger] b[q] == (sh, 0u8)
}

/// Adds a non-negative harvest to the purse, saturating at the largest
/// representable value.
pub open spec fn saturate_add(a: i64, g: int) -> i64 {
    if a + g <= i64::MAX {
        (a + g) as i64
    } else {
        i64::MAX
    }
}

/// Whether some structure of the table has this id.
pub open spec fn seq_has_id(ss: Seq<Structure>, id: i64) -> bool {
    exists|i: int| 0 <= i < ss.len() && (#[trigger] ss[i]).id == id
}

/// The table position of the structure with this id.
pub open spec fn seq_id_index(ss: Seq<Structure>, id: i64) -> int {
    choose|i: int| 0 <= i < ss.len() && (#[trigger] ss[i]).id == id
}

/// The Water root the power table records for consumer `id`.
pub open spec fn source_value(srcs: Seq<(i64, i64)>, id: i64) -> i64 {
    srcs[choose|q: int| 0 <= q < srcs.len() && (#[trigger] srcs[q]).0 == id].1
}

/// An Irrigation structure that currently holds power.
pub open spec fn is_powered_irrigator(s: Structure) -> bool {
    s.ty is Irrigation && s.powered
}

/// One irrigator's debit: its recorded Water root loses one unit of
/// resource, clamped at zero.
pub open spec fn debit_step(cur: Seq<Structure>, c: Structure, srcs: Seq<(i64, i64)>) -> Seq<
    Structure,
> {
    if is_powered_irrigator(c) && sources_has_key(srcs, c.id) && seq_has_id(
        cur,
        source_value(srcs, c.id),
    ) && cur[seq_id_index(cur, source_value(srcs, c.id))].amount is Some {
        let w = seq_id_index(cur, source_value(srcs, c.id));
        cur.update(w, cur[w].mined(1))
    } else {
        cur
    }
}

/// The table after the first `n` structures have taken their water debit,
/// in table order.
pub open spec fn debited(ss: Seq<Structure>, srcs: Seq<(i64, i64)>, n: int) -> Seq<Structure>
    decreases n,
{
    if n <= 0 {
        ss
    } else {
        debit_step(debited(ss, srcs, n - 1), ss[n - 1], srcs)
    }
}

/// Whether some debit among the first `n` drains its Water root to zero.
pub open spec fn debit_hits_zero(ss: Seq<Structure>, srcs: Seq<(i64, i64)>, n: int) -> bool
    decreases n,
{
    if n <= 0 {
        false
    } else {
        debit_hits_zero(ss, srcs, n - 1) || {
            let cur = debited(ss, srcs, n - 1);
            let c = ss[n - 1];
            &&& is_powered_irrigator(c)
            &&& sources_has_key(srcs, c.id)
            &&& seq_has_id(cur, source_value(srcs, c.id))
            &&& cur[seq_id_index(cur, source_value(srcs, c.id))].amount is Some
            &&& cur[seq_id_index(cur, source_value(srcs, c.id))].amount_spec() <= 1
        }
    }
}

/// The `(id, remaining amount)` pairs of the resource structures among the
/// first `n`, in table order.
pub open spec fn resource_amounts(ss: Seq<Structure>, n: int) -> Seq<(i64, i32)>
    decreases n,
{
    if n <= 0 {
        Seq::empty()
    } else {
        let pre = resource_amounts(ss, n - 1);
        match ss[n - 1].amount {
            Some(a) => pre.push((ss[n - 1].id, a)),
            None => pre,
        }
    }
}

/// One irrigator's harvest over the first `m` structures: every Ore
/// strictly inside its clean radius is mined once; the harvest reports what
/// each mine call reported, summed.
pub open spec fn mining_inner(cur: Seq<Structure>, irr: Structure, m: int) -> (Seq<Structure>, int)
    decreases m,
{
    if m <= 0 {
        (cur, 0)
    } else {
        let (pre, g) = mining_inner(cur, irr, m - 1);
        let s = pre[m - 1];
        if s.ty is Ore && within_radius(s, irr.pos_x, irr.pos_y, 50) {
            (pre.update(m - 1, s.mined(5)), g + s.mine_result(5))
        } else {
            (pre, g)
        }
    }
}

/// The harvest of the first `n` structures, each powered irrigator mining
/// in table order.
pub open spec fn mining_pass(ss: Seq<Structure>, n: int) -> (Seq<Structure>, int)
    decreases n,
{
    if n <= 0 {
        (ss, 0)
    } else {
        let (pre, g) = mining_pass(ss, n - 1);
        if is_powered_irrigator(ss[n - 1]) {
            let (post, g2) = mining_inner(pre, ss[n - 1], pre.len() as int);
            (post, g + g2)
        } else {
            (pre, g)
        }
    }
}

/// Debits change only resource amounts: ids, types, positions, health and
/// power flags stay.
proof fn lemma_debited_shape(ss: Seq<Structure>, srcs: Seq<(i64, i64)>, n: int)
    requires
        forall|i: int| 0 <= i < ss.len() ==> (#[trigger] ss[i]).wf(),
    ensures
        debited(ss, srcs, n).len() == ss.len(),
        forall|m: int|
            0 <= m < ss.len() ==> {
                let d = #[trigger] debited(ss, srcs, n)[m];
                d.id == ss[m].id && d.ty == ss[m].ty && d.powered == ss[m].powered && d.pos_x
                    == ss[m].pos_x && d.pos_y == ss[m].pos_y && d.health == ss[m].health && d.wf()
            },
    decreases n,
{
    if n > 0 {
        lemma_debited_shape(ss, srcs, n - 1);
    }
}

/// Harvesting changes only resource amounts, and never reports a negative
/// harvest.
proof fn lemma_mining_shape(cur: Seq<Structure>, irr: Structure, m: int)
    requires
        forall|i: int| 0 <= i < cur.len() ==> (#[trigger] cur[i]).wf(),
        0 <= m <= cur.len(),
    ensures
        mining_inner(cur, irr, m).0.len() == cur.len(),
        mining_inner(cur, irr, m).1 >= 0,
        forall|i: int|
            0 <= i < cur.len() ==> {
                let d = #[trigger] mining_inner(cur, irr, m).0[i];
                d.id == cur[i].id && d.ty == cur[i].ty && d.powered == cur[i].powered && d.pos_x
                    == cur[i].pos_x && d.pos_y == cur[i].pos_y && d.health == cur[i].health
                    && d.wf()
            },
    decreases m,
{
    if m > 0 {
        lemma_mining_shape(cur, irr, m - 1);
    }
}

/// The whole harvest changes only resource amounts and never reports a
/// negative total.
proof fn lemma_mining_pass_shape(ss: Seq<Structure>, n: int)
    requires
        forall|i: int| 0 <= i < ss.len() ==> (#[trigger] ss[i]).wf(),
        0 <= n <= ss.len(),
    ensures
        mining_pass(ss, n).0.len() == ss.len(),
        mining_pass(ss, n).1 >= 0,
        forall|i: int|
            0 <= i < ss.len() ==> {
                let d = #[trigger] mining_pass(ss, n).0[i];
                d.id == ss[i].id && d.ty == ss[i].ty && d.powered == ss[i].powered && d.pos_x
                    == ss[i].pos_x && d.pos_y == ss[i].pos_y && d.health == ss[i].health && d.wf()
            },
    decreases n,
{
    if n > 0 {
        lemma_mining_pass_shape(ss, n - 1);
        if is_powered_irrigator(ss[n - 1]) {
            lemma_mining_shape(mining_pass(ss, n - 1).0, ss[n - 1], ss.len() as int);
        }
    }
}

/// Everything the host reports back after a blight update: the pipes that
/// disappeared with destroyed structures.
pub struct BlightUpdated {
    pub removed_pipe_ids: Vec<i64>,
}

impl BlightUpdated {
    pub fn get_removed_pipe_ids(&self) -> (v: &Vec<i64>)
        ensures
            v@ == self.removed_pipe_ids@,
    {
        &self.removed_pipe_ids
    }
}

/// Everything the host reports back after a resource update.
pub struct AmountsUpdated {
    /// Ore in the player's purse.
    pub total_ore: i64,
    /// Remaining amount of every resource structure, in table order.
    pub remaining_resource_amounts: Vec<(i64, i32)>,
}

/// Everything the host reports back for an effect-radius query.
pub struct QueryResult {
    pub radius: u32,
    pub affected_ids: Vec<i64>,
}

impl QueryResult {
    pub fn get_affected_ids(&self) -> (v: &Vec<i64>)
        ensures
            v@ == self.affected_ids@,
    {
        &self.affected_ids
    }
}

/// What one water debit pass did.
#[derive(Debug, Copy, Clone, PartialEq, Eq, Structural)]
pub enum WaterResult {
    NothingToDo,
    WaterConsumed,
    WaterDepleted,
}

/// One play session's state.
pub struct Session {
    pub registry: StructureRegistry,
    pub pipes: PipeNetwork,
    pub terrain: TerrainSim,
    pub power: PowerState,
    pub map: TerrainMapping,
    pub ore_amount: i64,
    pub frame_count: usize,
}

impl Session {
    /// The components are well formed and pipes join registered structures;
    /// nothing is said of the power table yet.
    pub open spec fn core_wf(self) -> bool {
        &&& self.registry.wf()
        &&& self.pipes.wf()
        &&& endpoints_registered(self.pipes.pipes@, self.registry)
        &&& self.terrain.wf()
        &&& self.map.wf()
        &&& self.ore_amount >= 0
        &&& forall|i: int|
            0 <= i < self.registry.s().len() && damage_radius_of(
                (#[trigger] self.registry.s()[i]).ty,
            ) is None ==> self.registry.s()[i].health > 0
    }

    /// The components are well formed, pipes join registered structures, the
    /// power table names only registered Water roots, and every powered
    /// consumer is in the power table.
    pub open spec fn wf(self) -> bool {
        &&& self.core_wf()
        &&& sources_unique(self.power.sources@)
        &&& forall|q: int|
            0 <= q < self.power.sources@.len() ==> self.registry.has_id(
                (#[trigger] self.power.sources@[q]).1,
            ) && self.registry.structure_of(self.power.sources@[q].1).ty is Water
        &&& forall|i: int|
            0 <= i < self.registry.s().len() && (#[trigger] self.registry.s()[i]).powered
                && can_be_powered_of(self.registry.s()[i].ty) ==> sources_has_key(
                self.power.sources@,
                self.registry.s()[i].id,
            )
    }

    /// The structure table after one full water debit pass.
    pub open spec fn water_debited(self) -> Seq<Structure> {
        debited(self.registry.s(), self.power.sources@, self.registry.s().len() as int)
    }

    /// Whether a full water debit pass drains some Water root to zero.
    pub open spec fn water_depleted(self) -> bool {
        debit_hits_zero(self.registry.s(), self.power.sources@, self.registry.s().len() as int)
    }


    /// The structure table after this tick's blight damage pass.
    pub open spec fn blight_outcome(self, dt_ms: u64) -> Seq<Structure> {
        blight_damaged_all(self.registry.s(), self.terrain.read_cells(), self.map, dt_ms)
    }

    /// The structure table after the water debit, if its cadence hits.
    pub open spec fn after_water(self) -> Seq<Structure> {
        if self.frame_count % 60 == 30 {
            self.water_debited()
        } else {
            self.registry.s()
        }
    }

    /// The structure table and purse gain after the mining pass, if its
    /// cadence hits, run on the table the water debit left.
    pub open spec fn after_mining(self) -> (Seq<Structure>, int) {
        let ss1 = self.after_water();
        if self.frame_count % 300 == 0 {
            mining_pass(ss1, ss1.len() as int)
        } else {
            (ss1, 0)
        }
    }

    /// Whether this resource tick drains some Water root to zero.
    pub open spec fn amounts_depleted(self) -> bool {
        self.frame_count % 60 == 30 && self.water_depleted()
    }

    /// A fresh session: no structures, no pipes, a clean terrain, 100 ore.
    pub fn new(map: TerrainMapping) -> (s: Session)
        requires
            map.wf(),
        ensures
            s.wf(),
            s.registry.s().len() == 0,
            s.pipes.pipes@.len() == 0,
            s.power.sources@.len() == 0,
            s.power.powered_pipes@.len() == 0,
            s.ore_amount == 100,
            s.frame_count == 0,
            s.map == map,
    {
        Session {
            registry: StructureRegistry::new(),
            pipes: PipeNetwork::new(),
            terrain: TerrainSim::new(),
            power: PowerState::none(),
            map,
            ore_amount: 100,
            frame_count: 0,
        }
    }

    /// Advances the frame counter the cadences are derived from.
    pub fn update_frame_count(&mut self)
        requires
            old(self).wf(),
            old(self).frame_count < usize::MAX,
        ensures
            final(self).wf(),
            *final(self) == (Session { frame_count: (old(self).frame_count + 1) as usize, ..*old(self) }),
    {
        self.frame_count = self.frame_count + 1;
    }

    /// Whether the purse holds at least `amt` ore.
    pub fn can_consume_ore(&self, amt: i64) -> (r: bool)
        ensures
            r == (self.ore_amount >= amt),
    {
        self.ore_amount >= amt
    }

    /// Spends `amt` ore, clamping the purse at zero.
    pub fn consume_ore(&mut self, amt: i64)
        requires
            old(self).wf(),
            amt >= 0,
        ensures
            final(self).wf(),
            final(self).ore_amount == if old(self).ore_amount >= amt {
                old(self).ore_amount - amt
            } else {
                0
            },
            *final(self) == (Session { ore_amount: final(self).ore_amount, ..*old(self) }),
    {
        if self.ore_amount >= amt {
            self.ore_amount = self.ore_amount - amt;
        } else {
            self.ore_amount = 0;
        }
    }


    /// The structure a placement call registers: type-determined power flag
    /// and resource amount, full health.
    pub open spec fn placed(ty: StructureType, x: i64, y: i64, id: i64) -> Structure {
        Structure {
            ty,
            pos_x: x,
            pos_y: y,
            id,
            health: STRUCTURE_HEALTH,
            powered: initially_powered_of(ty),
            amount: initial_amount_of(ty),
        }
    }

    /// Bulk-places the session's starting structures into an empty session.
    pub fn load_structures(&mut self, items: Vec<(StructureType, i64, i64, i64)>)
        requires
            old(self).wf(),
            old(self).registry.s().len() == 0,
            forall|i: int, j: int|
                0 <= i < j < items@.len() ==> (#[trigger] items@[i]).3 != (#[trigger] items@[j]).3,
            forall|i: int|
                0 <= i < items@.len() ==> -POS_LIMIT <= (#[trigger] items@[i]).1 <= POS_LIMIT
                    && -POS_LIMIT <= items@[i].2 <= POS_LIMIT,
        ensures
            final(self).wf(),
            final(self).registry.s().len() == items@.len(),
            forall|i: int|
                0 <= i < items@.len() ==> final(self).registry.s()[i] == Session::placed(
                    (#[trigger] items@[i]).0,
                    items@[i].1,
                    items@[i].2,
                    items@[i].3,
                ),
            final(self).pipes == old(self).pipes,
            final(self).terrain == old(self).terrain,
            final(self).power == old(self).power,
            final(self).map == old(self).map,
            final(self).ore_amount == old(self).ore_amount,
            final(self).frame_count == old(self).frame_count,
    {
        let mut built: Vec<Structure> = Vec::new();
        let mut k: usize = 0;
        while k < items.len()
            invariant
                k <= items@.len(),
                built@.len() == k,
                forall|i: int|
                    0 <= i < items@.len() ==> -POS_LIMIT <= (#[trigger] items@[i]).1 <= POS_LIMIT
                        && -POS_LIMIT <= items@[i].2 <= POS_LIMIT,
                forall|i: int|
                    0 <= i < k ==> #[trigger] built@[i] == Session::placed(
                        items@[i].0,
                        items@[i].1,
                        items@[i].2,
                        items@[i].3,
                    ),
            decreases items@.len() - k,
        {
            let (ty, x, y, id) = items[k];
            let s = Structure::new(ty, x, y, id, STRUCTURE_HEALTH);
            built.push(s);
            k += 1;
        }
        proof {
            assert forall|i: int, j: int|
                0 <= i < j < built@.len() implies #[trigger] built@[i].id != #[trigger] built@[j].id by {
                assert(built@[i].id == items@[i].3 && built@[j].id == items@[j].3);
            }
            assert forall|i: int| 0 <= i < built@.len() implies (#[trigger] built@[i]).wf() by {}
        }
        self.registry = StructureRegistry::bulk_load(built);
        proof {
            assert forall|q: int|
                0 <= q < self.power.sources@.len() implies self.registry.has_id(
                (#[trigger] self.power.sources@[q]).1,
            ) && self.registry.structure_of(self.power.sources@[q].1).ty is Water by {
                assert(old(self).registry.has_id(self.power.sources@[q].1));
                assert(false);
            }
        }
    }

    /// Places one structure with the type-determined defaults, optionally
    /// joins it to an existing structure by a new pipe, and recomputes
    /// power. Returns the id it was registered under.
    pub fn add_structure(
        &mut self,
        ty: StructureType,
        pos_x: i64,
        pos_y: i64,
        id: i64,
        pipe: Option<(i64, i64)>,
    ) -> (rid: i64)
        requires
            old(self).wf(),
            !old(self).registry.has_id(id),
            -POS_LIMIT <= pos_x <= POS_LIMIT,
            -POS_LIMIT <= pos_y <= POS_LIMIT,
            pipe matches Some((pipe_id, from_id)) ==> old(self).registry.has_id(from_id)
                && pipe_id != id && pipe_id != from_id,
        ensures
            final(self).wf(),
            rid == id,
            final(self).pipes.pipes@ == (match pipe {
                Some((pipe_id, from_id)) => old(self).pipes.pipes@.push(
                    Pipe::spec_canonical(pipe_id, from_id, id),
                ),
                None => old(self).pipes.pipes@,
            }),
            final(self).registry.s() == with_power_flags(
                old(self).registry.s().push(Session::placed(ty, pos_x, pos_y, id)),
                final(self).power.sources@,
            ),
            forall|c: i64|
                #[trigger] sources_has_key(final(self).power.sources@, c) <==> consumer_powered(
                    final(self).registry,
                    final(self).pipes.pipes@,
                    c,
                ),
            final(self).terrain == old(self).terrain,
            final(self).map == old(self).map,
            final(self).ore_amount == old(self).ore_amount,
            final(self).frame_count == old(self).frame_count,
    {
        let ghost reg0 = old(self).registry;
        match pipe {
            Some((pipe_id, from_id)) => {
                proof {
                    let w = reg0.id_index(from_id);
                    assert(reg0.s()[w].id == from_id);
                    assert(from_id != id);
                }
                self.pipes.add(pipe_id, from_id, id);
            },
            None => {},
        }
        self.registry.place(ty, pos_x, pos_y, id);
        let ghost mid = *self;
        proof {
            // Every old structure is still registered, and the new one is.
            assert(mid.registry.s() == reg0.s().push(Session::placed(ty, pos_x, pos_y, id)));
            assert(mid.registry.s()[mid.registry.s().len() - 1].id == id);
            assert forall|x: i64| reg0.has_id(x) implies mid.registry.has_id(x) by {
                let i = choose|i: int| 0 <= i < reg0.s().len() && (#[trigger] reg0.s()[i]).id == x;
                assert(mid.registry.s()[i].id == x);
            }
            assert(mid.registry.has_id(id));
            assert forall|j: int|
                0 <= j < mid.pipes.pipes@.len() implies mid.registry.has_id(
                (#[trigger] mid.pipes.pipes@[j]).start_id,
            ) && mid.registry.has_id(mid.pipes.pipes@[j].end_id) by {
                if j < reg0.s().len() || j < old(self).pipes.pipes@.len() {
                }
                if j < old(self).pipes.pipes@.len() {
                    assert(old(self).pipes.pipes@[j] == mid.pipes.pipes@[j]);
                    assert(reg0.has_id(old(self).pipes.pipes@[j].start_id));
                    assert(reg0.has_id(old(self).pipes.pipes@[j].end_id));
                }
            }
            assert(mid.core_wf());
        }
        self.update_pipe_network();
        proof {
            crate::power::lemma_power_ignores_flags(mid.registry, self.registry, self.pipes.pipes@);
            assert forall|i: int|
                0 <= i < mid.registry.s().len() implies (#[trigger] self.registry.s()[i]).id
                    == mid.registry.s()[i].id && self.registry.s()[i].ty == mid.registry.s()[i].ty
                    && self.registry.s()[i].amount == mid.registry.s()[i].amount by {}
        }
        id
    }

    /// Removes a structure: deletes it from the registry, prunes every pipe
    /// that references it, and recomputes power. Returns the removed pipe
    /// ids, in pipe-table order.
    pub fn remove_structure(&mut self, id: i64) -> (removed: Vec<i64>)
        requires
            old(self).wf(),
            old(self).registry.has_id(id),
        ensures
            final(self).wf(),
            final(self).pipes.pipes@ == kept_pipes(
                old(self).pipes.pipes@,
                id,
                old(self).pipes.pipes@.len() as int,
            ),
            removed@ == removed_pipe_ids(
                old(self).pipes.pipes@,
                id,
                old(self).pipes.pipes@.len() as int,
            ),
            final(self).registry.s() == with_power_flags(
                old(self).registry.s().remove(old(self).registry.id_index(id)),
                final(self).power.sources@,
            ),
            forall|c: i64|
                #[trigger] sources_has_key(final(self).power.sources@, c) <==> consumer_powered(
                    final(self).registry,
                    final(self).pipes.pipes@,
                    c,
                ),
            final(self).terrain == old(self).terrain,
            final(self).map == old(self).map,
            final(self).ore_amount == old(self).ore_amount,
            final(self).frame_count == old(self).frame_count,
    {
        let ghost reg0 = old(self).registry;
        let ghost ps0 = old(self).pipes.pipes@;
        let removed = self.pipes.prune_structure(id);
        let was_there = self.registry.remove(id);
        let ghost mid = *self;
        proof {
            let idx = reg0.id_index(id);
            assert(mid.registry.s() == reg0.s().remove(idx));
            // Every structure other than the removed one is still there.
            assert forall|x: i64| reg0.has_id(x) && x != id implies mid.registry.has_id(x) by {
                let i = choose|i: int| 0 <= i < reg0.s().len() && (#[trigger] reg0.s()[i]).id == x;
                assert(reg0.s()[idx].id == id);
                if i < idx {
                    assert(mid.registry.s()[i].id == x);
                } else {
                    assert(i > idx);
                    assert(mid.registry.s()[i - 1] == reg0.s()[i]);
                }
            }
            // Kept pipes touch neither endpoint of the removed structure.
            crate::power::lemma_prune_origin(ps0, id, ps0.len() as int);
            assert forall|j: int|
                0 <= j < mid.pipes.pipes@.len() implies mid.registry.has_id(
                (#[trigger] mid.pipes.pipes@[j]).start_id,
            ) && mid.registry.has_id(mid.pipes.pipes@[j].end_id) by {
                assert(crate::power::kept_from(
                    ps0,
                    id,
                    ps0.len() as int,
                    kept_pipes(ps0, id, ps0.len() as int)[j],
                ));
                let j0 = choose|j0: int|
                    0 <= j0 < ps0.len() && !(#[trigger] ps0[j0]).touches(id) && ps0[j0]
                        == mid.pipes.pipes@[j];
                assert(reg0.has_id(ps0[j0].start_id) && reg0.has_id(ps0[j0].end_id));
                assert(ps0[j0].start_id != id && ps0[j0].end_id != id);
            }
            assert(mid.core_wf());
        }
        self.update_pipe_network();
        proof {
            crate::power::lemma_power_ignores_flags(mid.registry, self.registry, self.pipes.pipes@);
            assert forall|i: int|
                0 <= i < mid.registry.s().len() implies (#[trigger] self.registry.s()[i]).id
                    == mid.registry.s()[i].id && self.registry.s()[i].ty == mid.registry.s()[i].ty
                    && self.registry.s()[i].amount == mid.registry.s()[i].amount by {}
        }
        removed
    }

    /// The effect radius of a structure and the ids of all structures
    /// strictly inside that circle around it; structures without a clean
    /// radius report radius zero and affect nothing but what sits at their
    /// own position.
    pub fn query_effect_radius(&self, id: i64) -> (r: QueryResult)
        requires
            self.wf(),
            self.registry.has_id(id),
        ensures
            r.radius == (match clean_radius_of(self.registry.structure_of(id).ty) {
                Some(cr) => cr,
                None => 0u32,
            }),
            forall|m: int|
                0 <= m < self.registry.s().len() && within_radius(
                    #[trigger] self.registry.s()[m],
                    self.registry.structure_of(id).pos_x,
                    self.registry.structure_of(id).pos_y,
                    r.radius as i64,
                ) ==> r.affected_ids@.contains(self.registry.s()[m].id),
            forall|c: i64|
                #[trigger] r.affected_ids@.contains(c) ==> exists|m: int|
                    0 <= m < self.registry.s().len() && (#[trigger] self.registry.s()[m]).id == c
                        && within_radius(
                        self.registry.s()[m],
                        self.registry.structure_of(id).pos_x,
                        self.registry.structure_of(id).pos_y,
                        r.radius as i64,
                    ),
    {
        let s = self.registry.get_copy(id);
        let radius: u32 = match s.clean_radius() {
            Some(cr) => cr,
            None => 0,
        };
        let affected = self.registry.query_radius(s.pos_x, s.pos_y, radius as i64);
        QueryResult { radius, affected_ids: affected }
    }


    /// Debits each powered irrigator's recorded Water root by one unit, in
    /// table order, on the water cadence (frames 30 modulo 60). Reports
    /// whether any root was drained to zero by its debit.
    fn update_water_amounts(&mut self) -> (r: WaterResult)
        requires
            old(self).wf(),
        ensures
            final(self).wf(),
            final(self).pipes == old(self).pipes,
            final(self).terrain == old(self).terrain,
            final(self).power == old(self).power,
            final(self).map == old(self).map,
            final(self).ore_amount == old(self).ore_amount,
            final(self).frame_count == old(self).frame_count,
            old(self).frame_count % 60 != 30 ==> *final(self) == *old(self),
            old(self).frame_count % 60 != 30 ==> (r is NothingToDo),
            old(self).frame_count % 60 == 30 ==> final(self).registry.s() == old(self).water_debited(),
            old(self).frame_count % 60 == 30 ==> ((r is WaterDepleted) == old(self).water_depleted()),
            old(self).frame_count % 60 == 30 ==> !(r is NothingToDo),
    {
        if self.frame_count % 60 != 30 {
            return WaterResult::NothingToDo;
        }
        let ghost ss0 = self.registry.s();
        let ghost srcs = self.power.sources@;
        let mut depleted = false;
        let n = self.registry.count();
        let mut i: usize = 0;
        while i < n
            invariant
                old(self).wf(),
                n == ss0.len(),
                ss0 == old(self).registry.s(),
                srcs == old(self).power.sources@,
                i <= n,
                self.pipes == old(self).pipes,
                self.terrain == old(self).terrain,
                self.power == old(self).power,
                self.map == old(self).map,
                self.ore_amount == old(self).ore_amount,
                self.frame_count == old(self).frame_count,
                self.registry.wf(),
                self.registry.s() == debited(ss0, srcs, i as int),
                depleted == debit_hits_zero(ss0, srcs, i as int),
            decreases n - i,
        {
            proof {
                lemma_debited_shape(ss0, srcs, i as int);
            }
            let s = self.registry.get_at(i);
            let ghost cur = self.registry.s();
            let is_irr = match s.ty() {
                StructureType::Irrigation => true,
                _ => false,
            };
            if is_irr && s.is_powered() {
                proof {
                    assert(ss0[i as int].powered && can_be_powered_of(ss0[i as int].ty));
                    assert(sources_has_key(srcs, ss0[i as int].id));
                    assert(s.id == ss0[i as int].id);
                }
                match self.power.source_of(s.instance_id()) {
                    Some(w) => {
                        proof {
                            let q = choose|q: int|
                                0 <= q < srcs.len() && #[trigger] srcs[q] == (s.id, w);
                            let q2 = choose|q2: int|
                                0 <= q2 < srcs.len() && (#[trigger] srcs[q2]).0 == s.id;
                            assert(q == q2);
                            assert(w == source_value(srcs, s.id));
                            // The recorded root is a registered Water.
                            assert(old(self).registry.has_id(w));
                            assert(old(self).registry.structure_of(w).ty is Water);
                            let wi = old(self).registry.id_index(w);
                            assert(ss0[wi].id == w && ss0[wi].ty is Water);
                            assert(cur[wi].id == w && cur[wi].ty is Water);
                            assert(seq_has_id(cur, w));
                            let wc = seq_id_index(cur, w);
                            assert(cur[wc].id == w);
                            assert(wc == wi);
                            assert(cur[wc].amount is Some);
                            assert(self.registry.has_id(w));
                            assert(self.registry.structure_of(w).amount is Some) by {
                                let wr = self.registry.id_index(w);
                                assert(cur[wr].id == w);
                                assert(wr == wi);
                            }
                        }
                        let ghost regpre = self.registry;
                        let mined = self.registry.mine(w, 1);
                        if mined == 0 {
                            depleted = true;
                        }
                        proof {
                            let wc = seq_id_index(cur, w);
                            let wr = regpre.id_index(w);
                            assert(cur[wr].id == w && cur[wc].id == w);
                            assert(wr == wc);
                            assert(self.registry.s() == cur.update(wc, cur[wc].mined(1)));
                            assert(self.registry.s() == debit_step(cur, ss0[i as int], srcs));
                            assert(mined == 0 <==> cur[wc].amount_spec() <= 1);
                        }
                    },
                    None => {
                        proof {
                            assert(false);
                        }
                        unreached()
                    },
                }
            }
            proof {
                assert(self.registry.s() == debited(ss0, srcs, i as int + 1));
                assert(depleted == debit_hits_zero(ss0, srcs, i as int + 1));
            }
            i += 1;
        }
        proof {
            lemma_debited_shape(ss0, srcs, n as int);
            assert forall|j: int|
                0 <= j < self.pipes.pipes@.len() implies self.registry.has_id(
                (#[trigger] self.pipes.pipes@[j]).start_id,
            ) && self.registry.has_id(self.pipes.pipes@[j].end_id) by {
                assert(old(self).registry.has_id(self.pipes.pipes@[j].start_id));
                let a = choose|i2: int|
                    0 <= i2 < ss0.len() && (#[trigger] ss0[i2]).id == self.pipes.pipes@[j].start_id;
                assert(self.registry.s()[a].id == ss0[a].id);
                assert(old(self).registry.has_id(self.pipes.pipes@[j].end_id));
                let b = choose|i2: int|
                    0 <= i2 < ss0.len() && (#[trigger] ss0[i2]).id == self.pipes.pipes@[j].end_id;
                assert(self.registry.s()[b].id == ss0[b].id);
            }
            assert forall|q: int|
                0 <= q < self.power.sources@.len() implies self.registry.has_id(
                (#[trigger] self.power.sources@[q]).1,
            ) && self.registry.structure_of(self.power.sources@[q].1).ty is Water by {
                let w = self.power.sources@[q].1;
                assert(old(self).registry.has_id(w));
                let wi = old(self).registry.id_index(w);
                assert(ss0[wi].id == w && ss0[wi].ty is Water);
                assert(self.registry.s()[wi].id == w && self.registry.s()[wi].ty == ss0[wi].ty);
                assert(self.registry.has_id(w));
                let wr = self.registry.id_index(w);
                assert(self.registry.s()[wr].id == w);
                assert(wr == wi);
            }
            assert forall|i2: int|
                0 <= i2 < self.registry.s().len() && (#[trigger] self.registry.s()[i2]).powered
                    && can_be_powered_of(self.registry.s()[i2].ty) implies sources_has_key(
                self.power.sources@,
                self.registry.s()[i2].id,
            ) by {
                assert(ss0[i2].powered == self.registry.s()[i2].powered && ss0[i2].ty
                    == self.registry.s()[i2].ty && ss0[i2].id == self.registry.s()[i2].id);
            }
        }
        if depleted {
            WaterResult::WaterDepleted
        } else {
            WaterResult::WaterConsumed
        }
    }


    /// Harvests ore on the mining cadence (frames 0 modulo 300): each
    /// powered irrigator mines every Ore strictly inside its clean radius
    /// once, in table order; what each mine call reports is added to the
    /// purse, which saturates at the largest representable value.
    fn update_mining_amounts(&mut self) -> (ran: bool)
        requires
            old(self).wf(),
        ensures
            final(self).wf(),
            final(self).pipes == old(self).pipes,
            final(self).terrain == old(self).terrain,
            final(self).power == old(self).power,
            final(self).map == old(self).map,
            final(self).frame_count == old(self).frame_count,
            ran == (old(self).frame_count % 300 == 0),
            !ran ==> *final(self) == *old(self),
            ran ==> final(self).registry.s() == mining_pass(old(self).registry.s(), old(self).registry.s().len() as int).0,
            ran ==> final(self).ore_amount == saturate_add(old(self).ore_amount, mining_pass(old(self).registry.s(), old(self).registry.s().len() as int).1),
    {
        if self.frame_count % 300 != 0 {
            return false;
        }
        let ghost ss0 = self.registry.s();
        let ghost ore0 = self.ore_amount;
        let n = self.registry.count();
        let mut i: usize = 0;
        while i < n
            invariant
                old(self).wf(),
                n == ss0.len(),
                ss0 == old(self).registry.s(),
                ore0 == old(self).ore_amount,
                i <= n,
                self.pipes == old(self).pipes,
                self.terrain == old(self).terrain,
                self.power == old(self).power,
                self.map == old(self).map,
                self.frame_count == old(self).frame_count,
                self.registry.wf(),
                self.registry.s() == mining_pass(ss0, i as int).0,
                self.ore_amount == saturate_add(ore0, mining_pass(ss0, i as int).1),
            decreases n - i,
        {
            proof {
                lemma_mining_pass_shape(ss0, i as int);
            }
            let s = self.registry.get_at(i);
            let ghost irr = ss0[i as int];
            let is_irr = match s.ty() {
                StructureType::Irrigation => true,
                _ => false,
            };
            if is_irr && s.is_powered() {
                proof {
                    assert(is_powered_irrigator(irr));
                    assert(s.pos_x == irr.pos_x && s.pos_y == irr.pos_y);
                    assert(self.registry.s()[i as int].wf());
                }
                let qr = self.registry.query_radius(s.pos_x, s.pos_y, 50);
                let ghost pre = self.registry.s();
                let ghost gpre = mining_pass(ss0, i as int).1;
                let mut o: usize = 0;
                while o < n
                    invariant
                        old(self).wf(),
                        n == ss0.len(),
                        ss0 == old(self).registry.s(),
                        ore0 == old(self).ore_amount,
                        o <= n,
                        i < n,
                        self.pipes == old(self).pipes,
                        self.terrain == old(self).terrain,
                        self.power == old(self).power,
                        self.map == old(self).map,
                        self.frame_count == old(self).frame_count,
                        self.registry.wf(),
                        pre == mining_pass(ss0, i as int).0,
                        gpre == mining_pass(ss0, i as int).1,
                        pre.len() == n,
                        irr == ss0[i as int],
                        forall|m: int| 0 <= m < pre.len() ==> (#[trigger] pre[m]).wf(),
                        forall|m1: int, m2: int|
                            0 <= m1 < m2 < pre.len() ==> #[trigger] pre[m1].id
                                != #[trigger] pre[m2].id,
                        self.registry.s() == mining_inner(pre, irr, o as int).0,
                        self.ore_amount == saturate_add(
                            ore0,
                            gpre + mining_inner(pre, irr, o as int).1,
                        ),
                        forall|m: int|
                            0 <= m < pre.len() && within_radius(
                                #[trigger] pre[m],
                                irr.pos_x,
                                irr.pos_y,
                                50,
                            ) ==> qr@.contains(pre[m].id),
                        forall|c: i64|
                            #[trigger] qr@.contains(c) ==> exists|m: int|
                                0 <= m < pre.len() && (#[trigger] pre[m]).id == c
                                    && within_radius(pre[m], irr.pos_x, irr.pos_y, 50),
                    decreases n - o,
                {
                    proof {
                        lemma_mining_shape(pre, irr, o as int);
                    }
                    let t = self.registry.get_at(o);
                    let ghost cur = self.registry.s();
                    let is_ore = match t.ty() {
                        StructureType::Ore => true,
                        _ => false,
                    };
                    if is_ore && crate::power::vec_has_i64(&qr, t.instance_id()) {
                        proof {
                            // In the circle: the query hit this ore.
                            let m = choose|m: int|
                                0 <= m < pre.len() && (#[trigger] pre[m]).id == t.id
                                    && within_radius(pre[m], irr.pos_x, irr.pos_y, 50);
                            assert(cur[m].id == pre[m].id);
                            assert(cur[o as int].id == pre[o as int].id);
                            assert(m == o as int);
                            assert(within_radius(cur[o as int], irr.pos_x, irr.pos_y, 50)) by {
                                assert(cur[o as int].pos_x == pre[o as int].pos_x);
                                assert(cur[o as int].pos_y == pre[o as int].pos_y);
                            }
                            assert(self.registry.has_id(t.id)) by {
                                assert(self.registry.s()[o as int].id == t.id);
                            }
                            let wr = self.registry.id_index(t.id);
                            assert(self.registry.s()[wr].id == t.id);
                            assert(wr == o as int);
                            assert(self.registry.structure_of(t.id).amount is Some);
                        }
                        let ghost orepre = self.ore_amount;
                        let mined = self.registry.mine(t.instance_id(), 5);
                        if self.ore_amount <= i64::MAX - mined as i64 {
                            self.ore_amount = self.ore_amount + mined as i64;
                        } else {
                            self.ore_amount = i64::MAX;
                        }
                        proof {
                            assert(self.registry.s() == cur.update(o as int, cur[o as int].mined(5)));
                            assert(self.registry.s() == mining_inner(pre, irr, o as int + 1).0);
                            assert(mined == cur[o as int].mine_result(5));
                            assert(mined >= 0);
                            assert(mining_inner(pre, irr, o as int + 1).1 == mining_inner(
                                pre,
                                irr,
                                o as int,
                            ).1 + cur[o as int].mine_result(5));
                            let ghost g1 = gpre + mining_inner(pre, irr, o as int).1;
                            assert(ore0 >= 0);
                            lemma_mining_pass_shape(ss0, i as int);
                            assert(gpre >= 0);
                            assert(g1 >= 0);
                            assert(orepre == saturate_add(ore0, g1));
                            assert(self.ore_amount == saturate_add(ore0, g1 + mined)) by {
                                if ore0 + g1 <= i64::MAX {
                                    assert(orepre == ore0 + g1);
                                } else {
                                    assert(orepre == i64::MAX);
                                }
                            }
                            assert(self.ore_amount == saturate_add(
                                ore0,
                                gpre + mining_inner(pre, irr, o as int + 1).1,
                            ));
                        }
                    } else {
                        proof {
                            if is_ore {
                                assert(!qr@.contains(t.id));
                                if within_radius(cur[o as int], irr.pos_x, irr.pos_y, 50) {
                                    assert(pre[o as int].pos_x == cur[o as int].pos_x);
                                    assert(pre[o as int].pos_y == cur[o as int].pos_y);
                                    assert(within_radius(pre[o as int], irr.pos_x, irr.pos_y, 50));
                                    assert(qr@.contains(pre[o as int].id));
                                    assert(false);
                                }
                            }
                            assert(self.registry.s() == mining_inner(pre, irr, o as int + 1).0);
                        }
                    }
                    o += 1;
                }
                proof {
                    assert(self.registry.s() == mining_pass(ss0, i as int + 1).0);
                    assert(self.ore_amount == saturate_add(ore0, mining_pass(ss0, i as int + 1).1));
                }
            } else {
                proof {
                    assert(!is_powered_irrigator(ss0[i as int]));
                    assert(self.registry.s() == mining_pass(ss0, i as int + 1).0);
                }
            }
            i += 1;
        }
        proof {
            lemma_mining_pass_shape(ss0, n as int);
            assert forall|j: int|
                0 <= j < self.pipes.pipes@.len() implies self.registry.has_id(
                (#[trigger] self.pipes.pipes@[j]).start_id,
            ) && self.registry.has_id(self.pipes.pipes@[j].end_id) by {
                assert(old(self).registry.has_id(self.pipes.pipes@[j].start_id));
                let a = choose|i2: int|
                    0 <= i2 < ss0.len() && (#[trigger] ss0[i2]).id == self.pipes.pipes@[j].start_id;
                assert(self.registry.s()[a].id == ss0[a].id);
                assert(old(self).registry.has_id(self.pipes.pipes@[j].end_id));
                let b = choose|i2: int|
                    0 <= i2 < ss0.len() && (#[trigger] ss0[i2]).id == self.pipes.pipes@[j].end_id;
                assert(self.registry.s()[b].id == ss0[b].id);
            }
            assert forall|q: int|
                0 <= q < self.power.sources@.len() implies self.registry.has_id(
                (#[trigger] self.power.sources@[q]).1,
            ) && self.registry.structure_of(self.power.sources@[q].1).ty is Water by {
                let w = self.power.sources@[q].1;
                assert(old(self).registry.has_id(w));
                let wi = old(self).registry.id_index(w);
                assert(ss0[wi].id == w && ss0[wi].ty is Water);
                assert(self.registry.s()[wi].id == w && self.registry.s()[wi].ty == ss0[wi].ty);
                assert(self.registry.has_id(w));
                let wr = self.registry.id_index(w);
                assert(self.registry.s()[wr].id == w);
                assert(wr == wi);
            }
            assert forall|i2: int|
                0 <= i2 < self.registry.s().len() && (#[trigger] self.registry.s()[i2]).powered
                    && can_be_powered_of(self.registry.s()[i2].ty) implies sources_has_key(
                self.power.sources@,
                self.registry.s()[i2].id,
            ) by {
                assert(ss0[i2].powered == self.registry.s()[i2].powered && ss0[i2].ty
                    == self.registry.s()[i2].ty && ss0[i2].id == self.registry.s()[i2].id);
            }
        }
        true
    }


    /// The `(id, remaining amount)` of every resource structure, in table
    /// order.
    fn collect_resource_amounts(&self) -> (v: Vec<(i64, i32)>)
        requires
            self.wf(),
        ensures
            v@ == resource_amounts(self.registry.s(), self.registry.s().len() as int),
    {
        let mut v: Vec<(i64, i32)> = Vec::new();
        let n = self.registry.count();
        let mut i: usize = 0;
        while i < n
            invariant
                self.wf(),
                n == self.registry.s().len(),
                i <= n,
                v@ == resource_amounts(self.registry.s(), i as int),
            decreases n - i,
        {
            let s = self.registry.get_at(i);
            match s.amount {
                Some(a) => {
                    v.push((s.id, a));
                },
                None => {},
            }
            i += 1;
        }
        v
    }

    /// One resource tick: on the water cadence every powered irrigator
    /// debits its Water root; on the mining cadence every powered irrigator
    /// harvests the Ore inside its clean radius into the purse; and if some
    /// Water root was drained to zero, power is recomputed so the dead root
    /// stops powering its consumers. Reports the purse and every resource
    /// amount when anything ran, and nothing when neither cadence hit.
    pub fn update_amounts(&mut self) -> (r: Option<AmountsUpdated>)
        requires
            old(self).wf(),
        ensures
            final(self).wf(),
            final(self).pipes == old(self).pipes,
            final(self).terrain == old(self).terrain,
            final(self).map == old(self).map,
            final(self).frame_count == old(self).frame_count,
            (r is None) == (old(self).frame_count % 60 != 30 && old(self).frame_count % 300 != 0),
            r is None ==> *final(self) == *old(self),
            final(self).ore_amount == saturate_add(old(self).ore_amount, old(self).after_mining().1),
            !old(self).amounts_depleted() ==> final(self).registry.s() == old(self).after_mining().0,
            !old(self).amounts_depleted() ==> final(self).power == old(self).power,
            old(self).amounts_depleted() ==> final(self).registry.s() == with_power_flags(
                old(self).after_mining().0,
                final(self).power.sources@,
            ),
            old(self).amounts_depleted() ==> (forall|c: i64|
                #[trigger] sources_has_key(final(self).power.sources@, c) <==> consumer_powered(
                    final(self).registry,
                    final(self).pipes.pipes@,
                    c,
                )),
            r matches Some(a) ==> a.total_ore == final(self).ore_amount,
            r matches Some(a) ==> a.remaining_resource_amounts@ == resource_amounts(
                final(self).registry.s(),
                final(self).registry.s().len() as int,
            ),
    {
        let wr = self.update_water_amounts();
        let ran_water = match wr {
            WaterResult::NothingToDo => false,
            _ => true,
        };
        let depleted = match wr {
            WaterResult::WaterDepleted => true,
            _ => false,
        };
        let ran_mining = self.update_mining_amounts();
        let ghost mid = *self;
        if depleted {
            self.update_pipe_network();
            proof {
                crate::power::lemma_power_ignores_flags(
                    mid.registry,
                    self.registry,
                    self.pipes.pipes@,
                );
                assert forall|i: int|
                    0 <= i < mid.registry.s().len() implies (#[trigger] self.registry.s()[i]).id
                        == mid.registry.s()[i].id && self.registry.s()[i].ty
                        == mid.registry.s()[i].ty && self.registry.s()[i].amount
                        == mid.registry.s()[i].amount by {}
            }
        }
        if ran_water || ran_mining {
            let remaining = self.collect_resource_amounts();
            Some(AmountsUpdated { total_ore: self.ore_amount, remaining_resource_amounts: remaining })
        } else {
            None
        }
    }


    /// One blight pass over every structure, in table order: each powered
    /// cleaner paints a clean disk into the pending batch, and each
    /// damageable structure whose local average blight exceeds the
    /// threshold takes proportional damage.
    fn blight_damage_pass(&mut self, dt_ms: u64)
        requires
            old(self).wf(),
            dt_ms <= 10_000,
        ensures
            final(self).wf(),
            final(self).pipes == old(self).pipes,
            final(self).power == old(self).power,
            final(self).map == old(self).map,
            final(self).ore_amount == old(self).ore_amount,
            final(self).frame_count == old(self).frame_count,
            final(self).terrain.read == old(self).terrain.read,
            final(self).registry.s() == old(self).blight_outcome(dt_ms),
            forall|i: int|
                0 <= i < old(self).registry.s().len() && (#[trigger] old(self).registry.s()[i]).powered
                    && clean_radius_of(old(self).registry.s()[i].ty) is Some ==> clean_cmd_in(
                    final(self).terrain.pending@,
                    effect_circle(
                        old(self).map,
                        old(self).registry.s()[i].pos_x,
                        old(self).registry.s()[i].pos_y,
                        clean_radius_of(old(self).registry.s()[i].ty)->0,
                    ),
                ),
    {
        let ghost ss0 = self.registry.s();
        let ghost cells0 = self.terrain.read_cells();
        let ghost m = self.map;
        let n = self.registry.count();
        let mut i: usize = 0;
        while i < n
            invariant
                old(self).wf(),
                dt_ms <= 10_000,
                n == ss0.len(),
                ss0 == old(self).registry.s(),
                cells0 == old(self).terrain.read_cells(),
                m == old(self).map,
                m == self.map,
                i <= n,
                self.pipes == old(self).pipes,
                self.power == old(self).power,
                self.map == old(self).map,
                self.ore_amount == old(self).ore_amount,
                self.frame_count == old(self).frame_count,
                self.terrain.read == old(self).terrain.read,
                self.terrain.wf(),
                self.registry.wf(),
                self.registry.s().len() == n,
                forall|k: int|
                    0 <= k < i ==> self.registry.s()[k] == damaged_by_blight(
                        ss0[k],
                        cells0,
                        m,
                        dt_ms,
                    ),
                forall|k: int| i <= k < n ==> self.registry.s()[k] == ss0[k],
                forall|k: int|
                    0 <= k < i && (#[trigger] ss0[k]).powered && clean_radius_of(ss0[k].ty) is Some
                        ==> clean_cmd_in(
                        self.terrain.pending@,
                        effect_circle(m, ss0[k].pos_x, ss0[k].pos_y, clean_radius_of(ss0[k].ty)->0),
                    ),
            decreases n - i,
        {
            let s = self.registry.get_at(i);
            proof {
                assert(s == ss0[i as int]);
                assert(ss0[i as int].wf());
            }
            if s.is_powered() {
                match s.clean_radius() {
                    Some(cr) => {
                        let row = grid_coord_exec(s.pos_x, self.map.top_left_x, self.map.size_x);
                        let col = grid_coord_exec(s.pos_y, self.map.top_left_y, self.map.size_y);
                        let rad = grid_radius_exec(cr, self.map.size_x);
                        let shape = Shape::Circle { row, col, radius: rad };
                        let ghost pend0 = self.terrain.pending@;
                        proof {
                            assert(shape == effect_circle(m, s.pos_x, s.pos_y, cr));
                        }
                        self.terrain.fill_shape(shape, 0);
                        proof {
                            // The fresh command is in the batch, the old
                            // clean commands are untouched or rewritten
                            // with the same clean value.
                            if crate::terrain::batch_has(pend0, shape) {
                                let w = crate::terrain::batch_index(pend0, shape);
                                assert(self.terrain.pending@[w] == (shape, 0u8));
                            } else {
                                assert(self.terrain.pending@[pend0.len() as int] == (shape, 0u8));
                            }
                            assert(clean_cmd_in(self.terrain.pending@, shape));
                            assert forall|k: int|
                                0 <= k < i && (#[trigger] ss0[k]).powered && clean_radius_of(
                                    ss0[k].ty,
                                ) is Some implies clean_cmd_in(
                                self.terrain.pending@,
                                effect_circle(
                                    m,
                                    ss0[k].pos_x,
                                    ss0[k].pos_y,
                                    clean_radius_of(ss0[k].ty)->0,
                                ),
                            ) by {
                                let sh = effect_circle(
                                    m,
                                    ss0[k].pos_x,
                                    ss0[k].pos_y,
                                    clean_radius_of(ss0[k].ty)->0,
                                );
                                assert(clean_cmd_in(pend0, sh));
                                let q = choose|q: int|
                                    0 <= q < pend0.len() && #[trigger] pend0[q] == (sh, 0u8);
                                if crate::terrain::batch_has(pend0, shape) {
                                    let w = crate::terrain::batch_index(pend0, shape);
                                    if q == w {
                                        assert(sh == shape);
                                        assert(self.terrain.pending@[q] == (sh, 0u8));
                                    } else {
                                        assert(self.terrain.pending@[q] == (sh, 0u8));
                                    }
                                } else {
                                    assert(self.terrain.pending@[q] == (sh, 0u8));
                                }
                            }
                        }
                    },
                    None => {},
                }
            }
            let s2 = self.registry.get_at(i);
            match s2.damage_radius() {
                Some(dr) => {
                    let row = grid_coord_exec(s2.pos_x, self.map.top_left_x, self.map.size_x);
                    let col = grid_coord_exec(s2.pos_y, self.map.top_left_y, self.map.size_y);
                    let rad = grid_radius_exec(dr, self.map.size_x);
                    let shape = Shape::Circle { row, col, radius: rad };
                    proof {
                        assert(shape == effect_circle(m, s2.pos_x, s2.pos_y, dr));
                        assert(shape_on_grid(shape));
                    }
                    let avg = self.terrain.query_shape_avg(&shape);
                    if avg > 200 {
                        proof {
                            assert(dt_ms * 80 * (avg as u64) <= 20_400_000_000) by (nonlinear_arith)
                                requires
                                    dt_ms <= 10_000,
                                    avg <= 255,
                            ;
                        }
                        let dmg64: u64 = dt_ms * 80 * (avg as u64) / 256;
                        proof {
                            vstd::arithmetic::div_mod::lemma_div_is_ordered(
                                dt_ms * 80 * (avg as u64),
                                20_400_000_000,
                                256,
                            );
                            vstd::arithmetic::div_mod::lemma_div_pos_is_pos(
                                dt_ms * 80 * (avg as u64),
                                256,
                            );
                            assert(20_400_000_000int / 256 == 79_687_500) by (nonlinear_arith);
                            assert(self.registry.s()[i as int].id == s2.id);
                            assert(self.registry.has_id(s2.id));
                            let w = self.registry.id_index(s2.id);
                            assert(self.registry.s()[w].id == s2.id);
                            assert(w == i as int);
                        }
                        self.registry.deal_damage(s2.instance_id(), dmg64 as u32);
                        proof {
                            assert(self.registry.s()[i as int] == damaged_by_blight(
                                ss0[i as int],
                                cells0,
                                m,
                                dt_ms,
                            ));
                        }
                    } else {
                        proof {
                            assert(self.registry.s()[i as int] == damaged_by_blight(
                                ss0[i as int],
                                cells0,
                                m,
                                dt_ms,
                            ));
                        }
                    }
                },
                None => {
                    proof {
                        assert(self.registry.s()[i as int] == damaged_by_blight(
                            ss0[i as int],
                            cells0,
                            m,
                            dt_ms,
                        ));
                    }
                },
            }
            i += 1;
        }
        proof {
            assert(self.registry.s() =~= blight_damaged_all(ss0, cells0, m, dt_ms));
            // Damage changes only health, so ids, types, flags and amounts
            // keep every power-table and pipe-endpoint fact.
            assert forall|k: int|
                0 <= k < n implies (#[trigger] self.registry.s()[k]).id == ss0[k].id
                    && self.registry.s()[k].ty == ss0[k].ty && self.registry.s()[k].powered
                    == ss0[k].powered && self.registry.s()[k].amount == ss0[k].amount by {}
            assert forall|j: int|
                0 <= j < self.pipes.pipes@.len() implies self.registry.has_id(
                (#[trigger] self.pipes.pipes@[j]).start_id,
            ) && self.registry.has_id(self.pipes.pipes@[j].end_id) by {
                assert(old(self).registry.has_id(self.pipes.pipes@[j].start_id));
                let a = choose|i2: int|
                    0 <= i2 < ss0.len() && (#[trigger] ss0[i2]).id == self.pipes.pipes@[j].start_id;
                assert(self.registry.s()[a].id == ss0[a].id);
                assert(old(self).registry.has_id(self.pipes.pipes@[j].end_id));
                let b = choose|i2: int|
                    0 <= i2 < ss0.len() && (#[trigger] ss0[i2]).id == self.pipes.pipes@[j].end_id;
                assert(self.registry.s()[b].id == ss0[b].id);
            }
            assert forall|q: int|
                0 <= q < self.power.sources@.len() implies self.registry.has_id(
                (#[trigger] self.power.sources@[q]).1,
            ) && self.registry.structure_of(self.power.sources@[q].1).ty is Water by {
                let w = self.power.sources@[q].1;
                assert(old(self).registry.has_id(w));
                let wi = old(self).registry.id_index(w);
                assert(ss0[wi].id == w && ss0[wi].ty is Water);
                assert(self.registry.s()[wi].id == w && self.registry.s()[wi].ty == ss0[wi].ty);
                assert(self.registry.has_id(w));
                let wr = self.registry.id_index(w);
                assert(self.registry.s()[wr].id == w);
                assert(wr == wi);
            }
        }
    }


    /// The ids of every destroyed structure, in table order.
    fn collect_dead(&self) -> (dead: Vec<i64>)
        requires
            self.registry.wf(),
        ensures
            forall|q: int|
                0 <= q < dead@.len() ==> dead_in(self.registry.s(), #[trigger] dead@[q]),
            forall|i: int|
                0 <= i < self.registry.s().len() && (#[trigger] self.registry.s()[i]).health == 0
                    ==> dead@.contains(self.registry.s()[i].id),
            forall|q1: int, q2: int|
                0 <= q1 < q2 < dead@.len() ==> #[trigger] dead@[q1] != #[trigger] dead@[q2],
            forall|id: i64| #[trigger] dead@.contains(id) ==> dead_in(self.registry.s(), id),
    {
        let ghost ss = self.registry.s();
        let mut dead: Vec<i64> = Vec::new();
        let n = self.registry.count();
        let mut i: usize = 0;
        while i < n
            invariant
                self.registry.wf(),
                ss == self.registry.s(),
                n == ss.len(),
                i <= n,
                forall|q: int| 0 <= q < dead@.len() ==> dead_in(ss, #[trigger] dead@[q]),
                forall|k: int|
                    0 <= k < i && (#[trigger] ss[k]).health == 0 ==> dead@.contains(ss[k].id),
                forall|q: int|
                    #![trigger dead@[q]]
                    0 <= q < dead@.len() ==> exists|k: int|
                        0 <= k < i && (#[trigger] ss[k]).id == dead@[q],
                forall|q1: int, q2: int|
                    0 <= q1 < q2 < dead@.len() ==> #[trigger] dead@[q1] != #[trigger] dead@[q2],
            decreases n - i,
        {
            let s = self.registry.get_at(i);
            if !s.is_alive() {
                let ghost dead0 = dead@;
                proof {
                    assert(s.health == 0);
                    // A second entry for the same id would contradict id
                    // uniqueness.
                    assert forall|q: int| 0 <= q < dead0.len() implies #[trigger] dead0[q]
                        != s.id by {
                        let k = choose|k: int| 0 <= k < i && (#[trigger] ss[k]).id == dead0[q];
                        assert(ss[k].id != ss[i as int].id);
                    }
                }
                dead.push(s.instance_id());
                proof {
                    assert(dead@[dead@.len() - 1] == ss[i as int].id);
                    assert(dead_in(ss, ss[i as int].id));
                    assert forall|k2: int|
                        0 <= k2 < i + 1 && (#[trigger] ss[k2]).health == 0 implies dead@.contains(
                        ss[k2].id,
                    ) by {
                        if k2 < i {
                            assert(dead0.contains(ss[k2].id));
                            let q = choose|q: int| 0 <= q < dead0.len() && dead0[q] == ss[k2].id;
                            assert(dead@[q] == ss[k2].id);
                        } else {
                            assert(dead@[dead@.len() - 1] == ss[k2].id);
                        }
                    }
                    assert forall|q: int| #![trigger dead@[q]] 0 <= q < dead@.len() implies exists|k: int|
                        0 <= k < i + 1 && (#[trigger] ss[k]).id == dead@[q] by {
                        if q < dead0.len() {
                            assert(dead@[q] == dead0[q]);
                            let k = choose|k: int| 0 <= k < i && (#[trigger] ss[k]).id == dead0[q];
                            assert(ss[k].id == dead@[q]);
                        } else {
                            assert(ss[i as int].id == dead@[q]);
                        }
                    }
                }
            }
            i += 1;
        }
        proof {
            assert forall|id: i64| #[trigger] dead@.contains(id) implies dead_in(ss, id) by {
                let q = choose|q: int| 0 <= q < dead@.len() && dead@[q] == id;
                assert(dead_in(ss, dead@[q]));
            }
        }
        dead
    }

    /// Removes every structure of the dead list from the registry and
    /// prunes their pipes, accumulating the removed pipe ids.
    fn remove_dead(&mut self, dead: &Vec<i64>) -> (removed: Vec<i64>)
        requires
            old(self).core_wf(),
            forall|q: int| 0 <= q < dead@.len() ==> dead_in(old(self).registry.s(), #[trigger] dead@[q]),
            forall|i: int|
                0 <= i < old(self).registry.s().len() && (#[trigger] old(self).registry.s()[i]).health
                    == 0 ==> dead@.contains(old(self).registry.s()[i].id),
            forall|q1: int, q2: int|
                0 <= q1 < q2 < dead@.len() ==> #[trigger] dead@[q1] != #[trigger] dead@[q2],
        ensures
            final(self).core_wf(),
            final(self).terrain == old(self).terrain,
            final(self).power == old(self).power,
            final(self).map == old(self).map,
            final(self).ore_amount == old(self).ore_amount,
            final(self).frame_count == old(self).frame_count,
            forall|i: int|
                0 <= i < old(self).registry.s().len() && (#[trigger] old(self).registry.s()[i]).health
                    > 0 ==> final(self).registry.has_id(old(self).registry.s()[i].id)
                    && final(self).registry.structure_of(old(self).registry.s()[i].id)
                    == old(self).registry.s()[i],
            forall|id: i64|
                #[trigger] final(self).registry.has_id(id) ==> seq_has_id(
                    old(self).registry.s(),
                    id,
                ) && !dead_in(old(self).registry.s(), id),
            forall|j: int|
                0 <= j < final(self).pipes.pipes@.len() ==> old(self).pipes.pipes@.contains(
                    #[trigger] final(self).pipes.pipes@[j],
                ) && !pipe_touches_dead(old(self).registry.s(), final(self).pipes.pipes@[j]),
            forall|j: int|
                0 <= j < old(self).pipes.pipes@.len() && !pipe_touches_dead(
                    old(self).registry.s(),
                    #[trigger] old(self).pipes.pipes@[j],
                ) ==> final(self).pipes.pipes@.contains(old(self).pipes.pipes@[j]),
            forall|pid: i64|
                #[trigger] removed@.contains(pid) ==> exists|j: int|
                    0 <= j < old(self).pipes.pipes@.len() && (#[trigger] old(self).pipes.pipes@[j]).pipe_id
                        == pid && pipe_touches_dead(
                        old(self).registry.s(),
                        old(self).pipes.pipes@[j],
                    ),
            forall|j: int|
                0 <= j < old(self).pipes.pipes@.len() && pipe_touches_dead(
                    old(self).registry.s(),
                    #[trigger] old(self).pipes.pipes@[j],
                ) ==> removed@.contains(old(self).pipes.pipes@[j].pipe_id),
    {
        let ghost ss1 = old(self).registry.s();
        let ghost ps0 = old(self).pipes.pipes@;
        let mut removed: Vec<i64> = Vec::new();
        let mut k: usize = 0;
        while k < dead.len()
            invariant
                old(self).core_wf(),
                ss1 == old(self).registry.s(),
                ps0 == old(self).pipes.pipes@,
                k <= dead@.len(),
                forall|q: int| 0 <= q < dead@.len() ==> dead_in(ss1, #[trigger] dead@[q]),
                forall|i: int|
                    0 <= i < ss1.len() && (#[trigger] ss1[i]).health == 0 ==> dead@.contains(
                        ss1[i].id,
                    ),
                forall|q1: int, q2: int|
                    0 <= q1 < q2 < dead@.len() ==> #[trigger] dead@[q1] != #[trigger] dead@[q2],
                self.terrain == old(self).terrain,
                self.power == old(self).power,
                self.map == old(self).map,
                self.ore_amount == old(self).ore_amount,
                self.frame_count == old(self).frame_count,
                self.registry.wf(),
                self.pipes.wf(),
                endpoints_registered(self.pipes.pipes@, self.registry),
                forall|i: int|
                    0 <= i < ss1.len() && damage_radius_of((#[trigger] ss1[i]).ty) is None
                        ==> ss1[i].health > 0,
                forall|i: int|
                    0 <= i < self.registry.s().len() ==> damage_radius_of(
                        (#[trigger] self.registry.s()[i]).ty,
                    ) is None ==> self.registry.s()[i].health > 0,
                forall|i: int|
                    0 <= i < ss1.len() && (#[trigger] ss1[i]).health > 0
                        ==> self.registry.has_id(ss1[i].id) && self.registry.structure_of(
                        ss1[i].id,
                    ) == ss1[i],
                forall|x: i64|
                    #[trigger] self.registry.has_id(x) ==> seq_has_id(ss1, x) && !(exists|q: int|
                        0 <= q < k && #[trigger] dead@[q] == x),
                forall|q: int|
                    k <= q < dead@.len() ==> self.registry.has_id(#[trigger] dead@[q]),
                forall|j: int|
                    0 <= j < self.pipes.pipes@.len() ==> ps0.contains(
                        #[trigger] self.pipes.pipes@[j],
                    ) && !(exists|q: int|
                        0 <= q < k && (#[trigger] self.pipes.pipes@[j]).touches(dead@[q])),
                forall|j: int|
                    0 <= j < ps0.len() && !(exists|q: int|
                        0 <= q < k && (#[trigger] ps0[j]).touches(dead@[q]))
                        ==> self.pipes.pipes@.contains(ps0[j]),
                forall|pid: i64|
                    #[trigger] removed@.contains(pid) ==> exists|j: int|
                        0 <= j < ps0.len() && (#[trigger] ps0[j]).pipe_id == pid && (exists|q: int|
                            0 <= q < k && ps0[j].touches(#[trigger] dead@[q])),
                forall|j: int, q: int|
                    0 <= j < ps0.len() && 0 <= q < k && (#[trigger] ps0[j]).touches(
                        #[trigger] dead@[q],
                    ) ==> removed@.contains(ps0[j].pipe_id),
            decreases dead@.len() - k,
        {
            let d = dead[k];
            let ghost cur_ps = self.pipes.pipes@;
            let ghost rem0 = removed@;
            let mut pruned = self.pipes.prune_structure(d);
            let ghost step_rem = pruned@;
            let ghost regpre = self.registry;
            let was = self.registry.remove(d);
            removed.append(&mut pruned);
            proof {
                let plen = cur_ps.len() as int;
                crate::power::lemma_prune_exact(cur_ps, d, plen);
                crate::power::lemma_prune_origin(cur_ps, d, plen);
                let kept = kept_pipes(cur_ps, d, plen);
                assert(self.pipes.pipes@ == kept);
                assert(step_rem == removed_pipe_ids(cur_ps, d, plen));
                assert(removed@ == rem0 + step_rem);
                // The structure in hand was still registered, so it really
                // was removed.
                assert(regpre.has_id(d));
                assert(was);
                let idxd = regpre.id_index(d);
                assert(regpre.s()[idxd].id == d);
                assert(self.registry.s() == regpre.s().remove(idxd));
                crate::registry::lemma_remove_membership(regpre, self.registry, idxd);
                // No live structure carries the removed id.
                let di = choose|di: int|
                    0 <= di < ss1.len() && (#[trigger] ss1[di]).id == d && ss1[di].health == 0;
                // Survivors keep their entry.
                assert forall|i: int|
                    0 <= i < ss1.len() && (#[trigger] ss1[i]).health > 0
                        implies self.registry.has_id(ss1[i].id) && self.registry.structure_of(
                    ss1[i].id,
                ) == ss1[i] by {
                    assert(ss1[i].id != d) by {
                        if ss1[i].id == d {
                            assert(i == di);
                        }
                    }
                    assert(regpre.has_id(ss1[i].id));
                }
                // Nothing new appears and the removed prefix stays gone.
                assert forall|x: i64|
                    #[trigger] self.registry.has_id(x) implies seq_has_id(ss1, x) && !(exists|
                        q: int,
                    |
                        0 <= q < k + 1 && #[trigger] dead@[q] == x) by {
                    assert(regpre.has_id(x) && x != d);
                    if exists|q: int| 0 <= q < k + 1 && #[trigger] dead@[q] == x {
                        let q = choose|q: int| 0 <= q < k + 1 && #[trigger] dead@[q] == x;
                        if q < k {
                            assert(false);
                        } else {
                            assert(x == d);
                            assert(false);
                        }
                    }
                }
                // The dead structures still pending stay registered.
                assert forall|q: int|
                    k + 1 <= q < dead@.len() implies self.registry.has_id(#[trigger] dead@[q]) by {
                    assert(dead@[q] != d);
                    assert(regpre.has_id(dead@[q]));
                }
                // Destroyed-immunity carries to the smaller table.
                assert forall|i: int|
                    0 <= i < self.registry.s().len() && damage_radius_of(
                        (#[trigger] self.registry.s()[i]).ty,
                    ) is None implies self.registry.s()[i].health > 0 by {
                    let j = choose|j: int|
                        0 <= j < regpre.s().len() && #[trigger] self.registry.s()[i]
                            == regpre.s()[j];
                }
                // Kept pipes come from the originals and touch no dead id.
                assert forall|j: int|
                    0 <= j < self.pipes.pipes@.len() implies ps0.contains(
                    #[trigger] self.pipes.pipes@[j],
                ) && !(exists|q: int|
                    0 <= q < k + 1 && (#[trigger] self.pipes.pipes@[j]).touches(dead@[q])) by {
                    assert(crate::power::kept_from(cur_ps, d, plen, kept[j]));
                    let j0 = choose|j0: int|
                        0 <= j0 < cur_ps.len() && !(#[trigger] cur_ps[j0]).touches(d) && cur_ps[j0]
                            == kept[j];
                    assert(ps0.contains(cur_ps[j0]));
                    if exists|q: int|
                        0 <= q < k + 1 && (#[trigger] self.pipes.pipes@[j]).touches(dead@[q]) {
                        let q = choose|q: int|
                            0 <= q < k + 1 && (#[trigger] self.pipes.pipes@[j]).touches(dead@[q]);
                        if q < k {
                            assert(false);
                        } else {
                            assert(false);
                        }
                    }
                }
                // Untouched pipes survive this pruning too.
                assert forall|j: int|
                    0 <= j < ps0.len() && !(exists|q: int|
                        0 <= q < k + 1 && (#[trigger] ps0[j]).touches(dead@[q]))
                        implies self.pipes.pipes@.contains(ps0[j]) by {
                    assert(!(exists|q: int| 0 <= q < k && (#[trigger] ps0[j]).touches(dead@[q])));
                    assert(cur_ps.contains(ps0[j]));
                    let jc = choose|jc: int| 0 <= jc < cur_ps.len() && cur_ps[jc] == ps0[j];
                    assert(!cur_ps[jc].touches(d));
                    assert(kept.contains(cur_ps[jc]));
                }
                // Every reported pipe id comes from a pipe that touched a
                // dead structure.
                assert forall|pid: i64| #[trigger] removed@.contains(pid) implies exists|j: int|
                    0 <= j < ps0.len() && (#[trigger] ps0[j]).pipe_id == pid && (exists|q: int|
                        0 <= q < k + 1 && ps0[j].touches(#[trigger] dead@[q])) by {
                    let qi = choose|qi: int| 0 <= qi < removed@.len() && removed@[qi] == pid;
                    if qi < rem0.len() {
                        assert(removed@[qi] == rem0[qi]);
                        assert(rem0.contains(pid));
                        let j = choose|j: int|
                            0 <= j < ps0.len() && (#[trigger] ps0[j]).pipe_id == pid && (exists|
                                q: int,
                            |
                                0 <= q < k && ps0[j].touches(#[trigger] dead@[q]));
                        let q = choose|q: int| 0 <= q < k && ps0[j].touches(#[trigger] dead@[q]);
                        assert(ps0[j].touches(dead@[q]) && 0 <= q < k + 1);
                    } else {
                        assert(removed@[qi] == step_rem[qi - rem0.len()]);
                        assert(crate::power::removed_from(
                            cur_ps,
                            d,
                            plen,
                            step_rem[qi - rem0.len()],
                        ));
                        let j0 = choose|j0: int|
                            0 <= j0 < cur_ps.len() && (#[trigger] cur_ps[j0]).touches(d)
                                && cur_ps[j0].pipe_id == step_rem[qi - rem0.len()];
                        assert(ps0.contains(cur_ps[j0]));
                        let j = choose|j: int| 0 <= j < ps0.len() && ps0[j] == cur_ps[j0];
                        assert(ps0[j].touches(dead@[k as int]));
                    }
                }
                // And every pipe that touched a dead structure is reported.
                assert forall|j: int, q: int|
                    0 <= j < ps0.len() && 0 <= q < k + 1 && (#[trigger] ps0[j]).touches(
                        #[trigger] dead@[q],
                    ) implies removed@.contains(ps0[j].pipe_id) by {
                    if exists|q2: int| 0 <= q2 < k && (#[trigger] ps0[j]).touches(dead@[q2]) {
                        let q2 = choose|q2: int|
                            0 <= q2 < k && (#[trigger] ps0[j]).touches(dead@[q2]);
                        assert(rem0.contains(ps0[j].pipe_id));
                        let qi = choose|qi: int|
                            0 <= qi < rem0.len() && rem0[qi] == ps0[j].pipe_id;
                        assert(removed@[qi] == ps0[j].pipe_id);
                    } else {
                        assert(q == k);
                        assert(cur_ps.contains(ps0[j]));
                        let jc = choose|jc: int| 0 <= jc < cur_ps.len() && cur_ps[jc] == ps0[j];
                        assert(cur_ps[jc].touches(d));
                        assert(removed_pipe_ids(cur_ps, d, plen).contains(cur_ps[jc].pipe_id));
                        let si = choose|si: int|
                            0 <= si < step_rem.len() && step_rem[si] == ps0[j].pipe_id;
                        assert(removed@[rem0.len() + si] == ps0[j].pipe_id);
                    }
                }
                // Pipe endpoints other than the removed structure stay
                // registered.
                assert forall|j: int|
                    0 <= j < self.pipes.pipes@.len() implies self.registry.has_id(
                    (#[trigger] self.pipes.pipes@[j]).start_id,
                ) && self.registry.has_id(self.pipes.pipes@[j].end_id) by {
                    assert(crate::power::kept_from(cur_ps, d, plen, kept[j]));
                    let j0 = choose|j0: int|
                        0 <= j0 < cur_ps.len() && !(#[trigger] cur_ps[j0]).touches(d) && cur_ps[j0]
                            == kept[j];
                    assert(regpre.has_id(cur_ps[j0].start_id));
                    assert(regpre.has_id(cur_ps[j0].end_id));
                    assert(cur_ps[j0].start_id != d && cur_ps[j0].end_id != d);
                }
            }
            k += 1;
        }
        removed
    }


    /// One blight tick, in the order the rules require: powered cleaners
    /// paint their clean disks, damageable structures take damage from the
    /// local blight average, destroyed structures are removed together with
    /// every pipe that references them, and power is recomputed. Reports the
    /// removed pipe ids.
    pub fn update_blight(&mut self, dt_ms: u64) -> (r: BlightUpdated)
        requires
            old(self).wf(),
            dt_ms <= 10_000,
        ensures
            final(self).wf(),
            final(self).map == old(self).map,
            final(self).ore_amount == old(self).ore_amount,
            final(self).frame_count == old(self).frame_count,
            final(self).terrain.read == old(self).terrain.read,
            forall|i: int|
                0 <= i < old(self).registry.s().len() && (#[trigger] old(self).registry.s()[i]).powered
                    && clean_radius_of(old(self).registry.s()[i].ty) is Some ==> clean_cmd_in(
                    final(self).terrain.pending@,
                    effect_circle(
                        old(self).map,
                        old(self).registry.s()[i].pos_x,
                        old(self).registry.s()[i].pos_y,
                        clean_radius_of(old(self).registry.s()[i].ty)->0,
                    ),
                ),
            forall|i: int|
                0 <= i < old(self).blight_outcome(dt_ms).len() && (#[trigger] old(self).blight_outcome(
                    dt_ms,
                )[i]).health > 0 ==> final(self).registry.has_id(
                    old(self).blight_outcome(dt_ms)[i].id,
                ) && final(self).registry.structure_of(old(self).blight_outcome(dt_ms)[i].id) == (
                if can_be_powered_of(old(self).blight_outcome(dt_ms)[i].ty) {
                    old(self).blight_outcome(dt_ms)[i].with_powered(
                        sources_has_key(
                            final(self).power.sources@,
                            old(self).blight_outcome(dt_ms)[i].id,
                        ),
                    )
                } else {
                    old(self).blight_outcome(dt_ms)[i]
                }),
            forall|i: int|
                0 <= i < old(self).blight_outcome(dt_ms).len() && (#[trigger] old(self).blight_outcome(
                    dt_ms,
                )[i]).health == 0 ==> !final(self).registry.has_id(
                    old(self).blight_outcome(dt_ms)[i].id,
                ),
            forall|id: i64|
                #[trigger] final(self).registry.has_id(id) ==> seq_has_id(
                    old(self).blight_outcome(dt_ms),
                    id,
                ) && !dead_in(old(self).blight_outcome(dt_ms), id),
            forall|j: int|
                0 <= j < final(self).pipes.pipes@.len() ==> old(self).pipes.pipes@.contains(
                    #[trigger] final(self).pipes.pipes@[j],
                ) && !pipe_touches_dead(
                    old(self).blight_outcome(dt_ms),
                    final(self).pipes.pipes@[j],
                ),
            forall|j: int|
                0 <= j < old(self).pipes.pipes@.len() && !pipe_touches_dead(
                    old(self).blight_outcome(dt_ms),
                    #[trigger] old(self).pipes.pipes@[j],
                ) ==> final(self).pipes.pipes@.contains(old(self).pipes.pipes@[j]),
            forall|pid: i64|
                #[trigger] r.removed_pipe_ids@.contains(pid) ==> exists|j: int|
                    0 <= j < old(self).pipes.pipes@.len() && (#[trigger] old(self).pipes.pipes@[j]).pipe_id
                        == pid && pipe_touches_dead(
                        old(self).blight_outcome(dt_ms),
                        old(self).pipes.pipes@[j],
                    ),
            forall|j: int|
                0 <= j < old(self).pipes.pipes@.len() && pipe_touches_dead(
                    old(self).blight_outcome(dt_ms),
                    #[trigger] old(self).pipes.pipes@[j],
                ) ==> r.removed_pipe_ids@.contains(old(self).pipes.pipes@[j].pipe_id),
            forall|c: i64|
                #[trigger] sources_has_key(final(self).power.sources@, c) <==> consumer_powered(
                    final(self).registry,
                    final(self).pipes.pipes@,
                    c,
                ),
    {
        let ghost s1 = old(self).blight_outcome(dt_ms);
        self.blight_damage_pass(dt_ms);
        proof {
            assert(self.registry.s() == s1);
        }
        let dead = self.collect_dead();
        let removed = self.remove_dead(&dead);
        let ghost mid = *self;
        proof {
            assert forall|id: i64| dead_in(s1, id) implies #[trigger] dead@.contains(id) by {
                let i = choose|i: int|
                    0 <= i < s1.len() && (#[trigger] s1[i]).id == id && s1[i].health == 0;
            }
        }
        self.update_pipe_network();
        proof {
            crate::power::lemma_power_ignores_flags(mid.registry, self.registry, self.pipes.pipes@);
            assert forall|i: int|
                0 <= i < mid.registry.s().len() implies (#[trigger] self.registry.s()[i]).id
                    == mid.registry.s()[i].id && self.registry.s()[i].ty == mid.registry.s()[i].ty
                    && self.registry.s()[i].amount == mid.registry.s()[i].amount by {}
            assert forall|i: int|
                0 <= i < s1.len() && (#[trigger] s1[i]).health > 0 implies self.registry.has_id(
                s1[i].id,
            ) && self.registry.structure_of(s1[i].id) == (if can_be_powered_of(s1[i].ty) {
                s1[i].with_powered(sources_has_key(self.power.sources@, s1[i].id))
            } else {
                s1[i]
            }) by {
                assert(mid.registry.has_id(s1[i].id));
                assert(mid.registry.structure_of(s1[i].id) == s1[i]);
                crate::power::lemma_structure_of_same(mid.registry, self.registry, s1[i].id);
                let ai = mid.registry.id_index(s1[i].id);
                assert(self.registry.id_index(s1[i].id) == ai);
                assert(self.registry.s()[ai] == (if can_be_powered_of(mid.registry.s()[ai].ty) {
                    mid.registry.s()[ai].with_powered(
                        sources_has_key(self.power.sources@, mid.registry.s()[ai].id),
                    )
                } else {
                    mid.registry.s()[ai]
                }));
            }
            assert forall|id: i64| #[trigger] self.registry.has_id(id) implies seq_has_id(
                s1,
                id,
            ) && !dead_in(s1, id) by {
                assert(mid.registry.has_id(id));
            }
            assert forall|i: int|
                0 <= i < s1.len() && (#[trigger] s1[i]).health == 0 implies !self.registry.has_id(
                s1[i].id,
            ) by {
                if self.registry.has_id(s1[i].id) {
                    assert(dead_in(s1, s1[i].id));
                }
            }
        }
        BlightUpdated { removed_pipe_ids: removed }
    }

    /// Recomputes power from the current pipes and structures and applies
    /// the result to every structure whose type can be powered.
    pub fn update_pipe_network(&mut self)
        requires
            old(self).core_wf(),
        ensures
            final(self).wf(),
            final(self).pipes == old(self).pipes,
            final(self).terrain == old(self).terrain,
            final(self).map == old(self).map,
            final(self).ore_amount == old(self).ore_amount,
            final(self).frame_count == old(self).frame_count,
            final(self).registry.s() == with_power_flags(
                old(self).registry.s(),
                final(self).power.sources@,
            ),
            forall|id: i64|
                #[trigger] sources_has_key(final(self).power.sources@, id) <==> consumer_powered(
                    old(self).registry,
                    old(self).pipes.pipes@,
                    id,
                ),
            sources_ok(old(self).registry, old(self).pipes.pipes@, final(self).power.sources@),
            sources_unique(final(self).power.sources@),
            powered_pipes_ok(
                old(self).registry,
                old(self).pipes.pipes@,
                final(self).power.powered_pipes@,
            ),
            root_pipes_done(
                old(self).registry,
                old(self).pipes.pipes@,
                final(self).power.powered_pipes@,
            ),
            sources_incident(
                old(self).pipes.pipes@,
                final(self).power.sources@,
                final(self).power.powered_pipes@,
            ),
    {
        let ghost reg0 = old(self).registry;
        let ghost ps = old(self).pipes.pipes@;
        let st = self.pipes.recompute_power(&self.registry);
        let n = self.registry.count();
        let mut i: usize = 0;
        while i < n
            invariant
                n == reg0.s().len(),
                self.pipes == old(self).pipes,
                self.terrain == old(self).terrain,
                self.map == old(self).map,
                self.ore_amount == old(self).ore_amount,
                self.frame_count == old(self).frame_count,
                self.power == old(self).power,
                self.registry.wf(),
                self.registry.s().len() == n,
                i <= n,
                forall|m: int| i <= m < n ==> self.registry.s()[m] == reg0.s()[m],
                forall|m: int|
                    0 <= m < i ==> self.registry.s()[m] == (if can_be_powered_of(
                        reg0.s()[m].ty,
                    ) {
                        reg0.s()[m].with_powered(sources_has_key(st.sources@, reg0.s()[m].id))
                    } else {
                        reg0.s()[m]
                    }),
            decreases n - i,
        {
            let s = self.registry.get_at(i);
            if s.can_be_powered() {
                proof {
                    assert(self.registry.s()[i as int].id == s.id);
                    assert(self.registry.has_id(s.id));
                    let w = self.registry.id_index(s.id);
                    assert(self.registry.s()[w].id == s.id);
                    assert(w == i as int);
                }
                let p = st.is_powered(s.instance_id());
                self.registry.set_powered(s.instance_id(), p);
            }
            i += 1;
        }
        self.power = st;
        proof {
            assert(self.registry.s() =~= with_power_flags(reg0.s(), st.sources@));
            crate::power::lemma_power_ignores_flags(reg0, self.registry, ps);
            assert forall|q: int|
                0 <= q < self.power.sources@.len() implies self.registry.has_id(
                (#[trigger] self.power.sources@[q]).1,
            ) && self.registry.structure_of(self.power.sources@[q].1).ty is Water by {
                assert(source_entry_ok(reg0, ps, self.power.sources@[q]));
                assert(is_live_root(reg0, self.power.sources@[q].1));
                crate::power::lemma_structure_of_same(reg0, self.registry, self.power.sources@[q].1);
            }
            assert forall|i2: int|
                0 <= i2 < self.registry.s().len() && (#[trigger] self.registry.s()[i2]).powered
                    && can_be_powered_of(self.registry.s()[i2].ty) implies sources_has_key(
                self.power.sources@,
                self.registry.s()[i2].id,
            ) by {}
        }
    }
}

} // verus!
