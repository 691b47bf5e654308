//! Turning the command stream of a recorded game into the list of economic events
//! (research, training, cancellation, construction, deletion), with the names and costs
//! of the reference tables, and the players of the match.
use vstd::prelude::*;
use std::collections::HashMap;
use crate::reference::{
    parse_csv_map, csv_data_records, table_of_rows, layout_ok, strings_view, CsvLayout,
    CsvTable, TableView,
};
use crate::replay::{
    events_view, texts_view, EventView, GameCommand, InitialObject, OrderKind, PlayerSetup,
    RecordedGame, ReplayEvent, ResourceCost,
};
use crate::text::{chars_of, dec_digits, push_decimal, trim, trim_chars};
use crate::replay::{format_time, replay_time_spec};
use vstd::string::StringExecFns;

verus! {

broadcast use vstd::std_specs::hash::group_hash_axioms;

// ---------------------------------------------------------------------------
// Reference tables
// ---------------------------------------------------------------------------

/// The four reference tables of the game data.
#[derive(Debug, Clone)]
pub struct ReferenceTables {
    pub units: CsvTable,
    pub techs: CsvTable,
    pub buildings: CsvTable,
    pub civs: CsvTable,
}

pub struct TablesView {
    pub units: TableView,
    pub techs: TableView,
    pub buildings: TableView,
    pub civs: TableView,
}

impl View for ReferenceTables {
    type V = TablesView;

    open spec fn view(&self) -> TablesView {
        TablesView {
            units: self.units@,
            techs: self.techs@,
            buildings: self.buildings@,
            civs: self.civs@,
        }
    }
}

/// Units: id, name, food/wood/gold costs from column 6, building in column 7.
pub open spec fn units_layout() -> CsvLayout {
    CsvLayout { id_col: 0, name_col: 1, cost_start_col: Some(6), building_col: Some(7), num_costs: 3 }
}

/// Technologies: id, name, the four costs from column 2, building in column 6.
pub open spec fn techs_layout() -> CsvLayout {
    CsvLayout { id_col: 0, name_col: 1, cost_start_col: Some(2), building_col: Some(6), num_costs: 4 }
}

/// Buildings: id, name, the four costs from column 4.
pub open spec fn buildings_layout() -> CsvLayout {
    CsvLayout { id_col: 0, name_col: 1, cost_start_col: Some(4), building_col: None, num_costs: 4 }
}

/// Civilizations: id and name.
pub open spec fn civs_layout() -> CsvLayout {
    CsvLayout { id_col: 0, name_col: 1, cost_start_col: None, building_col: None, num_costs: 0 }
}

/// The tables that the four CSV texts give, if the csv crate reads all of them.
pub open spec fn tables_spec(units: Seq<char>, techs: Seq<char>, buildings: Seq<char>, civs: Seq<char>) -> Option<TablesView> {
    match (csv_data_records(units), csv_data_records(techs), csv_data_records(buildings), csv_data_records(civs)) {
        (Some(u), Some(t), Some(b), Some(c)) => Some(TablesView {
            units: table_of_rows(u, units_layout()),
            techs: table_of_rows(t, techs_layout()),
            buildings: table_of_rows(b, buildings_layout()),
            civs: table_of_rows(c, civs_layout()),
        }),
        _ => None,
    }
}

/// Reads the four reference tables; `Err` exactly when one of the texts is not CSV that
/// the csv crate reads.
pub fn load_reference_tables(units_csv: &str, techs_csv: &str, buildings_csv: &str, civs_csv: &str) -> (r: Result<ReferenceTables, String>)
    ensures
        match tables_spec(units_csv@, techs_csv@, buildings_csv@, civs_csv@) {
            Some(t) => r is Ok && r->Ok_0@ == t,
            None => r is Err,
        },
{
    let ul = CsvLayout { id_col: 0, name_col: 1, cost_start_col: Some(6), building_col: Some(7), num_costs: 3 };
    let tl = CsvLayout { id_col: 0, name_col: 1, cost_start_col: Some(2), building_col: Some(6), num_costs: 4 };
    let bl = CsvLayout { id_col: 0, name_col: 1, cost_start_col: Some(4), building_col: None, num_costs: 4 };
    let cl = CsvLayout { id_col: 0, name_col: 1, cost_start_col: None, building_col: None, num_costs: 0 };
    assert(layout_ok(ul) && layout_ok(tl) && layout_ok(bl) && layout_ok(cl));
    let units = parse_csv_map(units_csv, ul);
    let techs = parse_csv_map(techs_csv, tl);
    let buildings = parse_csv_map(buildings_csv, bl);
    let civs = parse_csv_map(civs_csv, cl);
    match (units, techs, buildings, civs) {
        (Ok(units), Ok(techs), Ok(buildings), Ok(civs)) => Ok(ReferenceTables { units, techs, buildings, civs }),
        (Err(e), _, _, _) => Err(e),
        (_, Err(e), _, _) => Err(e),
        (_, _, Err(e), _) => Err(e),
        (_, _, _, Err(e)) => Err(e),
    }
}

// ---------------------------------------------------------------------------
// Lookups
// ---------------------------------------------------------------------------

/// The name under `k`, or the default.
pub open spec fn name_or(m: Map<u32, Seq<char>>, k: u32, dflt: Seq<char>) -> Seq<char> {
    if m.contains_key(k) {
        m[k]
    } else {
        dflt
    }
}

pub open spec fn zero_cost() -> ResourceCost {
    ResourceCost { food: 0, wood: 0, gold: 0, stone: 0 }
}

/// The cost under `k`, or nothing.
pub open spec fn cost_or_zero(m: Map<u32, ResourceCost>, k: u32) -> ResourceCost {
    if m.contains_key(k) {
        m[k]
    } else {
        zero_cost()
    }
}

/// The name of the building that entry `id` of table `t` belongs to, if `t` gives a
/// building for it and the building table knows that building.
pub open spec fn linked_name(t: TableView, buildings: TableView, id: u32) -> Option<Seq<char>> {
    if t.buildings.contains_key(id) && buildings.names.contains_key(t.buildings[id]) {
        Some(buildings.names[t.buildings[id]])
    } else {
        None
    }
}

/// A cost times a count, when each product fits in `u32`.
pub open spec fn scaled(c: ResourceCost, n: u32) -> ResourceCost {
    ResourceCost {
        food: (c.food * n) as u32,
        wood: (c.wood * n) as u32,
        gold: (c.gold * n) as u32,
        stone: (c.stone * n) as u32,
    }
}

pub open spec fn scaled_fits(c: ResourceCost, n: u32) -> bool {
    &&& c.food * n <= u32::MAX
    &&& c.wood * n <= u32::MAX
    &&& c.gold * n <= u32::MAX
    &&& c.stone * n <= u32::MAX
}

fn name_lookup(m: &HashMap<u32, String>, k: u32, dflt: &str) -> (s: String)
    ensures
        s@ == name_or(strings_view(m@), k, dflt@),
{
    match m.get(&k) {
        Some(v) => v.clone(),
        None => dflt.to_owned(),
    }
}

fn cost_lookup(m: &HashMap<u32, ResourceCost>, k: u32) -> (c: ResourceCost)
    ensures
        c == cost_or_zero(m@, k),
{
    match m.get(&k) {
        Some(v) => *v,
        None => ResourceCost { food: 0, wood: 0, gold: 0, stone: 0 },
    }
}

fn linked_lookup(t: &CsvTable, buildings: &CsvTable, id: u32) -> (r: Option<String>)
    ensures
        match r {
            Some(s) => linked_name(t@, buildings@, id) == Some(s@),
            None => linked_name(t@, buildings@, id) is None,
        },
{
    match t.buildings.get(&id) {
        Some(b) => match buildings.names.get(b) {
            Some(name) => Some(name.clone()),
            None => None,
        },
        None => None,
    }
}

fn scale_cost(c: ResourceCost, n: u32) -> (r: ResourceCost)
    requires
        scaled_fits(c, n),
    ensures
        r == scaled(c, n),
{
    ResourceCost { food: c.food * n, wood: c.wood * n, gold: c.gold * n, stone: c.stone * n }
}

// ---------------------------------------------------------------------------
// The command stream
// ---------------------------------------------------------------------------

/// What the walk over the commands has gathered so far: the game time, the type name known
/// for each object, the building types ordered at each grid cell, the events, and the player
/// who resigned.
#[verifier::ext_equal]
pub struct ExtractView {
    pub now: nat,
    pub instances: Map<u32, Seq<char>>,
    pub pending: Map<(i32, i32), Seq<char>>,
    pub events: Seq<EventView>,
    pub loser: Option<u8>,
}

pub open spec fn unknown_building() -> Seq<char> {
    "Unknown Building"@
}

/// The map with each id of `ids` (in order) given `name`.
pub open spec fn insert_all(m: Map<u32, Seq<char>>, ids: Seq<u32>, name: Seq<char>) -> Map<u32, Seq<char>>
    decreases ids.len(),
{
    if ids.len() == 0 {
        m
    } else {
        insert_all(m, ids.drop_last(), name).insert(ids.last(), name)
    }
}

/// Objects `ids` take the name of the building that entry `id` of table `t` belongs to,
/// when there is one.
pub open spec fn with_link(m: Map<u32, Seq<char>>, t: TableView, buildings: TableView, id: u32, ids: Seq<u32>) -> Map<u32, Seq<char>> {
    match linked_name(t, buildings, id) {
        Some(n) => insert_all(m, ids, n),
        None => m,
    }
}

/// `n` copies of an event.
pub open spec fn copies(e: EventView, n: nat) -> Seq<EventView> {
    Seq::new(n, |i: int| e)
}

/// A research: the technology's building (from the table) names the researching
/// building; the event carries the technology's name and cost.
pub open spec fn research_step(st: ExtractView, tb: TablesView, player_id: u8, technology_type: u16, building_id: u32) -> ExtractView {
    let tid = technology_type as u32;
    let inst = match linked_name(tb.techs, tb.buildings, tid) {
        Some(b) => st.instances.insert(building_id, b),
        None => st.instances,
    };
    let ev = EventView::TechResearch {
        timestamp_ms: st.now as u32,
        player_id,
        tech_type: name_or(tb.techs.names, tid, "Unknown Tech"@),
        cost: cost_or_zero(tb.techs.costs, tid),
        building_id,
        building_type: name_or(inst, building_id, unknown_building()),
    };
    ExtractView { now: st.now, instances: inst, pending: st.pending, events: st.events.push(ev), loser: st.loser }
}

/// Units queued by building type: the buildings take that type's name, and `amount`
/// events are recorded, each with the unit's cost times the number of buildings.
pub open spec fn dequeue_step(st: ExtractView, tb: TablesView, player_id: u8, unit_id: u16, amount: u16, building_type: u16, ids: Seq<u32>) -> ExtractView {
    let bname = name_or(tb.buildings.names, building_type as u32, unknown_building());
    let ev = EventView::UnitQueued {
        timestamp_ms: st.now as u32,
        player_id,
        unit_type: name_or(tb.units.names, unit_id as u32, "Unknown Unit"@),
        cost: scaled(cost_or_zero(tb.units.costs, unit_id as u32), ids.len() as u32),
        building_ids: ids,
        building_types: Seq::new(ids.len(), |i: int| bname),
    };
    ExtractView {
        now: st.now,
        instances: insert_all(st.instances, ids, bname),
        pending: st.pending,
        events: st.events + copies(ev, amount as nat),
        loser: st.loser,
    }
}

/// An order: the objects take the name of the building of unit `unknown4`; an unqueue
/// order records a cancellation naming each object's known type.
pub open spec fn order_step(st: ExtractView, tb: TablesView, player_id: u8, kind: OrderKind, unknown4: i32, unknown5: u32, ids: Seq<u32>) -> ExtractView {
    let inst = with_link(st.instances, tb.units, tb.buildings, unknown4 as u32, ids);
    let ev = EventView::QueueCancellation {
        timestamp_ms: st.now as u32,
        player_id,
        building_ids: ids,
        building_types: ids.map_values(|id: u32| name_or(inst, id, unknown_building())),
        queue_position: unknown5 as i32,
    };
    ExtractView {
        now: st.now,
        instances: inst,
        pending: st.pending,
        events: if kind == OrderKind::Unqueue { st.events.push(ev) } else { st.events },
        loser: st.loser,
    }
}

/// A queue command: the buildings take the name of the unit's building; `count` events
/// are recorded, named after the first building's known type.
pub open spec fn queue_step(st: ExtractView, tb: TablesView, player_id: u8, unit_type: u16, count: u16, ids: Seq<u32>) -> ExtractView {
    let uid = unit_type as u32;
    let inst = with_link(st.instances, tb.units, tb.buildings, uid, ids);
    let bname = if ids.len() > 0 { name_or(inst, ids[0], unknown_building()) } else { unknown_building() };
    let ev = EventView::UnitQueued {
        timestamp_ms: st.now as u32,
        player_id,
        unit_type: name_or(tb.units.names, uid, "Unknown Unit"@),
        cost: scaled(cost_or_zero(tb.units.costs, uid), ids.len() as u32),
        building_ids: ids,
        building_types: Seq::new(ids.len(), |i: int| bname),
    };
    ExtractView {
        now: st.now,
        instances: inst,
        pending: st.pending,
        events: st.events + copies(ev, count as nat),
        loser: st.loser,
    }
}

/// A construction: remembered at its grid cell and recorded with the building's cost.
pub open spec fn build_step(st: ExtractView, tb: TablesView, player_id: u8, building_type_id: u32, x_bits: u32, y_bits: u32, g: (i32, i32)) -> ExtractView {
    let bname = name_or(tb.buildings.names, building_type_id, unknown_building());
    let ev = EventView::BuildingConstruction {
        timestamp_ms: st.now as u32,
        player_id,
        building_type: bname,
        building_type_id,
        x_bits,
        y_bits,
        cost: cost_or_zero(tb.buildings.costs, building_type_id),
    };
    ExtractView {
        now: st.now,
        instances: st.instances,
        pending: st.pending.insert(g, bname),
        events: st.events.push(ev),
        loser: st.loser,
    }
}

/// A nonzero target that has no name yet takes `name`.
pub open spec fn claim(m: Map<u32, Seq<char>>, target: u32, name: Seq<char>) -> Map<u32, Seq<char>> {
    if target > 0 && !m.contains_key(target) {
        m.insert(target, name)
    } else {
        m
    }
}

/// The `j`-th cell of the 3x3 neighbourhood of `g`, row by row (x offset outer).
pub open spec fn near_cell(g: (i32, i32), j: int) -> (i32, i32) {
    ((g.0 + (j / 3 - 1)) as i32, (g.1 + (j % 3 - 1)) as i32)
}

/// The names after looking at the first `k` neighbouring cells for an ordered building.
pub open spec fn claim_near(m: Map<u32, Seq<char>>, pending: Map<(i32, i32), Seq<char>>, target: u32, g: (i32, i32), k: nat) -> Map<u32, Seq<char>>
    decreases k,
{
    if k == 0 {
        m
    } else {
        let prev = claim_near(m, pending, target, g, (k - 1) as nat);
        let cell = near_cell(g, k - 1);
        if pending.contains_key(cell) {
            claim(prev, target, pending[cell])
        } else {
            prev
        }
    }
}

/// An interaction at a cell: the target takes the type of the building ordered at that
/// cell, or else of one ordered at a neighbouring cell (the first in row order).
pub open spec fn interact_step(st: ExtractView, target: u32, g: (i32, i32)) -> ExtractView {
    ExtractView {
        now: st.now,
        instances: if st.pending.contains_key(g) {
            claim(st.instances, target, st.pending[g])
        } else {
            claim_near(st.instances, st.pending, target, g, 9)
        },
        pending: st.pending,
        events: st.events,
        loser: st.loser,
    }
}

pub open spec fn delete_step(st: ExtractView, player_id: u8, object_id: u32) -> ExtractView {
    let ev = EventView::Deletion {
        timestamp_ms: st.now as u32,
        player_id,
        object_id,
        object_name: name_or(st.instances, object_id, "Unknown"@),
    };
    ExtractView { now: st.now, instances: st.instances, pending: st.pending, events: st.events.push(ev), loser: st.loser }
}

/// The effect of one command.
pub open spec fn command_step(st: ExtractView, tb: TablesView, cmd: GameCommand) -> ExtractView {
    match cmd {
        GameCommand::Sync { time_increment } => ExtractView { now: st.now + time_increment as nat, ..st },
        GameCommand::Research { player_id, technology_type, building_id } =>
            research_step(st, tb, player_id, technology_type, building_id),
        GameCommand::DeQueue { player_id, unit_id, amount, building_type, building_ids } =>
            dequeue_step(st, tb, player_id, unit_id, amount, building_type, building_ids@),
        GameCommand::Order { player_id, order_type, unknown4, unknown5, object_ids } =>
            order_step(st, tb, player_id, order_type, unknown4, unknown5, object_ids@),
        GameCommand::Queue { player_id, unit_type, count, building_ids } =>
            queue_step(st, tb, player_id, unit_type, count, building_ids@),
        GameCommand::Build { player_id, building_type_id, x_bits, y_bits, grid_x, grid_y } =>
            build_step(st, tb, player_id, building_type_id, x_bits, y_bits, (grid_x, grid_y)),
        GameCommand::Interact { target_id, grid_x, grid_y } => interact_step(st, target_id, (grid_x, grid_y)),
        GameCommand::Delete { player_id, object_id } => delete_step(st, player_id, object_id),
        GameCommand::Resign { player_id } => ExtractView { loser: Some(player_id), ..st },
        GameCommand::Other => st,
    }
}

/// The state after a list of commands.
pub open spec fn commands_model(init: ExtractView, cmds: Seq<GameCommand>, tb: TablesView) -> ExtractView
    decreases cmds.len(),
{
    if cmds.len() == 0 {
        init
    } else {
        command_step(commands_model(init, cmds.drop_last(), tb), tb, cmds.last())
    }
}

/// Total game time that the commands advance.
pub open spec fn sync_total(cmds: Seq<GameCommand>) -> nat
    decreases cmds.len(),
{
    if cmds.len() == 0 {
        0
    } else {
        sync_total(cmds.drop_last()) + match cmds.last() {
            GameCommand::Sync { time_increment } => time_increment as nat,
            _ => 0,
        }
    }
}

/// The machine limits a command must keep: costs times building counts fit in `u32`, and
/// the cells around an interaction have coordinates that fit in `i32`.
pub open spec fn command_fits(cmd: GameCommand, tb: TablesView) -> bool {
    match cmd {
        GameCommand::DeQueue { unit_id, building_ids, .. } =>
            scaled_fits(cost_or_zero(tb.units.costs, unit_id as u32), building_ids@.len() as u32),
        GameCommand::Queue { unit_type, building_ids, .. } =>
            scaled_fits(cost_or_zero(tb.units.costs, unit_type as u32), building_ids@.len() as u32),
        GameCommand::Interact { grid_x, grid_y, .. } =>
            i32::MIN < grid_x < i32::MAX && i32::MIN < grid_y < i32::MAX,
        _ => true,
    }
}

pub open spec fn commands_fit(cmds: Seq<GameCommand>, tb: TablesView) -> bool {
    &&& sync_total(cmds) <= u32::MAX
    &&& forall|i: int| 0 <= i < cmds.len() ==> command_fits(#[trigger] cmds[i], tb)
}

proof fn lemma_sync_total_prefix(cmds: Seq<GameCommand>, i: int)
    requires
        0 <= i <= cmds.len(),
    ensures
        sync_total(cmds.take(i)) <= sync_total(cmds),
    decreases cmds.len() - i,
{
    if i < cmds.len() {
        lemma_sync_total_prefix(cmds, i + 1);
        assert(cmds.take(i + 1).drop_last() =~= cmds.take(i));
    } else {
        assert(cmds.take(i) =~= cmds);
    }
}

fn command_fits_exec(cmd: &GameCommand, tables: &ReferenceTables) -> (b: bool)
    ensures
        b == command_fits(*cmd, tables@),
{
    match cmd {
        GameCommand::DeQueue { unit_id: unit, building_ids, .. } | GameCommand::Queue { unit_type: unit, building_ids, .. } => {
            let c = cost_lookup(&tables.units.costs, *unit as u32);
            let n = building_ids.len() as u32;
            c.food.checked_mul(n).is_some() && c.wood.checked_mul(n).is_some()
                && c.gold.checked_mul(n).is_some() && c.stone.checked_mul(n).is_some()
        },
        GameCommand::Interact { grid_x, grid_y, .. } =>
            i32::MIN < *grid_x && *grid_x < i32::MAX && i32::MIN < *grid_y && *grid_y < i32::MAX,
        _ => true,
    }
}

/// Whether the commands keep the library's number ranges (see `commands_fit`).
pub fn commands_fit_exec(cmds: &Vec<GameCommand>, tables: &ReferenceTables) -> (b: bool)
    ensures
        b == commands_fit(cmds@, tables@),
{
    let mut total: u64 = 0;
    let mut i: usize = 0;
    while i < cmds.len()
        invariant
            i <= cmds@.len(),
            total == sync_total(cmds@.take(i as int)),
            total <= u32::MAX,
            forall|j: int| 0 <= j < i ==> command_fits(#[trigger] cmds@[j], tables@),
        decreases cmds@.len() - i,
    {
        assert(cmds@.take(i + 1).drop_last() =~= cmds@.take(i as int));
        if !command_fits_exec(&cmds[i], tables) {
            return false;
        }
        match &cmds[i] {
            GameCommand::Sync { time_increment } => {
                total = total + *time_increment as u64;
            },
            _ => {},
        }
        if total > u32::MAX as u64 {
            proof {
                lemma_sync_total_prefix(cmds@, i + 1);
            }
            return false;
        }
        i = i + 1;
    }
    assert(cmds@.take(cmds@.len() as int) =~= cmds@);
    true
}

/// What `extract_events` gives for `game`: the recording player, the roster, the events and
/// duration of the walk, the players with their winners, and the recording player's names.
pub open spec fn extraction_matches(game: RecordedGame, tb: TablesView, r: ReplayData) -> bool {
    &&& r.rec_player == game.rec_player as u32
    &&& strings_view(r.player_names@) == roster(game.players@, tb.civs.names).names
    &&& events_view(r.events@) == replay_model(game, tb).events
    &&& r.summary.duration_ms == replay_model(game, tb).now
    &&& r.summary.duration_formatted@ == replay_time_spec(r.summary.duration_ms)
    &&& infos_view(r.summary.players@) == final_players(game, tb)
    &&& (r.summary.rec_player_name@, r.summary.rec_player_civ@) == rec_names(
        final_players(game, tb),
        roster(game.players@, tb.civs.names).names,
        game.rec_player as u8,
    )
}

// ---------------------------------------------------------------------------
// The walk
// ---------------------------------------------------------------------------

/// A grid cell packed into one number: `x` in the high half, `y` in the low half.
pub open spec fn grid_code(g: (i32, i32)) -> u64 {
    ((g.0 as u32 as u64) << 32u64) | (g.1 as u32 as u64)
}

proof fn lemma_grid_code_injective(a: (i32, i32), b: (i32, i32))
    ensures
        grid_code(a) == grid_code(b) ==> a == b,
{
    let (a0, a1) = a;
    let (b0, b1) = b;
    assert(((a0 as u32 as u64) << 32u64) | (a1 as u32 as u64) == ((b0 as u32 as u64) << 32u64) | (b1 as u32 as u64)
        ==> a0 == b0 && a1 == b1) by (bit_vector);
}

fn grid_code_of(x: i32, y: i32) -> (c: u64)
    ensures
        c == grid_code((x, y)),
{
    ((x as u32 as u64) << 32u64) | (y as u32 as u64)
}

/// The packed table of ordered buildings agrees with the table by cell.
pub open spec fn pending_ok(h: Map<u64, String>, m: Map<(i32, i32), Seq<char>>) -> bool {
    forall|g: (i32, i32)| #![trigger grid_code(g)]
        (h.contains_key(grid_code(g)) <==> m.contains_key(g)) && (m.contains_key(g) ==> h[grid_code(g)]@ == m[g])
}

/// Gives each id of `ids`, in order, the name `name`.
fn insert_names(m: &mut HashMap<u32, String>, ids: &Vec<u32>, name: &String)
    ensures
        strings_view(final(m)@) == insert_all(strings_view(old(m)@), ids@, name@),
{
    let mut i: usize = 0;
    while i < ids.len()
        invariant
            i <= ids@.len(),
            strings_view(m@) == insert_all(strings_view(old(m)@), ids@.take(i as int), name@),
        decreases ids.len() - i,
    {
        let ghost before = m@;
        m.insert(ids[i], name.clone());
        proof {
            assert(ids@.take(i + 1).drop_last() =~= ids@.take(i as int));
            assert(strings_view(m@) =~= strings_view(before).insert(ids@[i as int], name@));
        }
        i = i + 1;
    }
    assert(ids@.take(ids@.len() as int) =~= ids@);
}

proof fn lemma_texts_push(v: Seq<String>, s: String)
    ensures
        texts_view(v.push(s)) == texts_view(v).push(s@),
{
    assert(texts_view(v.push(s)) =~= texts_view(v).push(s@));
}

proof fn lemma_events_push(v: Seq<ReplayEvent>, e: ReplayEvent)
    ensures
        events_view(v.push(e)) == events_view(v).push(e@),
{
    assert(events_view(v.push(e)) =~= events_view(v).push(e@));
}

fn copy_ids(v: &Vec<u32>) -> (r: Vec<u32>)
    ensures
        r@ == v@,
{
    let mut r: Vec<u32> = Vec::new();
    for i in 0..v.len()
        invariant
            r@ == v@.take(i as int),
    {
        r.push(v[i]);
        assert(v@.take(i + 1) =~= v@.take(i as int).push(v@[i as int]));
    }
    assert(v@.take(v@.len() as int) =~= v@);
    r
}

fn repeat_text(s: &String, n: usize) -> (r: Vec<String>)
    ensures
        texts_view(r@) == Seq::new(n as nat, |i: int| s@),
{
    let mut r: Vec<String> = Vec::new();
    for i in 0..n
        invariant
            texts_view(r@) == Seq::new(i as nat, |k: int| s@),
    {
        let ghost before = r@;
        let c = s.clone();
        r.push(c);
        proof {
            lemma_texts_push(before, c);
        }
        assert(texts_view(r@) =~= Seq::new((i + 1) as nat, |k: int| s@));
    }
    r
}

/// The known type of each object, or "Unknown Building".
fn names_for(m: &HashMap<u32, String>, ids: &Vec<u32>) -> (r: Vec<String>)
    ensures
        texts_view(r@) == ids@.map_values(|id: u32| name_or(strings_view(m@), id, unknown_building())),
{
    let mut r: Vec<String> = Vec::new();
    for i in 0..ids.len()
        invariant
            texts_view(r@) == ids@.take(i as int).map_values(|id: u32| name_or(strings_view(m@), id, unknown_building())),
    {
        let n = name_lookup(m, ids[i], "Unknown Building");
        let ghost before = r@;
        r.push(n);
        proof {
            lemma_texts_push(before, n);
        }
        assert(texts_view(r@) =~= ids@.take(i + 1).map_values(|id: u32| name_or(strings_view(m@), id, unknown_building())));
    }
    assert(ids@.take(ids@.len() as int) =~= ids@);
    r
}

proof fn lemma_sync_prefix(s: Seq<GameCommand>, i: int)
    requires
        0 <= i <= s.len(),
    ensures
        sync_total(s.take(i)) <= sync_total(s),
    decreases s.len() - i,
{
    if i < s.len() {
        assert(s.drop_last().take(i) =~= s.take(i));
        lemma_sync_prefix(s.drop_last(), i);
    } else {
        assert(s.take(i) =~= s);
    }
}

struct Extraction {
    now: u32,
    instances: HashMap<u32, String>,
    pending: HashMap<u64, String>,
    pending_model: Ghost<Map<(i32, i32), Seq<char>>>,
    events: Vec<ReplayEvent>,
    loser: Option<u8>,
}

impl Extraction {
    spec fn model(&self) -> ExtractView {
        ExtractView {
            now: self.now as nat,
            instances: strings_view(self.instances@),
            pending: self.pending_model@,
            events: events_view(self.events@),
            loser: self.loser,
        }
    }

    spec fn inv(&self) -> bool {
        pending_ok(self.pending@, self.pending_model@)
    }

    fn research(&mut self, tb: &ReferenceTables, player_id: u8, technology_type: u16, building_id: u32)
        requires
            old(self).inv(),
        ensures
            final(self).inv(),
            final(self).model() == research_step(old(self).model(), tb@, player_id, technology_type, building_id),
    {
        let tid = technology_type as u32;
        let ghost st = self.model();
        match linked_lookup(&tb.techs, &tb.buildings, tid) {
            Some(b) => {
                self.instances.insert(building_id, b);
            },
            None => {},
        }
        let ghost inst = strings_view(self.instances@);
        assert(inst =~= match linked_name(tb@.techs, tb@.buildings, tid) {
            Some(b) => st.instances.insert(building_id, b),
            None => st.instances,
        });
        let tech_name = name_lookup(&tb.techs.names, tid, "Unknown Tech");
        let b_name = name_lookup(&self.instances, building_id, "Unknown Building");
        let cost = cost_lookup(&tb.techs.costs, tid);
        self.events.push(ReplayEvent::TechResearch {
            timestamp_ms: self.now,
            player_id,
            tech_type: tech_name,
            cost,
            building_id,
            building_type: b_name,
        });
        assert(self.model() =~= research_step(st, tb@, player_id, technology_type, building_id));
    }

    fn push_unit_events(&mut self, player_id: u8, unit_name: &String, cost: ResourceCost, ids: &Vec<u32>, b_name: &String, n: u16)
        ensures
            final(self).now == old(self).now,
            final(self).instances == old(self).instances,
            final(self).pending == old(self).pending,
            final(self).pending_model == old(self).pending_model,
            final(self).loser == old(self).loser,
            final(self).model().events == old(self).model().events + copies(
                EventView::UnitQueued {
                    timestamp_ms: old(self).now,
                    player_id,
                    unit_type: unit_name@,
                    cost,
                    building_ids: ids@,
                    building_types: Seq::new(ids@.len(), |i: int| b_name@),
                },
                n as nat,
            ),
    {
        let ghost ev = EventView::UnitQueued {
            timestamp_ms: self.now,
            player_id,
            unit_type: unit_name@,
            cost,
            building_ids: ids@,
            building_types: Seq::new(ids@.len(), |i: int| b_name@),
        };
        let ghost start = events_view(self.events@);
        let mut k: u16 = 0;
        while k < n
            invariant
                k <= n,
                self.now == old(self).now,
                self.instances == old(self).instances,
                self.pending == old(self).pending,
                self.pending_model == old(self).pending_model,
                self.loser == old(self).loser,
                start == events_view(old(self).events@),
                ev == (EventView::UnitQueued {
                    timestamp_ms: old(self).now,
                    player_id,
                    unit_type: unit_name@,
                    cost,
                    building_ids: ids@,
                    building_types: Seq::new(ids@.len(), |i: int| b_name@),
                }),
                events_view(self.events@) == start + copies(ev, k as nat),
            decreases n - k,
        {
            let building_ids = copy_ids(ids);
            let building_types = repeat_text(b_name, ids.len());
            let e = ReplayEvent::UnitQueued {
                timestamp_ms: self.now,
                player_id,
                unit_type: unit_name.clone(),
                cost,
                building_ids,
                building_types,
            };
            assert(e@ == ev);
            let ghost before = self.events@;
            self.events.push(e);
            proof {
                lemma_events_push(before, e);
            }
            k = k + 1;
            assert(events_view(self.events@) =~= start + copies(ev, k as nat));
        }
    }

    fn dequeue(&mut self, tb: &ReferenceTables, player_id: u8, unit_id: u16, amount: u16, building_type: u16, ids: &Vec<u32>)
        requires
            old(self).inv(),
            scaled_fits(cost_or_zero(tb@.units.costs, unit_id as u32), ids@.len() as u32),
        ensures
            final(self).inv(),
            final(self).model() == dequeue_step(old(self).model(), tb@, player_id, unit_id, amount, building_type, ids@),
    {
        let ghost st = self.model();
        let b_name = name_lookup(&tb.buildings.names, building_type as u32, "Unknown Building");
        insert_names(&mut self.instances, ids, &b_name);
        let base = cost_lookup(&tb.units.costs, unit_id as u32);
        let total = scale_cost(base, ids.len() as u32);
        let unit_name = name_lookup(&tb.units.names, unit_id as u32, "Unknown Unit");
        self.push_unit_events(player_id, &unit_name, total, ids, &b_name, amount);
        assert(self.model() =~= dequeue_step(st, tb@, player_id, unit_id, amount, building_type, ids@));
    }

    fn link_buildings(&mut self, tb: &ReferenceTables, id: u32, ids: &Vec<u32>)
        ensures
            final(self).now == old(self).now,
            final(self).pending == old(self).pending,
            final(self).pending_model == old(self).pending_model,
            final(self).events == old(self).events,
            final(self).loser == old(self).loser,
            strings_view(final(self).instances@) == with_link(strings_view(old(self).instances@), tb@.units, tb@.buildings, id, ids@),
    {
        match linked_lookup(&tb.units, &tb.buildings, id) {
            Some(b) => insert_names(&mut self.instances, ids, &b),
            None => {},
        }
    }

    fn order(&mut self, tb: &ReferenceTables, player_id: u8, kind: OrderKind, unknown4: i32, unknown5: u32, ids: &Vec<u32>)
        requires
            old(self).inv(),
        ensures
            final(self).inv(),
            final(self).model() == order_step(old(self).model(), tb@, player_id, kind, unknown4, unknown5, ids@),
    {
        let ghost st = self.model();
        self.link_buildings(tb, unknown4 as u32, ids);
        if matches!(kind, OrderKind::Unqueue) {
            let building_types = names_for(&self.instances, ids);
            let e = ReplayEvent::QueueCancellation {
                timestamp_ms: self.now,
                player_id,
                building_ids: copy_ids(ids),
                building_types,
                queue_position: unknown5 as i32,
            };
            let ghost before = self.events@;
            self.events.push(e);
            proof {
                lemma_events_push(before, e);
            }
        }
        assert(self.model() =~= order_step(st, tb@, player_id, kind, unknown4, unknown5, ids@));
    }

    fn queue(&mut self, tb: &ReferenceTables, player_id: u8, unit_type: u16, count: u16, ids: &Vec<u32>)
        requires
            old(self).inv(),
            scaled_fits(cost_or_zero(tb@.units.costs, unit_type as u32), ids@.len() as u32),
        ensures
            final(self).inv(),
            final(self).model() == queue_step(old(self).model(), tb@, player_id, unit_type, count, ids@),
    {
        let ghost st = self.model();
        let uid = unit_type as u32;
        self.link_buildings(tb, uid, ids);
        let b_name = if ids.len() > 0 {
            name_lookup(&self.instances, ids[0], "Unknown Building")
        } else {
            "Unknown Building".to_owned()
        };
        let unit_name = name_lookup(&tb.units.names, uid, "Unknown Unit");
        let base = cost_lookup(&tb.units.costs, uid);
        let total = scale_cost(base, ids.len() as u32);
        self.push_unit_events(player_id, &unit_name, total, ids, &b_name, count);
        assert(self.model() =~= queue_step(st, tb@, player_id, unit_type, count, ids@));
    }

    fn build(&mut self, tb: &ReferenceTables, player_id: u8, building_type_id: u32, x_bits: u32, y_bits: u32, grid_x: i32, grid_y: i32)
        requires
            old(self).inv(),
        ensures
            final(self).inv(),
            final(self).model() == build_step(old(self).model(), tb@, player_id, building_type_id, x_bits, y_bits, (grid_x, grid_y)),
    {
        let ghost st = self.model();
        let b_name = name_lookup(&tb.buildings.names, building_type_id, "Unknown Building");
        let cost = cost_lookup(&tb.buildings.costs, building_type_id);
        let code = grid_code_of(grid_x, grid_y);
        let ghost old_h = self.pending@;
        self.pending.insert(code, b_name.clone());
        proof {
            let g0 = (grid_x, grid_y);
            let m = st.pending.insert(g0, b_name@);
            assert forall|g: (i32, i32)| #![trigger grid_code(g)]
                (self.pending@.contains_key(grid_code(g)) <==> m.contains_key(g))
                && (m.contains_key(g) ==> self.pending@[grid_code(g)]@ == m[g]) by {
                lemma_grid_code_injective(g, g0);
            }
            self.pending_model@ = m;
        }
        let e = ReplayEvent::BuildingConstruction {
            timestamp_ms: self.now,
            player_id,
            building_type: b_name,
            building_type_id,
            x_bits,
            y_bits,
            cost,
        };
        let ghost before = self.events@;
        self.events.push(e);
        proof {
            lemma_events_push(before, e);
        }
        assert(self.model() =~= build_step(st, tb@, player_id, building_type_id, x_bits, y_bits, (grid_x, grid_y)));
    }

    fn delete(&mut self, player_id: u8, object_id: u32)
        requires
            old(self).inv(),
        ensures
            final(self).inv(),
            final(self).model() == delete_step(old(self).model(), player_id, object_id),
    {
        let ghost st = self.model();
        let name = name_lookup(&self.instances, object_id, "Unknown");
        let e = ReplayEvent::Deletion { timestamp_ms: self.now, player_id, object_id, object_name: name };
        let ghost before = self.events@;
        self.events.push(e);
        proof {
            lemma_events_push(before, e);
        }
        assert(self.model() =~= delete_step(st, player_id, object_id));
    }

    fn claim_target(&mut self, target_id: u32, name: String)
        ensures
            final(self).now == old(self).now,
            final(self).pending == old(self).pending,
            final(self).pending_model == old(self).pending_model,
            final(self).events == old(self).events,
            final(self).loser == old(self).loser,
            strings_view(final(self).instances@) == claim(strings_view(old(self).instances@), target_id, name@),
    {
        if target_id > 0 && !self.instances.contains_key(&target_id) {
            self.instances.insert(target_id, name);
            assert(strings_view(self.instances@) =~= claim(strings_view(old(self).instances@), target_id, name@));
        }
    }

    fn interact(&mut self, target_id: u32, grid_x: i32, grid_y: i32)
        requires
            old(self).inv(),
            i32::MIN < grid_x < i32::MAX,
            i32::MIN < grid_y < i32::MAX,
        ensures
            final(self).inv(),
            final(self).model() == interact_step(old(self).model(), target_id, (grid_x, grid_y)),
    {
        let ghost st = self.model();
        let ghost g = (grid_x, grid_y);
        let code = grid_code_of(grid_x, grid_y);
        assert(self.pending@.contains_key(grid_code(g)) <==> st.pending.contains_key(g));
        let found = match self.pending.get(&code) {
            Some(name) => Some(name.clone()),
            None => None,
        };
        match found {
            Some(name) => {
                self.claim_target(target_id, name);
            },
            None => {
                let mut j: usize = 0;
                while j < 9
                    invariant
                        j <= 9,
                        !st.pending.contains_key(g),
                        g == (grid_x, grid_y),
                        i32::MIN < grid_x < i32::MAX,
                        i32::MIN < grid_y < i32::MAX,
                        self.now == old(self).now,
                        self.pending == old(self).pending,
                        self.pending_model == old(self).pending_model,
                        self.events == old(self).events,
                        self.loser == old(self).loser,
                        st == old(self).model(),
                        pending_ok(self.pending@, st.pending),
                        strings_view(self.instances@) == claim_near(st.instances, st.pending, target_id, g, j as nat),
                    decreases 9 - j,
                {
                    let dx: i32 = (j / 3) as i32 - 1;
                    let dy: i32 = (j % 3) as i32 - 1;
                    let cx = grid_x + dx;
                    let cy = grid_y + dy;
                    let cell_code = grid_code_of(cx, cy);
                    let ghost cell = near_cell(g, j as int);
                    assert(cell == (cx, cy));
                    assert(self.pending@.contains_key(grid_code(cell)) <==> st.pending.contains_key(cell));
                    let near = match self.pending.get(&cell_code) {
                        Some(name) => Some(name.clone()),
                        None => None,
                    };
                    match near {
                        Some(name) => {
                            self.claim_target(target_id, name);
                        },
                        None => {},
                    }
                    j = j + 1;
                }
            },
        }
        assert(self.model() =~= interact_step(st, target_id, (grid_x, grid_y)));
    }

    fn apply(&mut self, tb: &ReferenceTables, cmd: &GameCommand)
        requires
            old(self).inv(),
            command_fits(*cmd, tb@),
            match *cmd {
                GameCommand::Sync { time_increment } => old(self).now + time_increment <= u32::MAX,
                _ => true,
            },
        ensures
            final(self).inv(),
            final(self).model() == command_step(old(self).model(), tb@, *cmd),
    {
        match cmd {
            GameCommand::Sync { time_increment } => {
                self.now = self.now + *time_increment;
            },
            GameCommand::Research { player_id, technology_type, building_id } => {
                self.research(tb, *player_id, *technology_type, *building_id);
            },
            GameCommand::DeQueue { player_id, unit_id, amount, building_type, building_ids } => {
                self.dequeue(tb, *player_id, *unit_id, *amount, *building_type, building_ids);
            },
            GameCommand::Order { player_id, order_type, unknown4, unknown5, object_ids } => {
                self.order(tb, *player_id, *order_type, *unknown4, *unknown5, object_ids);
            },
            GameCommand::Queue { player_id, unit_type, count, building_ids } => {
                self.queue(tb, *player_id, *unit_type, *count, building_ids);
            },
            GameCommand::Build { player_id, building_type_id, x_bits, y_bits, grid_x, grid_y } => {
                self.build(tb, *player_id, *building_type_id, *x_bits, *y_bits, *grid_x, *grid_y);
            },
            GameCommand::Interact { target_id, grid_x, grid_y } => {
                self.interact(*target_id, *grid_x, *grid_y);
            },
            GameCommand::Delete { player_id, object_id } => {
                self.delete(*player_id, *object_id);
            },
            GameCommand::Resign { player_id } => {
                self.loser = Some(*player_id);
            },
            GameCommand::Other => {},
        }
    }

    fn walk(&mut self, tb: &ReferenceTables, cmds: &Vec<GameCommand>)
        requires
            old(self).inv(),
            old(self).now == 0,
            commands_fit(cmds@, tb@),
        ensures
            final(self).inv(),
            final(self).model() == commands_model(old(self).model(), cmds@, tb@),
    {
        let ghost init = self.model();
        let mut i: usize = 0;
        while i < cmds.len()
            invariant
                i <= cmds@.len(),
                self.inv(),
                commands_fit(cmds@, tb@),
                self.model() == commands_model(init, cmds@.take(i as int), tb@),
                self.now == sync_total(cmds@.take(i as int)),
            decreases cmds.len() - i,
        {
            proof {
                assert(cmds@.take(i + 1).drop_last() =~= cmds@.take(i as int));
                assert(cmds@.take(i + 1).last() == cmds@[i as int]);
                lemma_sync_prefix(cmds@, i + 1);
                assert(command_fits(cmds@[i as int], tb@));
            }
            self.apply(tb, &cmds[i]);
            i = i + 1;
        }
        assert(cmds@.take(cmds@.len() as int) =~= cmds@);
    }
}

// ---------------------------------------------------------------------------
// Players and the match
// ---------------------------------------------------------------------------

/// A player of the match as the report lists it.
#[derive(Debug, Clone)]
pub struct PlayerInfo {
    pub name: String,
    pub civ: String,
    pub is_winner: bool,
}

pub struct PlayerInfoView {
    pub name: Seq<char>,
    pub civ: Seq<char>,
    pub is_winner: bool,
}

impl View for PlayerInfo {
    type V = PlayerInfoView;

    open spec fn view(&self) -> PlayerInfoView {
        PlayerInfoView { name: self.name@, civ: self.civ@, is_winner: self.is_winner }
    }
}

pub open spec fn infos_view(v: Seq<PlayerInfo>) -> Seq<PlayerInfoView> {
    v.map_values(|p: PlayerInfo| p@)
}

/// `Player n` for the player in slot `i` (numbered from 1).
pub open spec fn player_label(i: int) -> Seq<char> {
    "Player "@ + dec_digits((i + 1) as nat)
}

/// The name shown for a slot: the player's name, else the computer player's name, else
/// `Player n`; names of whitespace only count as missing.
pub open spec fn display_name(p: PlayerSetup, i: int) -> Seq<char> {
    if trim(p.name@).len() > 0 {
        p.name@
    } else if trim(p.ai_name@).len() > 0 {
        p.ai_name@
    } else {
        player_label(i)
    }
}

/// The civilization's name, or `Unknown Civ <id>`.
pub open spec fn civ_label(civs: Map<u32, Seq<char>>, civ_id: u32) -> Seq<char> {
    if civs.contains_key(civ_id) {
        civs[civ_id]
    } else {
        "Unknown Civ "@ + dec_digits(civ_id as nat)
    }
}

/// Whether a slot is listed among the players: humans (type 2) and computer players
/// (type 4), and any other slot that has a real name.
pub open spec fn listed(p: PlayerSetup, i: int) -> bool {
    ||| p.player_type == 2
    ||| p.player_type == 4
    ||| (display_name(p, i) != player_label(i) && trim(display_name(p, i)).len() > 0)
}

/// The players' names by player number (slot + 1, as a byte), and the listed players.
#[verifier::ext_equal]
pub struct RosterView {
    pub names: Map<u8, Seq<char>>,
    pub infos: Seq<PlayerInfoView>,
}

pub open spec fn roster(players: Seq<PlayerSetup>, civs: Map<u32, Seq<char>>) -> RosterView
    decreases players.len(),
{
    if players.len() == 0 {
        RosterView { names: Map::empty(), infos: Seq::empty() }
    } else {
        let prev = roster(players.drop_last(), civs);
        let i = players.len() - 1;
        let p = players.last();
        let d = display_name(p, i);
        RosterView {
            names: prev.names.insert((i + 1) as u8, d),
            infos: if listed(p, i) {
                prev.infos.push(PlayerInfoView { name: d, civ: civ_label(civs, p.civ_id), is_winner: false })
            } else {
                prev.infos
            },
        }
    }
}

/// The index of the first player named `name`, looking from index `k` on.
pub open spec fn first_named(infos: Seq<PlayerInfoView>, name: Seq<char>, k: int) -> Option<int>
    decreases infos.len() - k,
{
    if k < 0 || k >= infos.len() {
        None
    } else if infos[k].name == name {
        Some(k)
    } else {
        first_named(infos, name, k + 1)
    }
}

/// The recording player moved to the front of the list (the first entry with its name).
pub open spec fn pov_first(infos: Seq<PlayerInfoView>, names: Map<u8, Seq<char>>, pov: u8) -> Seq<PlayerInfoView> {
    if names.contains_key(pov) {
        match first_named(infos, names[pov], 0) {
            Some(p) => infos.remove(p).insert(0, infos[p]),
            None => infos,
        }
    } else {
        infos
    }
}

/// Once a player has resigned, every listed player of another name has won.
pub open spec fn mark_winners(infos: Seq<PlayerInfoView>, names: Map<u8, Seq<char>>, loser: Option<u8>) -> Seq<PlayerInfoView> {
    match loser {
        Some(l) => if names.contains_key(l) {
            infos.map_values(|p: PlayerInfoView| PlayerInfoView { name: p.name, civ: p.civ, is_winner: p.is_winner || p.name != names[l] })
        } else {
            infos
        },
        None => infos,
    }
}

/// The recording player's name and civilization, or `Unknown`.
pub open spec fn rec_names(infos: Seq<PlayerInfoView>, names: Map<u8, Seq<char>>, rec: u8) -> (Seq<char>, Seq<char>) {
    if names.contains_key(rec) {
        (names[rec], match first_named(infos, names[rec], 0) {
            Some(k) => infos[k].civ,
            None => "Unknown"@,
        })
    } else {
        ("Unknown"@, "Unknown"@)
    }
}

/// The name of an object type: a building's, else a unit's, else `Unknown (<id>)`.
pub open spec fn object_name(tb: TablesView, type_id: u32) -> Seq<char> {
    if tb.buildings.names.contains_key(type_id) {
        tb.buildings.names[type_id]
    } else if tb.units.names.contains_key(type_id) {
        tb.units.names[type_id]
    } else {
        "Unknown ("@ + dec_digits(type_id as nat) + ")"@
    }
}

/// The names of the objects present when the game starts.
pub open spec fn initial_instances(objs: Seq<InitialObject>, tb: TablesView) -> Map<u32, Seq<char>>
    decreases objs.len(),
{
    if objs.len() == 0 {
        Map::empty()
    } else {
        initial_instances(objs.drop_last(), tb).insert(objs.last().object_id, object_name(tb, objs.last().object_type_id))
    }
}

/// The walk over the whole command stream.
pub open spec fn replay_model(game: RecordedGame, tb: TablesView) -> ExtractView {
    let init = ExtractView {
        now: 0,
        instances: initial_instances(game.initial_objects@, tb),
        pending: Map::empty(),
        events: Seq::empty(),
        loser: None,
    };
    commands_model(init, game.commands@, tb)
}

/// The listed players of the match, recording player first, with the winners marked.
pub open spec fn final_players(game: RecordedGame, tb: TablesView) -> Seq<PlayerInfoView> {
    let r = roster(game.players@, tb.civs.names);
    mark_winners(pov_first(r.infos, r.names, game.rec_player as u8), r.names, replay_model(game, tb).loser)
}

/// What the library reports of a match.
#[derive(Debug, Clone)]
pub struct MatchSummary {
    /// Game time at the end of the command stream.
    pub duration_ms: u32,
    /// The duration as `mm:ss.mmm` (see `format_time`).
    pub duration_formatted: String,
    pub players: Vec<PlayerInfo>,
    pub rec_player_name: String,
    pub rec_player_civ: String,
}

/// The events of a recorded game and its players.
#[derive(Debug, Clone)]
pub struct ReplayData {
    pub rec_player: u32,
    pub player_names: HashMap<u8, String>,
    pub events: Vec<ReplayEvent>,
    pub summary: MatchSummary,
}

fn is_blank(s: &String) -> (b: bool)
    ensures
        b == (trim(s@).len() == 0),
{
    let cs = chars_of(s.as_str());
    let t = trim_chars(cs.as_slice());
    t.len() == 0
}

fn label_for(i: usize) -> (s: String)
    requires
        i < usize::MAX,
    ensures
        s@ == player_label(i as int),
{
    let mut s = "Player ".to_owned();
    push_decimal(&mut s, (i + 1) as u128);
    s
}

fn civ_name_for(civs: &HashMap<u32, String>, civ_id: u32) -> (s: String)
    ensures
        s@ == civ_label(strings_view(civs@), civ_id),
{
    match civs.get(&civ_id) {
        Some(n) => n.clone(),
        None => {
            let mut s = "Unknown Civ ".to_owned();
            push_decimal(&mut s, civ_id as u128);
            s
        },
    }
}

proof fn lemma_infos_push(v: Seq<PlayerInfo>, p: PlayerInfo)
    ensures
        infos_view(v.push(p)) == infos_view(v).push(p@),
{
    assert(infos_view(v.push(p)) =~= infos_view(v).push(p@));
}

fn build_roster(players: &Vec<PlayerSetup>, civs: &CsvTable) -> (r: (HashMap<u8, String>, Vec<PlayerInfo>))
    ensures
        strings_view(r.0@) == roster(players@, civs@.names).names,
        infos_view(r.1@) == roster(players@, civs@.names).infos,
{
    let mut names: HashMap<u8, String> = HashMap::new();
    let mut infos: Vec<PlayerInfo> = Vec::new();
    proof {
        assert(strings_view(names@) =~= Map::empty());
        assert(players@.take(0) =~= Seq::empty());
        assert(infos_view(infos@) =~= Seq::empty());
    }
    let mut i: usize = 0;
    while i < players.len()
        invariant
            i <= players@.len(),
            strings_view(names@) == roster(players@.take(i as int), civs@.names).names,
            infos_view(infos@) == roster(players@.take(i as int), civs@.names).infos,
        decreases players.len() - i,
    {
        let p = &players[i];
        let label = label_for(i);
        let display = if !is_blank(&p.name) {
            p.name.clone()
        } else if !is_blank(&p.ai_name) {
            p.ai_name.clone()
        } else {
            label_for(i)
        };
        assert(display@ == display_name(players@[i as int], i as int));
        let ghost before = names@;
        names.insert((i + 1) as u8, display.clone());
        let civ = civ_name_for(&civs.names, p.civ_id);
        let keep = p.player_type == 2 || p.player_type == 4 || (!(display == label) && !is_blank(&display));
        assert(keep == listed(players@[i as int], i as int));
        if keep {
            let ghost before_infos = infos@;
            let info = PlayerInfo { name: display, civ, is_winner: false };
            infos.push(info);
            proof {
                lemma_infos_push(before_infos, info);
            }
        }
        proof {
            assert(players@.take(i + 1).drop_last() =~= players@.take(i as int));
            assert(players@.take(i + 1).last() == players@[i as int]);
            assert(strings_view(names@) =~= strings_view(before).insert((i + 1) as u8, display_name(players@[i as int], i as int)));
        }
        i = i + 1;
    }
    assert(players@.take(players@.len() as int) =~= players@);
    (names, infos)
}

/// The index of the first player named `name`, if any.
fn find_named(infos: &Vec<PlayerInfo>, name: &String) -> (r: Option<usize>)
    ensures
        match r {
            Some(k) => k < infos@.len() && first_named(infos_view(infos@), name@, 0) == Some(k as int),
            None => first_named(infos_view(infos@), name@, 0) is None,
        },
{
    let ghost iv = infos_view(infos@);
    let mut k: usize = 0;
    while k < infos.len()
        invariant
            k <= infos@.len(),
            iv == infos_view(infos@),
            first_named(iv, name@, 0) == first_named(iv, name@, k as int),
        decreases infos.len() - k,
    {
        if infos[k].name == *name {
            return Some(k);
        }
        k = k + 1;
    }
    None
}

fn move_pov_first(infos: &mut Vec<PlayerInfo>, names: &HashMap<u8, String>, pov: u8)
    ensures
        infos_view(final(infos)@) == pov_first(infos_view(old(infos)@), strings_view(names@), pov),
{
    match names.get(&pov) {
        Some(pov_name) => {
            match find_named(infos, pov_name) {
                Some(pos) => {
                    let ghost before = infos@;
                    let info = infos.remove(pos);
                    infos.insert(0, info);
                    assert(infos_view(infos@) =~= infos_view(before).remove(pos as int).insert(0, infos_view(before)[pos as int]));
                },
                None => {},
            }
        },
        None => {},
    }
}

fn mark_winners_exec(infos: &Vec<PlayerInfo>, names: &HashMap<u8, String>, loser: Option<u8>) -> (r: Vec<PlayerInfo>)
    ensures
        infos_view(r@) == mark_winners(infos_view(infos@), strings_view(names@), loser),
{
    let loser_name = match loser {
        Some(l) => match names.get(&l) {
            Some(n) => Some(n.clone()),
            None => None,
        },
        None => None,
    };
    let mut out: Vec<PlayerInfo> = Vec::new();
    for i in 0..infos.len()
        invariant
            loser_name is Some <==> (loser is Some && strings_view(names@).contains_key(loser->Some_0)),
            loser_name is Some ==> loser_name->Some_0@ == strings_view(names@)[loser->Some_0],
            out@.len() == i,
            forall|k: int| 0 <= k < i ==> (#[trigger] out@[k])@ == match loser_name {
                Some(n) => PlayerInfoView {
                    name: infos@[k].name@,
                    civ: infos@[k].civ@,
                    is_winner: infos@[k].is_winner || infos@[k].name@ != n@,
                },
                None => infos@[k]@,
            },
    {
        let p = &infos[i];
        let won = match &loser_name {
            Some(n) => p.is_winner || !(p.name == *n),
            None => p.is_winner,
        };
        out.push(PlayerInfo { name: p.name.clone(), civ: p.civ.clone(), is_winner: won });
    }
    assert(infos_view(out@) =~= mark_winners(infos_view(infos@), strings_view(names@), loser));
    out
}

fn object_name_for(tb: &ReferenceTables, type_id: u32) -> (s: String)
    ensures
        s@ == object_name(tb@, type_id),
{
    match tb.buildings.names.get(&type_id) {
        Some(n) => n.clone(),
        None => match tb.units.names.get(&type_id) {
            Some(n) => n.clone(),
            None => {
                let mut s = "Unknown (".to_owned();
                push_decimal(&mut s, type_id as u128);
                s.push(')');
                proof {
                    reveal_strlit(")");
                    assert(s@ =~= "Unknown ("@ + dec_digits(type_id as nat) + ")"@);
                }
                s
            },
        },
    }
}

fn initial_names(objs: &Vec<InitialObject>, tb: &ReferenceTables) -> (m: HashMap<u32, String>)
    ensures
        strings_view(m@) == initial_instances(objs@, tb@),
{
    let mut m: HashMap<u32, String> = HashMap::new();
    proof {
        assert(strings_view(m@) =~= Map::empty());
        assert(objs@.take(0) =~= Seq::empty());
    }
    let mut i: usize = 0;
    while i < objs.len()
        invariant
            i <= objs@.len(),
            strings_view(m@) == initial_instances(objs@.take(i as int), tb@),
        decreases objs.len() - i,
    {
        let o = objs[i];
        let name = object_name_for(tb, o.object_type_id);
        let ghost before = m@;
        m.insert(o.object_id, name);
        proof {
            assert(objs@.take(i + 1).drop_last() =~= objs@.take(i as int));
            assert(objs@.take(i + 1).last() == o);
            assert(strings_view(m@) =~= strings_view(before).insert(o.object_id, name@));
        }
        i = i + 1;
    }
    assert(objs@.take(objs@.len() as int) =~= objs@);
    m
}

/// The events of a recorded game and its players.
///
/// The commands are walked in order, keeping the game time (the sum of the sync
/// increments so far) and the building type known for each object: a research names its
/// building after the technology's building, a training or queue names the selected
/// buildings, a construction is remembered at its grid cell and an interaction there gives
/// the target that building's type. Each research, training, unqueue order, construction
/// and deletion becomes an event with the names and costs of the reference tables.
/// Players are listed with their civilization, the recording player first; when a player
/// has resigned, every other listed player is marked as winner.
pub fn extract_events(game: &RecordedGame, tables: &ReferenceTables) -> (r: ReplayData)
    requires
        commands_fit(game.commands@, tables@),
    ensures
        r.rec_player == game.rec_player as u32,
        strings_view(r.player_names@) == roster(game.players@, tables@.civs.names).names,
        events_view(r.events@) == replay_model(*game, tables@).events,
        r.summary.duration_ms == replay_model(*game, tables@).now,
        r.summary.duration_formatted@ == replay_time_spec(r.summary.duration_ms),
        infos_view(r.summary.players@) == final_players(*game, tables@),
        (r.summary.rec_player_name@, r.summary.rec_player_civ@) == rec_names(
            final_players(*game, tables@),
            roster(game.players@, tables@.civs.names).names,
            game.rec_player as u8,
        ),
        extraction_matches(*game, tables@, r),
{
    let instances = initial_names(&game.initial_objects, tables);
    let (player_names, mut infos) = build_roster(&game.players, &tables.civs);
    let pov = game.rec_player as u8;
    move_pov_first(&mut infos, &player_names, pov);
    let mut ex = Extraction {
        now: 0,
        instances,
        pending: HashMap::new(),
        pending_model: Ghost(Map::empty()),
        events: Vec::new(),
        loser: None,
    };
    proof {
        assert(events_view(ex.events@) =~= Seq::empty());
        assert(ex.model() =~= ExtractView {
            now: 0,
            instances: initial_instances(game.initial_objects@, tables@),
            pending: Map::empty(),
            events: Seq::empty(),
            loser: None,
        });
    }
    ex.walk(tables, &game.commands);
    let players = mark_winners_exec(&infos, &player_names, ex.loser);
    let (rec_player_name, rec_player_civ) = match player_names.get(&pov) {
        Some(name) => {
            let civ = match find_named(&players, name) {
                Some(k) => players[k].civ.clone(),
                None => "Unknown".to_owned(),
            };
            (name.clone(), civ)
        },
        None => ("Unknown".to_owned(), "Unknown".to_owned()),
    };
    let duration_formatted = format_time(ex.now);
    ReplayData {
        rec_player: game.rec_player as u32,
        player_names,
        events: ex.events,
        summary: MatchSummary { duration_ms: ex.now, duration_formatted, players, rec_player_name, rec_player_civ },
    }
}

// ---------------------------------------------------------------------------
// Laws
// ---------------------------------------------------------------------------

/// The game time an event was recorded at.
pub open spec fn event_time(e: EventView) -> u32 {
    match e {
        EventView::TechResearch { timestamp_ms, .. } => timestamp_ms,
        EventView::UnitQueued { timestamp_ms, .. } => timestamp_ms,
        EventView::QueueCancellation { timestamp_ms, .. } => timestamp_ms,
        EventView::BuildingConstruction { timestamp_ms, .. } => timestamp_ms,
        EventView::Deletion { timestamp_ms, .. } => timestamp_ms,
    }
}

/// Events in order of game time, none after `bound`.
pub open spec fn times_ordered(events: Seq<EventView>, bound: nat) -> bool {
    &&& forall|i: int, j: int| 0 <= i <= j < events.len() ==> event_time(#[trigger] events[i]) <= event_time(#[trigger] events[j])
    &&& forall|i: int| 0 <= i < events.len() ==> event_time(#[trigger] events[i]) <= bound
}

pub open spec fn step_increment(c: GameCommand) -> nat {
    match c {
        GameCommand::Sync { time_increment } => time_increment as nat,
        _ => 0,
    }
}

/// One command keeps the earlier events and appends events stamped with the current time.
proof fn lemma_step_shape(st: ExtractView, tb: TablesView, c: GameCommand)
    ensures
        command_step(st, tb, c).now == st.now + step_increment(c),
        st.events.len() <= command_step(st, tb, c).events.len(),
        forall|i: int| 0 <= i < st.events.len() ==> command_step(st, tb, c).events[i] == st.events[i],
        c !is Sync ==> forall|i: int| st.events.len() <= i < command_step(st, tb, c).events.len()
            ==> event_time(#[trigger] command_step(st, tb, c).events[i]) == st.now as u32,
        c is Sync ==> command_step(st, tb, c).events == st.events,
{
    let nx = command_step(st, tb, c);
    match c {
        GameCommand::DeQueue { player_id, unit_id, amount, building_type, building_ids } => {
            assert forall|i: int| st.events.len() <= i < nx.events.len() implies event_time(#[trigger] nx.events[i]) == st.now as u32 by {
                assert(nx.events[i] == copies(nx.events[i], 1)[0]);
            }
        },
        _ => {},
    }
}

proof fn lemma_model_times(init: ExtractView, cmds: Seq<GameCommand>, tb: TablesView)
    requires
        times_ordered(init.events, init.now),
        init.now + sync_total(cmds) <= u32::MAX,
    ensures
        commands_model(init, cmds, tb).now == init.now + sync_total(cmds),
        times_ordered(commands_model(init, cmds, tb).events, commands_model(init, cmds, tb).now),
    decreases cmds.len(),
{
    if cmds.len() > 0 {
        let prev = commands_model(init, cmds.drop_last(), tb);
        lemma_model_times(init, cmds.drop_last(), tb);
        let c = cmds.last();
        lemma_step_shape(prev, tb, c);
        let nx = command_step(prev, tb, c);
        assert(prev.now <= u32::MAX);
        assert forall|i: int, j: int| 0 <= i <= j < nx.events.len() implies event_time(#[trigger] nx.events[i]) <= event_time(#[trigger] nx.events[j]) by {
            if j < prev.events.len() {
                assert(nx.events[i] == prev.events[i]);
                assert(nx.events[j] == prev.events[j]);
            } else if i < prev.events.len() {
                assert(nx.events[i] == prev.events[i]);
            }
        }
        assert forall|i: int| 0 <= i < nx.events.len() implies event_time(#[trigger] nx.events[i]) <= nx.now by {
            if i < prev.events.len() {
                assert(nx.events[i] == prev.events[i]);
            }
        }
    }
}

/// The events come in order of game time, and none is later than the end of the game.
pub proof fn law_events_in_time_order(game: RecordedGame, tb: TablesView)
    requires
        commands_fit(game.commands@, tb),
    ensures
        times_ordered(replay_model(game, tb).events, replay_model(game, tb).now),
        replay_model(game, tb).now == sync_total(game.commands@),
{
    let init = ExtractView {
        now: 0,
        instances: initial_instances(game.initial_objects@, tb),
        pending: Map::empty(),
        events: Seq::empty(),
        loser: None,
    };
    lemma_model_times(init, game.commands@, tb);
}

proof fn lemma_roster_no_winners(players: Seq<PlayerSetup>, civs: Map<u32, Seq<char>>)
    ensures
        forall|i: int| 0 <= i < roster(players, civs).infos.len() ==> !(#[trigger] roster(players, civs).infos[i]).is_winner,
    decreases players.len(),
{
    if players.len() > 0 {
        lemma_roster_no_winners(players.drop_last(), civs);
        let prev = roster(players.drop_last(), civs);
        let cur = roster(players, civs);
        assert forall|i: int| 0 <= i < cur.infos.len() implies !(#[trigger] cur.infos[i]).is_winner by {
            if i < prev.infos.len() {
                assert(cur.infos[i] == prev.infos[i]);
            }
        }
    }
}

proof fn lemma_first_named(infos: Seq<PlayerInfoView>, name: Seq<char>, k: int)
    requires
        0 <= k,
    ensures
        first_named(infos, name, k) matches Some(j) ==> k <= j < infos.len() && infos[j].name == name,
    decreases infos.len() - k,
{
    if k < infos.len() && infos[k].name != name {
        lemma_first_named(infos, name, k + 1);
    }
}

/// Once a player has resigned, exactly the listed players with another name are winners;
/// before that, nobody is.
pub proof fn law_winners_after_resign(game: RecordedGame, tb: TablesView)
    ensures
        forall|i: int| 0 <= i < final_players(game, tb).len() ==> (#[trigger] final_players(game, tb)[i]).is_winner == (
            replay_model(game, tb).loser matches Some(l)
            && roster(game.players@, tb.civs.names).names.contains_key(l)
            && final_players(game, tb)[i].name != roster(game.players@, tb.civs.names).names[l]
        ),
{
    let r = roster(game.players@, tb.civs.names);
    lemma_roster_no_winners(game.players@, tb.civs.names);
    let pf = pov_first(r.infos, r.names, game.rec_player as u8);
    assert forall|i: int| 0 <= i < pf.len() implies !(#[trigger] pf[i]).is_winner by {
        if r.names.contains_key(game.rec_player as u8) {
            lemma_first_named(r.infos, r.names[game.rec_player as u8], 0);
            match first_named(r.infos, r.names[game.rec_player as u8], 0) {
                Some(p) => {
                    let rm = r.infos.remove(p);
                    if i > 0 {
                        assert(pf[i] == rm[i - 1]);
                        if i - 1 < p {
                            assert(rm[i - 1] == r.infos[i - 1]);
                        } else {
                            assert(rm[i - 1] == r.infos[i]);
                        }
                    }
                },
                None => {},
            }
        }
    }
}

/// The recording player, when listed, comes first.
pub proof fn law_recording_player_first(game: RecordedGame, tb: TablesView)
    requires
        roster(game.players@, tb.civs.names).names.contains_key(game.rec_player as u8),
        exists|i: int| 0 <= i < roster(game.players@, tb.civs.names).infos.len()
            && (#[trigger] roster(game.players@, tb.civs.names).infos[i]).name == roster(game.players@, tb.civs.names).names[game.rec_player as u8],
    ensures
        final_players(game, tb).len() > 0,
        final_players(game, tb)[0].name == roster(game.players@, tb.civs.names).names[game.rec_player as u8],
{
    let r = roster(game.players@, tb.civs.names);
    let name = r.names[game.rec_player as u8];
    let w = choose|i: int| 0 <= i < r.infos.len() && (#[trigger] r.infos[i]).name == name;
    lemma_first_named_found(r.infos, name, 0, w);
    lemma_first_named(r.infos, name, 0);
}

proof fn lemma_first_named_found(infos: Seq<PlayerInfoView>, name: Seq<char>, k: int, w: int)
    requires
        0 <= k <= w < infos.len(),
        infos[w].name == name,
    ensures
        first_named(infos, name, k) is Some,
    decreases w - k,
{
    if infos[k].name != name {
        lemma_first_named_found(infos, name, k + 1, w);
    }
}


// ---------------------------------------------------------------------------
// The event table
// ---------------------------------------------------------------------------

/// `s` padded with spaces on the right to at least `w` characters.
pub open spec fn pad_right(s: Seq<char>, w: nat) -> Seq<char> {
    if s.len() >= w {
        s
    } else {
        s + Seq::new((w - s.len()) as nat, |i: int| ' ')
    }
}

/// `s` padded with spaces on the left to at least `w` characters.
pub open spec fn pad_left(s: Seq<char>, w: nat) -> Seq<char> {
    if s.len() >= w {
        s
    } else {
        Seq::new((w - s.len()) as nat, |i: int| ' ') + s
    }
}

/// A signed number in decimal.
pub open spec fn signed_digits(v: int) -> Seq<char> {
    if v < 0 {
        seq!['-'] + dec_digits((-v) as nat)
    } else {
        dec_digits(v as nat)
    }
}

/// The items joined by `, `.
pub open spec fn comma_join(items: Seq<Seq<char>>) -> Seq<char>
    decreases items.len(),
{
    if items.len() == 0 {
        Seq::empty()
    } else if items.len() == 1 {
        items[0]
    } else {
        comma_join(items.drop_last()) + ", "@ + items.last()
    }
}

/// The columns of one table line: time, player, kind, item, building types, building ids,
/// then the four costs.
pub open spec fn table_line(cols: Seq<Seq<char>>, costs: Seq<u32>) -> Seq<char> {
    pad_right(cols[0], 12) + " | "@ + pad_right(cols[1], 20) + " | "@ + pad_right(cols[2], 10) + " | "@
        + pad_right(cols[3], 28) + " | "@ + pad_right(cols[4], 28) + " | "@ + pad_right(cols[5], 22)
        + " | "@ + pad_left(dec_digits(costs[0] as nat), 5) + " | "@ + pad_left(dec_digits(costs[1] as nat), 5)
        + " | "@ + pad_left(dec_digits(costs[2] as nat), 5) + " | "@ + pad_left(dec_digits(costs[3] as nat), 5)
}

pub open spec fn cost_cols(c: ResourceCost) -> Seq<u32> {
    seq![c.food, c.wood, c.gold, c.stone]
}

pub open spec fn event_player(e: EventView) -> u8 {
    match e {
        EventView::TechResearch { player_id, .. } => player_id,
        EventView::UnitQueued { player_id, .. } => player_id,
        EventView::QueueCancellation { player_id, .. } => player_id,
        EventView::BuildingConstruction { player_id, .. } => player_id,
        EventView::Deletion { player_id, .. } => player_id,
    }
}

/// The table line of an event, the player named from `names` (or `Unknown`).
pub open spec fn event_line_spec(e: EventView, names: Map<u8, Seq<char>>) -> Seq<char> {
    event_line_with(e, if names.contains_key(event_player(e)) { names[event_player(e)] } else { "Unknown"@ })
}

/// The table line of an event by player `p`.
pub open spec fn event_line_with(e: EventView, p: Seq<char>) -> Seq<char> {
    let t = replay_time_spec(event_time(e));
    match e {
        EventView::TechResearch { tech_type, cost, building_id, building_type, .. } =>
            table_line(seq![t, p, "Research"@, tech_type, building_type, dec_digits(building_id as nat)], cost_cols(cost)),
        EventView::UnitQueued { unit_type, cost, building_ids, building_types, .. } =>
            table_line(seq![t, p, "Training"@, unit_type, comma_join(building_types),
                comma_join(building_ids.map_values(|id: u32| dec_digits(id as nat)))], cost_cols(cost)),
        EventView::QueueCancellation { building_ids, building_types, queue_position, .. } =>
            table_line(seq![t, p, "DeQueue"@, "Pos: "@ + signed_digits(queue_position as int), comma_join(building_types),
                comma_join(building_ids.map_values(|id: u32| dec_digits(id as nat)))], seq![0u32, 0, 0, 0]),
        EventView::BuildingConstruction { building_type, cost, .. } =>
            table_line(seq![t, p, "Build"@, building_type, "-"@, "-"@], cost_cols(cost)),
        EventView::Deletion { object_id, object_name, .. } =>
            table_line(seq![t, p, "Delete"@, object_name + " ("@ + dec_digits(object_id as nat) + ")"@, "-"@, "-"@],
                seq![0u32, 0, 0, 0]),
    }
}

fn append_padded_right(out: &mut String, s: &str, w: usize)
    ensures
        final(out)@ == old(out)@ + pad_right(s@, w as nat),
{
    out.append(s);
    let n = s.unicode_len();
    let ghost mid = out@;
    if n < w {
        let mut k: usize = n;
        while k < w
            invariant
                n <= k <= w,
                n == s@.len(),
                out@ == mid + Seq::new((k - n) as nat, |i: int| ' '),
            decreases w - k,
        {
            out.push(' ');
            assert(out@ =~= mid + Seq::new((k + 1 - n) as nat, |i: int| ' '));
            k = k + 1;
        }
    }
    assert(out@ =~= old(out)@ + pad_right(s@, w as nat));
}

fn append_number_padded_left(out: &mut String, v: u32, w: usize)
    ensures
        final(out)@ == old(out)@ + pad_left(dec_digits(v as nat), w as nat),
{
    let digits = crate::text::decimal_string(v as u128);
    let n = digits.as_str().unicode_len();
    let ghost start = out@;
    if n < w {
        let mut k: usize = n;
        while k < w
            invariant
                n <= k <= w,
                out@ == start + Seq::new((k - n) as nat, |i: int| ' '),
            decreases w - k,
        {
            out.push(' ');
            assert(out@ =~= start + Seq::new((k + 1 - n) as nat, |i: int| ' '));
            k = k + 1;
        }
    }
    out.append(digits.as_str());
    assert(out@ =~= start + pad_left(dec_digits(v as nat), w as nat));
}

fn join_texts(items: &Vec<String>) -> (s: String)
    ensures
        s@ == comma_join(texts_view(items@)),
{
    let mut s = String::new();
    for i in 0..items.len()
        invariant
            s@ == comma_join(texts_view(items@).take(i as int)),
    {
        let ghost t = texts_view(items@).take(i + 1);
        assert(t.drop_last() =~= texts_view(items@).take(i as int));
        if i > 0 {
            s.append(", ");
        } else {
            assert(texts_view(items@).take(i as int) =~= Seq::<Seq<char>>::empty());
        }
        s.append(items[i].as_str());
    }
    assert(texts_view(items@).take(items@.len() as int) =~= texts_view(items@));
    s
}

fn join_ids(ids: &Vec<u32>) -> (s: String)
    ensures
        s@ == comma_join(ids@.map_values(|id: u32| dec_digits(id as nat))),
{
    let ghost all = ids@.map_values(|id: u32| dec_digits(id as nat));
    let mut s = String::new();
    for i in 0..ids.len()
        invariant
            all == ids@.map_values(|id: u32| dec_digits(id as nat)),
            s@ == comma_join(all.take(i as int)),
    {
        let ghost t = all.take(i + 1);
        assert(t.drop_last() =~= all.take(i as int));
        if i > 0 {
            s.append(", ");
        } else {
            assert(all.take(i as int) =~= Seq::<Seq<char>>::empty());
        }
        push_decimal(&mut s, ids[i] as u128);
    }
    assert(all.take(ids@.len() as int) =~= all);
    s
}

fn write_line(cols: [&str; 6], costs: [u32; 4]) -> (s: String)
    ensures
        s@ == table_line(seq![cols[0]@, cols[1]@, cols[2]@, cols[3]@, cols[4]@, cols[5]@], seq![costs[0], costs[1], costs[2], costs[3]]),
{
    let mut s = String::new();
    append_padded_right(&mut s, cols[0], 12);
    s.append(" | ");
    append_padded_right(&mut s, cols[1], 20);
    s.append(" | ");
    append_padded_right(&mut s, cols[2], 10);
    s.append(" | ");
    append_padded_right(&mut s, cols[3], 28);
    s.append(" | ");
    append_padded_right(&mut s, cols[4], 28);
    s.append(" | ");
    append_padded_right(&mut s, cols[5], 22);
    s.append(" | ");
    append_number_padded_left(&mut s, costs[0], 5);
    s.append(" | ");
    append_number_padded_left(&mut s, costs[1], 5);
    s.append(" | ");
    append_number_padded_left(&mut s, costs[2], 5);
    s.append(" | ");
    append_number_padded_left(&mut s, costs[3], 5);
    s
}

/// The table line of an event (see `event_line_spec`).
pub fn event_line(e: &ReplayEvent, player_names: &HashMap<u8, String>) -> (s: String)
    ensures
        s@ == event_line_spec(e@, strings_view(player_names@)),
{
    let pid = match e {
        ReplayEvent::TechResearch { player_id, .. } => *player_id,
        ReplayEvent::UnitQueued { player_id, .. } => *player_id,
        ReplayEvent::QueueCancellation { player_id, .. } => *player_id,
        ReplayEvent::BuildingConstruction { player_id, .. } => *player_id,
        ReplayEvent::Deletion { player_id, .. } => *player_id,
    };
    let name = match player_names.get(&pid) {
        Some(n) => n.clone(),
        None => "Unknown".to_owned(),
    };
    line_with(e, &name)
}

#[verifier::spinoff_prover]
#[verifier::rlimit(40)]
fn line_with(e: &ReplayEvent, name: &String) -> (s: String)
    ensures
        s@ == event_line_with(e@, name@),
{
    match e {
        ReplayEvent::TechResearch { timestamp_ms, tech_type, cost, building_id, building_type, .. } => {
            let t = format_time(*timestamp_ms);
            let id = crate::text::decimal_string(*building_id as u128);
            write_line([t.as_str(), name.as_str(), "Research", tech_type.as_str(), building_type.as_str(), id.as_str()],
                [cost.food, cost.wood, cost.gold, cost.stone])
        },
        ReplayEvent::UnitQueued { timestamp_ms, unit_type, cost, building_ids, building_types, .. } => {
            let t = format_time(*timestamp_ms);
            let types = join_texts(building_types);
            let ids = join_ids(building_ids);
            write_line([t.as_str(), name.as_str(), "Training", unit_type.as_str(), types.as_str(), ids.as_str()],
                [cost.food, cost.wood, cost.gold, cost.stone])
        },
        ReplayEvent::QueueCancellation { timestamp_ms, building_ids, building_types, queue_position, .. } => {
            let t = format_time(*timestamp_ms);
            let mut pos = "Pos: ".to_owned();
            if *queue_position < 0 {
                pos.push('-');
                push_decimal(&mut pos, (0i64 - *queue_position as i64) as u128);
            } else {
                push_decimal(&mut pos, *queue_position as u128);
            }
            proof {
                assert(pos@ =~= "Pos: "@ + signed_digits(*queue_position as int));
            }
            let types = join_texts(building_types);
            let ids = join_ids(building_ids);
            write_line([t.as_str(), name.as_str(), "DeQueue", pos.as_str(), types.as_str(), ids.as_str()], [0, 0, 0, 0])
        },
        ReplayEvent::BuildingConstruction { timestamp_ms, building_type, cost, .. } => {
            let t = format_time(*timestamp_ms);
            write_line([t.as_str(), name.as_str(), "Build", building_type.as_str(), "-", "-"],
                [cost.food, cost.wood, cost.gold, cost.stone])
        },
        ReplayEvent::Deletion { timestamp_ms, object_id, object_name, .. } => {
            let t = format_time(*timestamp_ms);
            let mut item = object_name.clone();
            item.append(" (");
            push_decimal(&mut item, *object_id as u128);
            item.append(")");
            write_line([t.as_str(), name.as_str(), "Delete", item.as_str(), "-", "-"], [0, 0, 0, 0])
        },
    }
}

} // verus!
