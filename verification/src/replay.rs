//! Events recorded in a replay file and their timing.
use vstd::prelude::*;
use crate::text::{dec_padded, push_decimal_padded};

verus! {

#[derive(Debug, Clone, Copy, PartialEq, Eq)]
pub struct ResourceCost {
    pub food: u32,
    pub wood: u32,
    pub gold: u32,
    pub stone: u32,
}

/// A command from the replay, with the in-game time it was issued at.
///
/// Map coordinates of a construction are kept as the bit patterns of the replay's
/// 32-bit floating-point values (`f32::to_bits`).
#[derive(Debug, Clone)]
pub enum ReplayEvent {
    TechResearch {
        timestamp_ms: u32,
        player_id: u8,
        tech_type: String,
        cost: ResourceCost,
        building_id: u32,
        building_type: String,
    },
    UnitQueued {
        timestamp_ms: u32,
        player_id: u8,
        unit_type: String,
        cost: ResourceCost,
        building_ids: Vec<u32>,
        building_types: Vec<String>,
    },
    QueueCancellation {
        timestamp_ms: u32,
        player_id: u8,
        building_ids: Vec<u32>,
        building_types: Vec<String>,
        queue_position: i32,
    },
    BuildingConstruction {
        timestamp_ms: u32,
        player_id: u8,
        building_type: String,
        building_type_id: u32,
        x_bits: u32,
        y_bits: u32,
        cost: ResourceCost,
    },
    Deletion { timestamp_ms: u32, player_id: u8, object_id: u32, object_name: String },
}

/// What an event says, with its texts as character sequences.
pub enum EventView {
    TechResearch {
        timestamp_ms: u32,
        player_id: u8,
        tech_type: Seq<char>,
        cost: ResourceCost,
        building_id: u32,
        building_type: Seq<char>,
    },
    UnitQueued {
        timestamp_ms: u32,
        player_id: u8,
        unit_type: Seq<char>,
        cost: ResourceCost,
        building_ids: Seq<u32>,
        building_types: Seq<Seq<char>>,
    },
    QueueCancellation {
        timestamp_ms: u32,
        player_id: u8,
        building_ids: Seq<u32>,
        building_types: Seq<Seq<char>>,
        queue_position: i32,
    },
    BuildingConstruction {
        timestamp_ms: u32,
        player_id: u8,
        building_type: Seq<char>,
        building_type_id: u32,
        x_bits: u32,
        y_bits: u32,
        cost: ResourceCost,
    },
    Deletion { timestamp_ms: u32, player_id: u8, object_id: u32, object_name: Seq<char> },
}

/// The character sequences of a list of strings.
pub open spec fn texts_view(v: Seq<String>) -> Seq<Seq<char>> {
    v.map_values(|s: String| s@)
}

impl View for ReplayEvent {
    type V = EventView;

    open spec fn view(&self) -> EventView {
        match *self {
            ReplayEvent::TechResearch {
                timestamp_ms,
                player_id,
                tech_type,
                cost,
                building_id,
                building_type,
            } => EventView::TechResearch {
                timestamp_ms,
                player_id,
                tech_type: tech_type@,
                cost,
                building_id,
                building_type: building_type@,
            },
            ReplayEvent::UnitQueued {
                timestamp_ms,
                player_id,
                unit_type,
                cost,
                building_ids,
                building_types,
            } => EventView::UnitQueued {
                timestamp_ms,
                player_id,
                unit_type: unit_type@,
                cost,
                building_ids: building_ids@,
                building_types: texts_view(building_types@),
            },
            ReplayEvent::QueueCancellation {
                timestamp_ms,
                player_id,
                building_ids,
                building_types,
                queue_position,
            } => EventView::QueueCancellation {
                timestamp_ms,
                player_id,
                building_ids: building_ids@,
                building_types: texts_view(building_types@),
                queue_position,
            },
            ReplayEvent::BuildingConstruction {
                timestamp_ms,
                player_id,
                building_type,
                building_type_id,
                x_bits,
                y_bits,
                cost,
            } => EventView::BuildingConstruction {
                timestamp_ms,
                player_id,
                building_type: building_type@,
                building_type_id,
                x_bits,
                y_bits,
                cost,
            },
            ReplayEvent::Deletion { timestamp_ms, player_id, object_id, object_name } =>
                EventView::Deletion {
                timestamp_ms,
                player_id,
                object_id,
                object_name: object_name@,
            },
        }
    }
}

/// The views of a list of events.
pub open spec fn events_view(v: Seq<ReplayEvent>) -> Seq<EventView> {
    v.map_values(|e: ReplayEvent| e@)
}

/// A player slot of the replay header.
#[derive(Debug, Clone)]
pub struct PlayerSetup {
    pub name: String,
    pub ai_name: String,
    pub civ_id: u32,
    /// 2 for a human, 4 for a computer player.
    pub player_type: u32,
}

/// An object placed on the map when the game starts.
#[derive(Debug, Clone, Copy)]
pub struct InitialObject {
    pub object_id: u32,
    pub object_type_id: u32,
}

/// The kinds of an order command.
#[derive(Debug, Clone, Copy, PartialEq, Eq)]
pub enum OrderKind {
    Pack,
    Unpack,
    Unqueue,
    UnknownOrder5,
    Garrison,
    UnknownOrder7,
    UnknownOrder8,
}

/// One operation of the replay's command stream.
#[derive(Debug, Clone)]
pub enum GameCommand {
    /// Game time advances by `time_increment` milliseconds.
    Sync { time_increment: u32 },
    Research { player_id: u8, technology_type: u16, building_id: u32 },
    /// Units queued by type in all selected buildings of one type.
    DeQueue { player_id: u8, unit_id: u16, amount: u16, building_type: u16, building_ids: Vec<u32> },
    Order { player_id: u8, order_type: OrderKind, unknown4: i32, unknown5: u32, object_ids: Vec<u32> },
    Queue { player_id: u8, unit_type: u16, count: u16, building_ids: Vec<u32> },
    /// A construction, at a position given as `f32` bit patterns and as a grid cell: the
    /// position in tenths of a tile, each coordinate truncated toward zero (what
    /// `(x * 10.0) as i32` gives).
    Build {
        player_id: u8,
        building_type_id: u32,
        x_bits: u32,
        y_bits: u32,
        grid_x: i32,
        grid_y: i32,
    },
    /// A unit sent to interact with `target_id` at a grid cell.
    Interact { target_id: u32, grid_x: i32, grid_y: i32 },
    Delete { player_id: u8, object_id: u32 },
    Resign { player_id: u8 },
    /// Any other operation.
    Other,
}

/// What the library reads from a recorded game.
#[derive(Debug, Clone)]
pub struct RecordedGame {
    /// Start of the game, in seconds since the Unix epoch.
    pub timestamp: i32,
    pub players: Vec<PlayerSetup>,
    /// Number of the player who recorded the game.
    pub rec_player: u16,
    pub initial_objects: Vec<InitialObject>,
    pub commands: Vec<GameCommand>,
}

/// `mm:ss.mmm` for a replay timestamp: whole minutes (at least two digits), then the
/// seconds within the minute with three decimals.
pub open spec fn replay_time_spec(ms: u32) -> Seq<char> {
    dec_padded((ms / 60000) as nat, 2) + seq![':'] + dec_padded(((ms % 60000) / 1000) as nat, 2)
        + seq!['.'] + dec_padded((ms % 1000) as nat, 3)
}

/// Renders a replay timestamp as `mm:ss.mmm`, exactly to the millisecond.
pub fn format_time(ms: u32) -> (s: String)
    ensures
        s@ == replay_time_spec(ms),
{
    let minutes = ms / 60000;
    let seconds = (ms % 60000) / 1000;
    let millis = ms % 1000;
    let mut s = String::new();
    push_decimal_padded(&mut s, minutes as u128, 2);
    s.push(':');
    push_decimal_padded(&mut s, seconds as u128, 2);
    s.push('.');
    push_decimal_padded(&mut s, millis as u128, 3);
    assert(s@ =~= replay_time_spec(ms));
    s
}

/// A replay timestamp renders as the same text as the in-game timestamp of the analyses.
pub proof fn law_replay_time_matches_game_time(ms: u32)
    ensures
        replay_time_spec(ms) == crate::analysis::format_time_spec(ms as u64),
{
}


// ---------------------------------------------------------------------------
// Views of a recorded game
// ---------------------------------------------------------------------------

pub struct PlayerSetupView {
    pub name: Seq<char>,
    pub ai_name: Seq<char>,
    pub civ_id: u32,
    pub player_type: u32,
}

impl View for PlayerSetup {
    type V = PlayerSetupView;

    open spec fn view(&self) -> PlayerSetupView {
        PlayerSetupView { name: self.name@, ai_name: self.ai_name@, civ_id: self.civ_id, player_type: self.player_type }
    }
}

pub open spec fn setups_view(v: Seq<PlayerSetup>) -> Seq<PlayerSetupView> {
    v.map_values(|p: PlayerSetup| p@)
}

/// A command by its plain values.
pub enum CommandView {
    Sync { time_increment: u32 },
    Research { player_id: u8, technology_type: u16, building_id: u32 },
    DeQueue { player_id: u8, unit_id: u16, amount: u16, building_type: u16, building_ids: Seq<u32> },
    Order { player_id: u8, order_type: OrderKind, unknown4: i32, unknown5: u32, object_ids: Seq<u32> },
    Queue { player_id: u8, unit_type: u16, count: u16, building_ids: Seq<u32> },
    Build { player_id: u8, building_type_id: u32, x_bits: u32, y_bits: u32, grid_x: i32, grid_y: i32 },
    Interact { target_id: u32, grid_x: i32, grid_y: i32 },
    Delete { player_id: u8, object_id: u32 },
    Resign { player_id: u8 },
    Other,
}

impl View for GameCommand {
    type V = CommandView;

    open spec fn view(&self) -> CommandView {
        match self {
            GameCommand::Sync { time_increment } => CommandView::Sync { time_increment: *time_increment },
            GameCommand::Research { player_id, technology_type, building_id } => CommandView::Research {
                player_id: *player_id,
                technology_type: *technology_type,
                building_id: *building_id,
            },
            GameCommand::DeQueue { player_id, unit_id, amount, building_type, building_ids } => CommandView::DeQueue {
                player_id: *player_id,
                unit_id: *unit_id,
                amount: *amount,
                building_type: *building_type,
                building_ids: building_ids@,
            },
            GameCommand::Order { player_id, order_type, unknown4, unknown5, object_ids } => CommandView::Order {
                player_id: *player_id,
                order_type: *order_type,
                unknown4: *unknown4,
                unknown5: *unknown5,
                object_ids: object_ids@,
            },
            GameCommand::Queue { player_id, unit_type, count, building_ids } => CommandView::Queue {
                player_id: *player_id,
                unit_type: *unit_type,
                count: *count,
                building_ids: building_ids@,
            },
            GameCommand::Build { player_id, building_type_id, x_bits, y_bits, grid_x, grid_y } => CommandView::Build {
                player_id: *player_id,
                building_type_id: *building_type_id,
                x_bits: *x_bits,
                y_bits: *y_bits,
                grid_x: *grid_x,
                grid_y: *grid_y,
            },
            GameCommand::Interact { target_id, grid_x, grid_y } => CommandView::Interact {
                target_id: *target_id,
                grid_x: *grid_x,
                grid_y: *grid_y,
            },
            GameCommand::Delete { player_id, object_id } => CommandView::Delete { player_id: *player_id, object_id: *object_id },
            GameCommand::Resign { player_id } => CommandView::Resign { player_id: *player_id },
            GameCommand::Other => CommandView::Other,
        }
    }
}

pub open spec fn commands_view(v: Seq<GameCommand>) -> Seq<CommandView> {
    v.map_values(|c: GameCommand| c@)
}

pub struct GameView {
    pub timestamp: i32,
    pub players: Seq<PlayerSetupView>,
    pub rec_player: u16,
    pub initial_objects: Seq<InitialObject>,
    pub commands: Seq<CommandView>,
}

impl View for RecordedGame {
    type V = GameView;

    open spec fn view(&self) -> GameView {
        GameView {
            timestamp: self.timestamp,
            players: setups_view(self.players@),
            rec_player: self.rec_player,
            initial_objects: self.initial_objects@,
            commands: commands_view(self.commands@),
        }
    }
}

} // verus!
