use aoe2_squire::extract::{event_line, extract_events, load_reference_tables, PlayerInfo};
use aoe2_squire::reference::{parse_csv_map, CsvLayout};
use aoe2_squire::replay::{
    format_time, GameCommand, InitialObject, OrderKind, PlayerSetup, RecordedGame, ReplayEvent,
    ResourceCost,
};

// Units read food, wood and gold from columns 6 to 8 and their building from column 7.
const UNITS: &str = "id,name,a,b,c,d,food,wood,gold\n\
83,Villager,,,,,50,109,0\n\
4,Archer,,,,,0,87,45\n";
const TECHS: &str = "id,name,food,wood,gold,stone,building\n\
101,Feudal Age,500,0,0,0,109\n\
22,Loom,0,0,50,0,109\n";
const BUILDINGS: &str = "id,name,a,b,food,wood,gold,stone\n\
109,Town Center,,,0,275,0,100\n\
87,Archery Range,,,0,175,0,0\n\
70,House,,,0,25,0,0\n";
const CIVS: &str = "id,name\n1,Britons\n2,Franks\n";

fn player(name: &str, civ: u32, kind: u32) -> PlayerSetup {
    PlayerSetup { name: name.to_string(), ai_name: String::new(), civ_id: civ, player_type: kind }
}

fn game(commands: Vec<GameCommand>) -> RecordedGame {
    RecordedGame {
        timestamp: 0,
        players: vec![player("Alice", 2, 2), player("Bob", 1, 2)],
        rec_player: 2,
        initial_objects: vec![InitialObject { object_id: 500, object_type_id: 109 }],
        commands,
    }
}

fn cost(food: u32, wood: u32, gold: u32, stone: u32) -> ResourceCost {
    ResourceCost { food, wood, gold, stone }
}

#[test]
fn reference_tables_read_names_costs_and_buildings() {
    let t = load_reference_tables(UNITS, TECHS, BUILDINGS, CIVS).unwrap();
    assert_eq!(t.units.names.get(&83).unwrap(), "Villager");
    assert_eq!(*t.units.costs.get(&4).unwrap(), cost(0, 87, 45, 0));
    assert_eq!(*t.units.buildings.get(&83).unwrap(), 109);
    assert_eq!(*t.techs.costs.get(&101).unwrap(), cost(500, 0, 0, 0));
    assert_eq!(t.civs.names.get(&2).unwrap(), "Franks");
    assert!(t.civs.costs.is_empty());
}

#[test]
fn csv_rows_without_numeric_id_are_skipped() {
    let layout = CsvLayout { id_col: 0, name_col: 1, cost_start_col: Some(2), building_col: None, num_costs: 2 };
    let t = parse_csv_map("id,name,food,wood\n  ,Blank\nx,Bad\n7,Seven,12\n7,Again,1,2\n", layout).unwrap();
    assert_eq!(t.names.len(), 1);
    assert_eq!(t.names.get(&7).unwrap(), "Again");
    assert_eq!(*t.costs.get(&7).unwrap(), cost(1, 2, 0, 0));
}

#[test]
fn extract_events_walks_the_commands() {
    let tables = load_reference_tables(UNITS, TECHS, BUILDINGS, CIVS).unwrap();
    let g = game(vec![
        GameCommand::Sync { time_increment: 1000 },
        GameCommand::Queue { player_id: 2, unit_type: 83, count: 2, building_ids: vec![500] },
        GameCommand::Sync { time_increment: 500 },
        GameCommand::Build { player_id: 2, building_type_id: 70, x_bits: 0, y_bits: 0, grid_x: 100, grid_y: 200 },
        GameCommand::Interact { target_id: 777, grid_x: 101, grid_y: 199 },
        GameCommand::Research { player_id: 1, technology_type: 22, building_id: 900 },
        GameCommand::DeQueue { player_id: 1, unit_id: 4, amount: 1, building_type: 87, building_ids: vec![31, 32] },
        GameCommand::Order { player_id: 1, order_type: OrderKind::Unqueue, unknown4: 4, unknown5: 3, object_ids: vec![31] },
        GameCommand::Delete { player_id: 2, object_id: 777 },
        GameCommand::Resign { player_id: 1 },
        GameCommand::Other,
    ]);
    let data = extract_events(&g, &tables);
    assert_eq!(data.rec_player, 2);
    assert_eq!(data.summary.duration_ms, 1500);
    assert_eq!(data.summary.duration_formatted, "00:01.500");
    assert_eq!(data.player_names.get(&1).unwrap(), "Alice");
    assert_eq!(data.events.len(), 7);

    match &data.events[0] {
        ReplayEvent::UnitQueued { timestamp_ms, unit_type, cost: c, building_types, .. } => {
            assert_eq!(*timestamp_ms, 1000);
            assert_eq!(unit_type, "Villager");
            assert_eq!(*c, cost(50, 109, 0, 0));
            assert_eq!(building_types, &vec!["Town Center".to_string()]);
        }
        other => panic!("unexpected {:?}", other),
    }
    match &data.events[2] {
        ReplayEvent::BuildingConstruction { timestamp_ms, building_type, cost: c, .. } => {
            assert_eq!(*timestamp_ms, 1500);
            assert_eq!(building_type, "House");
            assert_eq!(*c, cost(0, 25, 0, 0));
        }
        other => panic!("unexpected {:?}", other),
    }
    match &data.events[3] {
        ReplayEvent::TechResearch { tech_type, building_type, cost: c, .. } => {
            assert_eq!(tech_type, "Loom");
            assert_eq!(building_type, "Town Center");
            assert_eq!(*c, cost(0, 0, 50, 0));
        }
        other => panic!("unexpected {:?}", other),
    }
    match &data.events[4] {
        ReplayEvent::UnitQueued { unit_type, cost: c, building_types, .. } => {
            assert_eq!(unit_type, "Archer");
            assert_eq!(*c, cost(0, 174, 90, 0));
            assert_eq!(building_types.len(), 2);
        }
        other => panic!("unexpected {:?}", other),
    }
    match &data.events[5] {
        ReplayEvent::QueueCancellation { building_types, queue_position, .. } => {
            assert_eq!(building_types, &vec!["Archery Range".to_string()]);
            assert_eq!(*queue_position, 3);
        }
        other => panic!("unexpected {:?}", other),
    }
    match &data.events[6] {
        // The house was ordered at a neighbouring cell of the interaction.
        ReplayEvent::Deletion { object_name, .. } => assert_eq!(object_name, "House"),
        other => panic!("unexpected {:?}", other),
    }

    // Bob recorded the game and comes first; Alice resigned, so Bob won.
    let names: Vec<&str> = data.summary.players.iter().map(|p| p.name.as_str()).collect();
    assert_eq!(names, vec!["Bob", "Alice"]);
    assert!(data.summary.players[0].is_winner);
    assert!(!data.summary.players[1].is_winner);
    assert_eq!(data.summary.rec_player_name, "Bob");
    assert_eq!(data.summary.rec_player_civ, "Britons");
}

#[test]
fn unnamed_players_get_labels_and_unknown_lookups_fall_back() {
    let tables = load_reference_tables(UNITS, TECHS, BUILDINGS, CIVS).unwrap();
    let g = RecordedGame {
        timestamp: 0,
        players: vec![
            PlayerSetup { name: "  ".to_string(), ai_name: "Computer".to_string(), civ_id: 9, player_type: 4 },
            PlayerSetup { name: String::new(), ai_name: String::new(), civ_id: 1, player_type: 1 },
        ],
        rec_player: 5,
        initial_objects: vec![InitialObject { object_id: 1, object_type_id: 12345 }],
        commands: vec![GameCommand::Delete { player_id: 1, object_id: 1 }],
    };
    let data = extract_events(&g, &tables);
    assert_eq!(data.player_names.get(&1).unwrap(), "Computer");
    assert_eq!(data.player_names.get(&2).unwrap(), "Player 2");
    assert_eq!(data.summary.players.len(), 1);
    let p: &PlayerInfo = &data.summary.players[0];
    assert_eq!(p.civ, "Unknown Civ 9");
    assert_eq!(data.summary.rec_player_name, "Unknown");
    match &data.events[0] {
        ReplayEvent::Deletion { object_name, .. } => assert_eq!(object_name, "Unknown (12345)"),
        other => panic!("unexpected {:?}", other),
    }
}

#[test]
fn replay_time_renders_to_the_millisecond() {
    assert_eq!(format_time(0), "00:00.000");
    assert_eq!(format_time(83_456), "01:23.456");
}

#[test]
fn event_table_line_pads_columns() {
    let e = ReplayEvent::Deletion { timestamp_ms: 1000, player_id: 3, object_id: 42, object_name: "House".to_string() };
    let names = std::collections::HashMap::new();
    let line = event_line(&e, &names);
    assert_eq!(
        line,
        format!(
            "{:<12} | {:<20} | {:<10} | {:<28} | {:<28} | {:<22} | {:>5} | {:>5} | {:>5} | {:>5}",
            "00:01.000", "Unknown", "Delete", "House (42)", "-", "-", 0, 0, 0, 0
        )
    );
    let q = ReplayEvent::QueueCancellation {
        timestamp_ms: 0,
        player_id: 1,
        building_ids: vec![5, 6],
        building_types: vec!["A".to_string(), "B".to_string()],
        queue_position: -2,
    };
    let mut names = std::collections::HashMap::new();
    names.insert(1u8, "Alice".to_string());
    assert_eq!(
        event_line(&q, &names),
        format!(
            "{:<12} | {:<20} | {:<10} | {:<28} | {:<28} | {:<22} | {:>5} | {:>5} | {:>5} | {:>5}",
            "00:00.000", "Alice", "DeQueue", "Pos: -2", "A, B", "5, 6", 0, 0, 0, 0
        )
    );
}
