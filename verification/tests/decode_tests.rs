use aoe2_squire::decode::{extract_decoded, interaction_positions, DecodedCommand, DecodedGame};
use aoe2_squire::extract::load_reference_tables;
use aoe2_squire::replay::{GameCommand, PlayerSetup, ReplayEvent};
use std::collections::HashMap;

const UNITS: &str = "id,name,a,b,c,d,food,wood,gold\n83,Villager,,,,,50,109,0\n";
const TECHS: &str = "id,name,food,wood,gold,stone,building\n22,Loom,0,0,50,0,109\n";
const BUILDINGS: &str = "id,name,a,b,food,wood,gold,stone\n109,Town Center,,,0,275,0,100\n70,House,,,0,25,0,0\n";
const CIVS: &str = "id,name\n1,Britons\n2,Franks\n";

fn decoded(commands: Vec<DecodedCommand>) -> DecodedGame {
    DecodedGame {
        timestamp: 0,
        players: vec![PlayerSetup { name: "Alice".to_string(), ai_name: String::new(), civ_id: 2, player_type: 2 }],
        rec_player: 1,
        commands,
    }
}

#[test]
fn positions_are_listed_in_command_order() {
    let g = decoded(vec![
        DecodedCommand::InteractAt { target_id: 5, x_bits: 1, y_bits: 2 },
        DecodedCommand::Ready(GameCommand::Sync { time_increment: 10 }),
        DecodedCommand::InteractAt { target_id: 6, x_bits: 3, y_bits: 4 },
    ]);
    assert_eq!(interaction_positions(&g), vec![(1u64 << 32) + 2, (3u64 << 32) + 4]);
}

#[test]
fn decoded_game_is_placed_and_walked() {
    let tables = load_reference_tables(UNITS, TECHS, BUILDINGS, CIVS).unwrap();
    let g = decoded(vec![
        DecodedCommand::Ready(GameCommand::Sync { time_increment: 2000 }),
        DecodedCommand::Ready(GameCommand::Build { player_id: 1, building_type_id: 70, x_bits: 0, y_bits: 0, grid_x: 100, grid_y: 200 }),
        DecodedCommand::InteractAt { target_id: 777, x_bits: 9, y_bits: 8 },
        DecodedCommand::Ready(GameCommand::Delete { player_id: 1, object_id: 777 }),
    ]);
    let mut cells = HashMap::new();
    cells.insert((9u64 << 32) + 8, (100, 200));
    let data = extract_decoded(g.clone(), &cells, &tables).unwrap();
    assert_eq!(data.summary.duration_ms, 2000);
    assert_eq!(data.summary.duration_formatted, "00:02.000");
    match data.events.last().unwrap() {
        ReplayEvent::Deletion { object_name, .. } => assert_eq!(object_name, "House"),
        e => panic!("unexpected event {:?}", e),
    }
    // Without the interaction's cell there is nothing to walk.
    assert!(extract_decoded(g, &HashMap::new(), &tables).is_none());
}

#[test]
fn decoded_game_out_of_range_is_refused() {
    let tables = load_reference_tables(UNITS, TECHS, BUILDINGS, CIVS).unwrap();
    let g = decoded(vec![
        DecodedCommand::Ready(GameCommand::Sync { time_increment: u32::MAX }),
        DecodedCommand::Ready(GameCommand::Sync { time_increment: 1 }),
    ]);
    assert!(extract_decoded(g, &HashMap::new(), &tables).is_none());
}
