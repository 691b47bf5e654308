//! A recorded game as its decoder gives it: the commands the library reads, with
//! interactions still positioned by `f32` bit patterns. Each position gets its grid cell
//! from the cells handed in (the tenth-of-tile grid is computed in floating point
//! elsewhere), and the placed game is walked by `extract_events`.
use vstd::prelude::*;
use std::collections::HashMap;
use crate::extract::{commands_fit, extract_events, extraction_matches, ReferenceTables, ReplayData};
use crate::replay::{
    commands_view, setups_view, CommandView, GameCommand, GameView, InitialObject, PlayerSetup,
    PlayerSetupView, RecordedGame,
};

verus! {

broadcast use vstd::std_specs::hash::group_hash_axioms;

/// A command as decoded: finished, or an interaction whose position is still a pair of
/// `f32` bit patterns.
#[derive(Debug, Clone)]
pub enum DecodedCommand {
    Ready(GameCommand),
    InteractAt { target_id: u32, x_bits: u32, y_bits: u32 },
}

pub enum DecodedCommandView {
    Ready(CommandView),
    InteractAt { target_id: u32, x_bits: u32, y_bits: u32 },
}

impl View for DecodedCommand {
    type V = DecodedCommandView;

    open spec fn view(&self) -> DecodedCommandView {
        match self {
            DecodedCommand::Ready(c) => DecodedCommandView::Ready(c@),
            DecodedCommand::InteractAt { target_id, x_bits, y_bits } => DecodedCommandView::InteractAt {
                target_id: *target_id,
                x_bits: *x_bits,
                y_bits: *y_bits,
            },
        }
    }
}

/// What the replay decoder gives of a recorded game: its start time, player slots, recording
/// player and command stream.
#[derive(Debug, Clone)]
pub struct DecodedGame {
    pub timestamp: i32,
    pub players: Vec<PlayerSetup>,
    pub rec_player: u16,
    pub commands: Vec<DecodedCommand>,
}

pub struct DecodedView {
    pub timestamp: i32,
    pub players: Seq<PlayerSetupView>,
    pub rec_player: u16,
    pub commands: Seq<DecodedCommandView>,
}

impl View for DecodedGame {
    type V = DecodedView;

    open spec fn view(&self) -> DecodedView {
        DecodedView {
            timestamp: self.timestamp,
            players: setups_view(self.players@),
            rec_player: self.rec_player,
            commands: self.commands@.map_values(|c: DecodedCommand| c@),
        }
    }
}

/// A position's two `f32` bit patterns as one number: `x` in the high half.
pub open spec fn position_code(x_bits: u32, y_bits: u32) -> u64 {
    (x_bits as int * 0x1_0000_0000 + y_bits as int) as u64
}

fn position_code_of(x_bits: u32, y_bits: u32) -> (c: u64)
    ensures
        c == position_code(x_bits, y_bits),
{
    x_bits as u64 * 0x1_0000_0000 + y_bits as u64
}

/// The positions of the interactions, in command order.
pub open spec fn positions_spec(cmds: Seq<DecodedCommandView>) -> Seq<u64>
    decreases cmds.len(),
{
    if cmds.len() == 0 {
        Seq::empty()
    } else {
        let rest = positions_spec(cmds.drop_last());
        match cmds.last() {
            DecodedCommandView::InteractAt { x_bits, y_bits, .. } => rest.push(position_code(x_bits, y_bits)),
            DecodedCommandView::Ready(_) => rest,
        }
    }
}

/// The positions (see `position_code`) whose grid cells the game needs.
pub fn interaction_positions(g: &DecodedGame) -> (p: Vec<u64>)
    ensures
        p@ == positions_spec(g@.commands),
{
    let mut out: Vec<u64> = Vec::new();
    let mut i: usize = 0;
    while i < g.commands.len()
        invariant
            i <= g.commands@.len(),
            out@ == positions_spec(g@.commands.take(i as int)),
        decreases g.commands@.len() - i,
    {
        assert(g@.commands.take(i + 1).drop_last() =~= g@.commands.take(i as int));
        match &g.commands[i] {
            DecodedCommand::InteractAt { x_bits, y_bits, .. } => out.push(position_code_of(*x_bits, *y_bits)),
            DecodedCommand::Ready(_) => {},
        }
        i = i + 1;
    }
    assert(g@.commands.take(g@.commands.len() as int) =~= g@.commands);
    out
}

/// The commands with every interaction placed at the cell of its position; `None` where a
/// position has no cell.
pub open spec fn located_spec(cmds: Seq<DecodedCommandView>, cells: Map<u64, (i32, i32)>) -> Option<Seq<CommandView>>
    decreases cmds.len(),
{
    if cmds.len() == 0 {
        Some(Seq::empty())
    } else {
        match located_spec(cmds.drop_last(), cells) {
            None => None,
            Some(rest) => match cmds.last() {
                DecodedCommandView::Ready(c) => Some(rest.push(c)),
                DecodedCommandView::InteractAt { target_id, x_bits, y_bits } => {
                    let k = position_code(x_bits, y_bits);
                    if cells.contains_key(k) {
                        Some(rest.push(CommandView::Interact { target_id, grid_x: cells[k].0, grid_y: cells[k].1 }))
                    } else {
                        None
                    }
                },
            },
        }
    }
}

/// The recorded game of a decoded one: the same start, players and recording player, no
/// starting objects, and the commands placed (see `located_spec`).
pub open spec fn located_game(d: DecodedView, cells: Map<u64, (i32, i32)>) -> Option<GameView> {
    match located_spec(d.commands, cells) {
        Some(cmds) => Some(GameView {
            timestamp: d.timestamp,
            players: d.players,
            rec_player: d.rec_player,
            initial_objects: Seq::<InitialObject>::empty(),
            commands: cmds,
        }),
        None => None,
    }
}

#[verifier::loop_isolation(false)]
fn locate(g: DecodedGame, cells: &HashMap<u64, (i32, i32)>) -> (r: Option<RecordedGame>)
    ensures
        match located_game(g@, cells@) {
            Some(v) => r matches Some(rg) && rg@ == v,
            None => r is None,
        },
{
    let ghost gv = g@;
    let DecodedGame { timestamp, players, rec_player, commands } = g;
    let mut rev = commands;
    let mut stack: Vec<DecodedCommand> = Vec::new();
    // Reverse the stream so that popping yields the commands in order.
    while rev.len() > 0
        invariant
            rev@.map_values(|c: DecodedCommand| c@) + stack@.reverse().map_values(|c: DecodedCommand| c@) == gv.commands,
        decreases rev@.len(),
    {
        let ghost before_rev = rev@;
        let ghost before_stack = stack@;
        let c = rev.pop().unwrap();
        stack.push(c);
        proof {
            assert(stack@.reverse() =~= seq![c].add(before_stack.reverse()));
            assert(before_rev =~= rev@.push(c));
            assert(rev@.map_values(|c: DecodedCommand| c@) + stack@.reverse().map_values(|c: DecodedCommand| c@)
                =~= before_rev.map_values(|c: DecodedCommand| c@) + before_stack.reverse().map_values(|c: DecodedCommand| c@));
        }
    }
    assert(rev@.map_values(|c: DecodedCommand| c@) =~= Seq::<DecodedCommandView>::empty());
    let mut out: Vec<GameCommand> = Vec::new();
    let ghost mut done: int = 0;
    while stack.len() > 0
        invariant
            0 <= done <= gv.commands.len(),
            stack@.reverse().map_values(|c: DecodedCommand| c@) == gv.commands.skip(done),
            located_spec(gv.commands.take(done), cells@) == Some(commands_view(out@)),
        decreases stack@.len(),
    {
        let ghost before_stack = stack@;
        let c = stack.pop().unwrap();
        proof {
            assert(before_stack =~= stack@.push(c));
            assert(before_stack.reverse() =~= seq![c].add(stack@.reverse()));
            let whole = before_stack.reverse().map_values(|c: DecodedCommand| c@);
            assert(whole.len() == before_stack.len());
            assert(whole.len() == gv.commands.len() - done);
            assert(done < gv.commands.len());
            assert(whole =~= seq![c@].add(stack@.reverse().map_values(|c: DecodedCommand| c@)));
            assert(gv.commands.skip(done)[0] == c@);
            assert(gv.commands[done] == c@);
            assert(stack@.reverse().map_values(|c: DecodedCommand| c@) =~= whole.skip(1));
            assert(whole.skip(1) =~= gv.commands.skip(done + 1));
            assert(gv.commands.take(done + 1).drop_last() =~= gv.commands.take(done));
            assert(gv.commands.take(done + 1).last() == c@);
        }
        let ghost old_out = out@;
        match c {
            DecodedCommand::Ready(cmd) => {
                out.push(cmd);
            },
            DecodedCommand::InteractAt { target_id, x_bits, y_bits } => {
                match cells.get(&position_code_of(x_bits, y_bits)) {
                    Some(cell) => {
                        out.push(GameCommand::Interact { target_id, grid_x: cell.0, grid_y: cell.1 });
                    },
                    None => {
                        proof {
                            assert(located_spec(gv.commands.take(done + 1), cells@) is None);
                            assert forall|k: int| done + 1 <= k <= gv.commands.len() implies #[trigger]
                                located_spec(gv.commands.take(k), cells@) is None by {
                                lemma_located_stays_none(gv.commands, cells@, done + 1, k);
                            }
                            let n = gv.commands.len() as int;
                            assert(located_spec(gv.commands.take(n), cells@) is None);
                            assert(gv.commands.take(n) =~= gv.commands);
                            assert(located_spec(gv.commands, cells@) is None);
                            assert(located_game(gv, cells@) is None);
                        }
                        return None;
                    },
                }
            },
        }
        proof {
            assert(commands_view(out@) =~= commands_view(old_out).push(commands_view(out@).last()));
            done = done + 1;
        }
    }
    proof {
        assert(stack@.reverse().map_values(|c: DecodedCommand| c@) =~= Seq::<DecodedCommandView>::empty());
        assert(done == gv.commands.len());
        assert(gv.commands.take(done) =~= gv.commands);
    }
    let initial_objects: Vec<InitialObject> = Vec::new();
    let rg = RecordedGame { timestamp, players, rec_player, initial_objects, commands: out };
    assert(rg@.initial_objects =~= Seq::<InitialObject>::empty());
    Some(rg)
}

proof fn lemma_located_stays_none(cmds: Seq<DecodedCommandView>, cells: Map<u64, (i32, i32)>, a: int, b: int)
    requires
        0 <= a <= b <= cmds.len(),
        located_spec(cmds.take(a), cells) is None,
    ensures
        located_spec(cmds.take(b), cells) is None,
    decreases b - a,
{
    if b > a {
        lemma_located_stays_none(cmds, cells, a, b - 1);
        assert(cmds.take(b).drop_last() =~= cmds.take(b - 1));
    }
}

/// The events and summary of a decoded game whose interactions are placed at `cells`:
/// `None` where a position has no cell or the commands leave the library's number ranges
/// (see `commands_fit`); otherwise what `extract_events` gives for the placed game.
pub fn extract_decoded(g: DecodedGame, cells: &HashMap<u64, (i32, i32)>, tables: &ReferenceTables) -> (r: Option<ReplayData>)
    ensures
        located_game(g@, cells@) is None ==> r is None,
        r matches Some(d) ==> exists|rg: RecordedGame|
            #![trigger rg@]
            Some(rg@) == located_game(g@, cells@) && commands_fit(rg.commands@, tables@) && extraction_matches(rg, tables@, d),
        located_game(g@, cells@) is Some && r is None ==> exists|rg: RecordedGame|
            #![trigger rg@]
            Some(rg@) == located_game(g@, cells@) && !commands_fit(rg.commands@, tables@),
{
    let rg = match locate(g, cells) {
        Some(rg) => rg,
        None => {
            return None;
        },
    };
    if !crate::extract::commands_fit_exec(&rg.commands, tables) {
        return None;
    }
    let d = extract_events(&rg, tables);
    Some(d)
}

} // verus!
