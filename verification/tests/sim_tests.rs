use lib::grid::Vec2Integer;
use lib::sim::{apply_sim_type_change, cycle_step, try_apply_sim_type_change, find_type_index, CycleAction, CycleState, Menus, SimType};
use lib::structure::{PixelStructure, PixelStructureRef, StructureError};

fn cell(pixel: u32, connections: Vec<usize>) -> Option<PixelStructureRef<u32>> {
    Some(PixelStructureRef { pixel, connections, connected_to_root: false })
}

#[test]
fn pending_nothing_changes_nothing() {
    let mut sim = SimType::Dust;
    let mut change = SimType::Nothing;
    let mut structures: Vec<PixelStructure<u32>> = Vec::new();
    apply_sim_type_change(&mut sim, &mut change, &mut structures);
    assert_eq!(sim, SimType::Dust);
    assert_eq!(change, SimType::Nothing);
}

#[test]
fn pending_change_is_applied_and_cleared() {
    let mut sim = SimType::Dust;
    let mut change = SimType::Fluid;
    let mut structures: Vec<PixelStructure<u32>> = Vec::new();
    apply_sim_type_change(&mut sim, &mut change, &mut structures);
    assert_eq!(sim, SimType::Fluid);
    assert_eq!(change, SimType::Nothing);
    let mut change = SimType::Solid(None);
    apply_sim_type_change(&mut sim, &mut change, &mut structures);
    assert_eq!(sim, SimType::Solid(None));
}

#[test]
fn solid_change_removes_pixel_from_structure() {
    let size = Vec2Integer { x: 1, y: 1 };
    let mut structures: Vec<PixelStructure<u32>> = Vec::new();
    let mut pixels = vec![None, cell(1, vec![]), cell(2, vec![])];
    pixels[2].as_mut().unwrap().connected_to_root = true;
    PixelStructure::new(size, pixels, &mut structures);
    assert_eq!(structures.len(), 1);
    let mut sim = SimType::Dust;
    let mut change = SimType::Solid(Some((0, 2)));
    apply_sim_type_change(&mut sim, &mut change, &mut structures);
    assert_eq!(sim, SimType::Solid(Some((0, 2))));
    assert_eq!(change, SimType::Nothing);
    assert!(structures[0].pixels[2].is_none());
    assert!(structures[0].pixels[1].is_some());
    assert_eq!(structures.len(), 1);
}

#[test]
fn removing_root_pixel_is_a_false_connection() {
    let size = Vec2Integer { x: 1, y: 1 };
    let mut structures: Vec<PixelStructure<u32>> = Vec::new();
    let pixels = vec![None, cell(1, vec![]), cell(2, vec![])];
    PixelStructure::new(size, pixels, &mut structures);
    assert_eq!(structures.len(), 2);
    let mut sim = SimType::Fluid;
    let mut change = SimType::Solid(Some((1, 1)));
    assert_eq!(try_apply_sim_type_change(&mut sim, &mut change, &mut structures), Err(StructureError::FalseConnection));
    assert_eq!(sim, SimType::Fluid);
}

#[test]
fn solid_change_stops_on_false_connection() {
    let size = Vec2Integer { x: 1, y: 1 };
    let mut structures: Vec<PixelStructure<u32>> = Vec::new();
    let pixels = vec![None, cell(1, vec![2]), cell(2, vec![])];
    PixelStructure::new(size, pixels, &mut structures);
    let mut sim = SimType::Dust;
    let mut change = SimType::Solid(Some((0, 2)));
    assert_eq!(try_apply_sim_type_change(&mut sim, &mut change, &mut structures), Err(StructureError::FalseConnection));
    assert_eq!(sim, SimType::Dust);
    assert_eq!(change, SimType::Solid(Some((0, 2))));
}

#[test]
fn type_index_is_last_match() {
    assert_eq!(find_type_index(&[3, 5, 3, 7], 3), Some(2));
    assert_eq!(find_type_index(&[3, 5, 3, 7], 7), Some(3));
    assert_eq!(find_type_index(&[3, 5, 3, 7], 4), None);
    assert_eq!(find_type_index(&[], 4), None);
}

#[test]
fn main_menu_runs_eight_rounds() {
    let mut state = CycleState { gamestate: Menus::MainMenu, loop_num: 0, in_game: false };
    let mut rounds = 0;
    loop {
        match cycle_step(&mut state) {
            CycleAction::RunSystems { last_round } => {
                rounds += 1;
                if last_round {
                    break;
                }
            }
            other => panic!("unexpected action {:?}", other),
        }
    }
    assert_eq!(rounds, 8);
    assert_eq!(state.loop_num, 8);
}

#[test]
fn quit_and_other_screens() {
    let mut state = CycleState { gamestate: Menus::Quit, loop_num: 3, in_game: false };
    assert_eq!(cycle_step(&mut state), CycleAction::Quit);
    assert_eq!(state.loop_num, 3);
    let mut state = CycleState { gamestate: Menus::InGame, loop_num: 0, in_game: false };
    assert_eq!(cycle_step(&mut state), CycleAction::Wait);
    assert!(state.in_game);
    let mut state = CycleState { gamestate: Menus::SaveSelector, loop_num: 0, in_game: false };
    assert_eq!(cycle_step(&mut state), CycleAction::Wait);
    assert!(!state.in_game);
}

#[test]
fn open_window_does_nothing() {
    lib::open_window();
}

#[test]
fn reporting_form_applies_like_plain_form() {
    let mut sim = SimType::Dust;
    let mut change = SimType::Fluid;
    let mut structures: Vec<PixelStructure<u32>> = Vec::new();
    assert_eq!(try_apply_sim_type_change(&mut sim, &mut change, &mut structures), Ok(()));
    assert_eq!(sim, SimType::Fluid);
    assert_eq!(change, SimType::Nothing);
}
