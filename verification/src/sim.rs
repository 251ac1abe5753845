//! The decisions of the main loop and of a frame's final pass that do not
//! involve physics.
use vstd::prelude::*;
use crate::structure::{
    PixelStructure, StructureError, StructureView, checked, views_of, after_failed_check, after_removal,
    try_remove_pixel,
};

verus! {

/// How a pixel is simulated. A solid pixel may belong to a structure: the
/// structure's index in the list and the pixel's slot in it.
#[derive(Clone, Copy, PartialEq, Eq, Debug)]
pub enum SimType {
    Dust,
    Fluid,
    Solid(Option<(usize, usize)>),
    Nothing,
}

/// The structure list after the pixel at `slot` of structure `index` has
/// been removed and the structure checked again, as [`try_remove_pixel`] does,
/// and what the check gave.
pub open spec fn list_after_removal<P>(
    list: Seq<StructureView<P>>,
    index: int,
    slot: int,
) -> (Seq<StructureView<P>>, Result<(), StructureError>) {
    let s = list[index];
    let g = s.0.update(slot, None);
    let c = checked(g, s.1 as int, s.2);
    if c is Ok {
        (list.update(index, (c->Ok_0.0, s.1, s.2)) + c->Ok_0.1, Ok(()))
    } else {
        (list.update(index, (after_failed_check(g, s.1 as int), s.1, s.2)), Err(c->Err_0))
    }
}

/// Applies a pending change of simulation type. A pending `Nothing` changes
/// nothing. Any other change replaces the pixel's type; when the change
/// names a place in a structure, that pixel is first removed from the
/// structure (see [`try_remove_pixel`]), and a check there that cannot complete
/// stops the change. The pending change is cleared when it was applied.
pub fn try_apply_sim_type_change<P>(
    sim_type: &mut SimType,
    change: &mut SimType,
    structures: &mut Vec<PixelStructure<P>>,
) -> (r: Result<(), StructureError>)
    requires
        *old(change) matches SimType::Solid(Some(place)) ==> place.0 < old(structures)@.len()
            && place.1 < old(structures)@[place.0 as int].pixels@.len(),
    ensures
        *old(change) == SimType::Nothing ==> r is Ok && *final(sim_type) == *old(sim_type) && *final(change)
            == SimType::Nothing && final(structures)@ == old(structures)@,
        (*old(change) == SimType::Dust || *old(change) == SimType::Fluid || *old(change) == SimType::Solid(
            Option::None,
        )) ==> r is Ok && *final(sim_type) == *old(change) && *final(change) == SimType::Nothing
            && final(structures)@ == old(structures)@,
        *old(change) matches SimType::Solid(Some(place)) ==> {
            let after = list_after_removal(views_of(old(structures)@), place.0 as int, place.1 as int);
            &&& views_of(final(structures)@) == after.0
            &&& r == after.1
            &&& r is Ok ==> *final(sim_type) == *old(change) && *final(change) == SimType::Nothing
            &&& r is Err ==> *final(sim_type) == *old(sim_type) && *final(change) == *old(change)
        },
{
    match *change {
        SimType::Nothing => {},
        _ => {
            match *change {
                SimType::Solid(pos) => {
                    if let Some(x) = pos {
                        let result = try_remove_pixel(structures, x.0, x.1);
                        match result {
                            Ok(()) => {},
                            Err(e) => {
                                return Err(e);
                            },
                        }
                    }
                },
                _ => {},
            }
            *sim_type = *change;
        },
    }
    *change = SimType::Nothing;
    Ok(())
}

/// Applies a pending change of simulation type. A pending `Nothing` changes
/// nothing. Any other change replaces the pixel's type; when the change
/// names a place in a structure, that pixel is first removed from the
/// structure (see [`crate::structure::remove_pixel`]), where every check
/// must complete (see [`try_apply_sim_type_change`] for the form that
/// reports one that cannot). The pending change is then cleared.
pub fn apply_sim_type_change<P>(
    sim_type: &mut SimType,
    change: &mut SimType,
    structures: &mut Vec<PixelStructure<P>>,
)
    requires
        *old(change) matches SimType::Solid(Some(place)) ==> place.0 < old(structures)@.len()
            && place.1 < old(structures)@[place.0 as int].pixels@.len()
            && after_removal(views_of(old(structures)@), place.0 as int, place.1 as int) is Some,
    ensures
        *old(change) == SimType::Nothing ==> *final(sim_type) == *old(sim_type) && *final(change)
            == SimType::Nothing && final(structures)@ == old(structures)@,
        *old(change) != SimType::Nothing ==> *final(sim_type) == *old(change) && *final(change) == SimType::Nothing,
        (*old(change) == SimType::Dust || *old(change) == SimType::Fluid || *old(change) == SimType::Solid(
            Option::None,
        )) ==> final(structures)@ == old(structures)@,
        *old(change) matches SimType::Solid(Some(place)) ==> views_of(final(structures)@) == after_removal(
            views_of(old(structures)@),
            place.0 as int,
            place.1 as int,
        )->Some_0,
{
    let _applied = try_apply_sim_type_change(sim_type, change, structures);
}

/// Where a pixel type with id `id` already stands among `type_ids`: the
/// last such index, or `None` when there is none.
pub fn find_type_index(type_ids: &[usize], id: usize) -> (r: Option<usize>)
    ensures
        r is None ==> forall|j: int| 0 <= j < type_ids@.len() ==> type_ids@[j] != id,
        r matches Some(k) ==> k < type_ids@.len() && type_ids@[k as int] == id && forall|j: int|
            k < j < type_ids@.len() ==> type_ids@[j] != id,
{
    let mut found: Option<usize> = None;
    let n = type_ids.len();
    for i in 0..n
        invariant
            n == type_ids@.len(),
            found is None ==> forall|j: int| 0 <= j < i ==> type_ids@[j] != id,
            found matches Some(k) ==> k < i && type_ids@[k as int] == id && forall|j: int|
                k < j < i ==> type_ids@[j] != id,
    {
        if type_ids[i] == id {
            found = Some(i);
        }
    }
    found
}

/// The screens of the game.
#[derive(Clone, Copy, PartialEq, Eq, Structural, Debug)]
pub enum Menus {
    MainMenu,
    SaveSelector,
    Quit,
    InGame,
}

/// What the main loop does after a step.
#[derive(Clone, Copy, PartialEq, Eq, Structural, Debug)]
pub enum CycleAction {
    /// Say that the player has quit, and leave the loop.
    Quit,
    /// Run one round of the systems; leave the loop afterwards when
    /// `last_round` is set.
    RunSystems { last_round: bool },
    /// Nothing to do this step.
    Wait,
}

/// The state the main loop keeps between steps.
#[derive(Clone, Copy, PartialEq, Eq, Structural, Debug)]
pub struct CycleState {
    pub gamestate: Menus,
    pub loop_num: i32,
    pub in_game: bool,
}

/// Number of rounds the systems run in the main menu before the loop stops.
pub const MAIN_MENU_ROUNDS: i32 = 8;

/// One step of the main loop: the state after it and the action to take.
pub open spec fn step_of(s: CycleState) -> (CycleState, CycleAction) {
    match s.gamestate {
        Menus::Quit => (s, CycleAction::Quit),
        Menus::MainMenu => {
            let n = (s.loop_num + 1) as i32;
            (CycleState { loop_num: n, ..s }, CycleAction::RunSystems { last_round: n >= MAIN_MENU_ROUNDS })
        },
        Menus::InGame => (CycleState { in_game: true, ..s }, CycleAction::Wait),
        Menus::SaveSelector => (s, CycleAction::Wait),
    }
}

/// Decides one step of the main loop from the current screen.
pub fn cycle_step(state: &mut CycleState) -> (action: CycleAction)
    requires
        old(state).gamestate == Menus::MainMenu ==> old(state).loop_num < i32::MAX,
    ensures
        (*final(state), action) == step_of(*old(state)),
        final(state).gamestate == old(state).gamestate,
        old(state).gamestate != Menus::MainMenu ==> final(state).loop_num == old(state).loop_num,
        old(state).gamestate == Menus::MainMenu ==> final(state).loop_num == old(state).loop_num + 1,
        old(state).gamestate == Menus::InGame ==> final(state).in_game && action == CycleAction::Wait,
        old(state).gamestate != Menus::InGame ==> final(state).in_game == old(state).in_game,
{
    match state.gamestate {
        Menus::Quit => CycleAction::Quit,
        Menus::MainMenu => {
            state.loop_num = state.loop_num + 1;
            CycleAction::RunSystems { last_round: state.loop_num >= MAIN_MENU_ROUNDS }
        },
        Menus::InGame => {
            state.in_game = true;
            CycleAction::Wait
        },
        _ => CycleAction::Wait,
    }
}

/// The loop's state after `k` steps from `s`.
pub open spec fn state_after(s: CycleState, k: nat) -> CycleState
    decreases k,
{
    if k == 0 {
        s
    } else {
        step_of(state_after(s, (k - 1) as nat)).0
    }
}

proof fn lemma_main_menu_count(s: CycleState, k: nat)
    requires
        s.gamestate == Menus::MainMenu,
        s.loop_num == 0,
        k <= MAIN_MENU_ROUNDS,
    ensures
        state_after(s, k).gamestate == Menus::MainMenu,
        state_after(s, k).loop_num == k,
    decreases k,
{
    if k > 0 {
        lemma_main_menu_count(s, (k - 1) as nat);
    }
}

/// From the main menu with a fresh counter, the loop runs the systems
/// exactly eight times: the first seven rounds go on, the eighth is the last.
pub proof fn lemma_main_menu_runs_eight_rounds(s: CycleState, k: nat)
    requires
        s.gamestate == Menus::MainMenu,
        s.loop_num == 0,
        k < MAIN_MENU_ROUNDS,
    ensures
        step_of(state_after(s, k)).1 == (CycleAction::RunSystems { last_round: k == MAIN_MENU_ROUNDS - 1 }),
{
    lemma_main_menu_count(s, k);
}

/// A step never changes the screen; only the main menu's step changes the
/// counter, raising it by one; the in-game step only sets `in_game` and
/// waits; the quit and save-selector steps change nothing.
pub proof fn lemma_step_keeps_screen(s: CycleState)
    requires
        s.gamestate == Menus::MainMenu ==> s.loop_num < i32::MAX,
    ensures
        step_of(s).0.gamestate == s.gamestate,
        s.gamestate == Menus::MainMenu ==> step_of(s).0.loop_num == s.loop_num + 1 && step_of(s).0.in_game
            == s.in_game,
        s.gamestate == Menus::InGame ==> step_of(s).0.loop_num == s.loop_num && step_of(s).0.in_game
            && step_of(s).1 == CycleAction::Wait,
        (s.gamestate == Menus::Quit || s.gamestate == Menus::SaveSelector) ==> step_of(s).0 == s,
        s.gamestate == Menus::Quit <==> step_of(s).1 == CycleAction::Quit,
{
}

} // verus!
