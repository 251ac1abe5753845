use lib::grid::Vec2Integer;
use lib::structure::{
    detach_unconnected, find_root, mark_connected, remove_pixel, try_mark_connected, try_remove_pixel,
    PixelStructure, PixelStructureRef, StructureError,
};

fn cell(pixel: u32, connections: Vec<usize>) -> Option<PixelStructureRef<u32>> {
    Some(PixelStructureRef { pixel, connections, connected_to_root: false })
}

fn size() -> Vec2Integer {
    Vec2Integer { x: 2, y: 2 }
}

fn pixels_of(slots: &Vec<Option<PixelStructureRef<u32>>>) -> Vec<Option<u32>> {
    slots.iter().map(|s| s.as_ref().map(|c| c.pixel)).collect()
}

#[test]
fn root_is_first_pixel_after_slot_zero() {
    let slots = vec![cell(1, vec![]), None, cell(2, vec![]), cell(3, vec![])];
    assert_eq!(find_root(&slots), 2);
    let only_zero = vec![cell(1, vec![]), None];
    assert_eq!(find_root(&only_zero), 0);
    let empty: Vec<Option<PixelStructureRef<u32>>> = vec![];
    assert_eq!(find_root(&empty), 0);
}

#[test]
fn marking_follows_connections() {
    let mut slots = vec![None, cell(1, vec![2, 3]), cell(2, vec![3]), cell(3, vec![]), cell(4, vec![1])];
    mark_connected(&mut slots, 1);
    let marks: Vec<bool> = slots.iter().map(|s| s.as_ref().map_or(false, |c| c.connected_to_root)).collect();
    assert_eq!(marks, vec![false, true, true, true, false]);
}

#[test]
fn reachable_cycle_is_endless() {
    let mut slots = vec![None, cell(1, vec![2]), cell(2, vec![1, 3]), cell(3, vec![]), cell(4, vec![1])];
    assert_eq!(try_mark_connected(&mut slots, 1), Err(StructureError::EndlessConnection));
    assert!(slots.iter().flatten().all(|c| !c.connected_to_root));
}

#[test]
fn root_connected_to_itself_is_endless() {
    let mut slots = vec![None, cell(1, vec![1])];
    assert_eq!(try_mark_connected(&mut slots, 1), Err(StructureError::EndlessConnection));
}

#[test]
fn unreachable_cycle_is_fine() {
    let mut slots = vec![None, cell(1, vec![]), cell(2, vec![3]), cell(3, vec![2])];
    mark_connected(&mut slots, 1);
    let marks: Vec<bool> = slots.iter().map(|s| s.as_ref().map_or(false, |c| c.connected_to_root)).collect();
    assert_eq!(marks, vec![false, true, false, false]);
}

#[test]
fn false_connection_wins_over_cycle() {
    let mut slots = vec![None, cell(1, vec![1, 5])];
    assert_eq!(try_mark_connected(&mut slots, 1), Err(StructureError::FalseConnection));
}

#[test]
fn structure_with_cycle_adds_nothing() {
    let pixels = vec![None, cell(1, vec![2]), cell(2, vec![1])];
    let mut structures: Vec<PixelStructure<u32>> = Vec::new();
    assert_eq!(PixelStructure::try_new(size(), pixels, &mut structures), Err(StructureError::EndlessConnection));
    assert!(structures.is_empty());
}

#[test]
fn broken_away_part_with_cycle_fails_whole() {
    let pixels = vec![None, cell(1, vec![]), cell(2, vec![1])];
    let mut structures: Vec<PixelStructure<u32>> = Vec::new();
    assert_eq!(PixelStructure::try_new(size(), pixels, &mut structures), Err(StructureError::EndlessConnection));
    assert!(structures.is_empty());
}

#[test]
fn marking_keeps_earlier_marks() {
    let mut slots = vec![None, cell(1, vec![]), cell(2, vec![])];
    slots[2].as_mut().unwrap().connected_to_root = true;
    mark_connected(&mut slots, 1);
    assert!(slots[2].as_ref().unwrap().connected_to_root);
}

#[test]
fn connection_to_empty_slot_is_false() {
    let mut slots = vec![None, cell(1, vec![0])];
    assert_eq!(try_mark_connected(&mut slots, 1), Err(StructureError::FalseConnection));
    assert!(!slots[1].as_ref().unwrap().connected_to_root);
}

#[test]
fn connection_past_the_end_is_false() {
    let mut slots = vec![None, cell(1, vec![2]), cell(2, vec![9])];
    assert_eq!(try_mark_connected(&mut slots, 1), Err(StructureError::FalseConnection));
}

#[test]
fn empty_root_is_false() {
    let mut slots = vec![None, cell(1, vec![])];
    assert_eq!(try_mark_connected(&mut slots, 0), Err(StructureError::FalseConnection));
    assert_eq!(try_mark_connected(&mut slots, 5), Err(StructureError::FalseConnection));
}

#[test]
fn detaching_moves_loose_pixels_and_keeps_empty_slots() {
    let mut slots = vec![None, cell(1, vec![]), cell(2, vec![]), None, cell(4, vec![])];
    slots[1].as_mut().unwrap().connected_to_root = true;
    let (loose, any) = detach_unconnected(&mut slots);
    assert!(any);
    assert_eq!(pixels_of(&loose), vec![None, Some(2), None, Some(4)]);
    assert_eq!(pixels_of(&slots), vec![None, Some(1), None, None, None]);
}

#[test]
fn detaching_nothing_loose() {
    let mut slots = vec![None, cell(1, vec![])];
    slots[1].as_mut().unwrap().connected_to_root = true;
    let (loose, any) = detach_unconnected(&mut slots);
    assert!(!any);
    assert_eq!(pixels_of(&loose), vec![None]);
}

#[test]
fn structure_splits_off_unreachable_pixels() {
    let pixels = vec![None, cell(1, vec![2]), cell(2, vec![]), cell(3, vec![])];
    let mut structures: Vec<PixelStructure<u32>> = Vec::new();
    PixelStructure::new(size(), pixels, &mut structures);
    assert_eq!(structures.len(), 2);
    assert_eq!(pixels_of(&structures[0].pixels), vec![None, Some(3)]);
    assert_eq!(structures[0].root, 1);
    assert_eq!(pixels_of(&structures[1].pixels), vec![None, Some(1), Some(2), None]);
    assert_eq!(structures[1].root, 1);
    assert!(structures[1].size == size());
    for s in &structures {
        for c in s.pixels.iter().flatten() {
            assert!(c.connected_to_root);
        }
    }
}

#[test]
fn structure_without_root_adds_nothing() {
    let pixels = vec![cell(1, vec![]), None];
    let mut structures: Vec<PixelStructure<u32>> = Vec::new();
    PixelStructure::new(size(), pixels, &mut structures);
    assert!(structures.is_empty());
}

#[test]
fn structure_with_false_connection_adds_nothing() {
    let pixels = vec![None, cell(1, vec![4])];
    let mut structures: Vec<PixelStructure<u32>> = Vec::new();
    assert_eq!(PixelStructure::try_new(size(), pixels, &mut structures), Err(StructureError::FalseConnection));
    assert!(structures.is_empty());
}

#[test]
fn broken_away_part_with_false_connection_fails_whole() {
    let pixels = vec![None, cell(1, vec![]), cell(2, vec![7])];
    let mut structures: Vec<PixelStructure<u32>> = Vec::new();
    assert_eq!(PixelStructure::try_new(size(), pixels, &mut structures), Err(StructureError::FalseConnection));
    assert!(structures.is_empty());
}

#[test]
fn pixels_are_conserved_by_a_split() {
    let pixels = vec![None, cell(1, vec![]), cell(2, vec![]), cell(3, vec![]), cell(4, vec![])];
    let mut structures: Vec<PixelStructure<u32>> = Vec::new();
    PixelStructure::new(size(), pixels, &mut structures);
    let total: usize = structures.iter().map(|s| s.pixels.iter().flatten().count()).sum();
    assert_eq!(total, 4);
    assert_eq!(structures.len(), 4);
    assert_eq!(pixels_of(&structures[3].pixels), vec![None, Some(1), None, None, None]);
}

#[test]
fn removing_a_pixel_rechecks_its_structure() {
    let pixels = vec![None, cell(1, vec![2]), cell(2, vec![3]), cell(3, vec![])];
    let mut structures: Vec<PixelStructure<u32>> = Vec::new();
    PixelStructure::new(size(), pixels, &mut structures);
    assert_eq!(structures.len(), 1);
    structures[0].pixels[3].as_mut().unwrap().connections = vec![];
    structures[0].pixels[2].as_mut().unwrap().connections = vec![];
    structures[0].pixels[1].as_mut().unwrap().connections = vec![];
    structures[0].pixels[3].as_mut().unwrap().connected_to_root = false;
    remove_pixel(&mut structures, 0, 2);
    assert_eq!(structures.len(), 2);
    assert_eq!(pixels_of(&structures[0].pixels), vec![None, Some(1), None, None]);
    assert_eq!(pixels_of(&structures[1].pixels), vec![None, None, Some(3)]);
    assert_eq!(structures[1].root, 2);
}

#[test]
fn removing_a_linked_pixel_is_a_false_connection() {
    let pixels = vec![None, cell(1, vec![2]), cell(2, vec![])];
    let mut structures: Vec<PixelStructure<u32>> = Vec::new();
    PixelStructure::new(size(), pixels, &mut structures);
    assert_eq!(try_remove_pixel(&mut structures, 0, 2), Err(StructureError::FalseConnection));
    assert_eq!(structures.len(), 1);
    assert_eq!(pixels_of(&structures[0].pixels), vec![None, Some(1), None]);
}

#[test]
fn reporting_forms_succeed_where_plain_forms_apply() {
    let mut slots = vec![None, cell(1, vec![2]), cell(2, vec![])];
    assert_eq!(try_mark_connected(&mut slots, 1), Ok(()));
    assert!(slots[2].as_ref().unwrap().connected_to_root);
    let pixels = vec![None, cell(1, vec![]), cell(2, vec![])];
    let mut structures: Vec<PixelStructure<u32>> = Vec::new();
    assert_eq!(PixelStructure::try_new(size(), pixels, &mut structures), Ok(()));
    assert_eq!(structures.len(), 2);
}

#[test]
fn checkconnection_splits_structure_in_place() {
    let mut s = PixelStructure { pixels: vec![None, cell(1, vec![]), cell(2, vec![])], size: size(), root: 1 };
    let mut list: Vec<PixelStructure<u32>> = Vec::new();
    s.checkconnection(&mut list);
    assert_eq!(pixels_of(&s.pixels), vec![None, Some(1), None]);
    assert_eq!(list.len(), 1);
    assert_eq!(pixels_of(&list[0].pixels), vec![None, Some(2)]);
    let mut broken = PixelStructure { pixels: vec![None, cell(1, vec![3])], size: size(), root: 1 };
    assert_eq!(broken.try_checkconnection(&mut list), Err(StructureError::FalseConnection));
    assert_eq!(list.len(), 1);
}
