use lib::grid::Vec2Integer;
use lib::map::{find_adjacent_pixels, find_nearby_pixels, index_pixel};
use lib::sr::{Sr, SrStore};

fn make_area(store: &mut SrStore<u32>) -> Vec<Sr<u32>> {
    let mut area = Vec::new();
    for i in 0..15u32 {
        area.push(Sr::new(100 + i, store));
    }
    area
}

#[test]
fn nearby_of_first_pixel_is_empty() {
    let mut store = SrStore::new();
    let area = make_area(&mut store);
    let near = find_nearby_pixels(0, &area, &mut store);
    assert!(near.is_empty());
}

#[test]
fn nearby_is_the_previous_pixel() {
    let mut store = SrStore::new();
    let area = make_area(&mut store);
    let near = find_nearby_pixels(5, &area, &mut store);
    assert_eq!(near.len(), 1);
    assert_eq!(*near[0].get_immut(&store), 104);
    assert_eq!(store.count(&area[4]), 2);
    assert_eq!(store.count(&area[5]), 1);
}

#[test]
fn nearby_of_last_pixel() {
    let mut store = SrStore::new();
    let area = make_area(&mut store);
    let near = find_nearby_pixels(14, &area, &mut store);
    assert_eq!(near.len(), 1);
    assert_eq!(*near[0].get_immut(&store), 113);
}

#[test]
fn adjacent_takes_row_back_and_previous() {
    let mut store = SrStore::new();
    let area = make_area(&mut store);
    let adj = find_adjacent_pixels(&area, 6, &mut store);
    let values: Vec<u32> = adj.iter().map(|h| *h.get_immut(&store)).collect();
    assert_eq!(values, vec![102, 103, 105]);
    assert_eq!(store.count(&area[2]), 2);
    assert_eq!(store.count(&area[3]), 2);
    assert_eq!(store.count(&area[5]), 2);
    assert_eq!(store.count(&area[4]), 1);
}

#[test]
fn adjacent_at_smallest_position() {
    let mut store = SrStore::new();
    let area = make_area(&mut store);
    let adj = find_adjacent_pixels(&area, 4, &mut store);
    let values: Vec<u32> = adj.iter().map(|h| *h.get_immut(&store)).collect();
    assert_eq!(values, vec![100, 101, 103]);
}

#[test]
fn adjacent_handles_alias_the_area() {
    let mut store = SrStore::new();
    let area = make_area(&mut store);
    let adj = find_adjacent_pixels(&area, 10, &mut store);
    *adj[0].get_mut(&mut store) = 7;
    assert_eq!(*area[6].get_immut(&store), 7);
}

#[test]
fn index_pixel_uses_product_of_coordinates() {
    let mut store = SrStore::new();
    let area = make_area(&mut store);
    let p = index_pixel(Vec2Integer { x: 2, y: 3 }, &area, &mut store);
    assert_eq!(*p, 106);
    *p = 1;
    assert_eq!(*area[6].get_immut(&store), 1);
    let z = index_pixel(Vec2Integer { x: 0, y: 9 }, &area, &mut store);
    assert_eq!(*z, 100);
}
