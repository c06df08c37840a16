use std::rc::Rc;
use tilescene::tiles::{Blit, Tile, TileID, Tilemap, TilemapError, Tileset, TILE_SZ};
use tilescene::types::{Rect, Texture, Vec2i};

fn tileset(width: usize, height: usize) -> Rc<Tileset> {
    let tex = Rc::new(Texture::new(width, height));
    Rc::new(Tileset::new(
        vec![
            Tile { solid: false },
            Tile { solid: true },
            Tile { solid: true },
            Tile { solid: true },
            Tile { solid: false },
            Tile { solid: true },
        ],
        &tex,
    ))
}

fn bordered(n: usize) -> Vec<usize> {
    let mut v = Vec::new();
    for y in 0..n {
        for x in 0..n {
            v.push(if x == 0 || y == 0 || x == n - 1 || y == n - 1 { 1 } else { 0 });
        }
    }
    v
}

fn dests(blits: &[Blit]) -> Vec<(i32, i32)> {
    blits.iter().map(|b| (b.dest.0, b.dest.1)).collect()
}

#[test]
fn rect_for_tile_in_atlas_grid() {
    let ts = tileset(64, 32);
    assert_eq!(ts.get_rect(TileID(0)), Rect { x: 0, y: 0, w: 16, h: 16 });
    assert_eq!(ts.get_rect(TileID(3)), Rect { x: 48, y: 0, w: 16, h: 16 });
    assert_eq!(ts.get_rect(TileID(5)), Rect { x: 16, y: 16, w: 16, h: 16 });
}

#[test]
fn rects_stay_inside_atlas() {
    let ts = tileset(48, 32);
    for i in 0..6 {
        let r = ts.get_rect(TileID(i));
        assert_eq!(r.w as usize, TILE_SZ);
        assert_eq!(r.h as usize, TILE_SZ);
        assert!(r.x >= 0 && r.x as usize + TILE_SZ <= 48);
        assert!(r.y >= 0 && r.y as usize + TILE_SZ <= 32);
    }
}

#[test]
fn contains_and_lookup() {
    let ts = tileset(64, 32);
    assert!(ts.contains(TileID(5)));
    assert!(!ts.contains(TileID(6)));
    assert!(ts.lookup(TileID(1)).solid);
    assert!(!ts.lookup(TileID(4)).solid);
}

#[test]
fn new_rejects_wrong_size() {
    let ts = tileset(64, 32);
    let r = Tilemap::new(Vec2i(0, 0), (8, 9), &ts, bordered(8));
    assert!(matches!(r, Err(TilemapError::WrongSize)));
    let r = Tilemap::new(Vec2i(0, 0), (usize::MAX, 2), &ts, bordered(8));
    assert!(matches!(r, Err(TilemapError::WrongSize)));
}

#[test]
fn new_rejects_unknown_tile() {
    let ts = tileset(64, 32);
    let r = Tilemap::new(Vec2i(0, 0), (2, 2), &ts, vec![0, 1, 6, 2]);
    assert!(matches!(r, Err(TilemapError::UnknownTile)));
}

#[test]
fn new_accepts_valid_map() {
    let ts = tileset(64, 32);
    let m = Tilemap::new(Vec2i(3, 4), (8, 8), &ts, bordered(8)).unwrap();
    assert_eq!(m.size(), (8, 8));
    assert_eq!(m.position, Vec2i(3, 4));
}

#[test]
fn tile_lookup_by_world_point() {
    let ts = tileset(64, 32);
    let m = Tilemap::new(Vec2i(128, 0), (8, 8), &ts, bordered(8)).unwrap();
    assert!(m.tile_id_at(Vec2i(128, 0)) == TileID(1));
    assert!(m.tile_id_at(Vec2i(128 + 16 + 15, 16)) == TileID(0));
    assert!(m.tile_at(Vec2i(128 + 16 * 7, 16 * 7 + 15)).solid);
    assert!(!m.tile_at(Vec2i(128 + 40, 40)).solid);
}

#[test]
fn tile_lookup_truncates_toward_zero() {
    let ts = tileset(64, 32);
    let m = Tilemap::new(Vec2i(0, 0), (2, 2), &ts, vec![0, 1, 2, 3]).unwrap();
    assert!(m.tile_id_at(Vec2i(-5, -15)) == TileID(0));
    assert!(m.tile_id_at(Vec2i(-5, 16)) == TileID(2));
    assert!(m.tile_id_at(Vec2i(31, 31)) == TileID(3));
}

#[test]
fn every_point_of_a_cell_finds_its_tile() {
    let ts = tileset(64, 32);
    let map = vec![0, 1, 2, 3, 4, 5];
    let m = Tilemap::new(Vec2i(-20, 7), (3, 2), &ts, map.clone()).unwrap();
    for y in 0..2 {
        for x in 0..3 {
            for dy in [0, 7, 15] {
                for dx in [0, 9, 15] {
                    let p = Vec2i(-20 + 16 * x + dx, 7 + 16 * y + dy);
                    let id = map[(y * 3 + x) as usize];
                    assert!(m.tile_id_at(p) == TileID(id));
                    assert_eq!(m.tile_at(p), ts.lookup(TileID(id)));
                }
            }
        }
    }
}

#[test]
fn draw_small_viewport_at_origin() {
    let ts = tileset(64, 32);
    let m = Tilemap::new(Vec2i(0, 0), (8, 8), &ts, bordered(8)).unwrap();
    let blits = m.draw(Rect { x: 0, y: 0, w: 32, h: 32 });
    assert_eq!(dests(&blits), vec![(0, 0), (16, 0), (0, 16), (16, 16)]);
    let frame1 = Rect { x: 16, y: 0, w: 16, h: 16 };
    let frame0 = Rect { x: 0, y: 0, w: 16, h: 16 };
    assert_eq!(blits[0].frame, frame1);
    assert_eq!(blits[3].frame, frame0);
}

#[test]
fn draw_offset_viewport_clamps_to_grid() {
    let ts = tileset(64, 32);
    let m = Tilemap::new(Vec2i(128, 0), (8, 8), &ts, bordered(8)).unwrap();
    let blits = m.draw(Rect { x: 100, y: 120, w: 40, h: 20 });
    assert_eq!(dests(&blits), vec![(128, 112)]);
    let blits = m.draw(Rect { x: 250, y: -10, w: 125, h: 125 });
    assert_eq!(dests(&blits), vec![(240, 0), (240, 16), (240, 32), (240, 48), (240, 64), (240, 80), (240, 96), (240, 112)]);
}

#[test]
fn draw_misses_viewport_outside_grid() {
    let ts = tileset(64, 32);
    let m = Tilemap::new(Vec2i(128, 0), (8, 8), &ts, bordered(8)).unwrap();
    assert!(m.draw(Rect { x: 0, y: 0, w: 125, h: 125 }).is_empty());
    assert!(m.draw(Rect { x: 256, y: 0, w: 10, h: 10 }).is_empty());
    assert!(m.draw(Rect { x: 130, y: -50, w: 10, h: 50 }).is_empty());
    assert!(m.draw(Rect { x: 130, y: 10, w: 0, h: 10 }).is_empty());
    assert_eq!(m.draw(Rect { x: 0, y: 0, w: 129, h: 1 }).len(), 1);
}

#[test]
fn draw_one_blit_per_touched_cell() {
    let ts = tileset(64, 32);
    let m = Tilemap::new(Vec2i(5, -3), (6, 5), &ts, vec![1; 30]).unwrap();
    let view = Rect { x: 20, y: 10, w: 33, h: 17 };
    let blits = m.draw(view);
    let mut expected = Vec::new();
    for y in 0..5i32 {
        for x in 0..6i32 {
            let cx = 5 + 16 * x;
            let cy = -3 + 16 * y;
            let meets = view.x < cx + 16 && cx < view.x + view.w as i32 && view.y < cy + 16 && cy < view.y + view.h as i32;
            if meets {
                expected.push((cx, cy));
            }
        }
    }
    assert_eq!(dests(&blits), expected);
    assert_eq!(blits.len(), 6);
}

#[test]
fn draw_whole_map() {
    let ts = tileset(64, 32);
    let m = Tilemap::new(Vec2i(0, 0), (3, 2), &ts, vec![0, 1, 2, 3, 4, 5]).unwrap();
    let blits = m.draw(Rect { x: -100, y: -100, w: 500, h: 500 });
    assert_eq!(blits.len(), 6);
    assert_eq!(blits[5], Blit { frame: Rect { x: 16, y: 16, w: 16, h: 16 }, dest: Vec2i(32, 16) });
}

#[test]
fn set_position_moves_lookup_and_drawing() {
    let ts = tileset(64, 32);
    let mut m = Tilemap::new(Vec2i(0, 0), (2, 2), &ts, vec![0, 1, 2, 3]).unwrap();
    m.set_position(Vec2i(32, 16));
    assert_eq!(m.position, Vec2i(32, 16));
    assert_eq!(m.size(), (2, 2));
    assert!(m.tile_id_at(Vec2i(32 + 17, 16)) == TileID(1));
    let blits = m.draw(Rect { x: 0, y: 0, w: 48, h: 32 });
    assert_eq!(dests(&blits), vec![(32, 16)]);
}

#[test]
fn empty_tileset_accepts_narrow_atlas() {
    let tex = Rc::new(Texture::new(8, 8));
    let ts = Tileset::new(Vec::new(), &tex);
    assert!(!ts.contains(TileID(0)));
}
