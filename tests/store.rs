use yeti_paint::canvas::{ClientMessage, Pixel, Rgba, ServerMessage, Update};
use yeti_paint::geom::{Aabb, Point};
use yeti_paint::matrix::{Dims, Matrix};
use yeti_paint::chunks::{Infinite, StoreError, CHUNK_SIZE};
use yeti_paint::server::{accepts_download, ServerState};

const RED: Rgba = Rgba { r: 255, g: 0, b: 0, a: 255 };

fn shade(x: i32, y: i32) -> Rgba {
    Rgba { r: x as u8, g: y as u8, b: 7, a: 255 }
}

fn load_for_update(store: &mut Infinite, update: &Update) {
    for c in store.chunks_of_update(update) {
        if store.needs_load(c) {
            store.provide(c, None, 0).unwrap();
        }
    }
}

#[test]
fn chunk_of_negative_point() {
    let store = Infinite::new(CHUNK_SIZE);
    assert_eq!(store.chunk_of(Point::new(-1, -1)), Point::new(-1, -1));
    assert_eq!(store.chunk_of(Point::new(0, 0)), Point::new(0, 0));
    assert_eq!(store.chunk_of(Point::new(255, -256)), Point::new(0, -1));
}

#[test]
fn rectangle_across_chunks_matches_single_points() {
    for n in [1, 3, 4, 256] {
        let mut store = Infinite::new(n);
        let mut pixels = Vec::new();
        for x in -6..6 {
            for y in -5..5 {
                pixels.push(Pixel { position: Point::new(x, y), color: shade(x + 10, y + 10) });
            }
        }
        let update = Update::Draw(pixels);
        load_for_update(&mut store, &update);
        store.update(update, 1);
        let rect = Aabb { x_min: -7, y_min: -6, x_max: 5, y_max: 6 };
        for c in store.chunks_in(rect) {
            if store.needs_load(c) && store.has_chunk(c) {
                store.provide(c, None, 2).unwrap();
            }
        }
        let m = store.get(rect);
        assert_eq!(m.size(), Dims { x: 12, y: 12 });
        for i in 0..12usize {
            for j in 0..12usize {
                let p = Point::new(-7 + i as i32, -6 + j as i32);
                assert_eq!(*m.get(i, j), store.color_at(p));
            }
        }
        assert_eq!(*m.get(0, 0), Rgba::transparent_black());
        assert_eq!(*m.get(1, 1), shade(4, 5));
    }
}

#[test]
fn reading_creates_no_chunk() {
    let store = Infinite::new(4);
    let m = store.get(Aabb { x_min: -2, y_min: -2, x_max: 2, y_max: 2 });
    assert_eq!(m.as_slice(), &[Rgba::transparent_black(); 16]);
    assert!(!store.has_chunk(Point::new(-1, -1)));
    assert!(!store.has_chunk(Point::new(0, 0)));
}

#[test]
fn chunks_in_covers_the_rectangle() {
    let store = Infinite::new(4);
    let cells = store.chunks_in(Aabb { x_min: -5, y_min: 0, x_max: 4, y_max: 5 });
    assert_eq!(
        cells,
        vec![
            Point::new(-2, 0),
            Point::new(-2, 1),
            Point::new(-1, 0),
            Point::new(-1, 1),
            Point::new(0, 0),
            Point::new(0, 1)
        ]
    );
}

#[test]
fn stored_chunk_of_wrong_size_is_refused() {
    let mut store = Infinite::new(4);
    let bad = Matrix::filled_with(Dims { x: 3, y: 4 }, RED);
    assert_eq!(store.provide(Point::new(0, 0), Some(bad), 0), Err(StoreError::WrongChunkSize));
    assert!(!store.has_chunk(Point::new(0, 0)));
    let good = Matrix::filled_with(Dims { x: 4, y: 4 }, RED);
    assert_eq!(store.provide(Point::new(-1, 0), Some(good), 0), Ok(()));
    assert_eq!(store.color_at(Point::new(-4, 3)), RED);
    assert_eq!(store.color_at(Point::new(0, 3)), Rgba::transparent_black());
}

#[test]
fn eviction_hands_back_what_was_painted() {
    let mut store = Infinite::new(4);
    let update = Update::Draw(vec![Pixel { position: Point::new(-1, 2), color: RED }]);
    load_for_update(&mut store, &update);
    store.update(update, 100);
    assert!(store.periodic_check(200).is_empty());
    let saves = store.periodic_check(100 + 10_001);
    assert_eq!(saves.len(), 1);
    let (c, grid) = &saves[0];
    assert_eq!(*c, Point::new(-1, 0));
    assert_eq!(*grid.get(3, 2), RED);
    assert!(store.needs_load(Point::new(-1, 0)));
    let (c, grid) = saves.into_iter().next().unwrap();
    store.provide(c, Some(grid), 20_000).unwrap();
    assert_eq!(store.color_at(Point::new(-1, 2)), RED);
}

#[test]
fn flush_all_saves_dirty_chunks_only() {
    let mut store = Infinite::new(4);
    store.provide(Point::new(5, 5), None, 0).unwrap();
    let update = Update::Draw(vec![Pixel { position: Point::new(1, 1), color: RED }]);
    load_for_update(&mut store, &update);
    store.update(update, 1);
    let saves = store.flush_all(2);
    assert_eq!(saves.len(), 1);
    assert_eq!(saves[0].0, Point::new(0, 0));
    assert_eq!(*saves[0].1.get(1, 1), RED);
    assert!(store.flush_all(3).is_empty());
}

fn ready(state: &mut ServerState, update: &Update) {
    let cells = state.store().chunks_of_update(update);
    for c in cells {
        if state.store().needs_load(c) {
            state.provide(c, None, 0).unwrap();
        }
    }
}

#[test]
fn update_is_broadcast_to_every_client() {
    let mut state = ServerState::new(CHUNK_SIZE);
    let a = state.connect().unwrap();
    let b = state.connect().unwrap();
    let c = state.connect().unwrap();
    assert_eq!((a, b, c), (0, 1, 2));
    let first = Update::Draw(vec![Pixel { position: Point::new(-3, 9), color: RED }]);
    let blue = Rgba { r: 0, g: 0, b: 255, a: 255 };
    let second = Update::Draw(vec![Pixel { position: Point::new(-3, 9), color: blue }]);
    ready(&mut state, &first);
    let out1 = state.handle_message(b, ClientMessage::Update { id: 7, update: first.clone() }, 1);
    ready(&mut state, &second);
    let out2 = state.handle_message(c, ClientMessage::Update { id: 0, update: second.clone() }, 2);
    assert_eq!(out1.len(), 3);
    assert_eq!(out2.len(), 3);
    let expected1 = [(a, None), (b, Some(7)), (c, None)];
    for (i, (to, msg)) in out1.iter().enumerate() {
        assert_eq!(*to, expected1[i].0);
        match msg {
            ServerMessage::Update { your_id, update } => {
                assert_eq!(*your_id, expected1[i].1);
                assert_eq!(*update, first);
            }
            _ => panic!("an edit is broadcast as an update"),
        }
    }
    let expected2 = [(a, None), (b, None), (c, Some(0))];
    for (i, (to, msg)) in out2.iter().enumerate() {
        assert_eq!(*to, expected2[i].0);
        match msg {
            ServerMessage::Update { your_id, update } => {
                assert_eq!(*your_id, expected2[i].1);
                assert_eq!(*update, second);
            }
            _ => panic!("an edit is broadcast as an update"),
        }
    }
    assert_eq!(state.store().color_at(Point::new(-3, 9)), blue);
}

#[test]
fn download_answers_only_the_asker() {
    let mut state = ServerState::new(4);
    let a = state.connect().unwrap();
    let b = state.connect().unwrap();
    let edit = Update::Draw(vec![Pixel { position: Point::new(-1, -1), color: RED }]);
    ready(&mut state, &edit);
    state.handle_message(a, ClientMessage::Update { id: 0, update: edit }, 1);
    let area = Aabb { x_min: -2, y_min: -2, x_max: 1, y_max: 0 };
    let out = state.handle_message(b, ClientMessage::Download { area }, 2);
    assert_eq!(out.len(), 1);
    assert_eq!(out[0].0, b);
    match &out[0].1 {
        ServerMessage::Download { position, data } => {
            assert_eq!(*position, Point::new(-2, -2));
            assert_eq!(data.size(), Dims { x: 3, y: 2 });
            assert_eq!(*data.get(1, 1), RED);
            assert_eq!(*data.get(0, 0), Rgba::transparent_black());
        }
        _ => panic!("a download is answered with a download"),
    }
    let inverted = Aabb { x_min: 3, y_min: 0, x_max: 1, y_max: 2 };
    assert!(state.handle_message(b, ClientMessage::Download { area: inverted }, 3).is_empty());
    let wide = Aabb { x_min: i32::MIN, y_min: 5, x_max: i32::MAX, y_max: 5 };
    let out = state.handle_message(b, ClientMessage::Download { area: wide }, 3);
    assert_eq!(out.len(), 1);
    match &out[0].1 {
        ServerMessage::Download { data, .. } => {
            assert_eq!(data.size(), Dims { x: u32::MAX as usize, y: 0 })
        }
        _ => panic!("a download is answered with a download"),
    }
}

#[test]
fn disconnected_client_gets_nothing() {
    let mut state = ServerState::new(CHUNK_SIZE);
    let a = state.connect().unwrap();
    let b = state.connect().unwrap();
    state.disconnect(a);
    let edit = Update::Draw(vec![Pixel { position: Point::new(0, 0), color: RED }]);
    ready(&mut state, &edit);
    let out = state.handle_message(b, ClientMessage::Update { id: 3, update: edit }, 1);
    assert_eq!(out.len(), 1);
    assert_eq!(out[0].0, b);
    assert_eq!(state.connect(), Some(2));
}

#[test]
fn download_keeps_its_chunks_warm() {
    let mut state = ServerState::new(4);
    let a = state.connect().unwrap();
    let edit = Update::Draw(vec![Pixel { position: Point::new(1, 1), color: RED }]);
    ready(&mut state, &edit);
    state.handle_message(a, ClientMessage::Update { id: 0, update: edit }, 0);
    let area = Aabb { x_min: 0, y_min: 0, x_max: 2, y_max: 2 };
    state.handle_message(a, ClientMessage::Download { area }, 9_000);
    // idle for 10 s after the edit, but read 9 s after it
    let saves = state.periodic_check(10_500);
    assert_eq!(saves.len(), 1);
    assert!(!state.store().needs_load(Point::new(0, 0)));
    let saves = state.periodic_check(19_001);
    assert!(saves.is_empty());
    assert!(state.store().needs_load(Point::new(0, 0)));
}

#[test]
fn download_areas_that_are_answered() {
    assert!(accepts_download(Aabb { x_min: -5, y_min: -5, x_max: 5, y_max: 5 }));
    assert!(accepts_download(Aabb { x_min: 0, y_min: 0, x_max: 0, y_max: 0 }));
    assert!(accepts_download(Aabb { x_min: 0, y_min: 0, x_max: 4096, y_max: 4096 }));
    assert!(accepts_download(Aabb { x_min: 0, y_min: 0, x_max: 5000, y_max: 5000 }));
    assert!(accepts_download(Aabb { x_min: i32::MIN, y_min: i32::MIN, x_max: i32::MAX, y_max: i32::MAX }));
    assert!(!accepts_download(Aabb { x_min: 1, y_min: 0, x_max: 0, y_max: 4 }));
    assert!(!accepts_download(Aabb { x_min: 0, y_min: 4, x_max: 1, y_max: 3 }));
}

#[test]
fn server_shutdown_flushes_dirty_chunks() {
    let mut state = ServerState::new(CHUNK_SIZE);
    let a = state.connect().unwrap();
    let edit = Update::Draw(vec![
        Pixel { position: Point::new(-1, -1), color: RED },
        Pixel { position: Point::new(300, 0), color: RED },
    ]);
    ready(&mut state, &edit);
    state.handle_message(a, ClientMessage::Update { id: 0, update: edit }, 1);
    let mut saved: Vec<Point> = state.flush_all(2).into_iter().map(|(c, _)| c).collect();
    saved.sort_by_key(|c| (c.x, c.y));
    assert_eq!(saved, vec![Point::new(-1, -1), Point::new(1, 0)]);
    assert!(state.flush_all(3).is_empty());
}
