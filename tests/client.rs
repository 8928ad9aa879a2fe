use yeti_paint::canvas::{ClientMessage, Pixel, Rgba, ServerMessage, Texture, Update};
use yeti_paint::client::{Client, ProtocolError};
use yeti_paint::geom::Point;
use yeti_paint::matrix::{Dims, Matrix};

const RED: Rgba = Rgba { r: 255, g: 0, b: 0, a: 255 };
const BLUE: Rgba = Rgba { r: 0, g: 0, b: 255, a: 255 };
const GREEN: Rgba = Rgba { r: 0, g: 255, b: 0, a: 255 };

fn paint(p: Point, c: Rgba) -> Update {
    Update::Draw(vec![Pixel { position: p, color: c }])
}

#[test]
fn local_edit_is_shown_and_sent() {
    let mut client = Client::new(Texture::new());
    let p = Point::new(2, -2);
    let msg = client.update(paint(p, RED)).unwrap();
    assert_eq!(msg, ClientMessage::Update { id: 0, update: paint(p, RED) });
    assert_eq!(client.color(p), RED);
    assert_eq!(client.pending_ids(), vec![0]);
    let msg = client.update(paint(p, BLUE)).unwrap();
    assert_eq!(msg, ClientMessage::Update { id: 1, update: paint(p, BLUE) });
    assert_eq!(client.pending_ids(), vec![0, 1]);
}

#[test]
fn acknowledged_edit_is_replaced_and_newer_one_replayed() {
    let mut client = Client::new(Texture::new());
    let p = Point::new(5, 5);
    client.update(paint(p, RED)).unwrap();
    client.update(paint(p, BLUE)).unwrap();
    let batch = vec![ServerMessage::Update { your_id: Some(0), update: paint(p, RED) }];
    assert_eq!(client.handle_messages(batch), Ok(()));
    assert_eq!(client.color(p), BLUE);
    assert_eq!(client.pending_ids(), vec![1]);
}

#[test]
fn foreign_edit_goes_under_pending_ones() {
    let mut client = Client::new(Texture::new());
    let p = Point::new(0, 0);
    let q = Point::new(1, 0);
    client.update(paint(p, RED)).unwrap();
    let batch = vec![
        ServerMessage::Update { your_id: None, update: paint(p, GREEN) },
        ServerMessage::Update { your_id: None, update: paint(q, GREEN) },
    ];
    assert_eq!(client.handle_messages(batch), Ok(()));
    assert_eq!(client.color(p), RED);
    assert_eq!(client.color(q), GREEN);
    assert_eq!(client.pending_ids(), vec![0]);
    let batch = vec![ServerMessage::Update { your_id: Some(0), update: paint(p, RED) }];
    assert_eq!(client.handle_messages(batch), Ok(()));
    assert_eq!(client.color(p), RED);
    assert!(client.pending_ids().is_empty());
}

#[test]
fn all_acknowledged_view_matches_server_order() {
    let mut client = Client::new(Texture::new());
    let p = Point::new(-4, 4);
    client.update(paint(p, RED)).unwrap();
    client.update(paint(p, BLUE)).unwrap();
    let batch = vec![
        ServerMessage::Update { your_id: Some(0), update: paint(p, RED) },
        ServerMessage::Update { your_id: None, update: paint(p, GREEN) },
        ServerMessage::Update { your_id: Some(1), update: paint(p, BLUE) },
    ];
    assert_eq!(client.handle_messages(batch), Ok(()));
    assert_eq!(client.color(p), BLUE);
    assert!(client.pending_ids().is_empty());
}

#[test]
fn download_is_painted_under_pending_edits() {
    let mut client = Client::new(Texture::new());
    client.update(paint(Point::new(-1, 1), BLUE)).unwrap();
    let mut data = Matrix::filled_with(Dims { x: 2, y: 2 }, GREEN);
    data.set(1, 0, RED);
    let batch = vec![ServerMessage::Download { position: Point::new(-2, 0), data }];
    assert_eq!(client.handle_messages(batch), Ok(()));
    assert_eq!(client.color(Point::new(-2, 0)), GREEN);
    assert_eq!(client.color(Point::new(-1, 0)), RED);
    assert_eq!(client.color(Point::new(-1, 1)), BLUE);
    assert_eq!(client.color(Point::new(0, 0)), Rgba::transparent_black());
    assert_eq!(client.pending_ids(), vec![0]);
}

#[test]
fn whole_canvas_after_start_is_refused() {
    let mut client = Client::new(Texture::new());
    let p = Point::new(0, 0);
    client.update(paint(p, RED)).unwrap();
    let batch = vec![
        ServerMessage::Update { your_id: Some(0), update: paint(p, RED) },
        ServerMessage::Initial(Texture::new()),
    ];
    assert_eq!(client.handle_messages(batch), Err(ProtocolError::UnexpectedInitial));
    assert_eq!(client.pending_ids(), vec![0]);
    assert_eq!(client.color(p), RED);
}

#[test]
fn download_beyond_coordinates_is_refused() {
    let mut client = Client::new(Texture::new());
    let data = Matrix::filled_with(Dims { x: 2, y: 1 }, GREEN);
    let batch = vec![ServerMessage::Download { position: Point::new(i32::MAX, 0), data }];
    assert_eq!(client.handle_messages(batch), Err(ProtocolError::DownloadOutOfRange));
    let data = Matrix::filled_with(Dims { x: 1, y: 1 }, GREEN);
    let batch = vec![ServerMessage::Download { position: Point::new(i32::MAX, i32::MAX), data }];
    assert_eq!(client.handle_messages(batch), Ok(()));
    assert_eq!(client.color(Point::new(i32::MAX, i32::MAX)), GREEN);
}

#[test]
fn empty_batch_keeps_everything() {
    let mut client = Client::new(Texture::new());
    client.update(paint(Point::new(3, 3), RED)).unwrap();
    assert_eq!(client.handle_messages(Vec::new()), Ok(()));
    assert_eq!(client.color(Point::new(3, 3)), RED);
    assert_eq!(client.pending_ids(), vec![0]);
}

#[test]
fn ack_for_an_id_never_sent_is_refused() {
    let mut client = Client::new(Texture::new());
    let p = Point::new(1, 1);
    client.update(paint(p, RED)).unwrap();
    let batch = vec![ServerMessage::Update { your_id: Some(5), update: paint(p, GREEN) }];
    assert_eq!(client.handle_messages(batch), Err(ProtocolError::UnknownAck));
    assert_eq!(client.color(p), RED);
    assert_eq!(client.pending_ids(), vec![0]);
    let mut fresh = Client::new(Texture::new());
    let batch = vec![ServerMessage::Update { your_id: Some(0), update: paint(p, GREEN) }];
    assert_eq!(fresh.handle_messages(batch), Err(ProtocolError::UnknownAck));
}

#[test]
fn foreign_edit_under_pending_edit_then_ack() {
    let mut client = Client::new(Texture::new());
    let p = Point::new(2, 2);
    client.update(paint(p, BLUE)).unwrap();
    let batch = vec![ServerMessage::Update { your_id: None, update: paint(p, GREEN) }];
    assert_eq!(client.handle_messages(batch), Ok(()));
    assert_eq!(client.color(p), BLUE);
    assert_eq!(client.handle_messages(Vec::new()), Ok(()));
    assert_eq!(client.color(p), BLUE);
    let batch = vec![ServerMessage::Update { your_id: Some(0), update: paint(p, BLUE) }];
    assert_eq!(client.handle_messages(batch), Ok(()));
    assert_eq!(client.color(p), BLUE);
    assert!(client.pending_ids().is_empty());
}
