use iron::animation::{default_duration_ms, Animation};
use iron::game::{Game, Move};
use iron::layout::Layout;
use iron::v2::V2;
use std::time::{Duration, Instant};

#[test]
fn test_default_duration() {
    assert_eq!(160, default_duration_ms());
}

#[test]
fn test_animation_holds_payload_and_result() {
    let mut result = Game::new(4, 4);
    result.tiles[0] = Some(1);
    let moves = vec![Move::new(4, 0, false)];
    let before = Instant::now();
    let anim = Animation::new(Duration::from_millis(100), moves.clone(), result.clone());
    let after = Instant::now();
    assert_eq!(Duration::from_millis(100), anim.duration());
    assert_eq!(moves, anim.inner);
    assert_eq!(result, anim.result);
    assert!(before <= anim.start() && anim.start() <= after);
}

#[test]
fn test_layout_compute() {
    let layout = Layout::compute(800, 600, 4, 4);
    assert_eq!(150, layout.unit);
    assert_eq!(10, layout.gap); // 7% of 150, rounded down
    assert_eq!((600, 600), layout.size);
    assert_eq!((100, 0), layout.origin);
    assert_eq!(4, layout.width);
}

#[test]
fn test_layout_rect() {
    let layout = Layout::compute(800, 600, 4, 4);
    assert_eq!([110, 10, 130, 130], layout.rect((0, 0)));
    assert_eq!([410, 160, 130, 130], layout.rect((2, 1)));
}

#[test]
fn test_layout_nonsquare() {
    let layout = Layout::compute(500, 300, 5, 3);
    assert_eq!(100, layout.unit);
    assert_eq!(7, layout.gap);
    assert_eq!((500, 300), layout.size);
    assert_eq!((0, 0), layout.origin);
}

#[test]
fn test_v2() {
    let v = V2::new(3u32, 8u32);
    assert_eq!(3, v.x);
    assert_eq!(8, v.y);
}
