use phys::Marble;
use phys::MarbleBoard;
use phys::BOARD_HEIGHT;

#[test]
fn test_marbleboard_connection() {
    let mut mb = MarbleBoard::default();
    assert!(!mb.is_connected());

    for i in 0..BOARD_HEIGHT {
        mb.set(i, 2, Marble::Steel);
    }
    assert!(mb.is_connected());

    mb.set(0, 2, Marble::Glass);
    assert!(!mb.is_connected());

    mb.set(0, 2, Marble::Steel);
    mb.set(2, 2, Marble::Glass);
    assert!(!mb.is_connected());

    for i in 0..BOARD_HEIGHT {
        mb.set(i, 4, Marble::Steel);
    }
    assert!(mb.is_connected());

    mb.set(4, 4, Marble::Glass);
    assert!(!mb.is_connected());

    mb.set(3, 3, Marble::Steel);
    assert!(mb.is_connected());
}

#[test]
fn test_default_all_glass() {
    let mb = MarbleBoard::default();
    for y in 0..phys::BOARD_HEIGHT {
        for x in 0..phys::BOARD_WIDTH {
            assert!(mb.get(y, x) == Marble::Glass);
        }
    }
    assert!(!mb.is_connected());
}

#[test]
fn test_get_set_roundtrip() {
    let mut mb = MarbleBoard::default();
    mb.set(7, 11, Marble::Steel);
    assert!(mb.get(7, 11) == Marble::Steel);
    assert!(mb.get(7, 10) == Marble::Glass);
    assert!(mb.get(7, 12) == Marble::Glass);
    assert!(mb.get(6, 11) == Marble::Glass);
    assert!(mb.get(8, 11) == Marble::Glass);
    mb.set(7, 11, Marble::Glass);
    assert!(mb.get(7, 11) == Marble::Glass);
}

#[test]
fn test_checker_idempotent() {
    let deterministic = {
        let mut mb = MarbleBoard::default();
        for i in 0..BOARD_HEIGHT {
            mb.set(i, 30, Marble::Steel);
        }
        mb
    };
    assert_eq!(deterministic.is_connected(), deterministic.is_connected());
    assert!(deterministic.is_connected());

    let sampled = MarbleBoard::new_shuffled(2100);
    let first = sampled.is_connected();
    let second = sampled.is_connected();
    assert_eq!(first, second);
}
