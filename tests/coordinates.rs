use board_plugin::{Coordinates, TileTriggerEvent};

#[test]
fn add_is_componentwise() {
    let a = Coordinates { x: 3, y: 4 };
    let b = Coordinates { x: 10, y: 1 };
    assert_eq!(a.add(b), Coordinates { x: 13, y: 5 });
    let big = Coordinates { x: 65535, y: 65530 };
    assert_eq!(big.add(b), Coordinates { x: 65535, y: 65531 });
}

#[test]
fn sub_saturates_at_zero() {
    let a = Coordinates { x: 3, y: 4 };
    let b = Coordinates { x: 10, y: 1 };
    assert_eq!(a.sub(b), Coordinates { x: 0, y: 3 });
    assert_eq!(b.sub(a), Coordinates { x: 7, y: 0 });
}

#[test]
fn text_form() {
    assert_eq!(Coordinates { x: 3, y: 12 }.to_string(), "(3, 12)");
    assert_eq!(Coordinates { x: 0, y: 65535 }.to_string(), "(0, 65535)");
    assert_eq!(Coordinates::default().to_string(), "(0, 0)");
}

#[test]
fn ordering_and_events() {
    assert!(Coordinates { x: 1, y: 9 } < Coordinates { x: 2, y: 0 });
    let e = TileTriggerEvent(Coordinates { x: 2, y: 2 });
    assert_eq!(e.0, Coordinates { x: 2, y: 2 });
}
