use pocket_decor::movement::{movement_intent, MoveIntent, MoveKey};

#[test]
fn single_keys() {
    assert_eq!(movement_intent(&vec![MoveKey::KeyW]), MoveIntent { forward: 1, right: 0 });
    assert_eq!(movement_intent(&vec![MoveKey::KeyS]), MoveIntent { forward: -1, right: 0 });
    assert_eq!(movement_intent(&vec![MoveKey::KeyA]), MoveIntent { forward: 0, right: -1 });
    assert_eq!(movement_intent(&vec![MoveKey::KeyD]), MoveIntent { forward: 0, right: 1 });
    assert_eq!(movement_intent(&vec![]), MoveIntent { forward: 0, right: 0 });
}

#[test]
fn opposite_keys_cancel() {
    assert_eq!(
        movement_intent(&vec![MoveKey::KeyW, MoveKey::KeyS, MoveKey::KeyD]),
        MoveIntent { forward: 0, right: 1 }
    );
    assert_eq!(
        movement_intent(&vec![MoveKey::KeyA, MoveKey::KeyD, MoveKey::Other]),
        MoveIntent { forward: 0, right: 0 }
    );
}

#[test]
fn order_does_not_matter() {
    let a = movement_intent(&vec![MoveKey::KeyW, MoveKey::KeyA, MoveKey::Other]);
    let b = movement_intent(&vec![MoveKey::Other, MoveKey::KeyA, MoveKey::KeyW]);
    assert_eq!(a, b);
    assert_eq!(a, MoveIntent { forward: 1, right: -1 });
}
