use pocket_decor::controls::{
    focus, handle_dropdown, handle_escape_key, pressed_indices, toggle, Interaction, TextInputField,
    Visibility,
};

fn field(entity: u64, inactive: bool) -> TextInputField {
    TextInputField { entity, inactive }
}

#[test]
fn click_toggles_dropdown() {
    assert_eq!(toggle(Visibility::Hidden), Visibility::Visible);
    assert_eq!(toggle(Visibility::Visible), Visibility::Hidden);
    assert_eq!(toggle(Visibility::Inherited), Visibility::Hidden);
}

#[test]
fn two_clicks_restore_dropdown() {
    assert_eq!(toggle(toggle(Visibility::Hidden)), Visibility::Hidden);
    assert_eq!(toggle(toggle(Visibility::Visible)), Visibility::Visible);
    assert_eq!(toggle(toggle(toggle(Visibility::Inherited))), Visibility::Hidden);
}

#[test]
fn dropdown_counts_presses_only() {
    let mut v = Visibility::Hidden;
    handle_dropdown(&vec![Interaction::Hovered, Interaction::Pressed, Interaction::Idle], &mut v);
    assert_eq!(v, Visibility::Visible);
    handle_dropdown(&vec![Interaction::Pressed, Interaction::Pressed, Interaction::Pressed], &mut v);
    assert_eq!(v, Visibility::Hidden);
    handle_dropdown(&vec![Interaction::Hovered], &mut v);
    assert_eq!(v, Visibility::Hidden);
    let mut w = Visibility::Inherited;
    handle_dropdown(&vec![Interaction::Pressed, Interaction::Pressed], &mut w);
    assert_eq!(w, Visibility::Visible);
}

#[test]
fn press_focuses_one_input() {
    let mut inputs = vec![field(10, true), field(11, false)];
    focus(&vec![(10, Interaction::Pressed)], &mut inputs);
    assert_eq!(inputs, vec![field(10, false), field(11, true)]);
}

#[test]
fn last_press_wins() {
    let mut inputs = vec![field(10, true), field(11, true)];
    focus(&vec![(10, Interaction::Pressed), (11, Interaction::Pressed), (10, Interaction::Hovered)], &mut inputs);
    assert_eq!(inputs, vec![field(10, true), field(11, false)]);
}

#[test]
fn press_elsewhere_deactivates_all() {
    let mut inputs = vec![field(10, false), field(11, true)];
    focus(&vec![(99, Interaction::Pressed)], &mut inputs);
    assert_eq!(inputs, vec![field(10, true), field(11, true)]);
}

#[test]
fn hover_changes_nothing() {
    let mut inputs = vec![field(10, false), field(11, true)];
    focus(&vec![(11, Interaction::Hovered), (10, Interaction::Idle)], &mut inputs);
    assert_eq!(inputs, vec![field(10, false), field(11, true)]);
}

#[test]
fn escape_deactivates_all() {
    let mut inputs = vec![field(1, false), field(2, true)];
    handle_escape_key(false, &mut inputs);
    assert_eq!(inputs, vec![field(1, false), field(2, true)]);
    handle_escape_key(true, &mut inputs);
    assert_eq!(inputs, vec![field(1, true), field(2, true)]);
}

#[test]
fn pressed_options_in_order() {
    let v = vec![Interaction::Idle, Interaction::Pressed, Interaction::Hovered, Interaction::Pressed];
    assert_eq!(pressed_indices(&v), vec![1, 3]);
    assert_eq!(pressed_indices(&vec![Interaction::Hovered]), Vec::<usize>::new());
}
