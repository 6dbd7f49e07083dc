use vstd::prelude::*;

verus! {

/// How a UI node is shown: as its parent is, hidden, or shown.
#[derive(Clone, Copy, Debug, PartialEq, Eq, Structural)]
pub enum Visibility {
    Inherited,
    Hidden,
    Visible,
}

/// The pointer's state over a button.
#[derive(Clone, Copy, Debug, PartialEq, Eq, Structural)]
pub enum Interaction {
    Pressed,
    Hovered,
    Idle,
}

/// A text input of the dimension box: its entity, by its id bits, and
/// whether it ignores typing.
#[derive(Clone, Copy, Debug, PartialEq, Eq, Structural)]
pub struct TextInputField {
    pub entity: u64,
    pub inactive: bool,
}

/// A click on the dropdown button shows hidden content and hides any other.
pub open spec fn toggled(v: Visibility) -> Visibility {
    if v == Visibility::Hidden {
        Visibility::Visible
    } else {
        Visibility::Hidden
    }
}

/// The visibility after `n` clicks on the dropdown button.
pub open spec fn toggled_times(v: Visibility, n: nat) -> Visibility
    decreases n,
{
    if n == 0 {
        v
    } else {
        toggled(toggled_times(v, (n - 1) as nat))
    }
}

/// How many of the interactions are presses.
pub open spec fn press_count(interactions: Seq<Interaction>) -> nat
    decreases interactions.len(),
{
    if interactions.len() == 0 {
        0
    } else {
        press_count(interactions.drop_last()) + if interactions.last() == Interaction::Pressed {
            1nat
        } else {
            0nat
        }
    }
}

/// The visibility of the dropdown content after one click on its button.
pub fn toggle(v: Visibility) -> (r: Visibility)
    ensures
        r == toggled(v),
{
    match v {
        Visibility::Hidden => Visibility::Visible,
        _ => Visibility::Hidden,
    }
}

/// The dropdown button's changed interactions of a frame, applied to the
/// dropdown content's visibility: each press toggles it.
pub fn handle_dropdown(interactions: &Vec<Interaction>, visibility: &mut Visibility)
    ensures
        *final(visibility) == toggled_times(*old(visibility), press_count(interactions@)),
{
    for i in 0..interactions.len()
        invariant
            *visibility == toggled_times(*old(visibility), press_count(interactions@.take(i as int))),
    {
        assert(interactions@.take(i + 1).drop_last() =~= interactions@.take(i as int));
        if interactions[i] == Interaction::Pressed {
            *visibility = toggle(*visibility);
        }
    }
    assert(interactions@.take(interactions.len() as int) =~= interactions@);
}

/// The entity of the last press among the interactions, if any.
pub open spec fn last_pressed(interactions: Seq<(u64, Interaction)>) -> Option<u64>
    decreases interactions.len(),
{
    if interactions.len() == 0 {
        None
    } else if interactions.last().1 == Interaction::Pressed {
        Some(interactions.last().0)
    } else {
        last_pressed(interactions.drop_last())
    }
}

/// The text inputs after a press on `entity`: the input of that entity takes
/// the typing, every other input ignores it.
pub open spec fn focused_on(inputs: Seq<TextInputField>, entity: u64) -> Seq<TextInputField> {
    inputs.map_values(|f: TextInputField| TextInputField { entity: f.entity, inactive: f.entity != entity })
}

/// The text inputs after a frame's interactions: the last press decides.
pub open spec fn after_focus(inputs: Seq<TextInputField>, interactions: Seq<(u64, Interaction)>) -> Seq<TextInputField> {
    match last_pressed(interactions) {
        Some(e) => focused_on(inputs, e),
        None => inputs,
    }
}

/// A frame's changed interactions, each with the entity it belongs to,
/// applied to the text inputs: a press on an entity activates the input of
/// that entity and deactivates all others.
pub fn focus(interactions: &Vec<(u64, Interaction)>, inputs: &mut Vec<TextInputField>)
    ensures
        final(inputs)@ == after_focus(old(inputs)@, interactions@),
{
    let ghost start = inputs@;
    for i in 0..interactions.len()
        invariant
            inputs@ == after_focus(start, interactions@.take(i as int)),
    {
        assert(interactions@.take(i + 1).drop_last() =~= interactions@.take(i as int));
        let (pressed_entity, interaction) = interactions[i];
        if interaction == Interaction::Pressed {
            let ghost before = inputs@;
            let n = inputs.len();
            for j in 0..n
                invariant
                    n == inputs@.len(),
                    n == before.len(),
                    forall|k: int| 0 <= k < j ==> #[trigger] inputs@[k] == (TextInputField {
                        entity: before[k].entity,
                        inactive: before[k].entity != pressed_entity,
                    }),
                    forall|k: int| j <= k < n ==> #[trigger] inputs@[k] == before[k],
            {
                let f = inputs[j];
                inputs.set(j, TextInputField { entity: f.entity, inactive: f.entity != pressed_entity });
            }
            assert(inputs@ =~= focused_on(start, pressed_entity));
        }
    }
    assert(interactions@.take(interactions.len() as int) =~= interactions@);
}

/// The text inputs after a frame: where Escape was just pressed, every input
/// ignores typing.
pub open spec fn after_escape(inputs: Seq<TextInputField>, escape_pressed: bool) -> Seq<TextInputField> {
    if escape_pressed {
        inputs.map_values(|f: TextInputField| TextInputField { entity: f.entity, inactive: true })
    } else {
        inputs
    }
}

/// Escape, just pressed, deactivates every text input.
pub fn handle_escape_key(escape_pressed: bool, inputs: &mut Vec<TextInputField>)
    ensures
        final(inputs)@ == after_escape(old(inputs)@, escape_pressed),
{
    if escape_pressed {
        let ghost before = inputs@;
        let n = inputs.len();
        for j in 0..n
            invariant
                n == inputs@.len(),
                n == before.len(),
                forall|k: int| 0 <= k < j ==> #[trigger] inputs@[k] == (TextInputField {
                    entity: before[k].entity,
                    inactive: true,
                }),
                forall|k: int| j <= k < n ==> #[trigger] inputs@[k] == before[k],
        {
            let f = inputs[j];
            inputs.set(j, TextInputField { entity: f.entity, inactive: true });
        }
        assert(inputs@ =~= after_escape(before, true));
    }
}

/// The positions of the presses among the interactions, in order.
pub open spec fn pressed_positions(interactions: Seq<Interaction>) -> Seq<int>
    decreases interactions.len(),
{
    if interactions.len() == 0 {
        Seq::empty()
    } else {
        let rest = pressed_positions(interactions.drop_last());
        if interactions.last() == Interaction::Pressed {
            rest.push(interactions.len() - 1)
        } else {
            rest
        }
    }
}

/// The positions of the presses among a frame's changed interactions with
/// the model options, in order: one model is placed in the room for each.
pub fn pressed_indices(interactions: &Vec<Interaction>) -> (r: Vec<usize>)
    ensures
        r@.map_values(|k: usize| k as int) == pressed_positions(interactions@),
{
    let mut r: Vec<usize> = Vec::new();
    for i in 0..interactions.len()
        invariant
            r@.map_values(|k: usize| k as int) == pressed_positions(interactions@.take(i as int)),
    {
        assert(interactions@.take(i + 1).drop_last() =~= interactions@.take(i as int));
        if interactions[i] == Interaction::Pressed {
            let ghost before = r@;
            r.push(i);
            assert(r@.map_values(|k: usize| k as int) =~= before.map_values(|k: usize| k as int).push(i as int));
        }
    }
    assert(interactions@.take(interactions.len() as int) =~= interactions@);
    r
}

/// Each position that `pressed_positions` lists holds a press, the positions
/// rise strictly, and every press is listed: one model is placed for each
/// press on a model option, in the order of the options.
pub proof fn lemma_pressed_positions(interactions: Seq<Interaction>)
    ensures
        forall|k: int|
            0 <= k < pressed_positions(interactions).len() ==> 0 <= (#[trigger] pressed_positions(
                interactions,
            )[k]) < interactions.len() && interactions[pressed_positions(interactions)[k]]
                == Interaction::Pressed,
        forall|k: int, l: int|
            0 <= k < l < pressed_positions(interactions).len() ==> pressed_positions(interactions)[k]
                < pressed_positions(interactions)[l],
        forall|i: int|
            0 <= i < interactions.len() && interactions[i] == Interaction::Pressed
                ==> pressed_positions(interactions).contains(i),
        pressed_positions(interactions).len() == press_count(interactions),
    decreases interactions.len(),
{
    if interactions.len() > 0 {
        let d = interactions.drop_last();
        lemma_pressed_positions(d);
        let rest = pressed_positions(d);
        let p = pressed_positions(interactions);
        assert forall|k: int| 0 <= k < p.len() implies 0 <= (#[trigger] p[k]) < interactions.len()
            && interactions[p[k]] == Interaction::Pressed by {
            if k < rest.len() {
                assert(p[k] == rest[k]);
                assert(d[rest[k]] == interactions[rest[k]]);
            }
        }
        assert forall|k: int, l: int| 0 <= k < l < p.len() implies p[k] < p[l] by {
            assert(p[k] == rest[k]);
            if l < rest.len() {
                assert(p[l] == rest[l]);
            }
        }
        assert forall|i: int|
            0 <= i < interactions.len() && interactions[i] == Interaction::Pressed implies p.contains(i) by {
            if i < d.len() {
                assert(d[i] == interactions[i]);
                let k = choose|k: int| 0 <= k < rest.len() && rest[k] == i;
                assert(p[k] == rest[k]);
            } else {
                assert(p[p.len() - 1] == i);
            }
        }
    }
}

/// A click never leaves the dropdown content inheriting its visibility, and
/// two clicks bring shown or hidden content back to where it was.
pub proof fn lemma_toggle_twice(v: Visibility)
    ensures
        toggled(v) != Visibility::Inherited,
        v != Visibility::Inherited ==> toggled(toggled(v)) == v,
{
}

/// After one or more clicks, the dropdown content is as after one click
/// where their number is odd, and as after two where it is even.
pub proof fn lemma_toggled_times(v: Visibility, n: nat)
    requires
        n >= 1,
    ensures
        toggled_times(v, n) == if n % 2 == 1 {
            toggled(v)
        } else {
            toggled(toggled(v))
        },
    decreases n,
{
    if n > 1 {
        lemma_toggled_times(v, (n - 1) as nat);
        lemma_toggle_twice(toggled(v));
    } else {
        assert(toggled_times(v, 0) == v);
    }
}

/// Whether the entities of the text inputs are pairwise distinct.
pub open spec fn distinct_entities(inputs: Seq<TextInputField>) -> bool {
    forall|i: int, j: int|
        0 <= i < inputs.len() && 0 <= j < inputs.len() && i != j ==> inputs[i].entity != inputs[j].entity
}

/// After a press, at most one text input takes the typing, and where the
/// pressed entity is one of the inputs, exactly that one does.
pub proof fn lemma_focus_single_active(inputs: Seq<TextInputField>, entity: u64)
    requires
        distinct_entities(inputs),
    ensures
        forall|i: int, j: int|
            0 <= i < inputs.len() && 0 <= j < inputs.len() && !focused_on(inputs, entity)[i].inactive
                && !focused_on(inputs, entity)[j].inactive ==> i == j,
        forall|i: int|
            0 <= i < inputs.len() ==> (!(#[trigger] focused_on(inputs, entity)[i]).inactive
                <==> inputs[i].entity == entity),
        focused_on(inputs, entity).len() == inputs.len(),
{
}

/// After Escape, no text input takes the typing, and the inputs stay the
/// same entities in the same order.
pub proof fn lemma_escape_deactivates_all(inputs: Seq<TextInputField>)
    ensures
        after_escape(inputs, true).len() == inputs.len(),
        forall|i: int|
            0 <= i < inputs.len() ==> (#[trigger] after_escape(inputs, true)[i]).inactive
                && after_escape(inputs, true)[i].entity == inputs[i].entity,
{
}

/// The last press of a frame decides the focus: where the press at position
/// `k` is followed by no other press, every input keeps its entity and
/// ignores typing exactly when its entity is not the pressed one, whatever
/// it did before.
pub proof fn lemma_last_press_decides_focus(
    inputs: Seq<TextInputField>,
    interactions: Seq<(u64, Interaction)>,
    k: int,
)
    requires
        0 <= k < interactions.len(),
        interactions[k].1 == Interaction::Pressed,
        forall|m: int| k < m < interactions.len() ==> interactions[m].1 != Interaction::Pressed,
    ensures
        after_focus(inputs, interactions).len() == inputs.len(),
        forall|i: int|
            0 <= i < inputs.len() ==> (#[trigger] after_focus(inputs, interactions)[i]).entity
                == inputs[i].entity && after_focus(inputs, interactions)[i].inactive == (inputs[i].entity
                != interactions[k].0),
    decreases interactions.len(),
{
    if k < interactions.len() - 1 {
        let d = interactions.drop_last();
        assert(d[k] == interactions[k]);
        assert forall|m: int| k < m < d.len() implies d[m].1 != Interaction::Pressed by {
            assert(d[m] == interactions[m]);
        }
        lemma_last_press_decides_focus(inputs, d, k);
        assert(interactions.last() == interactions[interactions.len() - 1]);
    }
}

/// A frame without a press leaves every text input as it was.
pub proof fn lemma_no_press_keeps_focus(inputs: Seq<TextInputField>, interactions: Seq<(u64, Interaction)>)
    requires
        forall|m: int| 0 <= m < interactions.len() ==> interactions[m].1 != Interaction::Pressed,
    ensures
        after_focus(inputs, interactions) == inputs,
    decreases interactions.len(),
{
    if interactions.len() > 0 {
        let d = interactions.drop_last();
        assert forall|m: int| 0 <= m < d.len() implies d[m].1 != Interaction::Pressed by {
            assert(d[m] == interactions[m]);
        }
        lemma_no_press_keeps_focus(inputs, d);
        assert(interactions.last() == interactions[interactions.len() - 1]);
    }
}

/// A frame without Escape leaves the text inputs as they are.
pub proof fn lemma_no_escape_keeps_inputs(inputs: Seq<TextInputField>)
    ensures
        after_escape(inputs, false) == inputs,
{
}

/// One click shows hidden dropdown content and hides shown or inheriting
/// content; no click leaves it as it was.
pub proof fn lemma_click_values(v: Visibility)
    ensures
        toggled(Visibility::Hidden) == Visibility::Visible,
        toggled(Visibility::Visible) == Visibility::Hidden,
        toggled(Visibility::Inherited) == Visibility::Hidden,
        toggled_times(v, 0) == v,
        toggled_times(v, 1) == toggled(v),
{
    assert(toggled_times(v, 0) == v);
}

} // verus!
