# pocket_decor

A small 3D room-decoration viewer built on bevy: a first-person camera walks
through a room, `.obj` models from `assets/models` are listed in a dropdown,
and a chosen model is placed in the room and can be dragged about.

- `src/` is the verified library (Verus): which directory entries are model
  files and under which asset paths they load (`catalog`), the dropdown labels
  derived from those paths, the dropdown's toggle and the focus rules of the
  text inputs (`controls`), and the walking direction asked for by the
  pressed keys (`movement`).
- `app/main.rs` is the bevy program: it reads the directory, runs the ECS
  systems, and hands the library plain values. Camera turning, field of view
  and model dragging work on floating-point values and stay there.
- `tests/` runs the library on concrete inputs.
