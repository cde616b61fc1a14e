# bevy_nds

The verified core of a Nintendo DS game platform in the shape of Bevy plugins.

- `src/` is the library: fixed-point maths, touch-loop geometry and brushes, the
  asset formats and their bakers, display lists and the commands of the 3D
  engine, the state machines behind backgrounds, sprites, sound, input, text and
  saves, and the frame-time reader. Verus proves every function's contract, but
  for the trusted items below; what holds between functions stands beside them as
  `law_` proofs.
- `tests/` runs the library on concrete values.
- `app/` is ordinary Rust around it: Bevy plugins that drive the hardware, the
  command-line bakers, and everything that needs floating point. Floats cross
  into the library by their bit patterns.

## What is trusted

Verus believes these contracts without proof. Each says in its doc comment what it
claims of the code it stands for.

| item                                                              | where               | stands for                                    |
|-------------------------------------------------------------------|---------------------|-----------------------------------------------|
| `ExButtonInput`                                                   | `src/input.rs`      | the type `bevy_input::ButtonInput`            |
| `pressed_set`, `just_pressed_set`, `just_released_set`            | `src/input.rs`      | what a `ButtonInput` holds                    |
| `press`, `release`, `clear`                                       | `src/input.rs`      | the methods of `ButtonInput` with these names |
| `debug_text`, `to_debug`                                          | `src/bake/obj.rs`   | the `{:?}` form of a text                     |
| `ExUtf8Error`, the specification of `core::str::from_utf8`        | `src/scene/wire.rs` | reading UTF-8                                 |
| the specification of `String::push`                               | `src/strings.rs`    | appending a character                         |
