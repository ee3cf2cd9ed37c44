# atlas_editor

The verified core of a sprite-atlas editor.

- `src/` is the library, every function verified against its contract:
  colour decoding (`color`), power-of-two sizes (`coordinate`), the editor's
  model of sprites and atlas size (`app_state`), the shelf allocator of the
  preview texture and the placement of source images in it (`texture_atlas`),
  the hit-test tree arena (`hittest`), the pointer focus state machine and the
  event flags (`input`), the Morton-code quad tree (`quad_tree`) and the sprite
  index built on it (`sprite_index`), the workers' status lines (`bg_worker`),
  the mask brush parameters (`composition`) and the PNG header reader (`png`).
- `tests/` runs the library on concrete values.
- `app/` is the program around it: background loading threads, dropped files,
  floating-point geometry and hit testing, pointer input dispatch, and the
  model's change callbacks.
