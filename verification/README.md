# ikat_core

The scene-graph core of a UI runtime, verified with Verus: node handles and kinds, the
node store and its tree operations, role / data-slot lookup, the text-editing kernel of text
inputs, and the state machines of the interactive controls (toggles, radios, sliders,
dropdowns, tab lists).

- `src/` is the verified library. Every public function carries a contract over spec
  functions and views; the laws that relate several operations are public proof functions
  named `law_*`.
- `tests/` exercises the library on concrete scenes.
- `app/` is the host-facing layer: serde and bitflags forms of the library's types, layout
  and key-code conversions, the host clipboard bridge, and the floating-point parts of
  control state (slider values, keyframe positions).
