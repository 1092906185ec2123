# walk_and_talk

The rules of the walk-and-talk Bevy game template, as a verified library,
with the game itself in `app/`.

- `src/inputs`: actions, binding modes (held, just pressed, timed hold,
  repeat on hold), per-context filtering, gamepad axis edge triggering,
  active-device detection, choosing the binding table, and menu focus
  navigation over a button grid.
- `src/menu`: menu ids and what entering each menu changes, the menu
  registry, how startup changes resolve,
  the current-menu switch, and the button grid (`layout`).
- `src/scenes`: level ids and what entering each level changes, the level
  registry, and the prefab rules (floor buttons, the lights that follow
  them, NPC focus, the player's pause and interact controls).
- `app/`: the Bevy plugins and systems. They read devices, physics and
  the UI, hand plain values to the library, and apply what it returns.

Engine values cross the boundary as plain data: entities as their 64-bit
ids, keys/buttons/axes as codes numbered by `app/`, times in microseconds
and axis positions in millionths of full deflection.
