# Pointman

Verified building blocks of a native engine for F.E.A.R. (Ultimate Shooter Edition, Steam
app 21090): retail archives, textures, materials and packed worlds, a GOAP planner for the
AI, and the helpers that locate an install. The game data is not part of this project.

## Layout

- `src/` — the library, written in Verus. Every public function carries a contract that
  Verus proves; a few private helpers have none beyond what their callers need.
  - `assets/` — Arch00 (`LTAR`) and REZ archives, zlib payloads (through `flate2`), DDS
    headers and mip chains, Mat00 materials, World00p render surfaces, world models
    (BSP, blockers) and the object section, and the choice of world models drawn in a
    frame.
  - `ai/` — world states, the A* planner over actions, and the replica's actions and
    goals.
  - `game.rs` — install candidates, `Default.archcfg` lines, archive scanning and the
    inventory totals.
  - `render.rs` — texture formats, placeholder uploads and the copy regions of a mip
    chain.
  - `sky.rs`, `player.rs`, `text.rs` — sky materials, movement constants, and the string
    helpers the rest builds on.
- `tests/` — tests that run the library on concrete inputs.
- `app/` — the `pointman` command line: it reads files and the environment, hands the
  bytes to the library, and prints what comes back. Floating-point views of values the
  library keeps as IEEE bit patterns (bounds, headings, colours) live here too.

Floats read from files are kept as their bit patterns (`u32`) in the library, so that
parsers can state exactly which bytes a value comes from.

## Scope

Movement, collision and camera, the Vulkan renderer, and window and gamepad handling are
floating-point or GPU work and are not part of this crate. The choice of world models
drawn in a frame tests hidden placements, shadow catchers, missing and physics BSPs, and
the overlap of a model with the baked mesh; placements carry no visibility, translucency
or sky flags.
