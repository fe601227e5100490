# wren_engine

The core of a small game engine that embeds the Wren scripting language,
written in Verus with its behaviour stated in contracts and proved.

- `src/wren/compiler.rs`: the Wren lexer (`Parser`), specified token by token
  against a mathematical scanner (`sp_next_token`), and the token-matching
  helpers of the compiler.
- `src/wren/report.rs`: the compile-error reports (module, line, message) that
  the host's error callback receives.
- `src/wren/mod.rs`, `src/wren/vm.rs`: the embedding VM's slot, method-handle
  and temporary-root API.
- `src/wren/utils.rs`: growable buffers with power-of-two capacities.
- `src/game.rs`: reading a game profile from its YAML text.
- `src/graphics.rs`: the renderer's decisions (device choice, renderable
  slots, when to recreate the swapchain).
- `app/`: the program around the library: command line, file system, the
  window and the Vulkan renderer.
- `tests/`: tests of the library on concrete inputs.
