# bedrockformation

Finds where a pattern of bedrock lies in a Minecraft world, given the seed of the world. The search
walks outwards from a centre along a square spiral, so the first match is a nearest one.

The library under `src/` is verified with Verus: every executable function carries a contract, and
the laws that tie the functions together are public proof functions whose names begin with `law_`.

| Module | Content |
|---|---|
| `rng`, `hash`, `bedrock` | random numbers of a world, the hash of a position, probabilities |
| `spiral` | the order in which positions are examined |
| `blocks`, `lanes`, `simd_avx2`, `simd_avx512` | testing a pattern at one or eight positions |
| `rotations`, `prepare` | the rotations of a pattern, and what is left of it to test |
| `search`, `collect` | the search, on all threads or elsewhere, for one match or for many |
| `moved` | moving a pattern moves its matches |
| `gpu` | what a graphics processor is told about a search, and what its answer means |
| `grid`, `grid_turns` | the grid in which a pattern is drawn |
| `gui`, `text` | the state of the window, its changes and its texts |

`tests/` runs the library. `app/` is the window and the graphics processor around it; it uses `iced`
0.12 for the one and `wgpu` 0.19 (feature `wgsl`) for the other.
