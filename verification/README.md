# better_spotlight

The logic of a keyboard-driven macOS launcher, written in Verus. The functions
under `src/` carry contracts that Verus proves, except a few small trusted
wrappers (marked `#[verifier::external_body]`) around calls into std and the
outside crates `global-hotkey`, `icns` and `plist`: their contracts are
believed, and their doc comments say what they claim.

- `src/fuzzy.rs`: the subsequence fuzzy matcher that ranks applications.
- `src/search.rs`: ranking of matches, selection and scrolling of the result
  list, the state step of a key press, query editing, UTF-8/UTF-16 offsets and edits for the input method,
  which visible icons to load, the
  confirmation step of destructive clipboard actions.
- `src/clipboard_history.rs`: the in-memory clipboard history.
- `src/calculator.rs`: the grammar of calculator expressions.
- `src/files.rs`: turning the output of `mdfind -0` into file results.
- `src/apps.rs`: which directory entries are applications, their names and
  `Info.plist` metadata, their listing order, where their icons lie and
  which icon of an `.icns` file is decoded.
- `src/config.rs`: reading and labelling the global shortcut.
- `src/theme.rs`, `src/results.rs`: tiles and section headers.
- `src/text.rs`: character-level helpers shared by the modules above.

`app/` is the program around the library: the GPUI window, the global hotkey,
file and process I/O, and the floating-point evaluation of calculations.
`tests/` runs the library on concrete inputs.
