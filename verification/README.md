# yog_modlist

The logic of an in-game mod browser for Yog Mod Loader, verified with Verus.

- `src/` — the verified library: word splitting and greedy wrapping
  (`wrap`), truncation with an ellipsis, the host's UI event grammar, the set
  of open description cards, the list entries built from the loader's records,
  and the texts each row and the header show.
- `app/` — the mod itself: registration with the loader, `f32` layout,
  drawing, scrolling and hit-testing, which call into the library.
- `tests/` — tests of the library on concrete values.
