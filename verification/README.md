# Tourvia

Tournament administration for esports and other competitions: single
elimination, double elimination (upper and lower brackets with a grand
final) and round robin, with automatic BYE handling, score entry that
advances winners and drops losers, standings, JSON export and import, a
global roster of teams and a web image search for team logos.

## Layout

- `src/` — the library, written in Verus and verified:
  - `store.rs`: the tournament tables (tournaments, participants, rounds,
    matches) with their key constraints;
  - `services/`: bracket planning and generation, the circle-method round
    robin, score submission with BYE resolution, standings and statistics,
    tournament import/export;
  - `actions.rs`: what the application's buttons do (adding and reseeding
    participants, generating brackets, entering scores, searching);
  - `utils.rs`, `text.rs`, `sorting.rs`, `presentation.rs`, `scraper.rs`:
    seeding order and round names, text handling, stable ordering, display
    helpers, and reading image search results;
  - `table.rs`: filtering rows of a table while keeping their order;
  - `export_layout.rs`: the geometry of the exported bracket picture;
  - `logo.rs`: shrinking downloaded images to logos.
- `tests/` — tests of the library.
- `app/` — the desktop application (egui): screens, SQLite persistence,
  JSON files, drawing the exported picture and network access.
