# cc_msg_viewer

A browser for a chat-message history file (`history.jsonl`, one JSON
record per line), split into a verified library and a thin server.

- `src/` is the library, verified with Verus: loading parsed records into a
  newest-first store capped at 50000 messages (`store`), filtered and paged
  queries with case-insensitive search, per-project and per-session
  listings, summary statistics with per-day counts, and the answers of the
  four API endpoints (`handlers`).  `laws` proves properties that relate
  these answers (counts add up, pages join up, statistics agree with the
  listings, loading keeps the newest messages).
- `app/` reads the history file, parses its lines with serde, and serves
  `GET /api/messages`, `/api/projects`, `/api/sessions` and `/api/stats`
  with axum on port 3001.  The file's path comes from `HISTORY_PATH`.
