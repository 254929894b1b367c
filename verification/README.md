# llm-watch

`llm-watch` shows what coding agents are doing across SSH-accessible development boxes, and
sends a desktop notification when a session is ready, needs approval, or fails.

Agent hooks only write local state on each devbox. The laptop polls the boxes it can reach over
SSH and reads its own state directly under the alias `local`.

## Layout

- `src/` is the library, verified with Verus. It takes plain values and gives plain values:
  texts, records and decisions.
  - `text`, `split`, `number`, `glob`, `sort`, `table`, `paths`: texts, numbers and ordered
    collections.
  - `ids`, `json`, `time`: the modules around outside crates (`uuid`, `serde_json`, `chrono`).
    `notifications` (`shell-words`, and `to_uppercase` of std) and `text` (`String::push`) rest
    on outside items too. Each such item says in its comment what is taken on trust.
  - `model`, `compact`, `config`, `labels`, `prs`: the records and the files a user can edit.
  - `hooks`, `links`, `storage`: what a devbox writes down, and the snapshot it hands out.
  - `discovery`, `dashboard`, `notifications`: which boxes there are, what is shown of them, and
    what is news.
  - `http`, `server`, `wezterm`: the web dashboard and the jump to a terminal tab.
- `app/` is the command: arguments, files, processes, sockets and threads around the library.
- `tests/` runs the library on concrete values.

Laws that relate several functions are public proof functions next to them, such as
`notifications::lemma_new_event_notifies`, `labels::lemma_set_reads_back` or
`storage::lemma_latest_event_is_last`.
