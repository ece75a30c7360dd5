# tg_opencode

A Telegram bot that runs the opencode CLI on coding tasks, one workspace folder per
project and chat, with its decisions written in Verus and proved against their
contracts.

## Layout

- `src/` — the verified library:
  - `task_service.rs` — the state machine of chats, projects and tasks (create,
    switch, delete, run, cancel, output, fallback decisions, restore), with the
    laws it keeps;
  - `commands.rs` — command arguments, plain messages, button data and awaited
    input;
  - `output.rs` — status cards and task output as chat messages;
  - `replies.rs` — project and model lists, CLI listings, delete checks;
  - `menus.rs` — the inline keyboards;
  - `runner.rs`, `runtime_env.rs` — CLI arguments, listings and the isolated
    environment of a run;
  - `settings.rs`, `util.rs`, `names.rs`, `text.rs`, `keyed.rs`, `patterns.rs`,
    `models.rs` — settings, names, text and collection models, regular expressions.
- `app/` — the program around it: Telegram handlers, the background runs of the
  CLI, the history file.
- `tests/` — tests of the library.

## Running

Set `BOT_TOKEN` (and optionally `WORKSPACE_ROOT`, `DEFAULT_MODEL`, `FALLBACK_MODEL`,
`TASK_HISTORY_FILE`, `MAX_OUTPUT_CHARS`, `DEFAULT_AGENT`, `DEFAULT_PROJECT_NAME`,
`DEFAULT_THINKING`, `OPENCODE_BIN`, `OPENCODE_EXTRA_ARGS`) and start the program in
`app/`.
