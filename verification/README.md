# tyr

The logic of a small Node.js package manager, each function held to a
stated contract and proved against it.

- `src/` is the library. `json` reads JSON texts (the registry's answers,
  `package.json`); `lockfile` writes and reads `tyr.lock` and
  compares it with `package.json`; `semvar` splits package specifiers and
  chooses the greatest version in a range (`precedence` orders versions);
  `registry` builds registry URLs and decides on retries;
  `installer` plans an installation from the registry's answer; `manifest`
  covers `package.json` (dependencies, scripts, the project of `init`);
  `text` and `table` are the string and map helpers they share.
- `app/` is the `tyr` command around it: argument parsing, prompts, HTTP,
  files, archives and terminal output.
- `tests/` runs the library on concrete inputs.
