# dsh_desktop

The skin system of the DSH desktop shell, which hosts the DeepSeek Harness
(`dsh`) web UI and lets it be re-skinned by installable packages
(`.dshskin`, a zip of `skin.json`, `theme.css` and `assets/`).

`src/` is the verified library (Verus):

- `text` — white space and trimming, decimal numbers in and out, splitting and
  joining, the lexicographic order of strings;
- `paths` — Unix paths as text (components, join, prefix, final name) and the
  shell's data locations;
- `skin` — skin metadata, the settings-page summary, the configuration, the
  listing order, activation and removal rules, error messages;
- `package` — which skin a package holds and where each entry is written;
- `inject` — the script that puts a skin's CSS into the page;
- `dsh` — the order in which the `dsh` executable is looked for and which
  one is picked, what each line of `dsh web`'s output means while the shell
  waits for its port, the UI address, and the messages for a failed start.

`app/` is the program around it: file and process work, JSON reading and
writing, and a command line offering the settings page's commands.
`tests/` runs the library, much of it against `std` on the same inputs.
