# notes, verified

The logic of a markdown note editor with vim keys and a local assistant,
written in Verus: each function's behaviour is stated in `requires` /
`ensures` over mathematical models, and proved.

- `src/` is the library. Strings are modelled as `Seq<char>`, files as
  sequences of named texts, and each stateful type has a view.
  - `strs` — text primitives and their specifications
  - `diff` — the word diff behind every suggestion
  - `calendar`, `clock` — dates, weekdays and the clock's answers
  - `finder` — fuzzy search over notes
  - `indent`, `markdown`, `text` — what a new line inherits, shifting lines
  - `digest` — what the model is told of a project, and what moved since
  - `calc` — the calculator's tokens and its grammar
  - `commands` — what a line typed after `:` asks the editor for
  - `llm`, `answering` — prompts, tool calls, and the assistant's states
  - `assist` — the suggestion panel opened on a selection
  - `dialog`, `fetch` — the file dialog and the weights download
  - `chat` — conversations: their turns, proposed changes and what accepting
    one does to the notes, commands, the picker, filing and reading back
- `app/` is the rest: the clock, the disk, the worker thread, `curl`, and
  the calculator's floating point. Each part reads or sends and hands the
  library plain values.
- `tests/` runs the library on concrete values.

The laws the library keeps are public proof functions named `law_*`, beside
the functions they are about.
