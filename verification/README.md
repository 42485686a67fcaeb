# kdnlp

Keystroke dynamics: a desktop demo that records how a person types a prompt (the
interval between presses, how long each key is held, the gap between releasing one key
and pressing the next), embeds the session with a pretrained BiLSTM and ranks enrolled
profiles by cosine similarity.

Layout:

- `src/` — the verified library (Verus).
  - `typing` — the typing session: key events on a nanosecond clock, the log of
    per-bigram intervals, releases matched to presses, flight times, backspace.
  - `grouping` — the model of the log grouped by bigram, with its lemmas.
  - `releases` — releases matched to the latest unreleased press of the same key.
  - `controller` — the decisions of the demo screen (which keys reach the session,
    when a ranking starts, what clearing and enrolling reset).
  - `counts` — adding a session's per-bigram counts to a profile.
  - `keys` — which key presses type a character, which character a released key is.
  - `roster` — profiles looked up by name.
  - `prompts`, `palette`, `store` — the prompts, the colour hue of a name, the counts
    restored from older profile files.
- `app/` — the iced GUI, ONNX Runtime embedding, MDS projection, JSON storage and all
  floating-point statistics.
- `tests/` — tests of the library.
