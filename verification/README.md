# recognize-rs

The verified core of a recognition spike: photos of maths exercises are sent
to a vision model, which transcribes each question and files it under a
knowledge point of a fixed tree (volume > chapter > section > point); graders
then score the results from a review table.

- `src/` — the library, verified with Verus:
  - `knowledge` — the knowledge-point tree, its id index and the structural
    checks made while loading it (repeated ids, ids outside their parent).
  - `recognition` — reading the endpoint's reply, cutting the JSON array out of
    the model's text, building questions and checking their ids.
  - `escapes` — repair of stray backslashes before the array is read as JSON.
  - `config` — the `.env` settings, the endpoint URL and the system prompt.
  - `images` — which files are images, their order, and their data URIs.
  - `report` — the review table, the batch summary, graded-cell lookups.
  - `command` — the command line.
  - `text` — character-level helpers.
- `app/` — the program around it: files, HTTP, CSV and printing.
- `tests/` — tests of the library on concrete values.
