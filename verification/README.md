# dubai

The logic of an AI dubbing toolbox, verified with Verus: reading and writing
SRT subtitles, parsing timestamps and addresses, building the prompts for the
translating LLM, and planning voice references (ffmpeg commands) and dubbed
files.

- `src/` is the verified library. Each public function states its result in its
  `ensures` over spec functions on sequences of characters; the `law_*` proof
  functions state properties that span several functions.
- Paths follow Unix rules (`/` is the only separator); the path contracts
  state them for Unix.
- `app/` is the `dubai` program: command line, files, the LLM server and ffmpeg.
- `tests/` runs the library on concrete inputs, several of them against the
  standard library's own behaviour.
