# tts_podcast

Turns articles, arXiv papers and PDFs into podcast episodes: scrape or
extract the text, clean it for speech with a language model, optionally
summarize it, synthesize MP3 audio with Google Cloud TTS, and publish the
episodes in a per-feed RSS document.

## Layout

- `src/` — the verified library. Every function carries a `requires` /
  `ensures` contract proved by Verus; the contracts speak of spec
  functions over `Seq<char>` and other mathematical values.
  - `text` — string and character helpers with their specifications
    (trimming, searching, splitting, words, decimal formatting, parsing).
  - `tts` — sentence splitting, chunking, `## ` section parsing and SSML.
  - `clean` — the cleanup plan of papers: anchors, section slicing, chunk
    planning, prompts, model choice and assembly of the cleaned text.
  - `pdf`, `scrape`, `summarize`, `synth`, `storage` — the decisions and
    text processing of extraction, scraping, summarizing, synthesis and
    object storage.
  - `server`, `backend` — configuration, feed and episode endpoints, RSS
    rendering and job-worker decisions of the current server and of the
    first-generation one.
  - `cli` — the decisions of the command-line tool.
- `tests/` — tests run against the compiled library.
- `app/` — the program around the library: HTTP routes, database,
  object storage, model and TTS requests, the job worker loops and the
  command-line tool. Installed as `tts-cli` it runs the command-line tool,
  as `podcast-v1` the first-generation server, otherwise the server.

Calls into outside crates that only compute (base64, SHA-256, hex,
`time`, `scraper`, `readability`) stay in the library behind small
trusted functions whose contracts state, or name, what the crate
returns; those bodies are the only ones Verus does not check.
