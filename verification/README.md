# Speak Local, the verified core

A local-only English practice tool: record yourself speaking, get a transcript,
then a prioritized list of grammar and vocabulary errors with a CEFR level
estimate. Everything runs on one machine.

`src/` is the core, written in Verus. Its contracts say what every function
returns, and its `law_...` proof functions state what holds of the parts
together.

| Module | What it does |
| --- | --- |
| `providers` | transcripts, errors, analyses, and the traits behind which the two models stand |
| `providers::whisper` | from the recognizer's tokens to a transcript and its doubted spans |
| `providers::ollama` | requests to the language model, its replies, filtering and ordering of errors |
| `marks` | wrapping doubted words in `«…»`, and taking the marks away |
| `analysis_extract` | finding complete JSON objects in an answer that is still coming |
| `analysis_hub` | passing that answer on to subscribers, however late they join |
| `jobs`, `streams`, `retention` | analysis jobs, live recording sessions, and how long they are kept |
| `audio` | which packets of an upload make up its signal |
| `handlers` | what each request is answered |
| `config`, `error`, `ids`, `text` | settings, errors, ids, and helpers on text |

What is believed without proof is small: a few functions of `uuid`, `tokio`'s
broadcast channel and the standard library, each behind an item whose comment
says what is claimed of it.

`tests/` runs the library. `app/` is the server around it: environment, HTTP,
audio codecs, the models, and arithmetic on samples.
