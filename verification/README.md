# Supergravity

A coding agent for the desktop. `src/` is its core, a library verified with Verus: executable Rust
whose contracts say exactly what each function returns, and proofs of what holds of the whole.
`app/` is the ordinary Rust around it: HTTP, files, processes, SQLite, the keychain and the window.

| Module | What it decides |
| --- | --- |
| `agent` | the tool-call loop, as a machine that is told what happened and tells what comes next |
| `approvals` | which tool calls wait for the user |
| `tools` | paths and their sandbox, and what each tool answers |
| `providers` | requests to OpenAI, Anthropic, Gemini and Ollama, and the events of their answers |
| `mentions` | files that a message attaches |
| `config`, `store` | preferences, keys, and the words kept in the database |
| `bridge` | running agents, previews, rewinds, file search |
| `types`, `error`, `ids`, `json`, `text` | what the others share |

Paths in the library are `/`-separated texts, absolute where they begin with `/`; `app/paths.rs`
converts native ones.

Some of what holds:

- When a run is over, however it ended, the messages that it kept take turns, every tool call among
  them has its answer, and exactly one event, the last, told that it is over.
- Every request of a run carries the same system message and tools.
- A resolved path lies inside the workspace or the Workshop.
- How the text of an answer is cut into chunks does not change its events; how valid UTF-8 is cut
  does not change its characters, and a character that is split across chunks is held back until
  it is complete.
- Every tool call of an OpenAI stream comes out exactly once.
- No answer of Anthropic, Gemini or Ollama has a `Done` behind an error.
- The arguments of a tool call, once sanitized, parse as one object, and stay so.
- A run turns to its provider at most as often as its limit allows.
- A file search that stays below its bound finds every file outside the directories left out.
- The turns sent to Anthropic alternate, and no block of the history is lost.
- The checkpoint of a call is that of the file which the call changes, and a rewind gives every
  file the contents from before the first change that it undoes.

What the library takes from `serde_json`, `regex`, `glob`, `uuid` and the standard library without
proof stands in small wrappers, each with a comment that says what is claimed of it.
