# gitcommitgenerator

A Git commit message generator for OpenAI-compatible chat completion APIs,
with its logic written in Verus and proved against its contracts.

Layout:

- `src/` is the verified library:
  - `text.rs`: character-level string operations stated over `Seq<char>`;
  - `diff.rs`: sanitizing a diff and fitting it into the input budget;
  - `changes.rs`: the file selector and the assembly of the change set;
  - `commit.rs`: `git commit` arguments and the fixes offered after a
    failed commit;
  - `config.rs`: defaults and the merge of command line, file and
    environment;
  - `json.rs`, `reply.rs`, `llm.rs`: reading a chat completion reply, the
    request URL and content, and the retry decisions of one exchange;
  - `git.rs`: reading the output of the commands the tool runs;
  - `shell.rs`: shell-style word splitting.
- `app/` is the program around it: argument parsing, the configuration file,
  running `git`, the HTTP exchange and the prompts.
- `tests/` runs the library on concrete inputs.
