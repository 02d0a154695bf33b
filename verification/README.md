# tstream

A terminal chat client for hosted language models (Mistral and OpenAI), with its
decision-making core verified by Verus.

- `src/` is the verified library:
  - `text`: whitespace, trimming, tokenizing, splitting on a separator;
  - `number`: decimal numerals and reading a menu choice;
  - `models`: the records of the prompts file, the stream and the history;
  - `menu`: the (model, prompt) options, the printed menu, selection by number;
  - `session`: what user input does to the conversation, token counts, the
    transcript and its file name;
  - `stream`: cutting the server-sent reply into chunks and reading their text;
  - `files`: history path, unique transcript names, the transcript document;
  - `cli`: command-line switches and provider settings.
- `app/` is the program: terminal and file I/O, HTTP streaming, and the serde
  copies of the library's records.
- `tests/` exercises the library on concrete values.
