# transcription_analyzer

Transcribes the `.MOV` recordings of a directory with the local `prattl`
model and writes a markdown summary of each transcription, made by a language
model, into a target directory.

- `src/` is the verified library: choosing the files to convert and where
  their audio goes (`convert`), judging prattl's state and deciding what to
  do about it, and reading the JSON document out of prattl's output
  (`prattl`, `transcriptions`), planning the summaries and their file names
  and layout (`summarize`), the character-level text helpers they rest on
  (`text`), and reading a yes/no answer (`lib.rs`).
- `app/` is the program around it: the command line, running ffmpeg and
  prattl, asking the user, calling the language model and writing files.
