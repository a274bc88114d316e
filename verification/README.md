# maolan_generate

A verified library for music generation: everything around the neural networks of
ACE-Step (text to audio) and MIDI-LLM (text to MIDI), and the converter that turns
published checkpoints into the tensors that the networks load.

- `src/` is the library. Every function has a contract that Verus proves.
  - `convert`: ZIP archives, pickle streams, safetensors checkpoints, tensor names,
    element types, and the command line of the converter.
  - `acestep`: audio codes, prompts, schedules, masks and layouts, candidates of the
    planner and the run that turns tokens into codes.
  - `text_to_midi`: arrival-time tokens, the prompt-driven generator with the tempo,
    key and meter that it reads in a prompt, MIDI files, and what surrounds the
    composing language model.
  - `rounding`, `single`: floating-point arithmetic on bits and exact fractions.
  - `text`, `json`, `tokenizer`, `token_limits`: characters, JSON documents, tokenizers
    and the length of their tokens.
- `tests/` runs the library on concrete values, in part against machine arithmetic.
- `app/` is the converter program and the networks themselves, on top of `burn`.

Numbers that the networks compute with are given by their bits: `single::Single` is a
32-bit floating-point number, and its arithmetic is stated over exact fractions.

Calls into other crates (`base64`, `midly`, `rand`, `safetensors`, `serde_json`,
`tokenizers`, `tokie`) stand behind small wrappers whose contracts are taken on trust;
each says what it claims of the function that it calls.
