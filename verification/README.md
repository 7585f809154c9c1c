# qwen_forced_aligner

Word-level timestamps for a transcript and its audio, with the Qwen3 forced aligner.

The transcript is split into words; every word gets a place for its start and one for its
end in the input of the model. The audio becomes log-mel features, the features become
tokens, and the tokens take their places in the input. The model scores time steps at
the places of the words; the best steps become times, and times that run backwards are
repaired.

`src/` is a Verus library. It holds what can be stated exactly: the text, the prompt,
the layout of tensors, the plans of devices, the weights of a model, and the way from
scores to times. Numbers of the model are kept as bit patterns, and their arithmetic is
specified by rounding of rationals (`rounding`, `binary16`, `binary32`, `binary64`).
What is taken on trust of other crates stands in wrappers with a contract each: in
`text` (`lindera`), `tokenizer` (`tokenizers`), `weights` (`safetensors`, `serde_json`),
`launch` (`cudarc`), and in `chars` and `text` for three functions of the standard library.
Where one of these calls would panic, its contract asks for what rules that out, and the
library tests for it or keeps it as an invariant.

`app/` is the command line, file access, and the arithmetic of the model on the CPU.

    align --audio a.wav --text a.txt --model DIR --language English --output a.json
    batch --manifest jobs.jsonl --model DIR --output-dir OUT

A line of a manifest is a JSON object with `audio`, `text`, and optionally `output` and
`language`. Paths are read as the platform writes them. Audio is best given at 16 kHz in one channel; other rates are converted.
With `QFA_PROFILE` set, the times of the stages are printed. With
`QWEN_ALIGNER_DUMP_RAW=1`, the steps and times before the repair are written next to the
output.
