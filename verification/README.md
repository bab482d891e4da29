# gtlv_core

Inference core of a click-captcha solver: detect answer cells and the prompt
strip with a YOLO model, embed crops with a Siamese model, and report the cells,
their features, the prompt features and per-stage timings.

The crate is verified with Verus. `src/` holds the logic with its contracts:

- `perf`: per-stage timer whose stops add up; a disabled timer does nothing.
- `yolo`: ranking by confidence key, non-maximum suppression, letterbox pixels.
- `engine`: answer-cell and prompt-box selection, the extraction plan
  (answers kept where extraction succeeds, prompt features all or nothing),
  image decoding.
- `siamese`: crop and resize for the Siamese input.
- `tensor`: interleaved RGB to channel planes.
- `imaging`: the calls into the `image` crate, with what its source guarantees.
- `types`: per-stage timings of a solve.

`app/` is the ordinary Rust around it: the tract models, the floating-point
geometry (letterbox scale, IoU, prompt character count, segment boxes) and the
solve loop that runs the models and hands their outcomes to the core.
The models are passed to `Engine::new` as bytes.
