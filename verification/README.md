# structured_json_pipeline

Schema-driven extraction of structured JSON from free text, as a verified
library with an unverified runtime around it.

A caller describes the fields it wants (`ExtractionSchema`: name, type,
description, whether required). A cascade of layers tries to fill them:
GLiNER span extraction, Flan-T5 generation, Qwen generation constrained by
a GBNF grammar, and finally a proximity heuristic that needs no model.

## Layout

- `src/` — the verified library (Verus).
  - `schema.rs`: the schema and the extracted values.
  - `text.rs`: character-level text operations and byte offsets.
  - `proximity/`: the proximity heuristic — word segmentation, number,
    boolean and string candidates, field anchors, scoring, greedy
    one-to-one assignment, and the laws that hold of every result.
  - `gliner/`: the labels asked of GLiNER, what each returned span is worth
    (quotes, context, parsed values), and the final object.
  - `gbnf.rs`: the grammar of a schema.
  - `cleanup.rs`, `replies.rs`: model output without code fences, read as JSON.
  - `prompts.rs`: the prompts of the generation layers.
  - `decoding.rs`: the state of a greedy decoding loop.
  - `cascade.rs`: the order in which the cascade runs its layers.
- `tests/` — tests of the library.
- `app/` — the runtime: model loading and inference, the cascade driver,
  JSON output, the serde form of the schema, and the command-line programs.
