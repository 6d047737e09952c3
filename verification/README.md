# schema_faker

Generates fake data from a declaration of fields. A field is either an object
of further fields or a utility: a fake first name, a fake last name, or a
reference to another field (written as a `/`-separated pattern, absolute when
it starts with `/`).

Generation happens in two steps:

1. **Inspection** (`src/inspect.rs`) places every reference in the dependency
   graph of the object (the *level*) whose fields it orders, refuses
   references that cannot be placed or that would close a cycle, and sorts
   each level topologically (`src/graph.rs`, on `daggy`).
2. **Generation** (`src/generate.rs`) walks the declaration, generating the
   fields of each object in the order of its level (`src/json.rs` holds the
   generated value). The contract of `generate` describes a run turn by turn
   (`object_run`): the fields are taken in a generation order that follows
   the level order, and a reference copies the value its target holds at its
   turn, or generation fails at that target. In `src/laws.rs`,
   `law_dependencies_generated_first` shows that such an order puts a field
   after every field it depends on, and `law_reference_copies_earlier_field`
   that a reference to a sibling ends holding the sibling's value, generated
   at an earlier turn.

`src/parse.rs` holds the input form of a declaration and the shorthand
grammar of utilities; `src/pointer.rs` holds JSON pointers as token
sequences; `src/laws.rs` states properties that relate several operations.
Everything under `src/` is verified with Verus. `app/` reads
`dev_schema.json`, runs both steps and prints the result as JSON.
