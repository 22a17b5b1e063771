# dynamo_serving

Decision logic of a model-serving stack, written and proved in Verus.

- `unified`: one parser for each choice of a chat response owns reasoning, text and tool
  calls. Its ordered deltas become streaming chunks (`choice`, `stream`) or one message
  (`batch`). `request` says what a request's settings mean for the parser.
- `session_affinity`: replicas of a router agree on the worker that a session sticks to.
- `worker_selection`: round robin, random, power of two choices and least loaded.

`src/` is the library. What its functions promise stands in their contracts; what holds of
several of them together stands as public proof functions named `law_...`, next to the
definitions or in the modules `laws`, `stream_laws` and `whole_stream`. Calls into other crates are in the
modules named `outside`, with what is taken on trust of each.

`app/` is ordinary Rust around the library: wire types, asynchronous streams, the switch in
the environment, the registry of policies, and the placing of floating-point costs.
