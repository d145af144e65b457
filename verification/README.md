# antigravity_sdk_rust

An SDK for building agents on top of the Antigravity execution harness, whose
decision-making core is verified with Verus.

* `src/` is the verified library:
  * `types` — the data model (configuration, steps, tool calls, usage);
  * `policy` — the tool-call safety policy engine: precedence ordering,
    workspace scoping, and a state machine that hands user callbacks to the
    caller and decides from their outcomes; with its laws (specific rules over
    wildcards, deny over ask over approve, first match within a group, no
    match allows, fail-closed callbacks);
  * `path` — POSIX path components, for workspace scoping;
  * `conversation` — the step history with turn and compaction marks, usage
    totals, history trimming, and the routing of steps into stream chunks;
  * `hooks` — the decisions of hook dispatch (first denial, first recovery,
    first answer);
  * `tools` — the tool registry and tool results;
  * `session` — what an agent session starts with: active tools, policies,
    capabilities;
  * `direct` — requests to and responses from the Gemini REST API;
  * `triggers` — the triggers of a session;
  * `version` — the release version of a Cargo manifest: the package
    version found, the next one (asked for, or the patch raised by one) and
    the manifest rewritten with it.
* `app/` is the asynchronous shell around it: the `Agent`, the `Conversation`
  over a `Connection`, the hook, tool and trigger runners, the policy hook
  that runs user callbacks, the direct Gemini client, and the release script
  (`release`), which checks, bumps, commits and tags.
* `tests/` exercises the library.
