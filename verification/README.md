# crucible

Crucible finds out what an event-driven fleet does when it is broken. It runs a
scenario against a replica of the fleet once with nothing broken, learns from the
traffic where the fleet could be broken, and then runs the scenario again and
again with one fault placed in it each time. A run is judged by where the fleet
settles: whether that is somewhere the steps it accepted could have left it, and
if not, which of durability, idempotency, convergence and recovery it broke.

This is a Verus project. `src/` is the library, verified throughout; `app/` is
the ordinary Rust around it that talks to sockets, the Docker daemon, the
database and the terminal; `tests/` runs the library on concrete values.

## The library

| Module | What it holds |
| --- | --- |
| `dsl` | the `.cru` front end: lexer, parser, validation and lowering to a plan |
| `plan`, `schema`, `fingerprint` | what a scenario file comes down to, what plugins declare, and the hash of a plan |
| `protocol`, `fault`, `schedule`, `learned` | the vocabulary of runs, faults and what is known of a fleet |
| `proxy`, `proxy_log`, `observer` | connections, the sessions and bursts read off them, and waiting on what a proxy reports |
| `amqp`, `kind` | reading a broker's traffic, and placing a fault in it |
| `engine::scheduler`, `scheduler` | which faults a campaign spends its budget on, and in what order |
| `engine::orchestrator`, `orchestrator` | what a run does next, given how the last thing went |
| `verdict` | what a run's readings say the fleet did |
| `deployment`, `fleet`, `scenario`, `ipc`, `journal`, `engine::event_bus`, `progress` | what is asked of the daemon, what goes over the wire, and where it is kept |
| `text`, `bytes`, `time`, `sorting`, `turns` | what the rest is written with |

Each type has a model, reached by `deep_view`, and contracts speak of models. Laws
that relate several functions are public proof functions, named `lemma_*`; those
of a larger part of the library stand in a `laws` module of their own.

Where something outside has to be waited for, the library is a state machine: it
says what to do next, is told what came of it, and says again. `app/` runs the
loop.
