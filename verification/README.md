# kvx_queue

A task queue kept in a key-value store, written in Verus.

A task has a name, a JSON value and a time for which it is scheduled. Its key says which state it
is in: `pending/<scheduled>-<name>`, `running/<claimed>-<scheduled>-<name>` or
`finished/<finished>-<scheduled>-<name>`. The operations of the queue move values between such keys.

- `src/text.rs`, `src/segment.rs`, `src/key.rs`: numbers, segments, scopes and keys.
- `src/task.rs`: tasks, their keys, and how a task is read back from its key.
- `src/store.rs`, `src/memory.rs`: the store, and a backend that keeps it in memory.
- `src/clock.rs`: the current time.
- `src/select.rs`: the choices made among listed keys.
- `src/queue.rs`: the operations and what each of them may do to the entries of the store.
- `src/laws.rs`: what holds of the operations together.
- `app/`: a queue behind a lock, for several threads.

A backend may refuse a request with an error. The contracts say what holds then, and what holds of
a backend that refuses nothing, such as the one in memory. They also say what is
asked of the backend, reads and changes alike, and what follows from each answer, over a record of
the requests that exists in contracts alone.
