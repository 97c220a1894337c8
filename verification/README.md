# concurrency

Synchronization primitives and concurrent algorithms, verified with Verus.

`src/` is the library. Each primitive is a state machine whose steps are
functions with exact contracts; a caller that shares one between threads
holds it behind a lock and repeats a step (a spin, a retry) until the step
says it may go on.

- `semaphore`, `channel`: a counting semaphore, and a bounded FIFO channel
  built on it.
- `banker_model`, `banker`: the banker's algorithm. `is_safe` is proved to
  answer exactly whether some order lets every thread finish; `take` grants a
  unit only when the state stays safe.
- `spinlock`, `fairlock`, `ticketlock`, `mcs`: locks, with mutual exclusion
  and the order in which waiting threads enter; `fair_waiting` bounds how
  many releases a waiting thread of the fair lock can see.
- `tl2`, `dining`: a software transactional memory after TL2 (versioned
  stripes, read and write sets, commit with validation), and the dining
  philosophers and their observer on top of it.
- `stack`, `stack_bad`: stacks of linked nodes.
- `green`: the scheduling state of green threads (run queue, waiting
  threads, thread ids, message queues).
- `hello`, `selector`: a two-step coroutine, and the table of wakers of an
  I/O selector.
- `session`: what the servers of the session-typed protocols answer.

Public proof functions named `law_*` state properties that relate several
operations.

`app/` holds the example programs (`app <program>`): threads, I/O, async
runtimes and session-typed channels around the library.

`tests/` runs the library on concrete values.
