# boc

The scheduling core of behaviour-oriented concurrency, verified with Verus.

A *cown* (concurrent owner) protects a value: it is the only way to that value.
A *behaviour* is a routine with the list of cowns that it needs. It runs once it
has acquired all of them, and gives them back afterwards. Behaviours that share
no cown may run at the same time. Behaviours that share one run one after the
other, in the order in which they were scheduled.

## Layout

- `src/protocol.rs`, `src/moves.rs`: the coordination protocol as a transition
  system, with its invariant. Nothing in them runs.
- `src/laws.rs`: what the protocol guarantees. No two behaviours hold one cown at
  the same time; queues are first in, first out; the enqueueing of a behaviour
  takes effect at once; no behaviours wait for each other in a circle. Without new
  behaviours every run of steps that do not wait comes to an end, and where nobody
  can go on, every behaviour has run once and is gone.
- `src/mcs/`: the lock-free discipline. The queue of a cown is a linked list of
  requests with an atomic tail; a scheduler links itself to the request in front
  as soon as that one is scheduled.
- `src/locked/`: the locking discipline. The end of the queue stands behind a
  lock; whoever joins registers at the request in front, and is told when that
  one releases the cown. The place where a value is borrowed is noted.
- `src/sorting.rs`: the global order in which cowns are asked for.
- `src/resource.rs`: values of different types in one runtime.
- `tests/`: the library on concrete values, all interleavings of two schedulers
  among them.
- `app/`: threads. The runtimes stand behind locks and threads make their steps;
  routines run on threads of their own or on the pool of `rayon`. `when!` and
  `run_when` are for users.

## How to read the contracts

Each discipline has a `Runtime`, which holds all memory that threads share. Its
view is a `Memory`: the words in memory, and the state of the protocol that they
stand for. A public function makes one step of one program of one behaviour, or
several, and its contract says which memory comes out of which. (`resolve_one` is
only the part of a step that counts.) `coupling.rs` shows that every step keeps the
invariant and is a move of the protocol or none. `laws.rs` speaks of all sequences
of such steps, and so of all ways in which threads can interleave. `atomicity.rs`
and `handover.rs` say what scheduling a behaviour and giving back a cown come to
as a whole.

A value lives in its cown until it is reclaimed. `app/` does so when the last
handle is gone and nobody asks for the cown any more.

A cown that is asked for twice by one behaviour is never acquired by it: the
second request waits for the first one, for ever. The guarantees of progress
speak of behaviours without repeated cowns.
