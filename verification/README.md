# workbench

A handful of small data structures and algorithms, written in Verus: each
public function states its behaviour as a contract over a mathematical model,
and Verus proves the code against it.

- `src/id.rs` — generational handles (`ID`) into a table of raw positions
  (`IDManager`): issuing, looking up, removing and swap-removing handles.
  The model is `IdTable`; the laws (stale handles stay stale, removal leaves
  other bindings alone, ...) are the `lemma_*` proof functions.
- `src/cipher.rs` — substitution ciphers over `a`..=`z` as individuals of a
  genetic algorithm: random creation, crossover, mutation, encoding.
  Randomness comes from the `rand` crate behind two small trusted wrappers.
- `src/deque.rs` — a doubly linked list over an arena of nodes, usable from
  both ends, with a consuming and a borrowing iterator.
- `src/stack.rs` — a singly linked stack of `i32`.
- `src/tictactoe.rs` — line counting for a tic-tac-toe agent and its move.
- `src/event.rs` — plain types of a planner interface and the routing
  decision of its event manager.

`app/` holds what cannot be verified here: floating-point geometry, Newton's
method, the OpenGL shader wrapper, the event manager's thread and channels,
and the GTK start-up.
