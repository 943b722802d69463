# atomic_deque

A fixed number of values on a ring of links. A link is taken off the ring, with its value,
and put back later: the first in line, or the first whose value meets a condition.

Each link has a lock word with one state for each of its sides and a flag for the link
itself. A link is taken off under three locks and put on under two; the earlier neighbour is
backed off from, the later one is insisted on, whatever the state of its far side.

`src/` is the library, verified with Verus:

| module | what it holds |
| --- | --- |
| `lock_state` | the lock word and the byte it is packed into |
| `link` | the places on the ring, and the links that are off it |
| `acquisition` | taking the locks around a link, one attempt at a time |
| `exclusion`, `scene` | any number of parties that do so in turns: mutual exclusion, one circle, no deadlock |
| `locking`, `relink`, `inspect` | locking, removing, inserting and looking at links with the ring to oneself |
| `ring` | the order of the links |
| `search` | what a search by condition knows |
| `deque` | `AtomicDeque` |
| `laws` | what holds of a deque over several calls |

`app/` shares a deque between threads under one mutex; they wait on a condition variable for
links to be put back.
