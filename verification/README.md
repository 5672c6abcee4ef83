# paced_emission

Paced emission of packets before a deadline, and a reference model of a path secret map.

* `src/` is the verified library. `pacer` and `emission` decide when a packet may leave and count
  what became of a batch; `schedule` holds their mathematical model and its laws. `operation`,
  `model` and `run` say what must hold of a path secret map after each operation.
* `app/` waits, sends, drives a map and prints.
* `tests/` runs the library on concrete values.

The one thing trusted is a reading of the system clock, in `src/clock.rs`.
