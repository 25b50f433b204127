# reachpy

Dynamic ROS 2 message schemas and their little-endian CDR encoding, with the
scheduling decisions of a small node runtime, verified with Verus.

- `src/` is the verified library: type names (`field_type`), schema
  definitions (`schema`), the schema registry (`registry`), serialization
  (`encode`) and deserialization (`decode`) with their mathematical
  specifications, error texts (`error`), the runtime's per-step decisions
  (`runtime`), and the laws that tie these together (`laws`), among them that
  a serialized message reads back as its values.
- `app/` is the Python extension around it: PyO3 conversions, the global
  registry, the Zenoh transport and the worker threads.
- `tests/` runs the library on concrete messages.
