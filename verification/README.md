# collisions

Collision detection structures, verified with Verus.

- `src/` is the verified library: recursive and linear binary trees (`tree`, `layout`,
  `map`), bounding volume hierarchies over triangles (`assemble`, `hierarchy`,
  `bvh_array`) and over colliders of one type (`bvh_tree`), collider groups (`group`),
  the rewriting of a crate's items for its C# bindings (`bindings`), and the reading
  of Rust source text with `syn` into the items that rewriting works on (`source`).
- `tests/` runs the library on concrete values.
- `app/` is the program that generates the bindings (file reads and writes, the printing
  of the rewritten items), and the floating-point geometry
  (vectors, quaternions, spheres, triangles and their overlap test) that the hierarchies
  are used with.
