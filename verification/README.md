# true_engine

A small 3D editor built on `three-d`: a workspace holds parts, an explorer
panel lists them, a property panel edits the selected one, and clicks pick
a part under the cursor.

- `src/` is the verified library (Verus):
  - `graph.rs`: the child graph as `Seq<Seq<usize>>`, the pre-order
    traversal (`walk`, `walk_list`, `descendants`), and its laws: the
    traversal finishes within as many levels as there are nodes, it lists
    in pre-order, it finishes exactly when no handle below is dangling and
    no cycle is reachable, and what adding a child does.
  - `game_engine.rs`: `Instance`, `Part`, `Workspace`, `Node`, and `Scene`,
    the store that hands out instance handles.
  - `properties.rs`: the colour fields of the property panel.
- `app/` is the program: window, GUI, camera controller, picking and
  rendering, all of it floating point or GPU work on `three-d` types.
- `tests/` runs the library on concrete scenes and inputs.
