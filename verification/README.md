# pathfinding3d

Navigation-mesh pathfinding for 3D scenes. `src/` is the verified library:

- `weld`: vertex welding of an index buffer by quantised vertex keys.
- `adjacency`: triangles, and the links between triangles that share an edge.
- `grouping`: connected groups, found breadth first.
- `split`: the groups as lists of their own, with group-local ids.
- `builder`: checking a mesh and building a zone, with the laws of built zones.
- `group`: per-group neighbour links and portals.
- `registry`: zones under handles and names.
- `search`: the A* search's per-node marks, the traced path, and the portals along it.
- `output`: how a path is handed to the caller's buffer.

`app/` holds the WebAssembly bindings and the floating-point geometry (vertex
positions, triangle centres, bounding boxes, k-d trees, the A* costs and the
funnel), which call into the library.
