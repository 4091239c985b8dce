# mcp-math-operations

A Model Context Protocol server of math tools whose integer core is verified
with Verus.

- `src/` is the verified library: integer arithmetic and number theory
  (`arithmetic`, `number_theory`, `bits`), combinatorial counting
  (`combinatorics`, with the mathematics in `counting`), the text helpers of
  the SVG renderer (`graphics`: palette, escaping, base64 payload) and the
  coordinate-free decisions of the plotting tools (`plot`). Every public
  function states its result in `ensures` over spec functions; the `law_*`
  proof functions state properties that relate several of them.
- `app/` is the server around it: the MCP transport and tool routers, the
  JSON parameter types, and the tools that compute in floating point
  (trigonometry, statistics, probability distributions, SVG geometry).
- `tests/` runs the library on concrete values.
