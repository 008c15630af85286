# pocketjs

A retained UI core for fixed-function handheld hosts, written in Verus.

- `src/` is the library. Every function in it carries a contract that Verus
  checks: the node tree and its ids, styling, transitions and timelines, the
  texture table and the asset loaders, painting order and hit testing, the draw
  list and its decoder, the bindings that scripts call, switching between apps,
  and the frame loop of a host that runs one app at a time.
- `tests/` runs the compiled library.
- `app/` is a host without a screen: it runs script bundles in QuickJS, places
  and paints nodes, and writes draw lists to disk. Floating point lives here;
  the library sees floating point values as their bit patterns.

The laws that relate several functions are the public proof functions whose
names begin with `law_`.
