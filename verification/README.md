# hikefly

A hike-and-fly planner for Switzerland: it ranks paragliding launches by the
ratio of glide reach to hiking effort. The library in `src/` is verified with
Verus; `app/` is the program around it.

## What the library does

- `tile_reader`, `stac`, `mosaic`, `region`: elevation tiles, stitched into a
  region and kept in one binary file.
- `terrain`, `discovery`: slope, aspect and roughness, and the launches that
  they suggest.
- `frontier`, `heap`, `glide`: the highest altitude at which a glider can be
  over each cell.
- `hike`, `trails`, `trail_graph`, `lifts`, `clusters`, `snap`, `trailheads`,
  `access`: the time that it takes to walk, or to ride and walk, to each cell.
- `warnings`, `bafu`, `obstacles`, `no_fly`: restricted areas and obstacles, and
  the launches that remain.
- `score`, `queries`, `ranking`, `reachability`, `dem_info`, `hillshade`,
  `png_util`, `atlas`: what a user asks for and what the map shows.
- `args`, `fetch_args`: command lines.

## Numbers

The library computes no floating point itself. Numbers are the bit patterns of
`scalar::Single` and `scalar::Double`, which it orders by integer arithmetic;
the arithmetic is handed in as a `math::Math`, and contracts state results as
formulas over it. What a contract asks of the arithmetic is that it is steady:
the same numbers give the same result.

## Program

`hikefly` serves the map on port 3000. `hikefly demo` ranks the launches of a
made-up mountain. `hikefly fetch-dem`, `fetch-lifts`, `fetch-trails` and
`fetch-warnings` gather data. The page is read from `static/index.html`, or from
the file that `HIKEFLY_INDEX` names.

This is not a flight planner. Verify launches independently, check current
DABS / NOTAMs, and respect the validity dates of wildlife sanctuaries, which are
treated as year-round here.
