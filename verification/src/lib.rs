//! Planning of hike-and-fly tours: where to launch, how far a glide reaches,
//! how long the hike to the launch takes.

pub mod access;
pub mod args;
pub mod atlas;
pub mod bafu;
pub mod clusters;
pub mod dem;
pub mod dem_info;
pub mod discovery;
pub mod error;
pub mod exact;
pub mod exact_wide;
pub mod fetch_args;
pub mod flood_cache;
pub mod frontier;
pub mod geom;
pub mod glide;
pub mod heap;
pub mod hike;
pub mod hillshade;
pub mod json;
pub mod launch;
pub mod lifts;
pub mod lv95;
pub mod math;
pub mod mosaic;
pub mod no_fly;
pub mod obstacles;
pub mod osm;
pub mod png_util;
pub mod queries;
pub mod ranking;
pub mod reachability;
pub mod region;
pub mod scalar;
pub mod score;
pub mod snap;
pub mod sort;
pub mod stac;
pub mod synthetic;
pub mod terrain;
pub mod text;
pub mod tile_reader;
pub mod trail_graph;
pub mod trailheads;
pub mod trails;
pub mod union_find;
pub mod warnings;
pub mod wind;
