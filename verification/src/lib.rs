//! A relationship-aware employee directory: people, the edges between them, and
//! the reporting hierarchy those edges spell out.

pub mod clock;
pub mod commands;
pub mod db;
pub mod distance;
pub mod edges;
pub mod infer;
pub mod io;
pub mod laws;
pub mod model;
pub mod order;
pub mod paths;
pub mod people;
pub mod render;
pub mod search;
pub mod seniority;
pub mod tables;
pub mod text;
pub mod tree;
pub mod update;

pub use db::{Config, Db};
pub use edges::set_boss;
pub use infer::{infer_boss, tally_boss_vote, BossVote, Inference};
pub use io::{export, import, OrgDump};
pub use model::{OrgError, Person, Relationship};
pub use people::{add_person, get_person, list_people, remove_person, update_person, PersonInput};
pub use search::{fuzzy_search, resolve_person, Resolution, SearchHit};
pub use seniority::{rank_of, rank_title, Rank};
pub use tree::{
    chain_of_command, direct_reports, render_tree, roots, subtree, team_headcounts, Node,
};
