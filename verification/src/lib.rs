//! The focus-tree model of Uslu: a directed acyclic graph of tasks, its
//! layered layout plan, and the text formats it is stored in.
pub mod ids;
pub mod models;
pub mod reach;
pub mod text;
pub mod visibility;
pub mod levels;
pub mod sugiyama;
pub mod placement;
pub mod notebox;
pub mod escape;
pub mod records;
pub mod markdown;
pub mod md_laws;
pub mod rebuild;
pub mod orgmode;
pub mod org_laws;
pub mod org_round_trip;
pub mod file_selector;
pub mod title_text;
pub mod images;
pub mod preview;
pub mod image_laws;
pub mod sidebar;
pub mod session;
