//! The download statistics of a crate and the team data of the rust-lang
//! team repository, as plain values with verified logic.

pub mod downloads;
pub mod team_repo;
pub mod version_order;

pub use downloads::{downloads_summary, DownloadsError, DownloadsSummary, ExtraDownload, VersionDownload};
pub use team_repo::{Member, Team, TeamRepo, TeamRepoError};
pub use version_order::VersionRecord;
