//! A verified core for a repository-scraping site generator.
//!
//! The library ingests a flat batch of repository records, recovers typed
//! metadata from annotation comments embedded in free text, tracks cache
//! freshness with a TTL-stamped wrapper, and aggregates the records into a
//! partitioned view of standalone repositories and multi-repository projects.
//! Network fetching, file I/O and site generation live outside the library;
//! they hand plain values in and take plain values back.

pub mod chars;
pub mod codec;
pub mod cache;
pub mod epoch;
pub mod expand;
pub mod metadata;
pub mod project;
pub mod repo;
pub mod repo_set;
pub mod store;
pub mod strmap;

pub use cache::Cachable;
pub use cache::Cache;
pub use cache::RepoScrapeCache;
pub use cache::Update;
pub use epoch::Epoch;
pub use epoch::EpochError;
pub use epoch::EpochType;
pub use expand::unmatched_urls;
pub use expand::ExpandedRepoCache;
pub use expand::ProjectMap;
pub use expand::RepoMap;
pub use metadata::extract_urls;
pub use metadata::urls_of_text;
pub use metadata::Metadata;
pub use project::Project;
pub use repo::Repo;
pub use repo::RepoDetails;
pub use repo_set::RepoSet;
pub use store::BinCache;
pub use store::DecodeError;
pub use store::EncodeError;
pub use strmap::StrMap;
