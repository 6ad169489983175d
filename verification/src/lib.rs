pub mod api;
pub mod cluster;
pub mod cluster_laws;
pub mod db;
pub mod db_laws;
pub mod le;
pub mod lsh;
pub mod metadata;
pub mod names;
pub mod ranking;
pub mod record;
pub mod recovery;
pub mod segment;
pub mod u1024;
pub mod wal;

pub use cluster::{ClusterConfig, ThrushCluster};
pub use db::ThrushDB;
pub use u1024::U1024;
