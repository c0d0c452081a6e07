pub mod browse;
pub mod bytes;
pub mod cache;
pub mod circles;
pub mod contents;
pub mod copy;
pub mod copying;
pub mod count;
pub mod data;
pub mod device;
pub mod dir;
pub mod ending;
pub mod error;
pub mod extent;
pub mod extract;
pub mod filewrite;
pub mod format;
pub mod group;
pub mod indirect;
pub mod inode;
pub mod jobs;
pub mod jobtrace;
pub mod labels;
pub mod models;
pub mod names;
pub mod ondisk;
pub mod order;
pub mod partitions;
pub mod path;
pub mod plan;
pub mod progress;
pub mod selection;
pub mod seqs;
pub mod superblock;
pub mod tasks;
pub mod text;
pub mod trace;
pub mod volume;
