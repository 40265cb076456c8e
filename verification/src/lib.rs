//! Folder and file metadata analysis: duplicate file detection, folder hierarchies,
//! and text report building.
pub mod analysis;
pub mod args;
pub mod commands;
pub mod decimal;
pub mod duplicates;
pub mod entities;
pub mod filematch;
pub mod filesys;
pub mod forest;
pub mod folder_reports;
pub mod foldersmd;
pub mod groupid;
pub mod hierarchy;
pub mod listing;
pub mod load;
pub mod matching;
pub mod nomatch;
pub mod objects;
pub mod order;
pub mod report;
pub mod rows;
pub mod sorting;
