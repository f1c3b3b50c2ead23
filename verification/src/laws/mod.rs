//! What the operations promise as a whole: how results relate to inputs, and
//! to each other.
pub mod brotli_arguments;
pub mod build_arguments;
pub mod built_images;
pub mod device_paths;
pub mod directories;
pub mod dynamic_groups;
pub mod erofs_images;
pub mod erofs_reading;
pub mod ext4_entries;
pub mod ext4_images;
pub mod ext4_layout;
pub mod ext4_reading;
pub mod extract_arguments;
pub mod folders;
pub mod img2sdat_arguments;
pub mod metadata_files;
pub mod repacked_roms;
pub mod rom_arguments;
pub mod rom_files;
pub mod rom_zips;
pub mod states;
pub mod texts;
pub mod work_folders;
