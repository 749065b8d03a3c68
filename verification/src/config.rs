//! Application configuration.

use vstd::prelude::*;
use crate::security::MAX_FILE_SIZE;
use crate::security::MAX_PREVIEW_SIZE;

verus! {

/// Application configuration
pub struct Config {
    /// Base directory for file operations
    pub base_directory: String,
    /// Maximum file size allowed for operations
    pub max_file_size: u64,
    /// Maximum preview size
    pub max_preview_size: u64,
    /// Whether to allow hidden files
    pub allow_hidden_files: bool,
}

impl Default for Config {
    /// The default configuration: current directory, standard size limits,
    /// hidden files not shown.
    fn default() -> (c: Config)
        ensures
            c.base_directory@ == seq!['.'],
            c.max_file_size == MAX_FILE_SIZE,
            c.max_preview_size == MAX_PREVIEW_SIZE,
            !c.allow_hidden_files,
    {
        proof {
            reveal_strlit(".");
        }
        Config {
            base_directory: String::from_str("."),
            max_file_size: MAX_FILE_SIZE,
            max_preview_size: MAX_PREVIEW_SIZE,
            allow_hidden_files: false,
        }
    }
}

impl Config {
    /// Create a new configuration
    pub fn new() -> (c: Config)
        ensures
            c.base_directory@ == seq!['.'],
            c.max_file_size == MAX_FILE_SIZE,
            c.max_preview_size == MAX_PREVIEW_SIZE,
            !c.allow_hidden_files,
    {
        Config::default()
    }

    /// Set the base directory
    pub fn with_base_directory(self, path: String) -> (c: Config)
        ensures
            c.base_directory == path,
            c.max_file_size == self.max_file_size,
            c.max_preview_size == self.max_preview_size,
            c.allow_hidden_files == self.allow_hidden_files,
    {
        Config { base_directory: path, ..self }
    }

    /// Set the maximum file size
    pub fn with_max_file_size(self, size: u64) -> (c: Config)
        ensures
            c.max_file_size == size,
            c.base_directory == self.base_directory,
            c.max_preview_size == self.max_preview_size,
            c.allow_hidden_files == self.allow_hidden_files,
    {
        Config { max_file_size: size, ..self }
    }

    /// Enable or disable hidden files
    pub fn with_hidden_files(self, allow: bool) -> (c: Config)
        ensures
            c.allow_hidden_files == allow,
            c.base_directory == self.base_directory,
            c.max_file_size == self.max_file_size,
            c.max_preview_size == self.max_preview_size,
    {
        Config { allow_hidden_files: allow, ..self }
    }
}

} // verus!
