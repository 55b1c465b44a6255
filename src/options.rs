use vstd::prelude::*;

use crate::errors::Errors;

verus! {

/// Which in-memory index the store keeps.
#[derive(Debug, Clone, Copy, PartialEq, Eq, Structural)]
pub enum IndexType {
    /// An ordered map.
    BTree,
    /// A skip list.
    SkipLisk,
}

/// Configuration given when the store is opened.
#[derive(Clone)]
pub struct Options {
    /// Directory that holds the data files.
    pub dir_path: String,
    /// Size, in bytes, that an active data file may reach before a new one is started.
    pub data_file_size: u64,
    /// Whether each append is synced to durable storage at once.
    pub sync_writes: bool,
    /// Which index to build.
    pub index_type: IndexType,
}

/// The first configuration error in `opts`, if any.
pub open spec fn options_error(opts: Options) -> Option<Errors> {
    if opts.dir_path@.len() == 0 {
        Some(Errors::DirPathIsEmpty)
    } else if opts.data_file_size == 0 {
        Some(Errors::DataFileSizeIsInvalid)
    } else {
        None
    }
}

/// Checks the configuration: the directory path must not be empty and the
/// size threshold must be positive.
pub fn check_options(opts: &Options) -> (r: Option<Errors>)
    ensures
        r == options_error(*opts),
{
    if opts.dir_path.as_str().is_empty() {
        return Some(Errors::DirPathIsEmpty);
    }
    if opts.data_file_size == 0 {
        return Some(Errors::DataFileSizeIsInvalid);
    }
    None
}

} // verus!
