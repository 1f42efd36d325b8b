//! Platform scanners and watchers that are not available yet: each
//! reports so.

use vstd::prelude::*;
use vstd::string::*;
use crate::models::{FileDocument, HyperFindError};

verus! {

/// A platform error carrying `msg`.
pub open spec fn is_platform_error(e: HyperFindError, msg: Seq<char>) -> bool {
    e matches HyperFindError::PlatformError(s) && s@ == msg
}

/// File enumeration specific to Linux.
pub trait LinuxScanner {
    /// The documents under `root`.
    fn scan(&self, root: &str) -> Result<Vec<FileDocument>, HyperFindError>;

    /// The scanner's name.
    fn name(&self) -> &str;
}

/// Change monitoring specific to Linux.
pub trait LinuxWatcher {
    /// Starts watching.
    fn start(&self) -> Result<(), HyperFindError>;

    /// Stops watching.
    fn stop(&self) -> Result<(), HyperFindError>;
}

/// File enumeration specific to macOS.
pub trait MacOsScanner {
    /// The documents under `root`.
    fn scan(&self, root: &str) -> Result<Vec<FileDocument>, HyperFindError>;

    /// The scanner's name.
    fn name(&self) -> &str;
}

/// Change monitoring specific to macOS.
pub trait MacOsWatcher {
    /// Starts watching.
    fn start(&self) -> Result<(), HyperFindError>;

    /// Stops watching.
    fn stop(&self) -> Result<(), HyperFindError>;
}

/// The Linux scanner, not implemented: the cross-platform scanner is used.
pub struct LinuxFsScanner;

impl LinuxScanner for LinuxFsScanner {
    fn scan(&self, root: &str) -> Result<Vec<FileDocument>, HyperFindError> {
        LinuxFsScanner::scan(self, root)
    }

    fn name(&self) -> &str {
        LinuxFsScanner::name(self)
    }
}

impl LinuxWatcher for LinuxFanotifyWatcher {
    fn start(&self) -> Result<(), HyperFindError> {
        LinuxFanotifyWatcher::start(self)
    }

    fn stop(&self) -> Result<(), HyperFindError> {
        LinuxFanotifyWatcher::stop(self)
    }
}

impl MacOsScanner for MacOsFsScanner {
    fn scan(&self, root: &str) -> Result<Vec<FileDocument>, HyperFindError> {
        MacOsFsScanner::scan(self, root)
    }

    fn name(&self) -> &str {
        MacOsFsScanner::name(self)
    }
}

impl MacOsWatcher for MacOsFsWatcher {
    fn start(&self) -> Result<(), HyperFindError> {
        MacOsFsWatcher::start(self)
    }

    fn stop(&self) -> Result<(), HyperFindError> {
        MacOsFsWatcher::stop(self)
    }
}

impl LinuxFsScanner {
    /// Always an error saying to use the cross-platform scanner.
    pub fn scan(&self, root: &str) -> (r: Result<Vec<FileDocument>, HyperFindError>)
        ensures
            r matches Err(e) && is_platform_error(
                e,
                "Linux native scanner not yet implemented. Use the cross-platform scanner."@,
            ),
    {
        Err(HyperFindError::PlatformError(
            String::from_str("Linux native scanner not yet implemented. Use the cross-platform scanner."),
        ))
    }

    /// The scanner's name.
    pub fn name(&self) -> (r: &'static str)
        ensures
            r@ == "linux-fs"@,
    {
        "linux-fs"
    }
}

/// The Linux watcher, not implemented.
pub struct LinuxFanotifyWatcher;

impl LinuxFanotifyWatcher {
    /// Always an error: not implemented.
    pub fn start(&self) -> (r: Result<(), HyperFindError>)
        ensures
            r matches Err(e) && is_platform_error(e, "Linux fanotify watcher not yet implemented."@),
    {
        Err(HyperFindError::PlatformError(String::from_str("Linux fanotify watcher not yet implemented.")))
    }

    /// Stopping always succeeds.
    pub fn stop(&self) -> (r: Result<(), HyperFindError>)
        ensures
            r is Ok,
    {
        Ok(())
    }
}

/// The macOS scanner, not implemented: the cross-platform scanner is used.
pub struct MacOsFsScanner;

impl MacOsFsScanner {
    /// Always an error saying to use the cross-platform scanner.
    pub fn scan(&self, root: &str) -> (r: Result<Vec<FileDocument>, HyperFindError>)
        ensures
            r matches Err(e) && is_platform_error(
                e,
                "macOS native scanner not yet implemented. Use the cross-platform scanner."@,
            ),
    {
        Err(HyperFindError::PlatformError(
            String::from_str("macOS native scanner not yet implemented. Use the cross-platform scanner."),
        ))
    }

    /// The scanner's name.
    pub fn name(&self) -> (r: &'static str)
        ensures
            r@ == "macos-fs"@,
    {
        "macos-fs"
    }
}

/// The macOS watcher, not implemented.
pub struct MacOsFsWatcher;

impl MacOsFsWatcher {
    /// Always an error: not implemented.
    pub fn start(&self) -> (r: Result<(), HyperFindError>)
        ensures
            r matches Err(e) && is_platform_error(e, "macOS FSEvents watcher not yet implemented."@),
    {
        Err(HyperFindError::PlatformError(String::from_str("macOS FSEvents watcher not yet implemented.")))
    }

    /// Stopping always succeeds.
    pub fn stop(&self) -> (r: Result<(), HyperFindError>)
        ensures
            r is Ok,
    {
        Ok(())
    }
}

/// Reader of a volume's update-sequence journal, not available off Windows.
pub struct UsnJournalReader;

impl UsnJournalReader {
    /// A reader for the volume with the given letter.
    pub fn new(volume_letter: char) -> (r: Self) {
        UsnJournalReader
    }
}

} // verus!
