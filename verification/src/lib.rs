//! Maintains a machine-managed block of entries inside a hosts file.
//!
//! A hosts file is split into three segments: a preamble, a managed block
//! delimited by exact sentinel tag lines, and a trailer. The managed block
//! holds entries mapping an IP address to a list of hostname aliases. The
//! library parses such a file, compares the managed block against a desired
//! list of entries, and re-renders the whole file only when they differ.

pub mod entry;
pub mod hosts;
pub mod ip;
pub mod laws;
pub mod text;

pub use entry::Entry;
pub use hosts::ErrorKind;
pub use hosts::HostsFile;
pub use hosts::HostsFile as File;
pub use hosts::os_file;
pub use hosts::MissingEndTagError;
pub use hosts::Status;
pub use ip::IpAddr;
