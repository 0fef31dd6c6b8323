//! Discovery of installed applications.
//!
//! The library enumerates launchable applications from directory listings:
//! it filters listing entries to those that look like an application
//! (a bundle directory on one platform family, a shortcut file on another),
//! derives a display name from the file name, and returns the accumulated
//! entries stably sorted by case-insensitive name.
//!
//! All filesystem reads and process spawns live outside the library; callers
//! hand in plain directory listings and receive plain entries back.
use vstd::prelude::*;

pub mod entry;
pub mod names;
pub mod order;
pub mod roots;
pub mod scan;
pub mod sort;
pub mod walk;
