//! Application configuration, passed in as explicit values.
//!
//! The directories are resolved by an external collaborator (the platform's
//! application-directory resolver); this module only carries the resolved
//! paths as plain text, so that nothing in the core reads ambient state.

use vstd::prelude::*;

verus! {

/// The resolved application directories, each as a plain path string, and
/// the location of the backing store file.
pub struct ProjectDirs {
    pub project_path: String,
    pub cache_dir: String,
    pub config_dir: String,
    pub config_local_dir: String,
    pub data_dir: String,
    pub data_local_dir: String,
    pub preference_dir: String,
    pub database_path: String,
}

/// Everything the initializer needs to know about its surroundings.
pub struct ApplicationConfig {
    pub project_dirs: ProjectDirs,
}

impl ApplicationConfig {
    pub fn new(project_dirs: ProjectDirs) -> (r: ApplicationConfig)
        ensures
            r.project_dirs.database_path@ == project_dirs.database_path@,
    {
        ApplicationConfig { project_dirs }
    }
}

} // verus!
