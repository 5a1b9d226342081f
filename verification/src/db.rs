//! Records of the project store.

use vstd::prelude::*;

verus! {

/// A project as the store knows it.
#[derive(Debug, Clone)]
pub struct Project {
    pub id: i64,
    pub name: String,
    pub path: String,
}

/// Folders and file names of a project.
#[derive(Debug, Clone)]
pub struct ProjectSettings {
    pub downscale_folder: Option<String>,
    pub process_folder: Option<String>,
    pub pack_folder: Option<String>,
    pub downscale_output_folder: String,
    pub process_output_folder: String,
    pub pack_output_filename: String,
}

impl Default for ProjectSettings {
    fn default() -> (settings: Self)
        ensures
            settings.downscale_folder is None,
            settings.process_folder is None,
            settings.pack_folder is None,
            settings.downscale_output_folder@ == "downscaled"@,
            settings.process_output_folder@ == "processed"@,
            settings.pack_output_filename@ == "spritesheet.png"@,
    {
        ProjectSettings {
            downscale_folder: None,
            process_folder: None,
            pack_folder: None,
            downscale_output_folder: "downscaled".to_owned(),
            process_output_folder: "processed".to_owned(),
            pack_output_filename: "spritesheet.png".to_owned(),
        }
    }
}

/// The values that a store holds for the six settings of a project, each
/// absent where the store has none.
pub struct StoredSettings {
    pub downscale_folder: Option<String>,
    pub process_folder: Option<String>,
    pub pack_folder: Option<String>,
    pub downscale_output_folder: Option<String>,
    pub process_output_folder: Option<String>,
    pub pack_output_filename: Option<String>,
}

fn or_default(stored: Option<String>, fallback: String) -> (value: String)
    ensures
        value@ == match stored {
            Some(s) => s@,
            None => fallback@,
        },
{
    match stored {
        Some(s) => s,
        None => fallback,
    }
}

/// The settings of a project: what the store holds, and the defaults for
/// what it does not hold.
pub fn resolve_project_settings(stored: StoredSettings) -> (settings: ProjectSettings)
    ensures
        settings.downscale_folder == stored.downscale_folder,
        settings.process_folder == stored.process_folder,
        settings.pack_folder == stored.pack_folder,
        settings.downscale_output_folder@ == match stored.downscale_output_folder {
            Some(s) => s@,
            None => "downscaled"@,
        },
        settings.process_output_folder@ == match stored.process_output_folder {
            Some(s) => s@,
            None => "processed"@,
        },
        settings.pack_output_filename@ == match stored.pack_output_filename {
            Some(s) => s@,
            None => "spritesheet.png"@,
        },
{
    let defaults = ProjectSettings::default();
    ProjectSettings {
        downscale_folder: stored.downscale_folder,
        process_folder: stored.process_folder,
        pack_folder: stored.pack_folder,
        downscale_output_folder: or_default(stored.downscale_output_folder, defaults.downscale_output_folder),
        process_output_folder: or_default(stored.process_output_folder, defaults.process_output_folder),
        pack_output_filename: or_default(stored.pack_output_filename, defaults.pack_output_filename),
    }
}

} // verus!
