//! Identification and renaming of video rips: the manifest and rename-plan
//! formats, the naming rules of the media library, and the checks a plan must
//! pass before anything is renamed.

pub mod manifest;
pub mod apply;
pub mod naming;
pub mod number;
pub mod paths;
pub mod rename_plan;
pub mod sheet;
pub mod text;
pub mod tmdb;
pub mod validate;
