//! Desktop application settings.

use vstd::prelude::*;

use crate::text::{chars_of, join_path, owned, path_join, slice_chars, starts_with, starts_with_str, string_of};

verus! {

/// The desktop app's settings file.
#[derive(Debug, Clone, PartialEq, Eq)]
pub struct AppConfig {
    pub project_root: String,
    pub adapter_paths: Vec<String>,
    pub workspace_mode: bool,
    pub dark_mode: bool,
    pub auto_save: bool,
    pub sync_enabled: bool,
}

impl AppConfig {
    /// The settings a first run starts from, around the given list of
    /// adapter config paths: the Brain at `~/AIBrain`, workspace mode, dark
    /// mode and auto-save on, background sync off.
    pub fn with_defaults(adapter_paths: Vec<String>) -> (c: Self)
        ensures
            c.project_root@ == "~/AIBrain"@,
            c.adapter_paths@ == adapter_paths@,
            c.workspace_mode,
            c.dark_mode,
            c.auto_save,
            !c.sync_enabled,
    {
        AppConfig {
            project_root: owned("~/AIBrain"),
            adapter_paths,
            workspace_mode: true,
            dark_mode: true,
            auto_save: true,
            sync_enabled: false,
        }
    }
}

/// A leading `~/` replaced by the home directory; any other path unchanged.
pub open spec fn expanded(path: Seq<char>, home: Option<Seq<char>>) -> Seq<char> {
    if starts_with(path, "~/"@) && home is Some {
        path_join(home->0, path.skip(2))
    } else {
        path
    }
}

/// Expands a leading `~/` to the user's home directory (`home`, `None` when
/// the platform has none). Only the common `~/...` shorthand is handled, not
/// full shell tilde semantics.
pub fn expand_tilde(path: &str, home: Option<&str>) -> (p: String)
    ensures
        p@ == expanded(path@, crate::compression::opt_view(home)),
{
    let c = chars_of(path);
    proof {
        reveal_strlit("~/");
    }
    if starts_with_str(&c, "~/") {
        if let Some(h) = home {
            let base = chars_of(h);
            let rest = slice_chars(&c, 2, c.len());
            proof {
                assert(rest@ =~= path@.skip(2));
            }
            return string_of(&join_path(&base, &rest));
        }
    }
    string_of(&c)
}

/// The message when no config directory can be determined.
pub open spec fn no_config_dir_message() -> Seq<char> {
    "could not determine an OS config directory for this platform"@
}

/// The settings file inside the platform's config directory for the app
/// (`None` when the platform has none).
pub fn config_file_path(config_dir: Option<&str>) -> (r: Result<String, String>)
    ensures
        config_dir matches Some(d) ==> (r matches Ok(p) && p@ == path_join(d@, "settings.json"@)),
        config_dir is None ==> (r matches Err(m) && m@ == no_config_dir_message()),
{
    match config_dir {
        Some(d) => {
            let base = chars_of(d);
            let name = chars_of("settings.json");
            Ok(string_of(&join_path(&base, &name)))
        },
        None => Err(owned("could not determine an OS config directory for this platform")),
    }
}

} // verus!
