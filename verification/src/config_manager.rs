//! Configuration: the Git settings read and written, and the default
//! application settings.
use std::collections::HashMap;
use vstd::prelude::*;

use crate::error::IpcError;
use crate::models::{AppSettings, GitConfig, ThemeMode, WindowState};
use crate::text::concat3;

verus! {

/// Which level of Git configuration to read/write.
#[derive(Debug, Clone, Copy, PartialEq, Eq)]
pub enum ConfigLevel {
    /// Repository-level (.git/config)
    Local,
    /// User-level (~/.gitconfig)
    Global,
}

pub struct ConfigManager;

/// The Git settings to write, as key and value, in order: user name, user
/// email, default branch, merge strategy, each only when it is set.
pub open spec fn spec_config_entries(c: GitConfig) -> Seq<(Seq<char>, Seq<char>)> {
    let a = match c.user_name {
        Some(v) => seq![("user.name"@, v@)],
        None => Seq::empty(),
    };
    let b = match c.user_email {
        Some(v) => seq![("user.email"@, v@)],
        None => Seq::empty(),
    };
    let d = match c.default_branch {
        Some(v) => seq![("init.defaultBranch"@, v@)],
        None => Seq::empty(),
    };
    let e = match c.merge_strategy {
        Some(v) => seq![("merge.strategy"@, v@)],
        None => Seq::empty(),
    };
    a + b + d + e
}

pub open spec fn entry_views(v: Seq<(String, String)>) -> Seq<(Seq<char>, Seq<char>)> {
    v.map_values(|e: (String, String)| (e.0@, e.1@))
}

fn push_entry(v: &mut Vec<(String, String)>, key: &str, value: &Option<String>)
    ensures
        entry_views(final(v)@) == entry_views(old(v)@) + match value {
            Some(x) => seq![(key@, x@)],
            None => Seq::<(Seq<char>, Seq<char>)>::empty(),
        },
{
    match value {
        Some(x) => {
            let ghost before = entry_views(v@);
            v.push((key.to_owned(), x.clone()));
            assert(entry_views(v@) =~= before + seq![(key@, x@)]);
        },
        None => {
            assert(entry_views(v@) =~= entry_views(v@) + Seq::<(Seq<char>, Seq<char>)>::empty());
        },
    }
}

impl ConfigManager {
    pub fn new() -> Self {
        ConfigManager
    }

    /// The settings of `config` to write, as key and value.
    pub fn config_entries(&self, config: &GitConfig) -> (r: Vec<(String, String)>)
        ensures
            entry_views(r@) == spec_config_entries(*config),
    {
        let mut r: Vec<(String, String)> = Vec::new();
        push_entry(&mut r, "user.name", &config.user_name);
        push_entry(&mut r, "user.email", &config.user_email);
        push_entry(&mut r, "init.defaultBranch", &config.default_branch);
        push_entry(&mut r, "merge.strategy", &config.merge_strategy);
        assert(entry_views(r@) =~= spec_config_entries(*config));
        r
    }

    /// The Git settings read from the values found for each key.
    pub fn git_config(
        &self,
        user_name: Option<String>,
        user_email: Option<String>,
        default_branch: Option<String>,
        merge_strategy: Option<String>,
    ) -> (c: GitConfig)
        ensures
            c.user_name == user_name,
            c.user_email == user_email,
            c.default_branch == default_branch,
            c.merge_strategy == merge_strategy,
    {
        GitConfig { user_name, user_email, default_branch, merge_strategy }
    }

    /// Provide sensible default application settings: the system theme,
    /// English, a monospace font of size 14, no hotkeys, a 1280x720 window
    /// at no fixed place and not maximized, and no commit templates.
    pub fn default_app_settings() -> (s: AppSettings)
        ensures
            s.theme == ThemeMode::System,
            s.language@ == "en"@,
            s.font_family@ == "monospace"@,
            s.font_size == 14,
            s.hotkeys@ == Map::<String, String>::empty(),
            s.window == (WindowState { width: 1280, height: 720, x: None, y: None, maximized: false }),
            s.commit_templates@.len() == 0,
    {
        AppSettings {
            theme: ThemeMode::System,
            language: "en".to_owned(),
            font_family: "monospace".to_owned(),
            font_size: 14,
            hotkeys: HashMap::new(),
            window: WindowState { width: 1280, height: 720, x: None, y: None, maximized: false },
            commit_templates: Vec::new(),
        }
    }
}


/// The configuration level named by `level`: `local` or `global`.
pub open spec fn spec_config_level(level: Seq<char>) -> Option<ConfigLevel> {
    if level == "local"@ {
        Some(ConfigLevel::Local)
    } else if level == "global"@ {
        Some(ConfigLevel::Global)
    } else {
        None
    }
}

/// Parse the name of a configuration level; any name but `local` or `global`
/// is an invalid argument.
pub fn parse_config_level(level: &str) -> (r: Result<ConfigLevel, IpcError>)
    ensures
        match spec_config_level(level@) {
            Some(l) => r == Ok::<ConfigLevel, IpcError>(l),
            None => r matches Err(e) && e.error_type@ == "InvalidArgument"@ && e.message@ == "Invalid config level: '"@
                + level@ + "'. Expected 'local' or 'global'."@,
        },
{
    let l = level.to_owned();
    if l == "local".to_owned() {
        Ok(ConfigLevel::Local)
    } else if l == "global".to_owned() {
        Ok(ConfigLevel::Global)
    } else {
        Err(
            IpcError {
                error_type: "InvalidArgument".to_owned(),
                message: concat3("Invalid config level: '", level, "'. Expected 'local' or 'global'."),
            },
        )
    }
}

} // verus!
