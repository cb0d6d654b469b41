//! Settings read at start-up: the interface language, whether hidden files
//! are shown, and the directory names that scans skip.

use vstd::prelude::*;
use crate::text::{string_of, views_of};

verus! {

broadcast use vstd::string::group_string_axioms;

pub struct Config {
    pub default_lang: String,
    pub show_hidden: bool,
    pub ignored_dirs: Vec<String>,
}

/// What a `Config` holds, as plain values.
pub struct ConfigView {
    pub default_lang: Seq<char>,
    pub show_hidden: bool,
    pub ignored_dirs: Seq<Seq<char>>,
}

impl View for Config {
    type V = ConfigView;

    open spec fn view(&self) -> ConfigView {
        ConfigView {
            default_lang: self.default_lang@,
            show_hidden: self.show_hidden,
            ignored_dirs: views_of(self.ignored_dirs@),
        }
    }
}

/// The settings used when none are stored: English, hidden files not shown,
/// and `node_modules`, `.git`, `target` and `.cache` skipped.
pub open spec fn default_config() -> ConfigView {
    ConfigView {
        default_lang: "en"@,
        show_hidden: false,
        ignored_dirs: seq!["node_modules"@, ".git"@, "target"@, ".cache"@],
    }
}

impl Default for Config {
    fn default() -> (c: Config)
        ensures
            c@ == default_config(),
    {
        let mut ignored: Vec<String> = Vec::new();
        ignored.push(string_of("node_modules"));
        ignored.push(string_of(".git"));
        ignored.push(string_of("target"));
        ignored.push(string_of(".cache"));
        let c = Config { default_lang: string_of("en"), show_hidden: false, ignored_dirs: ignored };
        assert(c@.ignored_dirs =~= default_config().ignored_dirs);
        c
    }
}

impl Config {
    /// A copy of these settings.
    pub fn duplicate(&self) -> (c: Config)
        ensures
            c@ == self@,
    {
        Config {
            default_lang: self.default_lang.clone(),
            show_hidden: self.show_hidden,
            ignored_dirs: crate::text::clone_strings(&self.ignored_dirs),
        }
    }
}

} // verus!
