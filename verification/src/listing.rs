//! Which entries a listing shows.
use vstd::prelude::*;

use crate::cli::Config;
use crate::ignore::{
    is_hidden, rule_applies, rules_ignore, rules_of_files, spec_is_hidden, IgnoreRules,
};

verus! {

/// What listing a path means.
#[derive(Debug, Clone, Copy, PartialEq, Eq, Structural)]
pub enum ListingPlan {
    /// A file or a symbolic link: list the path itself.
    Itself,
    /// A directory: list its entries.
    Children,
    /// Anything else: list nothing.
    Nothing,
}

/// The plan for a path of the given kind.
pub open spec fn plan_of(is_file: bool, is_symlink: bool, is_dir: bool) -> ListingPlan {
    if is_file || is_symlink {
        ListingPlan::Itself
    } else if is_dir {
        ListingPlan::Children
    } else {
        ListingPlan::Nothing
    }
}

/// An entry is shown unless it is hidden and `--all` is off, or an ignore rule
/// matches it and `--respect-ignore` is on.
pub open spec fn included(
    config: Config,
    rules: Seq<(Seq<char>, bool)>,
    name: Seq<char>,
    is_dir: bool,
) -> bool {
    let hidden = !config.all && spec_is_hidden(name);
    let ignored = config.respect_ignore && rules_ignore(rules, name, is_dir);
    !hidden && !ignored
}

/// `collect`'s choice of what to list for a path.
pub fn listing_plan(is_file: bool, is_symlink: bool, is_dir: bool) -> (p: ListingPlan)
    ensures
        p == plan_of(is_file, is_symlink, is_dir),
{
    if is_file || is_symlink {
        ListingPlan::Itself
    } else if is_dir {
        ListingPlan::Children
    } else {
        ListingPlan::Nothing
    }
}

/// `load_ignore_rules`: the rules of the given ignore files when `--respect-ignore`
/// is on, none otherwise.
pub fn load_ignore_rules(config: &Config, files: &Vec<String>) -> (r: IgnoreRules)
    ensures
        r@ == if config.respect_ignore {
            rules_of_files(files.deep_view())
        } else {
            Seq::empty()
        },
{
    if config.respect_ignore {
        IgnoreRules::load(files)
    } else {
        IgnoreRules::empty()
    }
}

/// `should_include`: whether the entry `name` is shown; `is_dir` tells whether it is
/// (or links to) a directory, which only matters to ignore rules.
pub fn should_include(config: &Config, rules: &IgnoreRules, name: &str, is_dir: bool) -> (b: bool)
    ensures
        b == included(*config, rules@, name@, is_dir),
{
    let hidden = !config.all && is_hidden(name);
    let ignored = config.respect_ignore && rules.ignores(name, is_dir);
    !hidden && !ignored
}

/// With `--respect-ignore`, an entry that an ignore rule matches is never listed,
/// whether or not `--all` is given: `--all` only brings back names that start with
/// a dot.
pub proof fn law_ignored_entries_stay_hidden_under_all(
    config: Config,
    rules: Seq<(Seq<char>, bool)>,
    name: Seq<char>,
    is_dir: bool,
)
    requires
        config.respect_ignore,
        exists|k: int| 0 <= k < rules.len() && rule_applies(#[trigger] rules[k], name, is_dir),
    ensures
        !included(config, rules, name, is_dir),
{
}

/// A name that starts with a dot is listed only with `--all`.
pub proof fn law_dot_names_need_all(
    config: Config,
    rules: Seq<(Seq<char>, bool)>,
    name: Seq<char>,
    is_dir: bool,
)
    requires
        !config.all,
        name.len() > 0,
        name[0] == '.',
    ensures
        !included(config, rules, name, is_dir),
{
}

/// An entry that no ignore rule hides (or any entry, without `--respect-ignore`) is
/// listed when its name does not start with a dot, or when `--all` is given.
pub proof fn law_unignored_entries_are_listed(
    config: Config,
    rules: Seq<(Seq<char>, bool)>,
    name: Seq<char>,
    is_dir: bool,
)
    requires
        !config.respect_ignore || forall|k: int|
            0 <= k < rules.len() ==> !rule_applies(#[trigger] rules[k], name, is_dir),
        config.all || name.len() == 0 || name[0] != '.',
    ensures
        included(config, rules, name, is_dir),
{
}

/// `--all` changes nothing for a name that does not start with a dot.
pub proof fn law_all_only_affects_dot_names(
    config: Config,
    rules: Seq<(Seq<char>, bool)>,
    name: Seq<char>,
    is_dir: bool,
)
    requires
        name.len() == 0 || name[0] != '.',
    ensures
        included((Config { all: true, ..config }), rules, name, is_dir) == included(
            (Config { all: false, ..config }),
            rules,
            name,
            is_dir,
        ),
{
}

} // verus!
