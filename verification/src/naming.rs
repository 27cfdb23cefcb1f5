//! Naming and argument selection for the installer: which suffix the
//! installed executable carries, and which arguments the package installer
//! receives. The process and filesystem work around these stays outside the
//! verified library.

use vstd::prelude::*;
use vstd::string::StringExecFns;

verus! {

/// The executable name for a given suffix: `ambient` bare, or
/// `ambient-<suffix>`.
pub fn ambient_executable_name(suffix: &str) -> (r: String)
    ensures
        suffix@.len() == 0 ==> r@ == "ambient"@,
        suffix@.len() != 0 ==> r@ == "ambient-"@ + suffix@,
{
    if suffix.is_empty() {
        String::from_str("ambient")
    } else {
        let mut name = String::from_str("ambient-");
        name.append(suffix);
        name
    }
}

/// The suffix the installed executable carries: an explicit override wins,
/// then the git revision, then the git tag, then `dev`.
pub fn install_suffix(
    git_revision: Option<&str>,
    git_tag: Option<&str>,
    suffix_override: Option<&str>,
) -> (r: String)
    ensures
        suffix_override is Some ==> r@ == suffix_override->0@,
        suffix_override is None && git_revision is Some ==> r@ == git_revision->0@,
        suffix_override is None && git_revision is None && git_tag is Some ==> r@ == git_tag->0@,
        suffix_override is None && git_revision is None && git_tag is None ==> r@ == "dev"@,
    {
    match suffix_override {
        Some(s) => String::from_str(s),
        None => match git_revision {
            Some(rev) => String::from_str(rev),
            None => match git_tag {
                Some(tag) => String::from_str(tag),
                None => String::from_str("dev"),
            },
        },
    }
}

/// The package-installer arguments: from the repository at a revision or a
/// tag when one is given (revision winning), else from the local source tree.
pub fn install_source_args(git_revision: Option<&str>, git_tag: Option<&str>) -> (r: Vec<String>)
    ensures
        git_revision is Some ==> r@.len() == 5 && r@[0]@ == "--git"@ && r@[2]@ == "ambient"@
            && r@[3]@ == "--rev"@ && r@[4]@ == git_revision->0@,
        git_revision is None && git_tag is Some ==> r@.len() == 5 && r@[0]@ == "--git"@ && r@[2]@
            == "ambient"@ && r@[3]@ == "--tag"@ && r@[4]@ == git_tag->0@,
        git_revision is None && git_tag is None ==> r@.len() == 2 && r@[0]@ == "--path"@ && r@[1]@
            == "app"@,
{
    let mut args: Vec<String> = Vec::new();
    match git_revision {
        Some(rev) => {
            args.push(String::from_str("--git"));
            args.push(String::from_str("https://github.com/AmbientRun/Ambient.git"));
            args.push(String::from_str("ambient"));
            args.push(String::from_str("--rev"));
            args.push(String::from_str(rev));
        },
        None => match git_tag {
            Some(tag) => {
                args.push(String::from_str("--git"));
                args.push(String::from_str("https://github.com/AmbientRun/Ambient.git"));
                args.push(String::from_str("ambient"));
                args.push(String::from_str("--tag"));
                args.push(String::from_str(tag));
            },
            None => {
                args.push(String::from_str("--path"));
                args.push(String::from_str("app"));
            },
        },
    }
    args
}

} // verus!
