//! Destination path building: the scripts root under the application-data
//! directory, and the target file path for a project's extracted script.

use vstd::prelude::*;

verus! {

/// The scripts root under an application-data directory: the fixed
/// backslash-separated subpath appended to it.
pub open spec fn scripts_root_of(appdata: Seq<char>) -> Seq<char> {
    appdata + "\\SpaceEngineers\\IngameScripts\\local"@
}

/// The target file path: the resolved root, the project-name segment, and
/// the fixed file name `script.cs`, joined by `/`.
pub open spec fn target_path_of(root: Seq<char>, project: Seq<char>) -> Seq<char> {
    root + "/"@ + project + "/"@ + "script.cs"@
}

/// The directory that must exist before the target file is written: the
/// resolved root joined with the project-name segment.
pub open spec fn target_dir_of(root: Seq<char>, project: Seq<char>) -> Seq<char> {
    root + "/"@ + project
}

/// The scripts root for the given application-data directory.
pub fn scripts_root(appdata: &str) -> (r: String)
    ensures
        r@ == scripts_root_of(appdata@),
{
    let mut s = appdata.to_owned();
    s.append("\\SpaceEngineers\\IngameScripts\\local");
    s
}

/// The directory under which the target file for `project` stands.
pub fn target_dir(root: &str, project: &str) -> (r: String)
    ensures
        r@ == target_dir_of(root@, project@),
{
    let mut s = root.to_owned();
    s.append("/");
    s.append(project);
    proof {
        assert(s@ =~= target_dir_of(root@, project@));
    }
    s
}

/// The full path of the target file for `project` under `root`.
pub fn target_path(root: &str, project: &str) -> (r: String)
    ensures
        r@ == target_path_of(root@, project@),
{
    let mut s = target_dir(root, project);
    s.append("/");
    s.append("script.cs");
    proof {
        assert(s@ =~= target_path_of(root@, project@));
    }
    s
}

/// The target path runs through the target directory: writing the target
/// file after creating that directory writes under the directory that was
/// created.
pub proof fn lemma_target_path_in_dir(root: Seq<char>, project: Seq<char>)
    ensures
        target_path_of(root, project) == target_dir_of(root, project) + "/"@ + "script.cs"@,
{
    assert(target_path_of(root, project) =~= target_dir_of(root, project) + "/"@ + "script.cs"@);
}

} // verus!
