//! Whether the runtime bundle is ready: which of its files are missing,
//! which cannot be used and why, decided from what was found on disk.
use vstd::prelude::*;
use crate::categories::{TaskCategoryNode, forest_visits, first_visit_problem, normalize_category_tree};
use crate::project_categories::{ProjectCategoryNode, first_project_category_problem, normalize_project_category_list};
use crate::sorting::stable_sort;
use crate::text::{concat2, concat3, strs_view, trim, trim_str};

verus! {

/// The readiness of the runtime bundle.
pub struct RuntimeStatus {
    pub is_ready: bool,
    pub bundle_dir: Option<String>,
    pub source: RuntimeStatusSource,
    pub missing: Vec<String>,
    pub invalid: Vec<String>,
    pub details: Vec<String>,
}

/// Where the bundle location came from.
#[derive(PartialEq, Eq, Structural, Clone, Copy, Debug)]
pub enum RuntimeStatusSource {
    /// No bundle is configured (serialised as `none`).
    Unconfigured,
    UserConfig,
}

/// A folder chosen for a bundle.
pub struct RuntimeBundleFolderInput {
    pub bundle_dir: String,
}

/// Where a backup was written.
pub struct RuntimeBackupResult {
    pub backup_path: String,
}

/// The file names of a bundle.
pub open spec fn sqlite_db_file_name() -> Seq<char> {
    "tasks.sqlite3"@
}

pub open spec fn category_tree_file_name() -> Seq<char> {
    "task_categories.json"@
}

pub open spec fn category_change_log_file_name() -> Seq<char> {
    "task_category_change_log.log"@
}

pub open spec fn project_category_list_file_name() -> Seq<char> {
    "project_categories.json"@
}

/// The paths of a bundle's files, as displayed.
pub struct RuntimePathTexts {
    pub bundle_dir: String,
    pub sqlite_db_path: String,
    pub category_tree_path: String,
    pub category_change_log_path: String,
    pub project_category_list_path: String,
}

/// What reading and parsing a JSON file of the bundle gave.
pub enum FileCheck<T> {
    ReadFailed(String),
    ParseFailed(String),
    Parsed(T),
}

/// What was found on disk for a bundle. The default project category list
/// is written, and `default_list_written` holds the outcome, exactly when the
/// other files are all present and usable and the list did not exist.
pub struct BundleFacts {
    /// The folder of the four files when they share one.
    pub shared_dir: Option<String>,
    pub sqlite_exists: bool,
    pub sqlite_open_error: Option<String>,
    pub tree_exists: bool,
    pub tree_check: FileCheck<Vec<TaskCategoryNode>>,
    pub log_exists: bool,
    pub log_read_error: Option<String>,
    pub log_append_error: Option<String>,
    pub project_list_existed: bool,
    pub default_list_written: Option<Result<(), String>>,
    pub project_list_exists: bool,
    pub project_list_check: FileCheck<Vec<ProjectCategoryNode>>,
}

pub open spec fn tree_problem(tree: Seq<TaskCategoryNode>) -> Option<Seq<char>> {
    first_visit_problem(forest_visits(tree, 1, "root"@, 0), Set::empty())
}

pub open spec fn list_problem(list: Seq<ProjectCategoryNode>) -> Option<Seq<char>> {
    first_project_category_problem(stable_sort(list), 0, Set::empty(), Set::empty())
}

pub open spec fn failure(what: Seq<char>, path: Seq<char>, error: Seq<char>) -> Seq<char> {
    what + path + ": "@ + error
}

pub open spec fn one_folder_message() -> Seq<char> {
    "runtime bundle files must live in one folder"@
}

pub open spec fn tree_messages(path: Seq<char>, check: FileCheck<Vec<TaskCategoryNode>>) -> Seq<Seq<char>> {
    match check {
        FileCheck::ReadFailed(e) => seq![failure("failed to read category tree at "@, path, e@)],
        FileCheck::ParseFailed(e) => seq![failure("failed to parse category tree at "@, path, e@)],
        FileCheck::Parsed(t) => match tree_problem(t@) {
            Some(m) => seq![failure("failed to validate category tree at "@, path, m)],
            None => Seq::empty(),
        },
    }
}

pub open spec fn list_messages(path: Seq<char>, check: FileCheck<Vec<ProjectCategoryNode>>) -> Seq<Seq<char>> {
    match check {
        FileCheck::ReadFailed(e) => seq![failure("failed to read project category list at "@, path, e@)],
        FileCheck::ParseFailed(e) => seq![failure("failed to parse project category list at "@, path, e@)],
        FileCheck::Parsed(l) => match list_problem(l@) {
            Some(m) => seq![failure("failed to validate project category list at "@, path, m)],
            None => Seq::empty(),
        },
    }
}

pub open spec fn log_messages(path: Seq<char>, read_error: Option<String>, append_error: Option<String>) -> Seq<Seq<char>> {
    match read_error {
        Some(e) => seq![failure("failed to read category change log at "@, path, e@)],
        None => match append_error {
            Some(e) => seq![failure("failed to append to category change log at "@, path, e@)],
            None => Seq::empty(),
        },
    }
}

pub open spec fn when(c: bool, s: Seq<Seq<char>>) -> Seq<Seq<char>> {
    if c {
        s
    } else {
        Seq::empty()
    }
}

/// The files missing before the project category list is looked at.
pub open spec fn first_missing(f: BundleFacts) -> Seq<Seq<char>> {
    when(!f.sqlite_exists, seq![sqlite_db_file_name()]) + when(
        !f.tree_exists,
        seq![category_tree_file_name()],
    ) + when(!f.log_exists, seq![category_change_log_file_name()])
}

/// The problems found before the project category list is looked at.
pub open spec fn first_invalid(p: RuntimePathTexts, f: BundleFacts) -> Seq<Seq<char>> {
    when(f.shared_dir is None, seq![one_folder_message()]) + when(
        f.sqlite_exists,
        match f.sqlite_open_error {
            Some(e) => seq![failure("failed to open sqlite database at "@, p.sqlite_db_path@, e@)],
            None => Seq::empty(),
        },
    ) + when(f.tree_exists, tree_messages(p.category_tree_path@, f.tree_check)) + when(
        f.log_exists,
        log_messages(p.category_change_log_path@, f.log_read_error, f.log_append_error),
    )
}

/// The default project category list is due: everything else is fine and
/// the list is absent.
pub open spec fn needs_default_list(p: RuntimePathTexts, f: BundleFacts) -> bool {
    first_missing(f).len() == 0 && first_invalid(p, f).len() == 0 && !f.project_list_existed
}

pub open spec fn bundle_dir_text(p: RuntimePathTexts, f: BundleFacts) -> Seq<char> {
    match f.shared_dir {
        Some(d) => d@,
        None => p.bundle_dir@,
    }
}

pub open spec fn status_missing(f: BundleFacts) -> Seq<Seq<char>> {
    first_missing(f) + when(!f.project_list_exists, seq![project_category_list_file_name()])
}

pub open spec fn status_invalid(p: RuntimePathTexts, f: BundleFacts) -> Seq<Seq<char>> {
    first_invalid(p, f) + when(
        needs_default_list(p, f),
        match f.default_list_written {
            Some(Err(e)) => seq![
                failure("failed to create default project category list at "@, p.project_category_list_path@, e@),
            ],
            _ => Seq::empty(),
        },
    ) + when(f.project_list_exists, list_messages(p.project_category_list_path@, f.project_list_check))
}

pub open spec fn status_details(details: Seq<Seq<char>>, p: RuntimePathTexts, f: BundleFacts) -> Seq<Seq<char>> {
    details + when(
        needs_default_list(p, f),
        match f.default_list_written {
            Some(Ok(())) => seq!["created default "@ + project_category_list_file_name()],
            _ => Seq::empty(),
        },
    ) + seq!["bundle dir: "@ + bundle_dir_text(p, f)]
}

/// The status of the bundle at `p` from what was found there.
pub open spec fn bundle_status_matches(
    s: RuntimeStatus,
    p: RuntimePathTexts,
    f: BundleFacts,
    details: Seq<Seq<char>>,
    source: RuntimeStatusSource,
) -> bool {
    &&& strs_view(s.missing@) == status_missing(f)
    &&& strs_view(s.invalid@) == status_invalid(p, f)
    &&& strs_view(s.details@) == status_details(details, p, f)
    &&& s.is_ready == (status_missing(f).len() == 0 && status_invalid(p, f).len() == 0)
    &&& s.source == source
    &&& match s.bundle_dir {
        Some(d) => d@ == bundle_dir_text(p, f),
        None => false,
    }
}

fn push_failure(out: &mut Vec<String>, what: &str, path: &str, error: &str)
    ensures
        strs_view(final(out)@) == strs_view(old(out)@).push(failure(what@, path@, error@)),
{
    let a = concat3(what, path, ": ");
    let m = concat2(a.as_str(), error);
    out.push(m);
    proof {
        assert(strs_view(final(out)@) =~= strs_view(old(out)@).push(failure(what@, path@, error@)));
    }
}

fn push_text(out: &mut Vec<String>, text: String)
    ensures
        strs_view(final(out)@) == strs_view(old(out)@).push(text@),
{
    out.push(text);
    proof {
        assert(strs_view(final(out)@) =~= strs_view(old(out)@).push(text@));
    }
}

/// Whether the default project category list is to be written.
pub fn needs_default_project_category_list(paths: &RuntimePathTexts, facts: &BundleFacts) -> (r: bool)
    ensures
        r == needs_default_list(*paths, *facts),
{
    let missing = collect_first_missing(facts);
    let invalid = collect_first_invalid(paths, facts);
    missing.len() == 0 && invalid.len() == 0 && !facts.project_list_existed
}

fn collect_first_missing(f: &BundleFacts) -> (out: Vec<String>)
    ensures
        strs_view(out@) == first_missing(*f),
{
    let mut out: Vec<String> = Vec::new();
    let ghost empty = strs_view(out@);
    if !f.sqlite_exists {
        push_text(&mut out, "tasks.sqlite3".to_owned());
    }
    let ghost a = strs_view(out@);
    if !f.tree_exists {
        push_text(&mut out, "task_categories.json".to_owned());
    }
    let ghost b = strs_view(out@);
    if !f.log_exists {
        push_text(&mut out, "task_category_change_log.log".to_owned());
    }
    proof {
        assert(empty =~= Seq::<Seq<char>>::empty());
        assert(a =~= when(!f.sqlite_exists, seq![sqlite_db_file_name()]));
        assert(b =~= a + when(!f.tree_exists, seq![category_tree_file_name()]));
        assert(strs_view(out@) =~= b + when(!f.log_exists, seq![category_change_log_file_name()]));
    }
    out
}

fn collect_tree_messages(out: &mut Vec<String>, path: &str, check: &FileCheck<Vec<TaskCategoryNode>>)
    ensures
        strs_view(final(out)@) == strs_view(old(out)@) + tree_messages(path@, *check),
{
    let ghost before = strs_view(out@);
    match check {
        FileCheck::ReadFailed(e) => push_failure(out, "failed to read category tree at ", path, e.as_str()),
        FileCheck::ParseFailed(e) => push_failure(out, "failed to parse category tree at ", path, e.as_str()),
        FileCheck::Parsed(t) => match normalize_category_tree(t) {
            Err(m) => push_failure(out, "failed to validate category tree at ", path, m.as_str()),
            Ok(_) => {},
        },
    }
    proof {
        assert(strs_view(out@) =~= before + tree_messages(path@, *check));
    }
}

fn collect_list_messages(out: &mut Vec<String>, path: &str, check: &FileCheck<Vec<ProjectCategoryNode>>)
    ensures
        strs_view(final(out)@) == strs_view(old(out)@) + list_messages(path@, *check),
{
    let ghost before = strs_view(out@);
    match check {
        FileCheck::ReadFailed(e) => push_failure(out, "failed to read project category list at ", path, e.as_str()),
        FileCheck::ParseFailed(e) => push_failure(out, "failed to parse project category list at ", path, e.as_str()),
        FileCheck::Parsed(l) => match normalize_project_category_list(l) {
            Err(m) => push_failure(out, "failed to validate project category list at ", path, m.as_str()),
            Ok(_) => {},
        },
    }
    proof {
        assert(strs_view(out@) =~= before + list_messages(path@, *check));
    }
}

fn collect_first_invalid(p: &RuntimePathTexts, f: &BundleFacts) -> (out: Vec<String>)
    ensures
        strs_view(out@) == first_invalid(*p, *f),
{
    let mut out: Vec<String> = Vec::new();
    let ghost s0 = strs_view(out@);
    if f.shared_dir.is_none() {
        push_text(&mut out, "runtime bundle files must live in one folder".to_owned());
    }
    let ghost s1 = strs_view(out@);
    if f.sqlite_exists {
        match &f.sqlite_open_error {
            Some(e) => push_failure(&mut out, "failed to open sqlite database at ", p.sqlite_db_path.as_str(), e.as_str()),
            None => {},
        }
    }
    let ghost s2 = strs_view(out@);
    if f.tree_exists {
        collect_tree_messages(&mut out, p.category_tree_path.as_str(), &f.tree_check);
    }
    let ghost s3 = strs_view(out@);
    if f.log_exists {
        match &f.log_read_error {
            Some(e) => push_failure(&mut out, "failed to read category change log at ", p.category_change_log_path.as_str(), e.as_str()),
            None => match &f.log_append_error {
                Some(e) => push_failure(&mut out, "failed to append to category change log at ", p.category_change_log_path.as_str(), e.as_str()),
                None => {},
            },
        }
    }
    proof {
        assert(s0 =~= Seq::<Seq<char>>::empty());
        assert(s1 =~= when(f.shared_dir is None, seq![one_folder_message()]));
        assert(s2 =~= s1 + when(
            f.sqlite_exists,
            match f.sqlite_open_error {
                Some(e) => seq![failure("failed to open sqlite database at "@, p.sqlite_db_path@, e@)],
                None => Seq::empty(),
            },
        ));
        assert(s3 =~= s2 + when(f.tree_exists, tree_messages(p.category_tree_path@, f.tree_check)));
        assert(strs_view(out@) =~= s3 + when(
            f.log_exists,
            log_messages(p.category_change_log_path@, f.log_read_error, f.log_append_error),
        ));
    }
    out
}

/// The status of the bundle at `paths` from what was found there; `details`
/// come first in the status's details.
pub fn validate_runtime_bundle(
    paths: &RuntimePathTexts,
    facts: &BundleFacts,
    details: Vec<String>,
    source: RuntimeStatusSource,
) -> (s: RuntimeStatus)
    requires
        (facts.default_list_written is Some) == needs_default_list(*paths, *facts),
    ensures
        bundle_status_matches(s, *paths, *facts, strs_view(details@), source),
{
    let mut details = details;
    let ghost d0 = strs_view(details@);
    let mut missing = collect_first_missing(facts);
    let mut invalid = collect_first_invalid(paths, facts);
    let ghost m1 = strs_view(missing@);
    let ghost i1 = strs_view(invalid@);
    let due = needs_default_project_category_list(paths, facts);
    if due {
        match &facts.default_list_written {
            Some(Ok(())) => push_text(&mut details, "created default project_categories.json".to_owned()),
            Some(Err(e)) => push_failure(
                &mut invalid,
                "failed to create default project category list at ",
                paths.project_category_list_path.as_str(),
                e.as_str(),
            ),
            None => {},
        }
    }
    proof {
        reveal_strlit("created default project_categories.json");
        reveal_strlit("created default ");
        reveal_strlit("project_categories.json");
        assert("created default "@ + project_category_list_file_name() =~= "created default project_categories.json"@);
    }
    let ghost i2 = strs_view(invalid@);
    let ghost d2 = strs_view(details@);
    if !facts.project_list_exists {
        push_text(&mut missing, "project_categories.json".to_owned());
    }
    if facts.project_list_exists {
        collect_list_messages(&mut invalid, paths.project_category_list_path.as_str(), &facts.project_list_check);
    }
    let dir = match &facts.shared_dir {
        Some(d) => d.clone(),
        None => paths.bundle_dir.clone(),
    };
    push_text(&mut details, concat2("bundle dir: ", dir.as_str()));
    proof {
        assert(i2 =~= i1 + when(
            needs_default_list(*paths, *facts),
            match facts.default_list_written {
                Some(Err(e)) => seq![
                    failure("failed to create default project category list at "@, paths.project_category_list_path@, e@),
                ],
                _ => Seq::empty(),
            },
        ));
        assert(d2 =~= d0 + when(
            needs_default_list(*paths, *facts),
            match facts.default_list_written {
                Some(Ok(())) => seq!["created default "@ + project_category_list_file_name()],
                _ => Seq::empty(),
            },
        ));
        assert(strs_view(missing@) =~= status_missing(*facts));
        assert(strs_view(invalid@) =~= status_invalid(*paths, *facts));
        assert(strs_view(details@) =~= status_details(d0, *paths, *facts));
    }
    let is_ready = missing.len() == 0 && invalid.len() == 0;
    RuntimeStatus { is_ready, bundle_dir: Some(dir), source, missing, invalid, details }
}

/// A bundle is ready only when each of its four files exists: an absent file
/// is listed as missing, by its file name, and keeps the bundle from being
/// ready; a file that exists is not listed as missing.
pub proof fn law_absent_files_are_missing_and_block_readiness(
    s: RuntimeStatus,
    p: RuntimePathTexts,
    f: BundleFacts,
    details: Seq<Seq<char>>,
    source: RuntimeStatusSource,
)
    requires
        bundle_status_matches(s, p, f, details, source),
    ensures
        !f.sqlite_exists ==> strs_view(s.missing@).contains("tasks.sqlite3"@),
        !f.tree_exists ==> strs_view(s.missing@).contains("task_categories.json"@),
        !f.log_exists ==> strs_view(s.missing@).contains("task_category_change_log.log"@),
        !f.project_list_exists ==> strs_view(s.missing@).contains("project_categories.json"@),
        strs_view(s.missing@).contains("tasks.sqlite3"@) ==> !f.sqlite_exists,
        strs_view(s.missing@).contains("task_categories.json"@) ==> !f.tree_exists,
        strs_view(s.missing@).contains("task_category_change_log.log"@) ==> !f.log_exists,
        strs_view(s.missing@).contains("project_categories.json"@) ==> !f.project_list_exists,
        s.is_ready ==> f.sqlite_exists && f.tree_exists && f.log_exists && f.project_list_exists,
{
    reveal_strlit("tasks.sqlite3");
    reveal_strlit("task_categories.json");
    reveal_strlit("task_category_change_log.log");
    reveal_strlit("project_categories.json");
    let m = strs_view(s.missing@);
    let a = when(!f.sqlite_exists, seq![sqlite_db_file_name()]);
    let b = when(!f.tree_exists, seq![category_tree_file_name()]);
    let c = when(!f.log_exists, seq![category_change_log_file_name()]);
    let d = when(!f.project_list_exists, seq![project_category_list_file_name()]);
    assert(m == a + b + c + d);
    let names = seq!["tasks.sqlite3"@, "task_categories.json"@, "task_category_change_log.log"@, "project_categories.json"@];
    assert(names[0].len() == 13 && names[1].len() == 20 && names[2].len() == 28 && names[3].len() == 23);
    if !f.sqlite_exists {
        assert(m[0] == "tasks.sqlite3"@);
    }
    if !f.tree_exists {
        assert(m[a.len() as int] == "task_categories.json"@);
    }
    if !f.log_exists {
        assert(m[(a.len() + b.len()) as int] == "task_category_change_log.log"@);
    }
    if !f.project_list_exists {
        assert(m[(a.len() + b.len() + c.len()) as int] == "project_categories.json"@);
    }
    assert forall|k: int| 0 <= k < m.len() implies {
        &&& (m[k] == "tasks.sqlite3"@ ==> !f.sqlite_exists)
        &&& (m[k] == "task_categories.json"@ ==> !f.tree_exists)
        &&& (m[k] == "task_category_change_log.log"@ ==> !f.log_exists)
        &&& (m[k] == "project_categories.json"@ ==> !f.project_list_exists)
    } by {
        if k < a.len() {
            assert(m[k] == a[k]);
        } else if k < a.len() + b.len() {
            assert(m[k] == b[k - a.len()]);
        } else if k < a.len() + b.len() + c.len() {
            assert(m[k] == c[k - a.len() - b.len()]);
        } else {
            assert(m[k] == d[k - a.len() - b.len() - c.len()]);
        }
    }
}

} // verus!
