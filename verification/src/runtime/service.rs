//! Decisions around the runtime bundle: where its status comes from, the
//! error text of a bundle that is not ready, the folder a user chose, and
//! the files a new bundle must not overwrite.
use vstd::prelude::*;
use crate::runtime::status::{
    RuntimeStatus, RuntimeStatusSource, RuntimePathTexts, BundleFacts, bundle_status_matches,
    needs_default_list, validate_runtime_bundle,
};
use crate::text::{concat2, concat3, join_texts, join_strings, strs_view, trim, trim_str};

verus! {

/// What looking for the user's runtime configuration gave.
pub enum UserConfigLookup {
    /// Its location could not be worked out.
    PathFailed(String),
    /// There is no configuration file.
    NotFound,
    /// The file at this path, and the bundle paths read from it or why they
    /// could not be.
    Found(String, Result<RuntimePathTexts, String>),
}

pub open spec fn not_configured_message() -> Seq<char> {
    "runtime bundle is not configured; complete first-run setup"@
}

/// A status that names no bundle: not ready, nothing missing.
pub open spec fn unresolved_status(
    s: RuntimeStatus,
    source: RuntimeStatusSource,
    invalid: Seq<Seq<char>>,
    details: Seq<Seq<char>>,
) -> bool {
    &&& !s.is_ready
    &&& s.bundle_dir is None
    &&& s.source == source
    &&& s.missing@.len() == 0
    &&& strs_view(s.invalid@) == invalid
    &&& strs_view(s.details@) == details
}

/// The status of the configured bundle. `facts` are what was found in the
/// bundle, given exactly when the configuration named one.
pub fn load_runtime_status(lookup: UserConfigLookup, facts: Option<BundleFacts>) -> (s: RuntimeStatus)
    requires
        (facts is Some) == (lookup matches UserConfigLookup::Found(_, Ok(_))),
        match (lookup, facts) {
            (UserConfigLookup::Found(_, Ok(p)), Some(f)) => (f.default_list_written is Some)
                == needs_default_list(p, f),
            _ => true,
        },
    ensures
        match (lookup, facts) {
            (UserConfigLookup::PathFailed(e), _) => unresolved_status(
                s,
                RuntimeStatusSource::Unconfigured,
                seq![e@],
                Seq::empty(),
            ),
            (UserConfigLookup::NotFound, _) => unresolved_status(
                s,
                RuntimeStatusSource::Unconfigured,
                seq![not_configured_message()],
                Seq::empty(),
            ),
            (UserConfigLookup::Found(path, Err(e)), _) => unresolved_status(
                s,
                RuntimeStatusSource::UserConfig,
                seq![e@],
                seq!["user runtime config path: "@ + path@],
            ),
            (UserConfigLookup::Found(path, Ok(p)), Some(f)) => bundle_status_matches(
                s,
                p,
                f,
                seq!["using user runtime config at "@ + path@],
                RuntimeStatusSource::UserConfig,
            ),
            _ => true,
        },
{
    match lookup {
        UserConfigLookup::PathFailed(e) => {
            let invalid = vec![e];
            proof {
                assert(strs_view(invalid@) =~= seq![invalid@[0]@]);
            }
            let details: Vec<String> = Vec::new();
            proof {
                assert(strs_view(details@) =~= Seq::<Seq<char>>::empty());
            }
            RuntimeStatus {
                is_ready: false,
                bundle_dir: None,
                source: RuntimeStatusSource::Unconfigured,
                missing: Vec::new(),
                invalid,
                details,
            }
        },
        UserConfigLookup::NotFound => {
            let invalid = vec!["runtime bundle is not configured; complete first-run setup".to_owned()];
            proof {
                assert(strs_view(invalid@) =~= seq![not_configured_message()]);
            }
            let details: Vec<String> = Vec::new();
            proof {
                assert(strs_view(details@) =~= Seq::<Seq<char>>::empty());
            }
            RuntimeStatus {
                is_ready: false,
                bundle_dir: None,
                source: RuntimeStatusSource::Unconfigured,
                missing: Vec::new(),
                invalid,
                details,
            }
        },
        UserConfigLookup::Found(path, Err(e)) => {
            let invalid = vec![e];
            let details = vec![concat2("user runtime config path: ", path.as_str())];
            proof {
                assert(strs_view(invalid@) =~= seq![invalid@[0]@]);
                assert(strs_view(details@) =~= seq!["user runtime config path: "@ + path@]);
            }
            RuntimeStatus {
                is_ready: false,
                bundle_dir: None,
                source: RuntimeStatusSource::UserConfig,
                missing: Vec::new(),
                invalid,
                details,
            }
        },
        UserConfigLookup::Found(path, Ok(p)) => {
            let details = vec![concat2("using user runtime config at ", path.as_str())];
            proof {
                assert(strs_view(details@) =~= seq!["using user runtime config at "@ + path@]);
            }
            match facts {
                Some(f) => validate_runtime_bundle(&p, &f, details, RuntimeStatusSource::UserConfig),
                None => {
                    proof {
                        assert(false);
                    }
                    RuntimeStatus {
                        is_ready: false,
                        bundle_dir: None,
                        source: RuntimeStatusSource::UserConfig,
                        missing: Vec::new(),
                        invalid: Vec::new(),
                        details: Vec::new(),
                    }
                },
            }
        },
    }
}

/// The error text of a bundle that is not ready.
pub open spec fn status_error_message(missing: Seq<Seq<char>>, invalid: Seq<Seq<char>>) -> Seq<char> {
    let parts = (if missing.len() > 0 {
        seq!["missing: "@ + join_texts(missing, ", "@)]
    } else {
        Seq::empty()
    }) + (if invalid.len() > 0 {
        seq!["invalid: "@ + join_texts(invalid, " | "@)]
    } else {
        Seq::empty()
    });
    if parts.len() == 0 {
        "runtime bundle is not ready"@
    } else {
        join_texts(parts, "; "@)
    }
}

/// What is missing and what is invalid, as one message.
pub fn format_runtime_status_error(status: &RuntimeStatus) -> (m: String)
    ensures
        m@ == status_error_message(strs_view(status.missing@), strs_view(status.invalid@)),
{
    let mut parts: Vec<String> = Vec::new();
    let ghost p0 = strs_view(parts@);
    if status.missing.len() > 0 {
        let joined = join_strings(&status.missing, ", ");
        parts.push(concat2("missing: ", joined.as_str()));
    }
    let ghost p1 = strs_view(parts@);
    if status.invalid.len() > 0 {
        let joined = join_strings(&status.invalid, " | ");
        parts.push(concat2("invalid: ", joined.as_str()));
    }
    proof {
        let missing = strs_view(status.missing@);
        let invalid = strs_view(status.invalid@);
        assert(p0 =~= Seq::<Seq<char>>::empty());
        assert(p1 =~= (if missing.len() > 0 {
            seq!["missing: "@ + join_texts(missing, ", "@)]
        } else {
            Seq::empty()
        }));
        assert(strs_view(parts@) =~= p1 + (if invalid.len() > 0 {
            seq!["invalid: "@ + join_texts(invalid, " | "@)]
        } else {
            Seq::empty()
        }));
    }
    if parts.len() == 0 {
        "runtime bundle is not ready".to_owned()
    } else {
        join_strings(&parts, "; ")
    }
}

/// Passes a ready bundle; otherwise fails with what is wrong with it.
pub fn require_ready(status: &RuntimeStatus) -> (r: Result<(), String>)
    ensures
        status.is_ready ==> r is Ok,
        !status.is_ready ==> r is Err && r->Err_0@ == status_error_message(
            strs_view(status.missing@),
            strs_view(status.invalid@),
        ),
{
    if !status.is_ready {
        return Err(format_runtime_status_error(status));
    }
    Ok(())
}

pub open spec fn spec_normalize_bundle_dir(raw: Seq<char>) -> Result<Seq<char>, Seq<char>> {
    if trim(raw).len() == 0 {
        Err("runtime bundle directory path is empty"@)
    } else {
        Ok(trim(raw))
    }
}

/// The chosen folder, trimmed; an empty one is refused.
pub fn normalize_bundle_dir(raw_value: &str) -> (r: Result<String, String>)
    ensures
        match r {
            Ok(v) => spec_normalize_bundle_dir(raw_value@) == Ok::<Seq<char>, Seq<char>>(v@),
            Err(e) => spec_normalize_bundle_dir(raw_value@) == Err::<Seq<char>, Seq<char>>(e@),
        },
{
    let trimmed = trim_str(raw_value);
    if trimmed.as_str().is_empty() {
        return Err("runtime bundle directory path is empty".to_owned());
    }
    Ok(trimmed)
}

/// A new bundle must not overwrite a file that is already there.
pub fn reject_existing_bundle_file(path: &str, exists: bool) -> (r: Result<(), String>)
    ensures
        !exists ==> r is Ok,
        exists ==> r is Err && r->Err_0@ == "refusing to create runtime bundle because "@ + path@
            + " already exists"@,
{
    if exists {
        return Err(concat3("refusing to create runtime bundle because ", path, " already exists"));
    }
    Ok(())
}

} // verus!
