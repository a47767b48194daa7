//! Validation of configured servers: the pure checks, their severities, and
//! the aggregation of issues into an overall status.  Checks that ask the
//! machine (does a path exist, is a command on PATH) stay with the caller,
//! which records their outcomes as issues like these.

use vstd::prelude::*;
use crate::strutil::string_to_chars;

verus! {

/// How bad a finding is.
#[derive(PartialEq, Eq, Structural, Clone, Copy)]
pub enum ValidationStatus {
    Valid,
    Warning,
    Error,
    RequirementsMissing,
}

impl ValidationStatus {
    /// The marker shown next to a finding.
    pub fn symbol(&self) -> (r: &'static str)
        ensures
            self is Valid ==> r@ == "+"@,
            self is Warning ==> r@ == "!"@,
            self is Error ==> r@ == "x"@,
            self is RequirementsMissing ==> r@ == "?"@,
    {
        match self {
            ValidationStatus::Valid => "+",
            ValidationStatus::Warning => "!",
            ValidationStatus::Error => "x",
            ValidationStatus::RequirementsMissing => "?",
        }
    }
}

/// One finding about a server.
pub struct ValidationIssue {
    pub issue_type: String,
    pub message: String,
    pub severity: ValidationStatus,
    pub fix_suggestion: Option<String>,
}

/// All findings about one server.
pub struct ValidationResult {
    pub server_name: String,
    pub status: ValidationStatus,
    pub issues: Vec<ValidationIssue>,
    pub suggestions: Vec<String>,
    pub requirements_checked: bool,
}

/// A snapshot of the host the tool runs on.
pub struct SystemDiagnostic {
    pub platform: String,
    pub node_version: Option<String>,
    pub python_version: Option<String>,
    pub config_file_exists: bool,
    pub config_file_path: String,
    pub config_file_writable: bool,
    pub backup_directory_exists: bool,
    pub total_servers: usize,
    pub issues: Vec<ValidationIssue>,
}

/// The worst severity among the findings: an error beats missing
/// requirements, which beat a warning; no findings means valid.
pub open spec fn overall_status(issues: Seq<ValidationIssue>) -> ValidationStatus {
    if exists|i: int| 0 <= i < issues.len() && (#[trigger] issues[i].severity) is Error {
        ValidationStatus::Error
    } else if exists|i: int|
        0 <= i < issues.len() && (#[trigger] issues[i].severity) is RequirementsMissing {
        ValidationStatus::RequirementsMissing
    } else if exists|i: int| 0 <= i < issues.len() && (#[trigger] issues[i].severity) is Warning {
        ValidationStatus::Warning
    } else {
        ValidationStatus::Valid
    }
}

/// Computes the worst severity among the findings.
pub fn aggregate_status(issues: &Vec<ValidationIssue>) -> (r: ValidationStatus)
    ensures
        r == overall_status(issues@),
{
    let mut has_error = false;
    let mut has_missing = false;
    let mut has_warning = false;
    let mut i: usize = 0;
    while i < issues.len()
        invariant
            i <= issues@.len(),
            has_error == (exists|k: int|
                0 <= k < i && (#[trigger] issues@[k].severity) is Error),
            has_missing == (exists|k: int|
                0 <= k < i && (#[trigger] issues@[k].severity) is RequirementsMissing),
            has_warning == (exists|k: int|
                0 <= k < i && (#[trigger] issues@[k].severity) is Warning),
        decreases issues@.len() - i,
    {
        match issues[i].severity {
            ValidationStatus::Error => {
                has_error = true;
                proof {
                    assert((issues@[i as int].severity) is Error);
                }
            },
            ValidationStatus::RequirementsMissing => {
                has_missing = true;
                proof {
                    assert((issues@[i as int].severity) is RequirementsMissing);
                }
            },
            ValidationStatus::Warning => {
                has_warning = true;
                proof {
                    assert((issues@[i as int].severity) is Warning);
                }
            },
            ValidationStatus::Valid => {},
        }
        i = i + 1;
    }
    if has_error {
        ValidationStatus::Error
    } else if has_missing {
        ValidationStatus::RequirementsMissing
    } else if has_warning {
        ValidationStatus::Warning
    } else {
        ValidationStatus::Valid
    }
}

/// An argument gets a warning when it holds a space but is not quoted.
pub open spec fn arg_needs_quoting(a: Seq<char>) -> bool {
    a.contains(' ') && !(a.len() > 0 && (a[0] == '"' || a[0] == '\''))
}

/// The indices of arguments that hold spaces without being quoted; each
/// deserves a warning.
pub fn unquoted_argument_indices(args: &Vec<String>) -> (r: Vec<usize>)
    ensures
        forall|ix: usize|
            #![trigger r@.contains(ix)]
            r@.contains(ix) == (0 <= ix < args@.len() && arg_needs_quoting(args@[ix as int]@)),
{
    let mut out: Vec<usize> = Vec::new();
    let mut i: usize = 0;
    proof {
        assert(out@ =~= Seq::<usize>::empty());
    }
    while i < args.len()
        invariant
            i <= args@.len(),
            forall|ix: usize|
                #![trigger out@.contains(ix)]
                out@.contains(ix) == (0 <= ix < i && arg_needs_quoting(args@[ix as int]@)),
        decreases args@.len() - i,
    {
        let av = string_to_chars(&args[i]);
        let mut has_space = false;
        let mut j: usize = 0;
        while j < av.len()
            invariant
                j <= av@.len(),
                has_space == (exists|k: int| 0 <= k < j && av@[k] == ' '),
            decreases av@.len() - j,
        {
            if av[j] == ' ' {
                has_space = true;
                proof {
                    assert(av@[j as int] == ' ');
                }
            }
            j = j + 1;
        }
        proof {
            assert(has_space == av@.contains(' '));
        }
        let quoted = av.len() > 0 && (av[0] == '"' || av[0] == '\'');
        proof {
            assert(av@ == args@[i as int]@);
            assert(arg_needs_quoting(args@[i as int]@) == (has_space && !quoted));
        }
        let ghost out0 = out@;
        if has_space && !quoted {
            out.push(i);
            proof {
                assert(arg_needs_quoting(args@[i as int]@));
                assert forall|ix: usize|
                    #![trigger out@.contains(ix)]
                    true implies out@.contains(ix) == (0 <= ix < i + 1 && arg_needs_quoting(
                    args@[ix as int]@,
                )) by {
                    crate::strutil::lemma_contains_push(out0, i, ix);
                    if ix == i {
                        assert(out@.contains(ix));
                        assert(arg_needs_quoting(args@[ix as int]@));
                    } else {
                        assert(out@.contains(ix) == out0.contains(ix));
                        assert(out0.contains(ix) == (0 <= ix < i && arg_needs_quoting(
                            args@[ix as int]@,
                        )));
                    }
                }
            }
        } else {
            proof {
                assert forall|ix: usize|
                    #![trigger out@.contains(ix)]
                    true implies out@.contains(ix) == (0 <= ix < i + 1 && arg_needs_quoting(
                    args@[ix as int]@,
                )) by {
                    if ix == i {
                        assert(!arg_needs_quoting(args@[ix as int]@));
                    }
                }
            }
        }
        i = i + 1;
    }
    out
}

/// The indices of environment entries whose value is empty; each deserves a
/// warning.
pub fn empty_env_value_indices(env: &Vec<(String, String)>) -> (r: Vec<usize>)
    ensures
        forall|ix: usize|
            r@.contains(ix) == (0 <= ix < env@.len() && (#[trigger] env@[ix as int].1)@.len()
                == 0),
{
    let mut out: Vec<usize> = Vec::new();
    let mut i: usize = 0;
    proof {
        assert(out@ =~= Seq::<usize>::empty());
    }
    while i < env.len()
        invariant
            i <= env@.len(),
            forall|ix: usize|
                #![trigger out@.contains(ix)]
                out@.contains(ix) == (0 <= ix < i && env@[ix as int].1@.len() == 0),
        decreases env@.len() - i,
    {
        let vv = string_to_chars(&env[i].1);
        proof {
            assert(vv@ == env@[i as int].1@);
        }
        let ghost out0 = out@;
        if vv.len() == 0 {
            out.push(i);
            proof {
                assert(env@[i as int].1@.len() == 0);
                assert forall|ix: usize|
                    #![trigger out@.contains(ix)]
                    true implies out@.contains(ix) == (0 <= ix < i + 1 && env@[ix as int].1@.len()
                    == 0) by {
                    crate::strutil::lemma_contains_push(out0, i, ix);
                }
            }
        } else {
            proof {
                assert(env@[i as int].1@.len() != 0);
                assert forall|ix: usize|
                    #![trigger out@.contains(ix)]
                    true implies out@.contains(ix) == (0 <= ix < i + 1 && env@[ix as int].1@.len()
                    == 0) by {
                    if ix == i {
                    }
                }
            }
        }
        i = i + 1;
    }
    out
}

} // verus!
