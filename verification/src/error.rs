//! The error taxonomy of the transpiler.
//!
//! Every error aborts the whole run at the point of occurrence; none is
//! downgraded to a warning. Failures coming from the outside codecs are
//! carried as their rendered reports.

use vstd::prelude::*;
use vstd::string::StringExecFns;

verus! {

/// Joined failure reports, separated by `; `.
pub open spec fn joined_reports(reports: Seq<Seq<char>>) -> Seq<char>
    decreases reports.len(),
{
    if reports.len() == 0 {
        Seq::empty()
    } else if reports.len() == 1 {
        reports.last()
    } else {
        joined_reports(reports.drop_last()) + "; "@ + reports.last()
    }
}

/// Everything that can abort a run.
#[derive(Debug)]
pub enum Problem {
    /// A supplied file path has no parent directory.
    InvalidPath,
    /// An interactive file selection was abandoned.
    RFDCancel,
    /// An underlying read, write or create failure: the operation attempted,
    /// and the report.
    IOError(String, String),
    /// The binary document codec could not parse the input.
    BinaryDecodeError(String),
    /// The markup document codec could not parse the input.
    XMLDecodeError(String),
    /// The binary document codec could not serialize the output tree.
    BinaryEncodeError(String),
    /// The markup document codec could not serialize the output tree.
    XMLEncodeError(String),
    /// The path's extension is not one of the four recognized ones.
    InvalidExtension(String),
    /// No eligible script node was found within the discovery depth bound.
    NoMainSource,
    /// A node expected to carry script text has no string-valued `Source`
    /// property: the node's name.
    NoScriptSource(String),
    /// The embedded-language parser reported one or more errors for one
    /// script's text.
    TranspilerError(Vec<String>),
}

impl Problem {
    /// The terminal report for this error.
    pub fn message(&self) -> (r: String)
        ensures
            self is InvalidPath ==> r@ == "Could not find the parent directory for file"@,
            self is RFDCancel ==> r@ == "User did not choose a file"@,
            (self matches Problem::IOError(op, detail) ==> r@ == "While attempting to "@ + op@
                + ", "@ + detail@),
            (self matches Problem::BinaryDecodeError(d) ==> r@
                == "While attempting to decode the place file, "@ + d@),
            (self matches Problem::XMLDecodeError(d) ==> r@
                == "While attempting to decode the place file, "@ + d@),
            (self matches Problem::BinaryEncodeError(d) ==> r@
                == "While attempting to encode the place file, "@ + d@),
            (self matches Problem::XMLEncodeError(d) ==> r@
                == "While attempting to encode the place file, "@ + d@),
            (self matches Problem::InvalidExtension(p) ==> r@ == "File "@ + p@
                + " does not have the correct rbx file extension"@),
            self is NoMainSource ==> r@
                == "While searching through file, no source script was found"@,
            (self matches Problem::NoScriptSource(name) ==> r@
                == "Couldn't find source for script '"@ + name@ + "'"@),
            (self matches Problem::TranspilerError(errors) ==> r@ == "While transpiling, "@
                + joined_reports(errors.deep_view())),
    {
        match self {
            Problem::InvalidPath => String::from_str(
                "Could not find the parent directory for file",
            ),
            Problem::RFDCancel => String::from_str("User did not choose a file"),
            Problem::IOError(op, detail) => {
                let mut r = String::from_str("While attempting to ");
                r.append(op.as_str());
                r.append(", ");
                r.append(detail.as_str());
                r
            },
            Problem::BinaryDecodeError(d) => {
                let mut r = String::from_str("While attempting to decode the place file, ");
                r.append(d.as_str());
                r
            },
            Problem::XMLDecodeError(d) => {
                let mut r = String::from_str("While attempting to decode the place file, ");
                r.append(d.as_str());
                r
            },
            Problem::BinaryEncodeError(d) => {
                let mut r = String::from_str("While attempting to encode the place file, ");
                r.append(d.as_str());
                r
            },
            Problem::XMLEncodeError(d) => {
                let mut r = String::from_str("While attempting to encode the place file, ");
                r.append(d.as_str());
                r
            },
            Problem::InvalidExtension(p) => {
                let mut r = String::from_str("File ");
                r.append(p.as_str());
                r.append(" does not have the correct rbx file extension");
                r
            },
            Problem::NoMainSource => String::from_str(
                "While searching through file, no source script was found",
            ),
            Problem::NoScriptSource(name) => {
                let mut r = String::from_str("Couldn't find source for script '");
                r.append(name.as_str());
                r.append("'");
                r
            },
            Problem::TranspilerError(errors) => {
                let mut r = String::from_str("While transpiling, ");
                let mut joined = String::new();
                let mut i: usize = 0;
                while i < errors.len()
                    invariant
                        i <= errors.len(),
                        joined@ == joined_reports(errors.deep_view().take(i as int)),
                    decreases errors.len() - i,
                {
                    if i > 0 {
                        joined.append("; ");
                    }
                    joined.append(errors[i].as_str());
                    proof {
                        let dv = errors.deep_view();
                        assert(dv.take(i + 1 as int).drop_last() =~= dv.take(i as int));
                        assert(dv.take(i + 1 as int).last() == dv[i as int]);
                    }
                    i = i + 1;
                }
                proof {
                    assert(errors.deep_view().take(errors@.len() as int) =~= errors.deep_view());
                }
                r.append(joined.as_str());
                r
            },
        }
    }
}

} // verus!
