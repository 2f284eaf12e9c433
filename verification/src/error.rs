//! The pipeline's error taxonomy: argument errors, an unreadable source
//! directory, and failures inside the core. Per-file and writer-protocol
//! conditions are reported as explicit responses by the components
//! themselves; these variants cover what the driving process surfaces.

use vstd::prelude::*;

verus! {

#[verifier::external_type_specification]
#[verifier::external_body]
pub struct ExIoError(std::io::Error);

/// What went wrong while driving the pipeline.
#[derive(Debug)]
pub enum Error {
    /// No arguments were provided.
    EmptyArguments,
    /// Invalid arguments were provided; carries them, with no underlying
    /// error.
    InvalidArguments(Vec<String>),
    /// The source directory could not be read.
    DirectoryReadError(std::io::Error),
    /// An error occurred in the core module.
    CoreError,
}

/// Whether `p` is a prefix of `s`.
pub open spec fn spec_starts_with(s: Seq<char>, p: Seq<char>) -> bool {
    s.len() >= p.len() && s.subrange(0, p.len() as int) == p
}

/// The given parts joined with the separator between each two.
pub open spec fn spec_join(parts: Seq<Seq<char>>, sep: Seq<char>) -> Seq<char>
    decreases parts.len(),
{
    if parts.len() == 0 {
        Seq::empty()
    } else if parts.len() == 1 {
        parts[0]
    } else {
        spec_join(parts.drop_last(), sep) + sep + parts.last()
    }
}

/// One argument as it appears in the rendered list: between double
/// quotes.
pub open spec fn spec_quoted(p: Seq<char>) -> Seq<char> {
    "\""@ + p + "\""@
}

/// The rendered argument list: each argument quoted, the quoted
/// arguments joined with `", "`, the whole between square brackets (an
/// empty list renders as `[]`).
pub open spec fn spec_args_list(parts: Seq<Seq<char>>) -> Seq<char> {
    "["@ + spec_join(parts.map_values(|p: Seq<char>| spec_quoted(p)), ", "@) + "]"@
}

/// Relies on the standard library's Display implementation of
/// `std::io::Error` to render the underlying error's text.
#[verifier::external_body]
fn io_error_text(e: &std::io::Error) -> (r: String) {
    format!("{}", e)
}

fn args_list(parts: &Vec<String>) -> (r: String)
    ensures
        r@ == spec_args_list(crate::text::strs_view(parts@)),
{
    let ghost qs = crate::text::strs_view(parts@).map_values(|p: Seq<char>| spec_quoted(p));
    let mut r = String::from_str("[");
    let n = parts.len();
    let mut i: usize = 0;
    proof {
        assert(spec_join(qs.subrange(0, 0), ", "@) =~= Seq::<char>::empty());
        assert(r@ =~= "["@ + spec_join(qs.subrange(0, 0), ", "@));
    }
    while i < n
        invariant
            n == qs.len(),
            qs == crate::text::strs_view(parts@).map_values(|p: Seq<char>| spec_quoted(p)),
            i <= n,
            r@ == "["@ + spec_join(qs.subrange(0, i as int), ", "@),
        decreases n - i,
    {
        if i > 0 {
            r.append(", ");
        }
        r.append("\"");
        r.append(parts[i].as_str());
        r.append("\"");
        proof {
            let now = qs.subrange(0, i as int + 1);
            assert(now.drop_last() =~= qs.subrange(0, i as int));
            assert(now.last() == qs[i as int]);
            assert(qs[i as int] == spec_quoted(parts@[i as int]@));
            if i == 0 {
                assert(r@ =~= "["@ + spec_join(now, ", "@));
            } else {
                assert(r@ =~= "["@ + (spec_join(now.drop_last(), ", "@) + ", "@ + now.last()));
            }
        }
        i = i + 1;
    }
    r.append("]");
    proof {
        assert(qs.subrange(0, n as int) =~= qs);
        assert(r@ =~= spec_args_list(crate::text::strs_view(parts@)));
    }
    r
}

impl Error {
    /// The human-readable description of the error. The text of an
    /// underlying I/O error is rendered by the standard library, so for
    /// that variant only the fixed prefix is pinned down.
    pub fn message(&self) -> (r: String)
        ensures
            *self is EmptyArguments ==> r@ == "No arguments provided"@,
            *self is CoreError ==> r@ == "An error occurred in the core module"@,
            (*self) matches Error::InvalidArguments(args) ==> r@ == "Invalid arguments provided: "@
                + spec_args_list(crate::text::strs_view(args@)),
            *self is DirectoryReadError ==> spec_starts_with(r@, "Error reading directory: "@),
    {
        match self {
            Error::EmptyArguments => String::from_str("No arguments provided"),
            Error::InvalidArguments(args) => {
                let mut r = String::from_str("Invalid arguments provided: ");
                let listed = args_list(args);
                r.append(listed.as_str());
                r
            },
            Error::DirectoryReadError(e) => {
                let mut r = String::from_str("Error reading directory: ");
                let text = io_error_text(e);
                r.append(text.as_str());
                proof {
                    assert(r@.subrange(0, "Error reading directory: "@.len() as int)
                        =~= "Error reading directory: "@);
                }
                r
            },
            Error::CoreError => String::from_str("An error occurred in the core module"),
        }
    }
}

} // verus!
