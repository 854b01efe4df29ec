//! The messages the tool prints for fatal startup errors.

use vstd::prelude::*;
use vstd::string::StringExecFns;

verus! {

/// The error text for a missing source directory: it names the path.
pub open spec fn spec_missing_source(path: Seq<char>) -> Seq<char> {
    "[ERROR] Source directory '"@ + path + "' does not exist"@
}

/// The error text for a missing destination directory: it names the path.
pub open spec fn spec_missing_dest(path: Seq<char>) -> Seq<char> {
    "[ERROR] Destination directory '"@ + path + "' does not exist"@
}

/// Builds the message reported when the source directory does not exist.
pub fn missing_source_message(path: &str) -> (r: String)
    ensures
        r@ == spec_missing_source(path@),
{
    let s = String::from_str("[ERROR] Source directory '").concat(path).concat(
        "' does not exist",
    );
    proof {
        assert(s@ =~= spec_missing_source(path@));
    }
    s
}

/// Builds the message reported when the destination directory does not
/// exist.
pub fn missing_dest_message(path: &str) -> (r: String)
    ensures
        r@ == spec_missing_dest(path@),
{
    let s = String::from_str("[ERROR] Destination directory '").concat(path).concat(
        "' does not exist",
    );
    proof {
        assert(s@ =~= spec_missing_dest(path@));
    }
    s
}

/// The message either builder returns contains the offending path.
pub proof fn lemma_message_names_path(path: Seq<char>)
    ensures
        forall|k: int|
            0 <= k < path.len() ==> spec_missing_source(path)[
                "[ERROR] Source directory '"@.len() + k
            ] == path[k],
        forall|k: int|
            0 <= k < path.len() ==> spec_missing_dest(path)[
                "[ERROR] Destination directory '"@.len() + k
            ] == path[k],
{
}

} // verus!
