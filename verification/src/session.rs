//! Decision points of the interactive run, modelled as plain functions
//! from the operator's (already trimmed) reply to the next action, so the
//! console loop outside the library holds no policy of its own.

use vstd::prelude::*;

verus! {

/// Compares two string slices by their character sequences.
pub fn str_eq(a: &str, b: &str) -> (r: bool)
    ensures
        r == (a@ == b@),
{
    let oa: String = a.to_owned();
    let ob: String = b.to_owned();
    oa == ob
}

/// What the operator asked the mapping loop to do.
#[derive(Clone, Copy, Debug, PartialEq, Eq, Structural)]
pub enum MapChoice {
    /// Accept the current mapping and continue the run.
    Continue,
    /// Re-pair the audio files by size order.
    BySize,
    /// Re-pair the audio files by filename order.
    ByFilename,
    /// Adjust the mapping file by file.
    Manual,
    /// Anything else: report and ask again.
    Unrecognized,
}

/// The mapping-loop choice each trimmed reply stands for; an empty reply
/// defaults to accepting the mapping.
pub open spec fn spec_mapping_choice(reply: Seq<char>) -> MapChoice {
    if reply == ""@ || reply == "c"@ {
        MapChoice::Continue
    } else if reply == "s"@ {
        MapChoice::BySize
    } else if reply == "f"@ {
        MapChoice::ByFilename
    } else if reply == "m"@ {
        MapChoice::Manual
    } else {
        MapChoice::Unrecognized
    }
}

/// Decides what the mapping loop does next from the operator's reply.
pub fn mapping_choice(reply: &str) -> (r: MapChoice)
    ensures
        r == spec_mapping_choice(reply@),
{
    if str_eq(reply, "") || str_eq(reply, "c") {
        MapChoice::Continue
    } else if str_eq(reply, "s") {
        MapChoice::BySize
    } else if str_eq(reply, "f") {
        MapChoice::ByFilename
    } else if str_eq(reply, "m") {
        MapChoice::Manual
    } else {
        MapChoice::Unrecognized
    }
}

/// Whether a trimmed reply affirms a question.
pub open spec fn spec_is_yes(reply: Seq<char>) -> bool {
    reply == "y"@ || reply == "yes"@
}

/// Decides the "run this migration?" prompt, which defaults to yes on an
/// empty reply.
pub fn confirm_migration(reply: &str) -> (r: bool)
    ensures
        r == (spec_is_yes(reply@) || reply@ == ""@),
{
    str_eq(reply, "y") || str_eq(reply, "yes") || str_eq(reply, "")
}

/// Decides whether a trimmed reply affirms a question.
pub fn is_yes(reply: &str) -> (r: bool)
    ensures
        r == spec_is_yes(reply@),
{
    str_eq(reply, "y") || str_eq(reply, "yes")
}

/// Decides the "delete the input folder?" prompt, which defaults to no:
/// only an explicit yes deletes.
pub fn confirm_delete(reply: &str) -> (r: bool)
    ensures
        r == spec_is_yes(reply@),
{
    is_yes(reply)
}

/// State of the one-time opt-in that governs every piece search of the
/// run.
#[derive(Clone, Copy, Debug, PartialEq, Eq, Structural)]
pub enum SearchConsent {
    /// The operator has not been asked yet.
    Unasked,
    /// The operator opted in; searches run without asking again.
    Agreed,
    /// The operator declined; no search runs for the rest of the run.
    Rejected,
}

/// Whether a piece search may run in this state.
pub open spec fn search_allowed(s: SearchConsent) -> bool {
    s is Agreed
}

/// Whether the one-time question has yet to be put to the operator.
pub open spec fn must_ask(s: SearchConsent) -> bool {
    s is Unasked
}

/// Advances the opt-in state on the operator's reply to its one
/// question.  A question already answered never changes again.
pub fn consent_update(s: SearchConsent, reply: &str) -> (r: SearchConsent)
    ensures
        must_ask(s) ==> r == (if spec_is_yes(reply@) {
            SearchConsent::Agreed
        } else {
            SearchConsent::Rejected
        }),
        !must_ask(s) ==> r == s,
        !must_ask(r),
        search_allowed(r) == (if must_ask(s) {
            spec_is_yes(reply@)
        } else {
            search_allowed(s)
        }),
{
    match s {
        SearchConsent::Unasked => {
            if is_yes(reply) {
                SearchConsent::Agreed
            } else {
                SearchConsent::Rejected
            }
        },
        _ => s,
    }
}

} // verus!
