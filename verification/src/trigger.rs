//! What re-runs a pane besides its interval: a file whose change
//! wakes it.
use vstd::prelude::*;
use vstd::string::*;

use crate::text::{chars_from, chars_of, chars_start_with, debug_quote, debug_str, starts_with, string_of};

verus! {

broadcast use vstd::string::group_string_axioms;

/// One trigger: `file:PATH` re-runs the pane when PATH changes.
#[derive(Clone, PartialEq, Eq, Debug)]
pub enum TriggerSpec {
    File(String),
}

pub open spec fn trigger_error(spec: Seq<char>) -> Seq<char> {
    "invalid trigger "@ + debug_str(spec) + ": expected file:PATH"@
}

/// `file:PATH`, with a non-empty PATH; anything else is refused with
/// the one scheme spelled out.
pub fn parse_trigger(spec: &str) -> (r: Result<TriggerSpec, String>)
    ensures
        starts_with(spec@, "file:"@) && spec@.len() > 5 ==> r is Ok && (r->Ok_0 matches TriggerSpec::File(p)
            && p@ == spec@.subrange(5, spec@.len() as int)),
        !(starts_with(spec@, "file:"@) && spec@.len() > 5) ==> r is Err && r->Err_0@ == trigger_error(spec@),
{
    let v = chars_of(spec);
    proof { reveal_strlit("file:"); }
    if chars_start_with(v.as_slice(), "file:") && v.len() > 5 {
        let path = chars_from(v.as_slice(), 5);
        return Ok(TriggerSpec::File(string_of(path.as_slice())));
    }
    let mut e = String::from_str("invalid trigger ");
    let q = debug_quote(spec);
    e.append(q.as_str());
    e.append(": expected file:PATH");
    Err(e)
}

} // verus!
