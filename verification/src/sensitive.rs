use vstd::prelude::*;

verus! {

/// How a sensitive string (a peer address, an error detail) appears in
/// printed output: a fixed placeholder while `safe_mode` is on, the
/// text itself otherwise. The flag is read once at process start and
/// only ever affects printing, never control flow or state.
pub fn display_sensitive<'a>(safe_mode: bool, raw: &'a str) -> (r: &'a str)
    ensures
        safe_mode ==> r@ == "[REDACTED]"@,
        !safe_mode ==> r@ == raw@,
{
    if safe_mode {
        "[REDACTED]"
    } else {
        raw
    }
}

} // verus!
