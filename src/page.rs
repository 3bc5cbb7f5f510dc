use vstd::prelude::*;

verus! {

/// Relies on `region::page::size`: the operating system's page size, cached
/// after the first call. Nothing is promised of its value.
#[verifier::external_body]
pub(crate) fn os_page_size() -> (r: usize) {
    region::page::size()
}

} // verus!
