use vstd::prelude::*;

verus! {

/// The memory-reclamation domain of the seize crate.
#[verifier::external_type_specification]
#[verifier::external_body]
pub struct ExCollector(seize::Collector);

/// A handle that keeps the current thread marked active in a `Collector`.
#[verifier::external_type_specification]
#[verifier::external_body]
pub struct ExGuard<'a>(seize::Guard<'a>);

/// Relies on seize's `Collector::new`: builds a fresh reclamation domain.
pub assume_specification[ seize::Collector::new ]() -> seize::Collector;

/// Relies on seize's `Collector::enter`: marks the calling thread active and
/// returns the guard that keeps it so.
pub assume_specification<'a>[ seize::Collector::enter ](c: &'a seize::Collector) -> seize::Guard<'a>;

} // verus!
