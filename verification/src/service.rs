use vstd::prelude::*;

use crate::dispatch::DeliveryOutcome;
use crate::dispatch::DispatchReport;
use crate::dispatch::dispatch;
use crate::registry::Registry;
use crate::registry::RegistryError;
use crate::registry::remove_url;
use crate::registry::spec_subscribe;
use crate::registry::spec_unsubscribe;
use crate::registry::subs_view;
use crate::registry::subscribers_of;
use crate::registry::upsert;
use crate::subscriber::Subscriber;

verus! {

/// Why the service refused a request.
#[derive(Debug)]
pub enum ServiceError {
    /// The product type or the subscriber payload was malformed: an empty
    /// product type or an empty endpoint identity.
    InvalidInput,
}

impl ServiceError {
    /// A short description for an error body.
    pub fn message(&self) -> (r: &'static str)
        ensures
            r@ == "invalid input: product type and subscriber identity must not be empty"@,
    {
        "invalid input: product type and subscriber identity must not be empty"
    }
}

/// Registers `subscriber` for the product type and returns the stored
/// record. The operation is create-or-confirm: it succeeds — and the caller
/// should report the resource as created — whether the identity was new or
/// already a member, and a repeat registration only overwrites the stored
/// metadata. Fails, mutating nothing, exactly when the product type or the
/// subscriber identity is empty.
pub fn subscribe(registry: &mut Registry, product_type: &str, subscriber: Subscriber) -> (r: Result<
    Subscriber,
    ServiceError,
>)
    requires
        old(registry).wf(),
    ensures
        final(registry).wf(),
        product_type@.len() == 0 || subscriber@.url.len() == 0 ==> {
            &&& r matches Err(ServiceError::InvalidInput)
            &&& final(registry)@ == old(registry)@
        },
        product_type@.len() > 0 && subscriber@.url.len() > 0 ==> {
            &&& r matches Ok(stored) && stored@ == subscriber@
            &&& final(registry)@ == spec_subscribe(old(registry)@, product_type@, subscriber@)
            &&& subscribers_of(final(registry)@, product_type@) == upsert(
                subscribers_of(old(registry)@, product_type@),
                subscriber@,
            )
            &&& forall|d: Seq<char>|
                d != product_type@ ==> subscribers_of(final(registry)@, d) == subscribers_of(
                    old(registry)@,
                    d,
                )
        },
{
    match registry.subscribe(product_type, subscriber) {
        Ok(stored) => Ok(stored),
        Err(RegistryError::InvalidInput) => Err(ServiceError::InvalidInput),
    }
}

/// Deregisters the identity from the product type. Succeeds for every
/// well-formed input, whether or not the identity was registered; fails,
/// mutating nothing, exactly when the product type or the identity is
/// empty.
pub fn unsubscribe(registry: &mut Registry, product_type: &str, identity: &str) -> (r: Result<
    (),
    ServiceError,
>)
    requires
        old(registry).wf(),
    ensures
        final(registry).wf(),
        product_type@.len() == 0 || identity@.len() == 0 ==> {
            &&& r matches Err(ServiceError::InvalidInput)
            &&& final(registry)@ == old(registry)@
        },
        product_type@.len() > 0 && identity@.len() > 0 ==> {
            &&& r matches Ok(())
            &&& final(registry)@ == spec_unsubscribe(old(registry)@, product_type@, identity@)
            &&& subscribers_of(final(registry)@, product_type@) == remove_url(
                subscribers_of(old(registry)@, product_type@),
                identity@,
            )
            &&& forall|d: Seq<char>|
                d != product_type@ ==> subscribers_of(final(registry)@, d) == subscribers_of(
                    old(registry)@,
                    d,
                )
        },
{
    if product_type.is_empty() || identity.is_empty() {
        return Err(ServiceError::InvalidInput);
    }
    registry.unsubscribe(product_type, identity);
    Ok(())
}

/// A snapshot of the subscribers currently registered for the product
/// type, in insertion order; empty when none are.
pub fn list_subscribers(registry: &Registry, product_type: &str) -> (r: Vec<Subscriber>)
    requires
        registry.wf(),
    ensures
        subs_view(r@) == subscribers_of(registry@, product_type@),
{
    registry.list_subscribers(product_type)
}

/// The subscribers an event for the product type must be delivered to: the
/// snapshot is taken while the registry is held, and the delivery attempts
/// themselves then run against the snapshot with the registry released.
pub fn notify_targets(registry: &Registry, product_type: &str) -> (r: Vec<Subscriber>)
    requires
        registry.wf(),
    ensures
        subs_view(r@) == subscribers_of(registry@, product_type@),
{
    registry.list_subscribers(product_type)
}

/// Summarises one notify call: pairs each target of the snapshot with the
/// outcome the caller's delivery attempt for it came to.
pub fn notify_report(targets: &Vec<Subscriber>, outcomes: Vec<DeliveryOutcome>) -> (r:
    DispatchReport)
    requires
        targets@.len() == outcomes@.len(),
    ensures
        r@.len() == targets@.len(),
        forall|i: int|
            0 <= i < r@.len() ==> (#[trigger] r@[i]).url == targets@[i]@.url && r@[i].outcome
                == outcomes@[i]@,
{
    dispatch(targets, outcomes)
}

} // verus!
