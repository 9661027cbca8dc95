use vstd::prelude::*;

verus! {

/// Mathematical view of a subscriber record: its endpoint identity and its
/// display name, both as character sequences.
#[verifier::ext_equal]
pub ghost struct SubscriberView {
    pub url: Seq<char>,
    pub name: Seq<char>,
}

/// One registered listener. The `url` is the subscriber's endpoint identity
/// and is the only field that equality of identities goes by; `name` is
/// display metadata that a later registration may overwrite.
pub struct Subscriber {
    pub url: String,
    pub name: String,
}

impl View for Subscriber {
    type V = SubscriberView;

    open spec fn view(&self) -> SubscriberView {
        SubscriberView { url: self.url@, name: self.name@ }
    }
}

impl Subscriber {
    /// Builds a record from its endpoint identity and display name.
    pub fn new(url: String, name: String) -> (r: Subscriber)
        ensures
            r@ == (SubscriberView { url: url@, name: name@ }),
    {
        Subscriber { url, name }
    }
}

impl Clone for Subscriber {
    fn clone(&self) -> (r: Subscriber)
        ensures
            r@ == self@,
    {
        Subscriber { url: self.url.clone(), name: self.name.clone() }
    }
}

} // verus!
