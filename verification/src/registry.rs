use vstd::prelude::*;

use crate::subscriber::Subscriber;
use crate::subscriber::SubscriberView;

verus! {

/// Mathematical view of one category's slot in the registry: the category
/// key and the subscribers registered for it, in insertion order.
#[verifier::ext_equal]
pub ghost struct CategoryView {
    pub category: Seq<char>,
    pub subscribers: Seq<SubscriberView>,
}

/// Why the registry refused a mutation.
#[derive(Debug)]
pub enum RegistryError {
    /// The category or the subscriber identity was empty.
    InvalidInput,
}

/// The views of a sequence of subscriber records.
pub open spec fn subs_view(s: Seq<Subscriber>) -> Seq<SubscriberView> {
    s.map_values(|x: Subscriber| x@)
}

/// Whether some slot of `v` carries the category `c`.
pub open spec fn has_category(v: Seq<CategoryView>, c: Seq<char>) -> bool {
    exists|i: int| 0 <= i < v.len() && v[i].category == c
}

/// The index of the slot carrying category `c`; meaningful only when
/// `has_category(v, c)` holds and categories are unique in `v`.
pub open spec fn category_at(v: Seq<CategoryView>, c: Seq<char>) -> int {
    choose|i: int| 0 <= i < v.len() && v[i].category == c
}

/// Whether some record in `subs` has the identity `id`.
pub open spec fn has_url(subs: Seq<SubscriberView>, id: Seq<char>) -> bool {
    exists|j: int| 0 <= j < subs.len() && subs[j].url == id
}

/// The index of the record with identity `id`; meaningful only when
/// `has_url(subs, id)` holds and identities are unique in `subs`.
pub open spec fn url_index(subs: Seq<SubscriberView>, id: Seq<char>) -> int {
    choose|j: int| 0 <= j < subs.len() && subs[j].url == id
}

/// Insert-or-overwrite of one record, matched by identity: an existing
/// record with the same identity is replaced wholesale in place, otherwise
/// the record is appended.
pub open spec fn upsert(subs: Seq<SubscriberView>, s: SubscriberView) -> Seq<SubscriberView> {
    if has_url(subs, s.url) {
        subs.update(url_index(subs, s.url), s)
    } else {
        subs.push(s)
    }
}

/// Removal of the record with identity `id`, if any; otherwise the sequence
/// is unchanged.
pub open spec fn remove_url(subs: Seq<SubscriberView>, id: Seq<char>) -> Seq<SubscriberView> {
    if has_url(subs, id) {
        subs.remove(url_index(subs, id))
    } else {
        subs
    }
}

/// The subscribers registered for category `c`: the content of its slot,
/// or the empty sequence when the category is unknown.
pub open spec fn subscribers_of(v: Seq<CategoryView>, c: Seq<char>) -> Seq<SubscriberView> {
    if has_category(v, c) {
        v[category_at(v, c)].subscribers
    } else {
        Seq::empty()
    }
}

/// What a successful subscribe does to the whole registry view: upsert into
/// the existing slot for `c`, or append a fresh slot holding only `s`.
pub open spec fn spec_subscribe(v: Seq<CategoryView>, c: Seq<char>, s: SubscriberView) -> Seq<
    CategoryView,
> {
    if has_category(v, c) {
        v.update(
            category_at(v, c),
            CategoryView { category: c, subscribers: upsert(v[category_at(v, c)].subscribers, s) },
        )
    } else {
        v.push(CategoryView { category: c, subscribers: seq![s] })
    }
}

/// What unsubscribe does to the whole registry view: remove the record with
/// identity `id` from the slot for `c`, if both exist; the slot itself is
/// never removed, and an unknown category or identity changes nothing.
pub open spec fn spec_unsubscribe(v: Seq<CategoryView>, c: Seq<char>, id: Seq<char>) -> Seq<
    CategoryView,
> {
    if has_category(v, c) {
        v.update(
            category_at(v, c),
            CategoryView {
                category: c,
                subscribers: remove_url(v[category_at(v, c)].subscribers, id),
            },
        )
    } else {
        v
    }
}

/// Identities are pairwise distinct within one category's record sequence.
pub open spec fn urls_unique(subs: Seq<SubscriberView>) -> bool {
    forall|p: int, q: int| 0 <= p < q < subs.len() ==> subs[p].url != subs[q].url
}

/// Well-formedness of a registry view: category keys are pairwise distinct
/// and non-empty, and within each category the identities are pairwise
/// distinct and non-empty.
pub open spec fn view_wf(v: Seq<CategoryView>) -> bool {
    &&& forall|i: int, j: int| 0 <= i < j < v.len() ==> v[i].category != v[j].category
    &&& forall|i: int| 0 <= i < v.len() ==> (#[trigger] v[i]).category.len() > 0
    &&& forall|i: int| 0 <= i < v.len() ==> urls_unique((#[trigger] v[i]).subscribers)
    &&& forall|i: int, p: int|
        0 <= i < v.len() && 0 <= p < v[i].subscribers.len()
            ==> (#[trigger] v[i].subscribers[p]).url.len() > 0
}

/// When category keys are unique, a slot that carries `c` is the one that
/// `category_at` picks.
pub proof fn lemma_category_at_unique(v: Seq<CategoryView>, c: Seq<char>, i: int)
    requires
        forall|p: int, q: int| 0 <= p < q < v.len() ==> v[p].category != v[q].category,
        0 <= i < v.len(),
        v[i].category == c,
    ensures
        has_category(v, c),
        category_at(v, c) == i,
{
    assert(has_category(v, c));
    let k = category_at(v, c);
    if k < i {
        assert(v[k].category != v[i].category);
    } else if i < k {
        assert(v[i].category != v[k].category);
    }
}

/// When identities are unique, a record that carries `id` is the one that
/// `url_index` picks.
pub proof fn lemma_url_index_unique(subs: Seq<SubscriberView>, id: Seq<char>, j: int)
    requires
        urls_unique(subs),
        0 <= j < subs.len(),
        subs[j].url == id,
    ensures
        has_url(subs, id),
        url_index(subs, id) == j,
{
    assert(has_url(subs, id));
    let k = url_index(subs, id);
    if k < j {
        assert(subs[k].url != subs[j].url);
    } else if j < k {
        assert(subs[j].url != subs[k].url);
    }
}

/// Upserting keeps identities unique and non-empty.
pub proof fn lemma_upsert_wf(subs: Seq<SubscriberView>, s: SubscriberView)
    requires
        urls_unique(subs),
        forall|p: int| 0 <= p < subs.len() ==> (#[trigger] subs[p]).url.len() > 0,
        s.url.len() > 0,
    ensures
        urls_unique(upsert(subs, s)),
        forall|p: int| 0 <= p < upsert(subs, s).len() ==> (#[trigger] upsert(subs, s)[p]).url.len()
            > 0,
        upsert(subs, s).len() == if has_url(subs, s.url) {
            subs.len()
        } else {
            subs.len() + 1
        },
        has_url(upsert(subs, s), s.url),
{
    if has_url(subs, s.url) {
        let j = url_index(subs, s.url);
        lemma_url_index_unique(subs, s.url, j);
        let r = upsert(subs, s);
        assert(r[j] == s);
        assert forall|p: int, q: int| 0 <= p < q < r.len() implies r[p].url != r[q].url by {
            if p != j && q != j {
                assert(subs[p].url != subs[q].url);
            } else if p == j {
                assert(subs[j].url == s.url);
                assert(subs[q].url != subs[j].url);
            } else {
                assert(subs[p].url != subs[j].url);
            }
        }
    } else {
        let r = subs.push(s);
        assert forall|p: int, q: int| 0 <= p < q < r.len() implies r[p].url != r[q].url by {
            if q == subs.len() {
                assert(!(subs[p].url == s.url));
            }
        }
        assert(r[subs.len() as int].url == s.url);
    }
}

/// Removing an identity keeps the remaining identities unique and
/// non-empty, and actually removes the record that carried it.
pub proof fn lemma_remove_url_wf(subs: Seq<SubscriberView>, id: Seq<char>)
    requires
        urls_unique(subs),
        forall|p: int| 0 <= p < subs.len() ==> (#[trigger] subs[p]).url.len() > 0,
    ensures
        urls_unique(remove_url(subs, id)),
        forall|p: int|
            0 <= p < remove_url(subs, id).len() ==> (#[trigger] remove_url(subs, id)[p]).url.len()
                > 0,
        !has_url(remove_url(subs, id), id),
        remove_url(subs, id).len() == if has_url(subs, id) {
            subs.len() - 1
        } else {
            subs.len() as int
        },
{
    if has_url(subs, id) {
        let j = url_index(subs, id);
        lemma_url_index_unique(subs, id, j);
        let r = subs.remove(j);
        assert forall|p: int| 0 <= p < r.len() implies r[p].url != id by {
            if p < j {
                assert(r[p] == subs[p]);
                assert(subs[p].url != subs[j].url);
            } else {
                assert(r[p] == subs[p + 1]);
                assert(subs[j].url != subs[p + 1].url);
            }
        }
        assert forall|p: int, q: int| 0 <= p < q < r.len() implies r[p].url != r[q].url by {
            let p1: int = if p < j {
                p
            } else {
                p + 1
            };
            let q1: int = if q < j {
                q
            } else {
                q + 1
            };
            assert(r[p] == subs[p1]);
            assert(r[q] == subs[q1]);
            assert(subs[p1].url != subs[q1].url);
        }
        assert forall|p: int| 0 <= p < r.len() implies (#[trigger] r[p]).url.len() > 0 by {
            if p < j {
                assert(r[p] == subs[p]);
            } else {
                assert(r[p] == subs[p + 1]);
            }
        }
    }
}

/// The central law of removal: an unsubscribe removes the identity from
/// exactly the named category's subscriber sequence, leaves every other
/// category's sequence untouched, preserves well-formedness, and is the
/// identity on the whole registry when the identity was never subscribed.
pub proof fn lemma_spec_unsubscribe(v: Seq<CategoryView>, c: Seq<char>, id: Seq<char>)
    requires
        view_wf(v),
    ensures
        view_wf(spec_unsubscribe(v, c, id)),
        subscribers_of(spec_unsubscribe(v, c, id), c) == remove_url(subscribers_of(v, c), id),
        !has_url(subscribers_of(spec_unsubscribe(v, c, id), c), id),
        forall|d: Seq<char>|
            d != c ==> subscribers_of(spec_unsubscribe(v, c, id), d) == subscribers_of(v, d),
        !has_url(subscribers_of(v, c), id) ==> spec_unsubscribe(v, c, id) == v,
{
    let r = spec_unsubscribe(v, c, id);
    if has_category(v, c) {
        let k = category_at(v, c);
        assert(0 <= k < v.len() && v[k].category == c);
        lemma_category_at_unique(v, c, k);
        assert(subscribers_of(v, c) == v[k].subscribers);
        lemma_remove_url_wf(v[k].subscribers, id);
        assert(r == v.update(
            k,
            CategoryView { category: c, subscribers: remove_url(v[k].subscribers, id) },
        ));
        assert forall|i: int| 0 <= i < r.len() && i != k implies r[i] == v[i] by {}
        assert(view_wf(r));
        lemma_category_at_unique(r, c, k);
        assert(subscribers_of(r, c) == remove_url(v[k].subscribers, id));
        assert forall|d: Seq<char>| d != c implies subscribers_of(r, d) == subscribers_of(v, d) by {
            if has_category(v, d) {
                let m = category_at(v, d);
                assert(0 <= m < v.len() && v[m].category == d);
                assert(m != k);
                assert(r[m] == v[m]);
                lemma_category_at_unique(r, d, m);
                lemma_category_at_unique(v, d, m);
            } else {
                assert forall|i: int| 0 <= i < r.len() implies r[i].category != d by {
                    if i != k {
                        assert(r[i] == v[i]);
                        assert(!(v[i].category == d));
                    }
                }
                assert(!has_category(r, d));
            }
        }
        if !has_url(v[k].subscribers, id) {
            assert(remove_url(v[k].subscribers, id) == v[k].subscribers);
            assert((CategoryView { category: c, subscribers: v[k].subscribers }) =~~= v[k]);
            assert(r =~~= v);
        }
    } else {
        assert(subscribers_of(v, c) == Seq::<SubscriberView>::empty());
        assert(!has_url(subscribers_of(v, c), id));
        assert(remove_url(subscribers_of(v, c), id) == subscribers_of(v, c));
        assert(subscribers_of(r, c) == Seq::<SubscriberView>::empty());
    }
}

/// The central law of registration: a subscribe upserts into exactly the
/// named category's subscriber sequence, leaves every other category's
/// sequence untouched, and preserves well-formedness.
pub proof fn lemma_spec_subscribe(v: Seq<CategoryView>, c: Seq<char>, s: SubscriberView)
    requires
        view_wf(v),
        c.len() > 0,
        s.url.len() > 0,
    ensures
        view_wf(spec_subscribe(v, c, s)),
        subscribers_of(spec_subscribe(v, c, s), c) == upsert(subscribers_of(v, c), s),
        forall|d: Seq<char>|
            d != c ==> subscribers_of(spec_subscribe(v, c, s), d) == subscribers_of(v, d),
{
    let r = spec_subscribe(v, c, s);
    if has_category(v, c) {
        let k = category_at(v, c);
        assert(0 <= k < v.len() && v[k].category == c);
        lemma_category_at_unique(v, c, k);
        lemma_upsert_wf(v[k].subscribers, s);
        assert(r == v.update(k, CategoryView { category: c, subscribers: upsert(v[k].subscribers, s) }));
        assert forall|i: int| 0 <= i < r.len() && i != k implies r[i] == v[i] by {}
        assert(view_wf(r));
        lemma_category_at_unique(r, c, k);
        assert(subscribers_of(r, c) == upsert(v[k].subscribers, s));
        assert(subscribers_of(v, c) == v[k].subscribers);
        assert forall|d: Seq<char>| d != c implies subscribers_of(r, d) == subscribers_of(v, d) by {
            if has_category(v, d) {
                let m = category_at(v, d);
                assert(0 <= m < v.len() && v[m].category == d);
                assert(m != k);
                assert(r[m] == v[m]);
                lemma_category_at_unique(r, d, m);
                assert(subscribers_of(r, d) == v[m].subscribers);
            } else {
                assert forall|i: int| 0 <= i < r.len() implies r[i].category != d by {
                    if i != k {
                        assert(r[i] == v[i]);
                        assert(!(v[i].category == d));
                    }
                }
                assert(!has_category(r, d));
            }
        }
    } else {
        let n = v.len() as int;
        assert(r == v.push(CategoryView { category: c, subscribers: seq![s] }));
        assert(r[n].category == c);
        assert forall|i: int| 0 <= i < n implies r[i] == v[i] by {}
        assert forall|i: int, j: int| 0 <= i < j < r.len() implies r[i].category != r[j].category
            by {
            if j == n {
                assert(!(v[i].category == c));
            }
        }
        assert(urls_unique(seq![s]));
        assert(view_wf(r));
        lemma_category_at_unique(r, c, n);
        assert(subscribers_of(r, c) == seq![s]);
        assert(!has_url(subscribers_of(v, c), s.url));
        assert(upsert(subscribers_of(v, c), s) == Seq::<SubscriberView>::empty().push(s));
        assert(subscribers_of(r, c) =~= upsert(subscribers_of(v, c), s));
        assert forall|d: Seq<char>| d != c implies subscribers_of(r, d) == subscribers_of(v, d) by {
            if has_category(v, d) {
                let m = category_at(v, d);
                assert(0 <= m < v.len() && v[m].category == d);
                lemma_category_at_unique(r, d, m);
                assert(subscribers_of(r, d) == v[m].subscribers);
                lemma_category_at_unique(v, d, m);
            } else {
                assert forall|i: int| 0 <= i < r.len() implies r[i].category != d by {
                    if i != n {
                        assert(!(v[i].category == d));
                    }
                }
                assert(!has_category(r, d));
            }
        }
    }
}

/// Upserting twice under one identity comes to upserting the final record
/// once: the first record is overwritten wholesale.
pub proof fn lemma_upsert_absorb(subs: Seq<SubscriberView>, s1: SubscriberView, s2: SubscriberView)
    requires
        urls_unique(subs),
        s1.url == s2.url,
    ensures
        upsert(upsert(subs, s1), s2) == upsert(subs, s2),
{
    if has_url(subs, s1.url) {
        let j = url_index(subs, s1.url);
        lemma_url_index_unique(subs, s1.url, j);
        let u1 = subs.update(j, s1);
        assert forall|p: int, q: int| 0 <= p < q < u1.len() implies u1[p].url != u1[q].url by {
            assert(u1[p].url == subs[p].url);
            assert(u1[q].url == subs[q].url);
        }
        lemma_url_index_unique(u1, s2.url, j);
        assert(upsert(u1, s2) == u1.update(j, s2));
        assert(upsert(subs, s2) == subs.update(j, s2));
        assert(u1.update(j, s2) =~= subs.update(j, s2));
    } else {
        let n = subs.len() as int;
        let u1 = subs.push(s1);
        assert forall|p: int, q: int| 0 <= p < q < u1.len() implies u1[p].url != u1[q].url by {
            if q == n {
                assert(u1[p].url == subs[p].url);
                assert(!(subs[p].url == s1.url));
            } else {
                assert(u1[p].url == subs[p].url);
                assert(u1[q].url == subs[q].url);
            }
        }
        lemma_url_index_unique(u1, s2.url, n);
        assert(upsert(u1, s2) == u1.update(n, s2));
        assert(!has_url(subs, s2.url));
        assert(upsert(subs, s2) == subs.push(s2));
        assert(u1.update(n, s2) =~= subs.push(s2));
    }
}

/// Registering twice under one identity is idempotent: the repeat comes to
/// registering the final record once, so it changes neither the number of
/// records nor the set of identities, and the one record stored under that
/// identity carries the final call's metadata.
pub proof fn lemma_subscribe_idempotent(
    v: Seq<CategoryView>,
    c: Seq<char>,
    s1: SubscriberView,
    s2: SubscriberView,
)
    requires
        view_wf(v),
        c.len() > 0,
        s1.url.len() > 0,
        s1.url == s2.url,
    ensures
        subscribers_of(spec_subscribe(spec_subscribe(v, c, s1), c, s2), c).len()
            == subscribers_of(spec_subscribe(v, c, s1), c).len(),
        has_url(subscribers_of(spec_subscribe(spec_subscribe(v, c, s1), c, s2), c), s2.url),
        forall|p: int|
            0 <= p < subscribers_of(spec_subscribe(spec_subscribe(v, c, s1), c, s2), c).len()
                && (#[trigger] subscribers_of(
                spec_subscribe(spec_subscribe(v, c, s1), c, s2),
                c,
            )[p]).url == s2.url ==> subscribers_of(
                spec_subscribe(spec_subscribe(v, c, s1), c, s2),
                c,
            )[p] == s2,
        spec_subscribe(spec_subscribe(v, c, s1), c, s2) == spec_subscribe(v, c, s2),
{
    let subs0 = subscribers_of(v, c);
    lemma_spec_subscribe(v, c, s1);
    let v1 = spec_subscribe(v, c, s1);
    let subs1 = subscribers_of(v1, c);
    lemma_upsert_wf(subs0, s1);
    assert(has_url(subs1, s1.url));
    lemma_spec_subscribe(v1, c, s2);
    let v2 = spec_subscribe(v1, c, s2);
    let subs2 = subscribers_of(v2, c);
    assert(subs2 == upsert(subs1, s2));
    assert(has_url(subs1, s2.url));
    let j = url_index(subs1, s2.url);
    assert(subs2 == subs1.update(j, s2));
    assert(view_wf(v1));
    assert(urls_unique(subs1)) by {
        if has_category(v1, c) {
            lemma_category_at_unique(v1, c, category_at(v1, c));
        }
    }
    lemma_upsert_wf(subs1, s2);
    assert forall|p: int|
        0 <= p < subs2.len() && (#[trigger] subs2[p]).url == s2.url implies subs2[p] == s2 by {
        if p != j {
            assert(subs2[p] == subs1[p]);
            assert(subs1[j].url == s2.url);
            if p < j {
                assert(subs1[p].url != subs1[j].url);
            } else {
                assert(subs1[j].url != subs1[p].url);
            }
        }
    }
    assert(urls_unique(subs0)) by {
        if has_category(v, c) {
            lemma_category_at_unique(v, c, category_at(v, c));
        }
    }
    lemma_upsert_absorb(subs0, s1, s2);
    if has_category(v, c) {
        let k = category_at(v, c);
        lemma_category_at_unique(v, c, k);
        lemma_category_at_unique(v1, c, k);
        assert(v2 == v1.update(k, CategoryView { category: c, subscribers: upsert(subs1, s2) }));
        assert(spec_subscribe(v, c, s2) == v.update(
            k,
            CategoryView { category: c, subscribers: upsert(subs0, s2) },
        ));
        assert(v2 =~= spec_subscribe(v, c, s2));
    } else {
        let n = v.len() as int;
        lemma_category_at_unique(v1, c, n);
        assert(v2 == v1.update(n, CategoryView { category: c, subscribers: upsert(subs1, s2) }));
        assert(!has_url(subs0, s2.url));
        assert(upsert(subs0, s2) =~= seq![s2]);
        assert(spec_subscribe(v, c, s2) == v.push(
            CategoryView { category: c, subscribers: seq![s2] },
        ));
        assert(v2 =~~= spec_subscribe(v, c, s2));
    }
}

/// An existing identity survives any later upsert.
pub proof fn lemma_upsert_keeps_url(subs: Seq<SubscriberView>, s: SubscriberView, u: Seq<char>)
    requires
        has_url(subs, u),
    ensures
        has_url(upsert(subs, s), u),
{
    let w = choose|j: int| 0 <= j < subs.len() && subs[j].url == u;
    if has_url(subs, s.url) {
        let j = url_index(subs, s.url);
        let r = subs.update(j, s);
        if w == j {
            assert(subs[j].url == u);
            assert(r[j].url == s.url);
            assert(s.url == subs[j].url);
        } else {
            assert(r[w].url == u);
        }
    } else {
        assert(subs.push(s)[w].url == u);
    }
}

/// What a run of registrations, one record after the other, does to the
/// registry view.
pub open spec fn spec_subscribe_all(
    v: Seq<CategoryView>,
    c: Seq<char>,
    ss: Seq<SubscriberView>,
) -> Seq<CategoryView>
    decreases ss.len(),
{
    if ss.len() == 0 {
        v
    } else {
        spec_subscribe_all(spec_subscribe(v, c, ss[0]), c, ss.drop_first())
    }
}

/// Safety of interleaved registration: however a batch of registrations
/// with pairwise distinct, fresh identities is serialised into one order,
/// every identity ends up registered and the category holds exactly one
/// record more per registration.
pub proof fn lemma_subscribe_all_distinct(
    v: Seq<CategoryView>,
    c: Seq<char>,
    ss: Seq<SubscriberView>,
)
    requires
        view_wf(v),
        c.len() > 0,
        forall|p: int| 0 <= p < ss.len() ==> (#[trigger] ss[p]).url.len() > 0,
        forall|p: int, q: int| 0 <= p < q < ss.len() ==> ss[p].url != ss[q].url,
        forall|p: int| 0 <= p < ss.len() ==> !has_url(subscribers_of(v, c), (#[trigger] ss[p]).url),
    ensures
        view_wf(spec_subscribe_all(v, c, ss)),
        subscribers_of(spec_subscribe_all(v, c, ss), c).len() == subscribers_of(v, c).len()
            + ss.len(),
        forall|p: int|
            0 <= p < ss.len() ==> has_url(
                subscribers_of(spec_subscribe_all(v, c, ss), c),
                (#[trigger] ss[p]).url,
            ),
    decreases ss.len(),
{
    if ss.len() == 0 {
    } else {
        let s0 = ss[0];
        let tail = ss.drop_first();
        lemma_spec_subscribe(v, c, s0);
        let v1 = spec_subscribe(v, c, s0);
        let subs0 = subscribers_of(v, c);
        let subs1 = subscribers_of(v1, c);
        lemma_upsert_wf(subs0, s0);
        assert(subs1 == subs0.push(s0));
        assert forall|p: int| 0 <= p < tail.len() implies !has_url(
            subs1,
            (#[trigger] tail[p]).url,
        ) by {
            assert(tail[p] == ss[p + 1]);
            assert(ss[0].url != ss[p + 1].url);
            if has_url(subs1, tail[p].url) {
                let w = choose|j: int| 0 <= j < subs1.len() && subs1[j].url == tail[p].url;
                if w < subs0.len() {
                    assert(subs0[w].url == tail[p].url);
                } else {
                    assert(subs1[w] == s0);
                }
            }
        }
        assert forall|p: int| 0 <= p < tail.len() implies (#[trigger] tail[p]).url.len() > 0 by {
            assert(tail[p] == ss[p + 1]);
        }
        assert forall|p: int, q: int| 0 <= p < q < tail.len() implies tail[p].url != tail[q].url by {
            assert(tail[p] == ss[p + 1]);
            assert(tail[q] == ss[q + 1]);
        }
        lemma_subscribe_all_distinct(v1, c, tail);
        assert(spec_subscribe_all(v, c, ss) == spec_subscribe_all(v1, c, tail));
        assert(has_url(subs1, s0.url));
        lemma_all_keep_url(v1, c, tail, s0.url);
        assert forall|p: int| 0 <= p < ss.len() implies has_url(
            subscribers_of(spec_subscribe_all(v, c, ss), c),
            (#[trigger] ss[p]).url,
        ) by {
            if p > 0 {
                assert(tail[p - 1] == ss[p]);
            }
        }
    }
}

/// An identity already registered for `c` survives a whole later run of
/// registrations.
pub proof fn lemma_all_keep_url(
    v: Seq<CategoryView>,
    c: Seq<char>,
    ss: Seq<SubscriberView>,
    u: Seq<char>,
)
    requires
        view_wf(v),
        c.len() > 0,
        forall|p: int| 0 <= p < ss.len() ==> (#[trigger] ss[p]).url.len() > 0,
        has_url(subscribers_of(v, c), u),
    ensures
        has_url(subscribers_of(spec_subscribe_all(v, c, ss), c), u),
    decreases ss.len(),
{
    if ss.len() == 0 {
    } else {
        let s0 = ss[0];
        lemma_spec_subscribe(v, c, s0);
        lemma_upsert_keeps_url(subscribers_of(v, c), s0, u);
        let tail = ss.drop_first();
        assert forall|p: int| 0 <= p < tail.len() implies (#[trigger] tail[p]).url.len() > 0 by {
            assert(tail[p] == ss[p + 1]);
        }
        lemma_all_keep_url(spec_subscribe(v, c, s0), c, tail, u);
    }
}

struct CategoryEntry {
    category: String,
    subscribers: Vec<Subscriber>,
}

impl View for CategoryEntry {
    type V = CategoryView;

    closed spec fn view(&self) -> CategoryView {
        CategoryView { category: self.category@, subscribers: subs_view(self.subscribers@) }
    }
}

/// The authoritative in-memory store of category → subscriber-set
/// relationships. Slots are kept in the order categories were first
/// subscribed to, and each slot keeps its subscribers in insertion order.
///
/// The registry is plain owned state: a caller that shares it between
/// request handlers must wrap it in a lock and take snapshots under the
/// lock, releasing it before any delivery work.
pub struct Registry {
    entries: Vec<CategoryEntry>,
}

impl View for Registry {
    type V = Seq<CategoryView>;

    closed spec fn view(&self) -> Seq<CategoryView> {
        self.entries@.map_values(|e: CategoryEntry| e@)
    }
}

impl Registry {
    /// Well-formedness: every constructor establishes it and every method
    /// preserves it.
    pub open spec fn wf(&self) -> bool {
        view_wf(self@)
    }

    /// An empty registry: no category has any subscriber.
    pub fn new() -> (r: Registry)
        ensures
            r.wf(),
            r@ == Seq::<CategoryView>::empty(),
    {
        let r = Registry { entries: Vec::new() };
        proof {
            assert(r@ =~= Seq::<CategoryView>::empty());
        }
        r
    }

    /// The index of the slot for `c`, if the category is known.
    fn find_category(&self, c: &String) -> (r: Option<usize>)
        ensures
            match r {
                Some(i) => i < self@.len() && self@[i as int].category == c@,
                None => !has_category(self@, c@),
            },
    {
        let n = self.entries.len();
        let mut i: usize = 0;
        while i < n
            invariant
                n == self@.len(),
                0 <= i <= n,
                forall|j: int| 0 <= j < i ==> self@[j].category != c@,
            decreases n - i,
        {
            if self.entries[i].category == *c {
                assert(self@[i as int].category == c@);
                return Some(i);
            }
            i = i + 1;
        }
        None
    }

    /// Registers `subscriber` for `category`: inserts it into the
    /// category's slot if its identity is absent there, and otherwise
    /// overwrites the stored record wholesale (last write wins). Returns the
    /// stored record. Fails, mutating nothing, exactly when the category or
    /// the subscriber identity is empty.
    pub fn subscribe(&mut self, category: &str, subscriber: Subscriber) -> (r: Result<
        Subscriber,
        RegistryError,
    >)
        requires
            old(self).wf(),
        ensures
            final(self).wf(),
            category@.len() == 0 || subscriber@.url.len() == 0 ==> {
                &&& r matches Err(RegistryError::InvalidInput)
                &&& final(self)@ == old(self)@
            },
            category@.len() > 0 && subscriber@.url.len() > 0 ==> {
                &&& r matches Ok(stored) && stored@ == subscriber@
                &&& final(self)@ == spec_subscribe(old(self)@, category@, subscriber@)
                &&& subscribers_of(final(self)@, category@) == upsert(
                    subscribers_of(old(self)@, category@),
                    subscriber@,
                )
                &&& forall|d: Seq<char>|
                    d != category@ ==> subscribers_of(final(self)@, d) == subscribers_of(
                        old(self)@,
                        d,
                    )
            },
    {
        if category.is_empty() || subscriber.url.as_str().is_empty() {
            return Err(RegistryError::InvalidInput);
        }
        let ghost v0 = self@;
        let ghost c = category@;
        let ghost s = subscriber@;
        let cat: String = category.to_owned();
        let stored = subscriber.clone();
        match self.find_category(&cat) {
            Some(i) => {
                proof {
                    lemma_category_at_unique(v0, c, i as int);
                }
                let ghost subs0 = v0[i as int].subscribers;
                proof {
                    assert(subs0 == subs_view(self.entries@[i as int].subscribers@));
                }
                match Self::find_url(&self.entries[i].subscribers, &subscriber.url) {
                    Some(j) => {
                        proof {
                            lemma_url_index_unique(subs0, s.url, j as int);
                        }
                        self.entries[i].subscribers[j] = subscriber;
                        proof {
                            assert(subs_view(self.entries@[i as int].subscribers@) =~= upsert(
                                subs0,
                                s,
                            ));
                        }
                    },
                    None => {
                        self.entries[i].subscribers.push(subscriber);
                        proof {
                            assert(subs_view(self.entries@[i as int].subscribers@) =~= upsert(
                                subs0,
                                s,
                            ));
                        }
                    },
                }
                proof {
                    assert(self@[i as int] =~~= (CategoryView {
                        category: c,
                        subscribers: upsert(subs0, s),
                    }));
                    assert(self@ =~~= spec_subscribe(v0, c, s));
                    lemma_spec_subscribe(v0, c, s);
                }
            },
            None => {
                let mut subs: Vec<Subscriber> = Vec::new();
                subs.push(subscriber);
                self.entries.push(CategoryEntry { category: cat, subscribers: subs });
                proof {
                    assert(self@ =~~= spec_subscribe(v0, c, s));
                    lemma_spec_subscribe(v0, c, s);
                }
            },
        }
        Ok(stored)
    }

    /// Deregisters the subscriber with identity `identity` from `category`,
    /// if it is registered there; otherwise changes nothing. Removal is
    /// idempotent: an unknown category or identity is not an error, and the
    /// category's slot itself is never dropped.
    pub fn unsubscribe(&mut self, category: &str, identity: &str)
        requires
            old(self).wf(),
        ensures
            final(self).wf(),
            final(self)@ == spec_unsubscribe(old(self)@, category@, identity@),
            subscribers_of(final(self)@, category@) == remove_url(
                subscribers_of(old(self)@, category@),
                identity@,
            ),
            !has_url(subscribers_of(final(self)@, category@), identity@),
            forall|d: Seq<char>|
                d != category@ ==> subscribers_of(final(self)@, d) == subscribers_of(old(self)@, d),
            !has_url(subscribers_of(old(self)@, category@), identity@) ==> final(self)@ == old(
                self,
            )@,
    {
        let ghost v0 = self@;
        let ghost c = category@;
        let ghost id = identity@;
        proof {
            lemma_spec_unsubscribe(v0, c, id);
        }
        let cat: String = category.to_owned();
        let ident: String = identity.to_owned();
        match self.find_category(&cat) {
            Some(i) => {
                proof {
                    lemma_category_at_unique(v0, c, i as int);
                }
                let ghost subs0 = v0[i as int].subscribers;
                proof {
                    assert(subs0 == subs_view(self.entries@[i as int].subscribers@));
                }
                match Self::find_url(&self.entries[i].subscribers, &ident) {
                    Some(j) => {
                        proof {
                            lemma_url_index_unique(subs0, id, j as int);
                        }
                        self.entries[i].subscribers.remove(j);
                        proof {
                            assert(subs_view(self.entries@[i as int].subscribers@) =~= remove_url(
                                subs0,
                                id,
                            ));
                            assert(self@[i as int] =~~= (CategoryView {
                                category: c,
                                subscribers: remove_url(subs0, id),
                            }));
                            assert(self@ =~~= spec_unsubscribe(v0, c, id));
                        }
                    },
                    None => {
                        proof {
                            assert(!has_url(subs0, id));
                            assert(remove_url(subs0, id) == subs0);
                            assert(self@ =~~= spec_unsubscribe(v0, c, id));
                        }
                    },
                }
            },
            None => {
                proof {
                    assert(self@ == spec_unsubscribe(v0, c, id));
                }
            },
        }
    }

    /// A snapshot of the subscribers currently registered for `category`,
    /// in insertion order; empty when the category is unknown.
    pub fn list_subscribers(&self, category: &str) -> (r: Vec<Subscriber>)
        requires
            self.wf(),
        ensures
            subs_view(r@) == subscribers_of(self@, category@),
    {
        let cat: String = category.to_owned();
        match self.find_category(&cat) {
            Some(i) => {
                proof {
                    lemma_category_at_unique(self@, category@, i as int);
                }
                let r = Self::clone_subscribers(&self.entries[i].subscribers);
                proof {
                    assert(subs_view(r@) == subs_view(self.entries@[i as int].subscribers@));
                }
                r
            },
            None => {
                let r: Vec<Subscriber> = Vec::new();
                proof {
                    assert(subs_view(r@) =~= Seq::<SubscriberView>::empty());
                }
                r
            },
        }
    }

    /// A full snapshot: every known category with its subscribers, in the
    /// order the categories were first subscribed to.
    pub fn list_all(&self) -> (r: Vec<(String, Vec<Subscriber>)>)
        ensures
            r@.len() == self@.len(),
            forall|i: int|
                0 <= i < r@.len() ==> (#[trigger] r@[i]).0@ == self@[i].category && subs_view(
                    r@[i].1@,
                ) == self@[i].subscribers,
    {
        let n = self.entries.len();
        let mut r: Vec<(String, Vec<Subscriber>)> = Vec::new();
        let mut i: usize = 0;
        while i < n
            invariant
                n == self@.len(),
                0 <= i <= n,
                n == self.entries@.len(),
                r@.len() == i,
                forall|p: int|
                    0 <= p < i ==> (#[trigger] r@[p]).0@ == self@[p].category && subs_view(r@[p].1@)
                        == self@[p].subscribers,
            decreases n - i,
        {
            let key = self.entries[i].category.clone();
            let subs = Self::clone_subscribers(&self.entries[i].subscribers);
            r.push((key, subs));
            i = i + 1;
        }
        r
    }

    /// A copy of a subscriber sequence, record by record.
    fn clone_subscribers(subs: &Vec<Subscriber>) -> (r: Vec<Subscriber>)
        ensures
            subs_view(r@) == subs_view(subs@),
    {
        let n = subs.len();
        let mut r: Vec<Subscriber> = Vec::new();
        let mut k: usize = 0;
        while k < n
            invariant
                n == subs@.len(),
                0 <= k <= n,
                r@.len() == k,
                forall|p: int| 0 <= p < k ==> (#[trigger] r@[p])@ == subs@[p]@,
            decreases n - k,
        {
            r.push(subs[k].clone());
            k = k + 1;
        }
        proof {
            assert(subs_view(r@) =~= subs_view(subs@));
        }
        r
    }

    /// The index of the record with identity `id` within `subs`, if any.
    fn find_url(subs: &Vec<Subscriber>, id: &String) -> (r: Option<usize>)
        ensures
            match r {
                Some(j) => j < subs@.len() && subs@[j as int]@.url == id@,
                None => !has_url(subs_view(subs@), id@),
            },
    {
        let n = subs.len();
        let mut j: usize = 0;
        while j < n
            invariant
                n == subs@.len(),
                0 <= j <= n,
                forall|k: int| 0 <= k < j ==> subs@[k]@.url != id@,
            decreases n - j,
        {
            if subs[j].url == *id {
                return Some(j);
            }
            j = j + 1;
        }
        assert forall|k: int| 0 <= k < subs_view(subs@).len() implies subs_view(subs@)[k].url
            != id@ by {
            assert(subs_view(subs@)[k] == subs@[k]@);
        }
        None
    }
}

} // verus!
