//! Trusted declarations for the multiset collection of the `hashbag` crate,
//! holding the tokens of one place of a marking.
use crate::marking::OCToken;
use hashbag::HashBag;
use vstd::multiset::Multiset;
use vstd::prelude::*;

verus! {

#[verifier::external_type_specification]
#[verifier::external_body]
#[verifier::reject_recursive_types(T)]
#[verifier::reject_recursive_types(S)]
pub struct ExHashBag<T, S>(HashBag<T, S>);

/// What a bag of tokens holds: each token with its number of occurrences.
pub uninterp spec fn bag_contents(bag: HashBag<OCToken>) -> Multiset<OCToken>;

/// `n` occurrences of `t`.
pub open spec fn copies(t: OCToken, n: nat) -> Multiset<OCToken>
    decreases n,
{
    if n == 0 {
        Multiset::empty()
    } else {
        copies(t, (n - 1) as nat).insert(t)
    }
}

pub proof fn lemma_copies_count(t: OCToken, n: nat, u: OCToken)
    ensures
        copies(t, n).count(u) == if u == t { n } else { 0 },
        copies(t, n).len() == n,
    decreases n,
{
    broadcast use vstd::multiset::group_multiset_axioms;

    if n > 0 {
        lemma_copies_count(t, (n - 1) as nat, u);
    }
}

/// The tokens of a list of (token, count) entries, each entry counted `count` times.
pub open spec fn entries_multiset(entries: Seq<(OCToken, usize)>) -> Multiset<OCToken>
    decreases entries.len(),
{
    if entries.len() == 0 {
        Multiset::empty()
    } else {
        entries_multiset(entries.drop_last()).add(copies(entries.last().0, entries.last().1 as nat))
    }
}

/// The tokens of a list of entries.
pub open spec fn entry_tokens(entries: Seq<(OCToken, usize)>) -> Seq<OCToken> {
    entries.map_values(|e: (OCToken, usize)| e.0)
}

/// Where no token has two entries, a token occurs as often as its entry says.
pub proof fn lemma_entries_count(entries: Seq<(OCToken, usize)>, t: OCToken)
    requires
        entry_tokens(entries).no_duplicates(),
    ensures
        entries_multiset(entries).count(t) == if entry_tokens(entries).contains(t) {
            entries[entry_tokens(entries).index_of(t)].1 as nat
        } else {
            0nat
        },
    decreases entries.len(),
{
    broadcast use vstd::multiset::group_multiset_axioms;

    if entries.len() > 0 {
        let pre = entries.drop_last();
        let last = entries.last();
        assert(entry_tokens(pre) =~= entry_tokens(entries).drop_last());
        lemma_entries_count(pre, t);
        lemma_copies_count(last.0, last.1 as nat, t);
        let keys = entry_tokens(entries);
        if keys.contains(t) {
            let k = keys.index_of(t);
            if last.0 == t {
                assert(keys[entries.len() - 1] == t);
                assert(k == entries.len() - 1);
                if entry_tokens(pre).contains(t) {
                    let q = entry_tokens(pre).index_of(t);
                    assert(keys[q] == t);
                }
            } else {
                assert(k != entries.len() - 1);
                assert(entry_tokens(pre)[k] == t);
                let q = entry_tokens(pre).index_of(t);
                assert(keys[q] == t);
            }
        } else {
            assert(!entry_tokens(pre).contains(t)) by {
                if entry_tokens(pre).contains(t) {
                    let q = entry_tokens(pre).index_of(t);
                    assert(keys[q] == t);
                }
            }
            assert(last.0 != t) by {
                assert(keys[entries.len() - 1] == last.0);
            }
        }
    }
}

/// The entries `bag_entries` gives list exactly the bag's contents.
pub proof fn lemma_entries_are_contents(entries: Seq<(OCToken, usize)>, contents: Multiset<OCToken>)
    requires
        entry_tokens(entries).no_duplicates(),
        forall|i: int| 0 <= i < entries.len() ==> (#[trigger] entries[i]).1 == contents.count(entries[i].0),
        forall|t: OCToken|
            contents.count(t) > 0 ==> exists|i: int| 0 <= i < entries.len() && (#[trigger] entries[i]).0 == t,
    ensures
        entries_multiset(entries) == contents,
{
    broadcast use vstd::multiset::group_multiset_axioms;

    assert forall|t: OCToken| entries_multiset(entries).count(t) == contents.count(t) by {
        lemma_entries_count(entries, t);
        let keys = entry_tokens(entries);
        if keys.contains(t) {
            let k = keys.index_of(t);
            assert(entries[k].0 == t);
        } else if contents.count(t) > 0 {
            let i = choose|i: int| 0 <= i < entries.len() && (#[trigger] entries[i]).0 == t;
            assert(keys[i] == t);
        }
    }
    assert(entries_multiset(entries) =~= contents);
}

/// `HashBag::new`: an empty bag.
#[verifier::external_body]
pub(crate) fn bag_new() -> (b: HashBag<OCToken>)
    ensures
        bag_contents(b) == Multiset::<OCToken>::empty(),
{
    HashBag::new()
}

/// `HashBag::clone`: a bag with the same contents.
#[verifier::external_body]
pub(crate) fn bag_clone(bag: &HashBag<OCToken>) -> (b: HashBag<OCToken>)
    ensures
        bag_contents(b) == bag_contents(*bag),
{
    bag.clone()
}

/// `HashBag::contains`: the number of occurrences of `t`.
#[verifier::external_body]
pub(crate) fn bag_count(bag: &HashBag<OCToken>, t: &OCToken) -> (n: usize)
    ensures
        n == bag_contents(*bag).count(*t),
{
    bag.contains(t)
}

/// `HashBag::len`: the number of occurrences of all tokens together.
#[verifier::external_body]
pub(crate) fn bag_len(bag: &HashBag<OCToken>) -> (n: usize)
    ensures
        n == bag_contents(*bag).len(),
{
    bag.len()
}

/// `HashBag::is_empty`: whether the bag holds no token.
#[verifier::external_body]
pub(crate) fn bag_is_empty(bag: &HashBag<OCToken>) -> (e: bool)
    ensures
        e == (bag_contents(*bag).len() == 0),
{
    bag.is_empty()
}

/// `HashBag::insert`: one more occurrence of `t`; returns the occurrences before.
/// The bag's total count is a `usize` that the call increments.
#[verifier::external_body]
pub(crate) fn bag_insert(bag: &mut HashBag<OCToken>, t: OCToken) -> (n: usize)
    requires
        bag_contents(*old(bag)).len() < usize::MAX,
    ensures
        bag_contents(*final(bag)) == bag_contents(*old(bag)).insert(t),
        n == bag_contents(*old(bag)).count(t),
{
    bag.insert(t)
}

/// `HashBag::insert_many`: `count` more occurrences of `t`; returns the occurrences before.
/// The bag's total count is a `usize` that the call increases by `count`.
#[verifier::external_body]
pub(crate) fn bag_insert_many(bag: &mut HashBag<OCToken>, t: OCToken, count: usize) -> (n: usize)
    requires
        bag_contents(*old(bag)).len() + count <= usize::MAX,
    ensures
        bag_contents(*final(bag)) == bag_contents(*old(bag)).add(copies(t, count as nat)),
        n == bag_contents(*old(bag)).count(t),
{
    bag.insert_many(t, count)
}

/// `HashBag::remove_up_to`: removes `quantity` occurrences of `t`, or all of them if
/// there are fewer; returns the occurrences left.
#[verifier::external_body]
pub(crate) fn bag_remove_up_to(bag: &mut HashBag<OCToken>, t: &OCToken, quantity: usize) -> (n: usize)
    ensures
        bag_contents(*final(bag)) == bag_contents(*old(bag)).sub(copies(*t, quantity as nat)),
        n == bag_contents(*final(bag)).count(*t),
{
    bag.remove_up_to(t, quantity)
}

/// `HashBag::set_iter`: each token of the bag's table with its number of occurrences,
/// once, in the order in which the table is walked (no order is promised). The table
/// may also hold a token with the count 0 (`Entry::or_insert_many(0)` leaves one), and
/// such an entry is listed too.
#[verifier::external_body]
pub(crate) fn bag_entries(bag: &HashBag<OCToken>) -> (entries: Vec<(OCToken, usize)>)
    ensures
        entry_tokens(entries@).no_duplicates(),
        forall|i: int| 0 <= i < entries@.len() ==> (#[trigger] entries@[i]).1 == bag_contents(*bag).count(entries@[i].0),
        forall|t: OCToken|
            bag_contents(*bag).count(t) > 0 ==> exists|i: int|
                0 <= i < entries@.len() && (#[trigger] entries@[i]).0 == t,
{
    bag.set_iter().map(|(t, n)| (*t, n)).collect()
}

/// How many occurrences of a token a place keeps when `required` are needed:
/// all of them if there are enough, otherwise none.
pub fn keep_if_enough(count: usize, required: usize) -> (r: usize)
    ensures
        r == if count >= required { count } else { 0 },
{
    if count >= required {
        count
    } else {
        0
    }
}

/// `HashBag::retain`, keeping a token only where it occurs at least `required` times.
#[verifier::external_body]
pub(crate) fn bag_retain_at_least(bag: &mut HashBag<OCToken>, required: usize)
    ensures
        forall|t: OCToken|
            #[trigger] bag_contents(*final(bag)).count(t) == if bag_contents(*old(bag)).count(t)
                >= required {
                bag_contents(*old(bag)).count(t)
            } else {
                0
            },
{
    bag.retain(|_, count| keep_if_enough(count, required))
}

} // verus!
