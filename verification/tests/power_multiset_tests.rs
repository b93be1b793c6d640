use hashbag::HashBag;
use process_mining::marking::{power_multiset, OCToken};

fn sorted_ids(bag: &HashBag<OCToken>) -> Vec<usize> {
    let mut ids: Vec<usize> = Vec::new();
    for (t, n) in bag.set_iter() {
        for _ in 0..n {
            ids.push(t.id);
        }
    }
    ids.sort();
    ids
}

#[test]
fn every_nonempty_sub_multiset_once() {
    let mut bag = HashBag::new();
    bag.insert_many(OCToken { id: 1 }, 2);
    bag.insert(OCToken { id: 2 });
    let mut subs: Vec<Vec<usize>> = power_multiset(&bag).iter().map(sorted_ids).collect();
    subs.sort();
    assert_eq!(subs, vec![vec![1], vec![1, 1], vec![1, 1, 2], vec![1, 2], vec![2]]);
}

#[test]
fn empty_bag_has_no_nonempty_sub_multiset() {
    let bag: HashBag<OCToken> = HashBag::new();
    assert!(power_multiset(&bag).is_empty());
}

#[test]
fn single_token_repeated() {
    let mut bag = HashBag::new();
    bag.insert_many(OCToken { id: 9 }, 3);
    let mut subs: Vec<Vec<usize>> = power_multiset(&bag).iter().map(sorted_ids).collect();
    subs.sort();
    assert_eq!(subs, vec![vec![9], vec![9, 9], vec![9, 9, 9]]);
}

#[test]
fn distinct_tokens_give_all_nonempty_subsets() {
    let mut bag = HashBag::new();
    for id in 0..3 {
        bag.insert(OCToken { id });
    }
    let subs = power_multiset(&bag);
    assert_eq!(subs.len(), 7);
    let mut seen: Vec<Vec<usize>> = subs.iter().map(sorted_ids).collect();
    seen.sort();
    seen.dedup();
    assert_eq!(seen.len(), 7);
}
