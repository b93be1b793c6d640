use process_mining::combinatorics::{cartesian_product, cartesian_product_iter};

#[test]
fn product_of_references_takes_one_from_each_pool_in_order() {
    let (a, b, c) = (1, 2, 3);
    let r = cartesian_product(vec![vec![&a, &b], vec![&c]]);
    assert_eq!(r, vec![vec![&1, &3], vec![&2, &3]]);
}

#[test]
fn product_of_values_varies_the_last_pool_fastest() {
    let r = cartesian_product_iter(vec![vec![1, 2], vec![3, 4]]);
    assert_eq!(r, vec![vec![1, 3], vec![1, 4], vec![2, 3], vec![2, 4]]);
}

#[test]
fn product_of_no_pools_is_one_empty_choice() {
    let r: Vec<Vec<u8>> = cartesian_product_iter(Vec::new());
    assert_eq!(r, vec![Vec::<u8>::new()]);
    let r: Vec<Vec<&u8>> = cartesian_product(Vec::new());
    assert_eq!(r.len(), 1);
    assert!(r[0].is_empty());
}

#[test]
fn product_with_an_empty_pool_is_empty() {
    let r = cartesian_product_iter(vec![vec![1, 2], Vec::new(), vec![3]]);
    assert!(r.is_empty());
}

#[test]
fn product_length_is_the_product_of_pool_lengths() {
    let r = cartesian_product_iter(vec![vec!['a', 'b', 'c'], vec!['x', 'y'], vec!['p', 'q']]);
    assert_eq!(r.len(), 12);
    for choice in &r {
        assert_eq!(choice.len(), 3);
        assert!(['a', 'b', 'c'].contains(&choice[0]));
        assert!(['x', 'y'].contains(&choice[1]));
        assert!(['p', 'q'].contains(&choice[2]));
    }
}

#[test]
fn both_products_agree_over_references() {
    let (a, b, c, d) = ('a', 'b', 'c', 'd');
    let inputs = vec![vec![&a, &b], vec![&c], vec![&d, &a]];
    assert_eq!(cartesian_product(inputs.clone()), cartesian_product_iter(inputs));
}
