use vstd::prelude::*;

verus! {

/// All ways to pick one item from each pool, in lexicographic order:
/// the first pool varies slowest, the last pool fastest.
pub open spec fn product_spec<T>(pools: Seq<Seq<T>>) -> Seq<Seq<T>>
    decreases pools.len(),
{
    if pools.len() == 0 {
        seq![Seq::empty()]
    } else {
        extend_each(product_spec(pools.drop_last()), pools.last())
    }
}

/// Every combination in `prefixes`, extended in turn by every item of `pool`.
pub open spec fn extend_each<T>(prefixes: Seq<Seq<T>>, pool: Seq<T>) -> Seq<Seq<T>> {
    prefixes.map_values(|c: Seq<T>| pool.map_values(|x: T| c.push(x))).flatten()
}

/// `c` picks one item of each pool, position by position.
pub open spec fn is_choice<T>(pools: Seq<Seq<T>>, c: Seq<T>) -> bool {
    &&& c.len() == pools.len()
    &&& forall|j: int| 0 <= j < c.len() ==> #[trigger] pools[j].contains(c[j])
}

proof fn lemma_extend_each_step<T>(prefixes: Seq<Seq<T>>, pool: Seq<T>, a: int)
    requires
        0 <= a < prefixes.len(),
    ensures
        extend_each(prefixes.take(a + 1), pool) == extend_each(prefixes.take(a), pool)
            + pool.map_values(|x: T| prefixes[a].push(x)),
{
    let f = |c: Seq<T>| pool.map_values(|x: T| c.push(x));
    assert(prefixes.take(a + 1).map_values(f) =~= prefixes.take(a).map_values(f).push(
        f(prefixes[a]),
    ));
    prefixes.take(a).map_values(f).lemma_flatten_push(f(prefixes[a]));
}

/// The cartesian product of `inputs`, holding references to the items.
pub fn cartesian_product<T>(inputs: Vec<Vec<&T>>) -> (r: Vec<Vec<&T>>)
    ensures
        r@.map_values(|c: Vec<&T>| c@) == product_spec(inputs@.map_values(|p: Vec<&T>| p@)),
{
    let ghost pools = inputs@.map_values(|p: Vec<&T>| p@);
    let mut acc: Vec<Vec<&T>> = Vec::new();
    acc.push(Vec::new());
    let mut k: usize = 0;
    assert(pools.take(0).len() == 0);
    assert(acc@.map_values(|c: Vec<&T>| c@) =~= product_spec(pools.take(0)));
    while k < inputs.len()
        invariant
            k <= inputs.len(),
            pools == inputs@.map_values(|p: Vec<&T>| p@),
            acc@.map_values(|c: Vec<&T>| c@) == product_spec(pools.take(k as int)),
        decreases inputs.len() - k,
    {
        let pool = &inputs[k];
        let ghost prev = acc@.map_values(|c: Vec<&T>| c@);
        let mut next: Vec<Vec<&T>> = Vec::new();
        let mut a: usize = 0;
        assert(prev.take(0).map_values(|c: Seq<&T>| pool@.map_values(|x: &T| c.push(x))) =~= Seq::<Seq<Seq<&T>>>::empty());
        while a < acc.len()
            invariant
                a <= acc.len(),
                k < inputs.len(),
                pools.len() == inputs.len(),
                prev == acc@.map_values(|c: Vec<&T>| c@),
                pool@ == pools[k as int],
                next@.map_values(|c: Vec<&T>| c@) == extend_each(prev.take(a as int), pool@),
            decreases acc.len() - a,
        {
            let combination = &acc[a];
            let mut b: usize = 0;
            let ghost base = next@.map_values(|c: Vec<&T>| c@);
            while b < pool.len()
                invariant
                    b <= pool.len(),
                    a < acc.len(),
                    combination@ == prev[a as int],
                    next@.map_values(|c: Vec<&T>| c@) == base + pool@.take(b as int).map_values(
                        |x: &T| prev[a as int].push(x),
                    ),
                decreases pool.len() - b,
            {
                let item: &T = pool[b];
                let mut new_combination = combination.clone();
                assert(new_combination@ =~= combination@) by {
                    assert forall|i: int| 0 <= i < combination.len() implies new_combination[i]
                        == combination[i] by {
                        assert(cloned::<&T>(combination[i], new_combination[i]));
                    }
                }
                new_combination.push(item);
                let ghost before = next@.map_values(|c: Vec<&T>| c@);
                next.push(new_combination);
                assert(next@.map_values(|c: Vec<&T>| c@) =~= before.push(new_combination@));
                assert(pool@.take(b + 1).map_values(|x: &T| prev[a as int].push(x))
                    =~= pool@.take(b as int).map_values(|x: &T| prev[a as int].push(x)).push(
                    prev[a as int].push(item),
                ));
                b += 1;
            }
            proof {
                assert(pool@.take(b as int) =~= pool@);
                lemma_extend_each_step(prev, pool@, a as int);
            }
            a += 1;
        }
        proof {
            assert(prev.take(a as int) =~= prev);
            assert(pools.take(k + 1).drop_last() =~= pools.take(k as int));
            assert(pools.take(k + 1).last() == pools[k as int]);
        }
        acc = next;
        k += 1;
    }
    assert(pools.take(k as int) =~= pools);
    acc
}

/// The cartesian product of `inputs`, holding clones of the items.
pub fn cartesian_product_iter<T: Clone>(inputs: Vec<Vec<T>>) -> (r: Vec<Vec<T>>)
    ensures
        ({
            let spec = product_spec(inputs@.map_values(|p: Vec<T>| p@));
            &&& r@.len() == spec.len()
            &&& forall|i: int|
                #![trigger r@[i]]
                0 <= i < r@.len() ==> {
                    &&& r@[i]@.len() == spec[i].len()
                    &&& forall|j: int|
                        0 <= j < spec[i].len() ==> cloned::<T>(spec[i][j], #[trigger] r@[i]@[j])
                }
        }),
{
    let ghost pools = inputs@.map_values(|p: Vec<T>| p@);
    let mut refs: Vec<Vec<&T>> = Vec::new();
    let mut k: usize = 0;
    while k < inputs.len()
        invariant
            k <= inputs.len(),
            pools == inputs@.map_values(|p: Vec<T>| p@),
            refs@.map_values(|p: Vec<&T>| p@.map_values(|x: &T| *x)) == pools.take(k as int),
        decreases inputs.len() - k,
    {
        let mut pool_refs: Vec<&T> = Vec::new();
        let mut b: usize = 0;
        while b < inputs[k].len()
            invariant
                k < inputs.len(),
                b <= inputs[k as int].len(),
                pool_refs@.map_values(|x: &T| *x) == inputs[k as int]@.take(b as int),
            decreases inputs[k as int].len() - b,
        {
            let ghost before = pool_refs@;
            let item: &T = &inputs[k][b];
            pool_refs.push(item);
            assert(pool_refs@ == before.push(item));
            assert(pool_refs@.map_values(|x: &T| *x) =~= before.map_values(|x: &T| *x).push(*item));
            assert(inputs[k as int]@.take(b + 1) =~= inputs[k as int]@.take(b as int).push(inputs[k as int]@[b as int]));
            b += 1;
        }
        let ghost before = refs@.map_values(|p: Vec<&T>| p@.map_values(|x: &T| *x));
        refs.push(pool_refs);
        proof {
            assert(pool_refs@.map_values(|x: &T| *x) =~= inputs[k as int]@);
            assert(refs@.map_values(|p: Vec<&T>| p@.map_values(|x: &T| *x)) =~= before.push(pool_refs@.map_values(|x: &T| *x)));
            assert(pools.take(k + 1) =~= pools.take(k as int).push(pools[k as int]));
        }
        k += 1;
    }
    assert(pools.take(k as int) =~= pools);
    let ghost ref_pools = refs@.map_values(|p: Vec<&T>| p@);
    let product = cartesian_product(refs);
    let ghost spec = product_spec(pools);
    proof {
        let f = |x: &T| *x;
        assert(ref_pools.map_values(|p: Seq<&T>| p.map_values(f)) =~= pools);
        lemma_product_map(ref_pools, f);
    }
    let mut result: Vec<Vec<T>> = Vec::new();
    let mut i: usize = 0;
    while i < product.len()
        invariant
            i <= product.len(),
            product@.map_values(|c: Vec<&T>| c@) == product_spec(ref_pools),
            product_spec(ref_pools).map_values(|c: Seq<&T>| c.map_values(|x: &T| *x)) == spec,
            result@.len() == i,
            forall|a: int|
                #![trigger result@[a]]
                0 <= a < i ==> {
                    &&& result@[a]@.len() == spec[a].len()
                    &&& forall|j: int|
                        0 <= j < spec[a].len() ==> cloned::<T>(spec[a][j], #[trigger] result@[a]@[j])
                },
        decreases product.len() - i,
    {
        let combination = &product[i];
        assert(combination@.map_values(|x: &T| *x) == spec[i as int]);
        let mut owned: Vec<T> = Vec::new();
        let mut j: usize = 0;
        while j < combination.len()
            invariant
                j <= combination.len(),
                i < product.len(),
                spec.len() == product.len(),
                combination@.map_values(|x: &T| *x) == spec[i as int],
                owned@.len() == j,
                forall|b: int| 0 <= b < j ==> cloned::<T>(spec[i as int][b], #[trigger] owned@[b]),
            decreases combination.len() - j,
        {
            let item: &T = combination[j];
            owned.push(item.clone());
            j += 1;
        }
        result.push(owned);
        i += 1;
    }
    result
}

proof fn lemma_extend_each_map<A, B>(prefixes: Seq<Seq<A>>, pool: Seq<A>, f: spec_fn(A) -> B)
    ensures
        extend_each(prefixes.map_values(|c: Seq<A>| c.map_values(f)), pool.map_values(f))
            == extend_each(prefixes, pool).map_values(|c: Seq<A>| c.map_values(f)),
    decreases prefixes.len(),
{
    let mf = |c: Seq<A>| c.map_values(f);
    let lhs_pre = prefixes.map_values(mf);
    if prefixes.len() == 0 {
        assert(lhs_pre.map_values(|c: Seq<B>| pool.map_values(f).map_values(|x: B| c.push(x))) =~= Seq::<Seq<Seq<B>>>::empty());
        assert(prefixes.map_values(|c: Seq<A>| pool.map_values(|x: A| c.push(x))) =~= Seq::<Seq<Seq<A>>>::empty());
        assert(extend_each(prefixes, pool) =~= Seq::<Seq<A>>::empty());
        assert(extend_each(lhs_pre, pool.map_values(f)) =~= Seq::<Seq<B>>::empty());
    } else {
        let a = prefixes.len() - 1;
        lemma_extend_each_map(prefixes.take(a), pool, f);
        lemma_extend_each_step(prefixes, pool, a);
        lemma_extend_each_step(lhs_pre, pool.map_values(f), a);
        assert(prefixes.take(a + 1) =~= prefixes);
        assert(lhs_pre.take(a + 1) =~= lhs_pre);
        assert(lhs_pre.take(a) =~= prefixes.take(a).map_values(mf));
        let block_a = pool.map_values(|x: A| prefixes[a].push(x));
        let block_b = pool.map_values(f).map_values(|x: B| lhs_pre[a].push(x));
        assert(block_b =~= block_a.map_values(mf)) by {
            assert forall|b: int| 0 <= b < block_b.len() implies block_b[b] =~= block_a.map_values(mf)[b] by {
                assert(lhs_pre[a] == prefixes[a].map_values(f));
            }
        }
        assert((extend_each(prefixes.take(a), pool) + block_a).map_values(mf) =~= extend_each(prefixes.take(a), pool).map_values(mf) + block_a.map_values(mf));
    }
}

/// Mapping a function over every item commutes with taking the product.
pub proof fn lemma_product_map<A, B>(pools: Seq<Seq<A>>, f: spec_fn(A) -> B)
    ensures
        product_spec(pools.map_values(|p: Seq<A>| p.map_values(f))) == product_spec(pools).map_values(
            |c: Seq<A>| c.map_values(f),
        ),
    decreases pools.len(),
{
    let mp = |p: Seq<A>| p.map_values(f);
    let mapped = pools.map_values(mp);
    if pools.len() == 0 {
        assert(product_spec(pools) == seq![Seq::<A>::empty()]);
        assert(Seq::<A>::empty().map_values(f) =~= Seq::<B>::empty());
        assert(product_spec(pools).map_values(mp) =~= seq![Seq::<B>::empty()]);
        assert(product_spec(mapped) =~= seq![Seq::<B>::empty()]);
    } else {
        assert(mapped.drop_last() =~= pools.drop_last().map_values(mp));
        lemma_product_map(pools.drop_last(), f);
        lemma_extend_each_map(product_spec(pools.drop_last()), pools.last(), f);
    }
}

/// The product of the lengths of `pools`.
pub open spec fn product_len<T>(pools: Seq<Seq<T>>) -> nat
    decreases pools.len(),
{
    if pools.len() == 0 {
        1
    } else {
        product_len(pools.drop_last()) * pools.last().len()
    }
}

proof fn lemma_extend_each_len<T>(prefixes: Seq<Seq<T>>, pool: Seq<T>)
    ensures
        extend_each(prefixes, pool).len() == prefixes.len() * pool.len(),
    decreases prefixes.len(),
{
    if prefixes.len() > 0 {
        let a = prefixes.len() - 1;
        lemma_extend_each_step(prefixes, pool, a);
        assert(prefixes.take(a + 1) =~= prefixes);
        lemma_extend_each_len(prefixes.take(a), pool);
        assert(prefixes.take(a).len() == a);
        assert((a + 1) * pool.len() == a * pool.len() + pool.len()) by (nonlinear_arith);
        assert(pool.map_values(|x: T| prefixes[a].push(x)).len() == pool.len());
    } else {
        assert(prefixes.map_values(|c: Seq<T>| pool.map_values(|x: T| c.push(x))) =~= Seq::<Seq<Seq<T>>>::empty());
        assert(extend_each(prefixes, pool) =~= Seq::<Seq<T>>::empty());
        assert(0 * pool.len() == 0) by (nonlinear_arith);
    }
}

proof fn lemma_extend_each_contains<T>(prefixes: Seq<Seq<T>>, pool: Seq<T>, c: Seq<T>)
    ensures
        extend_each(prefixes, pool).contains(c) <==> (c.len() > 0 && prefixes.contains(c.drop_last())
            && pool.contains(c.last())),
    decreases prefixes.len(),
{
    if prefixes.len() == 0 {
        assert(prefixes.map_values(|c: Seq<T>| pool.map_values(|x: T| c.push(x))) =~= Seq::<Seq<Seq<T>>>::empty());
    } else {
        let a = prefixes.len() - 1;
        let pre = prefixes.take(a);
        lemma_extend_each_step(prefixes, pool, a);
        assert(prefixes.take(a + 1) =~= prefixes);
        lemma_extend_each_contains(pre, pool, c);
        let block = pool.map_values(|x: T| prefixes[a].push(x));
        let whole = extend_each(pre, pool) + block;
        if whole.contains(c) {
            let i = choose|i: int| 0 <= i < whole.len() && whole[i] == c;
            if i >= extend_each(pre, pool).len() {
                let b = i - extend_each(pre, pool).len();
                assert(block[b] == c);
                assert(c.drop_last() =~= prefixes[a]);
                assert(prefixes[a] == prefixes[a]);
                assert(pool[b] == c.last());
            } else {
                assert(extend_each(pre, pool)[i] == c);
                assert(extend_each(pre, pool).contains(c));
                let p = choose|p: int| 0 <= p < pre.len() && pre[p] == c.drop_last();
                assert(prefixes[p] == c.drop_last());
            }
        }
        if c.len() > 0 && prefixes.contains(c.drop_last()) && pool.contains(c.last()) {
            let p = choose|p: int| 0 <= p < prefixes.len() && prefixes[p] == c.drop_last();
            if p == a {
                let b = choose|b: int| 0 <= b < pool.len() && pool[b] == c.last();
                assert(block[b] =~= c);
                assert(whole[extend_each(pre, pool).len() + b] == c);
            } else {
                assert(pre[p] == c.drop_last());
                assert(pre.contains(c.drop_last()));
                let i = choose|i: int|
                    0 <= i < extend_each(pre, pool).len() && extend_each(pre, pool)[i] == c;
                assert(whole[i] == c);
            }
        }
    }
}

/// Law: the product has as many combinations as the product of the pool sizes.
pub proof fn lemma_product_len<T>(pools: Seq<Seq<T>>)
    ensures
        product_spec(pools).len() == product_len(pools),
    decreases pools.len(),
{
    if pools.len() > 0 {
        lemma_product_len(pools.drop_last());
        lemma_extend_each_len(product_spec(pools.drop_last()), pools.last());
    }
}

/// Law: the product of nonempty pools is nonempty.
pub proof fn lemma_product_nonempty<T>(pools: Seq<Seq<T>>)
    requires
        forall|j: int| 0 <= j < pools.len() ==> (#[trigger] pools[j]).len() > 0,
    ensures
        product_spec(pools).len() > 0,
    decreases pools.len(),
{
    lemma_product_len(pools);
    lemma_product_len_positive(pools);
}

proof fn lemma_product_len_positive<T>(pools: Seq<Seq<T>>)
    requires
        forall|j: int| 0 <= j < pools.len() ==> (#[trigger] pools[j]).len() > 0,
    ensures
        product_len(pools) > 0,
    decreases pools.len(),
{
    if pools.len() > 0 {
        assert forall|j: int| 0 <= j < pools.drop_last().len() implies (#[trigger] pools.drop_last()[j]).len() > 0 by {
            assert(pools[j].len() > 0);
        }
        lemma_product_len_positive(pools.drop_last());
        assert(pools[pools.len() - 1].len() > 0);
        let a = product_len(pools.drop_last());
        let b = pools.last().len();
        assert(a * b > 0) by (nonlinear_arith)
            requires
                a > 0,
                b > 0,
        ;
    }
}

/// Law: a sequence is in the product exactly when it picks one item of each pool.
pub proof fn lemma_product_contains<T>(pools: Seq<Seq<T>>, c: Seq<T>)
    ensures
        product_spec(pools).contains(c) <==> is_choice(pools, c),
    decreases pools.len(),
{
    if pools.len() == 0 {
        assert(product_spec(pools)[0] == Seq::<T>::empty());
        if c.len() == 0 {
            assert(c =~= Seq::<T>::empty());
        }
    } else {
        let pre = pools.drop_last();
        lemma_extend_each_contains(product_spec(pre), pools.last(), c);
        if c.len() > 0 {
            lemma_product_contains(pre, c.drop_last());
            if is_choice(pools, c) {
                assert forall|j: int| 0 <= j < c.drop_last().len() implies #[trigger] pre[j].contains(
                    c.drop_last()[j],
                ) by {
                    assert(pools[j].contains(c[j]));
                }
                assert(pools[c.len() - 1].contains(c[c.len() - 1]));
            }
            if product_spec(pools).contains(c) {
                assert forall|j: int| 0 <= j < c.len() implies #[trigger] pools[j].contains(c[j]) by {
                    if j < c.len() - 1 {
                        assert(pre[j].contains(c.drop_last()[j]));
                    }
                }
            }
        }
    }
}

/// Over pools of references the two products agree: what `cartesian_product_iter` gives
/// (each item a clone of the product's item) is what `cartesian_product` gives, choice by
/// choice, in the same order.
pub proof fn lemma_products_agree<'a, T>(
    inputs: Seq<Vec<&'a T>>,
    by_ref: Seq<Vec<&'a T>>,
    by_clone: Seq<Vec<&'a T>>,
)
    requires
        by_ref.map_values(|c: Vec<&'a T>| c@) == product_spec(inputs.map_values(|p: Vec<&'a T>| p@)),
        ({
            let spec = product_spec(inputs.map_values(|p: Vec<&'a T>| p@));
            &&& by_clone.len() == spec.len()
            &&& forall|i: int|
                #![trigger by_clone[i]]
                0 <= i < by_clone.len() ==> {
                    &&& by_clone[i]@.len() == spec[i].len()
                    &&& forall|j: int| 0 <= j < spec[i].len() ==> cloned::<&'a T>(spec[i][j], #[trigger] by_clone[i]@[j])
                }
        }),
    ensures
        by_clone.map_values(|c: Vec<&'a T>| c@) == by_ref.map_values(|c: Vec<&'a T>| c@),
{
    let spec = product_spec(inputs.map_values(|p: Vec<&'a T>| p@));
    assert forall|i: int| 0 <= i < by_clone.len() implies by_clone[i]@ == spec[i] by {
        assert(by_clone[i]@ =~= spec[i]);
    }
    assert(by_clone.map_values(|c: Vec<&'a T>| c@) =~= spec);
}

} // verus!
