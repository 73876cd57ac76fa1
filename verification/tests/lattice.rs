use lotsa::query::CacheableField::CacheableBlockType;
use lotsa::query::Cacheability::{
    DontCache, Forever, UntilChangeInChebyshevNeighborhood, UntilChangeInSelf,
};
use lotsa::query::{Cacheability, CacheableField};

fn samples() -> Vec<Cacheability> {
    let mut all = vec![DontCache, Forever];
    let field_lists: Vec<Vec<CacheableField>> = vec![
        vec![],
        vec![CacheableBlockType],
        vec![CacheableBlockType, CacheableBlockType],
    ];
    for fields in &field_lists {
        all.push(UntilChangeInSelf { fields: fields.clone() });
        for distance in [0u8, 1, 2, 255] {
            all.push(UntilChangeInChebyshevNeighborhood { fields: fields.clone(), distance });
        }
    }
    all
}

#[test]
fn merge_is_commutative() {
    let all = samples();
    for a in &all {
        for b in &all {
            assert_eq!(Cacheability::merge(a, b), Cacheability::merge(b, a));
        }
    }
}

#[test]
fn merge_is_associative() {
    let all = samples();
    for a in &all {
        for b in &all {
            for c in &all {
                assert_eq!(
                    Cacheability::merge(&Cacheability::merge(a, b), c),
                    Cacheability::merge(a, &Cacheability::merge(b, c))
                );
            }
        }
    }
}

#[test]
fn forever_changes_nothing() {
    for a in &samples() {
        assert_eq!(&Cacheability::merge(a, &Forever), a);
        assert_eq!(&Cacheability::merge(&Forever, a), a);
    }
}

#[test]
fn dont_cache_absorbs() {
    for a in &samples() {
        assert_eq!(Cacheability::merge(a, &DontCache), DontCache);
        assert_eq!(Cacheability::merge(&DontCache, a), DontCache);
    }
}

#[test]
fn merge_of_two_self_policies_is_a_self_policy_with_the_union() {
    let none = UntilChangeInSelf { fields: vec![] };
    let one = UntilChangeInSelf { fields: vec![CacheableBlockType] };
    let twice = UntilChangeInSelf { fields: vec![CacheableBlockType, CacheableBlockType] };
    assert_eq!(Cacheability::merge(&none, &none), none);
    assert_eq!(Cacheability::merge(&none, &one), one);
    assert_eq!(Cacheability::merge(&one, &none), one);
    assert_eq!(Cacheability::merge(&twice, &none), one);
    assert_eq!(Cacheability::merge(&twice, &twice), one);
}

#[test]
fn merge_with_a_neighborhood_takes_the_larger_distance() {
    let near = UntilChangeInChebyshevNeighborhood { fields: vec![CacheableBlockType], distance: 1 };
    let far = UntilChangeInChebyshevNeighborhood { fields: vec![], distance: 3 };
    let own = UntilChangeInSelf { fields: vec![CacheableBlockType] };
    assert_eq!(
        Cacheability::merge(&near, &far),
        UntilChangeInChebyshevNeighborhood { fields: vec![CacheableBlockType], distance: 3 }
    );
    assert_eq!(
        Cacheability::merge(&own, &far),
        UntilChangeInChebyshevNeighborhood { fields: vec![CacheableBlockType], distance: 3 }
    );
    assert_eq!(
        Cacheability::merge(&near, &own),
        UntilChangeInChebyshevNeighborhood { fields: vec![CacheableBlockType], distance: 1 }
    );
    assert_eq!(
        Cacheability::merge(&far, &UntilChangeInSelf { fields: vec![] }),
        UntilChangeInChebyshevNeighborhood { fields: vec![], distance: 3 }
    );
}

#[test]
fn field_merge_is_the_union_without_repetitions() {
    let f = CacheableBlockType;
    let empty: Vec<CacheableField> = vec![];
    assert_eq!(CacheableField::merge(&[], &[]), empty);
    assert_eq!(CacheableField::merge(&[f], &[]), vec![f]);
    assert_eq!(CacheableField::merge(&[], &[f]), vec![f]);
    assert_eq!(CacheableField::merge(&[f], &[f]), vec![f]);
    assert_eq!(CacheableField::merge(&[f, f, f], &[f, f]), vec![f]);
    assert_eq!(CacheableField::merge(&[f, f], &[]), vec![f]);
}

#[test]
fn fields_are_listed_and_found() {
    let f = CacheableBlockType;
    assert_eq!(CacheableField::all(), vec![f]);
    assert_eq!(f.ordinal(), 0);
    assert!(f.occurs_in(&[f]));
    assert!(f.occurs_in(&[f, f]));
    assert!(!f.occurs_in(&[]));
}

#[test]
fn distance_is_that_of_a_neighborhood_and_zero_otherwise() {
    assert_eq!(DontCache.distance(), 0);
    assert_eq!(Forever.distance(), 0);
    assert_eq!(UntilChangeInSelf { fields: vec![CacheableBlockType] }.distance(), 0);
    assert_eq!(
        UntilChangeInChebyshevNeighborhood { fields: vec![CacheableBlockType], distance: 7 }
            .distance(),
        7
    );
}

#[test]
fn fields_of_each_policy() {
    let f = CacheableBlockType;
    let empty: Vec<CacheableField> = vec![];
    assert_eq!(DontCache.fields(), vec![f]);
    assert_eq!(Forever.fields(), empty);
    assert_eq!(UntilChangeInSelf { fields: vec![f, f] }.fields(), vec![f, f]);
    assert_eq!(UntilChangeInSelf { fields: vec![] }.fields(), empty);
    assert_eq!(
        UntilChangeInChebyshevNeighborhood { fields: vec![f], distance: 2 }.fields(),
        vec![f]
    );
}

#[test]
fn depends_on_follows_the_fields() {
    let f = CacheableBlockType;
    assert!(DontCache.depends_on(f));
    assert!(!Forever.depends_on(f));
    assert!(UntilChangeInSelf { fields: vec![f] }.depends_on(f));
    assert!(!UntilChangeInSelf { fields: vec![] }.depends_on(f));
    assert!(UntilChangeInChebyshevNeighborhood { fields: vec![f, f], distance: 1 }.depends_on(f));
    assert!(!UntilChangeInChebyshevNeighborhood { fields: vec![], distance: 1 }.depends_on(f));
}

#[test]
fn same_as_tells_policies_apart() {
    let all = samples();
    for (i, a) in all.iter().enumerate() {
        for (j, b) in all.iter().enumerate() {
            assert_eq!(a.same_as(b), i == j);
            assert_eq!(a.same_as(b), a == b);
        }
    }
}

#[test]
fn clone_gives_the_same_policy() {
    for a in &samples() {
        assert_eq!(&a.clone(), a);
    }
}

#[test]
fn hashcode_is_the_same_for_the_same_policy_and_differs_between_the_samples() {
    let all = samples();
    let again = samples();
    for (i, a) in all.iter().enumerate() {
        assert_eq!(a.hashcode(), again[i].hashcode());
        assert_eq!(a.hashcode(), a.clone().hashcode());
        for (j, b) in all.iter().enumerate() {
            if i != j {
                assert_ne!(a.hashcode(), b.hashcode());
            }
        }
    }
}
