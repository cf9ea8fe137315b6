use rusty_ga::basis::ONBasis;
use rusty_ga::component::Component;
use rusty_ga::determinant::determinant;
use rusty_ga::multivector::Multivector;
use rusty_ga::rational::Rational;
use rusty_ga::text::FormatError;

fn q(n: i64) -> Rational {
    Rational::from_int(n)
}

#[test]
pub fn canonicalization_is_idempotent() {
    let canonical = Component::new(q(2), vec![ONBasis::P(1), ONBasis::N(4), ONBasis::P(7)]);
    let again = Component::new(canonical.mag, canonical.bases().clone());
    assert_eq!(again, canonical);
    assert_eq!(again.mag, canonical.mag);
    assert_eq!(again.bases(), canonical.bases());

    let zero_again = Component::new(Component::zero().mag, Component::zero().bases().clone());
    assert_eq!(zero_again, Component::zero());
}

#[test]
pub fn duplicate_bases_square_away() {
    // A zero-squaring pair wipes out the whole component, bases and all.
    let c = Component::new(q(5), vec![ONBasis::Z(0), ONBasis::Z(0), ONBasis::P(1)]);
    assert_eq!(c, Component::zero());
    assert_eq!(c.grade(), 0);

    // A negative-squaring pair only flips the sign.
    let c = Component::new(q(5), vec![ONBasis::N(0), ONBasis::N(0), ONBasis::P(1)]);
    assert_eq!(c.mag, q(-5));
    assert_eq!(c.grade(), 1);
}

#[test]
pub fn outer_product_is_nilpotent() {
    let a = Component::new(q(2), vec![ONBasis::P(1), ONBasis::P(2)]);
    let aa = a.outer_product(&a);
    assert_eq!(aa, Component::zero());

    let v = Component::new(q(-3), vec![ONBasis::N(5)]);
    assert_eq!(v.outer_product(&v), Component::zero());
}

#[test]
pub fn contraction_requires_containment() {
    let e1 = Component::new(q(1), vec![ONBasis::P(1)]);
    let e23 = Component::new(q(1), vec![ONBasis::P(2), ONBasis::P(3)]);
    // e1 is not contained in e23, so the contraction vanishes.
    let r = e1.left_cont(&e23);
    assert_eq!(r, Component::zero());

    // A higher grade on the left vanishes outright.
    let r = e23.left_cont(&e1);
    assert_eq!(r, Component::zero());

    // Containment leaves the complement.
    let e123 = Component::new(q(1), vec![ONBasis::P(1), ONBasis::P(2), ONBasis::P(3)]);
    let r = e23.left_cont(&e123);
    assert_eq!(r.grade(), 1);
    assert_eq!(r.bases()[0].unwrap(), 1);
}

#[test]
pub fn scalar_product_of_equal_grades() {
    let a = Component::new(q(2), vec![ONBasis::P(1), ONBasis::P(2)]);
    let b = Component::new(q(3), vec![ONBasis::P(1), ONBasis::P(2)]);
    assert_eq!(a.scalar_product(&b), q(-6));

    let c = Component::new(q(3), vec![ONBasis::P(2), ONBasis::P(3)]);
    assert_eq!(a.scalar_product(&c), q(0));

    let s = Component::new(q(4), vec![]);
    let t = Component::new(q(5), vec![]);
    assert_eq!(s.scalar_product(&t), q(20));
}

#[test]
pub fn norm_squared_follows_signature() {
    let a = Component::new(q(3), vec![ONBasis::P(1)]);
    assert_eq!(a.norm_sqrd(), q(9));

    let b = Component::new(q(3), vec![ONBasis::N(1)]);
    assert_eq!(b.norm_sqrd(), q(-9));

    let c = Component::new(q(3), vec![ONBasis::Z(1)]);
    assert_eq!(c.norm_sqrd(), q(0));
    assert!(c.inverse().is_none());
    assert!(Component::zero().inverse().is_none());
}

#[test]
pub fn project_onto_keeps_contained_blades() {
    let e1 = Component::new(q(2), vec![ONBasis::P(1)]);
    let e12 = Component::new(q(1), vec![ONBasis::P(1), ONBasis::P(2)]);
    let p = e1.project_onto(&e12).expect("invertible target");
    assert_eq!(p, e1);

    let degenerate = Component::new(q(1), vec![ONBasis::Z(3)]);
    assert!(e1.project_onto(&degenerate).is_none());
}

#[test]
pub fn multivector_products_distribute() {
    let one = Component::new(q(1), vec![]);
    let e1 = Component::new(q(2), vec![ONBasis::P(1)]);
    let m = Multivector::new(vec![one, e1]);
    let f = Multivector::new(vec![Component::new(q(3), vec![ONBasis::P(1)])]);

    // (1 + 2 e1) * (3 e1) = 6 + 3 e1
    let p = m.geo_prod_mv(&f);
    assert_eq!(p.len(), 2);
    assert_eq!(p.components()[0].mag, q(6));
    assert_eq!(p.components()[0].grade(), 0);
    assert_eq!(p.components()[1].mag, q(3));
    assert_eq!(p.components()[1].grade(), 1);

    // (1 + 2 e1) ^ (3 e1) = 3 e1, the overlapping pair vanishing
    let w = m.outer_product_mv(&f);
    assert_eq!(w.len(), 1);
    assert_eq!(w.components()[0].mag, q(3));
    assert_eq!(w.components()[0].grade(), 1);
}

#[test]
pub fn termwise_inverse_of_orthogonal_sum() {
    let m = Multivector::new(
        vec![
            Component::new(q(2), vec![ONBasis::P(1)]),
            Component::new(q(4), vec![ONBasis::P(2), ONBasis::P(3)]),
        ],
    );
    let inv = m.inverse().expect("all terms invertible");
    assert_eq!(inv.len(), 2);
    assert_eq!(inv.components()[0].mag, Rational::new(1, 2));
    assert_eq!(inv.components()[1].mag, Rational::new(-1, 4));

    let with_degenerate = Multivector::new(
        vec![
            Component::new(q(2), vec![ONBasis::P(1)]),
            Component::new(q(1), vec![ONBasis::Z(2)]),
        ],
    );
    assert!(with_degenerate.inverse().is_none());

    let single = Multivector::new(vec![Component::new(q(2), vec![ONBasis::P(1)])]);
    assert_eq!(single.norm_sqrd().expect("invertible"), q(1));
}

#[test]
pub fn dual_undual_round_trips_exactly() {
    let i3 = Component::new(
        q(1),
        vec![ONBasis::P(1), ONBasis::P(2), ONBasis::P(3)],
    );
    let cases = vec![
        Component::new(q(2), vec![ONBasis::P(1)]),
        Component::new(q(-3), vec![ONBasis::P(1), ONBasis::P(2)]),
        Component::new(q(5), vec![ONBasis::P(2), ONBasis::P(3)]),
        Component::new(q(7), vec![]),
        Component::new(q(4), vec![ONBasis::P(1), ONBasis::P(2), ONBasis::P(3)]),
    ];
    for a in cases {
        let d = a.dual(&i3).expect("invertible pseudoscalar");
        let back = d.undual(&i3);
        assert_eq!(back, a);
    }

    // A mixed-signature pseudoscalar also round-trips.
    let im = Component::new(q(1), vec![ONBasis::P(1), ONBasis::N(2)]);
    let a = Component::new(q(3), vec![ONBasis::N(2)]);
    let d = a.dual(&im).expect("invertible pseudoscalar");
    assert_eq!(d.undual(&im), a);
}

#[test]
pub fn component_text_round_trips() {
    let cases = vec![
        Component::new(q(1), vec![ONBasis::P(1)]),
        Component::new(Rational::new(1125, 1000), vec![ONBasis::P(1), ONBasis::N(2)]),
        Component::new(Rational::new(-1, 2), vec![ONBasis::P(2)]),
        Component::new(q(254), vec![]),
        Component::zero(),
    ];
    for c in cases {
        let text = c.to_string();
        let back = Component::from_string(&text).expect("round trip parse");
        assert_eq!(back, c, "text was {}", text);
    }
    assert_eq!(
        Component::new(Rational::new(1125, 1000), vec![ONBasis::P(1)]).to_string(),
        String::from("1.125P(1)")
    );
    assert_eq!(Rational::new(-1, 2).to_string(), String::from("-0.5"));
    // A non-terminating expansion falls back to the exact fraction form.
    assert_eq!(Rational::new(1, 3).to_string(), String::from("1/3"));
}

#[test]
pub fn multivector_text_round_trips() {
    let cases = vec![
        Multivector::new(
            vec![
                Component::new(q(2), vec![ONBasis::P(1)]),
                Component::new(q(-3), vec![ONBasis::P(2)]),
                Component::new(q(1), vec![ONBasis::P(1), ONBasis::P(2)]),
            ],
        ),
        Multivector::new(vec![Component::new(Rational::new(-5, 4), vec![ONBasis::N(7)])]),
        Multivector::zero(),
    ];
    for m in cases {
        let text = m.to_string();
        let back = Multivector::from_string(&text).expect("round trip parse");
        assert_eq!(back, m, "text was {}", text);
    }
    assert_eq!(
        Multivector::new(
            vec![
                Component::new(q(2), vec![ONBasis::P(1)]),
                Component::new(q(-3), vec![ONBasis::P(2)]),
            ],
        ).to_string(),
        String::from("2P(1)-3P(2)")
    );
}

#[test]
pub fn parse_errors_name_their_cause() {
    let r = Component::from_string(&String::from("."));
    assert!(matches!(r, Err(FormatError::BadNumber { .. })));

    let r = Component::from_string(&String::from("1.0P"));
    assert!(matches!(r, Err(FormatError::BadBasis { .. })));

    let r = Component::from_string(&String::from("99999999999999999999P(1)"));
    assert!(matches!(r, Err(FormatError::NumberTooLarge { .. })));

    let r = ONBasis::from_string(&String::from("P(99999999999999999999999)"));
    assert!(matches!(r, Err(FormatError::NumberTooLarge { .. })));
}

#[test]
pub fn laplace_determinant_matches_hand_computed_values() {
    let row = |vals: Vec<i64>| vals.into_iter().map(Rational::from_int).collect::<Vec<_>>();

    // 3 x 3 with determinant -3
    let m3 = vec![row(vec![1, 2, 3]), row(vec![4, 5, 6]), row(vec![7, 8, 10])];
    assert_eq!(determinant(&m3), Rational::from_int(-3));

    // 4 x 4 integer matrix with determinant 4106
    let m4 = vec![
        row(vec![2, 1, 3, 4]),
        row(vec![2, 2054, 8, 10]),
        row(vec![2, 1, 4, 11]),
        row(vec![2, 2054, 8, 11]),
    ];
    assert_eq!(determinant(&m4), Rational::from_int(4106));

    // rational entries
    let m2 = vec![
        vec![Rational::new(1, 2), Rational::new(1, 3)],
        vec![Rational::new(1, 4), Rational::new(1, 6)],
    ];
    assert_eq!(determinant(&m2), Rational::zero());
}

#[test]
pub fn component_sums_build_multivectors() {
    let a = Component::new(q(2), vec![ONBasis::P(1)]);
    let b = Component::new(q(3), vec![ONBasis::P(1)]);
    let s = a.std_comp_add(&b);
    assert_eq!(s.len(), 1);
    assert_eq!(s.components()[0].mag, q(5));

    let cancel = a.std_comp_add(&a.negate());
    assert_eq!(cancel, Multivector::zero());

    let one = Component::new(q(1), vec![]);
    let m = one.to_mv();
    assert_eq!(m.len(), 1);
    assert!(m.is_single_grade());

    let spread = a.geo_product_mv(&Multivector::new(vec![one, b]));
    // 2 e1 * (1 + 3 e1) = 2 e1 + 6
    assert_eq!(spread.len(), 2);
    assert_eq!(spread.components()[0].mag, q(6));
    assert_eq!(spread.components()[0].grade(), 0);
    assert_eq!(spread.components()[1].mag, q(2));
    assert_eq!(spread.components()[1].grade(), 1);
}
