use rusty_ga::basis::ONBasis;
use rusty_ga::component::Component;
use rusty_ga::rational::Rational;

fn rat(n: i64) -> Rational {
    Rational::from_int(n)
}

#[test]
pub fn correctly_parse_string() {
    let result = Component::from_string(&String::from("1.0P(1)")).expect("Invalid Conversion");
    assert_eq!(result, Component::new(rat(1), vec![ONBasis::P(1)]));

    let result = Component::from_string(&String::from("1.0N(1)")).expect("Invalid Conversion");
    assert_eq!(result, Component::new(rat(1), vec![ONBasis::N(1)]));

    let result = Component::from_string(&String::from("1.0P(1)N(1)")).expect("Invalid Conversion");
    assert_eq!(result, Component::new(rat(1), vec![ONBasis::P(1), ONBasis::N(1)]));

    let result = Component::from_string(&String::from("1.0P(1)P(1)")).expect("Invalid Conversion");
    assert_eq!(result, Component::new(rat(1), vec![]));

    let result = Component::from_string(&String::from("1.0N(1)P(1)")).expect("Invalid Conversion");
    assert_eq!(result, Component::new(rat(-1), vec![ONBasis::P(1), ONBasis::N(1)]));

    let result = Component::from_string(&String::from("1.0N(1)N(1)")).expect("Invalid Conversion");
    assert_eq!(result, Component::new(rat(-1), vec![]));

    let result = Component::from_string(&String::from("1P(1)")).expect("Invalid Conversion");
    assert_eq!(result, Component::new(rat(1), vec![ONBasis::P(1)]));

    let result = Component::from_string(&String::from("254P(1)")).expect("Invalid Conversion");
    assert_eq!(result, Component::new(rat(254), vec![ONBasis::P(1)]));

    let result = Component::from_string(&String::from("1.125P(1)")).expect("Invalid Conversion");
    assert_eq!(result, Component::new(Rational::new(1125, 1000), vec![ONBasis::P(1)]));

    let result = Component::from_string(&String::from("1")).expect("Invalid Conversion");
    assert_eq!(result, Component::new(rat(1), vec![]));

    let result = Component::from_string(&String::from("1.0")).expect("Invalid Conversion");
    assert_eq!(result, Component::new(rat(1), vec![]));

    let result = Component::from_string(&String::from("1.")).expect("Invalid Conversion");
    assert_eq!(result, Component::new(rat(1), vec![]));

    let result = Component::from_string(&String::from(".0")).expect("Invalid Conversion");
    assert_eq!(result, Component::new(rat(0), vec![]));

    let result = Component::from_string(&String::from("-1.0")).expect("Invalid Conversion");
    assert_eq!(result, Component::new(rat(-1), vec![]));

    let result = Component::from_string(&String::from("+1.0")).expect("Invalid Conversion");
    assert_eq!(result, Component::new(rat(1), vec![]));

    let result = Component::from_string(&String::from("P(0)")).expect("Invalid Conversion");
    assert_eq!(result, Component::new(rat(1), vec![ONBasis::P(0)]));

    let result = Component::from_string(&String::from("+P(0)")).expect("Invalid Conversion");
    assert_eq!(result, Component::new(rat(1), vec![ONBasis::P(0)]));

    let result = Component::from_string(&String::from("-P(0)")).expect("Invalid Conversion");
    assert_eq!(result, Component::new(rat(-1), vec![ONBasis::P(0)]));

    let result = Component::from_string(&String::from("")).expect("Invalid Conversion");
    assert_eq!(result, Component::zero());
}

#[test]
pub fn correctly_fail_string() {
    Component::from_string(&String::from("1..")).err().expect("Double radix point.");

    Component::from_string(&String::from("1.0.0")).err().expect("Double Radix Point (mk 2).");

    Component::from_string(&String::from("1.0P")).err().expect("Bad Basis");

    Component::from_string(&String::from("1.0-")).err().expect("Negative After Decimal.");

    Component::from_string(&String::from("1.-0")).err().expect("Negative placed incorrectly.");

    Component::from_string(&String::from("1.+0")).err().expect("Negative placed incorrectly.");
}

#[test]
pub fn correctly_square_bases() {
    let ep = ONBasis::P(0);
    let e0 = ONBasis::Z(0);
    let em = ONBasis::N(0);

    // check positive
    let c1 = Component::new(rat(2), vec![ep.clone(), ep.clone()]);
    assert_eq!(c1.mag, rat(2));
    assert_eq!(c1.grade(), 0);

    // check negative
    let c1 = Component::new(rat(2), vec![em.clone(), em.clone()]);
    assert_eq!(c1.mag, rat(-2));
    assert_eq!(c1.grade(), 0);

    // check zero
    let c1 = Component::new(rat(2), vec![e0.clone(), e0.clone()]);
    assert_eq!(c1.mag, rat(0));
    assert_eq!(c1.grade(), 0);
}

#[test]
pub fn correctly_reorder_bases() {
    let e1 = ONBasis::P(0);
    let e2 = ONBasis::P(1);
    let e3 = ONBasis::P(2);

    // Pseudoscalar * Pseudoscalar
    let c1 = Component::new(
        rat(1),
        vec![e1.clone(), e2.clone(), e3.clone(), e1.clone(), e2.clone(), e3.clone()],
    );
    assert_eq!(c1.mag, rat(-1));
}

#[test]
pub fn correctly_reorder_and_flip_sign() {
    let e1 = ONBasis::P(0);
    let e2 = ONBasis::P(1);
    let e3 = ONBasis::P(2);

    let c1 = Component::new(rat(1), vec![e2.clone(), e1.clone(), e3.clone()]);
    assert_eq!(c1.mag, rat(-1));
    assert_eq!(c1.bases()[0].unwrap(), 0);
    assert_eq!(c1.bases()[1].unwrap(), 1);
    assert_eq!(c1.bases()[2].unwrap(), 2);

    let c2 = Component::new(rat(1), vec![e2.clone(), e3.clone(), e1.clone()]);
    assert_eq!(c2.mag, rat(1));
    assert_eq!(c2.bases()[0].unwrap(), 0);
    assert_eq!(c2.bases()[1].unwrap(), 1);
    assert_eq!(c2.bases()[2].unwrap(), 2);
}

#[test]
pub fn match_with_bases_correctly() {
    let e_1 = ONBasis::P(1);
    let e_2 = ONBasis::P(2);
    let e_3 = ONBasis::P(3);

    let c0 = Component::new(rat(1), vec![]);
    let c1 = Component::new(rat(1), vec![e_1]);
    let c2 = Component::new(rat(1), vec![e_2]);
    let c3 = Component::new(rat(1), vec![e_3]);

    assert_eq!(c0, c0);
    assert_eq!(c1, c1);
    assert_eq!(c2, c2);
    assert_eq!(c3, c3);

    let c123 = c1.outer_product(&c2).outer_product(&c3);

    assert_eq!(c123, c123);
    assert_ne!(c0, c1);
    assert_ne!(c0, c123);
    assert_ne!(c1, c123);
}

#[test]
pub fn check_truth_table_with_all_positive_bases() {
    let e_1 = ONBasis::P(1);
    let e_2 = ONBasis::P(2);
    let e_3 = ONBasis::P(3);

    let c0 = Component::new(rat(1), vec![]);
    let c1 = Component::new(rat(1), vec![e_1]);
    let c2 = Component::new(rat(1), vec![e_2]);
    let c3 = Component::new(rat(1), vec![e_3]);
    let mut comps = vec![];
    let mut i = 0;
    // use bitmask method to select values.
    while i < 8 {
        let mut res = c0.clone();
        if i & 1 > 0 {
            res = res.outer_product(&c1);
        }
        if i & 2 > 0 {
            res = res.outer_product(&c2);
        }
        if i & 4 > 0 {
            res = res.outer_product(&c3);
        }
        comps.push(res);
        i += 1;
    }

    for lhs in comps.iter() {
        for rhs in comps.iter() {
            let result = lhs.inner_product_scalar(rhs);
            if lhs == rhs {
                // if along the diagonal, it should have a value.
                if lhs.grade() / 2 % 2 > 0 {
                    // negative grades
                    assert_eq!(
                        rat(-1),
                        result,
                        "Testing inner product on {} and {}",
                        lhs.to_string(),
                        rhs.to_string()
                    );
                } else {
                    // positive grades
                    assert_eq!(
                        rat(1),
                        result,
                        "Testing inner product on {} and {}",
                        lhs.to_string(),
                        rhs.to_string()
                    );
                }
            } else {
                assert_eq!(
                    rat(0),
                    result,
                    "Testing inner product on {} and {}",
                    lhs.to_string(),
                    rhs.to_string()
                );
            }
        }
    }
}

#[test]
pub fn correctly_square_matched_bases() {
    let p_1 = ONBasis::P(1);
    let n_1 = ONBasis::N(1);
    let z_1 = ONBasis::Z(1);

    let p = Component::new(rat(1), vec![p_1]);
    let n = Component::new(rat(1), vec![n_1]);
    let z = Component::new(rat(1), vec![z_1]);

    let resp = p.inner_product_scalar(&p);
    assert_eq!(resp, rat(1));

    let resn = n.inner_product_scalar(&n);
    assert_eq!(resn, rat(-1));

    let resz = z.inner_product_scalar(&z);
    assert_eq!(resz, rat(0));
}

#[test]
pub fn correctly_combine_bases() {
    let e1 = ONBasis::P(1);
    let e2 = ONBasis::P(2);
    let e3 = ONBasis::P(3);
    // simple vector components
    let c1 = Component::new(rat(1), vec![e1.clone()]);
    let c2 = Component::new(rat(1), vec![e2.clone()]);
    let c3 = Component::new(rat(1), vec![e3.clone()]);

    let c12 = c1.outer_product(&c2);
    assert_eq!(c12.mag, rat(1));
    assert_eq!(c12.grade(), 2);
    assert_eq!(c12.bases()[0].unwrap(), 1);
    assert_eq!(c12.bases()[1].unwrap(), 2);

    let c123 = c1.outer_product(&c2).outer_product(&c3);
    assert_eq!(c123.mag, rat(1));
    assert_eq!(c123.grade(), 3);
    assert_eq!(c123.bases()[0].unwrap(), 1);
    assert_eq!(c123.bases()[1].unwrap(), 2);
    assert_eq!(c123.bases()[2].unwrap(), 3);
}

#[test]
pub fn zero_out_on_overlapping_bases() {
    let e1 = ONBasis::P(1);
    // simple vector components
    let c1 = Component::new(rat(1), vec![e1.clone()]);

    let c11 = c1.outer_product(&c1);
    assert_eq!(c11.mag, rat(0));
    assert_eq!(c11.grade(), 0);
}

#[test]
pub fn calculate_correctly_for_basics() {
    let e1 = ONBasis::P(1);
    let e2 = ONBasis::P(2);
    let e3 = ONBasis::P(3);
    // simple vector components
    let c1 = Component::new(rat(1), vec![e1.clone()]);
    let c2 = Component::new(rat(1), vec![e2.clone()]);
    let c3 = Component::new(rat(1), vec![e3.clone()]);

    let comps = vec![c1, c2, c3];
    let mut vals = vec![];
    for mask in 0..8 {
        // make the example components
        let mut lhs = Component::new(rat(1), vec![]);
        if mask & 1 > 0 {
            lhs = lhs.outer_product(&comps[0]);
        }
        if mask & 2 > 0 {
            lhs = lhs.outer_product(&comps[1]);
        }
        if mask & 4 > 0 {
            lhs = lhs.outer_product(&comps[2]);
        }
        vals.push(lhs);
    }

    // check the truth table
    for lidx in 0..vals.len() {
        for ridx in 0..vals.len() {
            let lhs = &vals[lidx];
            let rhs = &vals[ridx];
            let res = lhs.left_cont(rhs);
            if lhs.grade() > rhs.grade() {
                assert_eq!(res.mag, rat(0));
                assert_eq!(res.bases().len(), 0);
            } else if lhs.grade() == rhs.grade() {
                assert_eq!(res.bases().len(), 0);
                if lhs.bases().iter().any(|x| !rhs.bases().contains(x)) {
                    // if any basis in left is not in the right, should be 0
                    assert_eq!(res.mag, rat(0));
                    assert_eq!(res.bases().len(), 0);
                } else {
                    // if lhs in rhs, should have magnitude.
                    if lhs.grade() > 1 {
                        assert_eq!(res.mag, rat(-1));
                    } else {
                        assert_eq!(res.mag, rat(1));
                    }
                }
            } else {
                // lhs.grade() < rhs.grade()
                if lhs.bases().iter().any(|x| !rhs.bases().contains(x)) {
                    // if any basis in left is not in the right, should be 0
                    assert_eq!(res.mag, rat(0));
                    assert_eq!(res.bases().len(), 0);
                } else {
                    // if all lhs bases in rhs bases, expect those not overlapping.
                    for basis in rhs.bases().iter() {
                        if !lhs.bases().contains(basis) {
                            assert!(res.bases().contains(basis));
                        }
                    }
                    // magnitude should flip based on swaps.
                    if (lidx == 2 && ridx == 3) || (lidx == 2 && ridx == 7) || (lidx == 3 && ridx
                        == 5) || (lidx == 3 && ridx == 7) || (lidx == 3 && ridx == 6) || (lidx == 4
                        && ridx == 5) || (lidx == 6 && ridx == 7) || (lidx == 4 && ridx == 6) {
                        assert_eq!(
                            res.mag,
                            rat(-1),
                            "{}:{} >> {}:{}",
                            lidx,
                            lhs.to_string(),
                            ridx,
                            rhs.to_string()
                        );
                    } else {
                        assert_eq!(
                            res.mag,
                            rat(1),
                            "{}:{} >> {}:{}",
                            lidx,
                            lhs.to_string(),
                            ridx,
                            rhs.to_string()
                        );
                    }
                }
            }
        }
    }
}

#[test]
pub fn correctly_multiply_magnitudes() {
    let e1 = ONBasis::P(1);
    let e2 = ONBasis::P(2);
    let e3 = ONBasis::P(3);
    // simple vector components
    let c1 = Component::new(rat(2), vec![e1]);
    let c2 = Component::new(rat(3), vec![e2]);
    let c3 = Component::new(rat(4), vec![e3]);

    let c123 = Component::new(rat(1), vec![e1, e2, e3]);

    let c12 = c1.left_cont(&c123);
    assert_eq!(c12.mag, rat(2));

    let c12 = c2.left_cont(&c123);
    assert_eq!(c12.mag, rat(-3));

    let c12 = c3.left_cont(&c123);
    assert_eq!(c12.mag, rat(4));

    let c12 = c2.left_cont(&c1.left_cont(&c123));
    assert_eq!(c12.mag, rat(6));

    let c12 = c3.left_cont(&c1.left_cont(&c123));
    assert_eq!(c12.mag, rat(-8));

    let c12 = c3.left_cont(&c2.left_cont(&c123));
    assert_eq!(c12.mag, rat(12));

    let c12 = c3.left_cont(&c2.left_cont(&c1.left_cont(&c123)));
    assert_eq!(c12.mag, rat(24));
}

#[test]
pub fn lib_calculate_correctly_for_basics() {
    let e1 = ONBasis::P(1);
    let e2 = ONBasis::P(2);
    let e3 = ONBasis::P(3);
    // simple vector components
    let c1 = Component::new(rat(1), vec![e1.clone()]);
    let c2 = Component::new(rat(1), vec![e2.clone()]);
    let c3 = Component::new(rat(1), vec![e3.clone()]);

    let comps = vec![c1, c2, c3];
    let mut vals = vec![];
    for mask in 0..8 {
        // make the example components
        let mut lhs = Component::new(rat(1), vec![]);
        if mask & 1 > 0 {
            lhs = lhs.outer_product(&comps[0]);
        }
        if mask & 2 > 0 {
            lhs = lhs.outer_product(&comps[1]);
        }
        if mask & 4 > 0 {
            lhs = lhs.outer_product(&comps[2]);
        }
        vals.push(lhs);
    }

    // print the results quickly
    let mut output = String::new();
    output.push_str("lhs\\rhs | ");
    for comp in vals.iter() {
        output.push_str(&comp.to_string());
        output.push_str(" | ");
    }
    output.push('\n');
    for lidx in 0..vals.len() {
        output.push_str(&vals[lidx].to_string());
        output.push_str(" | ");
        for ridx in 0..vals.len() {
            let lhs = &vals[lidx];
            let rhs = &vals[ridx];
            let res = lhs.right_cont(rhs);
            output.push_str(&res.to_string());
            output.push_str(" | ");
        }
        output.push('\n');
    }
    println!("{}", output);

    // check the truth table
    for lidx in 0..vals.len() {
        for ridx in 0..vals.len() {
            let lhs = &vals[lidx];
            let rhs = &vals[ridx];
            let res = lhs.right_cont(rhs);
            if lhs.grade() < rhs.grade() {
                assert_eq!(res.mag, rat(0));
                assert_eq!(res.bases().len(), 0);
            } else if lhs.grade() == rhs.grade() {
                assert_eq!(res.bases().len(), 0);
                if lhs.bases().iter().any(|x| !rhs.bases().contains(x)) {
                    // if any basis in left is not in the right, should be 0
                    assert_eq!(res.mag, rat(0));
                    assert_eq!(res.bases().len(), 0);
                } else {
                    // if lhs in rhs, should have magnitude.
                    if lhs.grade() > 1 {
                        assert_eq!(res.mag, rat(-1));
                    } else {
                        assert_eq!(res.mag, rat(1));
                    }
                }
            } else {
                // lhs.grade() > rhs.grade()
                if rhs.bases().iter().any(|x| !lhs.bases().contains(x)) {
                    // if any basis in left is not in the right, should be 0
                    assert_eq!(res.mag, rat(0));
                    assert_eq!(res.bases().len(), 0);
                } else {
                    // if all lhs bases in rhs bases, expect those not overlapping.
                    for basis in lhs.bases().iter() {
                        if !rhs.bases().contains(basis) {
                            assert!(res.bases().contains(basis));
                        }
                    }
                    // magnitude should flip based on swaps.
                    if (lidx == 3 && ridx == 1) || (lidx == 5 && ridx == 1) || (lidx == 6 && ridx
                        == 2) || (lidx == 7 && ridx == 2) || (lidx == 7 && ridx == 3) || (lidx == 7
                        && ridx == 6) {
                        assert_eq!(
                            rat(-1),
                            res.mag,
                            "{}:{} >> {}:{}",
                            lidx,
                            lhs.to_string(),
                            ridx,
                            rhs.to_string()
                        );
                    } else {
                        assert_eq!(
                            rat(1),
                            res.mag,
                            "{}:{} >> {}:{}",
                            lidx,
                            lhs.to_string(),
                            ridx,
                            rhs.to_string()
                        );
                    }
                }
            }
        }
    }
}

#[test]
pub fn lib_correctly_multiply_magnitudes() {
    let e1 = ONBasis::P(1);
    let e2 = ONBasis::P(2);
    let e3 = ONBasis::P(3);
    // simple vector components
    let c1 = Component::new(rat(2), vec![e1]);
    let c2 = Component::new(rat(3), vec![e2]);
    let c3 = Component::new(rat(4), vec![e3]);

    let c123 = Component::new(rat(1), vec![e1, e2, e3]);

    let c12 = c123.right_cont(&c1);
    assert_eq!(c12.mag, rat(2));

    let c12 = c123.right_cont(&c2);
    assert_eq!(c12.mag, rat(-3));

    let c12 = c123.right_cont(&c3);
    assert_eq!(c12.mag, rat(4));

    let c12 = c123.right_cont(&c1).right_cont(&c2);
    assert_eq!(c12.mag, rat(-6));

    let c12 = c123.right_cont(&c1).right_cont(&c3);
    assert_eq!(c12.mag, rat(8));

    let c12 = c123.right_cont(&c2).right_cont(&c3);
    assert_eq!(c12.mag, rat(-12));

    let c12 = c123.right_cont(&c1).right_cont(&c2).right_cont(&c3);
    assert_eq!(c12.mag, rat(-24));
}

#[test]
pub fn correctly_calculate_value() {
    let e1 = ONBasis::P(1);
    let e2 = ONBasis::P(2);
    let e3 = ONBasis::P(3);
    let e4 = ONBasis::P(4);
    // simple vector components
    let c0 = Component::new(rat(1), vec![]);
    let c1 = Component::new(rat(1), vec![e1]);
    let c2 = Component::new(rat(1), vec![e2]);
    let c3 = Component::new(rat(1), vec![e3]);
    let c4 = Component::new(rat(1), vec![e4]);
    let c0r = c0.reversion();
    assert_eq!(c0r.mag, rat(1));
    assert_eq!(c0r.bases().len(), 0);

    let c1r = c1.reversion();
    assert_eq!(c1r.mag, rat(1));
    assert_eq!(c1r.bases(), c1.bases());

    let c12 = c1.outer_product(&c2);
    let c12r = c12.reversion();
    assert_eq!(c12r.mag, rat(-1));
    assert_eq!(c12r.bases(), c12.bases());

    let c123 = c1.outer_product(&c2).outer_product(&c3);
    let c123r = c123.reversion();
    assert_eq!(c123r.mag, rat(-1));
    assert_eq!(c123r.bases(), c123.bases());

    let c1234 = c1.outer_product(&c2).outer_product(&c3).outer_product(&c4);
    let c1234r = c1234.reversion();
    assert_eq!(c1234r.mag, rat(1));
    assert_eq!(c1234r.bases(), c1234.bases());
}

#[test]
pub fn calculate_correctly() {
    let e1 = ONBasis::P(1);
    let e2 = ONBasis::P(2);
    let e3 = ONBasis::P(3);
    // simple vector components
    let c1 = Component::new(rat(2), vec![e1]);
    let c2 = Component::new(rat(3), vec![e2]);
    let c3 = Component::new(rat(4), vec![e3]);

    // vector inverse
    let inv = c1.inverse().expect("vector should invert");
    assert_eq!(inv.mag, Rational::new(1, 2));
    assert_eq!(inv.bases(), c1.bases());
    let combo = c1.left_cont(&inv);
    assert_eq!(combo.mag, rat(1));
    assert_eq!(combo.bases().len(), 0);

    // bivector inverse
    let c = c1.outer_product(&c2);
    let inv = c.inverse().expect("bivector should invert");
    assert_eq!(inv.mag, Rational::new(-1, 6));
    assert_eq!(inv.bases(), c.bases());
    let combo = c.left_cont(&inv);
    assert_eq!(combo.mag, rat(1));
    assert_eq!(combo.bases().len(), 0);

    // trivector inverse
    let c = c1.outer_product(&c2).outer_product(&c3);
    let inv = c.inverse().expect("trivector should invert");
    assert_eq!(inv.mag, Rational::new(-1, 24));
    assert_eq!(inv.bases(), c.bases());
    let combo = c.left_cont(&inv);
    assert_eq!(combo.mag, rat(1));
    assert_eq!(combo.bases().len(), 0);
}

#[test]
pub fn function_correctly() {
    let e1 = ONBasis::P(1);
    let e2 = ONBasis::P(2);
    let e3 = ONBasis::P(3);
    let e4 = ONBasis::P(4);
    // simple vector components
    let c1 = Component::new(rat(1), vec![e1]);
    let c2 = Component::new(rat(1), vec![e2]);
    let c3 = Component::new(rat(1), vec![e3]);
    let c4 = Component::new(rat(1), vec![e4]);

    let i1 = &c1;
    let i2 = &c1.outer_product(&c2);
    let i3 = &c1.outer_product(&c2).outer_product(&c3);
    let i4 = &c1.outer_product(&c2).outer_product(&c3).outer_product(&c4);

    let val = Component::new(rat(2), vec![e1.clone()]);
    let dual1 = val.dual(i1).expect("pseudoscalar invertible");

    // no change in magnitude
    assert_eq!(val.mag, dual1.mag);
    // no overlapping bases
    assert!(!val.bases().iter().any(|x| dual1.bases().contains(x)));
    // should combine to the full pseudoscalar
    assert_eq!(val.outer_product(&dual1).bases(), i1.bases());

    let dual2 = val.dual(i2).expect("pseudoscalar invertible");

    // no change in magnitude
    assert_eq!(val.mag.neg(), dual2.mag);
    // no overlapping bases
    assert!(!val.bases().iter().any(|x| dual2.bases().contains(x)));
    // should combine to the full pseudoscalar
    assert_eq!(val.outer_product(&dual2).bases(), i2.bases());

    let dual3 = val.dual(i3).expect("pseudoscalar invertible");

    // no change in magnitude
    assert_eq!(val.mag.neg(), dual3.mag);
    // no overlapping bases
    assert!(!val.bases().iter().any(|x| dual3.bases().contains(x)));
    // should combine to the full pseudoscalar
    assert_eq!(val.outer_product(&dual3).bases(), i3.bases());

    let dual4 = val.dual(i4).expect("pseudoscalar invertible");

    // no change in magnitude
    assert_eq!(val.mag, dual4.mag);
    // no overlapping bases
    assert!(!val.bases().iter().any(|x| dual4.bases().contains(x)));
    // should combine to the full pseudoscalar
    assert_eq!(val.outer_product(&dual4).bases(), i4.bases());

    let ddual1 = dual1.dual(i1).expect("pseudoscalar invertible");

    // no change in magnitude
    assert_eq!(val.mag, ddual1.mag);
    assert!(val.bases().iter().all(|x| ddual1.bases().contains(x)));

    let ddual2 = dual2.dual(i2).expect("pseudoscalar invertible");

    assert_eq!(val.mag.neg(), ddual2.mag);
    assert!(val.bases().iter().all(|x| ddual2.bases().contains(x)));

    let ddual3 = dual3.dual(i3).expect("pseudoscalar invertible");

    assert_eq!(val.mag.neg(), ddual3.mag);
    assert!(val.bases().iter().all(|x| ddual3.bases().contains(x)));

    let ddual4 = dual4.dual(i4).expect("pseudoscalar invertible");

    assert_eq!(val.mag, ddual4.mag);
    assert!(val.bases().iter().all(|x| ddual4.bases().contains(x)));

    let undual1 = dual1.undual(i1);

    assert_eq!(val, undual1);

    let undual2 = dual2.undual(i2);
    assert_eq!(val, undual2);

    let undual3 = dual3.undual(i3);
    assert_eq!(val, undual3);

    let undual4 = dual4.undual(i4);
    assert_eq!(val, undual4);
}

#[test]
pub fn be_calculated_correctly() {
    let e1 = ONBasis::P(1);
    let e2 = ONBasis::P(2);
    let e3 = ONBasis::P(3);
    let e4 = ONBasis::P(4);
    // simple vector components
    let c1 = Component::new(rat(1), vec![e1]);
    let c2 = Component::new(rat(1), vec![e2]);
    let c3 = Component::new(rat(1), vec![e3]);
    let c4 = Component::new(rat(1), vec![e4]);

    let i = c1.outer_product(&c2).outer_product(&c3).outer_product(&c4);
    let cs = vec![c1, c2, c3, c4];

    // get reciprocals for each component.
    let s1 = i.reciprocal_frame(0).expect("invertible");
    let s2 = i.reciprocal_frame(1).expect("invertible");
    let s3 = i.reciprocal_frame(2).expect("invertible");
    let s4 = i.reciprocal_frame(3).expect("invertible");

    let rs = vec![s1, s2, s3, s4];

    // dot each frame vector with each reciprocal
    for (cidx, c) in cs.iter().enumerate() {
        for (ridx, r) in rs.iter().enumerate() {
            let result = c.inner_product_scalar(r);
            println!("{}", result.to_string());
            if cidx == ridx {
                assert_eq!(result, rat(1), "{} . {}", c.to_string(), r.to_string());
            } else {
                assert_eq!(result, rat(0), "{} . {}", c.to_string(), r.to_string());
            }
        }
    }
}
