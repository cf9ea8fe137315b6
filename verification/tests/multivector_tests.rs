use rusty_ga::basis::ONBasis;
use rusty_ga::component::Component;
use rusty_ga::multivector::Multivector;
use rusty_ga::rational::Rational;

fn whole(n: i64) -> Rational {
    Rational::from_int(n)
}

#[test]
pub fn correctly_parse_valid_multivectors() {
    let result = Multivector::from_string(&String::from("P(1)")).expect("Single Component");
    assert_eq!(result, Multivector::new(vec![Component::new(whole(1), vec![ONBasis::P(1)])]));

    let result = Multivector::from_string(&String::from("")).expect("Empty.");
    assert_eq!(result, Multivector::new(vec![]));

    let result = Multivector::from_string(&String::from("P(1)+P(2)")).expect("Multicomponent");
    assert_eq!(
        result,
        Multivector::new(vec![
            Component::new(whole(1), vec![ONBasis::P(1)]),
            Component::new(whole(1), vec![ONBasis::P(2)]),
        ])
    );

    let result = Multivector::from_string(&String::from("P(1)-P(2)")).expect(
        "Multicomponent with negative",
    );
    assert_eq!(
        result,
        Multivector::new(vec![
            Component::new(whole(1), vec![ONBasis::P(1)]),
            Component::new(whole(-1), vec![ONBasis::P(2)]),
        ])
    );

    let result = Multivector::from_string(&String::from("-P(1)+P(2)")).expect("Single Component");
    assert_eq!(
        result,
        Multivector::new(vec![
            Component::new(whole(-1), vec![ONBasis::P(1)]),
            Component::new(whole(1), vec![ONBasis::P(2)]),
        ])
    );

    // triple components
    let result = Multivector::from_string(&String::from("P(1)+P(2)+P(3)")).expect("3 Components");
    assert_eq!(
        result,
        Multivector::new(vec![
            Component::new(whole(1), vec![ONBasis::P(1)]),
            Component::new(whole(1), vec![ONBasis::P(2)]),
            Component::new(whole(1), vec![ONBasis::P(3)]),
        ])
    );

    // consolidate components
    let result = Multivector::from_string(&String::from("P(1)+P(1)+P(1)")).expect("Consolidation");
    assert_eq!(result, Multivector::new(vec![Component::new(whole(3), vec![ONBasis::P(1)])]));
}

#[test]
pub fn sort_list_of_components_buy_grade() {
    let b1 = ONBasis::P(0);
    let b2 = ONBasis::P(1);

    let comp1 = Component::new(whole(1), vec![b1]);
    let comp2 = Component::new(whole(1), vec![b2]);
    let comp12 = Component::new(whole(1), vec![b1, b2]);

    let test = Multivector::new(vec![comp12, comp1, comp2]);
    assert_eq!(test.components()[0].grade(), 1);
    assert_eq!(test.components()[1].grade(), 1);
    assert_eq!(test.components()[2].grade(), 2);
}

#[test]
pub fn correctly_tell_when_it_is_blade_or_not() {
    let p1 = ONBasis::P(1);
    let p2 = ONBasis::P(2);
    let p3 = ONBasis::P(3);
    let p4 = ONBasis::P(4);
    let p5 = ONBasis::P(5);

    let vector = Multivector::new(vec![Component::new(whole(1), vec![p1])]);
    assert!(vector.is_blade(), "Pure Vec Component isn't blade.");

    let n_component = Multivector::new(vec![Component::new(whole(1), vec![p1, p2, p3, p4, p5])]);
    assert!(n_component.is_blade(), "Higher Dimension Component isn't blade.");

    let complex_blade = Multivector::new(
        vec![
            Component::new(whole(1), vec![p1, p2]),
            Component::new(whole(1), vec![p2, p3]),
            Component::new(whole(1), vec![p3, p4]),
            Component::new(whole(1), vec![p4, p5]),
        ],
    );
    assert!(complex_blade.is_blade(), "Complex BLade is Not valid.");

    let not_blade = Multivector::new(
        vec![
            Component::new(whole(1), vec![p1, p2]),
            Component::new(whole(1), vec![p3, p4]),
            Component::new(whole(1), vec![p4, p5]),
        ],
    );
    assert!(!not_blade.is_blade(), "Not Blade is returning as Blade.");

    let multigrade = Multivector::new(
        vec![Component::new(whole(1), vec![p1]), Component::new(whole(1), vec![p2, p3])],
    );
    assert!(!multigrade.is_blade(), "Multigrade has returned as blade.");
}

#[test]
pub fn correctly_add_component_to_multivector() {
    let b1 = ONBasis::P(1);
    let b2 = ONBasis::P(2);

    let comp1 = Component::new(whole(1), vec![b1]);
    let comp2 = Component::new(whole(1), vec![b2]);
    let comp12 = Component::new(whole(1), vec![b1, b2]);

    let mv = Multivector::zero();

    let mv1 = mv.component_add(&comp1);
    assert_eq!(mv1.len(), 1);
    assert_eq!(mv1.components()[0].mag, whole(1));
    assert_eq!(*mv1.components()[0].bases(), vec![b1]);

    let mv1p = mv1.component_add(&comp1);
    assert_eq!(mv1p.len(), 1);
    assert_eq!(mv1p.components()[0].mag, whole(2));
    assert_eq!(*mv1p.components()[0].bases(), vec![b1]);

    let mv12 = mv1p.component_add(&comp2);
    assert_eq!(mv12.len(), 2);
    assert_eq!(mv12.components()[0].mag, whole(2));
    assert_eq!(*mv12.components()[0].bases(), vec![b1]);
    assert_eq!(mv12.components()[1].mag, whole(1));
    assert_eq!(*mv12.components()[1].bases(), vec![b2]);

    let mv12p = mv12.component_add(&comp12);
    assert_eq!(mv12p.len(), 3);
    assert_eq!(mv12p.components()[0].mag, whole(2));
    assert_eq!(*mv12p.components()[0].bases(), vec![b1]);
    assert_eq!(mv12p.components()[1].mag, whole(1));
    assert_eq!(*mv12p.components()[1].bases(), vec![b2]);
    assert_eq!(mv12p.components()[2].mag, whole(1));
    assert_eq!(*mv12p.components()[2].bases(), vec![b1, b2]);
}

#[test]
pub fn nullify_added_zero_components() {
    let b1 = ONBasis::P(1);
    let b2 = ONBasis::P(2);

    let comp1 = Component::new(whole(1), vec![b1]);
    let comp2 = Component::new(whole(1), vec![b2]);
    let comp12 = Component::new(whole(1), vec![b1, b2]);

    let mv = Multivector::zero();

    let mv1 = mv.component_add(&Component::zero());
    assert_eq!(mv1.len(), 0);

    let mv = Multivector::new(vec![comp1.clone(), comp2.clone(), comp12.clone()]);
    let mv1 = mv.component_add(&Component::zero());
    assert_eq!(mv1.len(), 3);
    assert_eq!(mv.components()[0], comp1);
    assert_eq!(mv.components()[1], comp2);
    assert_eq!(mv.components()[2], comp12);
}

#[test]
pub fn add_two_multivectors_correctly() {
    let b1 = ONBasis::P(1);
    let b2 = ONBasis::P(2);

    let comp0 = Component::new(whole(1), vec![]);
    let comp1 = Component::new(whole(1), vec![b1]);
    let comp2 = Component::new(whole(1), vec![b2]);
    let comp12 = Component::new(whole(1), vec![b1, b2]);

    let mv1 = Multivector::new(vec![comp0, comp1.clone(), comp2.clone()]);
    let mv2 = Multivector::new(vec![comp1, comp2, comp12]);

    let test = mv1.multivector_add(&mv2);
    assert_eq!(test.len(), 4);
    assert_eq!(test.components()[0].mag, whole(1));
    assert_eq!(*test.components()[0].bases(), vec![]);
    assert_eq!(test.components()[1].mag, whole(2));
    assert_eq!(*test.components()[1].bases(), vec![b1]);
    assert_eq!(test.components()[2].mag, whole(2));
    assert_eq!(*test.components()[2].bases(), vec![b2]);
    assert_eq!(test.components()[3].mag, whole(1));
    assert_eq!(*test.components()[3].bases(), vec![b1, b2]);
}

#[test]
pub fn add_correctly() {
    let b1 = ONBasis::P(1);
    let b2 = ONBasis::P(2);

    let comp0 = Component::new(whole(1), vec![]);
    let comp1 = Component::new(whole(1), vec![b1]);
    let comp2 = Component::new(whole(1), vec![b2]);

    let mv1 = Multivector::new(vec![comp0, comp1.clone(), comp2.clone()]);
    let mv2 = Multivector::new(vec![comp1.clone()]);

    let test = mv1.scalar_add(&whole(1));
    assert_eq!(test.len(), 3);
    assert_eq!(test.components()[0].mag, whole(2));
    assert_eq!(*test.components()[0].bases(), vec![]);
    assert_eq!(test.components()[1], comp1);
    assert_eq!(test.components()[2], comp2);

    let test = mv2.scalar_add(&whole(1));
    assert_eq!(test.len(), 2);
    assert_eq!(test.components()[0].mag, whole(1));
    assert_eq!(*test.components()[0].bases(), vec![]);
    assert_eq!(test.components()[1].mag, whole(1));
    assert_eq!(*test.components()[1].bases(), vec![b1]);
}

#[test]
pub fn correctly_take_grade_from_multivector() {
    let b1 = ONBasis::P(1);
    let b2 = ONBasis::P(2);

    let comp0 = Component::new(whole(1), vec![]);
    let comp1 = Component::new(whole(1), vec![b1]);
    let comp2 = Component::new(whole(1), vec![b2]);
    let comp12 = Component::new(whole(1), vec![b1, b2]);

    let mv = Multivector::new(vec![comp0.clone(), comp1.clone(), comp2.clone(), comp12.clone()]);
    let g0 = mv.take_grade(0);
    assert_eq!(g0.len(), 1);
    assert_eq!(g0.components()[0], comp0);

    let g1 = mv.take_grade(1);
    assert_eq!(g1.len(), 2);
    assert_eq!(g1.components()[0], comp1);
    assert_eq!(g1.components()[1], comp2);

    let g2 = mv.take_grade(2);
    assert_eq!(g2.len(), 1);
    assert_eq!(g2.components()[0], comp12);

    let g3 = mv.take_grade(3);
    assert_eq!(g3.len(), 0);
}

#[test]
pub fn lib_add_correctly() {
    let b1 = ONBasis::P(1);
    let b2 = ONBasis::P(2);

    let comp0 = Component::new(whole(1), vec![]);
    let comp1 = Component::new(whole(1), vec![b1]);
    let comp2 = Component::new(whole(1), vec![b2]);

    let _mv1 = Multivector::new(vec![comp0, comp1.clone(), comp2.clone()]);
}

#[test]
pub fn lib_correctly_take_grade_from_multivector() {
    let b1 = ONBasis::P(1);
    let b2 = ONBasis::P(2);

    let comp0 = Component::new(whole(1), vec![]);
    let comp1 = Component::new(whole(1), vec![b1]);
    let comp2 = Component::new(whole(1), vec![b2]);
    let comp12 = Component::new(whole(1), vec![b1, b2]);

    let mv = Multivector::new(vec![comp0.clone(), comp1.clone(), comp2.clone(), comp12.clone()]);
    let test = mv.scalar_mult(whole(3));
    assert_eq!(test.len(), 4);
    assert_eq!(test.components()[0].mag, whole(3));
    assert_eq!(test.components()[1].mag, whole(3));
    assert_eq!(test.components()[2].mag, whole(3));
    assert_eq!(test.components()[3].mag, whole(3));
    assert_eq!(*test.components()[0].bases(), vec![]);
    assert_eq!(*test.components()[1].bases(), vec![b1]);
    assert_eq!(*test.components()[2].bases(), vec![b2]);
    assert_eq!(*test.components()[3].bases(), vec![b1, b2]);

    let test = mv.scalar_mult(whole(0));
    assert_eq!(test, Multivector::zero());
}

#[test]
pub fn work_correctly() {
    let b1 = ONBasis::P(1);
    let b2 = ONBasis::P(2);

    let comp0 = Component::new(whole(1), vec![]);
    let comp1 = Component::new(whole(1), vec![b1]);
    let comp2 = Component::new(whole(1), vec![b2]);
    let comp12 = Component::new(whole(1), vec![b1, b2]);

    let mv = Multivector::new(vec![comp0.clone(), comp1.clone(), comp2.clone(), comp12.clone()]);

    let test = mv.negative();
    assert_eq!(test.len(), 4);
    assert_eq!(test.components()[0].mag, whole(-1));
    assert_eq!(test.components()[1].mag, whole(-1));
    assert_eq!(test.components()[2].mag, whole(-1));
    assert_eq!(test.components()[3].mag, whole(-1));
    assert_eq!(*test.components()[0].bases(), vec![]);
    assert_eq!(*test.components()[1].bases(), vec![b1]);
    assert_eq!(*test.components()[2].bases(), vec![b2]);
    assert_eq!(*test.components()[3].bases(), vec![b1, b2]);
}
