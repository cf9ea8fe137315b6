use rusty_ga::basis::ONBasis;

#[test]
pub fn correctly_parse_string_values() {
    let result = ONBasis::from_string(&String::from("P(0)")).expect("Didn't work!");
    assert_eq!(result, ONBasis::P(0));

    let result = ONBasis::from_string(&String::from("N(0)")).expect("Didn't work!");
    assert_eq!(result, ONBasis::N(0));

    let result = ONBasis::from_string(&String::from("Z(0)")).expect("Didn't work!");
    assert_eq!(result, ONBasis::Z(0));

    let result = ONBasis::from_string(&String::from("P(1000000)")).expect("Didn't work!");
    assert_eq!(result, ONBasis::P(1000000));

    let result = ONBasis::from_string(&String::from("N(1000000)")).expect("Didn't work!");
    assert_eq!(result, ONBasis::N(1000000));

    let result = ONBasis::from_string(&String::from("Z(1000000)")).expect("Didn't work!");
    assert_eq!(result, ONBasis::Z(1000000));
}

#[test]
pub fn correctly_fail_invalid_strings() {
    let _result = ONBasis::from_string(&String::from("PP(0)")).err().expect("No err for PP(0)");
    let _result = ONBasis::from_string(&String::from("Q(0)")).err().expect("No err for Q(0)");
    let _result = ONBasis::from_string(&String::from("P(00)")).err().expect("No err for P(00)");
    let _result = ONBasis::from_string(&String::from("P(01)")).err().expect("No err for P(01)");
    let _result = ONBasis::from_string(&String::from("P(-0)")).err().expect("No err for P(-0)");
    let _result = ONBasis::from_string(&String::from("P(1.0)")).err().expect("No err for P(1.0)");
    let _result = ONBasis::from_string(&String::from("P(A)")).err().expect("No err for P(A)");
}

#[test]
pub fn round_trip_basis_text() {
    let cases = vec![ONBasis::P(0), ONBasis::Z(7), ONBasis::N(12), ONBasis::P(1000000)];
    for b in cases {
        let text = b.to_string();
        let back = ONBasis::from_string(&text).expect("round trip failed");
        assert_eq!(back, b);
    }
    assert_eq!(ONBasis::P(10).to_string(), String::from("P(10)"));
    assert_eq!(ONBasis::N(0).to_string(), String::from("N(0)"));
}

#[test]
pub fn signature_predicates_match() {
    assert!(ONBasis::P(3).is_pos());
    assert!(!ONBasis::P(3).is_zero());
    assert!(!ONBasis::P(3).is_neg());
    assert!(ONBasis::Z(3).is_zero());
    assert!(ONBasis::N(3).is_neg());
    assert_eq!(ONBasis::P(3).sqr(), 1);
    assert_eq!(ONBasis::Z(3).sqr(), 0);
    assert_eq!(ONBasis::N(3).sqr(), -1);
    assert_eq!(ONBasis::N(9).unwrap(), 9);
}
