use raytracer::builder::{
    extract_optional, get_fields, optional, parse_errors, parse_repeated, plan, supported,
    Attribute, Field, Input, Literal, Nested, Plan, EXPECTED_EACH,
};

fn each(name: &str) -> Attribute {
    Attribute::Builder(vec![Nested::NameValue {
        each: true,
        value: Literal::Text(name.to_string()),
    }])
}

fn misnamed() -> Attribute {
    Attribute::Builder(vec![Nested::NameValue {
        each: false,
        value: Literal::Text("arg".to_string()),
    }])
}

fn field(name: &str, options: Vec<bool>, attrs: Vec<Attribute>) -> Field {
    Field { name: Some(name.to_string()), options, attrs }
}

#[test]
fn no_attribute_means_no_repeated_setter() {
    assert_eq!(parse_repeated(&Vec::new()), Ok(None));
    assert_eq!(parse_repeated(&vec![Attribute::Other, Attribute::Other]), Ok(None));
    assert_eq!(parse_repeated(&vec![Attribute::Builder(Vec::new())]), Ok(None));
}

#[test]
fn each_names_the_repeated_setter() {
    assert_eq!(parse_repeated(&vec![each("arg")]), Ok(Some("arg".to_string())));
    assert_eq!(
        parse_repeated(&vec![Attribute::Other, each("env")]),
        Ok(Some("env".to_string()))
    );
}

#[test]
fn another_name_is_an_error_at_its_attribute() {
    assert_eq!(parse_repeated(&vec![misnamed()]), Err(0));
    assert_eq!(parse_repeated(&vec![Attribute::Other, misnamed()]), Err(1));
}

#[test]
fn the_first_entry_that_speaks_decides() {
    assert_eq!(parse_repeated(&vec![each("a"), misnamed()]), Ok(Some("a".to_string())));
    assert_eq!(parse_repeated(&vec![misnamed(), each("a")]), Err(0));
    assert_eq!(parse_repeated(&vec![each("a"), each("b")]), Ok(Some("a".to_string())));
    let mixed = Attribute::Builder(vec![
        Nested::Other,
        Nested::NameValue { each: true, value: Literal::Other },
        Nested::NameValue { each: true, value: Literal::Text("x".to_string()) },
        Nested::NameValue { each: false, value: Literal::Other },
    ]);
    assert_eq!(parse_repeated(&vec![mixed]), Ok(Some("x".to_string())));
}

#[test]
fn each_without_text_says_nothing() {
    let silent = Attribute::Builder(vec![Nested::NameValue { each: true, value: Literal::Other }]);
    assert_eq!(parse_repeated(&vec![silent]), Ok(None));
    let then_wrong = Attribute::Builder(vec![
        Nested::NameValue { each: true, value: Literal::Other },
        Nested::NameValue { each: false, value: Literal::Other },
    ]);
    assert_eq!(parse_repeated(&vec![Attribute::Other, then_wrong]), Err(1));
}

#[test]
fn optional_reads_the_chain() {
    // Option<Vec<String>>
    let chain = vec![true, false, false];
    assert!(optional(&chain, 0));
    assert!(!optional(&chain, 1));
    assert!(!optional(&chain, 3));
    assert_eq!(extract_optional(&chain, 0), Some(1));
    assert_eq!(extract_optional(&chain, 1), Some(2));
    assert_eq!(extract_optional(&chain, 2), None);
    assert_eq!(extract_optional(&Vec::new(), 0), None);
}

#[test]
fn supported_asks_for_named_fields_with_whole_types() {
    assert!(supported(&Input::Named(Vec::new())));
    assert!(supported(&Input::Named(vec![field("a", vec![false], Vec::new())])));
    assert!(supported(&Input::Named(vec![field("a", vec![true, false], Vec::new())])));
    assert!(!supported(&Input::Named(vec![field("a", vec![true], Vec::new())])));
    assert!(!supported(&Input::Named(vec![field("a", Vec::new(), Vec::new())])));
    assert!(!supported(&Input::Named(vec![Field {
        name: None,
        options: vec![false],
        attrs: Vec::new()
    }])));
    assert!(!supported(&Input::Unnamed));
    assert!(!supported(&Input::NotStruct));
}

#[test]
fn fields_and_plans_of_a_command() {
    // executable: String, args: Vec<String> with each = "arg",
    // env: Vec<String> with a misnamed attribute, current_dir: Option<String>
    let input = Input::Named(vec![
        field("executable", vec![false], Vec::new()),
        field("args", vec![false, false], vec![each("arg")]),
        field("env", vec![false, false], vec![misnamed()]),
        field("current_dir", vec![true, false], Vec::new()),
    ]);
    assert!(supported(&input));
    let fields = get_fields(&input);
    assert_eq!(fields.len(), 4);
    assert_eq!(fields[0].name, "executable");
    assert_eq!((fields[0].ty, fields[0].optional), (0, false));
    assert_eq!(fields[0].repeated, Ok(None));
    assert_eq!(fields[1].repeated, Ok(Some("arg".to_string())));
    assert_eq!(fields[2].repeated, Err(0));
    assert_eq!(fields[3].name, "current_dir");
    assert_eq!((fields[3].ty, fields[3].optional), (1, true));

    let errors = parse_errors(&fields).unwrap();
    assert_eq!(errors.len(), 1);
    assert_eq!((errors[0].field, errors[0].attribute), (2, 0));

    assert!(matches!(plan(&fields[0], &vec![false]), Plan::Required));
    assert!(matches!(plan(&fields[3], &vec![true, false]), Plan::Optional));
    match plan(&fields[1], &vec![false, false]) {
        Plan::Repeated { each, element } => {
            assert_eq!(each, "arg");
            assert_eq!(element, 1);
        }
        _ => panic!("args is filled one element at a time"),
    }
}

#[test]
fn optional_repeated_field_takes_the_element_of_the_inner_type() {
    let input = Input::Named(vec![field("tags", vec![true, false, false], vec![each("tag")])]);
    let fields = get_fields(&input);
    assert_eq!((fields[0].ty, fields[0].optional), (1, true));
    match plan(&fields[0], &vec![true, false, false]) {
        Plan::Repeated { each, element } => {
            assert_eq!(each, "tag");
            assert_eq!(element, 2);
        }
        _ => panic!("tags is filled one element at a time"),
    }
}

#[test]
fn fields_in_order_have_no_errors() {
    let input = Input::Named(vec![
        field("a", vec![false], Vec::new()),
        field("b", vec![false, false], vec![each("one")]),
    ]);
    assert!(parse_errors(&get_fields(&input)).is_none());
    assert!(parse_errors(&Vec::new()).is_none());
}

#[test]
fn errors_come_in_field_order() {
    let input = Input::Named(vec![
        field("a", vec![false], vec![Attribute::Other, misnamed()]),
        field("b", vec![false], Vec::new()),
        field("c", vec![false], vec![misnamed()]),
    ]);
    let errors = parse_errors(&get_fields(&input)).unwrap();
    let places: Vec<(usize, usize)> = errors.iter().map(|e| (e.field, e.attribute)).collect();
    assert_eq!(places, vec![(0, 1), (2, 0)]);
}

#[test]
fn the_message_names_the_expected_form() {
    assert_eq!(EXPECTED_EACH, "expected `builder(each = \"...\")`");
}
