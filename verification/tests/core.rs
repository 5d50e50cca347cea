use chenv::errors::ChenvError;
use chenv::interpol::Env;
use chenv::interpol::InterpolableString;
use chenv::resolver::order_dependencies_gen;
use chenv::substrate::Substrate;
use std::collections::HashMap;

fn make_table(
    values: &[&str],
    deps: &HashMap<&str, Vec<&str>>,
) -> (Vec<String>, Vec<(String, Vec<String>)>) {
    let names: Vec<String> = values.iter().map(|v| v.to_string()).collect();
    let table: Vec<(String, Vec<String>)> = values
        .iter()
        .map(|k| {
            (
                k.to_string(),
                deps.get(k)
                    .expect("All keys should be in deps")
                    .iter()
                    .map(|v| v.to_string())
                    .collect(),
            )
        })
        .collect();
    (names, table)
}

fn as_strs(v: &[String]) -> Vec<&str> {
    v.iter().map(|s| s.as_str()).collect()
}

#[test]
fn test_order_dependencies_same_length_path() {
    let a = "a";
    let b = "b";
    let c = "c";
    let d = "d";
    let e = "e";

    let values = vec![a, b, c, d, e];
    let deps = vec![
        (e, vec![b, c]),
        (b, vec![d]),
        (c, vec![d]),
        (d, vec![a]),
        (a, vec![]),
    ]
    .into_iter()
    .collect::<HashMap<_, _>>();

    let (names, table) = make_table(&values, &deps);
    let result = order_dependencies_gen(&names, &table).unwrap();
    let result = as_strs(&result);

    assert!(result == vec!["a", "d", "c", "b", "e"] || result == vec!["a", "d", "b", "c", "e"]);
}

#[test]
fn test_order_dependencies_diff_length_path() {
    let a = "a";
    let b = "b";
    let c = "c";
    let d = "d";
    let e = "e";
    let f = "f";

    let values = vec![f, e, d, c, b, a];
    let deps = vec![
        (e, vec![f]),
        (b, vec![e]),
        (f, vec![]),
        (a, vec![b, c]),
        (d, vec![e]),
        (c, vec![d]),
    ]
    .into_iter()
    .collect::<HashMap<_, _>>();

    let (names, table) = make_table(&values, &deps);
    let result = order_dependencies_gen(&names, &table).unwrap();
    let result = as_strs(&result);

    assert!(
        result == vec!["f", "e", "d", "c", "b", "a"]
            || result == vec!["f", "e", "d", "b", "c", "a"]
    );
}

#[test]
fn test_order_dependencies_2_roots() {
    let a = "a";
    let b = "b";
    let c = "c";
    let d = "d";
    let e = "e";

    let values = vec![e, c, d, b, a];
    let deps = vec![
        (e, vec![]),
        (b, vec![d]),
        (a, vec![c]),
        (d, vec![c]),
        (c, vec![e]),
    ]
    .into_iter()
    .collect::<HashMap<_, _>>();

    let (names, table) = make_table(&values, &deps);
    let result = order_dependencies_gen(&names, &table).unwrap();
    let result = as_strs(&result);

    assert!(result == vec!["e", "c", "d", "b", "a"] || result == vec!["e", "c", "d", "a", "b"]);
}

#[test]
fn test_order_dependencies_cycle() {
    let a = "a";
    let b = "b";
    let c = "c";
    let d = "d";
    let e = "e";

    let values = vec![e, c, d, b, a];
    let deps = vec![
        (e, vec![d]),
        (b, vec![d]),
        (a, vec![c]),
        (d, vec![c]),
        (c, vec![e]),
    ]
    .into_iter()
    .collect::<HashMap<_, _>>();

    let (names, table) = make_table(&values, &deps);
    let result = order_dependencies_gen(&names, &table);

    assert!(result.is_err());
}

#[test]
fn test_interpolate() {
    let mut env = Env::new();
    env.insert("FOO".to_string(), Substrate::new("bar".to_string()));
    env.insert("BAZ".to_string(), Substrate::new("qux".to_string()));
    assert_eq!(env.interpolate_str("hello ${FOO}").unwrap(), "hello bar");
    assert_eq!(
        env.interpolate_str("hello ${FOO} ${BAZ}").unwrap(),
        "hello bar qux"
    );
    assert!(env.interpolate_str("hello ${FOO} ${BAZ} ${QUUX}").is_err());
}

#[test]
fn order_is_deterministic_across_runs() {
    // Ties among independent names go by position in the input, so two runs
    // on the same input give the same order.
    let names: Vec<String> = vec!["x".into(), "y".into(), "z".into()];
    let table: Vec<(String, Vec<String>)> = vec![
        ("x".to_string(), vec![]),
        ("y".to_string(), vec![]),
        ("z".to_string(), vec!["x".to_string()]),
    ];
    let first = order_dependencies_gen(&names, &table).unwrap();
    let second = order_dependencies_gen(&names, &table).unwrap();
    assert_eq!(first, second);
    assert_eq!(first, vec!["x".to_string(), "y".to_string(), "z".to_string()]);
}

#[test]
fn interpolate_template_both_ways() {
    let mut env = Env::new();
    env.insert("FOO".to_string(), Substrate::new("bar".to_string()));
    let t = InterpolableString::new("v=${FOO}".to_string());
    assert_eq!(t.interpolate(&env).unwrap(), "v=bar");
    assert_eq!(env.interpolate(&t).unwrap(), "v=bar");
}

#[test]
fn interpolate_joins_two_placeholders() {
    let mut env = Env::new();
    env.insert("FOO".to_string(), Substrate::new("a".to_string()));
    env.insert("BAR".to_string(), Substrate::new("b".to_string()));
    assert_eq!(env.interpolate_str("${FOO}-${BAR}").unwrap(), "a-b");
}

#[test]
fn interpolate_missing_variable_is_reported() {
    let env = Env::new();
    let err = env.interpolate_str("${MISSING}").unwrap_err();
    assert!(matches!(err, ChenvError::MissingVariable(ref e) if e == "MISSING"));
}

#[test]
fn interpolate_unterminated_placeholder_fails() {
    let mut env = Env::new();
    env.insert("FOO".to_string(), Substrate::new("bar".to_string()));
    let err = env.interpolate_str("x ${FOO").unwrap_err();
    assert!(matches!(err, ChenvError::UnterminatedPlaceholder));
}

#[test]
fn get_variables_keeps_occurrence_order_and_duplicates() {
    let t = InterpolableString::new("x${a}y${b.c.d}z${a}".to_string());
    let vars = t.get_variables().unwrap();
    assert_eq!(vars, vec!["a".to_string(), "b".to_string(), "a".to_string()]);
}

#[test]
fn get_variables_unterminated_fails() {
    let t = InterpolableString::new("x${never".to_string());
    assert!(matches!(
        t.get_variables().unwrap_err(),
        ChenvError::UnterminatedPlaceholder
    ));
}

#[test]
fn lone_dollar_is_literal_text() {
    // A `$` not followed by `{` is literal text: it references no variable
    // and appears verbatim in the output, a trailing `$` included.
    let t = InterpolableString::new("a$bc${x}".to_string());
    let vars = t.get_variables().unwrap();
    assert_eq!(vars, vec!["x".to_string()]);
    let mut env = Env::new();
    env.insert("x".to_string(), Substrate::new("X".to_string()));
    assert_eq!(env.interpolate_str("a$bc${x}").unwrap(), "a$bcX");
    assert_eq!(env.interpolate_str("$x").unwrap(), "$x");
    assert_eq!(env.interpolate_str("${x}$").unwrap(), "X$");
    // A `$` right before a placeholder leaves the placeholder intact.
    assert_eq!(env.interpolate_str("$${x}").unwrap(), "$X");
    let t2 = InterpolableString::new("$${x}".to_string());
    assert_eq!(t2.get_variables().unwrap(), vec!["x".to_string()]);
}
