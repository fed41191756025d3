use dyard::yaml::{
    deep_merge, deep_merge_yaml, find_key, map_insert_exec, mapping, parse_or_string, render_yaml,
    sequence, set_nested_value, str_entry, str_value, yaml_copy, yaml_eq, Yaml, YamlTag,
};

fn chars(s: &str) -> Vec<char> {
    s.chars().collect()
}

fn lookup<'a>(y: &'a Yaml, key: &str) -> Option<&'a Yaml> {
    match y {
        Yaml::Mapping(es) => find_key(es, &str_value(key)).map(|i| &es[i].value),
        _ => None,
    }
}

#[test]
fn a_written_path_reads_back() {
    let mut y = mapping(vec![str_entry("keep", str_value("x"))]);
    assert_eq!(set_nested_value(&mut y, "tls.options.min", str_value("1.2")), Ok(()));
    let tls = lookup(&y, "tls").unwrap();
    let options = lookup(tls, "options").unwrap();
    assert!(yaml_eq(lookup(options, "min").unwrap(), &str_value("1.2")));
    assert!(yaml_eq(lookup(&y, "keep").unwrap(), &str_value("x")));
    assert_eq!(render_yaml(&y), "keep: x\ntls:\n  options:\n    min: '1.2'\n");
}

#[test]
fn writing_through_a_scalar_fails() {
    let mut y = mapping(vec![str_entry("a", str_value("scalar"))]);
    assert_eq!(
        set_nested_value(&mut y, "a.b", Yaml::Bool(true)),
        Err("Expected mapping at config node".to_string())
    );
    assert_eq!(render_yaml(&y), "a: scalar\n");
    let mut s = str_value("top");
    assert!(set_nested_value(&mut s, "k", Yaml::Null).is_err());
    assert!(yaml_eq(&s, &str_value("top")));
}

#[test]
fn later_values_win_in_a_mapping() {
    let mut es = vec![str_entry("a", str_value("1"))];
    map_insert_exec(&mut es, str_value("b"), str_value("2"));
    map_insert_exec(&mut es, str_value("a"), str_value("3"));
    assert_eq!(es.len(), 2);
    assert_eq!(find_key(&es, &str_value("a")), Some(0));
    assert!(yaml_eq(&es[0].value, &str_value("3")));
    assert_eq!(find_key(&es, &str_value("zzz")), None);
}

#[test]
fn deep_merge_merges_mappings_and_replaces_the_rest() {
    let base = parse_or_string(&chars("a:\n  x: 1\n  y: 2\nb: [1]\n"));
    let overlay = parse_or_string(&chars("a:\n  y: 3\n  z: 4\nb: [2]\nc: new\n"));
    let merged = deep_merge(base, overlay);
    assert_eq!(render_yaml(&merged), "a:\n  x: 1\n  y: 3\n  z: 4\nb:\n- 2\nc: new\n");
    let mut target = str_value("scalar");
    deep_merge_yaml(&mut target, mapping(vec![]));
    assert_eq!(render_yaml(&target), "{}\n");
}

#[test]
fn copies_are_equal() {
    let y = sequence(vec![Yaml::Null, Yaml::Bool(false), Yaml::Number("42".to_string()), str_value("s")]);
    let c = yaml_copy(&y);
    assert!(yaml_eq(&y, &c));
    assert!(!yaml_eq(&y, &Yaml::Null));
}

#[test]
fn text_that_is_not_yaml_stays_a_string() {
    assert!(yaml_eq(&parse_or_string(&chars("[unclosed")), &str_value("[unclosed")));
    assert!(yaml_eq(&parse_or_string(&chars("7")), &Yaml::Number("7".to_string())));
    assert!(yaml_eq(&parse_or_string(&chars("true")), &Yaml::Bool(true)));
    assert!(yaml_eq(&parse_or_string(&chars("Host(`x`)")), &str_value("Host(`x`)")));
}

#[test]
fn tags_are_never_empty() {
    assert!(YamlTag::new(String::new()).is_none());
    let t = YamlTag::new("!Ref".to_string()).unwrap();
    assert_eq!(t.as_string(), "!Ref");
    let tagged = parse_or_string(&chars("!Ref name"));
    match tagged {
        Yaml::Tagged(tag, inner) => {
            assert_eq!(tag.as_string(), "!Ref");
            assert!(yaml_eq(&inner, &str_value("name")));
        }
        _ => panic!("expected a tagged value"),
    }
}
