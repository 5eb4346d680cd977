//! The library on hand-made documents.

use composed::order::{place, same, Place};
use composed::table::Table;
use composed::text::{find, find_last, list, split_once};
use composed::{Compose, Image, RawCompose, RawEnvironment, RawService, Scalar, Service};

fn service(image: Option<&str>, environment: Option<RawEnvironment>) -> RawService {
    RawService { image: image.map(str::to_string), environment }
}

fn variables(entries: &[&str]) -> RawEnvironment {
    RawEnvironment::List(entries.iter().map(|entry| entry.to_string()).collect())
}

fn compose(services: Vec<(&str, RawService)>) -> Compose {
    let services = services.into_iter().map(|(name, raw)| (name.to_string(), raw)).collect();
    Compose::from_raw("dir/compose.yaml", RawCompose { services })
}

fn parts(reference: &str) -> (String, Option<String>, Option<String>) {
    let image = Image::parse(reference, "s", "f");
    assert_eq!(image.reference(), reference);
    (
        image.name().to_string(),
        image.try_tag().ok().map(str::to_string),
        image.digest().map(str::to_string),
    )
}

fn some(text: &str) -> Option<String> {
    Some(text.to_string())
}

#[test]
fn references_are_split() {
    assert_eq!(parts("postgres"), ("postgres".to_string(), None, None));
    assert_eq!(parts("a/b/c:1@d"), ("a/b/c".to_string(), some("1"), some("d")));
    assert_eq!(parts("h:1/a:2/b"), ("h:1/a:2/b".to_string(), None, None));
    assert_eq!(parts("h:1/a:2:3"), ("h:1/a:2".to_string(), some("3"), None));
    assert_eq!(parts("a@b@c:d/e"), ("a".to_string(), None, some("b@c:d/e")));
    assert_eq!(parts(""), (String::new(), None, None));
    assert_eq!(parts("/"), ("/".to_string(), None, None));
    assert_eq!(parts(":1"), (String::new(), some("1"), None));
}

#[test]
fn separators_that_nothing_follows_belong_to_no_part() {
    assert_eq!(parts("image:"), ("image".to_string(), None, None));
    assert_eq!(parts("image@"), ("image".to_string(), None, None));
    assert_eq!(parts("image:@"), ("image".to_string(), None, None));
    assert_eq!(parts("image:1@"), ("image".to_string(), some("1"), None));
    assert_eq!(parts("image:@d"), ("image".to_string(), None, some("d")));
}

#[test]
fn references_outside_ascii_are_split() {
    assert_eq!(parts("häfen:5/büro:ü@ß"), ("häfen:5/büro".to_string(), some("ü"), some("ß")));
}

#[test]
fn a_registry_belongs_to_the_name() {
    for registry in ["", "localhost:5000", "r:1/n:2", ":"] {
        for reference in ["image", "image:1", "n:3/image:1@d", "image@d", "image:", "@d/e:f", ""] {
            let (name, tag, digest) = parts(reference);
            assert_eq!(
                parts(&format!("{}/{}", registry, reference)),
                (format!("{}/{}", registry, name), tag, digest)
            );
        }
    }
}

#[test]
fn assembled_parts_are_found() {
    for name in ["a", "r:1/a", "r/n/a"] {
        for tag in [None, Some("1.2"), Some("latest")] {
            for digest in [None, Some("sha256:abc"), Some("x@y")] {
                let mut reference = name.to_string();
                if let Some(tag) = tag {
                    reference = format!("{}:{}", reference, tag);
                }
                if let Some(digest) = digest {
                    reference = format!("{}@{}", reference, digest);
                }
                assert_eq!(
                    parts(&reference),
                    (name.to_string(), tag.map(str::to_string), digest.map(str::to_string))
                );
            }
        }
    }
}

#[test]
fn images_are_equal_by_reference_service_and_file() {
    let image = Image::parse("a:1", "s", "f");
    let copy = image;
    assert!(image == copy);
    assert!(image == Image::parse("a:1", "s", "f"));
    assert!(image != Image::parse("a:2", "s", "f"));
    assert!(image != Image::parse("a:1", "t", "f"));
    assert!(image != Image::parse("a:1", "s", "g"));
}

#[test]
fn a_missing_tag_is_reported() {
    assert_eq!(
        Image::parse("a@d", "db", "f.yaml").try_tag(),
        Err("image `a@d` of service `db` in f.yaml has no tag".to_string())
    );
}

#[test]
fn a_missing_image_is_reported() {
    let compose = compose(vec![("built", service(None, None))]);
    assert_eq!(
        compose.service("built").try_image(),
        Err("service `built` in dir/compose.yaml declares no image".to_string())
    );
}

#[test]
fn a_missing_value_is_reported() {
    let compose = compose(vec![
        ("s", service(None, Some(variables(&["Q=1", "A", "C"])))),
        ("t", service(None, Some(variables(&["A"])))),
    ]);
    assert_eq!(
        compose.service("s").try_env("A"),
        Err("environment variable `A` of service `s` in dir/compose.yaml has no value; a value \
             passed through from the host cannot be read statically; known variables: [A, C, Q]"
            .to_string())
    );
    assert_eq!(
        compose.service("t").try_env("A"),
        Err("environment variable `A` of service `t` in dir/compose.yaml has no value; a value \
             passed through from the host cannot be read statically; known variables: [A]"
            .to_string())
    );
}

#[test]
fn an_unknown_variable_is_reported() {
    let compose = compose(vec![
        ("s", service(None, Some(variables(&["C=", "A", "B=2"])))),
        ("t", service(None, None)),
    ]);
    assert_eq!(
        compose.service("s").try_env("D"),
        Err("no environment variable `D` for service `s` in dir/compose.yaml; known variables: \
             [A, B, C]"
            .to_string())
    );
    assert_eq!(
        compose.service("t").try_env("D"),
        Err("no environment variable `D` for service `t` in dir/compose.yaml; known variables: []"
            .to_string())
    );
}

#[test]
fn an_unknown_service_is_reported() {
    let compose = compose(vec![("b", service(None, None)), ("a", service(None, None))]);
    match compose.try_service("c") {
        Ok(_) => panic!("not declared"),
        Err(report) => assert_eq!(
            report,
            "no service `c` in dir/compose.yaml; known services: [a, b]"
        ),
    }
}

#[test]
fn an_invalid_file_is_reported() {
    match Compose::from_document("f.yaml", Err("line 1".to_string())) {
        Ok(_) => panic!("not readable"),
        Err(report) => assert_eq!(report, "f.yaml is not a valid Compose file: line 1"),
    }
}

#[test]
fn the_reader_is_handed_the_contents() {
    let parsed = Compose::parse("f.yaml", "contents", |yaml: &str| {
        Ok(RawCompose { services: vec![(yaml.to_string(), service(Some(yaml), None))] })
    });
    match parsed {
        Ok(compose) => {
            assert_eq!(compose.service_names(), ["contents"]);
            assert_eq!(compose.image("contents").reference(), "contents");
        }
        Err(report) => panic!("{}", report),
    }
}

#[test]
fn services_are_found_under_their_names() {
    let compose = compose(vec![
        ("web", service(Some("nginx:1"), Some(variables(&["A=1"])))),
        ("db", service(Some("postgres:18"), None)),
    ]);
    assert_eq!(compose.service_names(), ["db", "web"]);
    for name in compose.service_names() {
        assert_eq!(compose.service(name).name(), name);
    }
    assert_eq!(compose.image("web"), compose.service("web").image());
    assert_eq!(compose.image("web").name_and_tag(), ("nginx", "1"));
    assert_eq!(compose.service("web").env("A"), "1");
    assert_eq!(compose.image("db").tag(), "18");
    assert!(compose.try_service("d").is_err());
}

#[test]
fn the_last_declaration_counts() {
    let compose = compose(vec![
        ("s", service(Some("a:1"), Some(variables(&["A=1"])))),
        ("t", service(None, None)),
        ("s", service(Some("a:2"), Some(variables(&["B=1", "B=2", "C=1", "C"])))),
    ]);
    assert_eq!(compose.service_names(), ["s", "t"]);
    let service = compose.service("s");
    assert_eq!(service.image().tag(), "2");
    assert_eq!(service.env_keys(), ["B", "C"]);
    assert_eq!(service.env("B"), "2");
    assert!(service.try_env("C").is_err());
}

#[test]
fn the_order_of_declarations_is_irrelevant() {
    let names = ["c", "a", "b", "ab", "B", ""];
    let there = compose(names.iter().map(|name| (*name, service(Some(name), None))).collect());
    let back = compose(names.iter().rev().map(|name| (*name, service(Some(name), None))).collect());
    assert_eq!(there.service_names(), ["", "B", "a", "ab", "b", "c"]);
    assert_eq!(back.service_names(), there.service_names());
    for name in names {
        assert_eq!(there.image(name), back.image(name));
    }
}

#[test]
fn list_entries_are_split_at_the_first_equals_sign() {
    let compose = compose(vec![(
        "s",
        service(None, Some(variables(&["A=b=c", "D=", "=e", "F"]))),
    )]);
    let service = compose.service("s");
    assert_eq!(service.env_keys(), ["", "A", "D", "F"]);
    assert_eq!(service.env("A"), "b=c");
    assert_eq!(service.env("D"), "");
    assert_eq!(service.env(""), "e");
    assert!(service.try_env("F").is_err());
}

#[test]
fn mapping_entries_keep_key_and_value() {
    let environment = RawEnvironment::Mapping(vec![
        ("B=C".to_string(), Some(Scalar::from_text("1.50"))),
        ("A".to_string(), None),
        ("N".to_string(), Some(Scalar::from_i64(-3))),
    ]);
    let service = Service::from_raw("f", "s", service(None, Some(environment)));
    assert_eq!(service.env_keys(), ["A", "B=C", "N"]);
    assert_eq!(service.env("B=C"), "1.50");
    assert_eq!(service.env("N"), "-3");
    assert!(service.try_env("A").is_err());
}

#[test]
fn scalars_are_rendered() {
    assert_eq!(Scalar::from_text("  1.50 ").0, "  1.50 ");
    assert_eq!(Scalar::from_bool(true).0, "true");
    assert_eq!(Scalar::from_bool(false).0, "false");
    for value in [0, 1, 9, 10, 11, 99, 100, 5432, i64::MAX, -1, -10, -987, i64::MIN] {
        assert_eq!(Scalar::from_i64(value).0, value.to_string());
    }
    for value in [0, 7, 10, 1000, 65535, u64::MAX] {
        assert_eq!(Scalar::from_u64(value).0, value.to_string());
    }
}

#[test]
fn different_numbers_are_rendered_differently() {
    assert_ne!(Scalar::from_i64(1).0, Scalar::from_i64(-1).0);
    assert_ne!(Scalar::from_i64(1).0, Scalar::from_i64(10).0);
    assert_eq!(Scalar::from_i64(12).0, Scalar::from_u64(12).0);
}

#[test]
fn clones_are_equal() {
    let compose = compose(vec![
        ("s", service(Some("a:1"), Some(variables(&["A=1", "B"])))),
        ("t", service(None, None)),
    ]);
    let clone = compose.clone();
    assert_eq!(clone.service_names(), ["s", "t"]);
    assert_eq!(clone.image("s"), compose.image("s"));
    let service = compose.service("s").clone();
    assert_eq!(service.name(), "s");
    assert_eq!(service.env_keys(), ["A", "B"]);
    assert_eq!(service.env("A"), "1");
    assert!(clone.service("t").try_image().is_err());
}

#[test]
fn services_are_shown_as_maps() {
    let compose = compose(vec![
        ("t", service(None, None)),
        ("s", service(Some("a:1"), Some(variables(&["B", "A=1"])))),
    ]);
    assert_eq!(
        format!("{:?}", compose),
        "Compose { source: \"dir/compose.yaml\", services: {\"s\": Service { source: \
         \"dir/compose.yaml\", name: \"s\", image: Some(\"a:1\"), environment: {\"A\": Some(\"1\"), \
         \"B\": None} }, \"t\": Service { source: \"dir/compose.yaml\", name: \"t\", image: None, \
         environment: {} }} }"
    );
    assert_eq!(
        format!("{:#?}", compose.service("t")),
        "Service {\n    source: \"dir/compose.yaml\",\n    name: \"t\",\n    image: None,\n    \
         environment: {},\n}"
    );
    assert_eq!(
        format!("{:?}", compose.image("s")),
        "Image { reference: \"a:1\", name: \"a\", tag: Some(\"1\"), digest: None, service: \"s\", \
         source: \"dir/compose.yaml\" }"
    );
}

#[test]
fn names_are_ordered_as_strings_are() {
    let names = ["", "A", "B", "a", "a=", "aa", "ab", "b", "z", "ß", "é", "\u{ff5e}", "\u{1f40b}"];
    for a in names {
        for b in names {
            assert_eq!(same(a, b), a == b);
            assert_eq!(matches!(place(a, b), Place::Before), a < b);
            assert_eq!(matches!(place(a, b), Place::After), a > b);
        }
    }
}

#[test]
fn a_table_keeps_its_names_in_order() {
    let mut table: Table<Option<String>> = Table::new();
    assert_eq!(table.names().len(), 0);
    assert!(table.get("a").is_none());
    for name in ["m", "c", "x", "a", "m", "z", "b"] {
        table = table.with(name.to_string(), Some(format!("{}!", name)));
    }
    table = table.with("c".to_string(), None);
    assert_eq!(table.names(), ["a", "b", "c", "m", "x", "z"]);
    assert_eq!(table.get("m"), Some(&some("m!")));
    assert_eq!(table.get("c"), Some(&None));
    assert_eq!(table.get("d"), None);
    assert_eq!(table.clone().names(), table.names());
}

#[test]
fn text_is_searched_split_and_listed() {
    assert_eq!(find("aßcß", 'ß'), Some(1));
    assert_eq!(find("aßcß", 'x'), None);
    assert_eq!(find_last("aßcß", 'ß'), Some(3));
    assert_eq!(find_last("", 'ß'), None);
    assert_eq!(split_once("ü=ö=ä", '='), Some(("ü", "ö=ä")));
    assert_eq!(split_once("=", '='), Some(("", "")));
    assert_eq!(split_once("ü", '='), None);
    assert_eq!(list(&vec![]), "");
    assert_eq!(list(&vec!["a"]), "a");
    assert_eq!(list(&vec!["a", "", "b"]), "a, , b");
}
