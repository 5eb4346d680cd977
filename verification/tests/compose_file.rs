//! Compose files from YAML to lookups.

use composed::{Compose, RawCompose, RawEnvironment, RawService, Scalar};
use serde::de::{Deserialize, Deserializer, Error, IgnoredAny, MapAccess, SeqAccess, Visitor};
use std::collections::BTreeMap;
use std::fmt;

const SOURCE: &str = "test.yaml";

/// A Compose file as the YAML reader hands it over.
struct File(RawCompose);

struct FileVisitor;

impl<'de> Visitor<'de> for FileVisitor {
    type Value = File;

    fn expecting(&self, f: &mut fmt::Formatter<'_>) -> fmt::Result {
        f.write_str("a Compose file")
    }

    fn visit_map<A: MapAccess<'de>>(self, mut map: A) -> Result<File, A::Error> {
        let mut services: Option<BTreeMap<String, Declaration>> = None;
        while let Some(key) = map.next_key::<String>()? {
            if key == "services" {
                if services.is_some() {
                    return Err(A::Error::duplicate_field("services"));
                }
                services = Some(map.next_value()?);
            } else {
                map.next_value::<IgnoredAny>()?;
            }
        }
        let services = services.ok_or_else(|| A::Error::missing_field("services"))?;
        Ok(File(RawCompose {
            services: services.into_iter().map(|(name, service)| (name, service.0)).collect(),
        }))
    }
}

impl<'de> Deserialize<'de> for File {
    fn deserialize<D: Deserializer<'de>>(deserializer: D) -> Result<Self, D::Error> {
        deserializer.deserialize_map(FileVisitor)
    }
}

struct Declaration(RawService);

struct DeclarationVisitor;

impl<'de> Visitor<'de> for DeclarationVisitor {
    type Value = Declaration;

    fn expecting(&self, f: &mut fmt::Formatter<'_>) -> fmt::Result {
        f.write_str("a service")
    }

    fn visit_map<A: MapAccess<'de>>(self, mut map: A) -> Result<Declaration, A::Error> {
        let mut image: Option<Option<String>> = None;
        let mut environment: Option<Option<Environment>> = None;
        while let Some(key) = map.next_key::<String>()? {
            if key == "image" {
                if image.is_some() {
                    return Err(A::Error::duplicate_field("image"));
                }
                image = Some(map.next_value()?);
            } else if key == "environment" {
                if environment.is_some() {
                    return Err(A::Error::duplicate_field("environment"));
                }
                environment = Some(map.next_value()?);
            } else {
                map.next_value::<IgnoredAny>()?;
            }
        }
        Ok(Declaration(RawService {
            image: image.unwrap_or_default(),
            environment: environment.unwrap_or_default().map(|environment| environment.0),
        }))
    }
}

impl<'de> Deserialize<'de> for Declaration {
    fn deserialize<D: Deserializer<'de>>(deserializer: D) -> Result<Self, D::Error> {
        deserializer.deserialize_map(DeclarationVisitor)
    }
}

struct Environment(RawEnvironment);

struct EnvironmentVisitor;

impl<'de> Visitor<'de> for EnvironmentVisitor {
    type Value = Environment;

    fn expecting(&self, f: &mut fmt::Formatter<'_>) -> fmt::Result {
        f.write_str("a mapping or a list")
    }

    fn visit_map<A: MapAccess<'de>>(self, mut map: A) -> Result<Environment, A::Error> {
        let mut entries = Vec::new();
        while let Some((key, value)) = map.next_entry::<String, Option<Value>>()? {
            entries.push((key, value.map(|value| value.0)));
        }
        Ok(Environment(RawEnvironment::Mapping(entries)))
    }

    fn visit_seq<A: SeqAccess<'de>>(self, mut seq: A) -> Result<Environment, A::Error> {
        let mut entries = Vec::new();
        while let Some(entry) = seq.next_element::<String>()? {
            entries.push(entry);
        }
        Ok(Environment(RawEnvironment::List(entries)))
    }
}

impl<'de> Deserialize<'de> for Environment {
    fn deserialize<D: Deserializer<'de>>(deserializer: D) -> Result<Self, D::Error> {
        deserializer.deserialize_any(EnvironmentVisitor)
    }
}

struct Value(Scalar);

struct ValueVisitor;

impl<'de> Visitor<'de> for ValueVisitor {
    type Value = Value;

    fn expecting(&self, f: &mut fmt::Formatter<'_>) -> fmt::Result {
        f.write_str("a string, integer, float or boolean")
    }

    fn visit_str<E: Error>(self, value: &str) -> Result<Value, E> {
        Ok(Value(Scalar::from_text(value)))
    }

    fn visit_i64<E: Error>(self, value: i64) -> Result<Value, E> {
        Ok(Value(Scalar::from_i64(value)))
    }

    fn visit_u64<E: Error>(self, value: u64) -> Result<Value, E> {
        Ok(Value(Scalar::from_u64(value)))
    }

    fn visit_f64<E: Error>(self, value: f64) -> Result<Value, E> {
        Ok(Value(Scalar::from_text(&value.to_string())))
    }

    fn visit_bool<E: Error>(self, value: bool) -> Result<Value, E> {
        Ok(Value(Scalar::from_bool(value)))
    }
}

impl<'de> Deserialize<'de> for Value {
    fn deserialize<D: Deserializer<'de>>(deserializer: D) -> Result<Self, D::Error> {
        deserializer.deserialize_any(ValueVisitor)
    }
}

fn read(yaml: &str) -> Result<RawCompose, String> {
    match serde_norway::from_str::<File>(yaml) {
        Ok(file) => Ok(file.0),
        Err(error) => Err(error.to_string()),
    }
}

fn parse(source: &str, yaml: &str) -> Compose {
    match Compose::parse(source, yaml, read) {
        Ok(compose) => compose,
        Err(report) => panic!("{}", report),
    }
}

#[test]
fn compose_macro_reads_this_crate_s_file() {
    let compose = parse(
        "docker-compose.yaml",
        r#"
services:
  postgres:
    image: postgres:18-alpine
    environment:
      POSTGRES_USER: composed
"#,
    );
    let postgres = compose.service("postgres");

    assert_eq!(postgres.image().name(), "postgres");
    assert_eq!(postgres.image().tag(), "18-alpine");
    assert_eq!(postgres.env("POSTGRES_USER"), "composed");
}

#[test]
fn quoted_and_unquoted_images() {
    let compose = parse(
        SOURCE,
        r#"
services:
  quoted:
    image: "postgres:18-alpine"
  unquoted:
    image: ghcr.io/umadb-io/umadb:0.7
"#,
    );

    assert_eq!(compose.image("quoted").name(), "postgres");
    assert_eq!(compose.image("quoted").tag(), "18-alpine");
    assert_eq!(compose.image("unquoted").name(), "ghcr.io/umadb-io/umadb");
    assert_eq!(compose.image("unquoted").tag(), "0.7");
}

#[test]
fn registry_port_is_not_a_tag() {
    let compose = parse(SOURCE, "services:\n  s:\n    image: localhost:5000/image\n");
    let image = compose.image("s");

    assert_eq!(image.name(), "localhost:5000/image");
    assert_eq!(image.digest(), None);
}

#[test]
#[should_panic(expected = "has no tag")]
fn registry_port_only_has_no_tag() {
    let compose = parse(SOURCE, "services:\n  s:\n    image: localhost:5000/image\n");
    compose.image("s").tag();
}

#[test]
fn registry_port_with_tag() {
    let compose = parse(
        SOURCE,
        "services:\n  s:\n    image: localhost:5000/image:1.2\n",
    );
    let image = compose.image("s");

    assert_eq!(image.name(), "localhost:5000/image");
    assert_eq!(image.tag(), "1.2");
}

#[test]
fn digest_without_tag() {
    let compose = parse(SOURCE, "services:\n  s:\n    image: image@sha256:abc\n");
    let image = compose.image("s");

    assert_eq!(image.name(), "image");
    assert_eq!(image.digest(), Some("sha256:abc"));
    assert_eq!(image.reference(), "image@sha256:abc");
}

#[test]
#[should_panic(expected = "has no tag")]
fn digest_without_tag_has_no_tag() {
    let compose = parse(SOURCE, "services:\n  s:\n    image: image@sha256:abc\n");
    compose.image("s").tag();
}

#[test]
fn tag_and_digest() {
    let compose = parse(SOURCE, "services:\n  s:\n    image: image:1.2@sha256:abc\n");
    let image = compose.image("s");

    assert_eq!(image.name(), "image");
    assert_eq!(image.tag(), "1.2");
    assert_eq!(image.digest(), Some("sha256:abc"));
    assert_eq!(image.name_and_tag(), ("image", "1.2"));
}

#[test]
fn environment_list_form() {
    let compose = parse(
        SOURCE,
        "services:\n  s:\n    image: i:1\n    environment:\n      - A=1\n      - B=two\n",
    );
    let service = compose.service("s");

    assert_eq!(service.env("A"), "1");
    assert_eq!(service.env("B"), "two");
    assert_eq!(service.env_keys(), ["A", "B"]);
}

#[test]
fn non_string_scalars() {
    let compose = parse(
        SOURCE,
        "services:\n  s:\n    image: i:1\n    environment:\n      PGPORT: 5432\n      DEBUG: true\n",
    );
    let service = compose.service("s");

    assert_eq!(service.env("PGPORT"), "5432");
    assert_eq!(service.env("DEBUG"), "true");
}

#[test]
fn numeric_scalars_do_not_survive_verbatim() {
    let compose = parse(
        SOURCE,
        "services:\n  s:\n    image: i:1\n    environment:\n      A: 1.50\n      B: \"1.50\"\n",
    );
    let service = compose.service("s");

    assert_eq!(service.env("A"), "1.5");
    assert_eq!(service.env("B"), "1.50");
}

#[test]
fn boolean_lookalikes_stay_strings() {
    let compose = parse(
        SOURCE,
        "services:\n  s:\n    image: i:1\n    environment:\n      A: NO\n      B: yes\n      C: off\n",
    );
    let service = compose.service("s");

    assert_eq!(service.env("A"), "NO");
    assert_eq!(service.env("B"), "yes");
    assert_eq!(service.env("C"), "off");
}

#[test]
fn service_without_environment() {
    let compose = parse(SOURCE, "services:\n  s:\n    image: i:1\n");

    assert_eq!(compose.service("s").env_keys().len(), 0);
    assert_eq!(compose.service("s").name(), "s");
}

#[test]
fn comments_and_other_top_level_keys_are_ignored() {
    let compose = parse(
        SOURCE,
        r#"
services:
  postgres:
    image: postgres:18-alpine
    volumes:
      - "pgdata:/var/lib/postgresql"

  # otel-collector:
  #   image: otel/opentelemetry-collector-contrib:0.122.1

volumes:
  pgdata:
"#,
    );

    assert_eq!(compose.service_names(), ["postgres"]);
}

#[test]
#[should_panic(expected = "known services: [a, b]")]
fn unknown_service_lists_known_services() {
    let compose = parse(
        SOURCE,
        "services:\n  a:\n    image: i:1\n  b:\n    image: i:1\n",
    );
    compose.service("c");
}

#[test]
#[should_panic(expected = "known variables: [A, B]")]
fn unknown_environment_variable_lists_known_variables() {
    let compose = parse(
        SOURCE,
        "services:\n  s:\n    image: i:1\n    environment:\n      A: 1\n      B: 2\n",
    );
    compose.service("s").env("C");
}

#[test]
#[should_panic(expected = "cannot be read statically")]
fn environment_variable_without_value() {
    let compose = parse(
        SOURCE,
        "services:\n  s:\n    image: i:1\n    environment:\n      A:\n",
    );
    compose.service("s").env("A");
}

#[test]
#[should_panic(expected = "declares no image")]
fn service_without_image() {
    let compose = parse(SOURCE, "services:\n  s:\n    build: .\n");
    compose.image("s");
}

#[test]
#[should_panic(expected = "is not a valid Compose file")]
fn invalid_compose_file() {
    parse(SOURCE, "not: a compose file\n");
}

#[test]
fn exponents_are_rendered_from_the_parsed_value() {
    let compose = parse(
        SOURCE,
        "services:\n  s:\n    environment:\n      A: 1e3\n      B: -7\n      C: false\n      D: 0x10\n",
    );
    let service = compose.service("s");

    assert_eq!(service.env("A"), "1000");
    assert_eq!(service.env("B"), "-7");
    assert_eq!(service.env("C"), "false");
    assert_eq!(service.env("D"), "16");
}

#[test]
fn an_image_reference_is_kept_as_written() {
    let compose = parse(SOURCE, "services:\n  7:\n    image: 1.50\n");

    assert_eq!(compose.service_names(), ["7"]);
    assert_eq!(compose.image("7").reference(), "1.50");
}

#[test]
fn both_forms_of_an_environment_agree() {
    let mapping = parse(
        SOURCE,
        "services:\n  s:\n    environment:\n      A: one\n      B:\n      C: x=y\n",
    );
    let list = parse(
        SOURCE,
        "services:\n  s:\n    environment:\n      - A=one\n      - B\n      - C=x=y\n",
    );

    for compose in [&mapping, &list] {
        let service = compose.service("s");
        assert_eq!(service.env_keys(), ["A", "B", "C"]);
        assert_eq!(service.env("A"), "one");
        assert!(service.try_env("B").is_err());
        assert_eq!(service.env("C"), "x=y");
    }
}

#[test]
fn a_file_without_services_is_reported_with_the_readers_error() {
    let report = match Compose::parse(SOURCE, "volumes: {}\n", read) {
        Ok(_) => panic!("no services"),
        Err(report) => report,
    };

    assert_eq!(
        report,
        "test.yaml is not a valid Compose file: missing field `services`"
    );
}
