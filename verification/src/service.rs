//! Services: image and environment.

use crate::document::RawService;
use crate::image;
use crate::image::Image;
use crate::table;
use crate::table::Table;
use crate::text;
use vstd::prelude::*;

verus! {

/// What a [`Service`] stands for.
#[verifier::ext_equal]
pub ghost struct ServiceView {
    /// The file that declares the service.
    pub source: Seq<char>,
    /// The name of the service.
    pub name: Seq<char>,
    /// The image reference, if one is declared.
    pub image: Option<Seq<char>>,
    /// The environment variables by key; one that passes the host's value through has no value.
    pub environment: Map<Seq<char>, Option<Seq<char>>>,
}

/// The service that `raw` declares under `name` in `source`.
pub open spec fn service_of(source: Seq<char>, name: Seq<char>, raw: RawService) -> ServiceView {
    ServiceView {
        source,
        name,
        image: raw.image.deep_view(),
        environment: match raw.environment {
            Some(environment) => environment.variables(),
            None => Map::empty(),
        },
    }
}

/// What a lookup of the image of a service without one reports.
pub open spec fn no_image(service: ServiceView) -> Seq<char> {
    "service `"@ + service.name + "` in "@ + service.source + " declares no image"@
}

/// What a lookup of an environment variable that has no value reports.
pub open spec fn no_value(service: ServiceView, key: Seq<char>) -> Seq<char> {
    "environment variable `"@ + key + "` of service `"@ + service.name + "` in "@ + service.source
        + " has no value; a value passed through from the host cannot be read statically"@
        + "; known variables: ["@ + text::listed(table::sorted_names(service.environment)) + "]"@
}

/// What a lookup of an unknown environment variable reports.
pub open spec fn unknown_variable(service: ServiceView, key: Seq<char>) -> Seq<char> {
    "no environment variable `"@ + key + "` for service `"@ + service.name + "` in "@ + service.source
        + "; known variables: ["@ + text::listed(table::sorted_names(service.environment)) + "]"@
}

/// A service of a Compose file.
///
/// Exposes the image and the environment, and deliberately not `ports` or `command`: a caller that
/// starts the service itself publishes its own ports and may need a different command than the
/// local stack.
#[derive(Debug)]
pub struct Service {
    source: String,
    name: String,
    image: Option<String>,
    environment: Table<Option<String>>,
}

impl View for Service {
    type V = ServiceView;

    closed spec fn view(&self) -> ServiceView {
        ServiceView {
            source: self.source@,
            name: self.name@,
            image: self.image.deep_view(),
            environment: self.environment@,
        }
    }
}

impl DeepView for Service {
    type V = ServiceView;

    open spec fn deep_view(&self) -> ServiceView {
        self.view()
    }
}

impl Service {
    /// The service that `raw` declares under `name` in `source`.
    pub fn from_raw(source: &str, name: &str, raw: RawService) -> (service: Service)
        ensures
            service@ == service_of(source@, name@, raw),
            service@.source == source@,
            service@.name == name@,
            service@.image == raw.image.deep_view(),
    {
        let environment = match raw.environment {
            Some(environment) => environment.into_table(),
            None => Table::new(),
        };
        Service { source: source.to_owned(), name: name.to_owned(), image: raw.image, environment }
    }

    /// The name of this service.
    pub fn name(&self) -> (name: &str)
        ensures
            name@ == self@.name,
    {
        self.name.as_str()
    }

    /// The image of this service, which must declare one, split into name, tag and digest; see
    /// [`Service::try_image`].
    pub fn image(&self) -> (image: Image<'_>)
        requires
            self@.image is Some,
        ensures
            image@ == image::image_of(self@.image->0, self@.name, self@.source),
            image.wf(),
    {
        self.try_image().unwrap()
    }

    /// The image of this service, split into name, tag and digest, or what to report if it declares
    /// none, e.g. because it is built rather than pulled.
    pub fn try_image(&self) -> (image: Result<Image<'_>, String>)
        ensures
            match image {
                Ok(image) => self@.image is Some && image@ == image::image_of(
                    self@.image->0,
                    self@.name,
                    self@.source,
                ) && image.wf(),
                Err(report) => self@.image is None && report@ == no_image(self@),
            },
    {
        match &self.image {
            Some(reference) => Ok(Image::parse(reference.as_str(), self.name.as_str(), self.source.as_str())),
            None => {
                let mut report = "service `".to_owned();
                report.append(self.name.as_str());
                report.append("` in ");
                report.append(self.source.as_str());
                report.append(" declares no image");
                Err(report)
            },
        }
    }

    /// The value of the given environment variable of this service, which must declare it with a
    /// value; see [`Service::try_env`].
    pub fn env(&self, key: &str) -> (value: &str)
        requires
            self@.environment.contains_key(key@),
            self@.environment[key@] is Some,
        ensures
            Some(value@) == self@.environment[key@],
    {
        self.try_env(key).unwrap()
    }

    /// The value of the given environment variable of this service, or what to report if there is no
    /// such variable, or if it is declared without a value, which passes the host's value through
    /// and so cannot be read statically. Both reports list the declared variables.
    pub fn try_env(&self, key: &str) -> (value: Result<&str, String>)
        ensures
            match value {
                Ok(value) => self@.environment.contains_key(key@) && self@.environment[key@] == Some(value@),
                Err(report) => {
                    &&& if self@.environment.contains_key(key@) {
                        self@.environment[key@] is None && report@ == no_value(self@, key@)
                    } else {
                        report@ == unknown_variable(self@, key@)
                    }
                    &&& table::lists_names(table::sorted_names(self@.environment), self@.environment)
                },
            },
    {
        match self.environment.get(key) {
            Some(Some(value)) => Ok(value.as_str()),
            Some(None) => {
                let known = self.env_keys();
                let mut report = "environment variable `".to_owned();
                report.append(key);
                report.append("` of service `");
                report.append(self.name.as_str());
                report.append("` in ");
                report.append(self.source.as_str());
                report.append(" has no value; a value passed through from the host cannot be read statically");
                report.append("; known variables: [");
                report.append(text::list(&known).as_str());
                report.append("]");
                Err(report)
            },
            None => {
                let known = self.env_keys();
                let mut report = "no environment variable `".to_owned();
                report.append(key);
                report.append("` for service `");
                report.append(self.name.as_str());
                report.append("` in ");
                report.append(self.source.as_str());
                report.append("; known variables: [");
                report.append(text::list(&known).as_str());
                report.append("]");
                Err(report)
            },
        }
    }

    /// The names of all environment variables of this service, sorted.
    pub fn env_keys(&self) -> (keys: Vec<&str>)
        ensures
            table::lists_names(text::texts(keys@), self@.environment),
            text::texts(keys@) == table::sorted_names(self@.environment),
    {
        self.environment.names()
    }
}

impl Clone for Service {
    fn clone(&self) -> (service: Self)
        ensures
            service@ == self@,
    {
        Service {
            source: self.source.clone(),
            name: self.name.clone(),
            image: self.image.clone(),
            environment: self.environment.clone(),
        }
    }
}

/// A service keeps its declaration: it goes by the given name and file, has the image reference as
/// written, and the declared variables.
pub proof fn law_service_keeps_its_declaration(source: Seq<char>, name: Seq<char>, raw: RawService)
    ensures
        ({
            let service = service_of(source, name, raw);
            &&& service.source == source
            &&& service.name == name
            &&& match raw.image {
                Some(reference) => service.image == Some(reference@),
                None => service.image is None,
            }
            &&& match raw.environment {
                Some(environment) => service.environment == environment.variables(),
                None => service.environment.dom().is_empty(),
            }
        }),
{
    if raw.environment is None {
        assert(service_of(source, name, raw).environment.dom() =~= Set::empty());
    }
}

/// The report of a missing image names the service and the compose file, in these words.
pub proof fn law_missing_image_is_located(service: ServiceView)
    ensures
        no_image(service) == "service `"@ + service.name + "` in "@ + service.source + " declares no image"@,
        text::mentions(no_image(service), service.name),
        text::mentions(no_image(service), service.source),
{
    let lead = "service `"@;
    let within = lead + service.name + "` in "@;
    let end = " declares no image"@;
    assert(no_image(service) =~= lead + service.name + ("` in "@ + service.source + end));
    assert(no_image(service) =~= within + service.source + end);
}

/// A report that ends with the list of a service's variables mentions every variable that the service
/// declares.
proof fn lemma_known_variables_are_listed(
    source: Seq<char>,
    name: Seq<char>,
    raw: RawService,
    before: Seq<char>,
)
    ensures
        ({
            let environment = service_of(source, name, raw).environment;
            let report = before + text::listed(table::sorted_names(environment)) + "]"@;
            forall|known: Seq<char>| #[trigger]
                environment.contains_key(known) ==> text::mentions(report, known)
        }),
{
    let environment = service_of(source, name, raw).environment;
    let keys = table::sorted_names(environment);
    let report = before + text::listed(keys) + "]"@;
    assert(environment.dom().finite()) by {
        if let Some(declared) = raw.environment {
            table::lemma_last_wins_names(declared.entries());
        }
    }
    table::lemma_listing_exists(environment);
    assert forall|known: Seq<char>| #[trigger] environment.contains_key(known)
        implies text::mentions(report, known) by {
        assert(keys.contains(known));
        let i = choose|i: int| 0 <= i < keys.len() && keys[i] == known;
        text::lemma_list_mentions(keys, i);
        text::lemma_mentions_within(before, text::listed(keys), "]"@, known);
    }
}

/// The report of a variable without a value names the variable, the service and the compose file, and
/// lists every variable that the service does declare, in these words.
pub proof fn law_missing_value_is_located(
    source: Seq<char>,
    name: Seq<char>,
    raw: RawService,
    key: Seq<char>,
)
    ensures
        ({
            let service = service_of(source, name, raw);
            let report = no_value(service, key);
            &&& report == "environment variable `"@ + key + "` of service `"@ + name + "` in "@ + source
                + " has no value; a value passed through from the host cannot be read statically"@
                + "; known variables: ["@ + text::listed(table::sorted_names(service.environment)) + "]"@
            &&& text::mentions(report, key)
            &&& text::mentions(report, name)
            &&& text::mentions(report, source)
            &&& forall|known: Seq<char>| #[trigger]
                service.environment.contains_key(known) ==> text::mentions(report, known)
        }),
{
    let service = service_of(source, name, raw);
    let report = no_value(service, key);
    let lead = "environment variable `"@;
    let of = lead + key + "` of service `"@;
    let within = of + name + "` in "@;
    let reason = " has no value; a value passed through from the host cannot be read statically"@;
    let list = text::listed(table::sorted_names(service.environment));
    let end = reason + "; known variables: ["@ + list + "]"@;
    assert(report =~= lead + key + ("` of service `"@ + name + "` in "@ + source + end));
    assert(report =~= of + name + ("` in "@ + source + end));
    assert(report =~= within + source + end);
    lemma_known_variables_are_listed(source, name, raw, within + source + reason + "; known variables: ["@);
}

/// The report of an unknown variable names the variable, the service and the compose file, and lists
/// every variable that the service does declare, in these words.
pub proof fn law_unknown_variable_is_located(
    source: Seq<char>,
    name: Seq<char>,
    raw: RawService,
    key: Seq<char>,
)
    ensures
        ({
            let service = service_of(source, name, raw);
            let report = unknown_variable(service, key);
            &&& report == "no environment variable `"@ + key + "` for service `"@ + name + "` in "@ + source
                + "; known variables: ["@ + text::listed(table::sorted_names(service.environment)) + "]"@
            &&& text::mentions(report, key)
            &&& text::mentions(report, name)
            &&& text::mentions(report, source)
            &&& forall|known: Seq<char>| #[trigger]
                service.environment.contains_key(known) ==> text::mentions(report, known)
        }),
{
    let service = service_of(source, name, raw);
    let report = unknown_variable(service, key);
    let lead = "no environment variable `"@;
    let of = lead + key + "` for service `"@;
    let within = of + name + "` in "@;
    let list = text::listed(table::sorted_names(service.environment));
    let end = "; known variables: ["@ + list + "]"@;
    assert(report =~= lead + key + ("` for service `"@ + name + "` in "@ + source + end));
    assert(report =~= of + name + ("` in "@ + source + end));
    assert(report =~= within + source + end);
    lemma_known_variables_are_listed(source, name, raw, within + source + "; known variables: ["@);
}

} // verus!
