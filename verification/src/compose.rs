//! Compose files: services by name.

use crate::document::RawCompose;
use crate::document::RawService;
use crate::image;
use crate::image::Image;
use crate::service;
use crate::service::Service;
use crate::service::ServiceView;
use crate::table;
use crate::table::Table;
use crate::text;
use vstd::prelude::*;

verus! {

/// What a [`Compose`] stands for.
#[verifier::ext_equal]
pub ghost struct ComposeView {
    /// The file.
    pub source: Seq<char>,
    /// The declared services by name.
    pub services: Map<Seq<char>, ServiceView>,
}

/// The services that `declared` describes, in the order of the reader.
pub open spec fn declared_services(source: Seq<char>, declared: Seq<(String, RawService)>) -> Seq<
    (Seq<char>, ServiceView),
> {
    declared.map_values(
        |entry: (String, RawService)| (entry.0@, service::service_of(source, entry.0@, entry.1)),
    )
}

/// The Compose file at `source` that was read as `raw`; a service that is declared again takes its
/// last declaration.
pub open spec fn compose_of(source: Seq<char>, raw: RawCompose) -> ComposeView {
    ComposeView {
        source,
        services: table::last_wins(declared_services(source, raw.services@)),
    }
}

/// What is reported of a file that cannot be read as a Compose file.
pub open spec fn invalid_file(source: Seq<char>, error: Seq<char>) -> Seq<char> {
    source + " is not a valid Compose file: "@ + error
}

/// What a lookup of an unknown service reports.
pub open spec fn unknown_service(compose: ComposeView, name: Seq<char>) -> Seq<char> {
    "no service `"@ + name + "` in "@ + compose.source + "; known services: ["@ + text::listed(
        table::sorted_names(compose.services),
    ) + "]"@
}

/// What reading the file at `source` comes to, where the YAML reader came back with `document`.
pub open spec fn reads_as(
    source: Seq<char>,
    document: Result<RawCompose, String>,
    compose: Result<Compose, String>,
) -> bool {
    match document {
        Ok(raw) => compose matches Ok(compose) && compose@ == compose_of(source, raw) && compose.wf(),
        Err(error) => compose matches Err(report) && report@ == invalid_file(source, error@),
    }
}

/// A parsed Docker Compose file.
///
/// [`Compose::service`], [`Service::image`], [`Service::env`] and [`Image::tag`] are for what the file is
/// known to declare. [`Compose::try_service`], [`Service::try_image`], [`Service::try_env`] and
/// [`Image::try_tag`] name the compose file where they fail; [`Compose::try_service`] then lists the
/// declared services, and [`Service::try_env`] the declared environment variables.
#[derive(Debug)]
pub struct Compose {
    source: String,
    services: Table<Service>,
}

impl View for Compose {
    type V = ComposeView;

    closed spec fn view(&self) -> ComposeView {
        ComposeView { source: self.source@, services: self.services@ }
    }
}

impl Compose {
    /// Each service goes by the name it is found under, and knows the file it comes from.
    #[verifier::type_invariant]
    pub open spec fn wf(&self) -> bool {
        forall|name: Seq<char>| #[trigger]
            self@.services.contains_key(name) ==> self@.services[name].name == name
                && self@.services[name].source == self@.source
    }

    /// Parses the given Compose file contents, where `read` is the YAML reader: it takes the contents
    /// and comes back with what they declare or with the text of an error. `source`, the file path,
    /// is used in reports.
    pub fn parse<R>(source: &str, yaml: &str, read: R) -> (compose: Result<Compose, String>) where
        R: FnOnce(&str) -> Result<RawCompose, String>,

        requires
            call_requires(read, (yaml,)),
        ensures
            exists|document: Result<RawCompose, String>| #[trigger]
                call_ensures(read, (yaml,), document) && reads_as(source@, document, compose),
    {
        let document = read(yaml);
        Compose::from_document(source, document)
    }

    /// The Compose file at `source` whose contents were read as `document`, or what to report if the
    /// YAML reader came back with an error.
    pub fn from_document(source: &str, document: Result<RawCompose, String>) -> (compose: Result<Compose, String>)
        ensures
            reads_as(source@, document, compose),
    {
        match document {
            Ok(raw) => Ok(Compose::from_raw(source, raw)),
            Err(error) => {
                let mut report = source.to_owned();
                report.append(" is not a valid Compose file: ");
                report.append(error.as_str());
                Err(report)
            },
        }
    }

    /// The Compose file at `source` that declares `raw`.
    pub fn from_raw(source: &str, raw: RawCompose) -> (compose: Compose)
        ensures
            compose@ == compose_of(source@, raw),
            compose.wf(),
    {
        let ghost declared = declared_services(source@, raw.services@);
        let ghost given = raw.services@;
        let mut services: Table<Service> = Table::new();
        for entry in it: raw.services
            invariant
                it.seq() == given,
                declared == declared_services(source@, given),
                services@ == table::last_wins(declared.take(it.index())),
                forall|name: Seq<char>| #[trigger]
                    services@.contains_key(name) ==> services@[name].name == name && services@[name].source == source@,
        {
            let service = Service::from_raw(source, entry.0.as_str(), entry.1);
            assert(declared.take(it.index() + 1).drop_last() =~= declared.take(it.index()));
            services = services.with(entry.0, service);
        }
        assert(declared.take(declared.len() as int) =~= declared);
        Compose { source: source.to_owned(), services }
    }

    /// The image of the service with the given name, i.e. [`Compose::service`] followed by
    /// [`Service::image`]; the service must exist and declare an image.
    pub fn image(&self, service: &str) -> (image: Image<'_>)
        requires
            self@.services.contains_key(service@),
            self@.services[service@].image is Some,
        ensures
            image@ == image::image_of(self@.services[service@].image->0, service@, self@.source),
            image.wf(),
    {
        proof {
            use_type_invariant(self);
        }
        self.service(service).image()
    }

    /// The service with the given name, which must exist; see [`Compose::try_service`].
    pub fn service(&self, name: &str) -> (service: &Service)
        requires
            self@.services.contains_key(name@),
        ensures
            service@ == self@.services[name@],
            service@.name == name@,
            service@.source == self@.source,
    {
        self.try_service(name).unwrap()
    }

    /// The service with the given name, or what to report if there is none.
    ///
    /// A commented out service block does not exist as far as YAML is concerned and is therefore
    /// not found.
    pub fn try_service(&self, name: &str) -> (service: Result<&Service, String>)
        ensures
            match service {
                Ok(service) => {
                    &&& self@.services.contains_key(name@)
                    &&& service@ == self@.services[name@]
                    &&& service@.name == name@
                    &&& service@.source == self@.source
                },
                Err(report) => {
                    &&& !self@.services.contains_key(name@)
                    &&& report@ == unknown_service(self@, name@)
                    &&& table::lists_names(table::sorted_names(self@.services), self@.services)
                },
            },
    {
        proof {
            use_type_invariant(self);
        }
        match self.services.get(name) {
            Some(service) => Ok(service),
            None => {
                let known = self.service_names();
                let mut report = "no service `".to_owned();
                report.append(name);
                report.append("` in ");
                report.append(self.source.as_str());
                report.append("; known services: [");
                report.append(text::list(&known).as_str());
                report.append("]");
                Err(report)
            },
        }
    }

    /// The names of all declared services, sorted.
    pub fn service_names(&self) -> (names: Vec<&str>)
        ensures
            table::lists_names(text::texts(names@), self@.services),
            text::texts(names@) == table::sorted_names(self@.services),
    {
        self.services.names()
    }
}

impl Clone for Compose {
    fn clone(&self) -> (compose: Self)
        ensures
            compose@ == self@,
    {
        proof {
            use_type_invariant(self);
        }
        Compose { source: self.source.clone(), services: self.services.clone() }
    }
}

/// A declared service that is not declared again is found under its name, with the image and the
/// environment that it declares.
pub proof fn law_declared_services_are_found(source: Seq<char>, raw: RawCompose, i: int)
    requires
        0 <= i < raw.services@.len(),
        forall|j: int| i < j < raw.services@.len() ==> (#[trigger] raw.services@[j]).0@ != raw.services@[i].0@,
    ensures
        compose_of(source, raw).services.contains_key(raw.services@[i].0@),
        compose_of(source, raw).services[raw.services@[i].0@] == service::service_of(
            source,
            raw.services@[i].0@,
            raw.services@[i].1,
        ),
{
    let declared = declared_services(source, raw.services@);
    assert forall|j: int| i < j < declared.len()
        implies (#[trigger] declared[j]).0 != declared[i].0 by {
        assert(raw.services@[j].0@ != raw.services@[i].0@);
    }
    table::lemma_last_wins_value(declared, i);
}

/// No service is found that is not declared.
pub proof fn law_only_declared_services_are_found(source: Seq<char>, raw: RawCompose, name: Seq<char>)
    requires
        compose_of(source, raw).services.contains_key(name),
    ensures
        exists|i: int| 0 <= i < raw.services@.len() && (#[trigger] raw.services@[i]).0@ == name,
{
    let declared = declared_services(source, raw.services@);
    table::lemma_last_wins_names(declared);
    let i = choose|i: int| 0 <= i < declared.len() && (#[trigger] declared[i]).0 == name;
    assert(raw.services@[i].0@ == name);
}

/// The report of an unknown service names the service and the compose file, and lists every service
/// that the file does declare, in these words.
pub proof fn law_unknown_service_is_located(source: Seq<char>, raw: RawCompose, name: Seq<char>)
    ensures
        ({
            let compose = compose_of(source, raw);
            let report = unknown_service(compose, name);
            &&& report == "no service `"@ + name + "` in "@ + source + "; known services: ["@ + text::listed(
                table::sorted_names(compose.services),
            ) + "]"@
            &&& text::mentions(report, name)
            &&& text::mentions(report, source)
            &&& forall|known: Seq<char>| #[trigger]
                compose.services.contains_key(known) ==> text::mentions(report, known)
        }),
{
    let compose = compose_of(source, raw);
    let report = unknown_service(compose, name);
    let known_names = table::sorted_names(compose.services);
    let lead = "no service `"@;
    let within = lead + name + "` in "@;
    let list = within + source + "; known services: ["@;
    let end = text::listed(known_names) + "]"@;
    assert(report =~= lead + name + ("` in "@ + source + "; known services: ["@ + end));
    assert(report =~= within + source + ("; known services: ["@ + end));
    table::lemma_last_wins_names(declared_services(source, raw.services@));
    table::lemma_listing_exists(compose.services);
    assert forall|known: Seq<char>| #[trigger] compose.services.contains_key(known)
        implies text::mentions(report, known) by {
        assert(known_names.contains(known));
        let i = choose|i: int| 0 <= i < known_names.len() && known_names[i] == known;
        text::lemma_list_mentions(known_names, i);
        text::lemma_mentions_within(list, text::listed(known_names), "]"@, known);
    }
}

/// The report of an invalid file names the file and the error, in these words.
pub proof fn law_invalid_file_is_located(source: Seq<char>, error: Seq<char>)
    ensures
        invalid_file(source, error) == source + " is not a valid Compose file: "@ + error,
        text::mentions(invalid_file(source, error), source),
        text::mentions(invalid_file(source, error), error),
{
    let none = Seq::<char>::empty();
    let middle = " is not a valid Compose file: "@;
    assert(invalid_file(source, error) =~= none + source + (middle + error));
    assert(invalid_file(source, error) =~= (source + middle) + error + none);
}

/// A Compose file keeps its declarations: a declared service that is not declared again is found under
/// its name, goes by that name and the file, and has the image reference as written and the declared
/// variables; and only declared names are found.
pub proof fn law_compose_keeps_its_declarations(source: Seq<char>, raw: RawCompose, i: int, name: Seq<char>)
    ensures
        compose_of(source, raw).source == source,
        0 <= i < raw.services@.len() && (forall|j: int|
            i < j < raw.services@.len() ==> (#[trigger] raw.services@[j]).0@ != raw.services@[i].0@) ==> {
            let declared = raw.services@[i].1;
            let services = compose_of(source, raw).services;
            let service = services[raw.services@[i].0@];
            &&& services.contains_key(raw.services@[i].0@)
            &&& service.name == raw.services@[i].0@
            &&& service.source == source
            &&& match declared.image {
                Some(reference) => service.image == Some(reference@),
                None => service.image is None,
            }
            &&& match declared.environment {
                Some(environment) => service.environment == environment.variables(),
                None => service.environment.dom().is_empty(),
            }
        },
        compose_of(source, raw).services.contains_key(name) <==> exists|k: int|
            0 <= k < raw.services@.len() && (#[trigger] raw.services@[k]).0@ == name,
{
    if 0 <= i < raw.services@.len() && (forall|j: int|
        i < j < raw.services@.len() ==> (#[trigger] raw.services@[j]).0@ != raw.services@[i].0@) {
        law_declared_services_are_found(source, raw, i);
        service::law_service_keeps_its_declaration(source, raw.services@[i].0@, raw.services@[i].1);
    }
    let declared = declared_services(source, raw.services@);
    table::lemma_last_wins_names(declared);
    if compose_of(source, raw).services.contains_key(name) {
        law_only_declared_services_are_found(source, raw, name);
    }
    if exists|k: int| 0 <= k < raw.services@.len() && (#[trigger] raw.services@[k]).0@ == name {
        let k = choose|k: int| 0 <= k < raw.services@.len() && (#[trigger] raw.services@[k]).0@ == name;
        assert(declared[k].0 == name);
    }
}

/// Reading a file succeeds exactly where the YAML reader did, with what the reader found; otherwise its
/// error is reported together with the file.
pub proof fn law_reading_follows_the_reader(
    source: Seq<char>,
    document: Result<RawCompose, String>,
    compose: Result<Compose, String>,
)
    requires
        reads_as(source, document, compose),
    ensures
        document is Ok <==> compose is Ok,
        document is Ok ==> compose->Ok_0@ == compose_of(source, document->Ok_0),
        document is Err ==> compose->Err_0@ == source + " is not a valid Compose file: "@ + document->Err_0@,
{
}

} // verus!
