//! Image references: name, tag and digest.

use crate::order;
use crate::text;
use vstd::prelude::*;

verus! {

/// What an [`Image`] stands for.
#[verifier::ext_equal]
pub ghost struct ImageView {
    /// The whole reference.
    pub reference: Seq<char>,
    /// The repository part.
    pub name: Seq<char>,
    /// The tag part.
    pub tag: Option<Seq<char>>,
    /// The digest part.
    pub digest: Option<Seq<char>>,
    /// The service that the image belongs to.
    pub service: Seq<char>,
    /// The file that declares the service.
    pub source: Seq<char>,
}

/// `part`, unless it is empty.
pub open spec fn unless_empty(part: Seq<char>) -> Option<Seq<char>> {
    if part.len() == 0 {
        None
    } else {
        Some(part)
    }
}

/// What stands before the first `@` of a reference; all of it if there is none.
pub open spec fn before_digest(reference: Seq<char>) -> Seq<char> {
    match text::split_at_first(reference, '@') {
        Some((before, _)) => before,
        None => reference,
    }
}

/// What stands after the first `@` of a reference, unless that is nothing.
pub open spec fn digest_of(reference: Seq<char>) -> Option<Seq<char>> {
    match text::split_at_first(reference, '@') {
        Some((_, after)) => unless_empty(after),
        None => None,
    }
}

/// The position of the colon that sets off the tag: the last one, provided that no `/` follows
/// it.
pub open spec fn tag_colon(tagged: Seq<char>) -> Option<int> {
    match tagged.index_of_last(':') {
        Some(at) => if tagged.skip(at + 1).contains('/') {
            None
        } else {
            Some(at)
        },
        None => None,
    }
}

/// The repository part of a reference.
pub open spec fn name_of(reference: Seq<char>) -> Seq<char> {
    let tagged = before_digest(reference);
    match tag_colon(tagged) {
        Some(at) => tagged.take(at),
        None => tagged,
    }
}

/// The tag part of a reference, unless it is empty.
pub open spec fn tag_of(reference: Seq<char>) -> Option<Seq<char>> {
    let tagged = before_digest(reference);
    match tag_colon(tagged) {
        Some(at) => unless_empty(tagged.skip(at + 1)),
        None => None,
    }
}

/// The image that `reference` denotes for `service`, declared in `source`.
pub open spec fn image_of(reference: Seq<char>, service: Seq<char>, source: Seq<char>) -> ImageView {
    ImageView {
        reference,
        name: name_of(reference),
        tag: tag_of(reference),
        digest: digest_of(reference),
        service,
        source,
    }
}

/// What a lookup of the tag of an image without a tag reports.
pub open spec fn no_tag(image: ImageView) -> Seq<char> {
    "image `"@ + image.reference + "` of service `"@ + image.service + "` in "@ + image.source
        + " has no tag"@
}

/// The image of a service, e.g. `ghcr.io/umadb-io/umadb:0.7`.
///
/// Borrows from the file's contents, not from the accessor's temporary, so
/// `compose.image("postgres").tag()` needs no intermediate binding.
#[derive(Debug, Clone, Copy)]
pub struct Image<'a> {
    reference: &'a str,
    name: &'a str,
    tag: Option<&'a str>,
    digest: Option<&'a str>,
    service: &'a str,
    source: &'a str,
}

impl<'a> View for Image<'a> {
    type V = ImageView;

    closed spec fn view(&self) -> ImageView {
        ImageView {
            reference: self.reference@,
            name: self.name@,
            tag: self.tag.deep_view(),
            digest: self.digest.deep_view(),
            service: self.service@,
            source: self.source@,
        }
    }
}

/// `part`, unless it is empty.
fn drop_empty<'a>(part: &'a str) -> (kept: Option<&'a str>)
    ensures
        kept.deep_view() == unless_empty(part@),
{
    if part.is_empty() {
        None
    } else {
        Some(part)
    }
}

impl<'a> Image<'a> {
    /// Name, tag and digest are the parts of the reference.
    #[verifier::type_invariant]
    pub open spec fn wf(&self) -> bool {
        self@ == image_of(self@.reference, self@.service, self@.source)
    }

    /// Splits `reference`, which `service` declares in `source`, into name, tag and digest.
    pub fn parse(reference: &'a str, service: &'a str, source: &'a str) -> (image: Image<'a>)
        ensures
            image@ == image_of(reference@, service@, source@),
            image.wf(),
    {
        let (tagged, digest) = match text::split_once(reference, '@') {
            Some((before, after)) => (before, drop_empty(after)),
            None => (reference, None),
        };
        assert(tagged@ == before_digest(reference@));
        assert(digest.deep_view() == digest_of(reference@));
        proof {
            tagged@.index_of_last_ensures('/');
            tagged@.index_of_last_ensures(':');
        }
        let len: usize = tagged.unicode_len();
        let start: usize = match text::find_last(tagged, '/') {
            Some(at) => at + 1,
            None => 0,
        };
        let segment = tagged.substring_char(start, len);
        proof {
            segment@.index_of_last_ensures(':');
        }
        let (name, tag) = match text::find_last(segment, ':') {
            Some(at) => {
                let colon: usize = start + at;
                let name = tagged.substring_char(0, colon);
                let tag = tagged.substring_char(colon + 1, len);
                assert(tag@ =~= tagged@.skip(colon + 1));
                assert(tag_colon(tagged@) == Some(colon as int)) by {
                    assert(tagged@[colon as int] == segment@[at as int]);
                    let last = tagged@.index_of_last(':')->0;
                    assert(last >= colon);
                    if last > colon {
                        assert(segment@[last - start] == tagged@[last]);
                    }
                    if tag@.contains('/') {
                        let i = choose|i: int| 0 <= i < tag@.len() && tag@[i] == '/';
                        assert(tagged@[colon + 1 + i] == '/');
                    }
                }
                (name, drop_empty(tag))
            },
            None => {
                assert(tag_colon(tagged@) is None) by {
                    if let Some(last) = tagged@.index_of_last(':') {
                        if last >= start {
                            assert(segment@[last - start] == ':');
                        } else {
                            assert(tagged@.skip(last + 1)[start - 1 - (last + 1)] == '/');
                        }
                    }
                }
                (tagged, None)
            },
        };
        Image { reference, name, tag, digest, service, source }
    }

    /// The image reference exactly as written in the compose file.
    pub fn reference(&self) -> (reference: &'a str)
        ensures
            reference@ == self@.reference,
    {
        self.reference
    }

    /// [`Image::name`] and [`Image::tag`] as a pair, for constructors taking both as one type
    /// parameter, such as testcontainers' `GenericImage::new`.
    pub fn name_and_tag(&self) -> (pair: (&'a str, &'a str))
        requires
            self@.tag is Some,
        ensures
            pair.0@ == self@.name,
            Some(pair.1@) == self@.tag,
            pair.0@ == name_of(self@.reference),
            Some(pair.1@) == tag_of(self@.reference),
    {
        (self.name(), self.tag())
    }

    /// The repository part of the reference, including any registry and namespace and excluding
    /// tag and digest.
    ///
    /// A registry port is not mistaken for a tag: `localhost:5000/image` has the name
    /// `localhost:5000/image` and no tag.
    pub fn name(&self) -> (name: &'a str)
        ensures
            name@ == self@.name,
            name@ == name_of(self@.reference),
    {
        proof {
            use_type_invariant(self);
        }
        self.name
    }

    /// The tag part of the reference, which must have one; see [`Image::try_tag`].
    pub fn tag(&self) -> (tag: &'a str)
        requires
            self@.tag is Some,
        ensures
            Some(tag@) == self@.tag,
            Some(tag@) == tag_of(self@.reference),
    {
        self.try_tag().unwrap()
    }

    /// The tag part of the reference, or what to report if there is none, i.e. if the reference is
    /// unpinned or pinned by digest only.
    pub fn try_tag(&self) -> (tag: Result<&'a str, String>)
        ensures
            match tag {
                Ok(tag) => self@.tag == Some(tag@) && tag_of(self@.reference) == Some(tag@),
                Err(report) => self@.tag is None && report@ == no_tag(self@),
            },
            tag is Ok <==> tag_of(self@.reference) is Some,
    {
        proof {
            use_type_invariant(self);
        }
        match self.tag {
            Some(tag) => Ok(tag),
            None => {
                let mut report = "image `".to_owned();
                report.append(self.reference);
                report.append("` of service `");
                report.append(self.service);
                report.append("` in ");
                report.append(self.source);
                report.append(" has no tag");
                Err(report)
            },
        }
    }

    /// The digest part of the reference, e.g. `sha256:...`, if it is pinned by digest.
    pub fn digest(&self) -> (digest: Option<&'a str>)
        ensures
            digest.deep_view() == self@.digest,
            digest.deep_view() == digest_of(self@.reference),
    {
        proof {
            use_type_invariant(self);
        }
        self.digest
    }
}

/// Images are equal if they have the same reference, for the same service of the same file.
impl<'a> PartialEq for Image<'a> {
    fn eq(&self, other: &Self) -> (equal: bool) {
        proof {
            use_type_invariant(self);
            use_type_invariant(other);
        }
        order::same(self.reference, other.reference) && order::same(self.service, other.service) && order::same(
            self.source,
            other.source,
        )
    }
}

impl<'a> Eq for Image<'a> {

}

impl<'a> vstd::std_specs::cmp::PartialEqSpecImpl for Image<'a> {
    open spec fn obeys_eq_spec() -> bool {
        true
    }

    open spec fn eq_spec(&self, other: &Self) -> bool {
        self@ == other@
    }
}

/// The report of a missing tag names the image, the service and the compose file, in these words.
pub proof fn law_missing_tag_is_located(image: ImageView)
    ensures
        no_tag(image) == "image `"@ + image.reference + "` of service `"@ + image.service + "` in "@ + image.source
            + " has no tag"@,
        text::mentions(no_tag(image), image.reference),
        text::mentions(no_tag(image), image.service),
        text::mentions(no_tag(image), image.source),
{
    let lead = "image `"@;
    let of = lead + image.reference + "` of service `"@;
    let within = of + image.service + "` in "@;
    let end = " has no tag"@;
    assert(no_tag(image) =~= lead + image.reference + ("` of service `"@ + image.service + "` in "@ + image.source + end));
    assert(no_tag(image) =~= of + image.service + ("` in "@ + image.source + end));
    assert(no_tag(image) =~= within + image.source + end);
}

/// The reference with the given parts.
pub open spec fn assembled(name: Seq<char>, tag: Option<Seq<char>>, digest: Option<Seq<char>>) -> Seq<char> {
    let tagged = match tag {
        Some(tag) => name + seq![':'] + tag,
        None => name,
    };
    match digest {
        Some(digest) => tagged + seq!['@'] + digest,
        None => tagged,
    }
}

/// Finding the first `c` where nothing before a certain position is a `c`.
proof fn lemma_first_at(s: Seq<char>, c: char, at: int)
    requires
        0 <= at < s.len(),
        s[at] == c,
        forall|j: int| 0 <= j < at ==> s[j] != c,
    ensures
        s.index_of_first(c) == Some(at),
{
    s.index_of_first_ensures(c);
    assert(s.contains(c));
}

/// Finding the last `c` where nothing after a certain position is a `c`.
proof fn lemma_last_at(s: Seq<char>, c: char, at: int)
    requires
        0 <= at < s.len(),
        s[at] == c,
        forall|j: int| at < j < s.len() ==> s[j] != c,
    ensures
        s.index_of_last(c) == Some(at),
{
    s.index_of_last_ensures(c);
    assert(s.contains(c));
}

/// A reference made of a name, a tag and a digest is split into that name, that tag and that
/// digest.
///
/// The name holds no `@`; a tag is not empty and holds none of `/`, `:` and `@`; a digest is not
/// empty. Without a tag, the name's last segment holds no colon.
pub proof fn law_assembled_parts_are_found(name: Seq<char>, tag: Option<Seq<char>>, digest: Option<Seq<char>>)
    requires
        !name.contains('@'),
        match tag {
            Some(tag) => tag.len() > 0 && !tag.contains('/') && !tag.contains(':') && !tag.contains('@'),
            None => tag_colon(name) is None,
        },
        digest matches Some(digest) ==> digest.len() > 0,
    ensures
        name_of(assembled(name, tag, digest)) == name,
        tag_of(assembled(name, tag, digest)) == tag,
        digest_of(assembled(name, tag, digest)) == digest,
{
    let whole = assembled(name, tag, digest);
    let tagged = assembled(name, tag, None);
    assert forall|j: int| 0 <= j < tagged.len() implies tagged[j] != '@' by {
        if j < name.len() {
            assert(name.contains(name[j]));
        } else if let Some(tag) = tag {
            if j > name.len() {
                assert(tag[j - name.len() - 1] == tagged[j]);
                assert(tag.contains(tagged[j]));
            }
        }
    }
    match digest {
        Some(digest) => {
            lemma_first_at(whole, '@', tagged.len() as int);
            assert(whole.take(tagged.len() as int) =~= tagged);
            assert(whole.skip(tagged.len() + 1int) =~= digest);
        },
        None => {
            whole.index_of_first_ensures('@');
        },
    }
    assert(before_digest(whole) == tagged);
    if let Some(tag) = tag {
        assert forall|j: int| name.len() < j < tagged.len() implies tagged[j] != ':' by {
            assert(tag[j - name.len() - 1] == tagged[j]);
            assert(tag.contains(tagged[j]));
        }
        lemma_last_at(tagged, ':', name.len() as int);
        assert(tagged.skip(name.len() + 1int) =~= tag);
        assert(tagged.take(name.len() as int) =~= name);
    }
}

/// The parts of a reference, put together again, are the reference.
///
/// A separator that nothing follows (`image:`, `image@`) belongs to no part.
pub proof fn law_parts_make_up_the_reference(reference: Seq<char>)
    ensures
        exists|t: Seq<char>, d: Seq<char>|
            {
                &&& reference == #[trigger] (name_of(reference) + t + d)
                &&& match tag_of(reference) {
                    Some(tag) => t == seq![':'] + tag,
                    None => t.len() == 0 || t == seq![':'],
                }
                &&& match digest_of(reference) {
                    Some(digest) => d == seq!['@'] + digest,
                    None => d.len() == 0 || d == seq!['@'],
                }
            },
{
    reference.index_of_first_ensures('@');
    let tagged = before_digest(reference);
    let d = reference.skip(tagged.len() as int);
    tagged.index_of_last_ensures(':');
    let name = name_of(reference);
    let t = tagged.skip(name.len() as int);
    assert(name + t =~= tagged);
    assert(reference =~= name + t + d);
    if let Some(at) = tag_colon(tagged) {
        assert(t =~= seq![':'] + tagged.skip(at + 1));
    }
    if let Some(at) = reference.index_of_first('@') {
        assert(d =~= seq!['@'] + reference.skip(at + 1));
    }
}

/// The name holds no `@`; a tag is not empty and holds none of `/`, `:` and `@`; a digest is not
/// empty.
pub proof fn law_parts_are_clean(reference: Seq<char>)
    ensures
        !name_of(reference).contains('@'),
        tag_of(reference) matches Some(tag) ==> tag.len() > 0 && !tag.contains('/') && !tag.contains(':')
            && !tag.contains('@'),
        digest_of(reference) matches Some(digest) ==> digest.len() > 0,
{
    reference.index_of_first_ensures('@');
    let tagged = before_digest(reference);
    assert(!tagged.contains('@'));
    tagged.index_of_last_ensures(':');
    let name = name_of(reference);
    if name.contains('@') {
        let i = choose|i: int| 0 <= i < name.len() && name[i] == '@';
        assert(tagged[i] == '@');
    }
    if let Some(at) = tag_colon(tagged) {
        let tag = tagged.skip(at + 1);
        if tag.contains('@') {
            let i = choose|i: int| 0 <= i < tag.len() && tag[i] == '@';
            assert(tagged[at + 1 + i] == '@');
        }
        if tag.contains(':') {
            let i = choose|i: int| 0 <= i < tag.len() && tag[i] == ':';
            assert(tagged[at + 1 + i] == ':');
        }
    }
}

/// What stands before a `/` belongs to the name, whatever colons it holds: behind a registry, a
/// reference keeps its tag and its digest, and its name is prefixed by the registry.
pub proof fn law_registry_belongs_to_the_name(registry: Seq<char>, reference: Seq<char>)
    requires
        !registry.contains('@'),
    ensures
        name_of(registry + seq!['/'] + reference) == registry + seq!['/'] + name_of(reference),
        tag_of(registry + seq!['/'] + reference) == tag_of(reference),
        digest_of(registry + seq!['/'] + reference) == digest_of(reference),
{
    let prefix = registry + seq!['/'];
    let whole = prefix + reference;
    let tagged = before_digest(reference);
    assert forall|j: int| 0 <= j < prefix.len() implies prefix[j] != '@' by {
        if j < registry.len() {
            assert(registry.contains(prefix[j]));
        }
    }
    reference.index_of_first_ensures('@');
    match reference.index_of_first('@') {
        Some(at) => {
            lemma_first_at(whole, '@', prefix.len() + at);
            assert(whole.take(prefix.len() + at) =~= prefix + tagged);
            assert(whole.skip(prefix.len() + at + 1) =~= reference.skip(at + 1));
        },
        None => {
            whole.index_of_first_ensures('@');
            if let Some(at) = whole.index_of_first('@') {
                assert(reference[at - prefix.len()] == '@');
            }
        },
    }
    let prefixed = prefix + tagged;
    assert(before_digest(whole) == prefixed);
    tagged.index_of_last_ensures(':');
    match tagged.index_of_last(':') {
        Some(at) => {
            lemma_last_at(prefixed, ':', prefix.len() + at);
            assert(prefixed.skip(prefix.len() + at + 1) =~= tagged.skip(at + 1));
            assert(prefixed.take(prefix.len() + at) =~= prefix + tagged.take(at));
        },
        None => {
            prefixed.index_of_last_ensures(':');
            if let Some(at) = prefixed.index_of_last(':') {
                if at >= prefix.len() {
                    assert(tagged[at - prefix.len()] == ':');
                }
                assert(prefixed.skip(at + 1)[registry.len() - at - 1] == '/');
            }
        },
    }
}

/// A registry port is not mistaken for a tag: where the only colons stand before a `/`, the reference
/// is all name.
pub proof fn law_registry_port_is_no_tag(registry: Seq<char>, path: Seq<char>)
    requires
        !registry.contains('@'),
        !path.contains('@'),
        !path.contains(':'),
    ensures
        name_of(registry + seq!['/'] + path) == registry + seq!['/'] + path,
        tag_of(registry + seq!['/'] + path) is None,
{
    path.index_of_last_ensures(':');
    law_assembled_parts_are_found(path, None, None);
    law_registry_belongs_to_the_name(registry, path);
}

/// An image keeps its reference as written, and knows its service and its file.
pub proof fn law_image_keeps_its_reference(reference: Seq<char>, service: Seq<char>, source: Seq<char>)
    ensures
        image_of(reference, service, source).reference == reference,
        image_of(reference, service, source).service == service,
        image_of(reference, service, source).source == source,
{
}

/// What follows the first `@` is the digest, all of it, unless it is nothing; name and tag are those of
/// what stands before. Without a `@` there is no digest.
pub proof fn law_digest_follows_the_first_at(
    front: Seq<char>,
    digest: Seq<char>,
    service: Seq<char>,
    source: Seq<char>,
)
    requires
        !front.contains('@'),
    ensures
        ({
            let pinned = image_of(front + seq!['@'] + digest, service, source);
            let unpinned = image_of(front, service, source);
            &&& digest.len() > 0 ==> pinned.digest == Some(digest)
            &&& digest.len() == 0 ==> pinned.digest is None
            &&& pinned.name == unpinned.name
            &&& pinned.tag == unpinned.tag
            &&& unpinned.digest is None
        }),
{
    text::law_split_undoes_join(front, '@', digest);
}

/// What follows the colon in the last segment is the tag, all of it, unless it is nothing; what stands
/// before is the name.
pub proof fn law_tag_follows_the_colon(
    name: Seq<char>,
    tag: Seq<char>,
    service: Seq<char>,
    source: Seq<char>,
)
    requires
        !name.contains('@'),
        !tag.contains('/'),
        !tag.contains(':'),
        !tag.contains('@'),
    ensures
        ({
            let image = image_of(name + seq![':'] + tag, service, source);
            &&& image.name == name
            &&& tag.len() > 0 ==> image.tag == Some(tag)
            &&& tag.len() == 0 ==> image.tag is None
        }),
{
    let tagged = name + seq![':'] + tag;
    assert forall|j: int| 0 <= j < tagged.len() implies tagged[j] != '@' by {
        if j < name.len() {
            assert(name.contains(name[j]));
        } else if j > name.len() {
            assert(tag[j - name.len() - 1] == tagged[j]);
            assert(tag.contains(tagged[j]));
        }
    }
    text::law_split_undoes_join(tagged, '@', tag);
    assert forall|j: int| name.len() < j < tagged.len() implies tagged[j] != ':' by {
        assert(tag[j - name.len() - 1] == tagged[j]);
        assert(tag.contains(tagged[j]));
    }
    lemma_last_at(tagged, ':', name.len() as int);
    assert(tagged.skip(name.len() + 1int) =~= tag);
    assert(tagged.take(name.len() as int) =~= name);
}

/// Without a colon in its last segment a reference is all name, whatever its other segments hold.
pub proof fn law_untagged_reference_is_the_name(
    front: Seq<char>,
    segment: Seq<char>,
    service: Seq<char>,
    source: Seq<char>,
)
    requires
        !front.contains('@'),
        !segment.contains('@'),
        !segment.contains(':'),
    ensures
        image_of(segment, service, source).name == segment,
        image_of(segment, service, source).tag is None,
        image_of(front + seq!['/'] + segment, service, source).name == front + seq!['/'] + segment,
        image_of(front + seq!['/'] + segment, service, source).tag is None,
{
    segment.index_of_last_ensures(':');
    text::law_split_undoes_join(segment, '@', segment);
    law_registry_port_is_no_tag(front, segment);
}

/// Name, tag and digest of an image, each behind its separator, make up the reference as written. A
/// separator that nothing follows (`image:`, `image@`) belongs to no part.
pub proof fn law_image_parts_make_up_its_reference(
    reference: Seq<char>,
    service: Seq<char>,
    source: Seq<char>,
)
    ensures
        exists|t: Seq<char>, d: Seq<char>|
            {
                &&& reference == #[trigger] (image_of(reference, service, source).name + t + d)
                &&& match image_of(reference, service, source).tag {
                    Some(tag) => tag.len() > 0 && t == seq![':'] + tag,
                    None => t.len() == 0 || t == seq![':'],
                }
                &&& match image_of(reference, service, source).digest {
                    Some(digest) => digest.len() > 0 && d == seq!['@'] + digest,
                    None => d.len() == 0 || d == seq!['@'],
                }
            },
{
    law_parts_make_up_the_reference(reference);
    law_parts_are_clean(reference);
    let (t, d) = choose|t: Seq<char>, d: Seq<char>|
        {
            &&& reference == #[trigger] (name_of(reference) + t + d)
            &&& match tag_of(reference) {
                Some(tag) => t == seq![':'] + tag,
                None => t.len() == 0 || t == seq![':'],
            }
            &&& match digest_of(reference) {
                Some(digest) => d == seq!['@'] + digest,
                None => d.len() == 0 || d == seq!['@'],
            }
        };
    assert(reference == image_of(reference, service, source).name + t + d);
}

/// Images compare equal exactly where all their parts, their service and their file are the same.
pub proof fn law_equal_images_agree_in_everything<'a>()
    ensures
        vstd::laws_eq::obeys_view_eq::<Image<'a>>(),
{
    reveal(vstd::laws_eq::obeys_view_eq);
}

} // verus!
