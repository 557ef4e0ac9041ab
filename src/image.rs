//! The image reference record, its mathematical view, rendering and parsing.
use vstd::prelude::*;
use vstd::string::StringExecFns;

use crate::grammar::{
    ascii_len, check_digest, AT, COLON, SLASH, check_joined_runs, check_registry, check_tag, find_either, is_digest,
    is_name, is_path_char, is_registry, is_tag, lemma_registry_chars,
};

verus! {

broadcast use vstd::string::group_string_axioms;

/// A parsed image reference: `[registry/]name[:tag][@digest]`.
#[derive(Debug, Clone)]
pub struct DockerImage {
    /// The optional registry host, with an optional port.
    pub registry: Option<String>,
    /// The image name, namespaces included.
    pub name: String,
    /// The optional tag.
    pub tag: Option<String>,
    /// The optional content digest, `algorithm:hex`.
    pub digest: Option<String>,
}

/// The only way parsing can fail.
#[derive(Debug, Clone, Copy, PartialEq, Eq, Structural)]
pub enum DockerImageError {
    /// The text is not an image reference.
    InvalidFormat,
}

/// The fields of a reference as character sequences.
pub struct ImageView {
    pub registry: Option<Seq<char>>,
    pub name: Seq<char>,
    pub tag: Option<Seq<char>>,
    pub digest: Option<Seq<char>>,
}

pub open spec fn opt_view(o: Option<String>) -> Option<Seq<char>> {
    match o {
        Some(s) => Some(s@),
        None => None,
    }
}

/// `sep` followed by the part, or nothing when the part is absent.
pub open spec fn opt_suffix(sep: char, part: Option<Seq<char>>) -> Seq<char> {
    match part {
        Some(p) => seq![sep] + p,
        None => Seq::empty(),
    }
}

impl ImageView {
    /// Name, tag and digest are each well formed.
    pub open spec fn tail_wf(self) -> bool {
        &&& is_name(self.name)
        &&& (self.tag matches Some(t) ==> is_tag(t))
        &&& (self.digest matches Some(d) ==> is_digest(d))
    }

    /// Every present field is well formed.
    pub open spec fn wf(self) -> bool {
        &&& (self.registry matches Some(r) ==> is_registry(r))
        &&& self.tail_wf()
    }

    /// `name[:tag][@digest]`
    pub open spec fn tail_text(self) -> Seq<char> {
        self.name + opt_suffix(':', self.tag) + opt_suffix('@', self.digest)
    }

    /// `[registry/]name[:tag][@digest]`
    pub open spec fn text(self) -> Seq<char> {
        match self.registry {
            Some(r) => r + seq!['/'] + self.tail_text(),
            None => self.tail_text(),
        }
    }

    /// A well-formed reference whose text is `s`.
    pub open spec fn reads(self, s: Seq<char>) -> bool {
        self.wf() && self.text() == s
    }

    /// The reading of `s` that parsing yields: where `s` can be read both
    /// with and without a registry, the reading with one.
    pub open spec fn is_parse_of(self, s: Seq<char>) -> bool {
        &&& self.reads(s)
        &&& (self.registry is None ==> forall|w: ImageView| #[trigger] w.reads(s) ==> w.registry is None)
    }

    /// Where the tag ends in `tail_text`: just past the name when there is no tag.
    pub open spec fn tag_end(self) -> int {
        match self.tag {
            Some(t) => (self.name.len() + 1 + t.len()) as int,
            None => self.name.len() as int,
        }
    }
}

impl View for DockerImage {
    type V = ImageView;

    open spec fn view(&self) -> ImageView {
        ImageView {
            registry: opt_view(self.registry),
            name: self.name@,
            tag: opt_view(self.tag),
            digest: opt_view(self.digest),
        }
    }
}

/// Where each field of a well-formed tail lies in its text: the name runs to
/// the first `:` or `@`, the tag to the next `@`, the digest to the end.
pub proof fn lemma_tail_shape(v: ImageView)
    requires
        v.tail_wf(),
    ensures
        ({
            let t = v.tail_text();
            let a = v.name.len() as int;
            let e = v.tag_end();
            &&& a <= e <= t.len()
            &&& v.name == t.subrange(0, a)
            &&& forall|j: int| 0 <= j < a ==> #[trigger] t[j] != ':' && t[j] != '@'
            &&& a < t.len() ==> t[a] == ':' || t[a] == '@'
            &&& (v.tag matches Some(g) ==> t[a] == ':' && g == t.subrange(a + 1, e) && forall|j: int|
                a < j < e ==> #[trigger] t[j] != '@')
            &&& (v.tag is None && a < t.len() ==> t[a] == '@')
            &&& (v.digest matches Some(d) ==> e < t.len() && t[e] == '@' && d == t.subrange(
                e + 1,
                t.len() as int,
            ))
            &&& (v.digest is None ==> e == t.len())
            &&& forall|j: int| 0 <= j < t.len() ==> '\0' <= #[trigger] t[j] <= '\u{7f}'
        }),
{
    let t = v.tail_text();
    let a = v.name.len() as int;
    let e = v.tag_end();
    let tg = opt_suffix(':', v.tag);
    let dg = opt_suffix('@', v.digest);
    assert(t == v.name + tg + dg);
    assert forall|j: int| 0 <= j < a implies #[trigger] t[j] != ':' && t[j] != '@' && '\0' <= t[j] <= '\u{7f}' by {
        assert(t[j] == v.name[j]);
        assert(is_path_char(v.name[j], true));
    }
    if let Some(g) = v.tag {
        assert forall|j: int| a < j < e implies #[trigger] t[j] != '@' && '\0' <= t[j] <= '\u{7f}' && t[j] != ':' by {
            assert(t[j] == g[j - a - 1]);
        }
        assert(g =~= t.subrange(a + 1, e));
    }
    if let Some(d) = v.digest {
        assert(d =~= t.subrange(e + 1, t.len() as int));
        assert forall|j: int| e < j < t.len() implies '\0' <= #[trigger] t[j] <= '\u{7f}' by {
            assert(t[j] == d[j - e - 1]);
        }
    }
    assert(v.name =~= t.subrange(0, a));
}

/// Where the registry of a well-formed reference lies in its text: up to the
/// first `/`, with the tail after it.
pub proof fn lemma_registry_shape(v: ImageView)
    requires
        v.wf(),
        v.registry is Some,
    ensures
        ({
            let t = v.text();
            let h = v.registry->0;
            &&& h.len() < t.len()
            &&& h == t.subrange(0, h.len() as int)
            &&& t[h.len() as int] == '/'
            &&& forall|j: int| 0 <= j < h.len() ==> #[trigger] t[j] != '/' && '\0' <= t[j] <= '\u{7f}'
            &&& v.tail_text() == t.subrange(h.len() as int + 1, t.len() as int)
        }),
{
    let t = v.text();
    let h = v.registry->0;
    lemma_registry_chars(h);
    assert(t == h + seq!['/'] + v.tail_text());
    assert forall|j: int| 0 <= j < h.len() implies #[trigger] t[j] != '/' && '\0' <= t[j] <= '\u{7f}' by {
        assert(t[j] == h[j]);
    }
    assert(h =~= t.subrange(0, h.len() as int));
    assert(v.tail_text() =~= t.subrange(h.len() as int + 1, t.len() as int));
}

/// The text of a well-formed reference is ASCII.
pub proof fn lemma_text_ascii(v: ImageView)
    requires
        v.wf(),
    ensures
        forall|j: int| 0 <= j < v.text().len() ==> '\0' <= #[trigger] v.text()[j] <= '\u{7f}',
{
    let t = v.text();
    lemma_tail_shape(v);
    if let Some(h) = v.registry {
        lemma_registry_shape(v);
        assert forall|j: int| 0 <= j < t.len() implies '\0' <= #[trigger] t[j] <= '\u{7f}' by {
            if j > h.len() {
                assert(t[j] == v.tail_text()[j - h.len() - 1]);
            }
        }
    }
}

/// `a` is the first index of `t` that holds `:` or `@`; if that is a `:`,
/// `e` is the first index after it that holds `@`, else `e` is `a`.
pub open spec fn tail_marks(t: Seq<char>, a: int, e: int) -> bool {
    &&& 0 <= a <= e <= t.len()
    &&& forall|j: int| 0 <= j < a ==> #[trigger] t[j] != ':' && t[j] != '@'
    &&& a < t.len() ==> t[a] == ':' || t[a] == '@'
    &&& if a < t.len() && t[a] == ':' {
        &&& a < e
        &&& forall|j: int| a < j < e ==> #[trigger] t[j] != '@'
        &&& e < t.len() ==> t[e] == '@'
    } else {
        e == a
    }
}

/// The fields that the marks cut out of `t`.
pub open spec fn split_at_marks(t: Seq<char>, a: int, e: int) -> ImageView {
    ImageView {
        registry: None,
        name: t.subrange(0, a),
        tag: if a < t.len() && t[a] == ':' {
            Some(t.subrange(a + 1, e))
        } else {
            None
        },
        digest: if e < t.len() {
            Some(t.subrange(e + 1, t.len() as int))
        } else {
            None
        },
    }
}

/// Cutting at the marks and joining again gives `t` back.
proof fn lemma_split_rejoins(t: Seq<char>, a: int, e: int)
    requires
        tail_marks(t, a, e),
    ensures
        split_at_marks(t, a, e).tail_text() == t,
{
    let v = split_at_marks(t, a, e);
    if a < t.len() && t[a] == ':' {
        assert(v.name + opt_suffix(':', v.tag) =~= t.subrange(0, e));
    } else {
        assert(v.name + opt_suffix(':', v.tag) =~= t.subrange(0, e));
    }
    assert(v.tail_text() =~= t);
}

/// A well-formed tail with text `t` is the one cut at the marks.
proof fn lemma_tail_at_marks(v: ImageView, t: Seq<char>, a: int, e: int)
    requires
        v.registry is None,
        v.tail_wf(),
        v.tail_text() == t,
        tail_marks(t, a, e),
    ensures
        v == split_at_marks(t, a, e),
{
    lemma_tail_shape(v);
    if v.name.len() < a {
        assert(t[v.name.len() as int] != ':' && t[v.name.len() as int] != '@');
    }
    assert(v.name.len() == a);
    if v.tag is Some {
        if v.tag_end() < e {
            assert(t[v.tag_end()] != '@');
        }
        if v.tag_end() > e {
            assert(t[e] != '@');
        }
    }
    assert(v.tag_end() == e);
}

/// Reads `name[:tag][@digest]` from an ASCII string; the result has no registry.
fn parse_remainder(t: &str) -> (r: Option<DockerImage>)
    requires
        t.is_ascii(),
    ensures
        match r {
            Some(img) => img@.registry is None && img@.reads(t@),
            None => forall|v: ImageView| v.registry is None ==> !#[trigger] v.reads(t@),
        },
{
    let n = ascii_len(t);
    let a = find_either(t, 0, COLON, AT);
    let name = t.substring_ascii(0, a);
    let name_ok = check_joined_runs(name, true);
    let has_tag = a < n && t.get_ascii(a) == COLON;
    let mut e = a;
    let mut tag_ok = true;
    let mut tag: Option<String> = None;
    if has_tag {
        e = find_either(t, a + 1, AT, AT);
        let tg = t.substring_ascii(a + 1, e);
        tag_ok = check_tag(tg);
        tag = Some(tg.to_owned());
    }
    let mut digest_ok = true;
    let mut digest: Option<String> = None;
    if e < n {
        let dg = t.substring_ascii(e + 1, n);
        digest_ok = check_digest(dg);
        digest = Some(dg.to_owned());
    }
    let img = DockerImage { registry: None, name: name.to_owned(), tag, digest };
    proof {
        assert(tail_marks(t@, a as int, e as int));
        assert(img@ == split_at_marks(t@, a as int, e as int));
        lemma_split_rejoins(t@, a as int, e as int);
        assert forall|v: ImageView| v.registry is None && #[trigger] v.reads(t@) implies v
            == img@ by {
            lemma_tail_at_marks(v, t@, a as int, e as int);
        }
    }
    if name_ok && tag_ok && digest_ok {
        Some(img)
    } else {
        None
    }
}

impl DockerImage {
    /// A reference from explicit fields; nothing is checked.
    pub fn new(
        registry: Option<String>,
        name: String,
        tag: Option<String>,
        digest: Option<String>,
    ) -> (r: DockerImage)
        ensures
            r@ == (ImageView {
                registry: opt_view(registry),
                name: name@,
                tag: opt_view(tag),
                digest: opt_view(digest),
            }),
    {
        DockerImage { registry, name, tag, digest }
    }

    /// Parses `[registry/]name[:tag][@digest]`. The part before the first
    /// `/` is taken as the registry whenever the text can be read that way.
    pub fn parse(image_str: &str) -> (r: Result<DockerImage, DockerImageError>)
        ensures
            r is Ok <==> exists|v: ImageView| #[trigger] v.reads(image_str@),
            match r {
                Ok(img) => img@.is_parse_of(image_str@),
                Err(e) => e == DockerImageError::InvalidFormat,
            },
    {
        let s = image_str;
        if !s.is_ascii() {
            proof {
                assert forall|v: ImageView| !#[trigger] v.reads(s@) by {
                    if v.reads(s@) {
                        lemma_text_ascii(v);
                        assert forall|i: int| 0 <= i < s@.len() implies '\0' <= #[trigger] s@[i]
                            <= '\u{7f}' by {
                            assert('\0' <= v.text()[i] <= '\u{7f}');
                            assert('\0' <= s@[i] <= '\u{7f}');
                        }
                    }
                }
            }
            return Err(DockerImageError::InvalidFormat);
        }
        let n = ascii_len(s);
        let slash = find_either(s, 0, SLASH, SLASH);
        let mut with_registry: Option<DockerImage> = None;
        if slash < n {
            let head = s.substring_ascii(0, slash);
            if check_registry(head) {
                let rest = s.substring_ascii(slash + 1, n);
                if let Some(mut img) = parse_remainder(rest) {
                    proof {
                        assert(s@ =~= head@ + seq!['/'] + rest@);
                    }
                    img.registry = Some(head.to_owned());
                    proof {
                        assert(img@.text() == s@);
                        assert(img@.reads(s@));
                    }
                    with_registry = Some(img);
                }
            }
        }
        proof {
            // A reading with a registry splits the text at its first `/`.
            assert forall|w: ImageView| #[trigger] w.reads(s@) && w.registry is Some implies
                with_registry is Some by {
                lemma_registry_shape(w);
                let h = w.registry->0;
                if h.len() > slash {
                    assert(s@[slash as int] != '/');
                }
                assert(h.len() == slash);
                let u = ImageView { registry: None, ..w };
                assert(u.reads(s@.subrange(slash + 1, n as int)));
            }
        }
        if let Some(img) = with_registry {
            assert(img@.reads(s@));
            return Ok(img);
        }
        match parse_remainder(s) {
            Some(img) => Ok(img),
            None => {
                proof {
                    assert forall|v: ImageView| !#[trigger] v.reads(s@) by {
                        if v.reads(s@) && v.registry is None {
                            assert(!v.reads(s@));
                        }
                    }
                }
                Err(DockerImageError::InvalidFormat)
            },
        }
    }

    /// The reference as text: `[registry/]name[:tag][@digest]`.
    pub fn to_string(&self) -> (r: String)
        ensures
            r@ == self@.text(),
    {
        let mut out = String::new();
        if let Some(registry) = &self.registry {
            out.append(registry.as_str());
            out.append("/");
        }
        out.append(self.name.as_str());
        if let Some(tag) = &self.tag {
            out.append(":");
            out.append(tag.as_str());
        }
        if let Some(digest) = &self.digest {
            out.append("@");
            out.append(digest.as_str());
        }
        proof {
            reveal_strlit("/");
            reveal_strlit(":");
            reveal_strlit("@");
            assert(out@ =~= self@.text());
        }
        out
    }
}

impl DockerImageError {
    /// The human-readable message of the error.
    pub fn to_string(&self) -> (r: String)
        ensures
            r@ == "Invalid Docker image format"@,
    {
        String::from_str("Invalid Docker image format")
    }
}

fn opt_string_eq(a: &Option<String>, b: &Option<String>) -> (r: bool)
    ensures
        r == (opt_view(*a) == opt_view(*b)),
{
    match (a, b) {
        (Some(x), Some(y)) => *x == *y,
        (None, None) => true,
        _ => false,
    }
}

impl PartialEq for DockerImage {
    fn eq(&self, other: &DockerImage) -> bool {
        opt_string_eq(&self.registry, &other.registry) && self.name == other.name
            && opt_string_eq(&self.tag, &other.tag) && opt_string_eq(&self.digest, &other.digest)
    }
}

impl vstd::std_specs::cmp::PartialEqSpecImpl for DockerImage {
    open spec fn obeys_eq_spec() -> bool {
        true
    }

    /// Two references are equal when all four fields are.
    open spec fn eq_spec(&self, other: &DockerImage) -> bool {
        self@ == other@
    }
}

impl core::str::FromStr for DockerImage {
    type Err = DockerImageError;

    /// The same as `DockerImage::parse`.
    fn from_str(s: &str) -> (r: Result<DockerImage, DockerImageError>)
        ensures
            r is Ok <==> exists|v: ImageView| #[trigger] v.reads(s@),
            match r {
                Ok(img) => img@.is_parse_of(s@),
                Err(e) => e == DockerImageError::InvalidFormat,
            },
    {
        DockerImage::parse(s)
    }
}

/// Two well-formed tails with the same text have the same name, tag and digest.
pub proof fn lemma_tail_unique(v: ImageView, w: ImageView)
    requires
        v.tail_wf(),
        w.tail_wf(),
        v.tail_text() == w.tail_text(),
    ensures
        v.name == w.name,
        v.tag == w.tag,
        v.digest == w.digest,
{
    let t = v.tail_text();
    lemma_tail_shape(v);
    let a = v.name.len() as int;
    let e = v.tag_end();
    assert(tail_marks(t, a, e));
    lemma_tail_at_marks(ImageView { registry: None, ..v }, t, a, e);
    lemma_tail_at_marks(ImageView { registry: None, ..w }, t, a, e);
}

/// Parsing is deterministic: a text has at most one parse, so repeated or
/// concurrent parses of the same text agree.
pub proof fn lemma_parse_unique(s: Seq<char>, v: ImageView, w: ImageView)
    requires
        v.is_parse_of(s),
        w.is_parse_of(s),
    ensures
        v == w,
{
    if v.registry is Some && w.registry is Some {
        lemma_registry_shape(v);
        lemma_registry_shape(w);
        let hv = v.registry->0;
        let hw = w.registry->0;
        if hv.len() < hw.len() {
            assert(s[hv.len() as int] != '/');
        }
        if hw.len() < hv.len() {
            assert(s[hw.len() as int] != '/');
        }
        assert(hv.len() == hw.len());
        lemma_tail_unique(v, w);
    } else if v.registry is None && w.registry is None {
        lemma_tail_unique(v, w);
    } else {
        assert(v.reads(s) && w.reads(s));
    }
}

/// Rendering a parse gives back the parsed text.
pub proof fn lemma_render_parse(s: Seq<char>, v: ImageView)
    requires
        v.is_parse_of(s),
    ensures
        v.text() == s,
{
}

/// A reference that parsing can yield parses back from its own text, to itself.
pub proof fn lemma_parse_render(s: Seq<char>, v: ImageView)
    requires
        v.is_parse_of(s),
    ensures
        v.is_parse_of(v.text()),
        forall|w: ImageView| #[trigger] w.is_parse_of(v.text()) ==> w == v,
{
    assert forall|w: ImageView| #[trigger] w.is_parse_of(v.text()) implies w == v by {
        lemma_parse_unique(s, v, w);
    }
}

} // verus!
