//! The typed operation layer over a session.
//!
//! Each operation builds the method name and parameter object of one request
//! and reads the typed result out of the response payload, rejecting a
//! payload of the wrong shape with a codec error.

use vstd::prelude::*;

use crate::ClientError;
use crate::codec::obj_getv;
use crate::json::{ascii_of, bytes_eq, str_bytes, views_of_list, views_of_pairs, Json, JsonV};

verus! {

/// A tool, resource or prompt advertised by the peer: its name (for a
/// resource, its URI) and an optional description.
pub struct Descriptor {
    pub name: Vec<u8>,
    pub description: Option<Vec<u8>>,
}

/// The mathematical value of a descriptor.
pub type DescriptorV = (Seq<u8>, Option<Seq<u8>>);

/// The view of a descriptor.
pub open spec fn desc_view(d: Descriptor) -> DescriptorV {
    (
        d.name@,
        match d.description {
            Some(x) => Some(x@),
            None => None,
        },
    )
}

/// One piece of content returned by a tool call or prompt fetch.
pub enum Content {
    Text(Vec<u8>),
    Image { data: Vec<u8>, mime: Vec<u8> },
    ResourceRef(Vec<u8>),
}

/// The mathematical value of a content piece.
pub enum ContentV {
    Text(Seq<u8>),
    Image { data: Seq<u8>, mime: Seq<u8> },
    ResourceRef(Seq<u8>),
}

impl View for Content {
    type V = ContentV;

    open spec fn view(&self) -> ContentV {
        match *self {
            Content::Text(t) => ContentV::Text(t@),
            Content::Image { data, mime } => ContentV::Image { data: data@, mime: mime@ },
            Content::ResourceRef(u) => ContentV::ResourceRef(u@),
        }
    }
}

// ------------------------------------------------------------------
// Method names
// ------------------------------------------------------------------

/// The method name of a listing operation, as the wire carries it.
pub fn method_list_tools() -> (r: Vec<u8>)
    ensures
        r@ == ascii_of("tools/list"@),
{
    proof {
        reveal_strlit("tools/list");
    }
    str_bytes("tools/list")
}

pub fn method_list_resources() -> (r: Vec<u8>)
    ensures
        r@ == ascii_of("resources/list"@),
{
    proof {
        reveal_strlit("resources/list");
    }
    str_bytes("resources/list")
}

pub fn method_list_prompts() -> (r: Vec<u8>)
    ensures
        r@ == ascii_of("prompts/list"@),
{
    proof {
        reveal_strlit("prompts/list");
    }
    str_bytes("prompts/list")
}

pub fn method_call_tool() -> (r: Vec<u8>)
    ensures
        r@ == ascii_of("tools/call"@),
{
    proof {
        reveal_strlit("tools/call");
    }
    str_bytes("tools/call")
}

pub fn method_read_resource() -> (r: Vec<u8>)
    ensures
        r@ == ascii_of("resources/read"@),
{
    proof {
        reveal_strlit("resources/read");
    }
    str_bytes("resources/read")
}

pub fn method_get_prompt() -> (r: Vec<u8>)
    ensures
        r@ == ascii_of("prompts/get"@),
{
    proof {
        reveal_strlit("prompts/get");
    }
    str_bytes("prompts/get")
}

// ------------------------------------------------------------------
// Parameter objects
// ------------------------------------------------------------------

/// The parameter object of a tool call or prompt fetch: the name, and the
/// argument mapping only when it has entries — empty arguments are
/// transmitted as no arguments at all, never as an empty object.
pub open spec fn spec_named_params(name: Seq<u8>, args: Seq<(Seq<u8>, JsonV)>) -> JsonV {
    if args.len() == 0 {
        JsonV::Obj(seq![(ascii_of("name"@), JsonV::Str(name))])
    } else {
        JsonV::Obj(
            seq![(ascii_of("name"@), JsonV::Str(name)), (ascii_of("arguments"@), JsonV::Obj(args))],
        )
    }
}

/// Builds the parameters of `tools/call` and `prompts/get`: an empty
/// argument mapping contributes no `arguments` member.
pub fn named_params(name: Vec<u8>, args: Vec<(Vec<u8>, Json)>) -> (r: Json)
    ensures
        r@ == spec_named_params(name@, views_of_pairs(args@)),
{
    proof {
        reveal_strlit("name");
        reveal_strlit("arguments");
    }
    let mut o: Vec<(Vec<u8>, Json)> = Vec::new();
    o.push((str_bytes("name"), Json::Str(name)));
    if args.len() > 0 {
        o.push((str_bytes("arguments"), Json::Obj(args)));
    }
    let r = Json::Obj(o);
    proof {
        let ghost ps = r->Obj_0@;
        crate::json::lemma_views_of_pairs(ps);
        assert forall|i: int|
            0 <= i < views_of_pairs(ps).len() implies views_of_pairs(ps)[i] == spec_named_params(
            name@,
            views_of_pairs(args@),
        )->Obj_0[i] by {
            assert(views_of_pairs(ps)[i] == (ps[i].0@, crate::json::json_view(ps[i].1)));
        }
        assert(views_of_pairs(ps) =~= spec_named_params(name@, views_of_pairs(args@))->Obj_0);
    }
    r
}

/// The parameter object of `resources/read`.
pub open spec fn spec_uri_params(uri: Seq<u8>) -> JsonV {
    JsonV::Obj(seq![(ascii_of("uri"@), JsonV::Str(uri))])
}

/// Builds the parameters of `resources/read`.
pub fn uri_params(uri: Vec<u8>) -> (r: Json)
    ensures
        r@ == spec_uri_params(uri@),
{
    proof {
        reveal_strlit("uri");
    }
    let mut o: Vec<(Vec<u8>, Json)> = Vec::new();
    o.push((str_bytes("uri"), Json::Str(uri)));
    let r = Json::Obj(o);
    proof {
        let ghost ps = r->Obj_0@;
        crate::json::lemma_views_of_pairs(ps);
        assert(views_of_pairs(ps)[0] == (ps[0].0@, crate::json::json_view(ps[0].1)));
        assert(views_of_pairs(ps) =~= spec_uri_params(uri@)->Obj_0);
    }
    r
}

// ------------------------------------------------------------------
// Result payloads
// ------------------------------------------------------------------

/// Maps each element through `f`; one rejected element rejects the list.
pub open spec fn map_items<T>(items: Seq<JsonV>, f: spec_fn(JsonV) -> Option<T>) -> Option<Seq<T>>
    decreases items.len(),
{
    if items.len() == 0 {
        Some(Seq::empty())
    } else {
        match (f(items[0]), map_items(items.drop_first(), f)) {
            (Some(t), Some(r)) => Some(seq![t] + r),
            _ => None,
        }
    }
}

/// A list maps through when every element does, element-wise.
pub proof fn lemma_map_items_some<T>(items: Seq<JsonV>, f: spec_fn(JsonV) -> Option<T>)
    requires
        forall|j: int| 0 <= j < items.len() ==> f(#[trigger] items[j]) is Some,
    ensures
        map_items(items, f) matches Some(r) && r.len() == items.len() && (forall|j: int|
            0 <= j < items.len() ==> Some(#[trigger] r[j]) == f(items[j])),
    decreases items.len(),
{
    if items.len() > 0 {
        assert forall|j: int| 0 <= j < items.drop_first().len() implies f(
            #[trigger] items.drop_first()[j],
        ) is Some by {
            assert(items.drop_first()[j] == items[j + 1]);
        }
        lemma_map_items_some(items.drop_first(), f);
        let r = map_items(items, f)->Some_0;
        assert forall|j: int| 0 <= j < items.len() implies Some(#[trigger] r[j]) == f(
            items[j],
        ) by {
            if j > 0 {
                assert(items.drop_first()[j - 1] == items[j]);
            }
        }
    }
}

/// One rejected element rejects the list.
pub proof fn lemma_map_items_none<T>(items: Seq<JsonV>, f: spec_fn(JsonV) -> Option<T>, j: int)
    requires
        0 <= j < items.len(),
        f(items[j]) is None,
    ensures
        map_items(items, f) is None,
    decreases items.len(),
{
    if items.len() > 0 && f(items[0]) is Some {
        assert(items.drop_first()[j - 1] == items[j]);
        lemma_map_items_none(items.drop_first(), f, j - 1);
    }
}

/// What one descriptor item denotes: its name under `name_key`, and an
/// optional string description.
pub open spec fn desc_of(name_key: Seq<u8>) -> spec_fn(JsonV) -> Option<DescriptorV> {
    |v: JsonV|
        match v {
            JsonV::Obj(o) => match obj_getv(o, name_key) {
                Some(JsonV::Str(n)) => match obj_getv(o, ascii_of("description"@)) {
                    Some(JsonV::Str(d)) => Some((n, Some(d))),
                    None => Some((n, None::<Seq<u8>>)),
                    Some(_) => None,
                },
                _ => None,
            },
            _ => None,
        }
}

/// The descriptor list carried by a listing result under `list_key`.
pub open spec fn spec_descriptors(v: JsonV, list_key: Seq<u8>, name_key: Seq<u8>) -> Option<
    Seq<DescriptorV>,
> {
    match v {
        JsonV::Obj(o) => match obj_getv(o, list_key) {
            Some(JsonV::Arr(items)) => map_items(items, desc_of(name_key)),
            _ => None,
        },
        _ => None,
    }
}

/// Reads one descriptor item.
fn descriptor_of(item: &Json, name_key: &[u8]) -> (r: Option<Descriptor>)
    ensures
        match desc_of(name_key@)(item@) {
            Some(dv) => r matches Some(d) && desc_view(d) == dv,
            None => r is None,
        },
{
    proof {
        reveal_strlit("description");
        match item {
            Json::Obj(o) => {
                crate::codec::lemma_obj_getv(o@, name_key@);
                crate::codec::lemma_obj_getv(o@, ascii_of("description"@));
            },
            _ => {},
        }
    }
    let name = match item.obj_get(name_key) {
        Some(Json::Str(n)) => vstd::slice::slice_to_vec(n.as_slice()),
        _ => {
            return None;
        },
    };
    let description = match item.obj_get(str_bytes("description").as_slice()) {
        Some(Json::Str(d)) => Some(vstd::slice::slice_to_vec(d.as_slice())),
        None => None,
        Some(_) => {
            return None;
        },
    };
    Some(Descriptor { name, description })
}

/// Reads a listing result: the array under `list_key`, each item a
/// descriptor named by `name_key`. Any other shape is a codec error.
#[verifier::loop_isolation(false)]
pub fn parse_descriptors(v: &Json, list_key: &[u8], name_key: &[u8]) -> (r: Result<
    Vec<Descriptor>,
    ClientError,
>)
    ensures
        match spec_descriptors(v@, list_key@, name_key@) {
            Some(ds) => r matches Ok(out) && out@.len() == ds.len() && (forall|j: int|
                0 <= j < ds.len() ==> desc_view(#[trigger] out@[j]) == ds[j]),
            None => r == Err::<Vec<Descriptor>, ClientError>(ClientError::Codec),
        },
{
    proof {
        match v {
            Json::Obj(o) => {
                crate::codec::lemma_obj_getv(o@, list_key@);
            },
            _ => {},
        }
    }
    let items = match v.obj_get(list_key) {
        Some(Json::Arr(items)) => items,
        _ => {
            return Err(ClientError::Codec);
        },
    };
    let ghost ivs = views_of_list(items@);
    proof {
        crate::json::lemma_views_of_list(items@);
    }
    let mut out: Vec<Descriptor> = Vec::new();
    let mut i: usize = 0;
    while i < items.len()
        invariant
            i <= items.len(),
            out@.len() == i,
            forall|j: int| 0 <= j < i ==> desc_of(name_key@)(#[trigger] ivs[j]) is Some,
            forall|j: int|
                0 <= j < i ==> Some(desc_view(#[trigger] out@[j])) == desc_of(name_key@)(ivs[j]),
        decreases items.len() - i,
    {
        match descriptor_of(&items[i], name_key) {
            Some(d) => {
                out.push(d);
            },
            None => {
                proof {
                    lemma_map_items_none(ivs, desc_of(name_key@), i as int);
                }
                return Err(ClientError::Codec);
            },
        }
        i += 1;
    }
    proof {
        lemma_map_items_some(ivs, desc_of(name_key@));
    }
    Ok(out)
}

/// What one content item denotes: a text, an image with data and mime type,
/// or a reference to a resource by URI.
pub open spec fn content_of() -> spec_fn(JsonV) -> Option<ContentV> {
    |v: JsonV|
        match v {
            JsonV::Obj(o) => match obj_getv(o, ascii_of("type"@)) {
                Some(JsonV::Str(t)) => if t == ascii_of("text"@) {
                    match obj_getv(o, ascii_of("text"@)) {
                        Some(JsonV::Str(txt)) => Some(ContentV::Text(txt)),
                        _ => None,
                    }
                } else if t == ascii_of("image"@) {
                    match (obj_getv(o, ascii_of("data"@)), obj_getv(o, ascii_of("mimeType"@))) {
                        (Some(JsonV::Str(d)), Some(JsonV::Str(m))) => Some(
                            ContentV::Image { data: d, mime: m },
                        ),
                        _ => None,
                    }
                } else if t == ascii_of("resource"@) {
                    match obj_getv(o, ascii_of("uri"@)) {
                        Some(JsonV::Str(u)) => Some(ContentV::ResourceRef(u)),
                        _ => None,
                    }
                } else {
                    None
                },
                _ => None,
            },
            _ => None,
        }
}

/// The content list carried by a tool-call or prompt result under `content`.
pub open spec fn spec_contents(v: JsonV) -> Option<Seq<ContentV>> {
    match v {
        JsonV::Obj(o) => match obj_getv(o, ascii_of("content"@)) {
            Some(JsonV::Arr(items)) => map_items(items, content_of()),
            _ => None,
        },
        _ => None,
    }
}

/// Reads one content item.
fn content_item(item: &Json) -> (r: Option<Content>)
    ensures
        match content_of()(item@) {
            Some(cv) => r matches Some(c) && c@ == cv,
            None => r is None,
        },
{
    proof {
        reveal_strlit("type");
        reveal_strlit("text");
        reveal_strlit("image");
        reveal_strlit("data");
        reveal_strlit("mimeType");
        reveal_strlit("resource");
        reveal_strlit("uri");
        match item {
            Json::Obj(o) => {
                crate::codec::lemma_obj_getv(o@, ascii_of("type"@));
                crate::codec::lemma_obj_getv(o@, ascii_of("text"@));
                crate::codec::lemma_obj_getv(o@, ascii_of("data"@));
                crate::codec::lemma_obj_getv(o@, ascii_of("mimeType"@));
                crate::codec::lemma_obj_getv(o@, ascii_of("uri"@));
            },
            _ => {},
        }
    }
    let t = match item.obj_get(str_bytes("type").as_slice()) {
        Some(Json::Str(t)) => t,
        _ => {
            return None;
        },
    };
    if bytes_eq(t.as_slice(), str_bytes("text").as_slice()) {
        match item.obj_get(str_bytes("text").as_slice()) {
            Some(Json::Str(txt)) => Some(Content::Text(vstd::slice::slice_to_vec(txt.as_slice()))),
            _ => None,
        }
    } else if bytes_eq(t.as_slice(), str_bytes("image").as_slice()) {
        let data = match item.obj_get(str_bytes("data").as_slice()) {
            Some(Json::Str(d)) => vstd::slice::slice_to_vec(d.as_slice()),
            _ => {
                return None;
            },
        };
        match item.obj_get(str_bytes("mimeType").as_slice()) {
            Some(Json::Str(m)) => Some(
                Content::Image { data, mime: vstd::slice::slice_to_vec(m.as_slice()) },
            ),
            _ => None,
        }
    } else if bytes_eq(t.as_slice(), str_bytes("resource").as_slice()) {
        match item.obj_get(str_bytes("uri").as_slice()) {
            Some(Json::Str(u)) => Some(
                Content::ResourceRef(vstd::slice::slice_to_vec(u.as_slice())),
            ),
            _ => None,
        }
    } else {
        None
    }
}

/// Reads the content list of a tool-call or prompt result. Any other shape
/// is a codec error.
#[verifier::loop_isolation(false)]
pub fn parse_contents(v: &Json) -> (r: Result<Vec<Content>, ClientError>)
    ensures
        match spec_contents(v@) {
            Some(cs) => r matches Ok(out) && out@.len() == cs.len() && (forall|j: int|
                0 <= j < cs.len() ==> (#[trigger] out@[j])@ == cs[j]),
            None => r == Err::<Vec<Content>, ClientError>(ClientError::Codec),
        },
{
    proof {
        reveal_strlit("content");
        match v {
            Json::Obj(o) => {
                crate::codec::lemma_obj_getv(o@, ascii_of("content"@));
            },
            _ => {},
        }
    }
    let items = match v.obj_get(str_bytes("content").as_slice()) {
        Some(Json::Arr(items)) => items,
        _ => {
            return Err(ClientError::Codec);
        },
    };
    let ghost ivs = views_of_list(items@);
    proof {
        crate::json::lemma_views_of_list(items@);
    }
    let mut out: Vec<Content> = Vec::new();
    let mut i: usize = 0;
    while i < items.len()
        invariant
            i <= items.len(),
            out@.len() == i,
            forall|j: int| 0 <= j < i ==> content_of()(#[trigger] ivs[j]) is Some,
            forall|j: int| 0 <= j < i ==> Some((#[trigger] out@[j])@) == content_of()(ivs[j]),
        decreases items.len() - i,
    {
        match content_item(&items[i]) {
            Some(c) => {
                out.push(c);
            },
            None => {
                proof {
                    lemma_map_items_none(ivs, content_of(), i as int);
                }
                return Err(ClientError::Codec);
            },
        }
        i += 1;
    }
    proof {
        lemma_map_items_some(ivs, content_of());
    }
    Ok(out)
}


/// One entry of a resource read: its URI and optional mime type, text and
/// binary payloads.
pub struct ResourceContent {
    pub uri: Vec<u8>,
    pub mime: Option<Vec<u8>>,
    pub body: Option<Vec<u8>>,
    pub blob: Option<Vec<u8>>,
}

/// The mathematical value of a resource entry.
pub type ResourceContentV = (Seq<u8>, Option<Seq<u8>>, Option<Seq<u8>>, Option<Seq<u8>>);

pub open spec fn rc_view(c: ResourceContent) -> ResourceContentV {
    (c.uri@, bytes_opt_view(c.mime), bytes_opt_view(c.body), bytes_opt_view(c.blob))
}

pub open spec fn bytes_opt_view(x: Option<Vec<u8>>) -> Option<Seq<u8>> {
    match x {
        Some(b) => Some(b@),
        None => None,
    }
}

/// An optional string member: absent is fine, present must be a string.
pub open spec fn opt_str(x: Option<JsonV>) -> Option<Option<Seq<u8>>> {
    match x {
        None => Some(None),
        Some(JsonV::Str(s)) => Some(Some(s)),
        Some(_) => None,
    }
}

/// What one resource entry denotes.
pub open spec fn rc_of() -> spec_fn(JsonV) -> Option<ResourceContentV> {
    |v: JsonV|
        match v {
            JsonV::Obj(o) => match obj_getv(o, ascii_of("uri"@)) {
                Some(JsonV::Str(u)) => match (
                    opt_str(obj_getv(o, ascii_of("mimeType"@))),
                    opt_str(obj_getv(o, ascii_of("text"@))),
                    opt_str(obj_getv(o, ascii_of("blob"@))),
                ) {
                    (Some(m), Some(tx), Some(bl)) => Some((u, m, tx, bl)),
                    _ => None,
                },
                _ => None,
            },
            _ => None,
        }
}

/// The entry list carried by a resource-read result under `contents`.
pub open spec fn spec_resource_contents(v: JsonV) -> Option<Seq<ResourceContentV>> {
    match v {
        JsonV::Obj(o) => match obj_getv(o, ascii_of("contents"@)) {
            Some(JsonV::Arr(items)) => map_items(items, rc_of()),
            _ => None,
        },
        _ => None,
    }
}

/// Reads one optional string member.
fn get_opt_str(item: &Json, key: &str) -> (r: Result<Option<Vec<u8>>, ClientError>)
    requires
        vstd::string::is_ascii(key),
    ensures
        ({
            let looked = match item {
                Json::Obj(o) => obj_getv(views_of_pairs(o@), ascii_of(key@)),
                _ => None,
            };
            match opt_str(looked) {
                Some(sv) => r matches Ok(out) && bytes_opt_view(out) == sv,
                None => r == Err::<Option<Vec<u8>>, ClientError>(ClientError::Codec),
            }
        }),
{
    proof {
        match item {
            Json::Obj(o) => {
                crate::codec::lemma_obj_getv(o@, ascii_of(key@));
            },
            _ => {},
        }
    }
    match item.obj_get(str_bytes(key).as_slice()) {
        Some(Json::Str(s)) => Ok(Some(vstd::slice::slice_to_vec(s.as_slice()))),
        None => Ok(None),
        Some(_) => Err(ClientError::Codec),
    }
}

/// Reads one resource entry.
fn resource_content_of(item: &Json) -> (r: Option<ResourceContent>)
    ensures
        match rc_of()(item@) {
            Some(cv) => r matches Some(c) && rc_view(c) == cv,
            None => r is None,
        },
{
    proof {
        reveal_strlit("uri");
        reveal_strlit("mimeType");
        reveal_strlit("text");
        reveal_strlit("blob");
        match item {
            Json::Obj(o) => {
                crate::codec::lemma_obj_getv(o@, ascii_of("uri"@));
            },
            _ => {},
        }
    }
    let uri = match item.obj_get(str_bytes("uri").as_slice()) {
        Some(Json::Str(u)) => vstd::slice::slice_to_vec(u.as_slice()),
        _ => {
            return None;
        },
    };
    let mime = match get_opt_str(item, "mimeType") {
        Ok(x) => x,
        Err(_) => {
            return None;
        },
    };
    let body = match get_opt_str(item, "text") {
        Ok(x) => x,
        Err(_) => {
            return None;
        },
    };
    let blob = match get_opt_str(item, "blob") {
        Ok(x) => x,
        Err(_) => {
            return None;
        },
    };
    Some(ResourceContent { uri, mime, body, blob })
}

/// Reads a resource-read result: the entries under `contents`. Any other
/// shape is a codec error.
#[verifier::loop_isolation(false)]
pub fn parse_resource_contents(v: &Json) -> (r: Result<Vec<ResourceContent>, ClientError>)
    ensures
        match spec_resource_contents(v@) {
            Some(cs) => r matches Ok(out) && out@.len() == cs.len() && (forall|j: int|
                0 <= j < cs.len() ==> rc_view(#[trigger] out@[j]) == cs[j]),
            None => r == Err::<Vec<ResourceContent>, ClientError>(ClientError::Codec),
        },
{
    proof {
        reveal_strlit("contents");
        match v {
            Json::Obj(o) => {
                crate::codec::lemma_obj_getv(o@, ascii_of("contents"@));
            },
            _ => {},
        }
    }
    let items = match v.obj_get(str_bytes("contents").as_slice()) {
        Some(Json::Arr(items)) => items,
        _ => {
            return Err(ClientError::Codec);
        },
    };
    let ghost ivs = views_of_list(items@);
    proof {
        crate::json::lemma_views_of_list(items@);
    }
    let mut out: Vec<ResourceContent> = Vec::new();
    let mut i: usize = 0;
    while i < items.len()
        invariant
            i <= items.len(),
            out@.len() == i,
            forall|j: int| 0 <= j < i ==> rc_of()(#[trigger] ivs[j]) is Some,
            forall|j: int| 0 <= j < i ==> Some(rc_view(#[trigger] out@[j])) == rc_of()(ivs[j]),
        decreases items.len() - i,
    {
        match resource_content_of(&items[i]) {
            Some(c) => {
                out.push(c);
            },
            None => {
                proof {
                    lemma_map_items_none(ivs, rc_of(), i as int);
                }
                return Err(ClientError::Codec);
            },
        }
        i += 1;
    }
    proof {
        lemma_map_items_some(ivs, rc_of());
    }
    Ok(out)
}

/// One message of a prompt: the speaking role and its content.
pub struct PromptMessage {
    pub role: Vec<u8>,
    pub content: Content,
}

/// The mathematical value of a prompt message.
pub type PromptMessageV = (Seq<u8>, ContentV);

pub open spec fn pm_view(m: PromptMessage) -> PromptMessageV {
    (m.role@, m.content@)
}

/// What one prompt message denotes.
pub open spec fn pm_of() -> spec_fn(JsonV) -> Option<PromptMessageV> {
    |v: JsonV|
        match v {
            JsonV::Obj(o) => match (obj_getv(o, ascii_of("role"@)), obj_getv(
                o,
                ascii_of("content"@),
            )) {
                (Some(JsonV::Str(role)), Some(cv)) => match content_of()(cv) {
                    Some(c) => Some((role, c)),
                    None => None,
                },
                _ => None,
            },
            _ => None,
        }
}

/// The message list carried by a prompt result under `messages`, with its
/// optional description.
pub open spec fn spec_prompt_result(v: JsonV) -> Option<(Option<Seq<u8>>, Seq<PromptMessageV>)> {
    match v {
        JsonV::Obj(o) => match (
            opt_str(obj_getv(o, ascii_of("description"@))),
            obj_getv(o, ascii_of("messages"@)),
        ) {
            (Some(d), Some(JsonV::Arr(items))) => match map_items(items, pm_of()) {
                Some(ms) => Some((d, ms)),
                None => None,
            },
            _ => None,
        },
        _ => None,
    }
}

/// Reads one prompt message.
fn prompt_message_of(item: &Json) -> (r: Option<PromptMessage>)
    ensures
        match pm_of()(item@) {
            Some(mv) => r matches Some(m) && pm_view(m) == mv,
            None => r is None,
        },
{
    proof {
        reveal_strlit("role");
        reveal_strlit("content");
        match item {
            Json::Obj(o) => {
                crate::codec::lemma_obj_getv(o@, ascii_of("role"@));
                crate::codec::lemma_obj_getv(o@, ascii_of("content"@));
            },
            _ => {},
        }
    }
    let role = match item.obj_get(str_bytes("role").as_slice()) {
        Some(Json::Str(s)) => vstd::slice::slice_to_vec(s.as_slice()),
        _ => {
            return None;
        },
    };
    let content = match item.obj_get(str_bytes("content").as_slice()) {
        Some(cv) => match content_item(cv) {
            Some(c) => c,
            None => {
                return None;
            },
        },
        None => {
            return None;
        },
    };
    Some(PromptMessage { role, content })
}

/// Reads a prompt result: its optional description and its messages. Any
/// other shape is a codec error.
#[verifier::loop_isolation(false)]
pub fn parse_prompt_result(v: &Json) -> (r: Result<
    (Option<Vec<u8>>, Vec<PromptMessage>),
    ClientError,
>)
    ensures
        match spec_prompt_result(v@) {
            Some(pr) => r matches Ok(out) && bytes_opt_view(out.0) == pr.0 && out.1@.len()
                == pr.1.len() && (forall|j: int|
                0 <= j < pr.1.len() ==> pm_view(#[trigger] out.1@[j]) == pr.1[j]),
            None => r == Err::<(Option<Vec<u8>>, Vec<PromptMessage>), ClientError>(
                ClientError::Codec,
            ),
        },
{
    proof {
        reveal_strlit("description");
        reveal_strlit("messages");
        match v {
            Json::Obj(o) => {
                crate::codec::lemma_obj_getv(o@, ascii_of("messages"@));
            },
            _ => {},
        }
    }
    let description = match get_opt_str(v, "description") {
        Ok(x) => x,
        Err(_) => {
            return Err(ClientError::Codec);
        },
    };
    let items = match v.obj_get(str_bytes("messages").as_slice()) {
        Some(Json::Arr(items)) => items,
        _ => {
            return Err(ClientError::Codec);
        },
    };
    let ghost ivs = views_of_list(items@);
    proof {
        crate::json::lemma_views_of_list(items@);
    }
    let mut out: Vec<PromptMessage> = Vec::new();
    let mut i: usize = 0;
    while i < items.len()
        invariant
            i <= items.len(),
            out@.len() == i,
            forall|j: int| 0 <= j < i ==> pm_of()(#[trigger] ivs[j]) is Some,
            forall|j: int| 0 <= j < i ==> Some(pm_view(#[trigger] out@[j])) == pm_of()(ivs[j]),
        decreases items.len() - i,
    {
        match prompt_message_of(&items[i]) {
            Some(m) => {
                out.push(m);
            },
            None => {
                proof {
                    lemma_map_items_none(ivs, pm_of(), i as int);
                }
                return Err(ClientError::Codec);
            },
        }
        i += 1;
    }
    proof {
        lemma_map_items_some(ivs, pm_of());
    }
    Ok((description, out))
}

} // verus!
