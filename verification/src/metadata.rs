//! Metadata of objects across shard types.
//!
//! A raw shard keeps metadata after the body, an S3-like shard as attributes of the
//! object, and any other shard in a second object beside it, the sidecar.

use vstd::prelude::*;
use vstd::string::*;
use crate::ids::ShardId;
use crate::path;
use crate::path::path_from;
use crate::string_map;
use crate::string_map::StringMap;
use crate::text;
use crate::text::{str_eq, strip_prefix};
use crate::tlv;

verus! {

/// How a shard keeps metadata.
#[derive(Debug, Clone, Copy, PartialEq, Eq, Structural)]
pub enum ShardKind {
    /// After the body, on a raw device.
    Raw,
    /// As attributes of the object.
    S3Like,
    /// In a sidecar object.
    Sidecar,
}

/// A number by which the caller finds a raw store.
pub type RawHandle = usize;

/// What is known of the shards of a cluster.
pub struct Registry {
    /// The raw store of each shard that has one.
    pub refs: Seq<Option<usize>>,
    pub kinds: Seq<ShardKind>,
}

impl Registry {
    /// The raw store of a shard.
    pub open spec fn raw(self, id: usize) -> Option<usize> {
        if id < self.refs.len() {
            self.refs[id as int]
        } else {
            None
        }
    }

    /// The kind of a shard. One that is not known keeps metadata in sidecars.
    pub open spec fn kind_of(self, id: usize) -> ShardKind {
        if id < self.kinds.len() {
            self.kinds[id as int]
        } else {
            ShardKind::Sidecar
        }
    }
}

/// The raw stores among some slots.
pub open spec fn raw_stores(refs: Seq<Option<usize>>) -> Seq<usize>
    decreases refs.len(),
{
    if refs.len() == 0 {
        Seq::empty()
    } else {
        let head = raw_stores(refs.drop_last());
        match refs.last() {
            Some(h) => head.push(h),
            None => head,
        }
    }
}

/// The raw stores and the kinds of the shards of a cluster.
#[derive(Debug)]
pub struct RawRefRegistry {
    refs: Vec<Option<RawHandle>>,
    kinds: Vec<ShardKind>,
}

impl View for RawRefRegistry {
    type V = Registry;

    closed spec fn view(&self) -> Registry {
        Registry { refs: self.refs@, kinds: self.kinds@ }
    }
}

impl RawRefRegistry {
    #[verifier::type_invariant]
    spec fn inv(&self) -> bool {
        self.refs@.len() == self.kinds@.len()
    }

    /// A registry of shards, each with its raw store, if it has one, and its kind.
    pub fn new(refs: Vec<Option<RawHandle>>, kinds: Vec<ShardKind>) -> (r: Self)
        requires
            refs.len() == kinds.len(),
        ensures
            r@ == (Registry { refs: refs@, kinds: kinds@ }),
    {
        RawRefRegistry { refs, kinds }
    }

    /// A registry of one raw shard.
    pub fn single(raw: RawHandle) -> (r: Self)
        ensures
            r@ == (Registry { refs: seq![Some(raw)], kinds: seq![ShardKind::Raw] }),
    {
        let mut refs: Vec<Option<RawHandle>> = Vec::new();
        refs.push(Some(raw));
        let mut kinds: Vec<ShardKind> = Vec::new();
        kinds.push(ShardKind::Raw);
        assert(refs@ =~= seq![Some(raw)]);
        assert(kinds@ =~= seq![ShardKind::Raw]);
        RawRefRegistry { refs, kinds }
    }

    /// Another registry of the same stores and kinds.
    pub(crate) fn copy(&self) -> (r: Self)
        ensures
            r@ == self@,
    {
        proof {
            use_type_invariant(self);
        }
        let refs = self.refs.clone();
        let kinds = self.kinds.clone();
        assert(refs@ =~= self.refs@);
        assert(kinds@ =~= self.kinds@);
        RawRefRegistry { refs, kinds }
    }

    /// The raw store of a shard, if it has one.
    pub fn get(&self, shard_id: ShardId) -> (r: Option<RawHandle>)
        ensures
            r == self@.raw(shard_id),
    {
        if shard_id < self.refs.len() {
            self.refs[shard_id]
        } else {
            None
        }
    }

    /// The kind of a shard.
    pub fn kind(&self, shard_id: ShardId) -> (r: ShardKind)
        ensures
            r == self@.kind_of(shard_id),
    {
        if shard_id < self.kinds.len() {
            self.kinds[shard_id]
        } else {
            ShardKind::Sidecar
        }
    }

    /// All raw stores.
    pub fn all_raw(&self) -> (r: Vec<RawHandle>)
        ensures
            r@ == raw_stores(self@.refs),
    {
        let mut r: Vec<RawHandle> = Vec::new();
        let mut i: usize = 0;
        while i < self.refs.len()
            invariant
                i <= self.refs.len(),
                r@ == raw_stores(self.refs@.take(i as int)),
            decreases self.refs.len() - i,
        {
            assert(self.refs@.take(i + 1).drop_last() =~= self.refs@.take(i as int));
            match self.refs[i] {
                Some(h) => r.push(h),
                None => {},
            }
            i = i + 1;
        }
        assert(self.refs@.take(i as int) =~= self.refs@);
        r
    }

    /// The first raw store.
    pub fn first_raw(&self) -> (r: Option<RawHandle>)
        ensures
            r == (if raw_stores(self@.refs).len() > 0 {
                Some(raw_stores(self@.refs)[0])
            } else {
                None
            }),
    {
        let all = self.all_raw();
        if all.len() > 0 {
            Some(all[0])
        } else {
            None
        }
    }

    /// The number of shards.
    pub fn shard_count(&self) -> (n: usize)
        ensures
            n == self@.refs.len(),
            n == self@.kinds.len(),
    {
        proof {
            use_type_invariant(self);
        }
        self.refs.len()
    }
}

// -- Sidecars ---------------------------------------------------------------

/// What the name of a sidecar ends with.
pub open spec fn sidecar_suffix() -> Seq<char> {
    ".__meta__"@
}

/// The path of the sidecar of an object.
pub open spec fn sidecar_of(location: Seq<char>) -> Seq<char> {
    path::normalized(location + sidecar_suffix())
}

/// The path of the sidecar of an object.
pub fn meta_sidecar_path(location: &str) -> (r: String)
    ensures
        r@ == sidecar_of(location@),
{
    let mut s = location.to_owned();
    s.append(".__meta__");
    path_from(s.as_str())
}

/// Whether a key names a sidecar.
pub open spec fn names_sidecar(key: Seq<char>) -> bool {
    sidecar_suffix().is_suffix_of(key)
}

/// Whether a key names a sidecar.
pub fn is_sidecar(key: &str) -> (r: bool)
    ensures
        r == names_sidecar(key@),
{
    let suffix = ".__meta__";
    let n: usize = key.unicode_len();
    let k: usize = suffix.unicode_len();
    if n < k {
        return false;
    }
    str_eq(key.substring_char(n - k, n), suffix)
}

/// The sidecar to delete along with an object on a shard of some kind.
pub fn cleanup_sidecar(location: &str, kind: ShardKind) -> (r: Option<String>)
    ensures
        text::opt_view(r) == (if kind == ShardKind::Sidecar {
            Some(sidecar_of(location@))
        } else {
            None
        }),
{
    if kind == ShardKind::Sidecar {
        Some(meta_sidecar_path(location))
    } else {
        None
    }
}

/// What is known of the shards, in the terms of the model.
pub open spec fn refs_view(refs: Option<&RawRefRegistry>) -> Option<Registry> {
    match refs {
        Some(r) => Some(r@),
        None => None,
    }
}

/// Whether an object may have a sidecar on a shard: so too if nothing is known of the
/// shards.
pub open spec fn may_have_sidecar(refs: Option<Registry>, id: usize) -> bool {
    match refs {
        Some(r) => r.kind_of(id) == ShardKind::Sidecar,
        None => true,
    }
}

/// The sidecar to delete along with an object on a shard, if it may have one.
pub fn cleanup_sidecar_maybe(
    location: &str,
    refs: Option<&RawRefRegistry>,
    shard_id: ShardId,
) -> (r: Option<String>)
    ensures
        text::opt_view(r) == (if may_have_sidecar(refs_view(refs), shard_id) {
            Some(sidecar_of(location@))
        } else {
            None
        }),
{
    let maybe = match refs {
        Some(r) => r.kind(shard_id) == ShardKind::Sidecar,
        None => true,
    };
    if maybe {
        Some(meta_sidecar_path(location))
    } else {
        None
    }
}

// -- Attributes -------------------------------------------------------------

/// The name of an attribute of an object.
#[derive(Debug)]
pub enum AttributeName {
    ContentType,
    CacheControl,
    ContentDisposition,
    ContentEncoding,
    ContentLanguage,
    /// A field that the user has defined.
    Metadata(String),
    /// The storage class, which metadata has no field for.
    StorageClass,
}

/// The name of an attribute of an object.
pub enum AttributeKey {
    ContentType,
    CacheControl,
    ContentDisposition,
    ContentEncoding,
    ContentLanguage,
    Metadata(Seq<char>),
    StorageClass,
}

impl View for AttributeName {
    type V = AttributeKey;

    open spec fn view(&self) -> AttributeKey {
        match *self {
            AttributeName::ContentType => AttributeKey::ContentType,
            AttributeName::CacheControl => AttributeKey::CacheControl,
            AttributeName::ContentDisposition => AttributeKey::ContentDisposition,
            AttributeName::ContentEncoding => AttributeKey::ContentEncoding,
            AttributeName::ContentLanguage => AttributeKey::ContentLanguage,
            AttributeName::Metadata(s) => AttributeKey::Metadata(s@),
            AttributeName::StorageClass => AttributeKey::StorageClass,
        }
    }
}

/// `object_store::Attributes`: the attributes of an object.
#[verifier::external_type_specification]
#[verifier::external_body]
pub struct ExAttributes(object_store::Attributes);

/// The attributes that an `object_store::Attributes` holds, each with its value.
pub uninterp spec fn attributes_of(a: object_store::Attributes) -> Map<AttributeKey, Seq<char>>;

/// `object_store::Attributes::new`: no attributes.
#[verifier::external_body]
fn no_attributes() -> (a: object_store::Attributes)
    ensures
        forall|k: AttributeKey| !(#[trigger] attributes_of(a).contains_key(k)),
{
    object_store::Attributes::new()
}

/// `object_store::Attributes::insert`: sets the value of an attribute, in place of
/// the one that it had.
#[verifier::external_body]
fn insert_attribute(a: &mut object_store::Attributes, name: AttributeName, value: &str)
    ensures
        attributes_of(*final(a)) == attributes_of(*old(a)).insert(name@, value@),
{
    let key = match name {
        AttributeName::ContentType => object_store::Attribute::ContentType,
        AttributeName::CacheControl => object_store::Attribute::CacheControl,
        AttributeName::ContentDisposition => object_store::Attribute::ContentDisposition,
        AttributeName::ContentEncoding => object_store::Attribute::ContentEncoding,
        AttributeName::ContentLanguage => object_store::Attribute::ContentLanguage,
        AttributeName::Metadata(s) => object_store::Attribute::Metadata(s.into()),
        AttributeName::StorageClass => object_store::Attribute::StorageClass,
    };
    a.insert(key, value.to_string().into());
}

/// `object_store::Attributes::iter`: each attribute once, with its value, in no
/// particular order.
#[verifier::external_body]
fn list_attributes(a: &object_store::Attributes) -> (r: Vec<(AttributeName, String)>)
    ensures
        forall|i: int|
            0 <= i < r.len() ==> attributes_of(*a).contains_key((#[trigger] r@[i]).0@)
                && attributes_of(*a)[r@[i].0@] == r@[i].1@,
        forall|i: int, j: int|
            0 <= i < j < r.len() ==> (#[trigger] r@[i]).0@ != (#[trigger] r@[j]).0@,
        forall|k: AttributeKey| #[trigger]
            attributes_of(*a).contains_key(k) ==> exists|i: int|
                0 <= i < r.len() && (#[trigger] r@[i]).0@ == k,
{
    a.iter().map(|(k, v)| (match k {
        object_store::Attribute::ContentType => AttributeName::ContentType,
        object_store::Attribute::CacheControl => AttributeName::CacheControl,
        object_store::Attribute::ContentDisposition => AttributeName::ContentDisposition,
        object_store::Attribute::ContentEncoding => AttributeName::ContentEncoding,
        object_store::Attribute::ContentLanguage => AttributeName::ContentLanguage,
        object_store::Attribute::Metadata(s) => AttributeName::Metadata(s.to_string()),
        _ => AttributeName::StorageClass,
    }, v.as_ref().to_string())).collect()
}

/// The attribute that stands for a field of metadata, if there is one.
pub open spec fn attribute_for(field: Seq<char>) -> Option<AttributeKey> {
    if field == "content-type"@ {
        Some(AttributeKey::ContentType)
    } else if field == "cache-control"@ {
        Some(AttributeKey::CacheControl)
    } else if field == "content-disposition"@ {
        Some(AttributeKey::ContentDisposition)
    } else if field == "content-encoding"@ {
        Some(AttributeKey::ContentEncoding)
    } else if field == "content-language"@ {
        Some(AttributeKey::ContentLanguage)
    } else {
        match text::after_prefix(field, tlv::custom_prefix()) {
            Some(suffix) => Some(AttributeKey::Metadata(suffix)),
            None => None,
        }
    }
}

/// The field of metadata that an attribute stands for, if there is one.
pub open spec fn field_for(k: AttributeKey) -> Option<Seq<char>> {
    match k {
        AttributeKey::ContentType => Some("content-type"@),
        AttributeKey::CacheControl => Some("cache-control"@),
        AttributeKey::ContentDisposition => Some("content-disposition"@),
        AttributeKey::ContentEncoding => Some("content-encoding"@),
        AttributeKey::ContentLanguage => Some("content-language"@),
        AttributeKey::Metadata(suffix) => Some(tlv::custom_prefix() + suffix),
        AttributeKey::StorageClass => None,
    }
}

/// The attributes that stand for the fields of metadata.
pub open spec fn attributes_from(meta: Map<Seq<char>, Seq<char>>) -> Map<AttributeKey, Seq<char>> {
    Map::new(
        |k: AttributeKey| field_for(k) is Some && meta.contains_key(field_for(k)->0),
        |k: AttributeKey| meta[field_for(k)->0],
    )
}

/// The fields of metadata that attributes stand for.
pub open spec fn meta_from(attributes: Map<AttributeKey, Seq<char>>) -> Map<Seq<char>, Seq<char>> {
    Map::new(
        |f: Seq<char>| attribute_for(f) is Some && attributes.contains_key(attribute_for(f)->0),
        |f: Seq<char>| attributes[attribute_for(f)->0],
    )
}

proof fn lemma_field_names()
    ensures
        "content-type"@ != "cache-control"@,
        "content-type"@ != "content-disposition"@,
        "content-type"@ != "content-encoding"@,
        "content-type"@ != "content-language"@,
        "cache-control"@ != "content-disposition"@,
        "cache-control"@ != "content-encoding"@,
        "cache-control"@ != "content-language"@,
        "content-disposition"@ != "content-encoding"@,
        "content-disposition"@ != "content-language"@,
        "content-encoding"@ != "content-language"@,
        forall|s: Seq<char>|
            #![trigger tlv::custom_prefix() + s]
            "content-type"@ != tlv::custom_prefix() + s && "cache-control"@ != tlv::custom_prefix()
                + s && "content-disposition"@ != tlv::custom_prefix() + s && "content-encoding"@
                != tlv::custom_prefix() + s && "content-language"@ != tlv::custom_prefix() + s,
{
    reveal_strlit("content-type");
    reveal_strlit("cache-control");
    reveal_strlit("content-disposition");
    reveal_strlit("content-encoding");
    reveal_strlit("content-language");
    reveal_strlit("x-amz-meta-");
    assert("content-type"@[8] == 't');
    assert("content-disposition"@[8] == 'd');
    assert("content-encoding"@[8] == 'e');
    assert("content-language"@[8] == 'l');
    assert("cache-control"@[1] == 'a');
    assert("content-type"@[0] == 'c' && "cache-control"@[0] == 'c');
    assert("content-disposition"@[0] == 'c' && "content-encoding"@[0] == 'c');
    assert("content-language"@[0] == 'c');
    assert forall|s: Seq<char>|
        #![trigger tlv::custom_prefix() + s]
        "content-type"@ != tlv::custom_prefix() + s && "cache-control"@ != tlv::custom_prefix() + s
            && "content-disposition"@ != tlv::custom_prefix() + s && "content-encoding"@
            != tlv::custom_prefix() + s && "content-language"@ != tlv::custom_prefix() + s by {
        assert((tlv::custom_prefix() + s)[0] == 'x');
    }
}

/// Each field that has an attribute is the one that the attribute stands for, and the
/// other way round.
pub proof fn attributes_and_fields_are_inverse(field: Seq<char>, k: AttributeKey)
    ensures
        attribute_for(field) == Some(k) <==> field_for(k) == Some(field),
{
    lemma_field_names();
    if attribute_for(field) == Some(k) && k is Metadata {
        assert(tlv::custom_prefix() + field.skip(tlv::custom_prefix().len() as int) =~= field);
    }
    if field_for(k) == Some(field) && k is Metadata {
        let suffix = k->Metadata_0;
        assert(field == tlv::custom_prefix() + suffix);
        assert(tlv::custom_prefix().is_prefix_of(field));
        assert(field.skip(tlv::custom_prefix().len() as int) =~= suffix);
    }
}

fn attribute_name(field: &str) -> (r: Option<AttributeName>)
    ensures
        match r {
            Some(name) => attribute_for(field@) == Some(name@),
            None => attribute_for(field@) is None,
        },
{
    if str_eq(field, "content-type") {
        Some(AttributeName::ContentType)
    } else if str_eq(field, "cache-control") {
        Some(AttributeName::CacheControl)
    } else if str_eq(field, "content-disposition") {
        Some(AttributeName::ContentDisposition)
    } else if str_eq(field, "content-encoding") {
        Some(AttributeName::ContentEncoding)
    } else if str_eq(field, "content-language") {
        Some(AttributeName::ContentLanguage)
    } else {
        match strip_prefix(field, "x-amz-meta-") {
            Some(suffix) => Some(AttributeName::Metadata(suffix.to_owned())),
            None => None,
        }
    }
}

fn field_name(name: &AttributeName) -> (r: Option<String>)
    ensures
        text::opt_view(r) == field_for(name@),
{
    match name {
        AttributeName::ContentType => Some("content-type".to_owned()),
        AttributeName::CacheControl => Some("cache-control".to_owned()),
        AttributeName::ContentDisposition => Some("content-disposition".to_owned()),
        AttributeName::ContentEncoding => Some("content-encoding".to_owned()),
        AttributeName::ContentLanguage => Some("content-language".to_owned()),
        AttributeName::Metadata(s) => {
            let mut f = "x-amz-meta-".to_owned();
            f.append(s.as_str());
            Some(f)
        },
        AttributeName::StorageClass => None,
    }
}

/// The attributes that stand for the fields of metadata. A field without an attribute
/// is dropped.
pub fn meta_to_attributes(meta: &StringMap<String>) -> (a: object_store::Attributes)
    ensures
        attributes_of(a) == attributes_from(meta@),
{
    let mut a = no_attributes();
    let n: usize = meta.len();
    let ghost keys = string_map::sorted(meta@.dom());
    let ghost done = |i: int, k: AttributeKey|
        field_for(k) is Some && keys.take(i).contains(field_for(k)->0);
    let mut i: usize = 0;
    while i < n
        invariant
            i <= n,
            n == keys.len(),
            keys == string_map::sorted(meta@.dom()),
            done == (|i: int, k: AttributeKey|
                field_for(k) is Some && keys.take(i).contains(field_for(k)->0)),
            forall|k: AttributeKey| #[trigger]
                attributes_of(a).contains_key(k) <==> done(i as int, k),
            forall|k: AttributeKey| #[trigger]
                attributes_of(a).contains_key(k) ==> attributes_of(a)[k] == meta@[field_for(k)->0],
        decreases n - i,
    {
        let field = meta.key_at(i);
        let value = meta.value_at(i);
        let ghost before = attributes_of(a);
        proof {
            assert(keys.take(i + 1) =~= keys.take(i as int).push(field@));
            assert forall|f: Seq<char>| keys.take(i + 1).contains(f) <==> (keys.take(
                i as int,
            ).contains(f) || f == field@) by {
                if keys.take(i as int).contains(f) {
                    let j = keys.take(i as int).index_of(f);
                    assert(keys.take(i + 1)[j] == f);
                }
                assert(keys.take(i + 1)[i as int] == field@);
            }
        }
        match attribute_name(field.as_str()) {
            Some(name) => {
                let ghost key = name@;
                insert_attribute(&mut a, name, value.as_str());
                proof {
                    assert forall|k: AttributeKey| #[trigger]
                        attributes_of(a).contains_key(k) <==> done(i + 1, k) by {
                        attributes_and_fields_are_inverse(field@, k);
                        attributes_and_fields_are_inverse(field@, key);
                    }
                    assert forall|k: AttributeKey| #[trigger]
                        attributes_of(a).contains_key(k) implies attributes_of(a)[k]
                        == meta@[field_for(k)->0] by {
                        attributes_and_fields_are_inverse(field@, key);
                        if k != key {
                            assert(before.contains_key(k));
                        }
                    }
                }
            },
            None => {
                proof {
                    assert forall|k: AttributeKey| #[trigger]
                        attributes_of(a).contains_key(k) <==> done(i + 1, k) by {
                        attributes_and_fields_are_inverse(field@, k);
                    }
                }
            },
        }
        i = i + 1;
    }
    proof {
        assert(keys.take(n as int) =~= keys);
        assert forall|k: AttributeKey| #[trigger]
            attributes_of(a).contains_key(k) <==> attributes_from(meta@).contains_key(k) by {
            assert(done(n as int, k) == (field_for(k) is Some && keys.contains(field_for(k)->0)));
            assert(keys.to_set() == meta@.dom());
            if field_for(k) is Some {
                assert(keys.to_set().contains(field_for(k)->0) == keys.contains(field_for(k)->0));
            }
        }
        assert(attributes_of(a) =~= attributes_from(meta@));
    }
    a
}

/// The fields of metadata that attributes stand for. An attribute without a field is
/// dropped.
pub fn attributes_to_meta(attributes: &object_store::Attributes) -> (meta: StringMap<String>)
    ensures
        meta@ == meta_from(attributes_of(*attributes)),
{
    let list = list_attributes(attributes);
    let ghost all = attributes_of(*attributes);
    let mut meta: StringMap<String> = StringMap::new();
    let ghost has = |i: int, f: Seq<char>|
        exists|j: int| 0 <= j < i && field_for((#[trigger] list@[j]).0@) == Some(f);
    let mut i: usize = 0;
    while i < list.len()
        invariant
            i <= list.len(),
            all == attributes_of(*attributes),
            forall|i: int|
                0 <= i < list.len() ==> all.contains_key((#[trigger] list@[i]).0@)
                    && all[list@[i].0@] == list@[i].1@,
            has == (|i: int, f: Seq<char>|
                exists|j: int| 0 <= j < i && field_for((#[trigger] list@[j]).0@) == Some(f)),
            forall|f: Seq<char>| #[trigger] meta@.contains_key(f) <==> has(i as int, f),
            forall|f: Seq<char>| #[trigger]
                meta@.contains_key(f) ==> attribute_for(f) is Some && all.contains_key(
                    attribute_for(f)->0,
                ) && meta@[f] == all[attribute_for(f)->0],
        decreases list.len() - i,
    {
        let ghost before = meta@;
        let ghost k = list@[i as int].0@;
        match field_name(&list[i].0) {
            Some(f) => {
                let ghost name = f@;
                meta.insert(f, list[i].1.clone());
                proof {
                    attributes_and_fields_are_inverse(name, k);
                    assert forall|g: Seq<char>| #[trigger] meta@.contains_key(g) <==> has(
                        i + 1,
                        g,
                    ) by {
                        if before.contains_key(g) {
                            assert(has(i as int, g));
                        }
                        if has(i + 1, g) {
                            let j = choose|j: int|
                                0 <= j < i + 1 && field_for((#[trigger] list@[j]).0@) == Some(g);
                            if j < i {
                                assert(has(i as int, g));
                            }
                        }
                        assert(field_for(list@[i as int].0@) == Some(name));
                    }
                    assert forall|g: Seq<char>| #[trigger]
                        meta@.contains_key(g) implies attribute_for(g) is Some && all.contains_key(
                        attribute_for(g)->0,
                    ) && meta@[g] == all[attribute_for(g)->0] by {
                        if g != name {
                            assert(before.contains_key(g));
                        }
                    }
                }
            },
            None => {
                proof {
                    assert forall|g: Seq<char>| #[trigger] meta@.contains_key(g) <==> has(
                        i + 1,
                        g,
                    ) by {
                        if has(i as int, g) {
                            let j = choose|j: int|
                                0 <= j < i && field_for((#[trigger] list@[j]).0@) == Some(g);
                            assert(field_for(list@[j].0@) == Some(g));
                        }
                        if has(i + 1, g) {
                            let j = choose|j: int|
                                0 <= j < i + 1 && field_for((#[trigger] list@[j]).0@) == Some(g);
                            assert(j < i);
                        }
                    }
                }
            },
        }
        i = i + 1;
    }
    proof {
        assert forall|f: Seq<char>|
            attribute_for(f) is Some && all.contains_key(attribute_for(f)->0) implies #[trigger]
        meta@.contains_key(f) by {
            let k = attribute_for(f)->0;
            attributes_and_fields_are_inverse(f, k);
            let j = choose|j: int| 0 <= j < list.len() && (#[trigger] list@[j]).0@ == k;
            assert(field_for(list@[j].0@) == Some(f));
            assert(has(i as int, f));
        }
        assert(meta@ =~= meta_from(all));
    }
    meta
}

/// What attributes give back of metadata is its fields that have an attribute.
pub proof fn attributes_give_back_the_fields_they_stand_for(meta: Map<Seq<char>, Seq<char>>)
    ensures
        meta_from(attributes_from(meta)) == meta.restrict(
            Set::new(|f: Seq<char>| attribute_for(f) is Some),
        ),
{
    let back = meta_from(attributes_from(meta));
    let kept = meta.restrict(Set::new(|f: Seq<char>| attribute_for(f) is Some));
    assert forall|f: Seq<char>| #[trigger] back.contains_key(f) <==> kept.contains_key(f) by {
        if attribute_for(f) is Some {
            attributes_and_fields_are_inverse(f, attribute_for(f)->0);
        }
    }
    assert forall|f: Seq<char>| #[trigger] back.contains_key(f) implies back[f] == kept[f] by {
        attributes_and_fields_are_inverse(f, attribute_for(f)->0);
    }
    assert(back =~= kept);
}

/// What metadata gives back of attributes is those that stand for a field.
pub proof fn metadata_gives_back_the_attributes_with_a_field(
    attributes: Map<AttributeKey, Seq<char>>,
)
    ensures
        attributes_from(meta_from(attributes)) == attributes.restrict(
            Set::new(|k: AttributeKey| field_for(k) is Some),
        ),
{
    let back = attributes_from(meta_from(attributes));
    let kept = attributes.restrict(Set::new(|k: AttributeKey| field_for(k) is Some));
    assert forall|k: AttributeKey| #[trigger] back.contains_key(k) <==> kept.contains_key(k) by {
        if field_for(k) is Some {
            attributes_and_fields_are_inverse(field_for(k)->0, k);
        }
    }
    assert forall|k: AttributeKey| #[trigger] back.contains_key(k) implies back[k] == kept[k] by {
        attributes_and_fields_are_inverse(field_for(k)->0, k);
    }
    assert(back =~= kept);
}

/// The sidecar of an object is known by its name, so that no scan takes it for an object.
pub proof fn a_sidecar_is_known_by_its_name(location: Seq<char>)
    ensures
        names_sidecar(sidecar_of(location)),
{
    reveal_strlit(".__meta__");
    path::a_plain_end_stays_at_the_end(location, sidecar_suffix());
}

/// The raw stores of a cluster are those that a shard has, in the order of the shards.
pub proof fn raw_stores_are_those_of_the_shards(
    refs: Seq<Option<usize>>,
    more: Seq<Option<usize>>,
    h: usize,
)
    ensures
        raw_stores(refs).contains(h) <==> refs.contains(Some(h)),
        raw_stores(refs + more) == raw_stores(refs) + raw_stores(more),
        raw_stores(seq![Some(h)]) == seq![h],
        raw_stores(seq![None]) == Seq::<usize>::empty(),
{
    lemma_raw_store(refs, h);
    lemma_raw_stores_both(refs, more);
    assert(seq![Some(h)].drop_last() =~= Seq::<Option<usize>>::empty());
    assert(raw_stores(Seq::empty()) == Seq::<usize>::empty());
    assert(raw_stores(seq![Some(h)]) =~= seq![h]);
    assert(seq![None::<usize>].drop_last() =~= Seq::<Option<usize>>::empty());
}

proof fn lemma_raw_store(refs: Seq<Option<usize>>, h: usize)
    ensures
        raw_stores(refs).contains(h) <==> refs.contains(Some(h)),
    decreases refs.len(),
{
    if refs.len() > 0 {
        let head = refs.drop_last();
        lemma_raw_store(head, h);
        assert(refs =~= head.push(refs.last()));
        if refs.contains(Some(h)) {
            let i = refs.index_of(Some(h));
            if i < head.len() {
                assert(head[i] == Some(h));
                let k = raw_stores(head).index_of(h);
                assert(raw_stores(refs)[k] == h);
            } else {
                assert(raw_stores(refs)[raw_stores(head).len() as int] == h);
            }
        }
        if raw_stores(refs).contains(h) {
            let k = raw_stores(refs).index_of(h);
            if k < raw_stores(head).len() {
                assert(raw_stores(head)[k] == h);
                let i = head.index_of(Some(h));
                assert(refs[i] == Some(h));
            } else {
                assert(refs[refs.len() - 1] == Some(h));
            }
        }
    }
}

proof fn lemma_raw_stores_both(refs: Seq<Option<usize>>, more: Seq<Option<usize>>)
    ensures
        raw_stores(refs + more) == raw_stores(refs) + raw_stores(more),
    decreases more.len(),
{
    if more.len() == 0 {
        assert(refs + more =~= refs);
        assert(raw_stores(refs) + raw_stores(more) =~= raw_stores(refs));
    } else {
        lemma_raw_stores_both(refs, more.drop_last());
        assert((refs + more).drop_last() =~= refs + more.drop_last());
        assert(raw_stores(refs + more) =~= raw_stores(refs) + raw_stores(more));
    }
}

/// A shard of which nothing is known keeps metadata in sidecars, and only on shards that
/// do so is there a sidecar to delete. A shard has no raw store unless one is known.
pub proof fn a_sidecar_is_only_where_metadata_is_kept_in_one(r: Registry, id: usize)
    ensures
        id >= r.kinds.len() ==> r.kind_of(id) == ShardKind::Sidecar,
        id < r.kinds.len() ==> r.kind_of(id) == r.kinds[id as int],
        may_have_sidecar(Some(r), id) <==> r.kind_of(id) == ShardKind::Sidecar,
        may_have_sidecar(None, id),
        r.raw(id) is Some ==> id < r.refs.len() && r.raw(id) == r.refs[id as int],
        id < r.refs.len() && r.refs[id as int] is Some ==> r.raw(id) is Some,
{
}

} // verus!
