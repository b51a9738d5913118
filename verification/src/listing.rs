//! Listing objects.

use vstd::prelude::*;
use vstd::string::*;
use crate::catalog;
use crate::catalog::ObjectMeta;
use crate::markers;
use crate::path;
use crate::path::path_from;
use crate::placement;
use crate::store;
use crate::store::ShardedObjectStore;
use crate::string_map;
use crate::string_map::StringMap;
use crate::text;
use crate::text::{chars_of, string_of, strip_prefix};

verus! {

/// The objects of a listing that are no delete markers.
pub open spec fn visible(list: Seq<catalog::ObjectSpec>) -> Seq<catalog::ObjectSpec> {
    list.filter(|m: catalog::ObjectSpec| !markers::is_marker(m.location))
}

/// The visible objects whose key starts with a prefix, or all of them.
pub open spec fn listed(c: store::ClusterState, prefix: Option<Seq<char>>) -> Seq<
    catalog::ObjectSpec,
> {
    visible(markers::catalog_listing(c, prefix))
}

/// The part of a location after a prefix, without the slashes that lead it.
pub open spec fn relative(prefix: Seq<char>, location: Seq<char>) -> Seq<char> {
    let rest = match text::after_prefix(location, prefix) {
        Some(r) => r,
        None => location,
    };
    rest.skip(text::span(rest, |c: char| c != '/') as int)
}

/// A text without the slashes that end it.
pub open spec fn without_end_slashes(s: Seq<char>) -> Seq<char>
    decreases s.len(),
{
    if s.len() > 0 && s.last() == '/' {
        without_end_slashes(s.drop_last())
    } else {
        s
    }
}

/// The directory under a prefix that a location lies in, unless it lies directly under
/// the prefix.
pub open spec fn directory(prefix: Seq<char>, location: Seq<char>) -> Option<Seq<char>> {
    let rest = relative(prefix, location);
    let n = text::span(rest, |c: char| c == '/');
    if n < rest.len() {
        Some(
            if prefix.len() == 0 {
                rest.take(n as int) + "/"@
            } else {
                without_end_slashes(prefix) + "/"@ + rest.take(n as int) + "/"@
            },
        )
    } else {
        None
    }
}

/// The directories that objects lie in.
pub open spec fn directories(prefix: Seq<char>, list: Seq<catalog::ObjectSpec>) -> Set<Seq<char>> {
    Set::new(
        |d: Seq<char>|
            exists|i: int|
                0 <= i < list.len() && directory(prefix, (#[trigger] list[i]).location) == Some(d),
    )
}

/// The objects that lie directly under a prefix.
pub open spec fn direct(prefix: Seq<char>, list: Seq<catalog::ObjectSpec>) -> Seq<
    catalog::ObjectSpec,
> {
    list.filter(|m: catalog::ObjectSpec| directory(prefix, m.location) is None)
}

/// The paths of some directories, in the order of their names.
pub open spec fn directory_paths(dirs: Set<Seq<char>>) -> Seq<Seq<char>> {
    string_map::sorted(dirs).map_values(|d: Seq<char>| path::normalized(d))
}

/// The objects under a prefix, one level deep.
#[derive(Debug)]
pub struct ListResult {
    pub common_prefixes: Vec<String>,
    pub objects: Vec<ObjectMeta>,
}

/// Splits a location at a prefix: the directory that it lies in.
fn directory_of(prefix: &str, location: &str) -> (r: Option<String>)
    ensures
        text::opt_view(r) == directory(prefix@, location@),
{
    let rest = match strip_prefix(location, prefix) {
        Some(s) => s,
        None => location,
    };
    let v = chars_of(rest);
    let ghost lead = |c: char| c != '/';
    let mut start: usize = 0;
    while start < v.len() && v[start] == '/'
        invariant
            start <= v.len(),
            lead == (|c: char| c != '/'),
            forall|k: int| 0 <= k < start ==> !lead(#[trigger] v@[k]),
        decreases v.len() - start,
    {
        start = start + 1;
    }
    proof {
        text::lemma_span(v@, lead, start as int);
    }
    let ghost rel = v@.skip(start as int);
    assert(rel == relative(prefix@, location@));
    let ghost stop = |c: char| c == '/';
    let mut end: usize = start;
    while end < v.len() && v[end] != '/'
        invariant
            start <= end <= v.len(),
            rel == v@.skip(start as int),
            stop == (|c: char| c == '/'),
            forall|k: int| 0 <= k < end - start ==> !stop(#[trigger] rel[k]),
        decreases v.len() - end,
    {
        assert(rel[end - start] == v@[end as int]);
        end = end + 1;
    }
    proof {
        if end < v.len() {
            assert(rel[end - start] == v@[end as int]);
        }
        text::lemma_span(rel, stop, end - start);
    }
    if end >= v.len() {
        return None;
    }
    let name = string_of(&v, start, end);
    assert(name@ =~= rel.take(end - start));
    let p = chars_of(prefix);
    if p.len() == 0 {
        let mut dir = name;
        dir.append("/");
        return Some(dir);
    }
    let mut n: usize = p.len();
    assert(p@.take(n as int) =~= p@);
    while n > 0 && p[n - 1] == '/'
        invariant
            n <= p.len(),
            without_end_slashes(p@.take(n as int)) == without_end_slashes(p@),
        decreases n,
    {
        assert(p@.take(n as int).drop_last() =~= p@.take(n - 1));
        n = n - 1;
    }
    let mut dir = string_of(&p, 0, n);
    assert(dir@ =~= p@.take(n as int));
    dir.append("/");
    dir.append(name.as_str());
    dir.append("/");
    Some(dir)
}

impl ShardedObjectStore {
    /// Lists the objects whose key starts with a prefix, or all of them. Delete
    /// markers are left out.
    pub fn list(&self, prefix: Option<&str>) -> (r: Vec<ObjectMeta>)
        ensures
            catalog::object_specs(r@) == listed(self@, catalog::str_view(prefix)),
    {
        let all = self.catalog().list(prefix);
        let ghost specs = catalog::object_specs(all@);
        let ghost pred = |m: catalog::ObjectSpec| !markers::is_marker(m.location);
        let mut r: Vec<ObjectMeta> = Vec::new();
        let mut i: usize = 0;
        proof {
            placement::lemma_filter_none(specs, pred);
            assert(catalog::object_specs(r@) =~= specs.take(0).filter(pred));
        }
        while i < all.len()
            invariant
                i <= all.len(),
                specs == catalog::object_specs(all@),
                pred == (|m: catalog::ObjectSpec| !markers::is_marker(m.location)),
                catalog::object_specs(r@) == specs.take(i as int).filter(pred),
            decreases all.len() - i,
        {
            proof {
                placement::lemma_filter_step(specs, i as int, pred);
            }
            if !ShardedObjectStore::is_delete_marker(all[i].location.as_str()) {
                let ghost before = r@;
                let m = copy_object(&all[i]);
                r.push(m);
                assert(catalog::object_specs(r@) =~= catalog::object_specs(before).push(m@));
            }
            i = i + 1;
        }
        assert(specs.take(i as int) =~= specs);
        r
    }

    /// Lists the objects directly under a prefix, and the directories under it.
    pub fn list_with_delimiter(&self, prefix: Option<&str>) -> (r: ListResult)
        ensures
            catalog::object_specs(r.objects@) == direct(
                prefix_text(prefix),
                listed(self@, catalog::str_view(prefix)),
            ),
            text::views(r.common_prefixes@) == directory_paths(
                directories(prefix_text(prefix), listed(self@, catalog::str_view(prefix))),
            ),
    {
        let all = self.list(prefix);
        let under = match prefix {
            Some(p) => p,
            None => "",
        };
        proof {
            reveal_strlit("");
            assert(under@ =~= prefix_text(prefix));
        }
        split_listing(under, &all)
    }
}

/// The prefix of a listing, which may have none.
pub open spec fn prefix_text(prefix: Option<&str>) -> Seq<char> {
    match prefix {
        Some(p) => p@,
        None => Seq::empty(),
    }
}

fn copy_text(s: &Option<String>) -> (r: Option<String>)
    ensures
        text::opt_view(r) == text::opt_view(*s),
{
    match s {
        Some(t) => Some(t.clone()),
        None => None,
    }
}

pub(crate) fn copy_object(m: &ObjectMeta) -> (r: ObjectMeta)
    ensures
        r@ == m@,
{
    ObjectMeta {
        location: m.location.clone(),
        last_modified: m.last_modified,
        size: m.size,
        e_tag: copy_text(&m.e_tag),
        version: copy_text(&m.version),
    }
}

/// Parts a listing into the objects directly under a prefix and the directories.
pub fn split_listing(prefix: &str, list: &Vec<ObjectMeta>) -> (r: ListResult)
    ensures
        catalog::object_specs(r.objects@) == direct(prefix@, catalog::object_specs(list@)),
        text::views(r.common_prefixes@) == directory_paths(
            directories(prefix@, catalog::object_specs(list@)),
        ),
{
    let ghost specs = catalog::object_specs(list@);
    let ghost pred = |m: catalog::ObjectSpec| directory(prefix@, m.location) is None;
    let mut dirs: StringMap<bool> = StringMap::new();
    let mut objects: Vec<ObjectMeta> = Vec::new();
    let mut i: usize = 0;
    proof {
        placement::lemma_filter_none(specs, pred);
        assert(catalog::object_specs(objects@) =~= specs.take(0).filter(pred));
        assert(dirs@.dom() =~= directories(prefix@, specs.take(0)));
    }
    while i < list.len()
        invariant
            i <= list.len(),
            specs == catalog::object_specs(list@),
            pred == (|m: catalog::ObjectSpec| directory(prefix@, m.location) is None),
            catalog::object_specs(objects@) == specs.take(i as int).filter(pred),
            dirs@.dom() == directories(prefix@, specs.take(i as int)),
        decreases list.len() - i,
    {
        proof {
            placement::lemma_filter_step(specs, i as int, pred);
            lemma_directories(prefix@, specs, i as int);
        }
        match directory_of(prefix, list[i].location.as_str()) {
            Some(dir) => {
                dirs.insert(dir, true);
            },
            None => {
                let ghost before = objects@;
                let m = copy_object(&list[i]);
                objects.push(m);
                assert(catalog::object_specs(objects@) =~= catalog::object_specs(before).push(m@));
            },
        }
        i = i + 1;
    }
    assert(specs.take(i as int) =~= specs);
    let n: usize = dirs.len();
    let ghost names = string_map::sorted(dirs@.dom());
    let ghost f = |d: Seq<char>| path::normalized(d);
    let mut paths: Vec<String> = Vec::new();
    let mut k: usize = 0;
    while k < n
        invariant
            k <= n,
            n == names.len(),
            names == string_map::sorted(dirs@.dom()),
            f == (|d: Seq<char>| path::normalized(d)),
            text::views(paths@) == names.map_values(f).take(k as int),
        decreases n - k,
    {
        let ghost before = paths@;
        let p = path_from(dirs.key_at(k).as_str());
        paths.push(p);
        assert(text::views(paths@) =~= text::views(before).push(p@));
        assert(text::views(paths@) =~= names.map_values(f).take(k + 1));
        k = k + 1;
    }
    assert(names.map_values(f).take(k as int) =~= names.map_values(f));
    ListResult { common_prefixes: paths, objects }
}

proof fn lemma_directories(prefix: Seq<char>, list: Seq<catalog::ObjectSpec>, i: int)
    requires
        0 <= i < list.len(),
    ensures
        directories(prefix, list.take(i + 1)) == (match directory(prefix, list[i].location) {
            Some(d) => directories(prefix, list.take(i)).insert(d),
            None => directories(prefix, list.take(i)),
        }),
{
    let before = directories(prefix, list.take(i));
    let after = directories(prefix, list.take(i + 1));
    let here = directory(prefix, list[i].location);
    assert forall|d: Seq<char>| #[trigger] after.contains(d) <==> (before.contains(d) || here == Some(
        d,
    )) by {
        if after.contains(d) {
            let j = choose|j: int|
                0 <= j < i + 1 && directory(prefix, (#[trigger] list.take(i + 1)[j]).location)
                    == Some(d);
            if j < i {
                assert(list.take(i)[j] == list.take(i + 1)[j]);
            }
        }
        if before.contains(d) {
            let j = choose|j: int|
                0 <= j < i && directory(prefix, (#[trigger] list.take(i)[j]).location) == Some(d);
            assert(list.take(i + 1)[j] == list.take(i)[j]);
        }
        assert(list.take(i + 1)[i] == list[i]);
    }
    match here {
        Some(d) => assert(after =~= before.insert(d)),
        None => assert(after =~= before),
    }
}

// -- Laws -------------------------------------------------------------------

/// No listing shows a delete marker.
pub proof fn no_listing_shows_a_delete_marker(c: store::ClusterState, prefix: Option<Seq<char>>)
    ensures
        forall|i: int|
            0 <= i < listed(c, prefix).len() ==> !markers::is_marker(
                (#[trigger] listed(c, prefix)[i]).location,
            ),
{
    catalog::lemma_filter_members(
        markers::catalog_listing(c, prefix),
        |m: catalog::ObjectSpec| !markers::is_marker(m.location),
    );
}

/// Every object of a listing is either shown directly or lies in a directory that is.
pub proof fn a_listing_shows_every_object_or_its_directory(
    prefix: Seq<char>,
    list: Seq<catalog::ObjectSpec>,
    i: int,
)
    requires
        0 <= i < list.len(),
    ensures
        direct(prefix, list).contains(list[i]) <==> directory(prefix, list[i].location) is None,
        directory(prefix, list[i].location) matches Some(d) ==> directories(
            prefix,
            list,
        ).contains(d),
{
    let pred = |m: catalog::ObjectSpec| directory(prefix, m.location) is None;
    if directory(prefix, list[i].location) is None {
        list.lemma_filter_contains(pred, i);
    } else {
        catalog::lemma_filter_members(list, pred);
    }
}

/// A listing shows every object whose key starts with the prefix and that is no delete
/// marker, with its size and time, and nothing else.
pub proof fn a_listing_shows_every_object_with_the_prefix(
    c: store::ClusterState,
    prefix: Seq<char>,
    key: Seq<char>,
)
    requires
        c.entries.dom().finite(),
        c.entries.contains_key(key),
        !markers::is_marker(path::normalized(key)),
    ensures
        prefix.is_prefix_of(key) ==> exists|i: int|
            0 <= i < listed(c, Some(prefix)).len() && (#[trigger] listed(c, Some(prefix))[i]).location
                == path::normalized(key) && listed(c, Some(prefix))[i].size == c.entries[key].size
                && listed(c, Some(prefix))[i].last_modified == c.entries[key].updated,
        exists|i: int|
            0 <= i < listed(c, None).len() && (#[trigger] listed(c, None)[i]).location
                == path::normalized(key),
        forall|i: int|
            0 <= i < listed(c, Some(prefix)).len() ==> exists|k: Seq<char>|
                c.entries.contains_key(k) && prefix.is_prefix_of(k) && (#[trigger] listed(
                    c,
                    Some(prefix),
                )[i]).location == #[trigger] path::normalized(k),
{
    let pred = |m: catalog::ObjectSpec| !markers::is_marker(m.location);
    catalog::lemma_prefix_keys(c.entries, Some(prefix));
    catalog::lemma_prefix_keys(c.entries, None);
    if prefix.is_prefix_of(key) {
        let keys = catalog::keys_with_prefix(c.entries, Some(prefix));
        let all = markers::catalog_listing(c, Some(prefix));
        assert(keys.contains(key));
        let j = keys.index_of(key);
        all.lemma_filter_contains(pred, j);
        let i = all.filter(pred).index_of(all[j]);
        assert(listed(c, Some(prefix))[i] == all[j]);
    }
    let keys = catalog::keys_with_prefix(c.entries, None);
    let all = markers::catalog_listing(c, None);
    assert(keys.contains(key));
    let j = keys.index_of(key);
    all.lemma_filter_contains(pred, j);
    let i = all.filter(pred).index_of(all[j]);
    assert(listed(c, None)[i] == all[j]);
    assert forall|i: int| 0 <= i < listed(c, Some(prefix)).len() implies exists|k: Seq<char>|
        c.entries.contains_key(k) && prefix.is_prefix_of(k) && (#[trigger] listed(
            c,
            Some(prefix),
        )[i]).location == #[trigger] path::normalized(k) by {
        let keys = catalog::keys_with_prefix(c.entries, Some(prefix));
        let all = markers::catalog_listing(c, Some(prefix));
        catalog::lemma_filter_members(all, pred);
        let m = listed(c, Some(prefix))[i];
        assert(all.contains(m));
        let u = all.index_of(m);
        assert(keys.contains(keys[u]));
        assert(all[u].location == path::normalized(keys[u]));
    }
}

/// An object lies directly under a prefix if what follows the prefix holds no slash. If
/// a slash follows a first name, it lies in the directory of that name, whether or not
/// the prefix ends with a slash.
pub proof fn an_object_lies_in_the_directory_named_after_the_prefix(
    prefix: Seq<char>,
    name: Seq<char>,
    rest: Seq<char>,
)
    requires
        name.len() > 0,
        !name.contains('/'),
        prefix.len() > 0,
        prefix.last() != '/',
    ensures
        ({
            let top = Seq::<char>::empty();
            let slash = seq!['/'];
            let under = prefix + slash;
            let file = under + name;
            let deep = under + name + slash + rest;
            &&& directory(top, name) is None
            &&& directory(top, name + slash + rest) == Some(name + slash)
            &&& directory(prefix, file) is None
            &&& directory(under, file) is None
            &&& directory(prefix, deep) == Some(under + name + slash)
            &&& directory(under, deep) == Some(under + name + slash)
        }),
{
    let top = Seq::<char>::empty();
    let slash = seq!['/'];
    let under = prefix + slash;
    let file = under + name;
    let deep = under + name + slash + rest;
    reveal_strlit("/");
    assert("/"@ =~= slash);
    lemma_relative(top, top, name);
    lemma_relative(top, top, name + slash + rest);
    assert(top + top + name =~= name);
    assert(top + top + (name + slash + rest) =~= name + slash + rest);
    lemma_relative(prefix, slash, name);
    lemma_relative(prefix, slash, name + slash + rest);
    assert(prefix + slash + name =~= file);
    assert(prefix + slash + (name + slash + rest) =~= deep);
    lemma_relative(under, top, name);
    lemma_relative(under, top, name + slash + rest);
    assert(under + top + name =~= file);
    assert(under + top + (name + slash + rest) =~= deep);
    let stop = |c: char| c == '/';
    assert forall|k: int| 0 <= k < name.len() implies !stop(#[trigger] name[k]) by {
        assert(name.contains(name[k]));
    }
    text::lemma_span(name, stop, name.len() as int);
    let long = name + slash + rest;
    assert forall|k: int| 0 <= k < name.len() implies !stop(#[trigger] long[k]) by {
        assert(long[k] == name[k]);
    }
    text::lemma_span(long, stop, name.len() as int);
    assert(long.take(name.len() as int) =~= name);
    assert(under.drop_last() =~= prefix);
    assert(without_end_slashes(prefix) == prefix);
    assert(without_end_slashes(under) == prefix);
    assert(prefix + "/"@ + name + "/"@ =~= under + name + slash);
}

proof fn lemma_relative(prefix: Seq<char>, between: Seq<char>, rest: Seq<char>)
    requires
        rest.len() > 0,
        rest[0] != '/',
        between.len() == 0 || between == seq!['/'],
    ensures
        relative(prefix, prefix + between + rest) == rest,
{
    let all = prefix + between + rest;
    let lead = |c: char| c != '/';
    assert(prefix.is_prefix_of(all)) by {
        assert(all.subrange(0, prefix.len() as int) =~= prefix);
    }
    let tail = all.skip(prefix.len() as int);
    assert(tail =~= between + rest);
    text::lemma_span(tail, lead, between.len() as int);
    assert(tail.skip(between.len() as int) =~= rest);
}

} // verus!
