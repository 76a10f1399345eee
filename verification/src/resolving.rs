//! Turning a reference string into the document and slot it designates: the
//! per-document location resolver, the registry of resolvers for every
//! pre-fetched document, and the classification of references as absolute
//! locations or same-document fragments.

use vstd::prelude::*;
use vstd::string::{StrSliceExecFns, StringExecFns};
use crate::errors::CompileError;
use crate::json::{Doc, Documents, JsonValue, Member, spec_id_of};
use crate::text::{
    find_char_from, fragment_of, lemma_find_char_bounds, parse_index, spec_doc_part,
    spec_find_char, spec_fragment, spec_parse_index, str_eq,
};

verus! {

/// What `url::Url::parse` followed by `url::Url::join` yields on a base and
/// a reference, as the joined URL's serialization; `None` where either step
/// rejects its input. Both are pure functions of their string arguments.
pub uninterp spec fn url_join_of(base: Seq<char>, reference: Seq<char>) -> Option<Seq<char>>;

/// What `url::Url::parse` yields on a string, as the canonical serialization
/// of the parsed URL; `None` exactly where the string is not an absolute URL.
pub uninterp spec fn url_parse_of(s: Seq<char>) -> Option<Seq<char>>;

/// Relies on `url::Url::parse` and `url::Url::join`: `parse` converts the
/// base string to a URL value, `join` resolves `reference` against it with
/// standard relative-URL semantics, and the result is serialized back.
#[verifier::external_body]
pub(crate) fn join_url(base: &str, reference: &str) -> (r: Option<String>)
    ensures
        match r {
            Some(s) => url_join_of(base@, reference@) == Some(s@),
            None => url_join_of(base@, reference@) is None,
        },
{
    match url::Url::parse(base) {
        Ok(b) => match b.join(reference) {
            Ok(u) => Some(String::from(u)),
            Err(_) => None,
        },
        Err(_) => None,
    }
}

/// Relies on `url::Url::parse`: it accepts exactly the absolute URLs (a
/// scheme followed by a path, with an optional fragment) and returns the
/// parsed URL, serialized back to its canonical form.
#[verifier::external_body]
pub(crate) fn parse_url(s: &str) -> (r: Option<String>)
    ensures
        match r {
            Some(t) => url_parse_of(s@) == Some(t@),
            None => url_parse_of(s@) is None,
        },
{
    match url::Url::parse(s) {
        Ok(u) => Some(String::from(u)),
        Err(_) => None,
    }
}

/// A reference is purely local when it starts with `#`: it is then resolved
/// against the current resolver without any URL joining.
pub open spec fn spec_is_local(r: Seq<char>) -> bool {
    r.len() > 0 && r[0] == '#'
}

pub fn is_local(r: &str) -> (b: bool)
    ensures
        b == spec_is_local(r@),
{
    let n = r.unicode_len();
    n > 0 && r.get_char(0) == '#'
}

/// The segments of a fragment pointer after its leading `/`, split on `/`.
pub open spec fn spec_segments(s: Seq<char>, from: int) -> Seq<Seq<char>>
    decreases s.len() + 1 - from,
    when 0 <= from <= s.len()
    via spec_segments_dec
{
    if spec_find_char(s, from, '/') >= s.len() {
        seq![s.subrange(from, s.len() as int)]
    } else {
        seq![s.subrange(from, spec_find_char(s, from, '/'))] + spec_segments(
            s,
            spec_find_char(s, from, '/') + 1,
        )
    }
}

#[via_fn]
proof fn spec_segments_dec(s: Seq<char>, from: int) {
    lemma_find_char_bounds(s, from, '/');
}

/// Looks up the first member with the given key, yielding its value slot.
pub open spec fn spec_member_lookup(members: Seq<Member>, key: Seq<char>) -> Option<int>
    decreases members.len(),
{
    if members.len() == 0 {
        None
    } else if members[0].key@ == key {
        Some(members[0].value as int)
    } else {
        spec_member_lookup(members.drop_first(), key)
    }
}

/// Walks pointer segments down the arena from slot `cur`: an object steps to
/// the first member with the segment as key; an array steps to the position
/// the segment spells in decimal; anything else designates nothing.
pub open spec fn spec_walk(values: Seq<JsonValue>, cur: int, segs: Seq<Seq<char>>, k: int) -> Option<
    int,
>
    decreases segs.len() - k,
{
    if k < 0 || k >= segs.len() {
        Some(cur)
    } else {
        match values[cur] {
            JsonValue::Obj(members) => match spec_member_lookup(members@, segs[k]) {
                Some(next) => spec_walk(values, next, segs, k + 1),
                None => None,
            },
            JsonValue::Arr(items) => match spec_parse_index(segs[k]) {
                Some(x) => if 0 <= x < items@.len() {
                    spec_walk(values, items@[x] as int, segs, k + 1)
                } else {
                    None
                },
                None => None,
            },
            _ => None,
        }
    }
}

/// The `$id` values of the objects traversed on the way to the target, the
/// starting slot included and the target itself excluded.
pub open spec fn spec_walk_folders(
    values: Seq<JsonValue>,
    cur: int,
    segs: Seq<Seq<char>>,
    k: int,
) -> Seq<Seq<char>>
    decreases segs.len() - k,
{
    if k < 0 || k >= segs.len() {
        Seq::empty()
    } else {
        let here: Seq<Seq<char>> = match values[cur] {
            JsonValue::Obj(members) => match spec_id_of(values, members@) {
                Some(id) => seq![id],
                None => Seq::empty(),
            },
            _ => Seq::empty(),
        };
        match values[cur] {
            JsonValue::Obj(members) => match spec_member_lookup(members@, segs[k]) {
                Some(next) => here + spec_walk_folders(values, next, segs, k + 1),
                None => here,
            },
            JsonValue::Arr(items) => match spec_parse_index(segs[k]) {
                Some(x) => if 0 <= x < items@.len() {
                    spec_walk_folders(values, items@[x] as int, segs, k + 1)
                } else {
                    Seq::empty()
                },
                None => Seq::empty(),
            },
            _ => Seq::empty(),
        }
    }
}

/// The fragment of a reference is ill-formed when present but not a pointer.
pub open spec fn spec_fragment_malformed(reference: Seq<char>) -> bool {
    spec_fragment(reference).len() > 0 && spec_fragment(reference)[0] != '/'
}

/// What a reference designates within one document: the folders traversed
/// and the slot of the target, or nothing.
pub open spec fn spec_resolve(values: Seq<JsonValue>, reference: Seq<char>) -> Option<
    (Seq<Seq<char>>, int),
> {
    let frag = spec_fragment(reference);
    if frag.len() == 0 {
        Some((Seq::empty(), 0))
    } else if frag[0] != '/' {
        None
    } else {
        let segs = spec_segments(frag, 1);
        match spec_walk(values, 0, segs, 0) {
            Some(i) => Some((spec_walk_folders(values, 0, segs, 0), i)),
            None => None,
        }
    }
}

/// Looks up the first member of an object with the given key.
fn member_find(members: &Vec<Member>, key: &str) -> (r: Option<usize>)
    ensures
        match r {
            Some(v) => spec_member_lookup(members@, key@) == Some(v as int),
            None => spec_member_lookup(members@, key@) is None,
        },
{
    proof {
        assert(members@.skip(0) =~= members@);
    }
    let mut i: usize = 0;
    while i < members.len()
        invariant
            0 <= i <= members@.len(),
            spec_member_lookup(members@, key@) == spec_member_lookup(
                members@.skip(i as int),
                key@,
            ),
        decreases members@.len() - i,
    {
        proof {
            assert(members@.skip(i as int).drop_first() =~= members@.skip(i + 1));
            assert(members@.skip(i as int)[0] == members@[i as int]);
        }
        if str_eq(members[i].key.as_str(), key) {
            return Some(members[i].value);
        }
        i += 1;
    }
    None
}

/// Splits the tail of a fragment (everything after the leading `/`) into its
/// pointer segments.
fn split_segments(frag: &str) -> (r: Vec<String>)
    requires
        frag@.len() >= 1,
        frag@.len() < usize::MAX,
        frag@[0] == '/',
    ensures
        r.deep_view() == spec_segments(frag@, 1),
{
    let n = frag.unicode_len();
    let mut segs: Vec<String> = Vec::new();
    let mut pos: usize = 1;
    while pos <= n
        invariant
            1 <= pos <= n + 1,
            n == frag@.len(),
            n < usize::MAX,
            pos <= n ==> spec_segments(frag@, 1) =~= segs.deep_view() + spec_segments(
                frag@,
                pos as int,
            ),
            pos == n + 1 ==> spec_segments(frag@, 1) =~= segs.deep_view(),
        decreases n + 1 - pos,
    {
        let e = find_char_from(frag, pos, '/');
        let piece = frag.substring_char(pos, e).to_owned();
        proof {
            lemma_find_char_bounds(frag@, pos as int, '/');
        }
        let ghost old_deep = segs.deep_view();
        segs.push(piece);
        proof {
            assert(segs.deep_view() =~= old_deep.push(piece@));
            if e == n {
                assert(spec_segments(frag@, pos as int) =~= seq![piece@]);
            } else {
                assert(spec_segments(frag@, pos as int) =~= seq![piece@] + spec_segments(
                    frag@,
                    e + 1,
                ));
            }
        }
        pos = e + 1;
    }
    segs
}

/// A location resolver, bound to one document and its canonical base
/// location; purely a lookup, with no side effects.
#[derive(Debug)]
pub struct Resolver {
    /// The canonical base location of the document.
    pub base: String,
    /// The document this resolver answers for.
    pub doc: usize,
}

impl Resolver {
    pub open spec fn wf(&self, docs: &Documents) -> bool {
        self.doc < docs.docs@.len()
    }

    /// Copies the resolver.
    pub fn duplicate(&self) -> (r: Resolver)
        ensures
            r == *self,
    {
        Resolver { base: self.base.clone(), doc: self.doc }
    }

    /// Reports whether an absolute location lives in this resolver's
    /// document: its part before any fragment equals the base's.
    pub fn contains(&self, location: &str) -> (r: bool)
        ensures
            r == (spec_doc_part(location@) == spec_doc_part(self.base@)),
    {
        let h1 = find_char_from(location, 0, '#');
        let p1 = location.substring_char(0, h1);
        let h2 = find_char_from(self.base.as_str(), 0, '#');
        let p2 = self.base.as_str().substring_char(0, h2);
        str_eq(p1, p2)
    }

    /// Resolves a reference's fragment within this resolver's document,
    /// yielding the folders traversed and the slot of the designated value.
    pub fn resolve(&self, docs: &Documents, reference: &str) -> (r: Result<
        (Vec<String>, usize),
        CompileError,
    >)
        requires
            docs.wf(),
            self.wf(docs),
        ensures
            ({
                let values = docs.docs@[self.doc as int].values@;
                match r {
                    Ok((folders, idx)) => spec_resolve(values, reference@) == Some(
                        (folders.deep_view(), idx as int),
                    ) && idx < values.len(),
                    Err(e) => spec_resolve(values, reference@) is None && match e {
                        CompileError::MalformedReference(s) => s@ == reference@
                            && spec_fragment_malformed(reference@),
                        CompileError::LocationNotFound(s) => s@ == reference@
                            && !spec_fragment_malformed(reference@),
                        _ => false,
                    },
                }
            }),
    {
        let doc = &docs.docs[self.doc];
        let reference_len = reference.unicode_len();
        proof {
            // Learning the reference's length bounds the fragment's, which
            // the segment splitter needs.
            assert(reference_len == reference@.len());
            lemma_find_char_bounds(reference@, 0, '#');
        }
        let frag = fragment_of(reference);
        let frag_len = frag.as_str().unicode_len();
        if frag_len == 0 {
            let folders: Vec<String> = Vec::new();
            proof {
                assert(folders.deep_view() =~= Seq::<Seq<char>>::empty());
            }
            return Ok((folders, 0));
        }
        if frag.as_str().get_char(0) != '/' {
            return Err(CompileError::MalformedReference(reference.to_owned()));
        }
        let segs = split_segments(frag.as_str());
        let ghost segsv = segs.deep_view();
        let ghost values = doc.values@;
        let mut cur: usize = 0;
        let mut folders: Vec<String> = Vec::new();
        let mut k: usize = 0;
        proof {
            assert(folders.deep_view() =~= Seq::<Seq<char>>::empty());
        }
        while k < segs.len()
            invariant
                docs.wf(),
                self.wf(docs),
                doc.values@ == values,
                values == docs.docs@[self.doc as int].values@,
                values.len() >= 1,
                frag@ == spec_fragment(reference@),
                frag@.len() > 0,
                frag@[0] == '/',
                segsv == spec_segments(frag@, 1),
                segsv == segs.deep_view(),
                0 <= k <= segsv.len(),
                cur < values.len(),
                spec_walk(values, 0, segsv, 0) == spec_walk(values, cur as int, segsv, k as int),
                spec_walk_folders(values, 0, segsv, 0) =~~= folders.deep_view()
                    + spec_walk_folders(values, cur as int, segsv, k as int),
            decreases segsv.len() - k,
        {
            let ghost old_cur = cur as int;
            let ghost old_deep_all = folders.deep_view();
            proof {
                assert(segsv[k as int] == segs@[k as int]@);
                assert(docs.docs@[self.doc as int].wf());
                assert(value_bound(values, cur as int));
            }
            match &doc.values[cur] {
                JsonValue::Obj(members) => {
                    let ghost old_deep = folders.deep_view();
                    let ghost here = match spec_id_of(values, members@) {
                        Some(id) => seq![id],
                        None => Seq::<Seq<char>>::empty(),
                    };
                    match doc.id_of_object(members) {
                        Some(id) => {
                            folders.push(id);
                            proof {
                                assert(folders.deep_view() =~= old_deep.push(id@));
                                assert(folders.deep_view() =~~= old_deep + here);
                            }
                        },
                        None => {
                            proof {
                                assert(folders.deep_view() =~~= old_deep + here);
                            }
                        },
                    }
                    match member_find(members, segs[k].as_str()) {
                        Some(next) => {
                            proof {
                                lemma_member_lookup_bound(values, members@, segsv[k as int]);
                                assert(spec_walk_folders(values, old_cur, segsv, k as int)
                                    =~~= here + spec_walk_folders(
                                    values,
                                    next as int,
                                    segsv,
                                    k + 1,
                                ));
                                assert((old_deep + (here + spec_walk_folders(
                                    values,
                                    next as int,
                                    segsv,
                                    k + 1,
                                ))) =~~= (folders.deep_view() + spec_walk_folders(
                                    values,
                                    next as int,
                                    segsv,
                                    k + 1,
                                )));
                            }
                            cur = next;
                        },
                        None => {
                            return Err(CompileError::LocationNotFound(reference.to_owned()));
                        },
                    }
                },
                JsonValue::Arr(items) => {
                    let il = items.len();
                    match parse_index(segs[k].as_str()) {
                        Some(x) => {
                            if x < il {
                                cur = items[x];
                            } else {
                                return Err(CompileError::LocationNotFound(reference.to_owned()));
                            }
                        },
                        None => {
                            return Err(CompileError::LocationNotFound(reference.to_owned()));
                        },
                    }
                },
                _ => {
                    return Err(CompileError::LocationNotFound(reference.to_owned()));
                },
            }
            k += 1;
        }
        proof {
            assert(spec_walk_folders(values, 0, segsv, 0) =~~= folders.deep_view());
        }
        Ok((folders, cur))
    }
}

/// Restates a document's well-formedness for one slot.
pub open spec fn value_bound(values: Seq<JsonValue>, cur: int) -> bool {
    crate::json::value_wf(values[cur], values.len() as nat)
}

/// A member found by key lookup names a slot inside the arena.
proof fn lemma_member_lookup_bound(values: Seq<JsonValue>, members: Seq<Member>, key: Seq<char>)
    requires
        forall|i: int| 0 <= i < members.len() ==> (members[i].value as nat) < values.len(),
    ensures
        match spec_member_lookup(members, key) {
            Some(v) => 0 <= v < values.len(),
            None => true,
        },
    decreases members.len(),
{
    if members.len() > 0 && members[0].key@ != key {
        lemma_member_lookup_bound(values, members.drop_first(), key);
    }
}

/// The registry of resolvers for every externally reachable document, built
/// before compilation begins. Lookup is first-match: should two entries
/// share a base location, the earlier one answers, so duplicates are
/// benign; a caller wanting the uniqueness a keyed map would give simply
/// registers each location once.
pub struct Registry {
    pub resolvers: Vec<Resolver>,
}

/// The first registered resolver whose base is exactly the location.
pub open spec fn spec_lookup(rs: Seq<Resolver>, location: Seq<char>) -> Option<Resolver>
    decreases rs.len(),
{
    if rs.len() == 0 {
        None
    } else if rs[0].base@ == location {
        Some(rs[0])
    } else {
        spec_lookup(rs.drop_first(), location)
    }
}

impl Registry {
    pub open spec fn wf(&self, docs: &Documents) -> bool {
        forall|i: int| 0 <= i < self.resolvers@.len() ==> (#[trigger] self.resolvers@[i]).wf(docs)
    }

    /// Finds the resolver registered for a canonical document location.
    pub fn lookup(&self, location: &str) -> (r: Option<&Resolver>)
        ensures
            match r {
                Some(res) => spec_lookup(self.resolvers@, location@) == Some(*res),
                None => spec_lookup(self.resolvers@, location@) is None,
            },
    {
        proof {
            assert(self.resolvers@.skip(0) =~= self.resolvers@);
        }
        let mut i: usize = 0;
        while i < self.resolvers.len()
            invariant
                0 <= i <= self.resolvers@.len(),
                spec_lookup(self.resolvers@, location@) == spec_lookup(
                    self.resolvers@.skip(i as int),
                    location@,
                ),
            decreases self.resolvers@.len() - i,
        {
            proof {
                assert(self.resolvers@.skip(i as int).drop_first() =~= self.resolvers@.skip(
                    i + 1,
                ));
                assert(self.resolvers@.skip(i as int)[0] == self.resolvers@[i as int]);
            }
            if str_eq(self.resolvers[i].base.as_str(), location) {
                return Some(&self.resolvers[i]);
            }
            i += 1;
        }
        None
    }

    /// A resolver found in the registry is well-formed.
    pub proof fn lemma_lookup_wf(&self, docs: &Documents, location: Seq<char>)
        requires
            self.wf(docs),
        ensures
            match spec_lookup(self.resolvers@, location) {
                Some(res) => res.wf(docs),
                None => true,
            },
    {
        lemma_lookup_in(self.resolvers@, location);
    }
}

/// A found resolver is one of the registered ones.
proof fn lemma_lookup_in(rs: Seq<Resolver>, location: Seq<char>)
    ensures
        match spec_lookup(rs, location) {
            Some(res) => exists|i: int| 0 <= i < rs.len() && rs[i] == res,
            None => true,
        },
    decreases rs.len(),
{
    if rs.len() > 0 && rs[0].base@ != location {
        lemma_lookup_in(rs.drop_first(), location);
        match spec_lookup(rs.drop_first(), location) {
            Some(res) => {
                let i = choose|i: int| 0 <= i < rs.drop_first().len() && rs.drop_first()[i] == res;
                assert(rs[i + 1] == res);
            },
            None => {},
        }
    }
}

} // verus!
