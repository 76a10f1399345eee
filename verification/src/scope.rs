//! The traversal scope: the active resolver plus the stack of base-location
//! segments introduced by local identifier keywords on the path from the
//! document root to the current node. Each traversal branch owns its copy of
//! the stack, so sibling branches never see each other's segments.

use vstd::prelude::*;
use vstd::string::{StrSliceExecFns, StringExecFns};
use crate::errors::CompileError;
use crate::json::{Doc, Member, spec_id_of};
use crate::resolving::{Resolver, join_url, url_join_of};

verus! {

/// The state carried alongside a traversal position.
pub struct Scope {
    /// Base-location segments pushed so far; the first is the document's own
    /// base and is never re-joined.
    pub folders: Vec<String>,
    /// The resolver of the document the traversal is currently inside.
    pub resolver: Resolver,
}

/// Joins every folder after the first onto the base, in order.
pub open spec fn spec_join_chain(base: Seq<char>, folders: Seq<Seq<char>>, k: int) -> Option<
    Seq<char>,
>
    decreases folders.len() - k,
{
    if k < 0 || k >= folders.len() {
        Some(base)
    } else {
        match url_join_of(base, folders[k]) {
            Some(b2) => spec_join_chain(b2, folders, k + 1),
            None => None,
        }
    }
}

/// The absolute location a relative reference designates under a scope: the
/// base joined with every folder pushed after the first, then with the
/// reference itself.
pub open spec fn spec_build_url(
    folders: Seq<Seq<char>>,
    base: Seq<char>,
    reference: Seq<char>,
) -> Option<Seq<char>> {
    let rest = if folders.len() >= 1 {
        folders.skip(1)
    } else {
        Seq::empty()
    };
    match spec_join_chain(base, rest, 0) {
        Some(loc) => url_join_of(loc, reference),
        None => None,
    }
}

impl Scope {
    /// A fresh scope at a document root, with an empty segment stack.
    pub fn new(resolver: Resolver) -> (s: Self)
        ensures
            s.resolver == resolver,
            s.folders@.len() == 0,
    {
        Scope { folders: Vec::new(), resolver }
    }

    /// A scope seeded with the segments traversed while resolving into a
    /// document.
    pub fn with_folders(resolver: Resolver, folders: Vec<String>) -> (s: Self)
        ensures
            s.resolver == resolver,
            s.folders == folders,
    {
        Scope { folders, resolver }
    }

    /// Copies the scope for a sibling branch.
    pub fn duplicate(&self) -> (r: Scope)
        ensures
            r.folders.deep_view() == self.folders.deep_view(),
            r.resolver == self.resolver,
    {
        let mut folders: Vec<String> = Vec::new();
        let mut i: usize = 0;
        while i < self.folders.len()
            invariant
                0 <= i <= self.folders@.len(),
                folders.deep_view() =~= self.folders.deep_view().take(i as int),
            decreases self.folders@.len() - i,
        {
            let ghost old_deep = folders.deep_view();
            folders.push(self.folders[i].clone());
            proof {
                assert(folders.deep_view() =~= old_deep.push(self.folders@[i as int]@));
                assert(folders.deep_view() =~= self.folders.deep_view().take(i + 1));
            }
            i += 1;
        }
        proof {
            assert(self.folders.deep_view().take(self.folders@.len() as int)
                =~= self.folders.deep_view());
        }
        Scope { folders, resolver: self.resolver.duplicate() }
    }

    /// Pushes the object's local identifier, if it carries one, as a new
    /// base-location segment.
    pub fn track_folder(&mut self, doc: &Doc, members: &Vec<Member>)
        ensures
            final(self).resolver == old(self).resolver,
            match spec_id_of(doc.values@, members@) {
                Some(id) => final(self).folders.deep_view() == old(self).folders.deep_view().push(
                    id,
                ),
                None => final(self).folders == old(self).folders,
            },
    {
        let ghost old_deep = self.folders.deep_view();
        match doc.id_of_object(members) {
            Some(id) => {
                let ghost idv = id@;
                self.folders.push(id);
                proof {
                    assert(self.folders.deep_view() =~= old_deep.push(idv));
                }
            },
            None => {},
        }
    }

    /// Builds the absolute location of a relative reference by joining the
    /// current base with every segment pushed after the first, then with the
    /// reference.
    pub fn build_url(&self, base: &str, reference: &str) -> (r: Result<String, CompileError>)
        ensures
            match r {
                Ok(s) => spec_build_url(self.folders.deep_view(), base@, reference@) == Some(s@),
                Err(e) => spec_build_url(self.folders.deep_view(), base@, reference@) is None
                    && (e matches CompileError::MalformedReference(t) && t@ == reference@),
            },
    {
        let ghost rest = if self.folders.deep_view().len() >= 1 {
            self.folders.deep_view().skip(1)
        } else {
            Seq::<Seq<char>>::empty()
        };
        let mut location: String = base.to_owned();
        let mut i: usize = 1;
        proof {
            if self.folders.deep_view().len() >= 1 {
                assert(spec_join_chain(base@, rest, 0) == spec_join_chain(
                    location@,
                    rest,
                    0,
                ));
            }
        }
        while i < self.folders.len()
            invariant
                1 <= i <= self.folders@.len() || (self.folders@.len() == 0 && i == 1),
                rest == (if self.folders.deep_view().len() >= 1 {
                    self.folders.deep_view().skip(1)
                } else {
                    Seq::<Seq<char>>::empty()
                }),
                spec_join_chain(base@, rest, 0) == spec_join_chain(
                    location@,
                    rest,
                    i - 1,
                ),
            decreases self.folders@.len() - i,
        {
            proof {
                assert(rest[i - 1] == self.folders.deep_view()[i as int]);
                assert(self.folders.deep_view()[i as int] == self.folders@[i as int]@);
            }
            match join_url(location.as_str(), self.folders[i].as_str()) {
                Some(l) => {
                    location = l;
                },
                None => {
                    return Err(CompileError::MalformedReference(reference.to_owned()));
                },
            }
            i += 1;
        }
        proof {
            assert(spec_join_chain(base@, rest, 0) == Some(location@));
        }
        match join_url(location.as_str(), reference) {
            Some(s) => Ok(s),
            None => Err(CompileError::MalformedReference(reference.to_owned())),
        }
    }
}

} // verus!
