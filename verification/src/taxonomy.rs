//! The taxonomy tables — tags, participants, languages — and the
//! association tables tying records to them.  Names, codes and
//! identifiers keep the uniqueness their schema declares; association
//! setters replace a record's set wholesale and refuse a duplicate
//! pair, leaving the pairs inserted so far in place, as a keyed store
//! that fails mid-batch would.

use vstd::prelude::*;
use crate::catalog::{Database, StoreError, has_video_id, pairs_view, pairs_wf};
use crate::models::{Language, language_like, Participant, participant_like, Tag, tag_like};
use crate::ordering::{
    lemma_insert_le_sorted,
    lemma_insert_le_splice,
    lemma_sort_le_map,
    sort_le,
    total_preorder,
};
use crate::seqs::{lemma_filter_empty, lemma_filter_map_commute, lemma_filter_push};
use crate::text::{lemma_lex_le_total, lemma_lex_le_trans, lex_le, str_eq, str_le};
use vstd::relations::sorted_by;
use vstd::string::StrSliceExecFns;

verus! {

/// Whether some tag bears the given name.
pub open spec fn has_tag_name(ts: Seq<Tag>, name: Seq<char>) -> bool {
    exists|i: int| 0 <= i < ts.len() && ts[i].name@ == name
}

/// Whether some tag bears the given identifier.
pub open spec fn has_tag_id(ts: Seq<Tag>, id: Seq<char>) -> bool {
    exists|i: int| 0 <= i < ts.len() && ts[i].id@ == id
}

/// A tag as its field values.
pub open spec fn tag_view(t: Tag) -> (Seq<char>, Seq<char>, Seq<char>) {
    (t.id@, t.name@, t.color@)
}

/// Name order on tag views.
pub open spec fn tag_view_le(a: (Seq<char>, Seq<char>, Seq<char>), b: (Seq<char>, Seq<char>, Seq<char>)) -> bool {
    lex_le(a.1, b.1)
}

/// Name order on tags.
pub open spec fn tag_le(a: Tag, b: Tag) -> bool {
    lex_le(a.name@, b.name@)
}

impl Database {
    /// Everything but the tag table, unchanged.
    pub open spec fn same_but_tags(&self, other: &Database) -> bool {
        &&& self.videos@ == other.videos@
        &&& self.mounted_folders@ == other.mounted_folders@
        &&& self.participants@ == other.participants@
        &&& self.languages@ == other.languages@
        &&& self.video_tags@ == other.video_tags@
        &&& self.video_participants@ == other.video_participants@
        &&& self.video_languages@ == other.video_languages@
    }

    /// Whether some tag bears the given name.
    fn some_tag_has_name(&self, name: &str) -> (r: bool)
        ensures
            r == has_tag_name(self.tags@, name@),
    {
        let n = self.tags.len();
        let mut i: usize = 0;
        while i < n
            invariant
                n == self.tags@.len(),
                0 <= i <= n,
                forall|k: int| 0 <= k < i ==> self.tags@[k].name@ != name@,
            decreases n - i,
        {
            if str_eq(self.tags[i].name.as_str(), name) {
                return true;
            }
            i = i + 1;
        }
        false
    }

    /// Whether some tag bears the given identifier.
    fn some_tag_has_id(&self, id: &str) -> (r: bool)
        ensures
            r == has_tag_id(self.tags@, id@),
    {
        let n = self.tags.len();
        let mut i: usize = 0;
        while i < n
            invariant
                n == self.tags@.len(),
                0 <= i <= n,
                forall|k: int| 0 <= k < i ==> self.tags@[k].id@ != id@,
            decreases n - i,
        {
            if str_eq(self.tags[i].id.as_str(), id) {
                return true;
            }
            i = i + 1;
        }
        false
    }

    /// Stores a tag under the given identifier.  A taken name or a
    /// colliding identifier is refused, the name checked first, and
    /// the store is left unchanged.
    pub fn create_tag_with_id(&mut self, id: String, name: String, color: String) -> (r: Result<
        Tag,
        StoreError,
    >)
        requires
            old(self).wf(),
        ensures
            final(self).wf(),
            final(self).same_but_tags(old(self)),
            match r {
                Ok(t) => {
                    &&& !has_tag_name(old(self).tags@, name@)
                    &&& !has_tag_id(old(self).tags@, id@)
                    &&& final(self).tags@ == old(self).tags@.push(Tag { id, name, color })
                    &&& tag_like(t, Tag { id, name, color })
                },
                Err(e) => {
                    &&& final(self).tags@ == old(self).tags@
                    &&& (e == StoreError::DuplicateName <==> has_tag_name(old(self).tags@, name@))
                    &&& (e == StoreError::DuplicateId ==> (!has_tag_name(old(self).tags@, name@)
                        && has_tag_id(old(self).tags@, id@)))
                    &&& (e == StoreError::DuplicateName || e == StoreError::DuplicateId)
                },
            },
    {
        if self.some_tag_has_name(name.as_str()) {
            return Err(StoreError::DuplicateName);
        }
        if self.some_tag_has_id(id.as_str()) {
            return Err(StoreError::DuplicateId);
        }
        let ghost gname = name@;
        let ghost gid = id@;
        let t = Tag { id, name, color };
        let copy = t.duplicate();
        self.tags.push(t);
        proof {
            let ts = old(self).tags@;
            let nt = self.tags@;
            assert forall|a: int, b: int| 0 <= a < b < nt.len() implies nt[a].name@ != nt[b].name@
                && nt[a].id@ != nt[b].id@ by {
                if b < ts.len() {
                    assert(ts[a].name@ != ts[b].name@ && ts[a].id@ != ts[b].id@);
                } else {
                    assert(ts[a].name@ != gname);
                    assert(ts[a].id@ != gid);
                }
            }
        }
        Ok(copy)
    }

    /// Creates a tag under a fresh identifier.  A taken name is
    /// refused; success also depends on the generated identifier
    /// being fresh, which every practical run satisfies.
    pub fn create_tag(&mut self, name: &str, color: &str) -> (r: Result<Tag, StoreError>)
        requires
            old(self).wf(),
        ensures
            final(self).wf(),
            final(self).same_but_tags(old(self)),
            has_tag_name(old(self).tags@, name@) ==> r == Result::<Tag, StoreError>::Err(
                StoreError::DuplicateName,
            ),
            match r {
                Ok(t) => {
                    &&& !has_tag_name(old(self).tags@, name@)
                    &&& t.name@ == name@
                    &&& t.color@ == color@
                    &&& final(self).tags@.len() == old(self).tags@.len() + 1
                    &&& final(self).tags@.drop_last() == old(self).tags@
                    &&& tag_like(t, final(self).tags@.last())
                },
                Err(e) => {
                    &&& final(self).tags@ == old(self).tags@
                    &&& (e == StoreError::DuplicateName <==> has_tag_name(old(self).tags@, name@))
                    &&& (e == StoreError::DuplicateName || e == StoreError::DuplicateId)
                },
            },
    {
        let id = crate::clock::new_id();
        let r = self.create_tag_with_id(id, name.to_owned(), color.to_owned());
        proof {
            if r is Ok {
                assert(self.tags@.drop_last() =~= old(self).tags@);
            }
        }
        r
    }

    /// Lists the tags in name order, each a field-for-field copy.
    pub fn get_tags(&self) -> (r: Vec<Tag>)
        ensures
            r@.map_values(|t: Tag| tag_view(t)) == sort_le(
                |a, b| tag_view_le(a, b),
                self.tags@.map_values(|t: Tag| tag_view(t)),
            ),
            r@.len() == self.tags@.len(),
    {
        let ghost leq = |a: Tag, b: Tag| tag_le(a, b);
        proof {
            assert forall|a: Tag, b: Tag| #[trigger] leq(a, b) || #[trigger] leq(b, a) by {
                lemma_lex_le_total(a.name@, b.name@);
            }
            assert forall|a: Tag, b: Tag, c: Tag|
                #[trigger] leq(a, b) && #[trigger] leq(b, c) implies leq(a, c) by {
                lemma_lex_le_trans(a.name@, b.name@, c.name@);
            }
        }
        let mut clones: Vec<Tag> = Vec::new();
        let n = self.tags.len();
        let mut i: usize = 0;
        while i < n
            invariant
                n == self.tags@.len(),
                0 <= i <= n,
                clones@.len() == i,
                forall|k: int| 0 <= k < i ==> tag_view(#[trigger] clones@[k]) == tag_view(
                    self.tags@[k],
                ),
            decreases n - i,
        {
            let c = self.tags[i].duplicate();
            proof {
                assert(tag_like(self.tags@[i as int], c));
            }
            clones.push(c);
            i = i + 1;
        }
        proof {
            assert(clones@.map_values(|t: Tag| tag_view(t)) =~= self.tags@.map_values(
                |t: Tag| tag_view(t),
            ));
        }
        let ghost unsorted = clones@;
        let total_clones = clones.len();
        proof {
            assert(unsorted.len() == total_clones as int);
        }
        let mut sorted: Vec<Tag> = Vec::new();
        let mut taken: usize = 0;
        while clones.len() > 0
            invariant
                unsorted.len() <= usize::MAX,
                forall|a: Tag, b: Tag| #[trigger] leq(a, b) == tag_le(a, b),
                total_preorder(leq),
                0 <= taken <= unsorted.len(),
                clones@ == unsorted.skip(taken as int),
                sorted@ == sort_le(leq, unsorted.take(taken as int)),
                sorted_by(sorted@, leq),
            decreases clones.len(),
        {
            let x = clones.remove(0);
            proof {
                assert(x == unsorted[taken as int]);
                assert(unsorted.skip(taken as int).skip(1) =~= unsorted.skip(taken + 1));
            }
            let mut j: usize = sorted.len();
            while j > 0 && !str_le(sorted[j - 1].name.as_str(), x.name.as_str())
                invariant
                    0 <= j <= sorted@.len(),
                    forall|k: int| j <= k < sorted@.len() ==> !tag_le(#[trigger] sorted@[k], x),
                decreases j,
            {
                j = j - 1;
            }
            proof {
                lemma_insert_le_splice(leq, sorted@, x, j as int);
                lemma_insert_le_sorted(leq, sorted@, x);
                assert(unsorted.take(taken + 1).drop_last() =~= unsorted.take(taken as int));
                assert(unsorted.take(taken + 1).last() == unsorted[taken as int]);
            }
            sorted.insert(j, x);
            proof {
                assert(sorted@ =~= sort_le(leq, unsorted.take(taken as int)).subrange(0, j as int)
                    + seq![x] + sort_le(leq, unsorted.take(taken as int)).subrange(
                    j as int,
                    sort_le(leq, unsorted.take(taken as int)).len() as int,
                ));
            }
            taken = taken + 1;
        }
        proof {
            assert(unsorted.take(taken as int) =~= unsorted);
            lemma_sort_le_map(
                leq,
                |a: (Seq<char>, Seq<char>, Seq<char>), b: (Seq<char>, Seq<char>, Seq<char>)|
                    tag_view_le(a, b),
                |t: Tag| tag_view(t),
                unsorted,
            );
            crate::ordering::lemma_sort_le_multiset(leq, unsorted);
        }
        sorted
    }

    /// Renames and recolors the tag with the given identifier.  With
    /// no such tag, nothing happens; a name held by a different tag
    /// is refused, leaving the store unchanged.
    pub fn update_tag(&mut self, id: &str, name: &str, color: &str) -> (r: Result<(), StoreError>)
        requires
            old(self).wf(),
        ensures
            final(self).wf(),
            final(self).same_but_tags(old(self)),
            match r {
                Ok(()) => {
                    if has_tag_id(old(self).tags@, id@) {
                        &&& !(exists|j: int|
                            0 <= j < old(self).tags@.len() && old(self).tags@[j].name@ == name@
                                && #[trigger] old(self).tags@[j].id@ != id@)
                        &&& final(self).tags@.len() == old(self).tags@.len()
                        &&& (forall|k: int| #![trigger final(self).tags@[k]]
                            0 <= k < old(self).tags@.len() ==> {
                                let before = old(self).tags@[k];
                                let after = final(self).tags@[k];
                                if before.id@ == id@ {
                                    after.id@ == before.id@ && after.name@ == name@
                                        && after.color@ == color@
                                } else {
                                    after == before
                                }
                            })
                    } else {
                        final(self).tags@ == old(self).tags@
                    }
                },
                Err(e) => {
                    &&& e == StoreError::DuplicateName
                    &&& has_tag_id(old(self).tags@, id@)
                    &&& (exists|j: int|
                        0 <= j < old(self).tags@.len() && old(self).tags@[j].name@ == name@
                            && #[trigger] old(self).tags@[j].id@ != id@)
                    &&& final(self).tags@ == old(self).tags@
                },
            },
    {
        if !self.some_tag_has_id(id) {
            return Ok(());
        }
        // A name held by a tag other than the one being updated would
        // break the name's uniqueness.
        let n = self.tags.len();
        let mut i: usize = 0;
        while i < n
            invariant
                old(self).wf(),
                *self == *old(self),
                has_tag_id(old(self).tags@, id@),
                n == self.tags@.len(),
                0 <= i <= n,
                forall|k: int|
                    0 <= k < i ==> !(self.tags@[k].name@ == name@ && #[trigger] self.tags@[k].id@
                        != id@),
            decreases n - i,
        {
            if str_eq(self.tags[i].name.as_str(), name) && !str_eq(self.tags[i].id.as_str(), id) {
                proof {
                    assert(old(self).tags@[i as int].name@ == name@ && old(self).tags@[i as int].id@
                        != id@);
                }
                return Err(StoreError::DuplicateName);
            }
            i = i + 1;
        }
        let mut i: usize = 0;
        while i < n
            invariant
                old(self).wf(),
                self.same_but_tags(old(self)),
                n == self.tags@.len(),
                self.tags@.len() == old(self).tags@.len(),
                0 <= i <= n,
                forall|k: int|
                    0 <= k < n ==> !(old(self).tags@[k].name@ == name@ && #[trigger] old(
                        self,
                    ).tags@[k].id@ != id@),
                forall|k: int| #![trigger self.tags@[k]]
                    0 <= k < n ==> {
                        let before = old(self).tags@[k];
                        let after = self.tags@[k];
                        if k < i && before.id@ == id@ {
                            after.id@ == before.id@ && after.name@ == name@ && after.color@
                                == color@
                        } else {
                            after == before
                        }
                    },
            decreases n - i,
        {
            if str_eq(self.tags[i].id.as_str(), id) {
                let t = &self.tags[i];
                let updated = Tag { id: t.id.clone(), name: name.to_owned(), color: color.to_owned() };
                self.tags.set(i, updated);
            }
            i = i + 1;
        }
        proof {
            let ts = old(self).tags@;
            let nt = self.tags@;
            assert forall|a: int, b: int| 0 <= a < b < nt.len() implies nt[a].name@ != nt[b].name@
                && nt[a].id@ != nt[b].id@ by {
                assert(ts[a].name@ != ts[b].name@ && ts[a].id@ != ts[b].id@);
                if nt[a].id@ == id@ && nt[b].id@ == id@ {
                    assert(false);
                }
            }
        }
        Ok(())
    }

    /// Deletes the tag with the given identifier, if any.
    pub fn delete_tag(&mut self, id: &str)
        requires
            old(self).wf(),
        ensures
            final(self).wf(),
            final(self).same_but_tags(old(self)),
            final(self).tags@.map_values(|t: Tag| tag_view(t)) == old(self).tags@.map_values(
                |t: Tag| tag_view(t),
            ).filter(|tv: (Seq<char>, Seq<char>, Seq<char>)| tv.0 != id@),
    {
        let ghost pred = |t: Tag| !(t.id@ == id@);
        let ghost orig = self.tags@;
        let mut kept: Vec<Tag> = Vec::new();
        proof {
            lemma_filter_empty(pred);
            assert(orig.take(0) =~= Seq::<Tag>::empty());
        }
        let n = self.tags.len();
        let mut i: usize = 0;
        while i < n
            invariant
                orig == self.tags@,
                pred == (|t: Tag| !(t.id@ == id@)),
                n == self.tags@.len(),
                0 <= i <= n,
                kept@.map_values(|t: Tag| tag_view(t)) == orig.take(i as int).filter(pred)
                    .map_values(|t: Tag| tag_view(t)),
            decreases n - i,
        {
            proof {
                assert(orig.take(i + 1) =~= orig.take(i as int).push(orig[i as int]));
                lemma_filter_push(orig.take(i as int), orig[i as int], pred);
            }
            if !str_eq(self.tags[i].id.as_str(), id) {
                let c = self.tags[i].duplicate();
                proof {
                    assert(pred(orig[i as int]));
                    assert(tag_like(orig[i as int], c));
                }
                kept.push(c);
                proof {
                    assert(kept@.map_values(|t: Tag| tag_view(t)) =~= kept@.drop_last().map_values(
                        |t: Tag| tag_view(t),
                    ).push(tag_view(kept@.last())));
                    assert(orig.take(i + 1).filter(pred).map_values(|t: Tag| tag_view(t))
                        =~= orig.take(i as int).filter(pred).map_values(|t: Tag| tag_view(t)).push(
                        tag_view(orig[i as int]),
                    ));
                }
            } else {
                proof {
                    assert(!pred(orig[i as int]));
                }
            }
            i = i + 1;
        }
        proof {
            assert(orig.take(n as int) =~= orig);
            lemma_filter_map_commute(
                orig,
                |t: Tag| tag_view(t),
                pred,
                |tv: (Seq<char>, Seq<char>, Seq<char>)| tv.0 != id@,
            );
        }
        self.tags = kept;
        proof {
            let nt = self.tags@;
            let differs = |a: Tag, b: Tag| a.name@ != b.name@ && a.id@ != b.id@;
            lemma_filter_distinct_views(orig, pred, nt);
        }
    }
}

/// Whether some participant bears the given name.
pub open spec fn has_participant_name(ps: Seq<Participant>, name: Seq<char>) -> bool {
    exists|i: int| 0 <= i < ps.len() && ps[i].name@ == name
}

/// Whether some participant bears the given identifier.
pub open spec fn has_participant_id(ps: Seq<Participant>, id: Seq<char>) -> bool {
    exists|i: int| 0 <= i < ps.len() && ps[i].id@ == id
}

/// A participant as its field values.
pub open spec fn participant_view(p: Participant) -> (Seq<char>, Seq<char>) {
    (p.id@, p.name@)
}

/// Name order on participant views.
pub open spec fn participant_view_le(a: (Seq<char>, Seq<char>), b: (Seq<char>, Seq<char>)) -> bool {
    lex_le(a.1, b.1)
}

/// Name order on participants.
pub open spec fn participant_le(a: Participant, b: Participant) -> bool {
    lex_le(a.name@, b.name@)
}

impl Database {
    /// Everything but the participant table, unchanged.
    pub open spec fn same_but_participants(&self, other: &Database) -> bool {
        &&& self.videos@ == other.videos@
        &&& self.mounted_folders@ == other.mounted_folders@
        &&& self.tags@ == other.tags@
        &&& self.languages@ == other.languages@
        &&& self.video_tags@ == other.video_tags@
        &&& self.video_participants@ == other.video_participants@
        &&& self.video_languages@ == other.video_languages@
    }

    fn some_participant_has_name(&self, name: &str) -> (r: bool)
        ensures
            r == has_participant_name(self.participants@, name@),
    {
        let n = self.participants.len();
        let mut i: usize = 0;
        while i < n
            invariant
                n == self.participants@.len(),
                0 <= i <= n,
                forall|k: int| 0 <= k < i ==> self.participants@[k].name@ != name@,
            decreases n - i,
        {
            if str_eq(self.participants[i].name.as_str(), name) {
                return true;
            }
            i = i + 1;
        }
        false
    }

    fn some_participant_has_id(&self, id: &str) -> (r: bool)
        ensures
            r == has_participant_id(self.participants@, id@),
    {
        let n = self.participants.len();
        let mut i: usize = 0;
        while i < n
            invariant
                n == self.participants@.len(),
                0 <= i <= n,
                forall|k: int| 0 <= k < i ==> self.participants@[k].id@ != id@,
            decreases n - i,
        {
            if str_eq(self.participants[i].id.as_str(), id) {
                return true;
            }
            i = i + 1;
        }
        false
    }

    /// Stores a participant under the given identifier.  A taken name
    /// or a colliding identifier is refused, the name checked first.
    pub fn create_participant_with_id(&mut self, id: String, name: String) -> (r: Result<
        Participant,
        StoreError,
    >)
        requires
            old(self).wf(),
        ensures
            final(self).wf(),
            final(self).same_but_participants(old(self)),
            match r {
                Ok(p) => {
                    &&& !has_participant_name(old(self).participants@, name@)
                    &&& !has_participant_id(old(self).participants@, id@)
                    &&& final(self).participants@ == old(self).participants@.push(
                        Participant { id, name },
                    )
                    &&& participant_like(p, Participant { id, name })
                },
                Err(e) => {
                    &&& final(self).participants@ == old(self).participants@
                    &&& (e == StoreError::DuplicateName <==> has_participant_name(
                        old(self).participants@,
                        name@,
                    ))
                    &&& (e == StoreError::DuplicateId ==> (!has_participant_name(
                        old(self).participants@,
                        name@,
                    ) && has_participant_id(old(self).participants@, id@)))
                    &&& (e == StoreError::DuplicateName || e == StoreError::DuplicateId)
                },
            },
    {
        if self.some_participant_has_name(name.as_str()) {
            return Err(StoreError::DuplicateName);
        }
        if self.some_participant_has_id(id.as_str()) {
            return Err(StoreError::DuplicateId);
        }
        let ghost gname = name@;
        let ghost gid = id@;
        let p = Participant { id, name };
        let copy = p.duplicate();
        self.participants.push(p);
        proof {
            let ps = old(self).participants@;
            let np = self.participants@;
            assert forall|a: int, b: int| 0 <= a < b < np.len() implies np[a].name@ != np[b].name@
                && np[a].id@ != np[b].id@ by {
                if b < ps.len() {
                    assert(ps[a].name@ != ps[b].name@ && ps[a].id@ != ps[b].id@);
                } else {
                    assert(ps[a].name@ != gname);
                    assert(ps[a].id@ != gid);
                }
            }
        }
        Ok(copy)
    }

    /// Creates a participant under a fresh identifier.
    pub fn create_participant(&mut self, name: &str) -> (r: Result<Participant, StoreError>)
        requires
            old(self).wf(),
        ensures
            final(self).wf(),
            final(self).same_but_participants(old(self)),
            has_participant_name(old(self).participants@, name@) ==> r == Result::<
                Participant,
                StoreError,
            >::Err(StoreError::DuplicateName),
            match r {
                Ok(p) => {
                    &&& !has_participant_name(old(self).participants@, name@)
                    &&& p.name@ == name@
                    &&& final(self).participants@.len() == old(self).participants@.len() + 1
                    &&& final(self).participants@.drop_last() == old(self).participants@
                    &&& participant_like(p, final(self).participants@.last())
                },
                Err(e) => {
                    &&& final(self).participants@ == old(self).participants@
                    &&& (e == StoreError::DuplicateName <==> has_participant_name(
                        old(self).participants@,
                        name@,
                    ))
                    &&& (e == StoreError::DuplicateName || e == StoreError::DuplicateId)
                },
            },
    {
        let id = crate::clock::new_id();
        let r = self.create_participant_with_id(id, name.to_owned());
        proof {
            if r is Ok {
                assert(self.participants@.drop_last() =~= old(self).participants@);
            }
        }
        r
    }

    /// Lists the participants in name order, each a copy.
    pub fn get_participants(&self) -> (r: Vec<Participant>)
        ensures
            r@.map_values(|p: Participant| participant_view(p)) == sort_le(
                |a, b| participant_view_le(a, b),
                self.participants@.map_values(|p: Participant| participant_view(p)),
            ),
            r@.len() == self.participants@.len(),
    {
        let ghost leq = |a: Participant, b: Participant| participant_le(a, b);
        proof {
            assert forall|a: Participant, b: Participant|
                #[trigger] leq(a, b) || #[trigger] leq(b, a) by {
                lemma_lex_le_total(a.name@, b.name@);
            }
            assert forall|a: Participant, b: Participant, c: Participant|
                #[trigger] leq(a, b) && #[trigger] leq(b, c) implies leq(a, c) by {
                lemma_lex_le_trans(a.name@, b.name@, c.name@);
            }
        }
        let mut clones: Vec<Participant> = Vec::new();
        let n = self.participants.len();
        let mut i: usize = 0;
        while i < n
            invariant
                n == self.participants@.len(),
                0 <= i <= n,
                clones@.len() == i,
                forall|k: int|
                    0 <= k < i ==> participant_view(#[trigger] clones@[k]) == participant_view(
                        self.participants@[k],
                    ),
            decreases n - i,
        {
            let c = self.participants[i].duplicate();
            proof {
                assert(participant_like(self.participants@[i as int], c));
            }
            clones.push(c);
            i = i + 1;
        }
        proof {
            assert(clones@.map_values(|p: Participant| participant_view(p))
                =~= self.participants@.map_values(|p: Participant| participant_view(p)));
        }
        let ghost unsorted = clones@;
        let total_clones = clones.len();
        proof {
            assert(unsorted.len() == total_clones as int);
        }
        let mut sorted: Vec<Participant> = Vec::new();
        let mut taken: usize = 0;
        while clones.len() > 0
            invariant
                unsorted.len() <= usize::MAX,
                forall|a: Participant, b: Participant| #[trigger] leq(a, b) == participant_le(
                    a,
                    b,
                ),
                total_preorder(leq),
                0 <= taken <= unsorted.len(),
                clones@ == unsorted.skip(taken as int),
                sorted@ == sort_le(leq, unsorted.take(taken as int)),
                sorted_by(sorted@, leq),
            decreases clones.len(),
        {
            let x = clones.remove(0);
            proof {
                assert(x == unsorted[taken as int]);
                assert(unsorted.skip(taken as int).skip(1) =~= unsorted.skip(taken + 1));
            }
            let mut j: usize = sorted.len();
            while j > 0 && !str_le(sorted[j - 1].name.as_str(), x.name.as_str())
                invariant
                    0 <= j <= sorted@.len(),
                    forall|k: int|
                        j <= k < sorted@.len() ==> !participant_le(#[trigger] sorted@[k], x),
                decreases j,
            {
                j = j - 1;
            }
            proof {
                lemma_insert_le_splice(leq, sorted@, x, j as int);
                lemma_insert_le_sorted(leq, sorted@, x);
                assert(unsorted.take(taken + 1).drop_last() =~= unsorted.take(taken as int));
                assert(unsorted.take(taken + 1).last() == unsorted[taken as int]);
            }
            sorted.insert(j, x);
            proof {
                assert(sorted@ =~= sort_le(leq, unsorted.take(taken as int)).subrange(0, j as int)
                    + seq![x] + sort_le(leq, unsorted.take(taken as int)).subrange(
                    j as int,
                    sort_le(leq, unsorted.take(taken as int)).len() as int,
                ));
            }
            taken = taken + 1;
        }
        proof {
            assert(unsorted.take(taken as int) =~= unsorted);
            lemma_sort_le_map(
                leq,
                |a: (Seq<char>, Seq<char>), b: (Seq<char>, Seq<char>)| participant_view_le(a, b),
                |p: Participant| participant_view(p),
                unsorted,
            );
            crate::ordering::lemma_sort_le_multiset(leq, unsorted);
        }
        sorted
    }

    /// Renames the participant with the given identifier; a name held
    /// by a different participant is refused.
    pub fn update_participant(&mut self, id: &str, name: &str) -> (r: Result<(), StoreError>)
        requires
            old(self).wf(),
        ensures
            final(self).wf(),
            final(self).same_but_participants(old(self)),
            match r {
                Ok(()) => {
                    if has_participant_id(old(self).participants@, id@) {
                        &&& !(exists|j: int|
                            0 <= j < old(self).participants@.len() && old(
                                self,
                            ).participants@[j].name@ == name@ && #[trigger] old(
                                self,
                            ).participants@[j].id@ != id@)
                        &&& final(self).participants@.len() == old(self).participants@.len()
                        &&& (forall|k: int| #![trigger final(self).participants@[k]]
                            0 <= k < old(self).participants@.len() ==> {
                                let before = old(self).participants@[k];
                                let after = final(self).participants@[k];
                                if before.id@ == id@ {
                                    after.id@ == before.id@ && after.name@ == name@
                                } else {
                                    after == before
                                }
                            })
                    } else {
                        final(self).participants@ == old(self).participants@
                    }
                },
                Err(e) => {
                    &&& e == StoreError::DuplicateName
                    &&& has_participant_id(old(self).participants@, id@)
                    &&& final(self).participants@ == old(self).participants@
                },
            },
    {
        if !self.some_participant_has_id(id) {
            return Ok(());
        }
        let n = self.participants.len();
        let mut i: usize = 0;
        while i < n
            invariant
                old(self).wf(),
                *self == *old(self),
                has_participant_id(old(self).participants@, id@),
                n == self.participants@.len(),
                0 <= i <= n,
                forall|k: int|
                    0 <= k < i ==> !(self.participants@[k].name@ == name@
                        && #[trigger] self.participants@[k].id@ != id@),
            decreases n - i,
        {
            if str_eq(self.participants[i].name.as_str(), name) && !str_eq(
                self.participants[i].id.as_str(),
                id,
            ) {
                return Err(StoreError::DuplicateName);
            }
            i = i + 1;
        }
        let mut i: usize = 0;
        while i < n
            invariant
                old(self).wf(),
                self.same_but_participants(old(self)),
                n == self.participants@.len(),
                self.participants@.len() == old(self).participants@.len(),
                0 <= i <= n,
                forall|k: int|
                    0 <= k < n ==> !(old(self).participants@[k].name@ == name@ && #[trigger] old(
                        self,
                    ).participants@[k].id@ != id@),
                forall|k: int| #![trigger self.participants@[k]]
                    0 <= k < n ==> {
                        let before = old(self).participants@[k];
                        let after = self.participants@[k];
                        if k < i && before.id@ == id@ {
                            after.id@ == before.id@ && after.name@ == name@
                        } else {
                            after == before
                        }
                    },
            decreases n - i,
        {
            if str_eq(self.participants[i].id.as_str(), id) {
                let p = &self.participants[i];
                let updated = Participant { id: p.id.clone(), name: name.to_owned() };
                self.participants.set(i, updated);
            }
            i = i + 1;
        }
        proof {
            let ps = old(self).participants@;
            let np = self.participants@;
            assert forall|a: int, b: int| 0 <= a < b < np.len() implies np[a].name@ != np[b].name@
                && np[a].id@ != np[b].id@ by {
                assert(ps[a].name@ != ps[b].name@ && ps[a].id@ != ps[b].id@);
            }
        }
        Ok(())
    }

    /// Deletes the participant with the given identifier, if any.
    pub fn delete_participant(&mut self, id: &str)
        requires
            old(self).wf(),
        ensures
            final(self).wf(),
            final(self).same_but_participants(old(self)),
            final(self).participants@.map_values(|p: Participant| participant_view(p)) == old(
                self,
            ).participants@.map_values(|p: Participant| participant_view(p)).filter(
                |pv: (Seq<char>, Seq<char>)| pv.0 != id@,
            ),
    {
        let ghost pred = |p: Participant| !(p.id@ == id@);
        let ghost orig = self.participants@;
        let mut kept: Vec<Participant> = Vec::new();
        proof {
            lemma_filter_empty(pred);
            assert(orig.take(0) =~= Seq::<Participant>::empty());
        }
        let n = self.participants.len();
        let mut i: usize = 0;
        while i < n
            invariant
                orig == self.participants@,
                pred == (|p: Participant| !(p.id@ == id@)),
                n == self.participants@.len(),
                0 <= i <= n,
                kept@.map_values(|p: Participant| participant_view(p)) == orig.take(
                    i as int,
                ).filter(pred).map_values(|p: Participant| participant_view(p)),
            decreases n - i,
        {
            proof {
                assert(orig.take(i + 1) =~= orig.take(i as int).push(orig[i as int]));
                lemma_filter_push(orig.take(i as int), orig[i as int], pred);
            }
            if !str_eq(self.participants[i].id.as_str(), id) {
                let c = self.participants[i].duplicate();
                proof {
                    assert(pred(orig[i as int]));
                    assert(participant_like(orig[i as int], c));
                }
                kept.push(c);
                proof {
                    assert(kept@.map_values(|p: Participant| participant_view(p))
                        =~= kept@.drop_last().map_values(|p: Participant| participant_view(p)).push(
                        participant_view(kept@.last()),
                    ));
                    assert(orig.take(i + 1).filter(pred).map_values(
                        |p: Participant| participant_view(p),
                    ) =~= orig.take(i as int).filter(pred).map_values(
                        |p: Participant| participant_view(p),
                    ).push(participant_view(orig[i as int])));
                }
            } else {
                proof {
                    assert(!pred(orig[i as int]));
                }
            }
            i = i + 1;
        }
        proof {
            assert(orig.take(n as int) =~= orig);
            lemma_filter_map_commute(
                orig,
                |p: Participant| participant_view(p),
                pred,
                |pv: (Seq<char>, Seq<char>)| pv.0 != id@,
            );
        }
        self.participants = kept;
        proof {
            let f = orig.filter(pred);
            let differs = |a: Participant, b: Participant| a.name@ != b.name@ && a.id@ != b.id@;
            crate::seqs::lemma_filter_distinct(orig, pred, differs);
            let np = self.participants@;
            assert(np.map_values(|p: Participant| participant_view(p)).len() == f.map_values(
                |p: Participant| participant_view(p),
            ).len());
            assert forall|a: int, b: int| 0 <= a < b < np.len() implies np[a].name@ != np[b].name@
                && np[a].id@ != np[b].id@ by {
                assert(np.map_values(|p: Participant| participant_view(p))[a] == participant_view(
                    np[a],
                ));
                assert(np.map_values(|p: Participant| participant_view(p))[b] == participant_view(
                    np[b],
                ));
                assert(f.map_values(|p: Participant| participant_view(p))[a] == participant_view(
                    f[a],
                ));
                assert(f.map_values(|p: Participant| participant_view(p))[b] == participant_view(
                    f[b],
                ));
                assert(differs(f[a], f[b]));
            }
        }
    }
}

/// Whether some language bears the given code.
pub open spec fn has_language_code(ls: Seq<Language>, code: Seq<char>) -> bool {
    exists|i: int| 0 <= i < ls.len() && ls[i].code@ == code
}

/// Whether some language bears the given identifier.
pub open spec fn has_language_id(ls: Seq<Language>, id: Seq<char>) -> bool {
    exists|i: int| 0 <= i < ls.len() && ls[i].id@ == id
}

/// A language as its field values.
pub open spec fn language_view(l: Language) -> (Seq<char>, Seq<char>, Seq<char>) {
    (l.id@, l.code@, l.name@)
}

/// Name order on language views.
pub open spec fn language_view_le(a: (Seq<char>, Seq<char>, Seq<char>), b: (Seq<char>, Seq<char>, Seq<char>)) -> bool {
    lex_le(a.2, b.2)
}

/// Name order on languages.
pub open spec fn language_le(a: Language, b: Language) -> bool {
    lex_le(a.name@, b.name@)
}

impl Database {
    /// Everything but the language table, unchanged.
    pub open spec fn same_but_languages(&self, other: &Database) -> bool {
        &&& self.videos@ == other.videos@
        &&& self.mounted_folders@ == other.mounted_folders@
        &&& self.tags@ == other.tags@
        &&& self.participants@ == other.participants@
        &&& self.video_tags@ == other.video_tags@
        &&& self.video_participants@ == other.video_participants@
        &&& self.video_languages@ == other.video_languages@
    }

    fn some_language_has_code(&self, code: &str) -> (r: bool)
        ensures
            r == has_language_code(self.languages@, code@),
    {
        let n = self.languages.len();
        let mut i: usize = 0;
        while i < n
            invariant
                n == self.languages@.len(),
                0 <= i <= n,
                forall|k: int| 0 <= k < i ==> self.languages@[k].code@ != code@,
            decreases n - i,
        {
            if str_eq(self.languages[i].code.as_str(), code) {
                return true;
            }
            i = i + 1;
        }
        false
    }

    fn some_language_has_id(&self, id: &str) -> (r: bool)
        ensures
            r == has_language_id(self.languages@, id@),
    {
        let n = self.languages.len();
        let mut i: usize = 0;
        while i < n
            invariant
                n == self.languages@.len(),
                0 <= i <= n,
                forall|k: int| 0 <= k < i ==> self.languages@[k].id@ != id@,
            decreases n - i,
        {
            if str_eq(self.languages[i].id.as_str(), id) {
                return true;
            }
            i = i + 1;
        }
        false
    }

    /// Stores a language under the given identifier.  A taken code or
    /// a colliding identifier is refused, the code checked first.
    pub fn create_language_with_id(&mut self, id: String, code: String, name: String) -> (r: Result<
        Language,
        StoreError,
    >)
        requires
            old(self).wf(),
        ensures
            final(self).wf(),
            final(self).same_but_languages(old(self)),
            match r {
                Ok(l) => {
                    &&& !has_language_code(old(self).languages@, code@)
                    &&& !has_language_id(old(self).languages@, id@)
                    &&& final(self).languages@ == old(self).languages@.push(
                        Language { id, code, name },
                    )
                    &&& language_like(l, Language { id, code, name })
                },
                Err(e) => {
                    &&& final(self).languages@ == old(self).languages@
                    &&& (e == StoreError::DuplicateCode <==> has_language_code(
                        old(self).languages@,
                        code@,
                    ))
                    &&& (e == StoreError::DuplicateId ==> (!has_language_code(
                        old(self).languages@,
                        code@,
                    ) && has_language_id(old(self).languages@, id@)))
                    &&& (e == StoreError::DuplicateCode || e == StoreError::DuplicateId)
                },
            },
    {
        if self.some_language_has_code(code.as_str()) {
            return Err(StoreError::DuplicateCode);
        }
        if self.some_language_has_id(id.as_str()) {
            return Err(StoreError::DuplicateId);
        }
        let ghost gcode = code@;
        let ghost gid = id@;
        let l = Language { id, code, name };
        let copy = l.duplicate();
        self.languages.push(l);
        proof {
            let ls = old(self).languages@;
            let nl = self.languages@;
            assert forall|a: int, b: int| 0 <= a < b < nl.len() implies nl[a].code@ != nl[b].code@
                && nl[a].id@ != nl[b].id@ by {
                if b < ls.len() {
                    assert(ls[a].code@ != ls[b].code@ && ls[a].id@ != ls[b].id@);
                } else {
                    assert(ls[a].code@ != gcode);
                    assert(ls[a].id@ != gid);
                }
            }
        }
        Ok(copy)
    }

    /// Creates a language under a fresh identifier.
    pub fn create_language(&mut self, code: &str, name: &str) -> (r: Result<Language, StoreError>)
        requires
            old(self).wf(),
        ensures
            final(self).wf(),
            final(self).same_but_languages(old(self)),
            has_language_code(old(self).languages@, code@) ==> r == Result::<
                Language,
                StoreError,
            >::Err(StoreError::DuplicateCode),
            match r {
                Ok(l) => {
                    &&& !has_language_code(old(self).languages@, code@)
                    &&& l.code@ == code@
                    &&& l.name@ == name@
                    &&& final(self).languages@.len() == old(self).languages@.len() + 1
                    &&& final(self).languages@.drop_last() == old(self).languages@
                    &&& language_like(l, final(self).languages@.last())
                },
                Err(e) => {
                    &&& final(self).languages@ == old(self).languages@
                    &&& (e == StoreError::DuplicateCode <==> has_language_code(
                        old(self).languages@,
                        code@,
                    ))
                    &&& (e == StoreError::DuplicateCode || e == StoreError::DuplicateId)
                },
            },
    {
        let id = crate::clock::new_id();
        let r = self.create_language_with_id(id, code.to_owned(), name.to_owned());
        proof {
            if r is Ok {
                assert(self.languages@.drop_last() =~= old(self).languages@);
            }
        }
        r
    }

    /// Lists the languages in name order, each a copy.
    pub fn get_languages(&self) -> (r: Vec<Language>)
        ensures
            r@.map_values(|l: Language| language_view(l)) == sort_le(
                |a, b| language_view_le(a, b),
                self.languages@.map_values(|l: Language| language_view(l)),
            ),
            r@.len() == self.languages@.len(),
    {
        let ghost leq = |a: Language, b: Language| language_le(a, b);
        proof {
            assert forall|a: Language, b: Language|
                #[trigger] leq(a, b) || #[trigger] leq(b, a) by {
                lemma_lex_le_total(a.name@, b.name@);
            }
            assert forall|a: Language, b: Language, c: Language|
                #[trigger] leq(a, b) && #[trigger] leq(b, c) implies leq(a, c) by {
                lemma_lex_le_trans(a.name@, b.name@, c.name@);
            }
        }
        let mut clones: Vec<Language> = Vec::new();
        let n = self.languages.len();
        let mut i: usize = 0;
        while i < n
            invariant
                n == self.languages@.len(),
                0 <= i <= n,
                clones@.len() == i,
                forall|k: int|
                    0 <= k < i ==> language_view(#[trigger] clones@[k]) == language_view(
                        self.languages@[k],
                    ),
            decreases n - i,
        {
            let c = self.languages[i].duplicate();
            proof {
                assert(language_like(self.languages@[i as int], c));
            }
            clones.push(c);
            i = i + 1;
        }
        proof {
            assert(clones@.map_values(|l: Language| language_view(l)) =~= self.languages@.map_values(
                |l: Language| language_view(l),
            ));
        }
        let ghost unsorted = clones@;
        let total_clones = clones.len();
        proof {
            assert(unsorted.len() == total_clones as int);
        }
        let mut sorted: Vec<Language> = Vec::new();
        let mut taken: usize = 0;
        while clones.len() > 0
            invariant
                unsorted.len() <= usize::MAX,
                forall|a: Language, b: Language| #[trigger] leq(a, b) == language_le(a, b),
                total_preorder(leq),
                0 <= taken <= unsorted.len(),
                clones@ == unsorted.skip(taken as int),
                sorted@ == sort_le(leq, unsorted.take(taken as int)),
                sorted_by(sorted@, leq),
            decreases clones.len(),
        {
            let x = clones.remove(0);
            proof {
                assert(x == unsorted[taken as int]);
                assert(unsorted.skip(taken as int).skip(1) =~= unsorted.skip(taken + 1));
            }
            let mut j: usize = sorted.len();
            while j > 0 && !str_le(sorted[j - 1].name.as_str(), x.name.as_str())
                invariant
                    0 <= j <= sorted@.len(),
                    forall|k: int|
                        j <= k < sorted@.len() ==> !language_le(#[trigger] sorted@[k], x),
                decreases j,
            {
                j = j - 1;
            }
            proof {
                lemma_insert_le_splice(leq, sorted@, x, j as int);
                lemma_insert_le_sorted(leq, sorted@, x);
                assert(unsorted.take(taken + 1).drop_last() =~= unsorted.take(taken as int));
                assert(unsorted.take(taken + 1).last() == unsorted[taken as int]);
            }
            sorted.insert(j, x);
            proof {
                assert(sorted@ =~= sort_le(leq, unsorted.take(taken as int)).subrange(0, j as int)
                    + seq![x] + sort_le(leq, unsorted.take(taken as int)).subrange(
                    j as int,
                    sort_le(leq, unsorted.take(taken as int)).len() as int,
                ));
            }
            taken = taken + 1;
        }
        proof {
            assert(unsorted.take(taken as int) =~= unsorted);
            lemma_sort_le_map(
                leq,
                |a: (Seq<char>, Seq<char>, Seq<char>), b: (Seq<char>, Seq<char>, Seq<char>)|
                    language_view_le(a, b),
                |l: Language| language_view(l),
                unsorted,
            );
            crate::ordering::lemma_sort_le_multiset(leq, unsorted);
        }
        sorted
    }

    /// Recodes and renames the language with the given identifier; a
    /// code held by a different language is refused.
    pub fn update_language(&mut self, id: &str, code: &str, name: &str) -> (r: Result<
        (),
        StoreError,
    >)
        requires
            old(self).wf(),
        ensures
            final(self).wf(),
            final(self).same_but_languages(old(self)),
            match r {
                Ok(()) => {
                    if has_language_id(old(self).languages@, id@) {
                        &&& !(exists|j: int|
                            0 <= j < old(self).languages@.len() && old(self).languages@[j].code@
                                == code@ && #[trigger] old(self).languages@[j].id@ != id@)
                        &&& final(self).languages@.len() == old(self).languages@.len()
                        &&& (forall|k: int| #![trigger final(self).languages@[k]]
                            0 <= k < old(self).languages@.len() ==> {
                                let before = old(self).languages@[k];
                                let after = final(self).languages@[k];
                                if before.id@ == id@ {
                                    after.id@ == before.id@ && after.code@ == code@ && after.name@
                                        == name@
                                } else {
                                    after == before
                                }
                            })
                    } else {
                        final(self).languages@ == old(self).languages@
                    }
                },
                Err(e) => {
                    &&& e == StoreError::DuplicateCode
                    &&& has_language_id(old(self).languages@, id@)
                    &&& final(self).languages@ == old(self).languages@
                },
            },
    {
        if !self.some_language_has_id(id) {
            return Ok(());
        }
        let n = self.languages.len();
        let mut i: usize = 0;
        while i < n
            invariant
                old(self).wf(),
                *self == *old(self),
                has_language_id(old(self).languages@, id@),
                n == self.languages@.len(),
                0 <= i <= n,
                forall|k: int|
                    0 <= k < i ==> !(self.languages@[k].code@ == code@
                        && #[trigger] self.languages@[k].id@ != id@),
            decreases n - i,
        {
            if str_eq(self.languages[i].code.as_str(), code) && !str_eq(
                self.languages[i].id.as_str(),
                id,
            ) {
                return Err(StoreError::DuplicateCode);
            }
            i = i + 1;
        }
        let mut i: usize = 0;
        while i < n
            invariant
                old(self).wf(),
                self.same_but_languages(old(self)),
                n == self.languages@.len(),
                self.languages@.len() == old(self).languages@.len(),
                0 <= i <= n,
                forall|k: int|
                    0 <= k < n ==> !(old(self).languages@[k].code@ == code@ && #[trigger] old(
                        self,
                    ).languages@[k].id@ != id@),
                forall|k: int| #![trigger self.languages@[k]]
                    0 <= k < n ==> {
                        let before = old(self).languages@[k];
                        let after = self.languages@[k];
                        if k < i && before.id@ == id@ {
                            after.id@ == before.id@ && after.code@ == code@ && after.name@ == name@
                        } else {
                            after == before
                        }
                    },
            decreases n - i,
        {
            if str_eq(self.languages[i].id.as_str(), id) {
                let l = &self.languages[i];
                let updated = Language {
                    id: l.id.clone(),
                    code: code.to_owned(),
                    name: name.to_owned(),
                };
                self.languages.set(i, updated);
            }
            i = i + 1;
        }
        proof {
            let ls = old(self).languages@;
            let nl = self.languages@;
            assert forall|a: int, b: int| 0 <= a < b < nl.len() implies nl[a].code@ != nl[b].code@
                && nl[a].id@ != nl[b].id@ by {
                assert(ls[a].code@ != ls[b].code@ && ls[a].id@ != ls[b].id@);
                if nl[a].id@ == id@ && nl[b].id@ == id@ {
                    assert(false);
                }
            }
        }
        Ok(())
    }

    /// Deletes the language with the given identifier, if any.
    pub fn delete_language(&mut self, id: &str)
        requires
            old(self).wf(),
        ensures
            final(self).wf(),
            final(self).same_but_languages(old(self)),
            final(self).languages@.map_values(|l: Language| language_view(l)) == old(
                self,
            ).languages@.map_values(|l: Language| language_view(l)).filter(
                |lv: (Seq<char>, Seq<char>, Seq<char>)| lv.0 != id@,
            ),
    {
        let ghost pred = |l: Language| !(l.id@ == id@);
        let ghost orig = self.languages@;
        let mut kept: Vec<Language> = Vec::new();
        proof {
            lemma_filter_empty(pred);
            assert(orig.take(0) =~= Seq::<Language>::empty());
        }
        let n = self.languages.len();
        let mut i: usize = 0;
        while i < n
            invariant
                orig == self.languages@,
                pred == (|l: Language| !(l.id@ == id@)),
                n == self.languages@.len(),
                0 <= i <= n,
                kept@.map_values(|l: Language| language_view(l)) == orig.take(i as int).filter(
                    pred,
                ).map_values(|l: Language| language_view(l)),
            decreases n - i,
        {
            proof {
                assert(orig.take(i + 1) =~= orig.take(i as int).push(orig[i as int]));
                lemma_filter_push(orig.take(i as int), orig[i as int], pred);
            }
            if !str_eq(self.languages[i].id.as_str(), id) {
                let c = self.languages[i].duplicate();
                proof {
                    assert(pred(orig[i as int]));
                    assert(language_like(orig[i as int], c));
                }
                kept.push(c);
                proof {
                    assert(kept@.map_values(|l: Language| language_view(l))
                        =~= kept@.drop_last().map_values(|l: Language| language_view(l)).push(
                        language_view(kept@.last()),
                    ));
                    assert(orig.take(i + 1).filter(pred).map_values(
                        |l: Language| language_view(l),
                    ) =~= orig.take(i as int).filter(pred).map_values(
                        |l: Language| language_view(l),
                    ).push(language_view(orig[i as int])));
                }
            } else {
                proof {
                    assert(!pred(orig[i as int]));
                }
            }
            i = i + 1;
        }
        proof {
            assert(orig.take(n as int) =~= orig);
            lemma_filter_map_commute(
                orig,
                |l: Language| language_view(l),
                pred,
                |lv: (Seq<char>, Seq<char>, Seq<char>)| lv.0 != id@,
            );
        }
        self.languages = kept;
        proof {
            let f = orig.filter(pred);
            let differs = |a: Language, b: Language| a.code@ != b.code@ && a.id@ != b.id@;
            crate::seqs::lemma_filter_distinct(orig, pred, differs);
            let nl = self.languages@;
            assert(nl.map_values(|l: Language| language_view(l)).len() == f.map_values(
                |l: Language| language_view(l),
            ).len());
            assert forall|a: int, b: int| 0 <= a < b < nl.len() implies nl[a].code@ != nl[b].code@
                && nl[a].id@ != nl[b].id@ by {
                assert(nl.map_values(|l: Language| language_view(l))[a] == language_view(nl[a]));
                assert(nl.map_values(|l: Language| language_view(l))[b] == language_view(nl[b]));
                assert(f.map_values(|l: Language| language_view(l))[a] == language_view(f[a]));
                assert(f.map_values(|l: Language| language_view(l))[b] == language_view(f[b]));
                assert(differs(f[a], f[b]));
            }
        }
    }
}

/// The identifier list a caller hands in, as character sequences.
pub open spec fn ids_view(ids: Seq<String>) -> Seq<Seq<char>> {
    ids.map_values(|s: String| s@)
}

/// The association pairs tying one record to the given identifiers.
pub open spec fn make_pairs(vid: Seq<char>, ids: Seq<Seq<char>>) -> Seq<(Seq<char>, Seq<char>)> {
    ids.map_values(|t: Seq<char>| (vid, t))
}

/// Deletes every pair whose record identifier is `key`.
fn retain_pairs_without(pairs: &mut Vec<(String, String)>, key: &str)
    ensures
        pairs_view(final(pairs)@) == pairs_view(old(pairs)@).filter(
            |p: (Seq<char>, Seq<char>)| p.0 != key@,
        ),
{
    let ghost predv = |p: (Seq<char>, Seq<char>)| p.0 != key@;
    let ghost pred = |p: (String, String)| !(p.0@ == key@);
    let ghost orig = pairs@;
    let mut kept: Vec<(String, String)> = Vec::new();
    proof {
        lemma_filter_empty(pred);
        assert(orig.take(0) =~= Seq::<(String, String)>::empty());
    }
    let n = pairs.len();
    let mut i: usize = 0;
    while i < n
        invariant
            orig == pairs@,
            pred == (|p: (String, String)| !(p.0@ == key@)),
            n == pairs@.len(),
            0 <= i <= n,
            kept@.map_values(|p: (String, String)| (p.0@, p.1@)) == orig.take(i as int).filter(
                pred,
            ).map_values(|p: (String, String)| (p.0@, p.1@)),
        decreases n - i,
    {
        proof {
            assert(orig.take(i + 1) =~= orig.take(i as int).push(orig[i as int]));
            lemma_filter_push(orig.take(i as int), orig[i as int], pred);
        }
        if !str_eq(pairs[i].0.as_str(), key) {
            let c = (pairs[i].0.clone(), pairs[i].1.clone());
            proof {
                assert(pred(orig[i as int]));
            }
            kept.push(c);
            proof {
                assert(kept@.map_values(|p: (String, String)| (p.0@, p.1@))
                    =~= kept@.drop_last().map_values(|p: (String, String)| (p.0@, p.1@)).push(
                    (kept@.last().0@, kept@.last().1@),
                ));
                assert(orig.take(i + 1).filter(pred).map_values(
                    |p: (String, String)| (p.0@, p.1@),
                ) =~= orig.take(i as int).filter(pred).map_values(
                    |p: (String, String)| (p.0@, p.1@),
                ).push((orig[i as int].0@, orig[i as int].1@)));
            }
        } else {
            proof {
                assert(!pred(orig[i as int]));
            }
        }
        i = i + 1;
    }
    proof {
        assert(orig.take(n as int) =~= orig);
        lemma_filter_map_commute(orig, |p: (String, String)| (p.0@, p.1@), pred, predv);
    }
    *pairs = kept;
}

/// The filtered pairs stay pairwise distinct.
proof fn lemma_filtered_pairs_wf(
    orig: Seq<(Seq<char>, Seq<char>)>,
    pred: spec_fn((Seq<char>, Seq<char>)) -> bool,
)
    requires
        pairs_wf(orig),
    ensures
        pairs_wf(orig.filter(pred)),
{
    let differs = |a: (Seq<char>, Seq<char>), b: (Seq<char>, Seq<char>)| a != b;
    crate::seqs::lemma_filter_distinct(orig, pred, differs);
    let f = orig.filter(pred);
    assert forall|a: int, b: int| 0 <= a < b < f.len() implies f[a] != f[b] by {
        assert(differs(f[a], f[b]));
    }
}

impl Database {
    /// Everything but one association table, unchanged.
    pub open spec fn same_but_video_tags(&self, other: &Database) -> bool {
        &&& self.videos@ == other.videos@
        &&& self.mounted_folders@ == other.mounted_folders@
        &&& self.tags@ == other.tags@
        &&& self.participants@ == other.participants@
        &&& self.languages@ == other.languages@
        &&& self.video_participants@ == other.video_participants@
        &&& self.video_languages@ == other.video_languages@
    }

    /// See `same_but_video_tags`.
    pub open spec fn same_but_video_participants(&self, other: &Database) -> bool {
        &&& self.videos@ == other.videos@
        &&& self.mounted_folders@ == other.mounted_folders@
        &&& self.tags@ == other.tags@
        &&& self.participants@ == other.participants@
        &&& self.languages@ == other.languages@
        &&& self.video_tags@ == other.video_tags@
        &&& self.video_languages@ == other.video_languages@
    }

    /// See `same_but_video_tags`.
    pub open spec fn same_but_video_languages(&self, other: &Database) -> bool {
        &&& self.videos@ == other.videos@
        &&& self.mounted_folders@ == other.mounted_folders@
        &&& self.tags@ == other.tags@
        &&& self.participants@ == other.participants@
        &&& self.languages@ == other.languages@
        &&& self.video_tags@ == other.video_tags@
        &&& self.video_participants@ == other.video_participants@
    }

    /// Replaces the tag set of one record: its old pairs go, the given
    /// identifiers are inserted in order.  An identifier given twice is
    /// refused at its second occurrence, as the pair key would repeat;
    /// the pairs inserted before it stay.
    pub fn set_video_tags(&mut self, video_id: &str, tag_ids: &Vec<String>) -> (r: Result<
        (),
        StoreError,
    >)
        requires
            old(self).wf(),
        ensures
            final(self).wf(),
            final(self).same_but_video_tags(old(self)),
            ({
                let cleared = old(self).vt().filter(
                    |p: (Seq<char>, Seq<char>)| p.0 != video_id@,
                );
                let ids = ids_view(tag_ids@);
                match r {
                    Ok(()) => ids.no_duplicates() && final(self).vt() == cleared + make_pairs(
                        video_id@,
                        ids,
                    ),
                    Err(e) => {
                        &&& e == StoreError::DuplicatePair
                        &&& exists|k: int|
                            0 <= k < ids.len() && ids.take(k).contains(#[trigger] ids[k]) && ids.take(
                                k,
                            ).no_duplicates() && final(self).vt() == cleared + make_pairs(
                                video_id@,
                                ids.take(k),
                            )
                    },
                }
            }),
    {
        let ghost cleared = old(self).vt().filter(|p: (Seq<char>, Seq<char>)| p.0 != video_id@);
        let ghost ids = ids_view(tag_ids@);
        proof {
            lemma_filtered_pairs_wf(
                old(self).vt(),
                |p: (Seq<char>, Seq<char>)| p.0 != video_id@,
            );
            assert forall|q: int| 0 <= q < cleared.len() implies #[trigger] cleared[q].0
                != video_id@ by {
                old(self).vt().lemma_filter_pred(
                    |p: (Seq<char>, Seq<char>)| p.0 != video_id@,
                    q,
                );
            }
        }
        retain_pairs_without(&mut self.video_tags, video_id);
        let n = tag_ids.len();
        let mut k: usize = 0;
        while k < n
            invariant
                old(self).wf(),
                self.same_but_video_tags(old(self)),
                cleared == old(self).vt().filter(|p: (Seq<char>, Seq<char>)| p.0 != video_id@),
                ids == ids_view(tag_ids@),
                pairs_wf(cleared),
                forall|q: int| 0 <= q < cleared.len() ==> #[trigger] cleared[q].0 != video_id@,
                n == tag_ids@.len(),
                0 <= k <= n,
                self.vt() == cleared + make_pairs(video_id@, ids.take(k as int)),
                ids.take(k as int).no_duplicates(),
                pairs_wf(self.vt()),
            decreases n - k,
        {
            // Scan the earlier identifiers for a repeat.
            let mut j: usize = 0;
            while j < k
                invariant
                    old(self).wf(),
                    self.same_but_video_tags(old(self)),
                    cleared == old(self).vt().filter(
                        |p: (Seq<char>, Seq<char>)| p.0 != video_id@,
                    ),
                    ids == ids_view(tag_ids@),
                    pairs_wf(cleared),
                    n == tag_ids@.len(),
                    0 <= j <= k < n,
                    self.vt() == cleared + make_pairs(video_id@, ids.take(k as int)),
                    ids.take(k as int).no_duplicates(),
                    pairs_wf(self.vt()),
                    forall|q: int| 0 <= q < j ==> ids[q] != ids[k as int],
                decreases k - j,
            {
                if str_eq(tag_ids[j].as_str(), tag_ids[k].as_str()) {
                    proof {
                        assert(ids[j as int] == ids[k as int]);
                        assert(ids.take(k as int)[j as int] == ids[j as int]);
                        assert(ids.take(k as int).contains(ids[k as int]));
                    }
                    return Err(StoreError::DuplicatePair);
                }
                j = j + 1;
            }
            proof {
                assert forall|q: int| 0 <= q < k implies ids.take(k as int)[q] != ids[k as int] by {
                    assert(ids.take(k as int)[q] == ids[q]);
                }
                assert(ids.take(k + 1) =~= ids.take(k as int).push(ids[k as int]));
                assert(make_pairs(video_id@, ids.take(k + 1)) =~= make_pairs(
                    video_id@,
                    ids.take(k as int),
                ).push((video_id@, ids[k as int])));
            }
            let pair = (video_id.to_owned(), tag_ids[k].clone());
            let ghost prev_pairs = self.video_tags@;
            self.video_tags.push(pair);
            proof {
                assert(self.vt() =~= pairs_view(prev_pairs).push((video_id@, ids[k as int])));
                assert(self.vt() =~= cleared + make_pairs(video_id@, ids.take(k + 1)));
                let nv = self.vt();
                assert forall|a: int, b: int| 0 <= a < b < nv.len() implies nv[a] != nv[b] by {
                    let m = cleared.len();
                    if b < nv.len() - 1 {
                        assert(pairs_wf(cleared + make_pairs(video_id@, ids.take(k as int))));
                        assert((cleared + make_pairs(video_id@, ids.take(k as int)))[a] == nv[a]);
                        assert((cleared + make_pairs(video_id@, ids.take(k as int)))[b] == nv[b]);
                    } else {
                        assert(nv[b] == (video_id@, ids[k as int]));
                        if a < m {
                            assert(nv[a] == cleared[a]);
                            assert(cleared[a].0 != video_id@);
                        } else {
                            assert(nv[a] == make_pairs(video_id@, ids.take(k as int))[a - m]);
                            assert(nv[a].1 == ids.take(k as int)[a - m]);
                            assert(ids.take(k as int)[a - m] != ids[k as int]);
                        }
                    }
                }
            }
            k = k + 1;
        }
        proof {
            assert(ids.take(n as int) =~= ids);
        }
        Ok(())
    }
}

impl Database {
    /// Replaces the participant set of one record; see `set_video_tags`.
    pub fn set_video_participants(&mut self, video_id: &str, participant_ids: &Vec<String>) -> (r:
        Result<(), StoreError>)
        requires
            old(self).wf(),
        ensures
            final(self).wf(),
            final(self).same_but_video_participants(old(self)),
            ({
                let cleared = old(self).vp().filter(
                    |p: (Seq<char>, Seq<char>)| p.0 != video_id@,
                );
                let ids = ids_view(participant_ids@);
                match r {
                    Ok(()) => ids.no_duplicates() && final(self).vp() == cleared + make_pairs(
                        video_id@,
                        ids,
                    ),
                    Err(e) => {
                        &&& e == StoreError::DuplicatePair
                        &&& exists|k: int|
                            0 <= k < ids.len() && ids.take(k).contains(#[trigger] ids[k]) && ids.take(
                                k,
                            ).no_duplicates() && final(self).vp() == cleared + make_pairs(
                                video_id@,
                                ids.take(k),
                            )
                    },
                }
            }),
    {
        let ghost cleared = old(self).vp().filter(|p: (Seq<char>, Seq<char>)| p.0 != video_id@);
        let ghost ids = ids_view(participant_ids@);
        proof {
            lemma_filtered_pairs_wf(
                old(self).vp(),
                |p: (Seq<char>, Seq<char>)| p.0 != video_id@,
            );
            assert forall|q: int| 0 <= q < cleared.len() implies #[trigger] cleared[q].0
                != video_id@ by {
                old(self).vp().lemma_filter_pred(
                    |p: (Seq<char>, Seq<char>)| p.0 != video_id@,
                    q,
                );
            }
        }
        retain_pairs_without(&mut self.video_participants, video_id);
        let n = participant_ids.len();
        let mut k: usize = 0;
        while k < n
            invariant
                old(self).wf(),
                self.same_but_video_participants(old(self)),
                cleared == old(self).vp().filter(|p: (Seq<char>, Seq<char>)| p.0 != video_id@),
                ids == ids_view(participant_ids@),
                pairs_wf(cleared),
                forall|q: int| 0 <= q < cleared.len() ==> #[trigger] cleared[q].0 != video_id@,
                n == participant_ids@.len(),
                0 <= k <= n,
                self.vp() == cleared + make_pairs(video_id@, ids.take(k as int)),
                ids.take(k as int).no_duplicates(),
                pairs_wf(self.vp()),
            decreases n - k,
        {
            let mut j: usize = 0;
            while j < k
                invariant
                    old(self).wf(),
                    self.same_but_video_participants(old(self)),
                    cleared == old(self).vp().filter(
                        |p: (Seq<char>, Seq<char>)| p.0 != video_id@,
                    ),
                    ids == ids_view(participant_ids@),
                    pairs_wf(cleared),
                    n == participant_ids@.len(),
                    0 <= j <= k < n,
                    self.vp() == cleared + make_pairs(video_id@, ids.take(k as int)),
                    ids.take(k as int).no_duplicates(),
                    pairs_wf(self.vp()),
                    forall|q: int| 0 <= q < j ==> ids[q] != ids[k as int],
                decreases k - j,
            {
                if str_eq(participant_ids[j].as_str(), participant_ids[k].as_str()) {
                    proof {
                        assert(ids[j as int] == ids[k as int]);
                        assert(ids.take(k as int)[j as int] == ids[j as int]);
                        assert(ids.take(k as int).contains(ids[k as int]));
                    }
                    return Err(StoreError::DuplicatePair);
                }
                j = j + 1;
            }
            proof {
                assert forall|q: int| 0 <= q < k implies ids.take(k as int)[q] != ids[k as int] by {
                    assert(ids.take(k as int)[q] == ids[q]);
                }
                assert(ids.take(k + 1) =~= ids.take(k as int).push(ids[k as int]));
                assert(make_pairs(video_id@, ids.take(k + 1)) =~= make_pairs(
                    video_id@,
                    ids.take(k as int),
                ).push((video_id@, ids[k as int])));
            }
            let pair = (video_id.to_owned(), participant_ids[k].clone());
            let ghost prev_pairs = self.video_participants@;
            self.video_participants.push(pair);
            proof {
                assert(self.vp() =~= pairs_view(prev_pairs).push((video_id@, ids[k as int])));
                assert(self.vp() =~= cleared + make_pairs(video_id@, ids.take(k + 1)));
                let nv = self.vp();
                assert forall|a: int, b: int| 0 <= a < b < nv.len() implies nv[a] != nv[b] by {
                    let m = cleared.len();
                    if b < nv.len() - 1 {
                        assert(pairs_wf(cleared + make_pairs(video_id@, ids.take(k as int))));
                        assert((cleared + make_pairs(video_id@, ids.take(k as int)))[a] == nv[a]);
                        assert((cleared + make_pairs(video_id@, ids.take(k as int)))[b] == nv[b]);
                    } else {
                        assert(nv[b] == (video_id@, ids[k as int]));
                        if a < m {
                            assert(nv[a] == cleared[a]);
                            assert(cleared[a].0 != video_id@);
                        } else {
                            assert(nv[a] == make_pairs(video_id@, ids.take(k as int))[a - m]);
                            assert(nv[a].1 == ids.take(k as int)[a - m]);
                            assert(ids.take(k as int)[a - m] != ids[k as int]);
                        }
                    }
                }
            }
            k = k + 1;
        }
        proof {
            assert(ids.take(n as int) =~= ids);
        }
        Ok(())
    }

    /// Replaces the language set of one record; see `set_video_tags`.
    pub fn set_video_languages(&mut self, video_id: &str, language_ids: &Vec<String>) -> (r: Result<
        (),
        StoreError,
    >)
        requires
            old(self).wf(),
        ensures
            final(self).wf(),
            final(self).same_but_video_languages(old(self)),
            ({
                let cleared = old(self).vl().filter(
                    |p: (Seq<char>, Seq<char>)| p.0 != video_id@,
                );
                let ids = ids_view(language_ids@);
                match r {
                    Ok(()) => ids.no_duplicates() && final(self).vl() == cleared + make_pairs(
                        video_id@,
                        ids,
                    ),
                    Err(e) => {
                        &&& e == StoreError::DuplicatePair
                        &&& exists|k: int|
                            0 <= k < ids.len() && ids.take(k).contains(#[trigger] ids[k]) && ids.take(
                                k,
                            ).no_duplicates() && final(self).vl() == cleared + make_pairs(
                                video_id@,
                                ids.take(k),
                            )
                    },
                }
            }),
    {
        let ghost cleared = old(self).vl().filter(|p: (Seq<char>, Seq<char>)| p.0 != video_id@);
        let ghost ids = ids_view(language_ids@);
        proof {
            lemma_filtered_pairs_wf(
                old(self).vl(),
                |p: (Seq<char>, Seq<char>)| p.0 != video_id@,
            );
            assert forall|q: int| 0 <= q < cleared.len() implies #[trigger] cleared[q].0
                != video_id@ by {
                old(self).vl().lemma_filter_pred(
                    |p: (Seq<char>, Seq<char>)| p.0 != video_id@,
                    q,
                );
            }
        }
        retain_pairs_without(&mut self.video_languages, video_id);
        let n = language_ids.len();
        let mut k: usize = 0;
        while k < n
            invariant
                old(self).wf(),
                self.same_but_video_languages(old(self)),
                cleared == old(self).vl().filter(|p: (Seq<char>, Seq<char>)| p.0 != video_id@),
                ids == ids_view(language_ids@),
                pairs_wf(cleared),
                forall|q: int| 0 <= q < cleared.len() ==> #[trigger] cleared[q].0 != video_id@,
                n == language_ids@.len(),
                0 <= k <= n,
                self.vl() == cleared + make_pairs(video_id@, ids.take(k as int)),
                ids.take(k as int).no_duplicates(),
                pairs_wf(self.vl()),
            decreases n - k,
        {
            let mut j: usize = 0;
            while j < k
                invariant
                    old(self).wf(),
                    self.same_but_video_languages(old(self)),
                    cleared == old(self).vl().filter(
                        |p: (Seq<char>, Seq<char>)| p.0 != video_id@,
                    ),
                    ids == ids_view(language_ids@),
                    pairs_wf(cleared),
                    n == language_ids@.len(),
                    0 <= j <= k < n,
                    self.vl() == cleared + make_pairs(video_id@, ids.take(k as int)),
                    ids.take(k as int).no_duplicates(),
                    pairs_wf(self.vl()),
                    forall|q: int| 0 <= q < j ==> ids[q] != ids[k as int],
                decreases k - j,
            {
                if str_eq(language_ids[j].as_str(), language_ids[k].as_str()) {
                    proof {
                        assert(ids[j as int] == ids[k as int]);
                        assert(ids.take(k as int)[j as int] == ids[j as int]);
                        assert(ids.take(k as int).contains(ids[k as int]));
                    }
                    return Err(StoreError::DuplicatePair);
                }
                j = j + 1;
            }
            proof {
                assert forall|q: int| 0 <= q < k implies ids.take(k as int)[q] != ids[k as int] by {
                    assert(ids.take(k as int)[q] == ids[q]);
                }
                assert(ids.take(k + 1) =~= ids.take(k as int).push(ids[k as int]));
                assert(make_pairs(video_id@, ids.take(k + 1)) =~= make_pairs(
                    video_id@,
                    ids.take(k as int),
                ).push((video_id@, ids[k as int])));
            }
            let pair = (video_id.to_owned(), language_ids[k].clone());
            let ghost prev_pairs = self.video_languages@;
            self.video_languages.push(pair);
            proof {
                assert(self.vl() =~= pairs_view(prev_pairs).push((video_id@, ids[k as int])));
                assert(self.vl() =~= cleared + make_pairs(video_id@, ids.take(k + 1)));
                let nv = self.vl();
                assert forall|a: int, b: int| 0 <= a < b < nv.len() implies nv[a] != nv[b] by {
                    let m = cleared.len();
                    if b < nv.len() - 1 {
                        assert(pairs_wf(cleared + make_pairs(video_id@, ids.take(k as int))));
                        assert((cleared + make_pairs(video_id@, ids.take(k as int)))[a] == nv[a]);
                        assert((cleared + make_pairs(video_id@, ids.take(k as int)))[b] == nv[b]);
                    } else {
                        assert(nv[b] == (video_id@, ids[k as int]));
                        if a < m {
                            assert(nv[a] == cleared[a]);
                            assert(cleared[a].0 != video_id@);
                        } else {
                            assert(nv[a] == make_pairs(video_id@, ids.take(k as int))[a - m]);
                            assert(nv[a].1 == ids.take(k as int)[a - m]);
                            assert(ids.take(k as int)[a - m] != ids[k as int]);
                        }
                    }
                }
            }
            k = k + 1;
        }
        proof {
            assert(ids.take(n as int) =~= ids);
        }
        Ok(())
    }
}

/// The first stored tag bearing the given identifier, as its fields;
/// meaningful only where one exists.
pub open spec fn tag_with_id(ts: Seq<Tag>, id: Seq<char>) -> (Seq<char>, Seq<char>, Seq<char>)
    decreases ts.len(),
{
    if ts.len() == 0 {
        (id, id, id)
    } else if ts.first().id@ == id {
        tag_view(ts.first())
    } else {
        tag_with_id(ts.drop_first(), id)
    }
}

proof fn lemma_tag_with_id_at(ts: Seq<Tag>, id: Seq<char>, i: int)
    requires
        0 <= i < ts.len(),
        ts[i].id@ == id,
        forall|k: int| 0 <= k < i ==> ts[k].id@ != id,
    ensures
        tag_with_id(ts, id) == tag_view(ts[i]),
    decreases ts.len(),
{
    if i == 0 {
    } else {
        assert(ts.first().id@ != id);
        assert(forall|k: int|
            0 <= k < ts.drop_first().len() ==> #[trigger] ts.drop_first()[k] == ts[k + 1]);
        lemma_tag_with_id_at(ts.drop_first(), id, i - 1);
    }
}

/// The annotations of one record: for each of its association pairs in
/// order, the stored tag the pair points at, skipping dangling pairs.
pub open spec fn joined_tag_views(
    vt: Seq<(Seq<char>, Seq<char>)>,
    ts: Seq<Tag>,
    vid: Seq<char>,
) -> Seq<(Seq<char>, Seq<char>, Seq<char>)>
    decreases vt.len(),
{
    if vt.len() == 0 {
        Seq::empty()
    } else {
        let rest = joined_tag_views(vt.drop_last(), ts, vid);
        let p = vt.last();
        if p.0 == vid && has_tag_id(ts, p.1) {
            rest.push(tag_with_id(ts, p.1))
        } else {
            rest
        }
    }
}

impl Database {
    fn find_tag_by_id(&self, id: &str) -> (r: Option<Tag>)
        ensures
            match r {
                Some(t) => has_tag_id(self.tags@, id@) && tag_view(t) == tag_with_id(
                    self.tags@,
                    id@,
                ),
                None => !has_tag_id(self.tags@, id@),
            },
    {
        let n = self.tags.len();
        let mut i: usize = 0;
        while i < n
            invariant
                n == self.tags@.len(),
                0 <= i <= n,
                forall|k: int| 0 <= k < i ==> self.tags@[k].id@ != id@,
            decreases n - i,
        {
            if str_eq(self.tags[i].id.as_str(), id) {
                let t = self.tags[i].duplicate();
                proof {
                    lemma_tag_with_id_at(self.tags@, id@, i as int);
                    assert(tag_like(self.tags@[i as int], t));
                }
                return Some(t);
            }
            i = i + 1;
        }
        None
    }

    /// Lists the tags attached to one record, in the order its pairs
    /// were stored.
    pub fn get_video_tags(&self, video_id: &str) -> (r: Vec<Tag>)
        ensures
            r@.map_values(|t: Tag| tag_view(t)) == joined_tag_views(
                self.vt(),
                self.tags@,
                video_id@,
            ),
    {
        let mut out: Vec<Tag> = Vec::new();
        let n = self.video_tags.len();
        let mut i: usize = 0;
        proof {
            assert(self.vt().take(0) =~= Seq::<(Seq<char>, Seq<char>)>::empty());
            assert(out@.map_values(|t: Tag| tag_view(t)) =~= Seq::<
                (Seq<char>, Seq<char>, Seq<char>),
            >::empty());
        }
        while i < n
            invariant
                n == self.video_tags@.len(),
                0 <= i <= n,
                out@.map_values(|t: Tag| tag_view(t)) == joined_tag_views(
                    self.vt().take(i as int),
                    self.tags@,
                    video_id@,
                ),
            decreases n - i,
        {
            proof {
                assert(self.vt().take(i + 1).drop_last() =~= self.vt().take(i as int));
                assert(self.vt().take(i + 1).last() == self.vt()[i as int]);
                assert(self.vt()[i as int] == (
                    self.video_tags@[i as int].0@,
                    self.video_tags@[i as int].1@,
                ));
            }
            if str_eq(self.video_tags[i].0.as_str(), video_id) {
                match self.find_tag_by_id(self.video_tags[i].1.as_str()) {
                    Some(t) => {
                        out.push(t);
                        proof {
                            assert(out@.map_values(|t: Tag| tag_view(t))
                                =~= out@.drop_last().map_values(|t: Tag| tag_view(t)).push(
                                tag_view(out@.last()),
                            ));
                        }
                    },
                    None => {},
                }
            }
            i = i + 1;
        }
        proof {
            assert(self.vt().take(n as int) =~= self.vt());
        }
        out
    }
}

/// The first stored participant bearing the given identifier.
pub open spec fn participant_with_id(ps: Seq<Participant>, id: Seq<char>) -> (Seq<char>, Seq<char>)
    decreases ps.len(),
{
    if ps.len() == 0 {
        (id, id)
    } else if ps.first().id@ == id {
        participant_view(ps.first())
    } else {
        participant_with_id(ps.drop_first(), id)
    }
}

proof fn lemma_participant_with_id_at(ps: Seq<Participant>, id: Seq<char>, i: int)
    requires
        0 <= i < ps.len(),
        ps[i].id@ == id,
        forall|k: int| 0 <= k < i ==> ps[k].id@ != id,
    ensures
        participant_with_id(ps, id) == participant_view(ps[i]),
    decreases ps.len(),
{
    if i == 0 {
    } else {
        assert(ps.first().id@ != id);
        assert(forall|k: int|
            0 <= k < ps.drop_first().len() ==> #[trigger] ps.drop_first()[k] == ps[k + 1]);
        lemma_participant_with_id_at(ps.drop_first(), id, i - 1);
    }
}

/// The participants attached to one record, pair by pair.
pub open spec fn joined_participant_views(
    vp: Seq<(Seq<char>, Seq<char>)>,
    ps: Seq<Participant>,
    vid: Seq<char>,
) -> Seq<(Seq<char>, Seq<char>)>
    decreases vp.len(),
{
    if vp.len() == 0 {
        Seq::empty()
    } else {
        let rest = joined_participant_views(vp.drop_last(), ps, vid);
        let p = vp.last();
        if p.0 == vid && has_participant_id(ps, p.1) {
            rest.push(participant_with_id(ps, p.1))
        } else {
            rest
        }
    }
}

/// The first stored language bearing the given identifier.
pub open spec fn language_with_id(ls: Seq<Language>, id: Seq<char>) -> (
    Seq<char>,
    Seq<char>,
    Seq<char>,
)
    decreases ls.len(),
{
    if ls.len() == 0 {
        (id, id, id)
    } else if ls.first().id@ == id {
        language_view(ls.first())
    } else {
        language_with_id(ls.drop_first(), id)
    }
}

proof fn lemma_language_with_id_at(ls: Seq<Language>, id: Seq<char>, i: int)
    requires
        0 <= i < ls.len(),
        ls[i].id@ == id,
        forall|k: int| 0 <= k < i ==> ls[k].id@ != id,
    ensures
        language_with_id(ls, id) == language_view(ls[i]),
    decreases ls.len(),
{
    if i == 0 {
    } else {
        assert(ls.first().id@ != id);
        assert(forall|k: int|
            0 <= k < ls.drop_first().len() ==> #[trigger] ls.drop_first()[k] == ls[k + 1]);
        lemma_language_with_id_at(ls.drop_first(), id, i - 1);
    }
}

/// The languages attached to one record, pair by pair.
pub open spec fn joined_language_views(
    vl: Seq<(Seq<char>, Seq<char>)>,
    ls: Seq<Language>,
    vid: Seq<char>,
) -> Seq<(Seq<char>, Seq<char>, Seq<char>)>
    decreases vl.len(),
{
    if vl.len() == 0 {
        Seq::empty()
    } else {
        let rest = joined_language_views(vl.drop_last(), ls, vid);
        let p = vl.last();
        if p.0 == vid && has_language_id(ls, p.1) {
            rest.push(language_with_id(ls, p.1))
        } else {
            rest
        }
    }
}

impl Database {
    fn find_participant_by_id(&self, id: &str) -> (r: Option<Participant>)
        ensures
            match r {
                Some(p) => has_participant_id(self.participants@, id@) && participant_view(p)
                    == participant_with_id(self.participants@, id@),
                None => !has_participant_id(self.participants@, id@),
            },
    {
        let n = self.participants.len();
        let mut i: usize = 0;
        while i < n
            invariant
                n == self.participants@.len(),
                0 <= i <= n,
                forall|k: int| 0 <= k < i ==> self.participants@[k].id@ != id@,
            decreases n - i,
        {
            if str_eq(self.participants[i].id.as_str(), id) {
                let p = self.participants[i].duplicate();
                proof {
                    lemma_participant_with_id_at(self.participants@, id@, i as int);
                    assert(participant_like(self.participants@[i as int], p));
                }
                return Some(p);
            }
            i = i + 1;
        }
        None
    }

    /// Lists the participants attached to one record, in pair order.
    pub fn get_video_participants(&self, video_id: &str) -> (r: Vec<Participant>)
        ensures
            r@.map_values(|p: Participant| participant_view(p)) == joined_participant_views(
                self.vp(),
                self.participants@,
                video_id@,
            ),
    {
        let mut out: Vec<Participant> = Vec::new();
        let n = self.video_participants.len();
        let mut i: usize = 0;
        proof {
            assert(self.vp().take(0) =~= Seq::<(Seq<char>, Seq<char>)>::empty());
            assert(out@.map_values(|p: Participant| participant_view(p)) =~= Seq::<
                (Seq<char>, Seq<char>),
            >::empty());
        }
        while i < n
            invariant
                n == self.video_participants@.len(),
                0 <= i <= n,
                out@.map_values(|p: Participant| participant_view(p)) == joined_participant_views(
                    self.vp().take(i as int),
                    self.participants@,
                    video_id@,
                ),
            decreases n - i,
        {
            proof {
                assert(self.vp().take(i + 1).drop_last() =~= self.vp().take(i as int));
                assert(self.vp().take(i + 1).last() == self.vp()[i as int]);
                assert(self.vp()[i as int] == (
                    self.video_participants@[i as int].0@,
                    self.video_participants@[i as int].1@,
                ));
            }
            if str_eq(self.video_participants[i].0.as_str(), video_id) {
                match self.find_participant_by_id(self.video_participants[i].1.as_str()) {
                    Some(p) => {
                        out.push(p);
                        proof {
                            assert(out@.map_values(|p: Participant| participant_view(p))
                                =~= out@.drop_last().map_values(
                                |p: Participant| participant_view(p),
                            ).push(participant_view(out@.last())));
                        }
                    },
                    None => {},
                }
            }
            i = i + 1;
        }
        proof {
            assert(self.vp().take(n as int) =~= self.vp());
        }
        out
    }

    fn find_language_by_id(&self, id: &str) -> (r: Option<Language>)
        ensures
            match r {
                Some(l) => has_language_id(self.languages@, id@) && language_view(l)
                    == language_with_id(self.languages@, id@),
                None => !has_language_id(self.languages@, id@),
            },
    {
        let n = self.languages.len();
        let mut i: usize = 0;
        while i < n
            invariant
                n == self.languages@.len(),
                0 <= i <= n,
                forall|k: int| 0 <= k < i ==> self.languages@[k].id@ != id@,
            decreases n - i,
        {
            if str_eq(self.languages[i].id.as_str(), id) {
                let l = self.languages[i].duplicate();
                proof {
                    lemma_language_with_id_at(self.languages@, id@, i as int);
                    assert(language_like(self.languages@[i as int], l));
                }
                return Some(l);
            }
            i = i + 1;
        }
        None
    }

    /// Lists the languages attached to one record, in pair order.
    pub fn get_video_languages(&self, video_id: &str) -> (r: Vec<Language>)
        ensures
            r@.map_values(|l: Language| language_view(l)) == joined_language_views(
                self.vl(),
                self.languages@,
                video_id@,
            ),
    {
        let mut out: Vec<Language> = Vec::new();
        let n = self.video_languages.len();
        let mut i: usize = 0;
        proof {
            assert(self.vl().take(0) =~= Seq::<(Seq<char>, Seq<char>)>::empty());
            assert(out@.map_values(|l: Language| language_view(l)) =~= Seq::<
                (Seq<char>, Seq<char>, Seq<char>),
            >::empty());
        }
        while i < n
            invariant
                n == self.video_languages@.len(),
                0 <= i <= n,
                out@.map_values(|l: Language| language_view(l)) == joined_language_views(
                    self.vl().take(i as int),
                    self.languages@,
                    video_id@,
                ),
            decreases n - i,
        {
            proof {
                assert(self.vl().take(i + 1).drop_last() =~= self.vl().take(i as int));
                assert(self.vl().take(i + 1).last() == self.vl()[i as int]);
                assert(self.vl()[i as int] == (
                    self.video_languages@[i as int].0@,
                    self.video_languages@[i as int].1@,
                ));
            }
            if str_eq(self.video_languages[i].0.as_str(), video_id) {
                match self.find_language_by_id(self.video_languages[i].1.as_str()) {
                    Some(l) => {
                        out.push(l);
                        proof {
                            assert(out@.map_values(|l: Language| language_view(l))
                                =~= out@.drop_last().map_values(
                                |l: Language| language_view(l),
                            ).push(language_view(out@.last())));
                        }
                    },
                    None => {},
                }
            }
            i = i + 1;
        }
        proof {
            assert(self.vl().take(n as int) =~= self.vl());
        }
        out
    }
}

/// The kept tag copies of a filtered table stay pairwise distinct in
/// name and identifier.
proof fn lemma_filter_distinct_views(orig: Seq<Tag>, pred: spec_fn(Tag) -> bool, nt: Seq<Tag>)
    requires
        forall|i: int, j: int|
            0 <= i < j < orig.len() ==> orig[i].name@ != orig[j].name@ && orig[i].id@
                != orig[j].id@,
        nt.map_values(|t: Tag| tag_view(t)) == orig.filter(pred).map_values(|t: Tag| tag_view(t)),
    ensures
        forall|i: int, j: int|
            0 <= i < j < nt.len() ==> nt[i].name@ != nt[j].name@ && nt[i].id@ != nt[j].id@,
{
    let f = orig.filter(pred);
    let differs = |a: Tag, b: Tag| a.name@ != b.name@ && a.id@ != b.id@;
    crate::seqs::lemma_filter_distinct(orig, pred, differs);
    assert(nt.map_values(|t: Tag| tag_view(t)).len() == f.map_values(|t: Tag| tag_view(t)).len());
    assert forall|i: int, j: int| 0 <= i < j < nt.len() implies nt[i].name@ != nt[j].name@
        && nt[i].id@ != nt[j].id@ by {
        assert(nt.map_values(|t: Tag| tag_view(t))[i] == tag_view(nt[i]));
        assert(nt.map_values(|t: Tag| tag_view(t))[j] == tag_view(nt[j]));
        assert(f.map_values(|t: Tag| tag_view(t))[i] == tag_view(f[i]));
        assert(f.map_values(|t: Tag| tag_view(t))[j] == tag_view(f[j]));
        assert(differs(f[i], f[j]));
    }
}

} // verus!
