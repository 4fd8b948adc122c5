//! A duplicate-free, ordered hierarchy of file paths with position ranks.
//! It mirrors the path listing, except that canonicalization hands back a
//! new hierarchy instead of replacing the listing in place.

use vstd::prelude::*;
use vstd::string::*;

use crate::errors::{PlanError, PlanErrorV};
use crate::listing::{
    canonical_positions, dup_at, entry_line_match, has_duplicate, has_path, has_position,
    is_first_dup, join_lines, lemma_listed_lines_distinct, lemma_sorted_path_unique, lists_lines,
    paths_of, positions_cover, positions_distinct, strictly_sorted, PathEntry,
};
use crate::text::{
    keep_nonempty, lemma_keep_nonempty_len, lemma_keep_nonempty_prefix, lemma_keep_nonempty_step,
    lemma_lex_connected, lemma_lex_lt_irreflexive, lemma_lex_lt_transitive, lex_lt,
    nonempty_lines, split_lines, split_lines_exec, str_eq, str_lt,
};

verus! {

/// One listing entry: a path and its position rank.
pub struct FileDirPosition {
    /// The path's text.
    pub source: String,
    /// The entry's rank.
    pub position: usize,
}

impl View for FileDirPosition {
    type V = PathEntry;

    open spec fn view(&self) -> PathEntry {
        PathEntry { path: self.source@, position: self.position as nat }
    }
}

/// An ordered collection of entries plus the text buffer it was read from
/// or serialized to.  Entries are kept in strictly ascending path order, so
/// no path ever occurs twice.
pub struct FileHierarchy {
    /// The entries, in ascending path order.
    pub list: Vec<FileDirPosition>,
    /// The listing's raw text form.
    pub raw: String,
}

impl FileHierarchy {
    /// The abstract entries of the listing.
    pub open spec fn entries(&self) -> Seq<PathEntry> {
        self.list@.map_values(|e: FileDirPosition| e@)
    }

    /// The listing invariant: entries in strictly ascending path order.
    pub open spec fn wf(&self) -> bool {
        strictly_sorted(self.entries())
    }

    /// What canonicalization establishes: the same paths in the same
    /// (ascending) order, positions equal to ranks, and the raw buffer
    /// regenerated as the newline-joined paths.
    pub open spec fn is_enumeration_of(&self, old_es: Seq<PathEntry>) -> bool {
        &&& paths_of(self.entries()) == paths_of(old_es)
        &&& canonical_positions(self.entries())
        &&& self.raw@ == join_lines(paths_of(self.entries()))
    }

    /// An empty listing.
    pub fn new() -> (r: Self)
        ensures
            r.wf(),
            r.entries() =~= Seq::<PathEntry>::empty(),
            r.raw@ =~= Seq::<char>::empty(),
    {
        Self { list: Vec::new(), raw: String::new() }
    }

    /// Inserts `value` with rank `position`, keeping ascending path order.
    /// Returns false — changing nothing — if the path is already present.
    pub fn insert(&mut self, value: String, position: usize) -> (r: bool)
        requires
            old(self).wf(),
        ensures
            final(self).wf(),
            r == !has_path(old(self).entries(), value@),
            !r ==> *final(self) == *old(self),
            r ==> final(self).raw == old(self).raw && exists|idx: int|
                0 <= idx <= old(self).entries().len() && final(self).entries() =~= old(
                    self,
                ).entries().insert(idx, (PathEntry { path: value@, position: position as nat })),
    {
        let n = self.list.len();
        let mut i: usize = 0;
        while i < n && str_lt(self.list[i].source.as_str(), value.as_str())
            invariant
                0 <= i <= n,
                n == self.list@.len(),
                forall|k: int| 0 <= k < i ==> lex_lt(#[trigger] self.entries()[k].path, value@),
            decreases n - i,
        {
            i = i + 1;
        }
        if i < n && str_eq(self.list[i].source.as_str(), value.as_str()) {
            proof {
                assert(self.entries()[i as int].path == value@);
            }
            return false;
        }
        proof {
            if i < n {
                lemma_lex_connected(self.entries()[i as int].path, value@);
            }
            assert forall|k: int| 0 <= k < self.entries().len() implies (#[trigger] self
                .entries()[k].path) != value@ by {
                if k < i {
                    lemma_lex_lt_irreflexive(value@);
                } else {
                    if k > i {
                        assert(lex_lt(self.entries()[i as int].path, self.entries()[k].path));
                    }
                    if i < n {
                        lemma_lex_lt_transitive(
                            value@,
                            self.entries()[i as int].path,
                            self.entries()[k].path,
                        );
                        lemma_lex_lt_irreflexive(value@);
                    }
                }
            }
            assert(!has_path(self.entries(), value@));
        }
        let ghost old_es = self.entries();
        let entry = FileDirPosition { source: value, position };
        self.list.insert(i, entry);
        proof {
            assert(self.entries() =~= old_es.insert(i as int, entry@));
            assert forall|k: int| i <= k < old_es.len() implies lex_lt(
                value@,
                (#[trigger] old_es[k]).path,
            ) by {
                if k > i {
                    lemma_lex_lt_transitive(value@, old_es[i as int].path, old_es[k].path);
                }
            }
            assert forall|a: int, b: int|
                0 <= a < b < self.entries().len() implies lex_lt(
                #[trigger] self.entries()[a].path,
                #[trigger] self.entries()[b].path,
            ) by {
                let es = self.entries();
                if a < i && b > i {
                    if b == i + 1 {
                        assert(es[b].path == old_es[i as int].path);
                    } else {
                        lemma_lex_lt_transitive(old_es[a].path, value@, old_es[b - 1].path);
                    }
                }
            }
        }
        true
    }

    /// Parses a text buffer: one path per line, blank lines skipped, each
    /// non-empty line inserted with its index (over non-empty lines only)
    /// as position.  Fails — atomically — on the first line that repeats an
    /// earlier one.
    #[verifier::loop_isolation(false)]
    pub fn new_from_raw(raw: String) -> (r: Result<Self, PlanError>)
        ensures
            (r is Err) == has_duplicate(nonempty_lines(raw@)),
            match r {
                Ok(fl) => {
                    &&& fl.wf()
                    &&& fl.raw@ == raw@
                    &&& lists_lines(fl.entries(), nonempty_lines(raw@))
                    &&& positions_distinct(fl.entries())
                    &&& positions_cover(fl.entries())
                },
                Err(e) => exists|j: int|
                    #[trigger] is_first_dup(nonempty_lines(raw@), j) && e@
                        == PlanErrorV::DuplicatePath(nonempty_lines(raw@)[j]),
            },
    {
        let ghost rawv = raw@;
        let ghost sl = split_lines(rawv);
        let ghost full = nonempty_lines(rawv);
        let lines = split_lines_exec(raw.as_str());
        let mut fl = FileHierarchy { list: Vec::new(), raw };
        let mut pos: usize = 0;
        let mut k: usize = 0;
        proof {
            assert(fl.entries() =~= Seq::<PathEntry>::empty());
            assert(sl.take(0) =~~= Seq::<Seq<char>>::empty());
            assert(keep_nonempty(sl.take(0)).len() == 0);
            assert(lists_lines(fl.entries(), keep_nonempty(sl.take(0))));
        }
        while k < lines.len()
            invariant
                k <= lines.len(),
                lines.deep_view() == sl,
                sl == split_lines(rawv),
                full == nonempty_lines(rawv),
                fl.wf(),
                fl.raw@ == rawv,
                pos == keep_nonempty(sl.take(k as int)).len(),
                lists_lines(fl.entries(), keep_nonempty(sl.take(k as int))),
            decreases lines.len() - k,
        {
            let ghost f = keep_nonempty(sl.take(k as int));
            proof {
                assert(lines.deep_view()[k as int] == lines@[k as int]@);
                lemma_keep_nonempty_step(sl, k as int);
                lemma_keep_nonempty_len(sl.take(k as int));
            }
            let line = &lines[k];
            if !line.as_str().is_empty() {
                let ghost old_es = fl.entries();
                let ok = fl.insert(line.clone(), pos);
                if !ok {
                    proof {
                        // the line equals an earlier non-empty line: the
                        // listing's matching entry names its filtered index
                        let j = choose|j: int|
                            0 <= j < old_es.len() && (#[trigger] old_es[j].path) == line@;
                        let i = choose|i: int|
                            0 <= i < f.len() && old_es[j] == (PathEntry {
                                path: f[i],
                                position: i as nat,
                            });
                        lemma_keep_nonempty_prefix(sl, k as int + 1);
                        assert(keep_nonempty(sl.take(k as int + 1)) == f.push(line@));
                        assert(full[pos as int] == f.push(line@)[pos as int]);
                        assert(full[pos as int] == line@);
                        assert(full[i] == f[i]);
                        assert(dup_at(full, pos as int));
                        assert(has_duplicate(full));
                        lemma_listed_lines_distinct(old_es, f);
                        assert forall|j2: int| 0 <= j2 < pos implies !(#[trigger] dup_at(
                            full,
                            j2,
                        )) by {
                            if dup_at(full, j2) {
                                let i2 = choose|i2: int|
                                    0 <= i2 < j2 && (#[trigger] full[i2]) == full[j2];
                                assert(f[i2] == f[j2]);
                            }
                        }
                        assert(is_first_dup(full, pos as int));
                    }
                    return Err(PlanError::DuplicatePath(line.clone()));
                }
                pos = pos + 1;
                proof {
                    let f2 = keep_nonempty(sl.take(k as int + 1));
                    assert(f2 == f.push(line@));
                    let e = PathEntry { path: line@, position: (pos - 1) as nat };
                    let idx = choose|idx: int|
                        0 <= idx <= old_es.len() && fl.entries() =~= #[trigger] old_es.insert(
                            idx,
                            e,
                        );
                    let es2 = fl.entries();
                    assert forall|i: int| 0 <= i < f2.len() implies #[trigger] entry_line_match(
                        es2,
                        f2,
                        i,
                    ) by {
                        if i < f.len() {
                            assert(entry_line_match(old_es, f, i));
                            let j = choose|j: int|
                                0 <= j < old_es.len() && (#[trigger] old_es[j]) == (PathEntry {
                                    path: f[i],
                                    position: i as nat,
                                });
                            if j < idx {
                                assert(es2[j] == old_es[j]);
                            } else {
                                assert(es2[j + 1] == old_es[j]);
                            }
                            assert(f2[i] == f[i]);
                        } else {
                            assert(i == f.len());
                            assert(es2[idx] == (PathEntry {
                                path: line@,
                                position: (pos - 1) as nat,
                            }));
                            assert(f2[i] == line@);
                        }
                    }
                    assert forall|j: int| 0 <= j < es2.len() implies exists|i: int|
                        0 <= i < f2.len() && (#[trigger] es2[j]) == (PathEntry {
                            path: f2[i],
                            position: i as nat,
                        }) by {
                        if j == idx {
                            assert(f2[f.len() as int] == line@);
                            assert(es2[j] == (PathEntry {
                                path: f2[f.len() as int],
                                position: f.len() as nat,
                            }));
                        } else {
                            let j0 = if j < idx { j } else { j - 1 };
                            assert(es2[j] == old_es[j0]);
                            let i = choose|i: int|
                                0 <= i < f.len() && (#[trigger] old_es[j0]) == (PathEntry {
                                    path: f[i],
                                    position: i as nat,
                                });
                            assert(f2[i] == f[i]);
                        }
                    }
                    assert(lists_lines(es2, f2));
                }
            } else {
                proof {
                    assert(keep_nonempty(sl.take(k as int + 1)) == f);
                }
            }
            k = k + 1;
        }
        proof {
            assert(sl.take(k as int) =~~= sl);
            lemma_listed_lines_distinct(fl.entries(), full);
            assert(!has_duplicate(full)) by {
                if has_duplicate(full) {
                    let j = choose|j: int| 0 <= j < full.len() && #[trigger] dup_at(full, j);
                    let i = choose|i: int| 0 <= i < j && (#[trigger] full[i]) == full[j];
                    assert(full[i] != full[j]);
                }
            }
            let es = fl.entries();
            assert forall|j1: int, j2: int| 0 <= j1 < j2 < es.len() implies (
            #[trigger] es[j1].position) != (#[trigger] es[j2].position) by {
                let i1 = choose|i1: int|
                    0 <= i1 < full.len() && (#[trigger] es[j1]) == (PathEntry {
                        path: full[i1],
                        position: i1 as nat,
                    });
                let i2 = choose|i2: int|
                    0 <= i2 < full.len() && (#[trigger] es[j2]) == (PathEntry {
                        path: full[i2],
                        position: i2 as nat,
                    });
                if es[j1].position == es[j2].position {
                    assert(i1 == i2);
                    lemma_sorted_path_unique(es, j1, j2);
                }
            }
            assert forall|p: nat| p < es.len() implies has_position(es, p) by {
                assert(entry_line_match(es, full, p as int));
                let j = choose|j: int|
                    0 <= j < es.len() && (#[trigger] es[j]) == (PathEntry {
                        path: full[p as int],
                        position: p,
                    });
                assert(es[j].position == p);
            }
        }
        Ok(fl)
    }

    /// Canonicalizes the hierarchy into a new one: every entry re-ranked by
    /// ascending path order (positions become `0..n-1`) and the raw buffer
    /// regenerated as the newline-joined paths in that same order.  The
    /// hierarchy itself is left unchanged.
    #[verifier::loop_isolation(false)]
    pub fn enumerate(&mut self) -> (r: Self)
        requires
            old(self).wf(),
        ensures
            *final(self) == *old(self),
            r.wf(),
            r.is_enumeration_of(old(self).entries()),
    {
        let ghost old_es = self.entries();
        let n = self.list.len();
        let mut new_list: Vec<FileDirPosition> = Vec::new();
        let mut raw = String::new();
        let mut i: usize = 0;
        while i < n
            invariant
                i <= n,
                new_list@.len() == i,
                forall|k: int|
                    0 <= k < i ==> (#[trigger] new_list@[k])@ == (PathEntry {
                        path: old_es[k].path,
                        position: k as nat,
                    }),
                raw@ == join_lines(paths_of(old_es.take(i as int))),
            decreases n - i,
        {
            let src = self.list[i].source.clone();
            raw.append(src.as_str());
            raw.append("\n");
            proof {
                reveal_strlit("\n");
                assert("\n"@ =~= seq!['\n']);
                let pre = paths_of(old_es.take(i as int));
                let cur = paths_of(old_es.take(i + 1));
                assert(cur =~= pre.push(old_es[i as int].path));
                assert(cur.drop_last() =~= pre);
                assert(cur.last() == old_es[i as int].path);
                assert(raw@ == join_lines(cur));
            }
            new_list.push(FileDirPosition { source: src, position: i });
            i = i + 1;
        }
        let r = FileHierarchy { list: new_list, raw };
        proof {
            assert(old_es.take(n as int) =~= old_es);
            assert(paths_of(r.entries()) =~= paths_of(old_es));
            assert forall|a: int, b: int|
                0 <= a < b < r.entries().len() implies lex_lt(
                #[trigger] r.entries()[a].path,
                #[trigger] r.entries()[b].path,
            ) by {
                assert(r.entries()[a].path == old_es[a].path);
                assert(r.entries()[b].path == old_es[b].path);
            }
        }
        r
    }

    /// The first entry (in path order) whose position is `index`, if any.
    pub fn get_by_index(&self, index: usize) -> (r: Option<&FileDirPosition>)
        ensures
            match r {
                Some(e) => e@.position == index as nat && exists|i: int|
                    0 <= i < self.entries().len() && (#[trigger] self.entries()[i]) == e@ && (
                    forall|j: int|
                        0 <= j < i ==> (#[trigger] self.entries()[j]).position != index as nat),
                None => forall|j: int|
                    0 <= j < self.entries().len() ==> (#[trigger] self.entries()[j]).position
                        != index as nat,
            },
    {
        let n = self.list.len();
        let mut i: usize = 0;
        while i < n
            invariant
                i <= n,
                n == self.list@.len(),
                forall|j: int|
                    0 <= j < i ==> (#[trigger] self.entries()[j]).position != index as nat,
            decreases n - i,
        {
            if self.list[i].position == index {
                proof {
                    assert(self.entries()[i as int] == self.list@[i as int]@);
                }
                return Some(&self.list[i]);
            }
            i = i + 1;
        }
        None
    }

    /// The entry holding exactly the path `path`, if any.
    pub fn get_by_file(&self, path: &str) -> (r: Option<&FileDirPosition>)
        ensures
            match r {
                Some(e) => e@.path == path@ && exists|i: int|
                    0 <= i < self.entries().len() && (#[trigger] self.entries()[i]) == e@,
                None => !has_path(self.entries(), path@),
            },
    {
        let n = self.list.len();
        let mut i: usize = 0;
        while i < n
            invariant
                i <= n,
                n == self.list@.len(),
                forall|j: int| 0 <= j < i ==> (#[trigger] self.entries()[j]).path != path@,
            decreases n - i,
        {
            if str_eq(self.list[i].source.as_str(), path) {
                proof {
                    assert(self.entries()[i as int] == self.list@[i as int]@);
                }
                return Some(&self.list[i]);
            }
            i = i + 1;
        }
        None
    }
}

/// Canonicalization is idempotent: enumerating a listing that is already
/// the enumeration of some listing changes neither its entries nor its
/// buffer.
pub proof fn lemma_enumerate_idempotent(a: FileHierarchy, b: FileHierarchy, c: FileHierarchy)
    requires
        b.is_enumeration_of(a.entries()),
        c.is_enumeration_of(b.entries()),
    ensures
        c.entries() == b.entries(),
        c.raw@ == b.raw@,
{
    assert(paths_of(c.entries()).len() == c.entries().len());
    assert(paths_of(b.entries()).len() == b.entries().len());
    assert forall|i: int| 0 <= i < c.entries().len() implies (#[trigger] c.entries()[i])
        == b.entries()[i] by {
        assert(paths_of(c.entries())[i] == c.entries()[i].path);
        assert(paths_of(b.entries())[i] == b.entries()[i].path);
        assert(c.entries()[i].path == b.entries()[i].path);
        assert(c.entries()[i].position == i as nat);
        assert(b.entries()[i].position == i as nat);
        assert(c.entries()[i] == (PathEntry {
            path: b.entries()[i].path,
            position: b.entries()[i].position,
        }));
    }
    assert(c.entries() =~= b.entries());
}

} // verus!
