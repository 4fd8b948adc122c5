//! The mathematical model of a path listing: entries carrying a path and a
//! position, kept in ascending path order with no duplicate paths.

use vstd::prelude::*;

use crate::text::lex_lt;

verus! {

/// The abstract value of one listing entry.
pub ghost struct PathEntry {
    /// The path's text.
    pub path: Seq<char>,
    /// The entry's rank in the listing.
    pub position: nat,
}

/// The paths of a listing, in listing order.
pub open spec fn paths_of(es: Seq<PathEntry>) -> Seq<Seq<char>> {
    es.map_values(|e: PathEntry| e.path)
}

/// Whether the listing's paths are in strictly ascending lexicographic
/// order; this implies that no path occurs twice.
pub open spec fn strictly_sorted(es: Seq<PathEntry>) -> bool {
    forall|i: int, j: int|
        0 <= i < j < es.len() ==> lex_lt(#[trigger] es[i].path, #[trigger] es[j].path)
}

/// Whether some entry holds the path `p`.
pub open spec fn has_path(es: Seq<PathEntry>, p: Seq<char>) -> bool {
    exists|i: int| 0 <= i < es.len() && (#[trigger] es[i].path) == p
}

/// Whether some entry holds the position `pos`.
pub open spec fn has_position(es: Seq<PathEntry>, pos: nat) -> bool {
    exists|i: int| 0 <= i < es.len() && (#[trigger] es[i].position) == pos
}

/// Whether each entry's position equals its rank, as `enumerate` assigns.
pub open spec fn canonical_positions(es: Seq<PathEntry>) -> bool {
    forall|i: int| 0 <= i < es.len() ==> (#[trigger] es[i].position) == i
}

/// Whether no two entries share a position, as holds for a listing parsed
/// from a buffer.
pub open spec fn positions_distinct(es: Seq<PathEntry>) -> bool {
    forall|i: int, j: int|
        0 <= i < j < es.len() ==> (#[trigger] es[i].position) != (#[trigger] es[j].position)
}

/// Whether every rank below the listing's length is some entry's position.
pub open spec fn positions_cover(es: Seq<PathEntry>) -> bool {
    forall|pos: nat| pos < es.len() ==> has_position(es, pos)
}

/// The newline-joined text of a list of paths, with a trailing newline
/// after every path.
pub open spec fn join_lines(ps: Seq<Seq<char>>) -> Seq<char>
    decreases ps.len(),
{
    if ps.len() == 0 {
        Seq::empty()
    } else {
        join_lines(ps.drop_last()) + ps.last() + seq!['\n']
    }
}

/// Joining splits off the first path and its newline.
pub proof fn lemma_join_lines_first(ps: Seq<Seq<char>>)
    requires
        ps.len() > 0,
    ensures
        join_lines(ps) == ps.first() + seq!['\n'] + join_lines(ps.drop_first()),
    decreases ps.len(),
{
    if ps.len() == 1 {
        assert(ps.drop_last() =~= Seq::<Seq<char>>::empty());
        assert(ps.drop_first() =~= Seq::<Seq<char>>::empty());
        assert(join_lines(ps) =~= ps.first() + seq!['\n'] + join_lines(ps.drop_first()));
    } else {
        lemma_join_lines_first(ps.drop_last());
        assert(ps.drop_last().first() == ps.first());
        assert(ps.drop_last().drop_first() =~= ps.drop_first().drop_last());
        assert(ps.drop_first().last() == ps.last());
        assert(join_lines(ps) == join_lines(ps.drop_last()) + ps.last() + seq!['\n']);
        assert(join_lines(ps.drop_first()) == join_lines(ps.drop_first().drop_last())
            + ps.last() + seq!['\n']);
        assert(join_lines(ps) =~= ps.first() + seq!['\n'] + join_lines(ps.drop_first()));
    }
}

/// Filtering distributes over putting one piece in front.
pub proof fn lemma_keep_nonempty_prepend(x: Seq<char>, ls: Seq<Seq<char>>)
    ensures
        x.len() > 0 ==> crate::text::keep_nonempty(seq![x] + ls) == seq![x]
            + crate::text::keep_nonempty(ls),
        x.len() == 0 ==> crate::text::keep_nonempty(seq![x] + ls)
            == crate::text::keep_nonempty(ls),
    decreases ls.len(),
{
    if ls.len() == 0 {
        assert(crate::text::keep_nonempty(Seq::<Seq<char>>::empty()) =~~= Seq::<
            Seq<char>,
        >::empty());
        assert(ls =~~= Seq::<Seq<char>>::empty());
        assert((seq![x] + ls) =~~= seq![x]);
        assert(seq![x].drop_last() =~~= Seq::<Seq<char>>::empty());
        assert(seq![x].last() == x);
        if x.len() > 0 {
            assert(crate::text::keep_nonempty(seq![x]) =~~= seq![x]);
            assert(seq![x] + crate::text::keep_nonempty(ls) =~~= seq![x]);
        }
    } else {
        lemma_keep_nonempty_prepend(x, ls.drop_last());
        assert((seq![x] + ls).drop_last() =~~= seq![x] + ls.drop_last());
        assert((seq![x] + ls).last() == ls.last());
        if x.len() > 0 {
            if ls.last().len() > 0 {
                assert(seq![x] + crate::text::keep_nonempty(ls.drop_last()).push(ls.last())
                    =~~= (seq![x] + crate::text::keep_nonempty(ls.drop_last())).push(
                    ls.last(),
                ));
            }
        }
    }
}

/// Serialization round trip: a canonical buffer parses back to exactly its
/// own paths, in order, provided every path is non-empty and free of
/// newlines.
pub proof fn lemma_buffer_round_trip(ps: Seq<Seq<char>>)
    requires
        forall|i: int|
            0 <= i < ps.len() ==> (#[trigger] ps[i]).len() > 0 && forall|j: int|
                0 <= j < ps[i].len() ==> ps[i][j] != '\n',
    ensures
        crate::text::nonempty_lines(join_lines(ps)) == ps,
    decreases ps.len(),
{
    if ps.len() == 0 {
        assert(join_lines(ps) =~= Seq::<char>::empty());
        assert(crate::text::split_lines(Seq::<char>::empty()) =~~= seq![Seq::<char>::empty()]);
        assert(crate::text::keep_nonempty(Seq::<Seq<char>>::empty()) =~~= Seq::<
            Seq<char>,
        >::empty());
        assert(seq![Seq::<char>::empty()].drop_last() =~~= Seq::<Seq<char>>::empty());
        assert(crate::text::keep_nonempty(seq![Seq::<char>::empty()]) =~~= Seq::<
            Seq<char>,
        >::empty());
        assert(crate::text::nonempty_lines(join_lines(ps)) =~~= Seq::<Seq<char>>::empty());
        assert(ps =~~= Seq::<Seq<char>>::empty());
    } else {
        let first = ps.first();
        let rest = ps.drop_first();
        lemma_join_lines_first(ps);
        let s = join_lines(ps);
        let tail = join_lines(rest);
        assert(s == first + seq!['\n'] + tail);
        assert(s.len() == first.len() + 1 + tail.len());
        assert forall|j: int| 0 <= j < first.len() implies s[j] != '\n' by {
            assert((first + seq!['\n'])[j] == first[j]);
            assert(s[j] == first[j]);
        }
        assert(s[first.len() as int] == '\n');
        crate::text::lemma_split_lines_at(s, first.len() as int);
        assert(s.subrange(0, first.len() as int) =~= first);
        assert(s.skip(first.len() as int + 1) =~= tail);
        assert(crate::text::split_lines(s) =~~= seq![first] + crate::text::split_lines(tail));
        assert forall|i: int| 0 <= i < rest.len() implies (#[trigger] rest[i]).len() > 0 && (
        forall|j: int| 0 <= j < rest[i].len() ==> rest[i][j] != '\n') by {
            assert(rest[i] == ps[i + 1]);
        }
        lemma_buffer_round_trip(rest);
        lemma_keep_nonempty_prepend(first, crate::text::split_lines(tail));
        assert(crate::text::nonempty_lines(s) == seq![first] + crate::text::nonempty_lines(
            tail,
        ));
        assert(seq![first] + rest =~~= ps);
    }
}

/// Whether some sequence index holds the line `p` before index `j`.
pub open spec fn dup_at(ls: Seq<Seq<char>>, j: int) -> bool {
    exists|i: int| 0 <= i < j && (#[trigger] ls[i]) == ls[j]
}

/// Whether any line occurs twice.
pub open spec fn has_duplicate(ls: Seq<Seq<char>>) -> bool {
    exists|j: int| 0 <= j < ls.len() && #[trigger] dup_at(ls, j)
}

/// Whether `j` is the earliest index whose line occurred before.
pub open spec fn is_first_dup(ls: Seq<Seq<char>>, j: int) -> bool {
    &&& 0 <= j < ls.len()
    &&& dup_at(ls, j)
    &&& forall|j2: int| 0 <= j2 < j ==> !(#[trigger] dup_at(ls, j2))
}

/// Whether some entry holds line `i`'s text with position `i`.
pub open spec fn entry_line_match(es: Seq<PathEntry>, lines: Seq<Seq<char>>, i: int) -> bool {
    exists|j: int|
        0 <= j < es.len() && (#[trigger] es[j]) == (PathEntry {
            path: lines[i],
            position: i as nat,
        })
}

/// Whether the entries are exactly the lines, each line paired with its
/// index as position.
pub open spec fn lists_lines(es: Seq<PathEntry>, lines: Seq<Seq<char>>) -> bool {
    &&& es.len() == lines.len()
    &&& forall|i: int| 0 <= i < lines.len() ==> #[trigger] entry_line_match(es, lines, i)
    &&& forall|j: int|
        0 <= j < es.len() ==> exists|i: int|
            0 <= i < lines.len() && (#[trigger] es[j]) == (PathEntry {
                path: lines[i],
                position: i as nat,
            })
}

/// Lines listed by a sorted listing are pairwise distinct.
pub proof fn lemma_listed_lines_distinct(es: Seq<PathEntry>, lines: Seq<Seq<char>>)
    ensures
        strictly_sorted(es) && lists_lines(es, lines) ==> forall|i: int, j: int|
            0 <= i < j < lines.len() ==> (#[trigger] lines[i]) != (#[trigger] lines[j]),
{
    if strictly_sorted(es) && lists_lines(es, lines) {
        assert forall|i: int, j: int| 0 <= i < j < lines.len() implies (#[trigger] lines[i])
            != (#[trigger] lines[j]) by {
            assert(entry_line_match(es, lines, i));
            assert(entry_line_match(es, lines, j));
            let ji = choose|ji: int|
                0 <= ji < es.len() && (#[trigger] es[ji]) == (PathEntry {
                    path: lines[i],
                    position: i as nat,
                });
            let jj = choose|jj: int|
                0 <= jj < es.len() && (#[trigger] es[jj]) == (PathEntry {
                    path: lines[j],
                    position: j as nat,
                });
            if lines[i] == lines[j] {
                lemma_sorted_path_unique(es, ji, jj);
            }
        }
    }
}

/// In a strictly sorted listing two entries with the same path coincide.
pub proof fn lemma_sorted_path_unique(es: Seq<PathEntry>, i: int, j: int)
    requires
        strictly_sorted(es),
        0 <= i < es.len(),
        0 <= j < es.len(),
        es[i].path == es[j].path,
    ensures
        i == j,
{
    if i < j {
        crate::text::lemma_lex_lt_irreflexive(es[i].path);
    } else if j < i {
        crate::text::lemma_lex_lt_irreflexive(es[i].path);
    }
}

} // verus!
