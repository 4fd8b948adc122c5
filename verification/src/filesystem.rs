//! Path-level reasoning about the filesystem: last components, hidden
//! components, ancestor directories and automatic renaming.
//!
//! The library never touches the disk.  Everything that depends on what
//! exists is computed against a [`DiskState`]: a snapshot of the existing
//! paths that matter to the current batch, which the caller gathers
//! beforehand and which planning reads but never changes.

use vstd::prelude::*;
use vstd::string::*;

use crate::text::{
    all_digits, dec_digits, dec_val, lemma_dec_digits, lemma_dec_digits_injective, parse_u64,
    push_dec, rfind_char, str_eq,
};

verus! {

broadcast use vstd::seq_lib::seq_to_set_is_finite, vstd::set_lib::lemma_set_subset_finite;

/// A snapshot of the paths (files and directories) that exist on disk, as
/// far as the current batch is concerned.  A path is treated as existing
/// exactly when it is listed here.
pub struct DiskState {
    /// The existing paths.
    pub paths: Vec<String>,
}

impl View for DiskState {
    type V = Set<Seq<char>>;

    open spec fn view(&self) -> Set<Seq<char>> {
        self.paths.deep_view().to_set()
    }
}

impl DiskState {
    /// An empty snapshot: nothing exists.
    pub fn new() -> (r: Self)
        ensures
            r@ =~= Set::<Seq<char>>::empty(),
    {
        let r = DiskState { paths: Vec::new() };
        proof {
            assert(r.paths.deep_view() =~= Seq::<Seq<char>>::empty());
        }
        r
    }

    /// Records that `path` exists.
    pub fn record(&mut self, path: String)
        ensures
            final(self)@ =~= old(self)@.insert(path@),
    {
        self.paths.push(path);
        proof {
            assert(self.paths.deep_view() =~= old(self).paths.deep_view().push(path@));
            assert forall|p: Seq<char>| self@.contains(p) implies old(self)@.insert(path@)
                .contains(p) by {
                let i = choose|i: int|
                    0 <= i < self.paths.deep_view().len() && (#[trigger] self.paths.deep_view()[i])
                        == p;
                if i < old(self).paths.deep_view().len() {
                    assert(old(self).paths.deep_view()[i] == p);
                }
            }
            assert forall|p: Seq<char>| old(self)@.insert(path@).contains(p) implies self@
                .contains(p) by {
                if p == path@ {
                    assert(self.paths.deep_view().last() == p);
                } else {
                    let i = choose|i: int|
                        0 <= i < old(self).paths.deep_view().len() && (#[trigger] old(
                            self,
                        ).paths.deep_view()[i]) == p;
                    assert(self.paths.deep_view()[i] == p);
                }
            }
        }
    }

    /// Whether `path` exists in the snapshot.
    pub fn contains(&self, path: &str) -> (r: bool)
        ensures
            r == self@.contains(path@),
    {
        let n = self.paths.len();
        let mut i: usize = 0;
        while i < n
            invariant
                i <= n,
                n == self.paths@.len(),
                forall|j: int| 0 <= j < i ==> (#[trigger] self.paths.deep_view()[j]) != path@,
            decreases n - i,
        {
            if str_eq(self.paths[i].as_str(), path) {
                proof {
                    assert(self.paths.deep_view()[i as int] == path@);
                }
                return true;
            }
            i = i + 1;
        }
        proof {
            if self@.contains(path@) {
                let j = choose|j: int|
                    0 <= j < self.paths.deep_view().len() && (#[trigger] self.paths.deep_view()[j])
                        == path@;
            }
        }
        false
    }
}

/// The index just after the last occurrence of `c` in `s`, or `0` when `c`
/// does not occur.
pub open spec fn after_last(s: Seq<char>, c: char) -> int
    decreases s.len(),
{
    if s.len() == 0 {
        0
    } else if s.last() == c {
        s.len() as int
    } else {
        after_last(s.drop_last(), c)
    }
}

pub proof fn lemma_after_last(s: Seq<char>, c: char)
    ensures
        0 <= after_last(s, c) <= s.len(),
        after_last(s, c) > 0 ==> s[after_last(s, c) - 1] == c,
        forall|j: int| after_last(s, c) <= j < s.len() ==> s[j] != c,
    decreases s.len(),
{
    if s.len() > 0 && s.last() != c {
        lemma_after_last(s.drop_last(), c);
        assert forall|j: int| after_last(s, c) <= j < s.len() implies s[j] != c by {
            if j < s.len() - 1 {
                assert(s.drop_last()[j] == s[j]);
            }
        }
    }
}

/// The index with the characteristic properties is `after_last`.
pub proof fn lemma_after_last_is(s: Seq<char>, c: char, i: int)
    requires
        0 <= i <= s.len(),
        i > 0 ==> s[i - 1] == c,
        forall|j: int| i <= j < s.len() ==> s[j] != c,
    ensures
        after_last(s, c) == i,
    decreases s.len(),
{
    if s.len() == 0 {
    } else if s.last() == c {
        assert(i == s.len());
    } else {
        assert(i < s.len());
        assert forall|j: int| i <= j < s.len() - 1 implies s.drop_last()[j] != c by {
            assert(s.drop_last()[j] == s[j]);
        }
        lemma_after_last_is(s.drop_last(), c, i);
    }
}

/// The length of `s` without its trailing separators.
pub open spec fn trimmed_len(s: Seq<char>) -> int
    decreases s.len(),
{
    if s.len() > 0 && s.last() == '/' {
        trimmed_len(s.drop_last())
    } else {
        s.len() as int
    }
}

/// The last path component of `s`: the text after the last separator, with
/// trailing separators ignored.
pub open spec fn last_component(s: Seq<char>) -> Seq<char> {
    let t = s.take(trimmed_len(s));
    t.skip(after_last(t, '/'))
}

/// Gets the last component of the path: the file or directory name after
/// the final separator, ignoring trailing separators.
pub fn get_last_component(path: &str) -> (r: &str)
    ensures
        r@ == last_component(path@),
{
    let n = path.unicode_len();
    proof {
        assert(path@.take(n as int) =~= path@);
    }
    let mut end: usize = n;
    while end > 0 && path.get_char(end - 1) == '/'
        invariant
            0 <= end <= n,
            n == path@.len(),
            trimmed_len(path@) == trimmed_len(path@.take(end as int)),
            forall|j: int| end <= j < n ==> path@[j] == '/',
        decreases end,
    {
        proof {
            assert(path@.take(end as int).drop_last() =~= path@.take(end - 1));
        }
        end = end - 1;
    }
    proof {
        assert(path@.take(end as int).len() == end);
        if end > 0 {
            assert(path@.take(end as int).last() == path@[end - 1]);
        }
        assert(trimmed_len(path@.take(end as int)) == end);
        lemma_after_last(path@.take(end as int), '/');
    }
    let start = match rfind_char(path.substring_char(0, end), '/') {
        Some(i) => {
            proof {
                lemma_after_last_is(path@.take(end as int), '/', i + 1);
            }
            i + 1
        },
        None => {
            proof {
                lemma_after_last_is(path@.take(end as int), '/', 0);
            }
            0
        },
    };
    let r = path.substring_char(start, end);
    proof {
        let t = path@.take(end as int);
        assert(r@ =~= t.skip(after_last(t, '/')));
    }
    r
}

/// Whether a component of the path starts at `i` with a dot.
pub open spec fn hidden_start_at(s: Seq<char>, i: int) -> bool {
    0 <= i < s.len() && (i == 0 || s[i - 1] == '/') && s[i] == '.'
}

/// Whether any component of the path starts with a dot.
pub open spec fn has_hidden_component(s: Seq<char>) -> bool {
    exists|i: int| #[trigger] hidden_start_at(s, i)
}

/// Whether the path contains a hidden component: one whose text starts
/// with a dot.
pub fn has_hidden(path: &str) -> (r: bool)
    ensures
        r == has_hidden_component(path@),
{
    let n = path.unicode_len();
    let mut i: usize = 0;
    while i < n
        invariant
            0 <= i <= n,
            n == path@.len(),
            forall|j: int| 0 <= j < i ==> !(#[trigger] hidden_start_at(path@, j)),
        decreases n - i,
    {
        if path.get_char(i) == '.' {
            if i == 0 {
                proof {
                    assert(hidden_start_at(path@, 0));
                }
                return true;
            }
            if path.get_char(i - 1) == '/' {
                proof {
                    assert(hidden_start_at(path@, i as int));
                }
                return true;
            }
        }
        i = i + 1;
    }
    false
}

/// Whether index `i` cuts the path just before an ancestor boundary: it
/// holds a separator that ends a non-empty component.
pub open spec fn is_ancestor_cut(s: Seq<char>, i: int) -> bool {
    0 < i < s.len() && s[i] == '/' && s[i - 1] != '/'
}

/// The ancestor-directory prefixes of `s` cut before index `n`, shortest
/// first.
pub open spec fn ancestors_upto(s: Seq<char>, n: int) -> Seq<Seq<char>>
    decreases n,
{
    if n <= 0 {
        Seq::empty()
    } else {
        let rest = ancestors_upto(s, n - 1);
        if is_ancestor_cut(s, n - 1) {
            rest.push(s.take(n - 1))
        } else {
            rest
        }
    }
}

/// All ancestor-directory prefixes of the path `s`, shortest first.  The
/// final component — the file name — is not among them.
pub open spec fn ancestor_dirs(s: Seq<char>) -> Seq<Seq<char>> {
    ancestors_upto(s, s.len() as int)
}

/// The members of `ds` that the snapshot does not hold, in order.
pub open spec fn keep_missing(ds: Seq<Seq<char>>, disk: Set<Seq<char>>) -> Seq<Seq<char>>
    decreases ds.len(),
{
    if ds.len() == 0 {
        Seq::empty()
    } else {
        let rest = keep_missing(ds.drop_last(), disk);
        if !disk.contains(ds.last()) {
            rest.push(ds.last())
        } else {
            rest
        }
    }
}

/// The ancestor directories of `s` that do not exist, shortest first:
/// creating them in this order never creates a child before its parent.
pub open spec fn missing_dirs(s: Seq<char>, disk: Set<Seq<char>>) -> Seq<Seq<char>> {
    keep_missing(ancestor_dirs(s), disk)
}

/// The ancestor directories of `path` that are absent from the snapshot,
/// shortest first.
#[verifier::loop_isolation(false)]
pub fn missing_ancestor_dirs(path: &str, disk: &DiskState) -> (r: Vec<String>)
    ensures
        r.deep_view() == missing_dirs(path@, disk@),
{
    let n = path.unicode_len();
    let mut r: Vec<String> = Vec::new();
    let mut i: usize = 0;
    proof {
        assert(r.deep_view() =~= keep_missing(ancestors_upto(path@, 0), disk@));
    }
    while i < n
        invariant
            0 <= i <= n,
            r.deep_view() == keep_missing(ancestors_upto(path@, i as int), disk@),
        decreases n - i,
    {
        let ghost pre = ancestors_upto(path@, i as int);
        if path.get_char(i) == '/' && i > 0 && path.get_char(i - 1) != '/' {
            let prefix = path.substring_char(0, i).to_owned();
            proof {
                assert(is_ancestor_cut(path@, i as int));
                assert(prefix@ == path@.take(i as int));
                assert(ancestors_upto(path@, i + 1) == pre.push(path@.take(i as int)));
                assert(pre.push(prefix@).drop_last() =~= pre);
                assert(pre.push(prefix@).last() == prefix@);
            }
            if !disk.contains(prefix.as_str()) {
                let ghost old_r = r.deep_view();
                r.push(prefix);
                proof {
                    assert(r.deep_view() =~= old_r.push(path@.take(i as int)));
                }
            }
        } else {
            proof {
                assert(!is_ancestor_cut(path@, i as int));
                assert(ancestors_upto(path@, i + 1) == pre);
            }
        }
        i = i + 1;
    }
    r
}

/// Whether every ancestor directory of the path exists in the snapshot.
/// The final component — the file name itself — is not required to exist.
pub fn all_dirs_exist(path: &str, disk: &DiskState) -> (r: bool)
    ensures
        r == (missing_dirs(path@, disk@).len() == 0),
{
    let m = missing_ancestor_dirs(path, disk);
    m.is_empty()
}

/// The stem of a file name: everything before the last dot, or the whole
/// name when there is no dot.
pub open spec fn stem_of(name: Seq<char>) -> Seq<char> {
    if after_last(name, '.') == 0 {
        name
    } else {
        name.take(after_last(name, '.') - 1)
    }
}

/// The extension of a file name: everything after the last dot, or empty
/// when there is no dot.
pub open spec fn ext_of(name: Seq<char>) -> Seq<char> {
    if after_last(name, '.') == 0 {
        Seq::empty()
    } else {
        name.skip(after_last(name, '.'))
    }
}

/// Whether a stem's tail after its last underscore counts as a numeric
/// counter: non-empty, all digits, and within machine range.
pub open spec fn is_counter_suffix(suf: Seq<char>) -> bool {
    suf.len() > 0 && all_digits(suf) && dec_val(suf) <= u64::MAX
}

/// The base of a stem: the part before the final `_<counter>` suffix, or
/// the whole stem when it carries no such suffix.
pub open spec fn base_of_stem(stem: Seq<char>) -> Seq<char> {
    let u = after_last(stem, '_');
    if u > 0 && is_counter_suffix(stem.skip(u)) {
        stem.take(u - 1)
    } else {
        stem
    }
}

/// The counter a stem starts from: its numeric suffix, or zero.
pub open spec fn start_of_stem(stem: Seq<char>) -> nat {
    let u = after_last(stem, '_');
    if u > 0 && is_counter_suffix(stem.skip(u)) {
        dec_val(stem.skip(u))
    } else {
        0
    }
}

/// The sibling name numbered `k`: the path's directory part, then the
/// base, an underscore, the counter, and the dotted extension if there
/// is one.
pub open spec fn autoname_candidate(path: Seq<char>, k: nat) -> Seq<char> {
    let cut = after_last(path, '/');
    let name = path.skip(cut);
    let ext = ext_of(name);
    path.take(cut) + base_of_stem(stem_of(name)) + seq!['_'] + dec_digits(k) + (if ext.len() > 0 {
        seq!['.'] + ext
    } else {
        Seq::empty()
    })
}

/// The counter the numbering starts from for `path`.
pub open spec fn autoname_start(path: Seq<char>) -> nat {
    start_of_stem(stem_of(path.skip(after_last(path, '/'))))
}

/// Whether `k` is the first counter past the start whose candidate does
/// not exist.
pub open spec fn autoname_free_at(path: Seq<char>, disk: Set<Seq<char>>, k: nat) -> bool {
    &&& k > autoname_start(path)
    &&& !disk.contains(autoname_candidate(path, k))
    &&& forall|j: nat|
        autoname_start(path) < j < k ==> disk.contains(#[trigger] autoname_candidate(path, j))
}

/// What automatic renaming yields: the path itself when it does not
/// exist, else the first free numbered sibling.
pub open spec fn spec_autoname(path: Seq<char>, disk: Set<Seq<char>>) -> Seq<char> {
    if !disk.contains(path) {
        path
    } else {
        autoname_candidate(path, choose|k: nat| autoname_free_at(path, disk, k))
    }
}

/// Distinct counters give distinct candidate names.
pub proof fn lemma_candidate_injective(path: Seq<char>, j: nat, k: nat)
    ensures
        autoname_candidate(path, j) == autoname_candidate(path, k) ==> j == k,
{
    if autoname_candidate(path, j) == autoname_candidate(path, k) {
        lemma_dec_digits(j);
        lemma_dec_digits(k);
        let cut = after_last(path, '/');
        let name = path.skip(cut);
        let ext = ext_of(name);
        let pre = path.take(cut) + base_of_stem(stem_of(name)) + seq!['_'];
        let tail = if ext.len() > 0 {
            seq!['.'] + ext
        } else {
            Seq::<char>::empty()
        };
        let cj = autoname_candidate(path, j);
        let ck = autoname_candidate(path, k);
        assert(cj =~= pre + dec_digits(j) + tail);
        assert(ck =~= pre + dec_digits(k) + tail);
        assert(cj.len() == pre.len() + dec_digits(j).len() + tail.len());
        assert(ck.len() == pre.len() + dec_digits(k).len() + tail.len());
        assert(dec_digits(j).len() == dec_digits(k).len());
        let dl = dec_digits(j).len() as int;
        assert(dec_digits(j) =~= cj.subrange(pre.len() as int, pre.len() + dl));
        assert(dec_digits(k) =~= ck.subrange(pre.len() as int, pre.len() + dl));
        lemma_dec_digits_injective(j, k);
    }
}

/// At most one counter is the first free one.
pub proof fn lemma_autoname_free_unique(path: Seq<char>, disk: Set<Seq<char>>, k1: nat, k2: nat)
    requires
        autoname_free_at(path, disk, k1),
        autoname_free_at(path, disk, k2),
    ensures
        k1 == k2,
{
    if k1 < k2 {
        assert(disk.contains(autoname_candidate(path, k1)));
    } else if k2 < k1 {
        assert(disk.contains(autoname_candidate(path, k2)));
    }
}

/// The candidates numbered `k` or higher that exist in the snapshot.
pub open spec fn pending_candidates(path: Seq<char>, disk: Set<Seq<char>>, k: nat) -> Set<
    Seq<char>,
> {
    disk.filter(
        |p: Seq<char>| exists|j: nat| j >= k && p == #[trigger] autoname_candidate(path, j),
    )
}

/// Builds the candidate name `dir ++ base ++ "_" ++ k`, with the dotted
/// extension appended when there is one.
fn build_candidate(dir: &str, base: &str, k: u128, ext: &str) -> (r: String)
    ensures
        r@ == dir@ + base@ + seq!['_'] + dec_digits(k as nat) + (if ext@.len() > 0 {
            seq!['.'] + ext@
        } else {
            Seq::<char>::empty()
        }),
{
    let mut cand = String::new();
    cand.append(dir);
    cand.append(base);
    proof {
        reveal_strlit("_");
        assert("_"@ =~= seq!['_']);
    }
    cand.append("_");
    push_dec(&mut cand, k);
    if !ext.is_empty() {
        proof {
            reveal_strlit(".");
            assert("."@ =~= seq!['.']);
        }
        cand.append(".");
        cand.append(ext);
    }
    proof {
        assert(cand@ =~= dir@ + base@ + seq!['_'] + dec_digits(k as nat) + (if ext@.len() > 0 {
            seq!['.'] + ext@
        } else {
            Seq::<char>::empty()
        }));
    }
    cand
}

/// Given a path that exists in the snapshot, derives the next free sibling
/// name: the name's stem is split into base and numeric suffix on its last
/// underscore, and the counter counts up from that suffix (or from zero)
/// until `"base_counter"` — with the original extension appended — no
/// longer exists.  A path that does not exist comes back unchanged.
#[verifier::loop_isolation(false)]
pub fn file_autonamer(path: &str, disk: &DiskState) -> (r: String)
    ensures
        r@ == spec_autoname(path@, disk@),
        !disk@.contains(r@),
{
    if !disk.contains(path) {
        return path.to_owned();
    }
    let n = path.unicode_len();
    let cut = match rfind_char(path, '/') {
        Some(i) => {
            proof {
                lemma_after_last_is(path@, '/', i + 1);
            }
            i + 1
        },
        None => {
            proof {
                lemma_after_last_is(path@, '/', 0);
            }
            0
        },
    };
    let dir = path.substring_char(0, cut);
    let name = path.substring_char(cut, n);
    proof {
        assert(dir@ =~= path@.take(cut as int));
        assert(name@ =~= path@.skip(cut as int));
    }
    let namelen = name.unicode_len();
    let dot = match rfind_char(name, '.') {
        Some(i) => {
            proof {
                lemma_after_last_is(name@, '.', i + 1);
            }
            i + 1
        },
        None => {
            proof {
                lemma_after_last_is(name@, '.', 0);
            }
            0
        },
    };
    let stem = if dot == 0 {
        name
    } else {
        name.substring_char(0, dot - 1)
    };
    let ext = if dot == 0 {
        proof {
            reveal_strlit("");
        }
        ""
    } else {
        name.substring_char(dot, namelen)
    };
    proof {
        assert(stem@ =~= stem_of(name@));
        assert(ext@ =~= ext_of(name@));
    }
    let stemlen = stem.unicode_len();
    let under = match rfind_char(stem, '_') {
        Some(i) => {
            proof {
                lemma_after_last_is(stem@, '_', i + 1);
            }
            i + 1
        },
        None => {
            proof {
                lemma_after_last_is(stem@, '_', 0);
            }
            0
        },
    };
    let mut start: u64 = 0;
    let mut base: &str = stem;
    if under > 0 {
        let suf = stem.substring_char(under, stemlen);
        proof {
            assert(suf@ =~= stem@.skip(under as int));
        }
        match parse_u64(suf) {
            Some(v) => {
                start = v;
                base = stem.substring_char(0, under - 1);
            },
            None => {},
        }
    }
    proof {
        assert(base@ =~= base_of_stem(stem@));
        assert(start as nat == start_of_stem(stem@));
        assert(autoname_start(path@) == start as nat);
        disk.paths.deep_view().lemma_cardinality_of_set();
        let p0 = pending_candidates(path@, disk@, (start + 1) as nat);
        assert(p0.subset_of(disk@));
        vstd::set_lib::lemma_len_subset(p0, disk@);
    }
    let ghost start0 = autoname_start(path@);
    let dn = disk.paths.len();
    proof {
        assert(disk@.len() <= dn as nat);
    }
    let mut k: u128 = start as u128 + 1;
    loop
        invariant
            start0 + 1 <= k,
            forall|j: nat|
                start0 < j < k as nat ==> disk@.contains(#[trigger] autoname_candidate(path@, j)),
            k as nat + pending_candidates(path@, disk@, k as nat).len() <= start0 + 1 + disk@.len(),
        decreases pending_candidates(path@, disk@, k as nat).len(),
    {
        let cand = build_candidate(dir, base, k, ext);
        proof {
            assert(cand@ =~= autoname_candidate(path@, k as nat));
        }
        if !disk.contains(cand.as_str()) {
            proof {
                assert(autoname_free_at(path@, disk@, k as nat));
                let kk = choose|kk: nat| autoname_free_at(path@, disk@, kk);
                lemma_autoname_free_unique(path@, disk@, kk, k as nat);
            }
            return cand;
        }
        proof {
            let pk = pending_candidates(path@, disk@, k as nat);
            let pk1 = pending_candidates(path@, disk@, (k + 1) as nat);
            assert(pk.contains(cand@)) by {
                assert(k as nat >= k as nat && cand@ == autoname_candidate(path@, k as nat));
            }
            assert(!pk1.contains(cand@)) by {
                if pk1.contains(cand@) {
                    let j = choose|j: nat|
                        j >= (k + 1) as nat && cand@ == autoname_candidate(path@, j);
                    lemma_candidate_injective(path@, j, k as nat);
                }
            }
            assert(pk1.subset_of(pk.remove(cand@))) by {
                assert forall|p: Seq<char>| pk1.contains(p) implies pk.remove(cand@).contains(
                    p,
                ) by {
                    let j = choose|j: nat|
                        j >= (k + 1) as nat && p == #[trigger] autoname_candidate(path@, j);
                    assert(j >= k as nat && p == autoname_candidate(path@, j));
                }
            }
            assert(pk.subset_of(disk@));
            vstd::set_lib::lemma_len_subset(pk, disk@);
            assert(pk.remove(cand@).len() == pk.len() - 1);
            vstd::set_lib::lemma_len_subset(pk1, pk.remove(cand@));
            assert(pk1.len() < pk.len());
            assert(disk@.contains(autoname_candidate(path@, k as nat)));
            assert(k as nat <= start0 + disk@.len());
        }
        k = k + 1;
    }
}

} // verus!
