//! The diff-to-rename planner: correlates an original, canonicalized
//! listing against the listing parsed from the edited buffer and produces
//! the ordered list of file activities, resolving collisions by automatic
//! renaming and recording the directories each activity needs.
//!
//! Planning is exhaustive and side-effect-free: every activity is fully
//! computed against the disk snapshot, and any failure aborts the whole
//! plan before anything is executed.

use vstd::prelude::*;
use vstd::string::*;

use crate::config::Config;
use crate::errors::{PlanError, PlanErrorV};
use crate::filelist::FileList;
use crate::filesystem::{file_autonamer, missing_ancestor_dirs, missing_dirs, spec_autoname,
    DiskState};
use crate::listing::{canonical_positions, has_path, positions_cover, positions_distinct,
    PathEntry};

verus! {

/// One planned file operation: move or rename `source` to `destination`,
/// after creating the recorded directories.
pub struct Activity {
    /// The ancestor directories of the destination that must be created.
    pub mkdirs: Vec<String>,
    /// The path being renamed or moved.
    pub source: String,
    /// The destination the edited listing asked for, before any collision
    /// was resolved.
    pub given_destination_path: String,
    /// The final destination, after automatic renaming if it applied.
    pub destination: String,
}

/// The abstract value of an [`Activity`].
pub ghost struct ActivityV {
    pub mkdirs: Seq<Seq<char>>,
    pub source: Seq<char>,
    pub given_destination_path: Seq<char>,
    pub destination: Seq<char>,
}

impl View for Activity {
    type V = ActivityV;

    open spec fn view(&self) -> ActivityV {
        ActivityV {
            mkdirs: self.mkdirs.deep_view(),
            source: self.source@,
            given_destination_path: self.given_destination_path@,
            destination: self.destination@,
        }
    }
}

impl DeepView for Activity {
    type V = ActivityV;

    open spec fn deep_view(&self) -> ActivityV {
        self.view()
    }
}

/// The entry holding position `pos`; meaningful when positions are
/// distinct and `pos` is covered.
pub open spec fn entry_at_position(es: Seq<PathEntry>, pos: nat) -> PathEntry {
    es[choose|i: int| 0 <= i < es.len() && (#[trigger] es[i]).position == pos]
}

/// What planning does with one original entry.  An entry whose path still
/// occurs anywhere in the modified listing is unchanged and plans nothing.
/// Otherwise its replacement is the modified entry at the same rank; if
/// that destination exists, automatic renaming resolves it or the plan
/// fails; if ancestor directories are missing, they are recorded or the
/// plan fails.
pub open spec fn plan_one(
    o: PathEntry,
    m: Seq<PathEntry>,
    auto: bool,
    mkdir: bool,
    disk: Set<Seq<char>>,
) -> Result<Option<ActivityV>, PlanErrorV> {
    if has_path(m, o.path) {
        Ok(None)
    } else {
        let cand = entry_at_position(m, o.position).path;
        if disk.contains(cand) && !auto {
            Err(PlanErrorV::DestinationExists(cand))
        } else {
            let dest = if disk.contains(cand) {
                spec_autoname(cand, disk)
            } else {
                cand
            };
            let missing = missing_dirs(dest, disk);
            if missing.len() > 0 && !mkdir {
                Err(PlanErrorV::MissingDirectories(dest))
            } else {
                Ok(
                    Some(
                        ActivityV {
                            mkdirs: missing,
                            source: o.path,
                            given_destination_path: cand,
                            destination: dest,
                        },
                    ),
                )
            }
        }
    }
}

/// The whole plan over the original entries in listing order: the
/// activities of the changed entries, or the first failure.
pub open spec fn plan_entries(
    os: Seq<PathEntry>,
    m: Seq<PathEntry>,
    auto: bool,
    mkdir: bool,
    disk: Set<Seq<char>>,
) -> Result<Seq<ActivityV>, PlanErrorV>
    decreases os.len(),
{
    if os.len() == 0 {
        Ok(Seq::empty())
    } else {
        match plan_entries(os.drop_last(), m, auto, mkdir, disk) {
            Err(e) => Err(e),
            Ok(acts) => match plan_one(os.last(), m, auto, mkdir, disk) {
                Err(e) => Err(e),
                Ok(None) => Ok(acts),
                Ok(Some(a)) => Ok(acts.push(a)),
            },
        }
    }
}

/// A failure on a prefix is the failure of the whole plan.
pub proof fn lemma_plan_prefix_err(
    os: Seq<PathEntry>,
    m: Seq<PathEntry>,
    auto: bool,
    mkdir: bool,
    disk: Set<Seq<char>>,
    j: int,
    e: PlanErrorV,
)
    requires
        0 <= j <= os.len(),
        plan_entries(os.take(j), m, auto, mkdir, disk) == Err::<Seq<ActivityV>, PlanErrorV>(e),
    ensures
        plan_entries(os, m, auto, mkdir, disk) == Err::<Seq<ActivityV>, PlanErrorV>(e),
    decreases os.len() - j,
{
    if j == os.len() {
        assert(os.take(j) =~= os);
    } else {
        assert(os.take(j + 1).drop_last() =~= os.take(j));
        lemma_plan_prefix_err(os, m, auto, mkdir, disk, j + 1, e);
    }
}

/// If every original path still occurs in the modified listing, the plan
/// is empty: nothing is renamed, nothing fails.
pub proof fn lemma_unchanged_plan_empty(
    os: Seq<PathEntry>,
    m: Seq<PathEntry>,
    auto: bool,
    mkdir: bool,
    disk: Set<Seq<char>>,
)
    requires
        forall|i: int| 0 <= i < os.len() ==> has_path(m, (#[trigger] os[i]).path),
    ensures
        plan_entries(os, m, auto, mkdir, disk) == Ok::<Seq<ActivityV>, PlanErrorV>(
            Seq::<ActivityV>::empty(),
        ),
    decreases os.len(),
{
    if os.len() > 0 {
        assert forall|i: int| 0 <= i < os.drop_last().len() implies has_path(
            m,
            (#[trigger] os.drop_last()[i]).path,
        ) by {
            assert(os.drop_last()[i] == os[i]);
        }
        lemma_unchanged_plan_empty(os.drop_last(), m, auto, mkdir, disk);
        assert(has_path(m, os.last().path));
    }
}

/// If every line of the edited buffer equals the original canonical
/// listing — so the modified entries list exactly the original's paths —
/// the plan is empty: nothing is renamed, nothing fails.
pub proof fn lemma_unchanged_buffer_plans_nothing(
    os: Seq<PathEntry>,
    m: Seq<PathEntry>,
    lines: Seq<Seq<char>>,
    auto: bool,
    mkdir: bool,
    disk: Set<Seq<char>>,
)
    requires
        crate::listing::lists_lines(m, lines),
        lines == crate::listing::paths_of(os),
    ensures
        plan_entries(os, m, auto, mkdir, disk) == Ok::<Seq<ActivityV>, PlanErrorV>(
            Seq::<ActivityV>::empty(),
        ),
{
    assert forall|i: int| 0 <= i < os.len() implies has_path(m, (#[trigger] os[i]).path) by {
        assert(crate::listing::entry_line_match(m, lines, i));
        let j = choose|j: int|
            0 <= j < m.len() && (#[trigger] m[j]) == (PathEntry {
                path: lines[i],
                position: i as nat,
            });
        assert(crate::listing::paths_of(os)[i] == os[i].path);
        assert(m[j].path == os[i].path);
    }
    lemma_unchanged_plan_empty(os, m, auto, mkdir, disk);
}

/// Correlates the canonicalized `original` listing against the `modified`
/// listing parsed from the edited buffer and plans the file operations.
/// Entries whose path is still present are unchanged; a changed entry is
/// correlated positionally, its destination resolved against the snapshot,
/// and the directories it needs recorded.  The first failure aborts the
/// whole plan.
#[verifier::loop_isolation(false)]
pub fn batch_operations(
    original: &FileList,
    modified: &FileList,
    config: &Config,
    disk: &DiskState,
) -> (r: Result<Vec<Activity>, PlanError>)
    requires
        original.wf(),
        modified.wf(),
        canonical_positions(original.entries()),
        positions_distinct(modified.entries()),
        positions_cover(modified.entries()),
    ensures
        original.entries().len() != modified.entries().len() ==> (r matches Err(e) && e@
            == PlanErrorV::CountMismatch),
        original.entries().len() == modified.entries().len() ==> match r {
            Ok(acts) => plan_entries(
                original.entries(),
                modified.entries(),
                config.automatic_rename,
                config.mkdir,
                disk@,
            ) == Ok::<Seq<ActivityV>, PlanErrorV>(acts.deep_view()),
            Err(e) => plan_entries(
                original.entries(),
                modified.entries(),
                config.automatic_rename,
                config.mkdir,
                disk@,
            ) == Err::<Seq<ActivityV>, PlanErrorV>(e@),
        },
{
    let ghost os = original.entries();
    let ghost m = modified.entries();
    let ghost auto = config.automatic_rename;
    let ghost mkdir = config.mkdir;
    if original.list.len() != modified.list.len() {
        return Err(PlanError::CountMismatch);
    }
    let n = original.list.len();
    let mut outcome: Vec<Activity> = Vec::new();
    proof {
        assert(os.take(0) =~= Seq::<PathEntry>::empty());
        assert(outcome.deep_view() =~= Seq::<ActivityV>::empty());
    }
    let mut i: usize = 0;
    while i < n
        invariant
            0 <= i <= n,
            plan_entries(os.take(i as int), m, auto, mkdir, disk@) == Ok::<
                Seq<ActivityV>,
                PlanErrorV,
            >(outcome.deep_view()),
        decreases n - i,
    {
        proof {
            assert(os.take(i + 1).drop_last() =~= os.take(i as int));
            assert(os.take(i + 1).last() == os[i as int]);
        }
        let o_source = original.list[i].source.clone();
        let ghost o = os[i as int];
        proof {
            assert(o.path == o_source@);
            assert(o.position == i as nat);
        }
        match modified.get_by_file(o_source.as_str()) {
            Some(_) => {
                proof {
                    assert(has_path(m, o.path));
                    assert(plan_one(o, m, auto, mkdir, disk@) == Ok::<
                        Option<ActivityV>,
                        PlanErrorV,
                    >(None));
                }
            },
            None => {
                let position = original.list[i].position;
                let found = modified.get_by_index(position);
                let cand = match found {
                    Some(e) => e.source.clone(),
                    None => {
                        proof {
                            assert(crate::listing::has_position(m, i as nat));
                            assert(false);
                        }
                        String::new()
                    },
                };
                proof {
                    let ci = choose|ci: int|
                        0 <= ci < m.len() && (#[trigger] m[ci]).position == o.position;
                    let e = found->Some_0;
                    let ei = choose|ei: int|
                        0 <= ei < m.len() && (#[trigger] m[ei]) == e@;
                    assert(m[ei].position == m[ci].position);
                    assert(ei == ci);
                    assert(cand@ == entry_at_position(m, o.position).path);
                }
                let exists_cand = disk.contains(cand.as_str());
                if exists_cand && !config.automatic_rename {
                    proof {
                        let e = PlanErrorV::DestinationExists(cand@);
                        assert(plan_one(o, m, auto, mkdir, disk@) == Err::<
                            Option<ActivityV>,
                            PlanErrorV,
                        >(e));
                        lemma_plan_prefix_err(os, m, auto, mkdir, disk@, i + 1, e);
                    }
                    return Err(PlanError::DestinationExists(cand));
                }
                let destination = if exists_cand {
                    file_autonamer(cand.as_str(), disk)
                } else {
                    cand.clone()
                };
                let missing = missing_ancestor_dirs(destination.as_str(), disk);
                if missing.len() > 0 && !config.mkdir {
                    proof {
                        let e = PlanErrorV::MissingDirectories(destination@);
                        assert(plan_one(o, m, auto, mkdir, disk@) == Err::<
                            Option<ActivityV>,
                            PlanErrorV,
                        >(e));
                        lemma_plan_prefix_err(os, m, auto, mkdir, disk@, i + 1, e);
                    }
                    return Err(PlanError::MissingDirectories(destination));
                }
                let activity = Activity {
                    mkdirs: missing,
                    source: o_source,
                    given_destination_path: cand,
                    destination,
                };
                let ghost old_acts = outcome.deep_view();
                outcome.push(activity);
                proof {
                    assert(plan_one(o, m, auto, mkdir, disk@) == Ok::<
                        Option<ActivityV>,
                        PlanErrorV,
                    >(Some(activity@)));
                    assert(outcome.deep_view() =~~= old_acts.push(activity@));
                }
            },
        }
        i = i + 1;
    }
    proof {
        assert(os.take(n as int) =~= os);
    }
    Ok(outcome)
}

} // verus!
