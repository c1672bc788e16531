//! Outcomes of sync passes (import + project).

use vstd::prelude::*;

use crate::model::string_seq;
use crate::text::{chars_of, equals_chars, join_path, path_join, string_of};

verus! {

#[derive(Debug, Clone, PartialEq, Eq)]
pub enum SyncOutcome {
    /// Nothing changed on either side of the Brain.
    NoChanges,
    /// Import and/or projection applied cleanly.
    Applied { changed_paths: Vec<String> },
    /// Both sides changed the same region since the last snapshot; queued
    /// for human review rather than auto-resolved.
    ConflictQueued { conflict_ids: Vec<String> },
}

impl SyncOutcome {
    /// A pass is clean unless it queued conflicts for review.
    pub fn is_clean(&self) -> (clean: bool)
        ensures
            clean == !(self is ConflictQueued),
    {
        match self {
            SyncOutcome::NoChanges => true,
            SyncOutcome::Applied { .. } => true,
            SyncOutcome::ConflictQueued { .. } => false,
        }
    }
}

/// Whether a skill changed on both sides since the last snapshot, from the
/// content hashes of the workspace copy, the Brain copy and the snapshot
/// base. With a base (non-empty `base_content`) both must differ from it;
/// without one, the hash recorded in the Brain's metadata stands in: both
/// current copies must differ from it.
pub open spec fn diverged(
    base_present: bool,
    ws_sha: Seq<char>,
    brain_sha: Seq<char>,
    base_sha: Seq<char>,
    recorded_sha: Seq<char>,
) -> bool {
    if base_present {
        ws_sha != base_sha && brain_sha != base_sha
    } else {
        recorded_sha != brain_sha && recorded_sha != ws_sha
    }
}

/// Decides whether the workspace and Brain copies of a skill both changed
/// since the snapshot base (`base_content`, empty when there is none).
pub fn both_sides_changed(
    base_content: &str,
    ws_sha: &str,
    brain_sha: &str,
    base_sha: &str,
    recorded_sha: &str,
) -> (b: bool)
    ensures
        b == diverged(base_content@.len() > 0, ws_sha@, brain_sha@, base_sha@, recorded_sha@),
{
    let base = chars_of(base_content);
    let ws = chars_of(ws_sha);
    let brain = chars_of(brain_sha);
    let based = chars_of(base_sha);
    let recorded = chars_of(recorded_sha);
    if base.len() > 0 {
        !equals_chars(&ws, &based) && !equals_chars(&brain, &based)
    } else {
        !equals_chars(&recorded, &brain) && !equals_chars(&recorded, &ws)
    }
}

/// The result of a sync pass: queued conflicts win; otherwise the paths the
/// import and the projection changed, or no change at all.
pub open spec fn outcome_of(conflict_ids: Seq<Seq<char>>, changed: Seq<Seq<char>>) -> (Seq<char>, Seq<
    Seq<char>,
>) {
    if conflict_ids.len() > 0 {
        ("conflict"@, conflict_ids)
    } else if changed.len() == 0 {
        ("none"@, seq![])
    } else {
        ("applied"@, changed)
    }
}

impl SyncOutcome {
    /// The outcome's kind (`none`, `applied`, `conflict`) and the paths or
    /// conflict ids it carries.
    pub open spec fn summary(self) -> (Seq<char>, Seq<Seq<char>>) {
        match self {
            SyncOutcome::NoChanges => ("none"@, seq![]),
            SyncOutcome::Applied { changed_paths } => ("applied"@, string_seq(changed_paths@)),
            SyncOutcome::ConflictQueued { conflict_ids } => ("conflict"@, string_seq(conflict_ids@)),
        }
    }

    /// Concludes a sync pass from the conflicts it queued and the paths that
    /// its import and projection changed (imported paths first).
    pub fn conclude(conflict_ids: Vec<String>, imported: Vec<String>, projected: Vec<String>) -> (o:
        Self)
        ensures
            o.summary() == outcome_of(
                string_seq(conflict_ids@),
                string_seq(imported@) + string_seq(projected@),
            ),
    {
        if conflict_ids.len() > 0 {
            return SyncOutcome::ConflictQueued { conflict_ids };
        }
        let mut changed = imported;
        let mut i: usize = 0;
        let ghost start = changed@;
        while i < projected.len()
            invariant
                i <= projected@.len(),
                changed@ == start + projected@.take(i as int),
            decreases projected.len() - i,
        {
            changed.push(projected[i].clone());
            i = i + 1;
            assert(changed@ =~= start + projected@.take(i as int));
        }
        proof {
            assert(projected@.take(i as int) =~= projected@);
            assert(string_seq(changed@) =~= string_seq(imported@) + string_seq(projected@));
        }
        if changed.len() == 0 {
            SyncOutcome::NoChanges
        } else {
            SyncOutcome::Applied { changed_paths: changed }
        }
    }
}

/// The lock file that keeps two sync passes from running at once.
pub fn lock_path(brain_root: &str) -> (p: String)
    ensures
        p@ == path_join(brain_root@, ".lock"@),
{
    let base = chars_of(brain_root);
    let name = chars_of(".lock");
    string_of(&join_path(&base, &name))
}

/// A skill that changed on both sides, queued for a human: its id, its
/// canonical path, the snapshot base, the Brain copy (local), the workspace
/// copy (remote) and the merge with conflict markers.
pub struct QueuedConflict {
    pub id: String,
    pub canonical_path: String,
    pub base: String,
    pub local: String,
    pub remote: String,
    pub merged_with_markers: String,
}

/// The conflict a sync pass queues for a skill, if any: none when the
/// workspace and Brain copies (provenance stripped) agree, when they did not
/// both change since the base, or when the three-way merge came out clean
/// (`markers` is `None`); else the conflict, carrying the merge's markers.
pub open spec fn conflict_of(
    id: Seq<char>,
    ws_source: Seq<char>,
    brain_source: Seq<char>,
    base: Seq<char>,
    shas: (Seq<char>, Seq<char>, Seq<char>, Seq<char>),
    markers: Option<Seq<char>>,
) -> Option<(Seq<char>, Seq<char>, Seq<char>, Seq<char>, Seq<char>, Seq<char>)> {
    if ws_source == brain_source || !diverged(base.len() > 0, shas.0, shas.1, shas.2, shas.3) {
        None
    } else {
        match markers {
            None => None,
            Some(m) => Some((id, "skills/"@ + id, base, brain_source, ws_source, m)),
        }
    }
}

/// Decides whether a sync pass queues a conflict for one skill. The hashes
/// are those of the workspace copy, the Brain copy, the base and the one
/// recorded in the Brain's metadata; `markers` is what the three-way merge
/// left when it could not merge cleanly.
pub fn conflict_for(
    id: &str,
    ws_source: &str,
    brain_source: &str,
    base: &str,
    ws_sha: &str,
    brain_sha: &str,
    base_sha: &str,
    recorded_sha: &str,
    markers: Option<&str>,
) -> (c: Option<QueuedConflict>)
    ensures
        ({
            let want = conflict_of(
                id@,
                ws_source@,
                brain_source@,
                base@,
                (ws_sha@, brain_sha@, base_sha@, recorded_sha@),
                crate::compression::opt_view(markers),
            );
            &&& c is None <==> want is None
            &&& (c matches Some(q) ==> want == Some(
                (q.id@, q.canonical_path@, q.base@, q.local@, q.remote@, q.merged_with_markers@),
            ))
        }),
{
    let ws = chars_of(ws_source);
    let br = chars_of(brain_source);
    if equals_chars(&ws, &br) || !both_sides_changed(base, ws_sha, brain_sha, base_sha, recorded_sha) {
        return None;
    }
    match markers {
        None => None,
        Some(m) => {
            let mut path = chars_of("skills/");
            crate::text::append_str(&mut path, id);
            Some(
                QueuedConflict {
                    id: crate::text::owned(id),
                    canonical_path: string_of(&path),
                    base: crate::text::owned(base),
                    local: crate::text::owned(brain_source),
                    remote: crate::text::owned(ws_source),
                    merged_with_markers: crate::text::owned(m),
                },
            )
        },
    }
}

} // verus!
