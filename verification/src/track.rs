//! Track identity and change detection: a (title, track id) pair, compared
//! whole, decides when the lyric index must be rebuilt. Either field alone
//! can be stale or ambiguous, so a difference in either one signals a change.

use vstd::prelude::*;

verus! {

/// The pair that identifies the playing track for change detection.
pub struct TrackIdentity {
    pub title: String,
    pub track_id: String,
}

/// Whether the current (title, track id) pair differs from the previous one
/// in at least one field.
pub open spec fn changed_spec(
    prev_title: Seq<char>,
    prev_id: Seq<char>,
    cur_title: Seq<char>,
    cur_id: Seq<char>,
) -> bool {
    cur_title != prev_title || cur_id != prev_id
}

/// Returns true exactly when the current identity differs from the previous
/// one in title, track id, or both.
pub fn changed(previous: &TrackIdentity, current: &TrackIdentity) -> (r: bool)
    ensures
        r == changed_spec(previous.title@, previous.track_id@, current.title@, current.track_id@),
{
    !(current.title == previous.title && current.track_id == previous.track_id)
}

/// An identical (title, track id) pair never signals a track change.
pub proof fn lemma_identical_identity_unchanged(title: Seq<char>, id: Seq<char>)
    ensures
        !changed_spec(title, id, title, id),
{
}

/// A difference in any single field signals a track change.
pub proof fn lemma_differing_field_changes(
    prev_title: Seq<char>,
    prev_id: Seq<char>,
    cur_title: Seq<char>,
    cur_id: Seq<char>,
)
    requires
        cur_title != prev_title || cur_id != prev_id,
    ensures
        changed_spec(prev_title, prev_id, cur_title, cur_id),
{
}

} // verus!
