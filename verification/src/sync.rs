//! The synchronization state: the identity of the track being followed and
//! the lyric index built for it. One value of this type is owned by the
//! polling loop; it is rebuilt wholesale on a track change and queried for
//! the active lyric line every cycle.

use vstd::prelude::*;

use crate::duration::{is_mmss, mmss_value, parse_duration};
use crate::lyrics::{doc_index, find_current_lyric, parse_lyrics, resolve_spec, LyricIndex};
use crate::track::{changed, changed_spec, TrackIdentity};

verus! {

/// Loop-owned state: the last seen track identity, if any, and the lyric
/// index for it. With no identity yet, the index is empty.
pub struct SyncState {
    identity: Option<TrackIdentity>,
    index: LyricIndex,
}

impl SyncState {
    pub closed spec fn wf(&self) -> bool {
        self.index.wf()
    }

    /// The (title, track id) pair of the track being followed.
    pub closed spec fn identity_view(&self) -> Option<(Seq<char>, Seq<char>)> {
        match self.identity {
            Some(id) => Some((id.title@, id.track_id@)),
            None => None,
        }
    }

    /// The lyric table of the track being followed.
    pub closed spec fn index_view(&self) -> Map<int, Seq<char>> {
        self.index@
    }

    /// The starting state: no track followed, empty index.
    pub fn new() -> (r: SyncState)
        ensures
            r.wf(),
            r.identity_view() is None,
            r.index_view() == Map::<int, Seq<char>>::empty(),
    {
        SyncState { identity: None, index: LyricIndex::new() }
    }

    /// Whether the index must be rebuilt for `current`: always on the first
    /// cycle, and afterwards exactly when the identity changed.
    pub fn needs_refresh(&self, current: &TrackIdentity) -> (r: bool)
        ensures
            r == match self.identity_view() {
                None => true,
                Some(p) => changed_spec(p.0, p.1, current.title@, current.track_id@),
            },
    {
        match &self.identity {
            None => true,
            Some(prev) => changed(prev, current),
        }
    }

    /// Starts following `current`: discards the old index entirely and
    /// builds a fresh one from `document`, or leaves it empty when no
    /// document could be retrieved.
    pub fn begin_track(&mut self, current: TrackIdentity, document: Option<&str>)
        requires
            old(self).wf(),
        ensures
            final(self).wf(),
            final(self).identity_view() == Some((current.title@, current.track_id@)),
            final(self).index_view() == match document {
                Some(d) => doc_index(Map::<int, Seq<char>>::empty(), d@),
                None => Map::<int, Seq<char>>::empty(),
            },
    {
        self.identity = Some(current);
        self.index = LyricIndex::new();
        if let Some(d) = document {
            parse_lyrics(d, &mut self.index);
        }
    }

    /// The lyric line to display this cycle: the most recently started line
    /// for the parsed position, or nothing when the position is absent,
    /// malformed, or precedes every line.
    pub fn current_line(&self, position: Option<&str>) -> (r: Option<&String>)
        requires
            self.wf(),
        ensures
            match position {
                None => r is None,
                Some(p) => {
                    if is_mmss(p@) && mmss_value(p@) <= u32::MAX {
                        match r {
                            Some(text) => resolve_spec(self.index_view(), mmss_value(p@)) == Some(
                                text@,
                            ),
                            None => resolve_spec(self.index_view(), mmss_value(p@)) is None,
                        }
                    } else {
                        r is None
                    }
                },
            },
    {
        match position {
            None => None,
            Some(p) => match parse_duration(p) {
                Ok(sec) => find_current_lyric(sec, &self.index),
                Err(_) => None,
            },
        }
    }
}

} // verus!
