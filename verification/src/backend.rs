//! Per-player extraction of the canonical lyric lookup key from a raw MPRIS
//! track id. Each known player publishes the song's numeric id as one
//! `/`-separated field of its track id, some wrapped in single quotes; an
//! unknown player yields an empty key, which callers treat as "no lookup".

use vstd::prelude::*;

use crate::text::{eq_chars, split_by, split_ranges, str_chars};
use vstd::string::StringExecFns;
use vstd::string::StrSliceExecFns;

verus! {

/// Which `/`-separated field of the track id holds the song id for this
/// player, and whether single quotes must be stripped from it.
pub open spec fn backend_rule(player: Seq<char>) -> Option<(int, bool)> {
    if player == "ElectronNCM"@ || player == "musicfox"@ {
        Some((4int, true))
    } else if player == "feeluown"@ {
        Some((6int, false))
    } else if player == "Qcm"@ {
        Some((2int, true))
    } else if player == "NeteaseCloudMusicGtk4"@ {
        Some((5int, true))
    } else {
        None
    }
}

/// `s` with every single-quote character removed.
pub open spec fn without_quotes(s: Seq<char>) -> Seq<char>
    decreases s.len(),
{
    if s.len() == 0 {
        s
    } else {
        without_quotes(s.drop_last()) + if s.last() == '\'' {
            Seq::<char>::empty()
        } else {
            seq![s.last()]
        }
    }
}

/// The canonical lookup key: the player's designated field of the
/// `/`-separated track id, quote-stripped where the player wraps it in
/// quotes; empty for an unknown player or a track id with too few fields.
pub open spec fn track_key_spec(player: Seq<char>, tid: Seq<char>) -> Seq<char> {
    match backend_rule(player) {
        None => Seq::<char>::empty(),
        Some(rule) => {
            let parts = split_by(tid, '/');
            if rule.0 < parts.len() {
                if rule.1 {
                    without_quotes(parts[rule.0])
                } else {
                    parts[rule.0]
                }
            } else {
                Seq::<char>::empty()
            }
        },
    }
}

/// Extracts the canonical lyric lookup key for `player` from `track_id`.
pub fn extract_track_key(player: &str, track_id: &str) -> (r: String)
    ensures
        r@ == track_key_spec(player@, track_id@),
{
    let pc = str_chars(player);
    let field: usize;
    let strip: bool;
    if eq_chars(&pc, &str_chars("ElectronNCM")) || eq_chars(&pc, &str_chars("musicfox")) {
        field = 4;
        strip = true;
    } else if eq_chars(&pc, &str_chars("feeluown")) {
        field = 6;
        strip = false;
    } else if eq_chars(&pc, &str_chars("Qcm")) {
        field = 2;
        strip = true;
    } else if eq_chars(&pc, &str_chars("NeteaseCloudMusicGtk4")) {
        field = 5;
        strip = true;
    } else {
        return String::new();
    }
    proof {
        assert(backend_rule(player@) == Some((field as int, strip)));
    }
    let tc = str_chars(track_id);
    let ranges = split_ranges(&tc, '/');
    if field >= ranges.len() {
        return String::new();
    }
    let (p, q) = ranges[field];
    proof {
        assert(tc@.subrange(p as int, q as int) == split_by(track_id@, '/')[field as int]);
    }
    if !strip {
        let r = String::from_str(track_id.substring_char(p, q));
        return r;
    }
    let ghost part = tc@.subrange(p as int, q as int);
    let mut out = String::new();
    let mut i: usize = p;
    proof {
        assert(part.subrange(0, 0) =~= Seq::<char>::empty());
    }
    while i < q
        invariant
            p <= i <= q <= tc@.len(),
            part == tc@.subrange(p as int, q as int),
            tc@ == track_id@,
            out@ == without_quotes(part.subrange(0, i - p)),
        decreases q - i,
    {
        let c = tc[i];
        proof {
            let pre = part.subrange(0, i - p);
            let pre1 = part.subrange(0, i + 1 - p);
            assert(pre1.drop_last() =~= pre);
            assert(pre1.last() == tc@[i as int]);
        }
        if c != '\'' {
            let piece = track_id.substring_char(i, i + 1);
            proof {
                assert(piece@ =~= seq![tc@[i as int]]);
            }
            out.append(piece);
        } else {
            proof {
                assert(without_quotes(part.subrange(0, i + 1 - p)) =~= without_quotes(
                    part.subrange(0, i - p),
                ));
            }
        }
        i = i + 1;
    }
    proof {
        assert(part.subrange(0, q - p) =~= part);
    }
    out
}

} // verus!
