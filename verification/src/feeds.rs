//! Feed processing: extracting `(timestamp, player id, player name)`
//! triples from player and team feeds for the name-history map.

use crate::json::str_eq;
use crate::queries::clone_string;
use vstd::prelude::*;
use vstd::string::StringSliceAdditionalSpecFns;

verus! {

/// One link inside a feed entry's text.
pub struct FeedLink {
    pub kind: Option<String>,
    pub id: Option<String>,
    pub matched: Option<String>,
}

/// One feed entry: an instant, its text, and the links the text carries.
pub struct FeedEntry {
    pub ts: i64,
    pub text: String,
    pub links: Vec<FeedLink>,
}

/// One extracted row of the player-name map.
pub struct PlayerNameMapEntry {
    pub timestamp: i64,
    pub player_id: String,
    pub player_name: String,
}

/// `n` occurs somewhere inside `h`.
pub open spec fn contains_sub(h: Seq<u8>, n: Seq<u8>) -> bool {
    exists|i: int| 0 <= i <= h.len() - n.len() && #[trigger] h.subrange(i, i + n.len()) == n
}

/// Does the needle occur in the haystack, compared as UTF-8 bytes?
pub fn str_contains(h: &str, n: &str) -> (r: bool)
    ensures
        r == contains_sub(h.spec_bytes(), n.spec_bytes()),
{
    let hb = h.as_bytes();
    let nb = n.as_bytes();
    if nb.len() > hb.len() {
        return false;
    }
    let hn = hb.len();
    let mut i: usize = 0;
    proof {
        assert(hn == hb@.len());
    }
    loop
        invariant
            hb@.len() <= usize::MAX,
            nb@.len() <= hb@.len(),
            i <= hb@.len() - nb@.len() + 1,
            hb@ == h.spec_bytes(),
            nb@ == n.spec_bytes(),
            forall|k: int| 0 <= k < i ==> #[trigger] hb@.subrange(k, k + nb@.len()) != nb@,
        ensures
            (i + nb@.len() <= hb@.len() && hb@.subrange(i as int, i + nb@.len()) == nb@) || (i
                == hb@.len() - nb@.len() + 1 && forall|k: int|
                0 <= k < i ==> #[trigger] hb@.subrange(k, k + nb@.len()) != nb@),
        decreases hb@.len() - nb@.len() + 1 - i,
    {
        if i > hb.len() - nb.len() {
            break;
        }
        let mut j: usize = 0;
        let mut matches_here = true;
        proof {
            assert(hb@.subrange(i as int, i as int) =~= nb@.subrange(0, 0));
        }
        while j < nb.len()
            invariant
                hb@.len() <= usize::MAX,
                j <= nb@.len(),
                i + nb@.len() <= hb@.len(),
                matches_here == (hb@.subrange(i as int, i + j) == nb@.subrange(0, j as int)),
            decreases nb@.len() - j,
        {
            let ghost jj = j as int;
            let same = hb[i + j] == nb[j];
            proof {
                assert(hb@.subrange(i as int, i + jj + 1) =~= hb@.subrange(i as int, i + jj).push(
                    hb@[i + jj],
                ));
                assert(nb@.subrange(0, jj + 1) =~= nb@.subrange(0, jj).push(nb@[jj]));
                if matches_here && same {
                    assert(hb@.subrange(i as int, i + jj + 1) =~= nb@.subrange(0, jj + 1));
                } else {
                    if hb@.subrange(i as int, i + jj + 1) == nb@.subrange(0, jj + 1) {
                        assert(hb@.subrange(i as int, i + jj + 1).drop_last() =~= hb@.subrange(
                            i as int,
                            i + jj,
                        ));
                        assert(nb@.subrange(0, jj + 1).drop_last() =~= nb@.subrange(0, jj));
                        assert(hb@.subrange(i as int, i + jj + 1).last() == hb@[i + jj]);
                        assert(nb@.subrange(0, jj + 1).last() == nb@[jj]);
                    }
                }
            }
            matches_here = matches_here && same;
            j = j + 1;
        }
        if matches_here {
            proof {
                assert(nb@.subrange(0, nb@.len() as int) =~= nb@);
            }
            break;
        }
        proof {
            assert(nb@.subrange(0, nb@.len() as int) =~= nb@);
        }
        i = i + 1;
    }
    if i <= hb.len() - nb.len() {
        proof {
            assert(contains_sub(hb@, nb@));
        }
        true
    } else {
        proof {
            if contains_sub(hb@, nb@) {
                let k = choose|k: int|
                    0 <= k <= hb@.len() - nb@.len() && #[trigger] hb@.subrange(k, k + nb@.len())
                        == nb@;
                assert(false);
            }
        }
        false
    }
}

/// Is this link a player link?
pub open spec fn is_player_link(l: FeedLink) -> bool {
    l.kind matches Some(k) && k@ == "player"@
}

/// A recomposition entry: the name belongs to the player the entry
/// recomposed, so the id is taken from the entry's first player link.
pub open spec fn is_recomposed(e: FeedEntry) -> bool {
    contains_sub(vstd::utf8::encode_utf8(e.text@), vstd::utf8::encode_utf8(
        " was Recomposed into "@,
    ))
}

/// The first player link of an entry, if any.
pub open spec fn first_player_link(links: Seq<FeedLink>) -> Option<FeedLink>
    decreases links.len(),
{
    if links.len() == 0 {
        None
    } else if is_player_link(links[0]) {
        Some(links[0])
    } else {
        first_player_link(links.drop_first())
    }
}

proof fn lemma_first_player_link_none(links: Seq<FeedLink>)
    requires
        forall|k: int| 0 <= k < links.len() ==> !is_player_link(#[trigger] links[k]),
    ensures
        first_player_link(links) is None,
    decreases links.len(),
{
    if links.len() > 0 {
        let d = links.drop_first();
        assert(forall|k: int| 0 <= k < d.len() ==> #[trigger] d[k] == links[k + 1]);
        lemma_first_player_link_none(d);
    }
}

proof fn lemma_first_player_link_at(links: Seq<FeedLink>, f: int)
    requires
        0 <= f < links.len(),
        is_player_link(links[f]),
        forall|k: int| 0 <= k < f ==> !is_player_link(#[trigger] links[k]),
    ensures
        first_player_link(links) == Some(links[f]),
    decreases links.len(),
{
    if f > 0 {
        let d = links.drop_first();
        assert(forall|k: int| 0 <= k < d.len() ==> #[trigger] d[k] == links[k + 1]);
        lemma_first_player_link_at(d, f - 1);
    }
}

/// The id a player link contributes: under the recomposition rule the
/// entry's first player link's id, otherwise the link's own.
pub open spec fn link_id(e: FeedEntry, l: FeedLink) -> Option<Seq<char>> {
    if is_recomposed(e) {
        match first_player_link(e.links@) {
            Some(fl) => match fl.id {
                Some(s) => Some(s@),
                None => None,
            },
            None => None,
        }
    } else {
        match l.id {
            Some(s) => Some(s@),
            None => None,
        }
    }
}

/// The rows one link contributes: one when it is a player link carrying
/// an id and a matched name, none otherwise.
pub open spec fn link_rows(e: FeedEntry, l: FeedLink) -> Seq<(i64, Seq<char>, Seq<char>)> {
    if is_player_link(l) && link_id(e, l) is Some && l.matched is Some {
        seq![(e.ts, link_id(e, l)->0, (l.matched->0)@)]
    } else {
        Seq::empty()
    }
}

/// The rows the given links of entry `e` contribute, in link order.
pub open spec fn links_rows(e: FeedEntry, links: Seq<FeedLink>) -> Seq<(i64, Seq<char>, Seq<char>)>
    decreases links.len(),
{
    if links.len() == 0 {
        Seq::empty()
    } else {
        links_rows(e, links.drop_last()) + link_rows(e, links.last())
    }
}

/// The rows one whole entry contributes.
pub open spec fn entry_rows(e: FeedEntry) -> Seq<(i64, Seq<char>, Seq<char>)> {
    links_rows(e, e.links@)
}

/// The rows a run of entries contributes, in feed order.
pub open spec fn feed_rows(feed: Seq<FeedEntry>) -> Seq<(i64, Seq<char>, Seq<char>)>
    decreases feed.len(),
{
    if feed.len() == 0 {
        Seq::empty()
    } else {
        feed_rows(feed.drop_last()) + entry_rows(feed.last())
    }
}

/// A stored row as its timestamp and the characters of its id and name.
pub open spec fn row_view(r: PlayerNameMapEntry) -> (i64, Seq<char>, Seq<char>) {
    (r.timestamp, r.player_id@, r.player_name@)
}

/// Append the rows one feed entry contributes: one per player link that
/// carries an id and a matched name, in link order, the id taken from the
/// entry's first player link when the text carries the recomposition
/// marker and from the link itself otherwise.
pub fn handle_feed_entry(e: &FeedEntry, out: &mut Vec<PlayerNameMapEntry>)
    ensures
        final(out)@.len() == old(out)@.len() + entry_rows(*e).len(),
        forall|k: int| 0 <= k < old(out)@.len() ==> final(out)@[k] == old(out)@[k],
        forall|k: int|
            0 <= k < entry_rows(*e).len() ==> row_view(
                final(out)@[old(out)@.len() + k],
            ) == entry_rows(*e)[k],
{
    let recomposed = str_contains(e.text.as_str(), " was Recomposed into ");
    proof {
        assert(recomposed == is_recomposed(*e));
    }
    let mut first_player: Option<usize> = None;
    let mut i: usize = 0;
    while i < e.links.len()
        invariant
            i <= e.links@.len(),
            first_player matches Some(f) ==> f < i && is_player_link(e.links@[f as int]) && (
            forall|k: int| 0 <= k < f ==> !is_player_link(#[trigger] e.links@[k])),
            first_player is None ==> forall|k: int|
                0 <= k < i ==> !is_player_link(#[trigger] e.links@[k]),
        decreases e.links@.len() - i,
    {
        let is_player = match &e.links[i].kind {
            Some(k) => str_eq(k.as_str(), "player"),
            None => false,
        };
        proof {
            assert(is_player == is_player_link(e.links@[i as int]));
        }
        if is_player && first_player.is_none() {
            first_player = Some(i);
        }
        i = i + 1;
    }
    proof {
        match first_player {
            Some(f) => lemma_first_player_link_at(e.links@, f as int),
            None => lemma_first_player_link_none(e.links@),
        }
    }
    let ghost base = out@.len() as int;
    let mut j: usize = 0;
    proof {
        assert(e.links@.take(0) =~= Seq::<FeedLink>::empty());
    }
    while j < e.links.len()
        invariant
            j <= e.links@.len(),
            recomposed == is_recomposed(*e),
            first_player matches Some(f) ==> f < e.links@.len() && first_player_link(e.links@)
                == Some(e.links@[f as int]),
            first_player is None ==> first_player_link(e.links@) is None,
            base == old(out)@.len(),
            out@.len() == base + links_rows(*e, e.links@.take(j as int)).len(),
            forall|k: int| 0 <= k < base ==> out@[k] == old(out)@[k],
            forall|k: int|
                0 <= k < links_rows(*e, e.links@.take(j as int)).len() ==> row_view(
                    out@[base + k],
                ) == links_rows(*e, e.links@.take(j as int))[k],
        decreases e.links@.len() - j,
    {
        let ghost prev = links_rows(*e, e.links@.take(j as int));
        proof {
            assert(e.links@.take(j + 1).drop_last() =~= e.links@.take(j as int));
            assert(e.links@.take(j + 1).last() == e.links@[j as int]);
        }
        let link = &e.links[j];
        let is_player = match &link.kind {
            Some(k) => str_eq(k.as_str(), "player"),
            None => false,
        };
        proof {
            assert(is_player == is_player_link(e.links@[j as int]));
        }
        if is_player {
            let id: Option<&String> = if recomposed {
                match first_player {
                    Some(f) => match &e.links[f].id {
                        Some(pid) => Some(pid),
                        None => None,
                    },
                    None => None,
                }
            } else {
                match &link.id {
                    Some(pid) => Some(pid),
                    None => None,
                }
            };
            proof {
                match id {
                    Some(pid) => assert(link_id(*e, e.links@[j as int]) == Some(pid@)),
                    None => assert(link_id(*e, e.links@[j as int]) is None),
                }
            }
            match (id, &link.matched) {
                (Some(pid), Some(name)) => {
                    out.push(PlayerNameMapEntry {
                        timestamp: e.ts,
                        player_id: clone_string(pid),
                        player_name: clone_string(name),
                    });
                    proof {
                        assert(link_rows(*e, e.links@[j as int]) == seq![
                            (e.ts, pid@, name@),
                        ]);
                        assert(row_view(out@[base + prev.len()]) == (e.ts, pid@, name@));
                    }
                },
                _ => {
                    proof {
                        assert(link_rows(*e, e.links@[j as int]) =~= Seq::<(
                            i64,
                            Seq<char>,
                            Seq<char>,
                        )>::empty());
                    }
                },
            }
        } else {
            proof {
                assert(link_rows(*e, e.links@[j as int]) =~= Seq::<(
                    i64,
                    Seq<char>,
                    Seq<char>,
                )>::empty());
            }
        }
        proof {
            let cur = links_rows(*e, e.links@.take(j + 1));
            assert(cur == prev + link_rows(*e, e.links@[j as int]));
            assert forall|k: int| 0 <= k < cur.len() implies row_view(out@[base + k])
                == cur[k] by {
                if k < prev.len() {
                    assert(cur[k] == prev[k]);
                }
            }
        }
        j = j + 1;
    }
    proof {
        assert(e.links@.take(e.links@.len() as int) =~= e.links@);
    }
}

/// Append the rows a whole run of feed entries contributes, in feed
/// order.
pub fn handle_feed(out: &mut Vec<PlayerNameMapEntry>, feed: &Vec<FeedEntry>)
    ensures
        final(out)@.len() == old(out)@.len() + feed_rows(feed@).len(),
        forall|k: int| 0 <= k < old(out)@.len() ==> final(out)@[k] == old(out)@[k],
        forall|k: int|
            0 <= k < feed_rows(feed@).len() ==> row_view(final(out)@[old(out)@.len() + k])
                == feed_rows(feed@)[k],
{
    let ghost base = out@.len() as int;
    let mut i: usize = 0;
    proof {
        assert(feed@.take(0) =~= Seq::<FeedEntry>::empty());
    }
    while i < feed.len()
        invariant
            i <= feed@.len(),
            base == old(out)@.len(),
            out@.len() == base + feed_rows(feed@.take(i as int)).len(),
            forall|k: int| 0 <= k < base ==> out@[k] == old(out)@[k],
            forall|k: int|
                0 <= k < feed_rows(feed@.take(i as int)).len() ==> row_view(out@[base + k])
                    == feed_rows(feed@.take(i as int))[k],
        decreases feed@.len() - i,
    {
        let ghost prev = feed_rows(feed@.take(i as int));
        proof {
            assert(feed@.take(i + 1).drop_last() =~= feed@.take(i as int));
            assert(feed@.take(i + 1).last() == feed@[i as int]);
        }
        handle_feed_entry(&feed[i], out);
        proof {
            let cur = feed_rows(feed@.take(i + 1));
            assert(cur == prev + entry_rows(feed@[i as int]));
            assert forall|k: int| 0 <= k < cur.len() implies row_view(out@[base + k])
                == cur[k] by {
                if k < prev.len() {
                    assert(cur[k] == prev[k]);
                } else {
                    assert(cur[k] == entry_rows(feed@[i as int])[k - prev.len()]);
                }
            }
        }
        i = i + 1;
    }
    proof {
        assert(feed@.take(feed@.len() as int) =~= feed@);
    }
}

} // verus!