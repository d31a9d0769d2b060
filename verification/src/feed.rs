//! Reading a game feed: which events are pitches, what each is called, who
//! threw it; and the table that counts them.
//!
//! Every lookup is optional. A field that is missing or has another type
//! than expected falls back to a fixed value; only a feed without its list of
//! plays is refused.

use crate::classify::{classification, normalize_pitch_type};
use crate::counts::{
    categories_in, grand_total, lemma_tally_ignores_order, lemma_tally_pitcher_total,
    lemma_tally_push, pitcher_total, tally, Counts, Pitch,
};
use crate::json::{
    get_flag, get_items, get_member, get_text, json_of, json_seq, member, text_of, Json,
};
use crate::table::AggregationTable;
use serde_json::Value;
use vstd::prelude::*;
use vstd::seq_lib::lemma_multiset_commutative;

verus! {

/// Why a feed cannot be summarized.
#[derive(Debug, Clone, Copy, PartialEq, Eq)]
pub enum FeedError {
    /// The feed has no array at `liveData.plays.allPlays`.
    MissingPlays,
}

/// One step down a path: the member `key` of a document that was found.
pub open spec fn descend(found: Option<Json>, key: Seq<char>) -> Option<Json> {
    match found {
        Some(j) => member(j, key),
        None => None,
    }
}

/// The text at the end of a path, if the path ends in a JSON string.
pub open spec fn text_at(found: Option<Json>) -> Option<Seq<char>> {
    match found {
        Some(j) => text_of(j),
        None => None,
    }
}

/// Whether an event is a pitch: its `isPitch` flag where that is a boolean,
/// else whether it has a member `pitchData` at all.
pub open spec fn event_is_pitch(ev: Json) -> bool {
    match descend(Some(ev), "isPitch"@) {
        Some(Json::Bool(flag)) => flag,
        _ => member(ev, "pitchData"@) is Some,
    }
}

/// The raw label of an event: the description of its type, else its own
/// description, each as the feed gives it; else "unknown".
pub open spec fn raw_label(ev: Json) -> Seq<char> {
    let details = member(ev, "details"@);
    match text_at(descend(descend(details, "type"@), "description"@)) {
        Some(kind) => kind,
        None => match text_at(descend(details, "description"@)) {
            Some(description) => description,
            None => "unknown"@,
        },
    }
}

/// The display name of the pitcher of a play, "Unknown pitcher" where the
/// play gives none.
pub open spec fn pitcher_name(play: Json) -> Seq<char> {
    match text_at(descend(descend(member(play, "matchup"@), "pitcher"@), "fullName"@)) {
        Some(name) => name,
        None => "Unknown pitcher"@,
    }
}

/// The events of a play; none where the play has no array of events.
pub open spec fn play_events(play: Json) -> Seq<Json> {
    match member(play, "playEvents"@) {
        Some(Json::Array(events)) => events,
        _ => Seq::empty(),
    }
}

/// The plays of a feed, where it has them.
pub open spec fn feed_plays(feed: Json) -> Option<Seq<Json>> {
    match descend(descend(member(feed, "liveData"@), "plays"@), "allPlays"@) {
        Some(Json::Array(plays)) => Some(plays),
        _ => None,
    }
}

/// The classified pitch that an event stands for.
pub open spec fn pitch_of(pitcher: Seq<char>, ev: Json) -> Pitch {
    let class = classification(raw_label(ev));
    Pitch { pitcher, category: class.1, name: class.0 }
}

/// The pitches among `events`, in order, all thrown by `pitcher`.
pub open spec fn pitches_among(pitcher: Seq<char>, events: Seq<Json>) -> Seq<Pitch> {
    events.filter(|ev: Json| event_is_pitch(ev)).map_values(|ev: Json| pitch_of(pitcher, ev))
}

/// The pitches of one play.
pub open spec fn play_pitches(play: Json) -> Seq<Pitch> {
    pitches_among(pitcher_name(play), play_events(play))
}

/// The pitches of a sequence of plays, play by play.
pub open spec fn feed_pitches(plays: Seq<Json>) -> Seq<Pitch>
    decreases plays.len(),
{
    if plays.len() == 0 {
        Seq::empty()
    } else {
        feed_pitches(plays.drop_last()) + play_pitches(plays.last())
    }
}

/// The document of a value that may be absent.
pub open spec fn json_opt(v: Option<&Value>) -> Option<Json> {
    match v {
        Some(found) => Some(json_of(*found)),
        None => None,
    }
}

/// Follows one key from a value that may be absent.
pub fn lookup<'a>(found: Option<&'a Value>, key: &str) -> (r: Option<&'a Value>)
    ensures
        json_opt(r) == descend(json_opt(found), key@),
{
    match found {
        Some(v) => get_member(v, key),
        None => None,
    }
}

/// The text of a value that may be absent.
pub fn as_text<'a>(found: Option<&'a Value>) -> (r: Option<&'a str>)
    ensures
        match r {
            Some(s) => text_at(json_opt(found)) == Some(s@),
            None => text_at(json_opt(found)) is None,
        },
{
    match found {
        Some(v) => get_text(v),
        None => None,
    }
}

/// Whether an event is a pitch. An explicit flag decides; without one, the
/// presence of pitch data does.
pub fn is_pitch_event(ev: &Value) -> (b: bool)
    ensures
        b == event_is_pitch(json_of(*ev)),
{
    if let Some(flag) = get_member(ev, "isPitch") {
        if let Some(b) = get_flag(flag) {
            return b;
        }
    }
    get_member(ev, "pitchData").is_some()
}

/// The raw label of an event, unchanged from the feed.
pub fn find_pitch_type(ev: &Value) -> (r: String)
    ensures
        r@ == raw_label(json_of(*ev)),
{
    let details = get_member(ev, "details");
    if let Some(kind) = as_text(lookup(lookup(details, "type"), "description")) {
        return kind.to_owned();
    }
    if let Some(description) = as_text(lookup(details, "description")) {
        return description.to_owned();
    }
    "unknown".to_owned()
}

/// The display name of the pitcher of a play.
pub fn find_pitcher_name(play: &Value) -> (r: String)
    ensures
        r@ == pitcher_name(json_of(*play)),
{
    match as_text(lookup(lookup(get_member(play, "matchup"), "pitcher"), "fullName")) {
        Some(name) => name.to_owned(),
        None => "Unknown pitcher".to_owned(),
    }
}

/// The events of a play, where it has an array of them.
pub fn find_events(play: &Value) -> (r: Option<&Vec<Value>>)
    ensures
        match r {
            Some(events) => play_events(json_of(*play)) == json_seq(events@),
            None => play_events(json_of(*play)) == Seq::<Json>::empty(),
        },
{
    match get_member(play, "playEvents") {
        Some(events) => get_items(events),
        None => None,
    }
}

/// The plays of a feed, where it has them.
pub fn find_plays(feed: &Value) -> (r: Option<&Vec<Value>>)
    ensures
        match r {
            Some(plays) => feed_plays(json_of(*feed)) == Some(json_seq(plays@)),
            None => feed_plays(json_of(*feed)) is None,
        },
{
    match lookup(lookup(get_member(feed, "liveData"), "plays"), "allPlays") {
        Some(plays) => get_items(plays),
        None => None,
    }
}

/// The pitches among one more event.
pub proof fn lemma_pitches_among_next(pitcher: Seq<char>, events: Seq<Json>, n: int)
    requires
        0 <= n < events.len(),
    ensures
        pitches_among(pitcher, events.take(n + 1)) == if event_is_pitch(events[n]) {
            pitches_among(pitcher, events.take(n)).push(pitch_of(pitcher, events[n]))
        } else {
            pitches_among(pitcher, events.take(n))
        },
{
    reveal(Seq::filter);
    let is_pitch = |ev: Json| event_is_pitch(ev);
    let to_pitch = |ev: Json| pitch_of(pitcher, ev);
    assert(events.take(n + 1).drop_last() =~= events.take(n));
    assert(events.take(n + 1).last() == events[n]);
    let kept = events.take(n).filter(is_pitch);
    if event_is_pitch(events[n]) {
        assert(events.take(n + 1).filter(is_pitch) == kept.push(events[n]));
        assert(kept.push(events[n]).map_values(to_pitch) =~= kept.map_values(to_pitch).push(
            pitch_of(pitcher, events[n]),
        ));
    } else {
        assert(events.take(n + 1).filter(is_pitch) == kept);
    }
}

/// There are no pitches among no events.
pub proof fn lemma_pitches_among_none(pitcher: Seq<char>, events: Seq<Json>)
    ensures
        pitches_among(pitcher, events.take(0)) == Seq::<Pitch>::empty(),
        pitches_among(pitcher, Seq::<Json>::empty()) == Seq::<Pitch>::empty(),
{
    reveal(Seq::filter);
    let is_pitch = |ev: Json| event_is_pitch(ev);
    let to_pitch = |ev: Json| pitch_of(pitcher, ev);
    assert(events.take(0) =~= Seq::<Json>::empty());
    assert(Seq::<Json>::empty().filter(is_pitch) =~= Seq::<Json>::empty());
    assert(Seq::<Json>::empty().map_values(to_pitch) =~= Seq::<Pitch>::empty());
}

/// Counts the pitches of `plays`: each event that is a pitch is classified
/// and counted under the pitcher of its play.
pub fn aggregate(plays: &Vec<Value>) -> (table: AggregationTable)
    ensures
        table.wf(),
        table@ == tally(feed_pitches(json_seq(plays@))),
        grand_total(table@) == feed_pitches(json_seq(plays@)).len(),
{
    let ghost docs = json_seq(plays@);
    let mut table = AggregationTable::new();
    let mut i: usize = 0;
    proof {
        assert(docs.take(0) =~= Seq::<Json>::empty());
        assert(feed_pitches(docs.take(0)) =~= Seq::<Pitch>::empty());
    }
    while i < plays.len()
        invariant
            i <= plays@.len(),
            docs == json_seq(plays@),
            table.wf(),
            table@ == tally(feed_pitches(docs.take(i as int))),
            grand_total(table@) == feed_pitches(docs.take(i as int)).len(),
            grand_total(table@) <= i * usize::MAX,
        decreases plays@.len() - i,
    {
        let play = &plays[i];
        let ghost done = feed_pitches(docs.take(i as int));
        let ghost doc = docs[i as int];
        let pitcher = find_pitcher_name(play);
        proof {
            assert(docs.take(i + 1).drop_last() =~= docs.take(i as int));
            assert(docs.take(i + 1).last() == doc);
            assert(doc == json_of(plays@[i as int]));
        }
        match find_events(play) {
            Some(events) => {
                let ghost evs = json_seq(events@);
                let mut j: usize = 0;
                proof {
                    lemma_pitches_among_none(pitcher@, evs);
                    assert(done + Seq::<Pitch>::empty() =~= done);
                }
                while j < events.len()
                    invariant
                        j <= events@.len(),
                        i < plays@.len() <= usize::MAX,
                        evs == json_seq(events@),
                        table.wf(),
                        table@ == tally(done + pitches_among(pitcher@, evs.take(j as int))),
                        grand_total(table@) == (done + pitches_among(
                            pitcher@,
                            evs.take(j as int),
                        )).len(),
                        grand_total(table@) <= i * usize::MAX + j,
                    decreases events@.len() - j,
                {
                    let ev = &events[j];
                    let ghost so_far = pitches_among(pitcher@, evs.take(j as int));
                    proof {
                        lemma_pitches_among_next(pitcher@, evs, j as int);
                        assert(evs[j as int] == json_of(events@[j as int]));
                    }
                    if is_pitch_event(ev) {
                        let raw = find_pitch_type(ev);
                        let class = normalize_pitch_type(raw.as_str());
                        proof {
                            let m = usize::MAX as int;
                            assert(i * m + j < 0x1_0000_0000_0000_0000_0000_0000_0000_0000int)
                                by (nonlinear_arith)
                                requires
                                    0 <= i < m,
                                    0 <= j < m,
                                    m <= 0xffff_ffff_ffff_ffff,
                            ;
                            let pitch = pitch_of(pitcher@, evs[j as int]);
                            lemma_tally_push(done + so_far, pitch);
                            assert(done + so_far.push(pitch) =~= (done + so_far).push(pitch));
                        }
                        table.record(pitcher.as_str(), class.1.as_str(), class.0.as_str());
                    }
                    j += 1;
                }
                proof {
                    assert(evs.take(events@.len() as int) =~= evs);
                    let m = usize::MAX as int;
                    assert(i * m + events@.len() <= (i + 1) * m) by (nonlinear_arith)
                        requires
                            events@.len() <= m,
                    ;
                }
            },
            None => {
                proof {
                    lemma_pitches_among_none(pitcher@, Seq::empty());
                    assert(done + Seq::<Pitch>::empty() =~= done);
                    let m = usize::MAX as int;
                    assert(i * m <= (i + 1) * m) by (nonlinear_arith)
                        requires
                            0 <= m,
                    ;
                }
            },
        }
        i += 1;
    }
    assert(docs.take(plays@.len() as int) =~= docs);
    table
}

/// Counts the pitches of a whole feed. A feed without its list of plays is
/// refused; nothing else is.
pub fn summarize_pitches(feed: &Value) -> (r: Result<AggregationTable, FeedError>)
    ensures
        match r {
            Ok(table) => feed_plays(json_of(*feed)) matches Some(plays) && table.wf() && table@
                == tally(feed_pitches(plays)),
            Err(e) => e == FeedError::MissingPlays && feed_plays(json_of(*feed)) is None,
        },
{
    match find_plays(feed) {
        Some(plays) => Ok(aggregate(plays)),
        None => Err(FeedError::MissingPlays),
    }
}

/// How many events of `plays` are pitches thrown by `pitcher`.
pub open spec fn pitch_events_of(plays: Seq<Json>, pitcher: Seq<char>) -> nat
    decreases plays.len(),
{
    if plays.len() == 0 {
        0
    } else {
        let earlier = pitch_events_of(plays.drop_last(), pitcher);
        if pitcher_name(plays.last()) == pitcher {
            earlier + play_events(plays.last()).filter(|ev: Json| event_is_pitch(ev)).len()
        } else {
            earlier
        }
    }
}

proof fn lemma_one_pitcher(pitches: Seq<Pitch>, thrower: Seq<char>, pitcher: Seq<char>)
    requires
        forall|i: int| 0 <= i < pitches.len() ==> (#[trigger] pitches[i]).pitcher == thrower,
    ensures
        pitches.filter(|p: Pitch| p.pitcher == pitcher).len() == if thrower == pitcher {
            pitches.len()
        } else {
            0
        },
    decreases pitches.len(),
{
    reveal(Seq::filter);
    if pitches.len() > 0 {
        lemma_one_pitcher(pitches.drop_last(), thrower, pitcher);
        assert(pitches.last() == pitches[pitches.len() - 1]);
    }
}

/// The total of a pitcher in the table of a feed is the number of events
/// that are pitches in the plays of that pitcher.
pub proof fn lemma_total_counts_events(plays: Seq<Json>, pitcher: Seq<char>)
    ensures
        pitcher_total(categories_in(tally(feed_pitches(plays)), pitcher)) == pitch_events_of(
            plays,
            pitcher,
        ),
{
    lemma_tally_pitcher_total(feed_pitches(plays), pitcher);
    lemma_thrown_counts_events(plays, pitcher);
}

proof fn lemma_thrown_counts_events(plays: Seq<Json>, pitcher: Seq<char>)
    ensures
        feed_pitches(plays).filter(|p: Pitch| p.pitcher == pitcher).len() == pitch_events_of(
            plays,
            pitcher,
        ),
    decreases plays.len(),
{
    reveal(Seq::filter);
    let thrown = |p: Pitch| p.pitcher == pitcher;
    if plays.len() > 0 {
        let rest = plays.drop_last();
        let last = plays.last();
        lemma_thrown_counts_events(rest, pitcher);
        Seq::filter_distributes_over_add(feed_pitches(rest), play_pitches(last), thrown);
        lemma_one_pitcher(play_pitches(last), pitcher_name(last), pitcher);
    }
}

proof fn lemma_pitches_move(plays: Seq<Json>, at: int)
    requires
        0 <= at < plays.len(),
    ensures
        feed_pitches(plays).to_multiset() == feed_pitches(plays.remove(at)).to_multiset().add(
            play_pitches(plays[at]).to_multiset(),
        ),
    decreases plays.len(),
{
    broadcast use vstd::multiset::group_multiset_axioms;

    let rest = plays.drop_last();
    let last = plays.last();
    lemma_multiset_commutative(feed_pitches(rest), play_pitches(last));
    if at == plays.len() - 1 {
        assert(plays.remove(at) =~= rest);
    } else {
        lemma_pitches_move(rest, at);
        assert(plays.remove(at).drop_last() =~= rest.remove(at));
        assert(plays.remove(at).last() == last);
        lemma_multiset_commutative(feed_pitches(rest.remove(at)), play_pitches(last));
        assert(feed_pitches(plays).to_multiset() =~= feed_pitches(
            plays.remove(at),
        ).to_multiset().add(play_pitches(plays[at]).to_multiset()));
    }
}

/// The table of a feed does not depend on the order of its plays: two
/// sequences that hold the same plays equally often give one table.
pub proof fn lemma_play_order_irrelevant(a: Seq<Json>, b: Seq<Json>)
    requires
        a.to_multiset() == b.to_multiset(),
    ensures
        feed_pitches(a).to_multiset() == feed_pitches(b).to_multiset(),
        tally(feed_pitches(a)) == tally(feed_pitches(b)),
    decreases a.len(),
{
    broadcast use vstd::multiset::group_multiset_axioms;

    a.to_multiset_ensures();
    b.to_multiset_ensures();
    if a.len() == 0 {
        assert(b.len() == 0);
    } else {
        let last = a.last();
        assert(a.contains(last)) by {
            assert(a[a.len() - 1] == last);
        }
        assert(b.to_multiset().count(last) > 0);
        assert(b.contains(last));
        let at = choose|at: int| 0 <= at < b.len() && b[at] == last;
        assert(a.remove(a.len() - 1) =~= a.drop_last());
        assert(a.drop_last().to_multiset() =~= b.remove(at).to_multiset());
        lemma_play_order_irrelevant(a.drop_last(), b.remove(at));
        lemma_pitches_move(b, at);
        lemma_multiset_commutative(feed_pitches(a.drop_last()), play_pitches(last));
        assert(feed_pitches(a).to_multiset() =~= feed_pitches(b).to_multiset());
    }
    lemma_tally_ignores_order(feed_pitches(a), feed_pitches(b));
}

/// The table is a function of the plays: two tables that count the same
/// plays hold the same counts.
pub proof fn lemma_same_plays_same_table(plays: Seq<Json>, first: Counts, second: Counts)
    requires
        first == tally(feed_pitches(plays)),
        second == tally(feed_pitches(plays)),
    ensures
        first == second,
{
}

} // verus!
