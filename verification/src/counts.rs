//! The mathematical model of a pitch table: pitcher, then category, then
//! pitch name, then count; with the totals that a report shows.

use vstd::multiset::Multiset;
use vstd::prelude::*;

verus! {

/// Pitch name to count, within one category of one pitcher.
pub type PitchCounts = Map<Seq<char>, nat>;

/// Category to its pitch counts, for one pitcher.
pub type CategoryCounts = Map<Seq<char>, Map<Seq<char>, nat>>;

/// Pitcher to category to pitch name to count.
pub type Counts = Map<Seq<char>, Map<Seq<char>, Map<Seq<char>, nat>>>;

/// One classified pitch: who threw it and what it was.
pub struct Pitch {
    pub pitcher: Seq<char>,
    pub category: Seq<char>,
    pub name: Seq<char>,
}

/// The sum of the counts in `m`: the size of the multiset that holds each key
/// as often as `m` says.
pub open spec fn tally_sum(m: Map<Seq<char>, nat>) -> nat {
    Multiset::from_map(m).len()
}

/// The count under `key`, zero for a key that is absent.
pub open spec fn count_in(m: Map<Seq<char>, nat>, key: Seq<char>) -> nat {
    if m.contains_key(key) {
        m[key]
    } else {
        0
    }
}

/// The pitch counts of a category, empty for a category that is absent.
pub open spec fn pitches_in(c: CategoryCounts, category: Seq<char>) -> PitchCounts {
    if c.contains_key(category) {
        c[category]
    } else {
        Map::empty()
    }
}

/// The categories of a pitcher, empty for a pitcher who is absent.
pub open spec fn categories_in(t: Counts, pitcher: Seq<char>) -> CategoryCounts {
    if t.contains_key(pitcher) {
        t[pitcher]
    } else {
        Map::empty()
    }
}

/// The subtotal of each category of one pitcher.
pub open spec fn category_totals(c: CategoryCounts) -> Map<Seq<char>, nat> {
    c.map_values(|p: Map<Seq<char>, nat>| tally_sum(p))
}

/// All pitches of one pitcher: the sum of the category subtotals.
pub open spec fn pitcher_total(c: CategoryCounts) -> nat {
    tally_sum(category_totals(c))
}

/// The total of each pitcher.
pub open spec fn pitcher_totals(t: Counts) -> Map<Seq<char>, nat> {
    t.map_values(|c: Map<Seq<char>, Map<Seq<char>, nat>>| pitcher_total(c))
}

/// All pitches in the table.
pub open spec fn grand_total(t: Counts) -> nat {
    tally_sum(pitcher_totals(t))
}

/// `p` with one more pitch called `name`.
pub open spec fn bump_pitch(p: PitchCounts, name: Seq<char>) -> PitchCounts {
    p.insert(name, count_in(p, name) + 1)
}

/// `c` with one more pitch of the given category and name.
pub open spec fn bump_category(c: CategoryCounts, category: Seq<char>, name: Seq<char>) -> CategoryCounts {
    c.insert(category, bump_pitch(pitches_in(c, category), name))
}

/// `t` with one more pitch: the entry of the pitch is created at each level
/// where it is missing, and its count goes up by one.
pub open spec fn bump(t: Counts, pitch: Pitch) -> Counts {
    t.insert(pitch.pitcher, bump_category(categories_in(t, pitch.pitcher), pitch.category, pitch.name))
}

/// The table that counts the pitches of `pitches`, taken one by one.
pub open spec fn tally(pitches: Seq<Pitch>) -> Counts
    decreases pitches.len(),
{
    if pitches.len() == 0 {
        Map::empty()
    } else {
        bump(tally(pitches.drop_last()), pitches.last())
    }
}

/// Finitely many pitch names, each thrown at least once.
pub open spec fn pitches_wf(p: PitchCounts) -> bool {
    &&& p.dom().finite()
    &&& p.dom().len() > 0
    &&& forall|name: Seq<char>| p.contains_key(name) ==> #[trigger] p[name] >= 1
}

/// Finitely many categories, none of them empty.
pub open spec fn categories_wf(c: CategoryCounts) -> bool {
    &&& c.dom().finite()
    &&& c.dom().len() > 0
    &&& forall|category: Seq<char>| c.contains_key(category) ==> pitches_wf(#[trigger] c[category])
}

/// Finitely many pitchers, each with at least one pitch, and every count at
/// least one.
pub open spec fn counts_wf(t: Counts) -> bool {
    &&& t.dom().finite()
    &&& forall|pitcher: Seq<char>| t.contains_key(pitcher) ==> categories_wf(#[trigger] t[pitcher])
}

/// Nothing sums to nothing.
pub proof fn lemma_sum_empty()
    ensures
        tally_sum(Map::<Seq<char>, nat>::empty()) == 0,
{
    broadcast use vstd::multiset::group_multiset_axioms;

    assert(Multiset::from_map(Map::<Seq<char>, nat>::empty()) =~= Multiset::<Seq<char>>::empty());
}

/// Raising one count by one raises the sum by one.
pub proof fn lemma_sum_bump(m: Map<Seq<char>, nat>, key: Seq<char>)
    requires
        m.dom().finite(),
    ensures
        tally_sum(m.insert(key, count_in(m, key) + 1)) == tally_sum(m) + 1,
        m.insert(key, count_in(m, key) + 1).dom().finite(),
{
    broadcast use vstd::multiset::group_multiset_axioms;
    broadcast use vstd::multiset::group_multiset_properties;

    let after = m.insert(key, count_in(m, key) + 1);
    assert(after.dom() =~= m.dom().insert(key));
    assert forall|k: Seq<char>|
        Multiset::from_map(after).count(k) == Multiset::from_map(m).insert(key).count(k) by {
        if k == key {
            assert(after.dom().contains(k));
        } else if m.dom().contains(k) {
            assert(after.dom().contains(k));
        } else {
            assert(!after.dom().contains(k));
        }
    }
    assert(Multiset::from_map(after) =~= Multiset::from_map(m).insert(key));
}

/// No count is larger than the sum.
pub proof fn lemma_sum_bounds(m: Map<Seq<char>, nat>, key: Seq<char>)
    requires
        m.dom().finite(),
    ensures
        count_in(m, key) <= tally_sum(m),
{
    broadcast use vstd::multiset::group_multiset_axioms;

    if m.contains_key(key) {
        let held = Multiset::from_map(m);
        assert(m.dom().contains(key));
        assert(held.count(key) == m[key]);
        assert(held.count(key) <= held.len());
    }
}

/// One more pitch for a pitcher raises that pitcher's total by one and keeps
/// the categories well formed.
pub proof fn lemma_pitcher_total_bump(c: CategoryCounts, category: Seq<char>, name: Seq<char>)
    requires
        c.dom().finite(),
        forall|k: Seq<char>| c.contains_key(k) ==> pitches_wf(#[trigger] c[k]),
    ensures
        pitcher_total(bump_category(c, category, name)) == pitcher_total(c) + 1,
        categories_wf(bump_category(c, category, name)),
        tally_sum(bump_pitch(pitches_in(c, category), name)) == tally_sum(pitches_in(c, category)) + 1,
{
    let before = pitches_in(c, category);
    let after = bump_pitch(before, name);
    lemma_sum_empty();
    lemma_sum_bump(before, name);
    let totals = category_totals(c);
    assert(totals.dom() =~= c.dom());
    assert(count_in(totals, category) == tally_sum(before));
    lemma_sum_bump(totals, category);
    assert(category_totals(bump_category(c, category, name)) =~= totals.insert(
        category,
        count_in(totals, category) + 1,
    ));
    assert(bump_category(c, category, name).dom() =~= c.dom().insert(category));
    assert(after.dom() =~= before.dom().insert(name));
    assert(after.contains_key(name));
    assert(bump_category(c, category, name).contains_key(category));
    lemma_nonempty(after.dom(), name);
    lemma_nonempty(bump_category(c, category, name).dom(), category);
}

/// A finite set with a member has a positive size.
pub proof fn lemma_nonempty(s: Set<Seq<char>>, member: Seq<char>)
    requires
        s.finite(),
        s.contains(member),
    ensures
        s.len() > 0,
{
    if s.len() == 0 {
        assert(s =~= Set::empty()) by {
            s.lemma_len0_is_empty();
        }
    }
}

/// One more pitch raises the grand total by one and keeps the table well
/// formed.
pub proof fn lemma_grand_total_bump(t: Counts, pitch: Pitch)
    requires
        counts_wf(t),
    ensures
        grand_total(bump(t, pitch)) == grand_total(t) + 1,
        counts_wf(bump(t, pitch)),
        pitcher_total(bump(t, pitch)[pitch.pitcher]) == pitcher_total(categories_in(t, pitch.pitcher)) + 1,
{
    let before = categories_in(t, pitch.pitcher);
    lemma_sum_empty();
    lemma_pitcher_total_bump(before, pitch.category, pitch.name);
    let totals = pitcher_totals(t);
    assert(totals.dom() =~= t.dom());
    assert(category_totals(Map::<Seq<char>, Map<Seq<char>, nat>>::empty()) =~= Map::<
        Seq<char>,
        nat,
    >::empty());
    assert(count_in(totals, pitch.pitcher) == pitcher_total(before));
    lemma_sum_bump(totals, pitch.pitcher);
    assert(pitcher_totals(bump(t, pitch)) =~= totals.insert(
        pitch.pitcher,
        count_in(totals, pitch.pitcher) + 1,
    ));
    assert(bump(t, pitch).dom() =~= t.dom().insert(pitch.pitcher));
}

/// Counting one more pitch is one more step of the tally.
pub proof fn lemma_tally_push(pitches: Seq<Pitch>, pitch: Pitch)
    ensures
        tally(pitches.push(pitch)) == bump(tally(pitches), pitch),
{
    assert(pitches.push(pitch).drop_last() =~= pitches);
}

/// A tally is well formed and holds as many pitches as were counted.
pub proof fn lemma_tally_total(pitches: Seq<Pitch>)
    ensures
        counts_wf(tally(pitches)),
        grand_total(tally(pitches)) == pitches.len(),
    decreases pitches.len(),
{
    if pitches.len() == 0 {
        lemma_sum_empty();
        assert(pitcher_totals(Map::<Seq<char>, Map<Seq<char>, Map<Seq<char>, nat>>>::empty())
            =~= Map::<Seq<char>, nat>::empty());
    } else {
        lemma_tally_total(pitches.drop_last());
        lemma_grand_total_bump(tally(pitches.drop_last()), pitches.last());
    }
}

/// The total of a pitcher in a tally is the number of counted pitches that
/// this pitcher threw, wherever they stand in the sequence.
pub proof fn lemma_tally_pitcher_total(pitches: Seq<Pitch>, pitcher: Seq<char>)
    ensures
        pitcher_total(categories_in(tally(pitches), pitcher)) == pitches.filter(
            |p: Pitch| p.pitcher == pitcher,
        ).len(),
    decreases pitches.len(),
{
    reveal(Seq::filter);
    let thrown = |p: Pitch| p.pitcher == pitcher;
    if pitches.len() == 0 {
        lemma_sum_empty();
        assert(category_totals(Map::<Seq<char>, Map<Seq<char>, nat>>::empty()) =~= Map::<
            Seq<char>,
            nat,
        >::empty());
    } else {
        let rest = pitches.drop_last();
        let last = pitches.last();
        lemma_tally_pitcher_total(rest, pitcher);
        lemma_tally_total(rest);
        lemma_grand_total_bump(tally(rest), last);
        if last.pitcher == pitcher {
            assert(pitches.filter(thrown) == rest.filter(thrown).push(last));
        } else {
            assert(pitches.filter(thrown) == rest.filter(thrown));
            assert(categories_in(tally(pitches), pitcher) == categories_in(tally(rest), pitcher));
        }
    }
}

/// Two pitches can be counted in either order.
pub proof fn lemma_bump_commutes(t: Counts, x: Pitch, y: Pitch)
    ensures
        bump(bump(t, x), y) == bump(bump(t, y), x),
{
    let xy = bump(bump(t, x), y);
    let yx = bump(bump(t, y), x);
    assert(xy.dom() =~= yx.dom());
    assert forall|p: Seq<char>| xy.contains_key(p) implies #[trigger] xy[p] == yx[p] by {
        let a = xy[p];
        let b = yx[p];
        assert(a.dom() =~= b.dom());
        assert forall|c: Seq<char>| a.contains_key(c) implies #[trigger] a[c] == b[c] by {
            assert(a[c] =~= b[c]);
        }
        assert(a =~= b);
    }
    assert(xy =~= yx);
}

/// A pitch counted anywhere in the sequence may as well be counted last.
pub proof fn lemma_tally_move(pitches: Seq<Pitch>, at: int)
    requires
        0 <= at < pitches.len(),
    ensures
        tally(pitches) == bump(tally(pitches.remove(at)), pitches[at]),
    decreases pitches.len(),
{
    let rest = pitches.drop_last();
    let last = pitches.last();
    if at == pitches.len() - 1 {
        assert(pitches.remove(at) =~= rest);
    } else {
        lemma_tally_move(rest, at);
        lemma_bump_commutes(tally(rest.remove(at)), pitches[at], last);
        assert(pitches.remove(at) =~= rest.remove(at).push(last));
        lemma_tally_push(rest.remove(at), last);
    }
}

/// The tally does not depend on the order in which the pitches are counted:
/// two sequences that hold the same pitches equally often give one table.
pub proof fn lemma_tally_ignores_order(a: Seq<Pitch>, b: Seq<Pitch>)
    requires
        a.to_multiset() == b.to_multiset(),
    ensures
        tally(a) == tally(b),
    decreases a.len(),
{
    broadcast use vstd::multiset::group_multiset_axioms;

    a.to_multiset_ensures();
    b.to_multiset_ensures();
    if a.len() == 0 {
        assert(b.len() == 0);
    } else {
        let last = a.last();
        assert(a.contains(last)) by {
            assert(a[a.len() - 1] == last);
        }
        assert(b.to_multiset().count(last) > 0);
        assert(b.contains(last));
        let at = choose|at: int| 0 <= at < b.len() && b[at] == last;
        assert(a.remove(a.len() - 1) =~= a.drop_last());
        assert(a.drop_last().to_multiset() =~= b.remove(at).to_multiset());
        lemma_tally_ignores_order(a.drop_last(), b.remove(at));
        lemma_tally_move(b, at);
    }
}

} // verus!
