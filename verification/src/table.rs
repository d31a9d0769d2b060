//! The pitch table: counts kept per pitcher, category and pitch name, with
//! the subtotals and totals kept up to date as pitches are recorded.

use crate::counts::{
    bump, bump_category, bump_pitch, categories_in, categories_wf, category_totals, count_in,
    counts_wf, grand_total, lemma_grand_total_bump, lemma_nonempty, lemma_pitcher_total_bump,
    lemma_sum_bounds, lemma_sum_bump, lemma_sum_empty, pitcher_total, pitcher_totals, pitches_in,
    pitches_wf, tally_sum, CategoryCounts, Counts, Pitch, PitchCounts,
};
use crate::text::{chars_of, chars_spell};
use vstd::prelude::*;

verus! {

/// No key occurs twice.
pub open spec fn distinct(keys: Seq<Seq<char>>) -> bool {
    forall|i: int, j: int| 0 <= i < j < keys.len() ==> keys[i] != keys[j]
}

/// `keys` lists the members of `dom`, each of them once.
pub open spec fn lists(keys: Seq<Seq<char>>, dom: Set<Seq<char>>) -> bool {
    &&& distinct(keys)
    &&& forall|k: Seq<char>| dom.contains(k) <==> keys.contains(k)
}

/// The texts of a sequence of strings.
pub open spec fn texts(v: Seq<String>) -> Seq<Seq<char>> {
    v.map_values(|s: String| s@)
}

/// The names of a sequence of named counts.
pub open spec fn counted_names(v: Seq<(String, u128)>) -> Seq<Seq<char>> {
    v.map_values(|e: (String, u128)| e.0@)
}

/// The map that takes each key to the value at the same position.
pub open spec fn keyed<V>(keys: Seq<Seq<char>>, vals: Seq<V>) -> Map<Seq<char>, V>
    decreases keys.len(),
{
    if keys.len() == 0 || keys.len() != vals.len() {
        Map::empty()
    } else {
        keyed(keys.drop_last(), vals.drop_last()).insert(keys.last(), vals.last())
    }
}

/// With distinct keys, the map holds exactly the keys, each with its value.
pub proof fn lemma_keyed<V>(keys: Seq<Seq<char>>, vals: Seq<V>)
    requires
        keys.len() == vals.len(),
        distinct(keys),
    ensures
        keyed(keys, vals).dom().finite(),
        forall|k: Seq<char>|
            #![trigger keyed(keys, vals).contains_key(k)]
            #![trigger keys.contains(k)]
            keyed(keys, vals).contains_key(k) <==> keys.contains(k),
        forall|i: int|
            0 <= i < keys.len() ==> keyed(keys, vals).contains_key(#[trigger] keys[i]) && keyed(
                keys,
                vals,
            )[keys[i]] == vals[i],
    decreases keys.len(),
{
    if keys.len() > 0 {
        let k0 = keys.drop_last();
        let v0 = vals.drop_last();
        lemma_keyed(k0, v0);
        let m0 = keyed(k0, v0);
        let m = keyed(keys, vals);
        let last = keys.len() - 1;
        assert forall|k: Seq<char>| m.contains_key(k) <==> keys.contains(k) by {
            if m.contains_key(k) {
                if k == keys.last() {
                    assert(keys[last] == k);
                } else {
                    assert(m0.contains_key(k));
                    assert(k0.contains(k));
                    let j = choose|j: int| 0 <= j < k0.len() && k0[j] == k;
                    assert(keys[j] == k);
                }
            }
            if keys.contains(k) {
                let j = choose|j: int| 0 <= j < keys.len() && keys[j] == k;
                if j < last {
                    assert(k0[j] == k);
                    assert(k0.contains(k));
                }
            }
        }
        assert forall|i: int| 0 <= i < keys.len() implies m.contains_key(#[trigger] keys[i])
            && m[keys[i]] == vals[i] by {
            if i < last {
                assert(k0[i] == keys[i]);
                assert(keys[i] != keys[last]);
                assert(v0[i] == vals[i]);
            }
        }
    }
}

/// Replacing the value at one position replaces the value under its key.
pub proof fn lemma_keyed_update<V>(keys: Seq<Seq<char>>, vals: Seq<V>, at: int, v: V)
    requires
        keys.len() == vals.len(),
        distinct(keys),
        0 <= at < keys.len(),
    ensures
        keyed(keys, vals.update(at, v)) == keyed(keys, vals).insert(keys[at], v),
{
    let before = keyed(keys, vals);
    let after = keyed(keys, vals.update(at, v));
    lemma_keyed(keys, vals);
    lemma_keyed(keys, vals.update(at, v));
    assert forall|k: Seq<char>| #[trigger]
        after.contains_key(k) == before.insert(keys[at], v).contains_key(k) by {
        assert(keys[at] == keys[at]);
    }
    assert forall|k: Seq<char>| after.contains_key(k) implies #[trigger] after[k] == before.insert(
        keys[at],
        v,
    )[k] by {
        let j = choose|j: int| 0 <= j < keys.len() && keys[j] == k;
        assert(after[keys[j]] == vals.update(at, v)[j]);
        assert(before[keys[j]] == vals[j]);
    }
    assert(after =~= before.insert(keys[at], v));
}

/// A key that is not among distinct keys can join them at the end.
pub proof fn lemma_distinct_push(keys: Seq<Seq<char>>, k: Seq<char>)
    requires
        distinct(keys),
        !keys.contains(k),
    ensures
        distinct(keys.push(k)),
{
    assert forall|i: int, j: int| 0 <= i < j < keys.push(k).len() implies keys.push(k)[i]
        != keys.push(k)[j] by {
        if j == keys.len() {
            assert(keys[i] == keys.push(k)[i]);
            assert(keys.contains(keys[i]));
        }
    }
}

/// A new key at the end is a new entry of the map.
pub proof fn lemma_keyed_push<V>(keys: Seq<Seq<char>>, vals: Seq<V>, k: Seq<char>, v: V)
    requires
        keys.len() == vals.len(),
    ensures
        keyed(keys.push(k), vals.push(v)) == keyed(keys, vals).insert(k, v),
{
    assert(keys.push(k).drop_last() =~= keys);
    assert(vals.push(v).drop_last() =~= vals);
}

/// How often one pitch name was thrown.
pub struct PitchTally {
    name: String,
    count: u128,
}

/// The pitches of one category, with their sum.
pub struct CategoryTally {
    label: String,
    subtotal: u128,
    pitches: Vec<PitchTally>,
}

/// The categories of one pitcher, with the pitcher's total.
pub struct PitcherTally {
    name: String,
    total: u128,
    categories: Vec<CategoryTally>,
}

/// Pitch counts by pitcher, category and pitch name.
pub struct AggregationTable {
    pitchers: Vec<PitcherTally>,
    total: u128,
}

spec fn pitch_keys(s: Seq<PitchTally>) -> Seq<Seq<char>> {
    s.map_values(|e: PitchTally| e.name@)
}

spec fn pitch_vals(s: Seq<PitchTally>) -> Seq<nat> {
    s.map_values(|e: PitchTally| e.count as nat)
}

spec fn pitches_view(s: Seq<PitchTally>) -> PitchCounts {
    keyed(pitch_keys(s), pitch_vals(s))
}

spec fn pitches_ok(s: Seq<PitchTally>) -> bool {
    &&& s.len() > 0
    &&& distinct(pitch_keys(s))
    &&& forall|i: int| 0 <= i < s.len() ==> (#[trigger] s[i]).count >= 1
}

proof fn lemma_pitches_ok(s: Seq<PitchTally>)
    requires
        pitches_ok(s),
    ensures
        pitches_wf(pitches_view(s)),
{
    let keys = pitch_keys(s);
    let vals = pitch_vals(s);
    lemma_keyed(keys, vals);
    let m = pitches_view(s);
    assert(m.contains_key(keys[0]));
    lemma_nonempty(m.dom(), keys[0]);
    assert forall|name: Seq<char>| m.contains_key(name) implies #[trigger] m[name] >= 1 by {
        let j = choose|j: int| 0 <= j < keys.len() && keys[j] == name;
        assert(m[keys[j]] == vals[j]);
        assert(s[j].count >= 1);
    }
}

spec fn category_keys(s: Seq<CategoryTally>) -> Seq<Seq<char>> {
    s.map_values(|e: CategoryTally| e.label@)
}

spec fn category_vals(s: Seq<CategoryTally>) -> Seq<PitchCounts> {
    s.map_values(|e: CategoryTally| pitches_view(e.pitches@))
}

spec fn categories_view(s: Seq<CategoryTally>) -> CategoryCounts {
    keyed(category_keys(s), category_vals(s))
}

spec fn category_ok(e: CategoryTally) -> bool {
    &&& pitches_ok(e.pitches@)
    &&& e.subtotal == tally_sum(pitches_view(e.pitches@))
}

spec fn categories_ok(s: Seq<CategoryTally>) -> bool {
    &&& s.len() > 0
    &&& distinct(category_keys(s))
    &&& forall|i: int| 0 <= i < s.len() ==> category_ok(#[trigger] s[i])
}

proof fn lemma_categories_ok(s: Seq<CategoryTally>)
    requires
        categories_ok(s),
    ensures
        categories_wf(categories_view(s)),
{
    let keys = category_keys(s);
    let vals = category_vals(s);
    lemma_keyed(keys, vals);
    let m = categories_view(s);
    assert(m.contains_key(keys[0]));
    lemma_nonempty(m.dom(), keys[0]);
    assert forall|category: Seq<char>| m.contains_key(category) implies pitches_wf(
        #[trigger] m[category],
    ) by {
        let j = choose|j: int| 0 <= j < keys.len() && keys[j] == category;
        assert(m[keys[j]] == vals[j]);
        assert(category_ok(s[j]));
        lemma_pitches_ok(s[j].pitches@);
    }
}

spec fn pitcher_keys(s: Seq<PitcherTally>) -> Seq<Seq<char>> {
    s.map_values(|e: PitcherTally| e.name@)
}

spec fn pitcher_vals(s: Seq<PitcherTally>) -> Seq<CategoryCounts> {
    s.map_values(|e: PitcherTally| categories_view(e.categories@))
}

spec fn pitchers_view(s: Seq<PitcherTally>) -> Counts {
    keyed(pitcher_keys(s), pitcher_vals(s))
}

spec fn pitcher_ok(e: PitcherTally) -> bool {
    &&& categories_ok(e.categories@)
    &&& e.total == pitcher_total(categories_view(e.categories@))
}

spec fn pitchers_ok(s: Seq<PitcherTally>) -> bool {
    &&& distinct(pitcher_keys(s))
    &&& forall|i: int| 0 <= i < s.len() ==> pitcher_ok(#[trigger] s[i])
}

proof fn lemma_pitchers_ok(s: Seq<PitcherTally>)
    requires
        pitchers_ok(s),
    ensures
        counts_wf(pitchers_view(s)),
{
    let keys = pitcher_keys(s);
    let vals = pitcher_vals(s);
    lemma_keyed(keys, vals);
    let m = pitchers_view(s);
    assert forall|pitcher: Seq<char>| m.contains_key(pitcher) implies categories_wf(
        #[trigger] m[pitcher],
    ) by {
        let j = choose|j: int| 0 <= j < keys.len() && keys[j] == pitcher;
        assert(m[keys[j]] == vals[j]);
        assert(pitcher_ok(s[j]));
        lemma_categories_ok(s[j].categories@);
    }
}

fn find_pitch(pitches: &Vec<PitchTally>, name: &Vec<char>) -> (r: Option<usize>)
    ensures
        match r {
            Some(i) => i < pitches@.len() && pitch_keys(pitches@)[i as int] == name@,
            None => !pitch_keys(pitches@).contains(name@),
        },
{
    let mut i: usize = 0;
    while i < pitches.len()
        invariant
            i <= pitches@.len(),
            forall|j: int| 0 <= j < i ==> pitch_keys(pitches@)[j] != name@,
        decreases pitches@.len() - i,
    {
        if chars_spell(name, pitches[i].name.as_str()) {
            return Some(i);
        }
        i += 1;
    }
    None
}

fn find_category(categories: &Vec<CategoryTally>, label: &Vec<char>) -> (r: Option<usize>)
    ensures
        match r {
            Some(i) => i < categories@.len() && category_keys(categories@)[i as int] == label@,
            None => !category_keys(categories@).contains(label@),
        },
{
    let mut i: usize = 0;
    while i < categories.len()
        invariant
            i <= categories@.len(),
            forall|j: int| 0 <= j < i ==> category_keys(categories@)[j] != label@,
        decreases categories@.len() - i,
    {
        if chars_spell(label, categories[i].label.as_str()) {
            return Some(i);
        }
        i += 1;
    }
    None
}

fn find_pitcher(pitchers: &Vec<PitcherTally>, name: &Vec<char>) -> (r: Option<usize>)
    ensures
        match r {
            Some(i) => i < pitchers@.len() && pitcher_keys(pitchers@)[i as int] == name@,
            None => !pitcher_keys(pitchers@).contains(name@),
        },
{
    let mut i: usize = 0;
    while i < pitchers.len()
        invariant
            i <= pitchers@.len(),
            forall|j: int| 0 <= j < i ==> pitcher_keys(pitchers@)[j] != name@,
        decreases pitchers@.len() - i,
    {
        if chars_spell(name, pitchers[i].name.as_str()) {
            return Some(i);
        }
        i += 1;
    }
    None
}

fn one_pitch(name: &str) -> (r: Vec<PitchTally>)
    ensures
        pitches_ok(r@),
        pitches_view(r@) == bump_pitch(Map::empty(), name@),
{
    let mut r: Vec<PitchTally> = Vec::new();
    r.push(PitchTally { name: name.to_owned(), count: 1 });
    proof {
        assert(pitch_keys(r@) =~= Seq::<Seq<char>>::empty().push(name@));
        assert(pitch_vals(r@) =~= Seq::<nat>::empty().push(1nat));
        lemma_keyed_push(Seq::<Seq<char>>::empty(), Seq::<nat>::empty(), name@, 1nat);
    }
    r
}

fn one_category(category: &str, name: &str) -> (r: CategoryTally)
    ensures
        category_ok(r),
        r.label@ == category@,
        pitches_view(r.pitches@) == bump_pitch(Map::empty(), name@),
{
    proof {
        lemma_sum_empty();
        lemma_sum_bump(Map::empty(), name@);
    }
    CategoryTally { label: category.to_owned(), subtotal: 1, pitches: one_pitch(name) }
}

fn bump_pitches(pitches: &mut Vec<PitchTally>, name: &str)
    requires
        pitches_ok(old(pitches)@),
        tally_sum(pitches_view(old(pitches)@)) < u128::MAX,
    ensures
        pitches_ok(final(pitches)@),
        pitches_view(final(pitches)@) == bump_pitch(pitches_view(old(pitches)@), name@),
{
    let ghost before = pitches@;
    let ghost keys = pitch_keys(before);
    let ghost vals = pitch_vals(before);
    proof {
        lemma_keyed(keys, vals);
        lemma_sum_bounds(pitches_view(before), name@);
    }
    let wanted = chars_of(name);
    match find_pitch(pitches, &wanted) {
        Some(i) => {
            assert(pitches_view(before)[keys[i as int]] == vals[i as int]);
            pitches[i].count += 1;
            proof {
                assert(pitch_keys(pitches@) =~= keys);
                assert(pitch_vals(pitches@) =~= vals.update(i as int, vals[i as int] + 1));
                lemma_keyed_update(keys, vals, i as int, vals[i as int] + 1);
            }
        },
        None => {
            pitches.push(PitchTally { name: name.to_owned(), count: 1 });
            proof {
                assert(pitch_keys(pitches@) =~= keys.push(name@));
                assert(pitch_vals(pitches@) =~= vals.push(1nat));
                lemma_keyed_push(keys, vals, name@, 1nat);
                lemma_distinct_push(keys, name@);
            }
        },
    }
}

fn bump_categories(categories: &mut Vec<CategoryTally>, category: &str, name: &str)
    requires
        categories_ok(old(categories)@),
        pitcher_total(categories_view(old(categories)@)) < u128::MAX,
    ensures
        categories_ok(final(categories)@),
        categories_view(final(categories)@) == bump_category(
            categories_view(old(categories)@),
            category@,
            name@,
        ),
{
    let ghost before = categories@;
    let ghost keys = category_keys(before);
    let ghost vals = category_vals(before);
    let ghost view = categories_view(before);
    proof {
        lemma_keyed(keys, vals);
        lemma_categories_ok(before);
        assert(category_totals(view).dom() =~= view.dom());
        lemma_sum_bounds(category_totals(view), category@);
        lemma_pitcher_total_bump(view, category@, name@);
    }
    let wanted = chars_of(category);
    match find_category(categories, &wanted) {
        Some(i) => {
            assert(view[keys[i as int]] == vals[i as int]);
            assert(category_ok(before[i as int]));
            bump_pitches(&mut categories[i].pitches, name);
            categories[i].subtotal += 1;
            proof {
                let grown = bump_pitch(vals[i as int], name@);
                assert(category_keys(categories@) =~= keys);
                assert(category_vals(categories@) =~= vals.update(i as int, grown));
                lemma_keyed_update(keys, vals, i as int, grown);
                assert forall|j: int| 0 <= j < categories@.len() implies category_ok(
                    #[trigger] categories@[j],
                ) by {
                    if j != i {
                        assert(category_ok(before[j]));
                    }
                }
            }
        },
        None => {
            categories.push(one_category(category, name));
            proof {
                let fresh = bump_pitch(Map::empty(), name@);
                assert(category_keys(categories@) =~= keys.push(category@));
                assert(category_vals(categories@) =~= vals.push(fresh));
                lemma_keyed_push(keys, vals, category@, fresh);
                lemma_distinct_push(keys, category@);
                assert forall|j: int| 0 <= j < categories@.len() implies category_ok(
                    #[trigger] categories@[j],
                ) by {
                    if j < before.len() {
                        assert(category_ok(before[j]));
                    }
                }
            }
        },
    }
}

fn one_pitcher(pitcher: &str, category: &str, name: &str) -> (r: PitcherTally)
    ensures
        pitcher_ok(r),
        r.name@ == pitcher@,
        categories_view(r.categories@) == bump_category(Map::empty(), category@, name@),
{
    let mut categories: Vec<CategoryTally> = Vec::new();
    categories.push(one_category(category, name));
    proof {
        let fresh = bump_pitch(Map::empty(), name@);
        assert(category_keys(categories@) =~= Seq::<Seq<char>>::empty().push(category@));
        assert(category_vals(categories@) =~= Seq::<PitchCounts>::empty().push(fresh));
        lemma_keyed_push(Seq::<Seq<char>>::empty(), Seq::<PitchCounts>::empty(), category@, fresh);
        lemma_sum_empty();
        assert(category_totals(Map::<Seq<char>, Map<Seq<char>, nat>>::empty()) =~= Map::<
            Seq<char>,
            nat,
        >::empty());
        lemma_pitcher_total_bump(Map::empty(), category@, name@);
    }
    PitcherTally { name: pitcher.to_owned(), total: 1, categories }
}

fn locate_pitch(pitches: &Vec<PitchTally>, name: &str) -> (r: Option<usize>)
    requires
        pitches_ok(pitches@),
    ensures
        match r {
            Some(i) => i < pitches@.len() && pitches_view(pitches@).contains_key(name@)
                && pitches_view(pitches@)[name@] == pitches@[i as int].count,
            None => !pitches_view(pitches@).contains_key(name@),
        },
{
    proof {
        lemma_keyed(pitch_keys(pitches@), pitch_vals(pitches@));
    }
    let wanted = chars_of(name);
    let r = find_pitch(pitches, &wanted);
    proof {
        if let Some(i) = r {
            assert(pitches_view(pitches@)[pitch_keys(pitches@)[i as int]] == pitch_vals(
                pitches@,
            )[i as int]);
        }
    }
    r
}

fn locate_category(categories: &Vec<CategoryTally>, category: &str) -> (r: Option<usize>)
    requires
        categories_ok(categories@),
    ensures
        match r {
            Some(i) => i < categories@.len() && categories_view(categories@).contains_key(
                category@,
            ) && categories_view(categories@)[category@] == pitches_view(
                categories@[i as int].pitches@,
            ) && category_ok(categories@[i as int]),
            None => !categories_view(categories@).contains_key(category@),
        },
{
    proof {
        lemma_keyed(category_keys(categories@), category_vals(categories@));
    }
    let wanted = chars_of(category);
    let r = find_category(categories, &wanted);
    proof {
        if let Some(i) = r {
            assert(categories_view(categories@)[category_keys(categories@)[i as int]]
                == category_vals(categories@)[i as int]);
        }
    }
    r
}

fn pitch_names(pitches: &Vec<PitchTally>) -> (r: Vec<(String, u128)>)
    requires
        pitches_ok(pitches@),
    ensures
        lists(counted_names(r@), pitches_view(pitches@).dom()),
        forall|i: int|
            0 <= i < r@.len() ==> (#[trigger] r@[i]).1 == pitches_view(pitches@)[r@[i].0@],
{
    let mut r: Vec<(String, u128)> = Vec::new();
    let mut i: usize = 0;
    let ghost keys = pitch_keys(pitches@);
    let ghost vals = pitch_vals(pitches@);
    proof {
        lemma_keyed(keys, vals);
        assert(counted_names(r@) =~= keys.take(0));
    }
    while i < pitches.len()
        invariant
            i <= pitches@.len(),
            keys == pitch_keys(pitches@),
            vals == pitch_vals(pitches@),
            counted_names(r@) == keys.take(i as int),
            r@.len() == i,
            forall|j: int| 0 <= j < i ==> (#[trigger] r@[j]).1 == vals[j],
        decreases pitches@.len() - i,
    {
        r.push((pitches[i].name.clone(), pitches[i].count));
        i += 1;
        proof {
            assert(counted_names(r@) =~= keys.take(i as int));
        }
    }
    proof {
        assert(keys.take(pitches@.len() as int) =~= keys);
        assert forall|j: int| 0 <= j < r@.len() implies (#[trigger] r@[j]).1 == pitches_view(
            pitches@,
        )[r@[j].0@] by {
            assert(counted_names(r@)[j] == keys[j]);
            assert(pitches_view(pitches@)[keys[j]] == vals[j]);
        }
    }
    r
}

fn category_labels(categories: &Vec<CategoryTally>) -> (r: Vec<String>)
    requires
        categories_ok(categories@),
    ensures
        lists(texts(r@), categories_view(categories@).dom()),
{
    let mut r: Vec<String> = Vec::new();
    let mut i: usize = 0;
    let ghost keys = category_keys(categories@);
    proof {
        lemma_keyed(keys, category_vals(categories@));
        assert(texts(r@) =~= keys.take(0));
    }
    while i < categories.len()
        invariant
            i <= categories@.len(),
            keys == category_keys(categories@),
            texts(r@) == keys.take(i as int),
            r@.len() == i,
        decreases categories@.len() - i,
    {
        r.push(categories[i].label.clone());
        i += 1;
        proof {
            assert(texts(r@) =~= keys.take(i as int));
        }
    }
    proof {
        assert(keys.take(categories@.len() as int) =~= keys);
    }
    r
}

/// The view is the counts alone. The totals that the table keeps are not
/// part of it: `wf` says that each of them is the sum of the counts below.
impl View for AggregationTable {
    type V = Counts;

    closed spec fn view(&self) -> Counts {
        pitchers_view(self.pitchers@)
    }
}

impl AggregationTable {
    /// The representation is consistent: no key twice at any level, every
    /// count at least one, and each kept total equal to the sum below it.
    pub closed spec fn wf(&self) -> bool {
        &&& pitchers_ok(self.pitchers@)
        &&& self.total == grand_total(self@)
    }

    /// In a consistent table there are finitely many pitchers, every pitcher
    /// has a category, every category a pitch, and every count is at least
    /// one; the number of pitches fits the counter.
    pub proof fn lemma_wf(&self)
        requires
            self.wf(),
        ensures
            counts_wf(self@),
            grand_total(self@) <= u128::MAX,
    {
        lemma_pitchers_ok(self.pitchers@);
    }

    /// The empty table.
    pub fn new() -> (t: Self)
        ensures
            t.wf(),
            t@ == Map::<Seq<char>, Map<Seq<char>, Map<Seq<char>, nat>>>::empty(),
            grand_total(t@) == 0,
    {
        proof {
            lemma_sum_empty();
            assert(pitcher_totals(Map::<Seq<char>, Map<Seq<char>, Map<Seq<char>, nat>>>::empty())
                =~= Map::<Seq<char>, nat>::empty());
            assert(pitcher_keys(Seq::<PitcherTally>::empty()) =~= Seq::<Seq<char>>::empty());
        }
        AggregationTable { pitchers: Vec::new(), total: 0 }
    }

    /// The number of pitches recorded.
    pub fn total(&self) -> (n: u128)
        requires
            self.wf(),
        ensures
            n == grand_total(self@),
    {
        self.total
    }

    fn locate(&self, pitcher: &str) -> (r: Option<usize>)
        requires
            self.wf(),
        ensures
            match r {
                Some(i) => i < self.pitchers@.len() && self@.contains_key(pitcher@) && self@[pitcher@]
                    == categories_view(self.pitchers@[i as int].categories@) && pitcher_ok(
                    self.pitchers@[i as int],
                ),
                None => !self@.contains_key(pitcher@),
            },
    {
        proof {
            lemma_keyed(pitcher_keys(self.pitchers@), pitcher_vals(self.pitchers@));
        }
        let wanted = chars_of(pitcher);
        let r = find_pitcher(&self.pitchers, &wanted);
        proof {
            if let Some(i) = r {
                assert(self@[pitcher_keys(self.pitchers@)[i as int]] == pitcher_vals(
                    self.pitchers@,
                )[i as int]);
            }
        }
        r
    }

    /// The pitchers in the table, each once, in no particular order.
    pub fn pitchers(&self) -> (r: Vec<String>)
        requires
            self.wf(),
        ensures
            lists(texts(r@), self@.dom()),
    {
        let mut r: Vec<String> = Vec::new();
        let mut i: usize = 0;
        let ghost keys = pitcher_keys(self.pitchers@);
        proof {
            lemma_keyed(keys, pitcher_vals(self.pitchers@));
            assert(texts(r@) =~= keys.take(0));
        }
        while i < self.pitchers.len()
            invariant
                i <= self.pitchers@.len(),
                keys == pitcher_keys(self.pitchers@),
                texts(r@) == keys.take(i as int),
                r@.len() == i,
            decreases self.pitchers@.len() - i,
        {
            r.push(self.pitchers[i].name.clone());
            i += 1;
            proof {
                assert(texts(r@) =~= keys.take(i as int));
            }
        }
        proof {
            assert(keys.take(self.pitchers@.len() as int) =~= keys);
        }
        r
    }

    /// The categories of a pitcher, each once, in no particular order; none
    /// for a pitcher who is not in the table.
    pub fn categories(&self, pitcher: &str) -> (r: Vec<String>)
        requires
            self.wf(),
        ensures
            lists(texts(r@), categories_in(self@, pitcher@).dom()),
    {
        match self.locate(pitcher) {
            Some(i) => category_labels(&self.pitchers[i].categories),
            None => {
                let r: Vec<String> = Vec::new();
                assert forall|k: Seq<char>| !texts(r@).contains(k) by {
                    assert(texts(r@).len() == 0);
                }
                r
            },
        }
    }

    /// The pitch names of one category of a pitcher with their counts, each
    /// name once, in no particular order.
    pub fn pitches(&self, pitcher: &str, category: &str) -> (r: Vec<(String, u128)>)
        requires
            self.wf(),
        ensures
            lists(counted_names(r@), pitches_in(categories_in(self@, pitcher@), category@).dom()),
            forall|i: int|
                0 <= i < r@.len() ==> (#[trigger] r@[i]).1 == pitches_in(
                    categories_in(self@, pitcher@),
                    category@,
                )[r@[i].0@],
    {
        if let Some(i) = self.locate(pitcher) {
            if let Some(j) = locate_category(&self.pitchers[i].categories, category) {
                return pitch_names(&self.pitchers[i].categories[j].pitches);
            }
        }
        let r: Vec<(String, u128)> = Vec::new();
        assert forall|k: Seq<char>| !counted_names(r@).contains(k) by {
            assert(counted_names(r@).len() == 0);
        }
        r
    }

    /// All pitches of a pitcher; zero for a pitcher who is not in the table.
    pub fn pitcher_total(&self, pitcher: &str) -> (n: u128)
        requires
            self.wf(),
        ensures
            n == pitcher_total(categories_in(self@, pitcher@)),
    {
        match self.locate(pitcher) {
            Some(i) => self.pitchers[i].total,
            None => {
                proof {
                    lemma_sum_empty();
                    assert(category_totals(Map::<Seq<char>, Map<Seq<char>, nat>>::empty()) =~= Map::<
                        Seq<char>,
                        nat,
                    >::empty());
                }
                0
            },
        }
    }

    /// All pitches of one category of a pitcher; zero where there are none.
    pub fn category_total(&self, pitcher: &str, category: &str) -> (n: u128)
        requires
            self.wf(),
        ensures
            n == tally_sum(pitches_in(categories_in(self@, pitcher@), category@)),
    {
        if let Some(i) = self.locate(pitcher) {
            if let Some(j) = locate_category(&self.pitchers[i].categories, category) {
                return self.pitchers[i].categories[j].subtotal;
            }
        }
        proof {
            lemma_sum_empty();
        }
        0
    }

    /// How often a pitcher threw the pitch of the given category and name.
    pub fn count(&self, pitcher: &str, category: &str, name: &str) -> (n: u128)
        requires
            self.wf(),
        ensures
            n == count_in(pitches_in(categories_in(self@, pitcher@), category@), name@),
    {
        if let Some(i) = self.locate(pitcher) {
            if let Some(j) = locate_category(&self.pitchers[i].categories, category) {
                if let Some(k) = locate_pitch(&self.pitchers[i].categories[j].pitches, name) {
                    return self.pitchers[i].categories[j].pitches[k].count;
                }
            }
        }
        0
    }

    /// Counts one more pitch of the given pitcher, category and name.
    pub fn record(&mut self, pitcher: &str, category: &str, name: &str)
        requires
            old(self).wf(),
            grand_total(old(self)@) < u128::MAX,
        ensures
            final(self).wf(),
            final(self)@ == bump(
                old(self)@,
                Pitch { pitcher: pitcher@, category: category@, name: name@ },
            ),
            grand_total(final(self)@) == grand_total(old(self)@) + 1,
    {
        let ghost before = self.pitchers@;
        let ghost keys = pitcher_keys(before);
        let ghost vals = pitcher_vals(before);
        let ghost view = pitchers_view(before);
        let ghost pitch = Pitch { pitcher: pitcher@, category: category@, name: name@ };
        proof {
            lemma_keyed(keys, vals);
            lemma_pitchers_ok(before);
            assert(pitcher_totals(view).dom() =~= view.dom());
            lemma_sum_bounds(pitcher_totals(view), pitcher@);
            lemma_grand_total_bump(view, pitch);
        }
        let wanted = chars_of(pitcher);
        match find_pitcher(&self.pitchers, &wanted) {
            Some(i) => {
                assert(view[keys[i as int]] == vals[i as int]);
                assert(pitcher_ok(before[i as int]));
                bump_categories(&mut self.pitchers[i].categories, category, name);
                self.pitchers[i].total += 1;
                proof {
                    let grown = bump_category(vals[i as int], category@, name@);
                    lemma_pitcher_total_bump(vals[i as int], category@, name@);
                    assert(pitcher_keys(self.pitchers@) =~= keys);
                    assert(pitcher_vals(self.pitchers@) =~= vals.update(i as int, grown));
                    lemma_keyed_update(keys, vals, i as int, grown);
                    assert forall|j: int| 0 <= j < self.pitchers@.len() implies pitcher_ok(
                        #[trigger] self.pitchers@[j],
                    ) by {
                        if j != i {
                            assert(pitcher_ok(before[j]));
                        }
                    }
                }
            },
            None => {
                self.pitchers.push(one_pitcher(pitcher, category, name));
                proof {
                    let fresh = bump_category(Map::empty(), category@, name@);
                    assert(pitcher_keys(self.pitchers@) =~= keys.push(pitcher@));
                    assert(pitcher_vals(self.pitchers@) =~= vals.push(fresh));
                    lemma_keyed_push(keys, vals, pitcher@, fresh);
                    lemma_distinct_push(keys, pitcher@);
                    assert forall|j: int| 0 <= j < self.pitchers@.len() implies pitcher_ok(
                        #[trigger] self.pitchers@[j],
                    ) by {
                        if j < before.len() {
                            assert(pitcher_ok(before[j]));
                        }
                    }
                }
            },
        }
        self.total += 1;
    }
}

} // verus!
