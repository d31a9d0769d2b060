//! The report of a pitch table: pitchers by name, each with the categories in
//! display order and, within a category, the pitches from the most thrown to
//! the least.

use crate::counts::{
    categories_in, pitcher_total, pitches_in, tally_sum, CategoryCounts, Counts, PitchCounts,
};
use crate::table::{counted_names, distinct, texts, AggregationTable};
use crate::text::{
    lemma_precedes_irreflexive, lemma_precedes_total, lemma_precedes_transitive, precedes,
    same_text, text_precedes,
};
use vstd::prelude::*;

verus! {

/// One pitch name of a category and how often it was thrown.
pub struct PitchLine {
    pub name: String,
    pub count: u128,
}

/// One category of a pitcher: its label, its subtotal and its pitches.
pub struct CategoryBlock {
    pub label: String,
    pub subtotal: u128,
    pub pitches: Vec<PitchLine>,
}

/// One pitcher: the name, the total and the categories.
pub struct PitcherBlock {
    pub name: String,
    pub total: u128,
    pub categories: Vec<CategoryBlock>,
}

/// The place of a category in the display order: "heater", "breaking ball"
/// and "offspeed" come first, in this order; all others share the last place.
pub open spec fn category_rank(label: Seq<char>) -> int {
    if label == "heater"@ {
        0
    } else if label == "breaking ball"@ {
        1
    } else if label == "offspeed"@ {
        2
    } else {
        3
    }
}

/// Whether category `a` is shown before category `b`: by place, then by
/// label.
pub open spec fn category_before(a: Seq<char>, b: Seq<char>) -> bool {
    category_rank(a) < category_rank(b) || (category_rank(a) == category_rank(b) && precedes(a, b))
}

/// Whether line `a` is shown before line `b`: the larger count first, equal
/// counts by name.
pub open spec fn line_before(a: PitchLine, b: PitchLine) -> bool {
    a.count > b.count || (a.count == b.count && precedes(a.name@, b.name@))
}

/// `lines` shows the counts `m`: every name of `m` on one line with its
/// count, in display order.
pub open spec fn lists_pitches(lines: Seq<PitchLine>, m: PitchCounts) -> bool {
    &&& forall|i: int, j: int| 0 <= i < j < lines.len() ==> line_before(lines[i], lines[j])
    &&& forall|i: int|
        0 <= i < lines.len() ==> m.contains_key((#[trigger] lines[i]).name@) && m[lines[i].name@]
            == lines[i].count
    &&& forall|name: Seq<char>| #[trigger]
        m.contains_key(name) ==> exists|i: int| 0 <= i < lines.len() && lines[i].name@ == name
}

/// `block` shows one category with the counts `m`.
pub open spec fn shows_category(block: CategoryBlock, m: PitchCounts) -> bool {
    &&& block.subtotal == tally_sum(m)
    &&& lists_pitches(block.pitches@, m)
}

/// `blocks` shows the categories `c` of one pitcher, each once, in display
/// order.
pub open spec fn lists_categories(blocks: Seq<CategoryBlock>, c: CategoryCounts) -> bool {
    &&& forall|i: int, j: int|
        0 <= i < j < blocks.len() ==> category_before(blocks[i].label@, blocks[j].label@)
    &&& forall|i: int|
        0 <= i < blocks.len() ==> c.contains_key((#[trigger] blocks[i]).label@) && shows_category(
            blocks[i],
            c[blocks[i].label@],
        )
    &&& forall|label: Seq<char>| #[trigger]
        c.contains_key(label) ==> exists|i: int| 0 <= i < blocks.len() && blocks[i].label@ == label
}

/// `block` shows one pitcher with the categories `c`.
pub open spec fn shows_pitcher(block: PitcherBlock, c: CategoryCounts) -> bool {
    &&& block.total == pitcher_total(c)
    &&& lists_categories(block.categories@, c)
}

/// `blocks` is the report of the table `t`: every pitcher once, by name in
/// ascending order, each shown in full.
pub open spec fn is_report(blocks: Seq<PitcherBlock>, t: Counts) -> bool {
    &&& forall|i: int, j: int|
        0 <= i < j < blocks.len() ==> precedes(blocks[i].name@, blocks[j].name@)
    &&& forall|i: int|
        0 <= i < blocks.len() ==> t.contains_key((#[trigger] blocks[i]).name@) && shows_pitcher(
            blocks[i],
            t[blocks[i].name@],
        )
    &&& forall|pitcher: Seq<char>| #[trigger]
        t.contains_key(pitcher) ==> exists|i: int| 0 <= i < blocks.len() && blocks[i].name@
            == pitcher
}

/// What the items of a report are ordered by: place, count, text.
struct Entry {
    rank: u8,
    weight: u128,
    text: String,
}

spec fn before(a: Entry, b: Entry) -> bool {
    a.rank < b.rank || (a.rank == b.rank && (a.weight > b.weight || (a.weight == b.weight
        && precedes(a.text@, b.text@))))
}

spec fn ascending(s: Seq<Entry>) -> bool {
    forall|i: int, j: int| 0 <= i < j < s.len() ==> before(s[i], s[j])
}

spec fn entry_texts(s: Seq<Entry>) -> Seq<Seq<char>> {
    s.map_values(|e: Entry| e.text@)
}

proof fn lemma_before_transitive(a: Entry, b: Entry, c: Entry)
    requires
        before(a, b),
        before(b, c),
    ensures
        before(a, c),
{
    if a.rank == b.rank && b.rank == c.rank && a.weight == b.weight && b.weight == c.weight {
        lemma_precedes_transitive(a.text@, b.text@, c.text@);
    }
}

proof fn lemma_before_total(a: Entry, b: Entry)
    requires
        a.text@ != b.text@,
    ensures
        before(a, b) || before(b, a),
{
    lemma_precedes_total(a.text@, b.text@);
}

fn entry_before(a: &Entry, b: &Entry) -> (r: bool)
    ensures
        r == before(*a, *b),
{
    if a.rank != b.rank {
        a.rank < b.rank
    } else if a.weight != b.weight {
        a.weight > b.weight
    } else {
        text_precedes(a.text.as_str(), b.text.as_str())
    }
}

/// Sorts entries with distinct texts into ascending order.
fn sort_entries(v: Vec<Entry>) -> (r: Vec<Entry>)
    requires
        distinct(entry_texts(v@)),
    ensures
        ascending(r@),
        r@.len() == v@.len(),
        forall|e: Entry| r@.contains(e) <==> v@.contains(e),
{
    let ghost given = v@;
    let mut rest = v;
    let mut out: Vec<Entry> = Vec::new();
    while rest.len() > 0
        invariant
            ascending(out@),
            distinct(entry_texts(rest@)),
            out@.len() + rest@.len() == given.len(),
            forall|i: int, j: int|
                0 <= i < out@.len() && 0 <= j < rest@.len() ==> (#[trigger] out@[i]).text@
                    != (#[trigger] rest@[j]).text@,
            forall|e: Entry| given.contains(e) <==> (out@.contains(e) || rest@.contains(e)),
        decreases rest@.len(),
    {
        let ghost old_rest = rest@;
        let ghost old_out = out@;
        let ghost last = old_rest.len() - 1;
        let x = rest.pop().unwrap();
        assert(x == old_rest[last]);
        let mut p: usize = 0;
        while p < out.len() && entry_before(&out[p], &x)
            invariant
                p <= out@.len(),
                out@ == old_out,
                forall|q: int| 0 <= q < p ==> before(#[trigger] out@[q], x),
            decreases out@.len() - p,
        {
            p += 1;
        }
        out.insert(p, x);
        proof {
            let new_out = out@;
            let new_rest = rest@;
            assert(new_out == old_out.insert(p as int, x));
            assert(new_rest =~= old_rest.take(last));
            assert forall|q: int| p <= q < old_out.len() implies before(x, #[trigger] old_out[q]) by {
                assert(entry_texts(old_rest)[last] == x.text@);
                assert(old_out[p as int].text@ != old_rest[last].text@);
                lemma_before_total(x, old_out[p as int]);
                if q > p {
                    lemma_before_transitive(x, old_out[p as int], old_out[q]);
                }
            }
            assert forall|i: int, j: int| 0 <= i < j < new_out.len() implies before(
                new_out[i],
                new_out[j],
            ) by {
                if j < p {
                    assert(before(old_out[i], old_out[j]));
                } else if j == p {
                    assert(before(old_out[i], x));
                } else if i < p {
                    assert(before(old_out[i], old_out[j - 1]));
                } else if i == p {
                    assert(before(x, old_out[j - 1]));
                } else {
                    assert(before(old_out[i - 1], old_out[j - 1]));
                }
            }
            assert forall|i: int, j: int| 0 <= i < j < entry_texts(new_rest).len() implies entry_texts(
                new_rest,
            )[i] != entry_texts(new_rest)[j] by {
                assert(entry_texts(old_rest)[i] != entry_texts(old_rest)[j]);
            }
            assert forall|i: int, j: int|
                0 <= i < new_out.len() && 0 <= j < new_rest.len() implies (#[trigger] new_out[i]).text@
                != (#[trigger] new_rest[j]).text@ by {
                if i < p {
                    assert(old_out[i].text@ != old_rest[j].text@);
                } else if i == p {
                    assert(entry_texts(old_rest)[j] != entry_texts(old_rest)[last]);
                } else {
                    assert(old_out[i - 1].text@ != old_rest[j].text@);
                }
            }
            assert forall|e: Entry| given.contains(e) <==> (new_out.contains(e)
                || new_rest.contains(e)) by {
                if old_out.contains(e) {
                    let k = choose|k: int| 0 <= k < old_out.len() && old_out[k] == e;
                    if k < p {
                        assert(new_out[k] == e);
                    } else {
                        assert(new_out[k + 1] == e);
                    }
                }
                if old_rest.contains(e) {
                    let k = choose|k: int| 0 <= k < old_rest.len() && old_rest[k] == e;
                    if k == last {
                        assert(new_out[p as int] == e);
                    } else {
                        assert(new_rest[k] == e);
                    }
                }
                if new_out.contains(e) {
                    let k = choose|k: int| 0 <= k < new_out.len() && new_out[k] == e;
                    if k < p {
                        assert(old_out[k] == e);
                    } else if k == p {
                        assert(old_rest[last] == e);
                    } else {
                        assert(old_out[k - 1] == e);
                    }
                }
                if new_rest.contains(e) {
                    let k = choose|k: int| 0 <= k < new_rest.len() && new_rest[k] == e;
                    assert(old_rest[k] == e);
                }
            }
        }
    }
    proof {
        assert forall|e: Entry| out@.contains(e) <==> given.contains(e) by {
            if rest@.contains(e) {
                let k = choose|k: int| 0 <= k < rest@.len() && rest@[k] == e;
            }
        }
    }
    out
}

/// Whether an entry has the given place and weight.
spec fn weighs(e: Entry, rank: int, weight: int) -> bool {
    e.rank == rank && e.weight == weight
}

/// Every sorted entry is one of the given ones.
proof fn lemma_sorted_member(given: Seq<Entry>, sorted: Seq<Entry>, i: int) -> (j: int)
    requires
        forall|e: Entry| sorted.contains(e) <==> given.contains(e),
        0 <= i < sorted.len(),
    ensures
        0 <= j < given.len(),
        given[j] == sorted[i],
{
    assert(sorted.contains(sorted[i]));
    assert(given.contains(sorted[i]));
    choose|j: int| 0 <= j < given.len() && given[j] == sorted[i]
}

/// Every given entry is one of the sorted ones.
proof fn lemma_given_member(given: Seq<Entry>, sorted: Seq<Entry>, j: int) -> (i: int)
    requires
        forall|e: Entry| sorted.contains(e) <==> given.contains(e),
        0 <= j < given.len(),
    ensures
        0 <= i < sorted.len(),
        sorted[i] == given[j],
{
    assert(given.contains(given[j]));
    assert(sorted.contains(given[j]));
    choose|i: int| 0 <= i < sorted.len() && sorted[i] == given[j]
}

/// The place of a category in the display order.
pub fn rank_of(label: &str) -> (r: u8)
    ensures
        r == category_rank(label@),
{
    if same_text(label, "heater") {
        0
    } else if same_text(label, "breaking ball") {
        1
    } else if same_text(label, "offspeed") {
        2
    } else {
        3
    }
}

/// The lines of one category of a pitcher.
fn render_pitches(table: &AggregationTable, pitcher: &str, category: &str) -> (lines: Vec<PitchLine>)
    requires
        table.wf(),
    ensures
        lists_pitches(lines@, pitches_in(categories_in(table@, pitcher@), category@)),
{
    let ghost m = pitches_in(categories_in(table@, pitcher@), category@);
    let pairs = table.pitches(pitcher, category);
    let mut entries: Vec<Entry> = Vec::new();
    let mut i: usize = 0;
    while i < pairs.len()
        invariant
            i <= pairs@.len(),
            entries@.len() == i,
            forall|j: int|
                0 <= j < i ==> (#[trigger] entries@[j]).text@ == pairs@[j].0@ && weighs(
                    entries@[j],
                    0,
                    pairs@[j].1 as int,
                ),
        decreases pairs@.len() - i,
    {
        entries.push(Entry { rank: 0, weight: pairs[i].1, text: pairs[i].0.clone() });
        i += 1;
    }
    assert(entry_texts(entries@) =~= counted_names(pairs@));
    let ghost given = entries@;
    let sorted = sort_entries(entries);
    let mut lines: Vec<PitchLine> = Vec::new();
    let mut k: usize = 0;
    while k < sorted.len()
        invariant
            k <= sorted@.len(),
            lines@.len() == k,
            forall|j: int|
                0 <= j < k ==> (#[trigger] lines@[j]).name@ == sorted@[j].text@ && lines@[j].count
                    == sorted@[j].weight,
        decreases sorted@.len() - k,
    {
        lines.push(PitchLine { name: sorted[k].text.clone(), count: sorted[k].weight });
        k += 1;
    }
    proof {
        assert forall|a: int| 0 <= a < lines@.len() implies m.contains_key(
            (#[trigger] lines@[a]).name@,
        ) && m[lines@[a].name@] == lines@[a].count && sorted@[a].rank == 0 by {
            let j = lemma_sorted_member(given, sorted@, a);
            assert(counted_names(pairs@)[j] == pairs@[j].0@);
            assert(counted_names(pairs@).contains(pairs@[j].0@));
        }
        assert forall|a: int, b: int| 0 <= a < b < lines@.len() implies line_before(
            lines@[a],
            lines@[b],
        ) by {
            assert(before(sorted@[a], sorted@[b]));
        }
        assert forall|name: Seq<char>| #[trigger] m.contains_key(name) implies exists|a: int|
            0 <= a < lines@.len() && lines@[a].name@ == name by {
            assert(counted_names(pairs@).contains(name));
            let j = choose|j: int|
                0 <= j < counted_names(pairs@).len() && counted_names(pairs@)[j] == name;
            let a = lemma_given_member(given, sorted@, j);
            assert(lines@[a].name@ == name);
        }
    }
    lines
}

/// The blocks of the categories of one pitcher.
fn render_categories(table: &AggregationTable, pitcher: &str) -> (blocks: Vec<CategoryBlock>)
    requires
        table.wf(),
    ensures
        lists_categories(blocks@, categories_in(table@, pitcher@)),
{
    let ghost c = categories_in(table@, pitcher@);
    let labels = table.categories(pitcher);
    let mut entries: Vec<Entry> = Vec::new();
    let mut i: usize = 0;
    while i < labels.len()
        invariant
            i <= labels@.len(),
            entries@.len() == i,
            forall|j: int|
                0 <= j < i ==> (#[trigger] entries@[j]).text@ == labels@[j]@ && weighs(
                    entries@[j],
                    category_rank(labels@[j]@),
                    0,
                ),
        decreases labels@.len() - i,
    {
        let rank = rank_of(labels[i].as_str());
        entries.push(Entry { rank, weight: 0, text: labels[i].clone() });
        i += 1;
    }
    assert(entry_texts(entries@) =~= texts(labels@));
    let ghost given = entries@;
    let sorted = sort_entries(entries);
    let mut blocks: Vec<CategoryBlock> = Vec::new();
    let mut k: usize = 0;
    while k < sorted.len()
        invariant
            k <= sorted@.len(),
            blocks@.len() == k,
            table.wf(),
            c == categories_in(table@, pitcher@),
            forall|j: int|
                0 <= j < k ==> (#[trigger] blocks@[j]).label@ == sorted@[j].text@ && shows_category(
                    blocks@[j],
                    pitches_in(c, sorted@[j].text@),
                ),
        decreases sorted@.len() - k,
    {
        let label = sorted[k].text.clone();
        let subtotal = table.category_total(pitcher, label.as_str());
        let pitches = render_pitches(table, pitcher, label.as_str());
        blocks.push(CategoryBlock { label, subtotal, pitches });
        k += 1;
    }
    proof {
        assert forall|a: int| 0 <= a < blocks@.len() implies c.contains_key(
            (#[trigger] blocks@[a]).label@,
        ) && shows_category(blocks@[a], c[blocks@[a].label@]) && sorted@[a].rank == category_rank(
            sorted@[a].text@,
        ) && sorted@[a].weight == 0 by {
            let j = lemma_sorted_member(given, sorted@, a);
            assert(texts(labels@)[j] == labels@[j]@);
            assert(texts(labels@).contains(labels@[j]@));
        }
        assert forall|a: int, b: int| 0 <= a < b < blocks@.len() implies category_before(
            blocks@[a].label@,
            blocks@[b].label@,
        ) by {
            assert(before(sorted@[a], sorted@[b]));
        }
        assert forall|label: Seq<char>| #[trigger] c.contains_key(label) implies exists|a: int|
            0 <= a < blocks@.len() && blocks@[a].label@ == label by {
            assert(texts(labels@).contains(label));
            let j = choose|j: int| 0 <= j < texts(labels@).len() && texts(labels@)[j] == label;
            let a = lemma_given_member(given, sorted@, j);
            assert(blocks@[a].label@ == label);
        }
    }
    blocks
}

/// The report of a table: the pitchers in ascending order of name; for each
/// the total and the categories, "heater", "breaking ball" and "offspeed"
/// first and the others by label; within a category the pitches from the
/// highest count down, equal counts by name.
pub fn render(table: &AggregationTable) -> (blocks: Vec<PitcherBlock>)
    requires
        table.wf(),
    ensures
        is_report(blocks@, table@),
{
    let names = table.pitchers();
    let mut entries: Vec<Entry> = Vec::new();
    let mut i: usize = 0;
    while i < names.len()
        invariant
            i <= names@.len(),
            entries@.len() == i,
            forall|j: int|
                0 <= j < i ==> (#[trigger] entries@[j]).text@ == names@[j]@ && weighs(
                    entries@[j],
                    0,
                    0,
                ),
        decreases names@.len() - i,
    {
        entries.push(Entry { rank: 0, weight: 0, text: names[i].clone() });
        i += 1;
    }
    assert(entry_texts(entries@) =~= texts(names@));
    let ghost given = entries@;
    let sorted = sort_entries(entries);
    let mut blocks: Vec<PitcherBlock> = Vec::new();
    let mut k: usize = 0;
    while k < sorted.len()
        invariant
            k <= sorted@.len(),
            blocks@.len() == k,
            table.wf(),
            forall|j: int|
                0 <= j < k ==> (#[trigger] blocks@[j]).name@ == sorted@[j].text@ && shows_pitcher(
                    blocks@[j],
                    categories_in(table@, sorted@[j].text@),
                ),
        decreases sorted@.len() - k,
    {
        let name = sorted[k].text.clone();
        let total = table.pitcher_total(name.as_str());
        let categories = render_categories(table, name.as_str());
        blocks.push(PitcherBlock { name, total, categories });
        k += 1;
    }
    proof {
        let t = table@;
        assert forall|a: int| 0 <= a < blocks@.len() implies t.contains_key(
            (#[trigger] blocks@[a]).name@,
        ) && shows_pitcher(blocks@[a], t[blocks@[a].name@]) && sorted@[a].rank == 0
            && sorted@[a].weight == 0 by {
            let j = lemma_sorted_member(given, sorted@, a);
            assert(texts(names@)[j] == names@[j]@);
            assert(texts(names@).contains(names@[j]@));
        }
        assert forall|a: int, b: int| 0 <= a < b < blocks@.len() implies precedes(
            blocks@[a].name@,
            blocks@[b].name@,
        ) by {
            assert(before(sorted@[a], sorted@[b]));
        }
        assert forall|pitcher: Seq<char>| #[trigger] t.contains_key(pitcher) implies exists|a: int|
            0 <= a < blocks@.len() && blocks@[a].name@ == pitcher by {
            assert(texts(names@).contains(pitcher));
            let j = choose|j: int| 0 <= j < texts(names@).len() && texts(names@)[j] == pitcher;
            let a = lemma_given_member(given, sorted@, j);
            assert(blocks@[a].name@ == pitcher);
        }
    }
    blocks
}

/// What a line shows: the name and the count.
pub open spec fn line_model(line: PitchLine) -> (Seq<char>, nat) {
    (line.name@, line.count as nat)
}

/// What a category block shows: the label, the subtotal and the lines.
pub open spec fn category_model(block: CategoryBlock) -> (Seq<char>, nat, Seq<(Seq<char>, nat)>) {
    (block.label@, block.subtotal as nat, block.pitches@.map_values(|l: PitchLine| line_model(l)))
}

/// What a pitcher block shows: the name, the total and the categories.
pub open spec fn pitcher_model(block: PitcherBlock) -> (
    Seq<char>,
    nat,
    Seq<(Seq<char>, nat, Seq<(Seq<char>, nat)>)>,
) {
    (
        block.name@,
        block.total as nat,
        block.categories@.map_values(|c: CategoryBlock| category_model(c)),
    )
}

/// What a report shows, block by block.
pub open spec fn report_model(blocks: Seq<PitcherBlock>) -> Seq<
    (Seq<char>, nat, Seq<(Seq<char>, nat, Seq<(Seq<char>, nat)>)>),
> {
    blocks.map_values(|b: PitcherBlock| pitcher_model(b))
}

/// What an item of a report is ordered by: place, count and text.
pub struct SortKey {
    pub rank: int,
    pub weight: int,
    pub text: Seq<char>,
}

/// The display order on keys: the lower place first, then the higher count,
/// then the text.
pub open spec fn key_before(a: SortKey, b: SortKey) -> bool {
    a.rank < b.rank || (a.rank == b.rank && (a.weight > b.weight || (a.weight == b.weight
        && precedes(a.text, b.text))))
}

/// Each key comes before all later ones.
pub open spec fn keys_ascending(s: Seq<SortKey>) -> bool {
    forall|i: int, j: int| 0 <= i < j < s.len() ==> key_before(s[i], s[j])
}

/// Two ascending sequences of the same keys are the same sequence.
pub proof fn lemma_ascending_unique(a: Seq<SortKey>, b: Seq<SortKey>)
    requires
        keys_ascending(a),
        keys_ascending(b),
        forall|k: SortKey| a.contains(k) <==> b.contains(k),
    ensures
        a == b,
    decreases a.len(),
{
    if a.len() == 0 {
        if b.len() > 0 {
            assert(b.contains(b[0]));
            assert(a.contains(b[0]));
        }
        assert(a =~= b);
    } else {
        assert(a.contains(a[0]));
        assert(b.contains(a[0]));
        let k = choose|k: int| 0 <= k < b.len() && b[k] == a[0];
        assert(b.contains(b[0]));
        assert(a.contains(b[0]));
        let j = choose|j: int| 0 <= j < a.len() && a[j] == b[0];
        lemma_precedes_irreflexive(a[0].text);
        if k > 0 {
            assert(key_before(b[0], b[k]));
            if j > 0 {
                assert(key_before(a[0], a[j]));
                if a[0].rank == b[0].rank && a[0].weight == b[0].weight {
                    lemma_precedes_transitive(a[0].text, b[0].text, a[0].text);
                }
            }
        }
        assert(a[0] == b[0]);
        let ta = a.drop_first();
        let tb = b.drop_first();
        assert forall|x: SortKey| ta.contains(x) <==> tb.contains(x) by {
            lemma_precedes_irreflexive(x.text);
            if ta.contains(x) {
                let i = choose|i: int| 0 <= i < ta.len() && ta[i] == x;
                assert(a[i + 1] == x);
                assert(key_before(a[0], a[i + 1]));
                assert(a.contains(x));
                let m = choose|m: int| 0 <= m < b.len() && b[m] == x;
                assert(m > 0);
                assert(tb[m - 1] == x);
            }
            if tb.contains(x) {
                let i = choose|i: int| 0 <= i < tb.len() && tb[i] == x;
                assert(b[i + 1] == x);
                assert(key_before(b[0], b[i + 1]));
                assert(b.contains(x));
                let m = choose|m: int| 0 <= m < a.len() && a[m] == x;
                assert(m > 0);
                assert(ta[m - 1] == x);
            }
        }
        assert forall|i: int, j: int| 0 <= i < j < ta.len() implies key_before(ta[i], ta[j]) by {
            assert(key_before(a[i + 1], a[j + 1]));
        }
        assert forall|i: int, j: int| 0 <= i < j < tb.len() implies key_before(tb[i], tb[j]) by {
            assert(key_before(b[i + 1], b[j + 1]));
        }
        lemma_ascending_unique(ta, tb);
        assert(a =~= seq![a[0]] + ta);
        assert(b =~= seq![b[0]] + tb);
    }
}

/// The keys that the lines of a category are ordered by.
pub open spec fn line_sort_keys(lines: Seq<PitchLine>) -> Seq<SortKey> {
    lines.map_values(|l: PitchLine| SortKey { rank: 0, weight: l.count as int, text: l.name@ })
}

/// The keys that the categories of a pitcher are ordered by.
pub open spec fn category_sort_keys(blocks: Seq<CategoryBlock>) -> Seq<SortKey> {
    blocks.map_values(
        |b: CategoryBlock| SortKey { rank: category_rank(b.label@), weight: 0, text: b.label@ },
    )
}

/// The keys that the pitchers are ordered by.
pub open spec fn pitcher_sort_keys(blocks: Seq<PitcherBlock>) -> Seq<SortKey> {
    blocks.map_values(|b: PitcherBlock| SortKey { rank: 0, weight: 0, text: b.name@ })
}

/// The counts of a category can be shown in one way only.
pub proof fn lemma_lines_unique(m: PitchCounts, a: Seq<PitchLine>, b: Seq<PitchLine>)
    requires
        lists_pitches(a, m),
        lists_pitches(b, m),
    ensures
        a.map_values(|l: PitchLine| line_model(l)) == b.map_values(|l: PitchLine| line_model(l)),
{
    let ka = line_sort_keys(a);
    let kb = line_sort_keys(b);
    assert forall|i: int, j: int| 0 <= i < j < ka.len() implies key_before(ka[i], ka[j]) by {
        assert(line_before(a[i], a[j]));
    }
    assert forall|i: int, j: int| 0 <= i < j < kb.len() implies key_before(kb[i], kb[j]) by {
        assert(line_before(b[i], b[j]));
    }
    assert forall|k: SortKey| ka.contains(k) <==> kb.contains(k) by {
        if ka.contains(k) {
            let i = choose|i: int| 0 <= i < ka.len() && ka[i] == k;
            assert(m.contains_key(a[i].name@));
            let j = choose|j: int| 0 <= j < b.len() && b[j].name@ == a[i].name@;
            assert(m[b[j].name@] == b[j].count);
            assert(kb[j] == k);
        }
        if kb.contains(k) {
            let i = choose|i: int| 0 <= i < kb.len() && kb[i] == k;
            assert(m.contains_key(b[i].name@));
            let j = choose|j: int| 0 <= j < a.len() && a[j].name@ == b[i].name@;
            assert(m[a[j].name@] == a[j].count);
            assert(ka[j] == k);
        }
    }
    lemma_ascending_unique(ka, kb);
    let ma = a.map_values(|l: PitchLine| line_model(l));
    let mb = b.map_values(|l: PitchLine| line_model(l));
    assert(ma.len() == mb.len()) by {
        assert(ka.len() == kb.len());
    }
    assert forall|i: int| 0 <= i < ma.len() implies ma[i] == mb[i] by {
        assert(ka[i] == kb[i]);
    }
    assert(ma =~= mb);
}

/// The categories of a pitcher can be shown in one way only.
pub proof fn lemma_categories_unique(c: CategoryCounts, a: Seq<CategoryBlock>, b: Seq<CategoryBlock>)
    requires
        lists_categories(a, c),
        lists_categories(b, c),
    ensures
        a.map_values(|x: CategoryBlock| category_model(x)) == b.map_values(
            |x: CategoryBlock| category_model(x),
        ),
{
    let ka = category_sort_keys(a);
    let kb = category_sort_keys(b);
    assert forall|i: int, j: int| 0 <= i < j < ka.len() implies key_before(ka[i], ka[j]) by {
        assert(category_before(a[i].label@, a[j].label@));
    }
    assert forall|i: int, j: int| 0 <= i < j < kb.len() implies key_before(kb[i], kb[j]) by {
        assert(category_before(b[i].label@, b[j].label@));
    }
    assert forall|k: SortKey| ka.contains(k) <==> kb.contains(k) by {
        if ka.contains(k) {
            let i = choose|i: int| 0 <= i < ka.len() && ka[i] == k;
            assert(c.contains_key(a[i].label@));
            let j = choose|j: int| 0 <= j < b.len() && b[j].label@ == a[i].label@;
            assert(kb[j] == k);
        }
        if kb.contains(k) {
            let i = choose|i: int| 0 <= i < kb.len() && kb[i] == k;
            assert(c.contains_key(b[i].label@));
            let j = choose|j: int| 0 <= j < a.len() && a[j].label@ == b[i].label@;
            assert(ka[j] == k);
        }
    }
    lemma_ascending_unique(ka, kb);
    let ma = a.map_values(|x: CategoryBlock| category_model(x));
    let mb = b.map_values(|x: CategoryBlock| category_model(x));
    assert(ma.len() == mb.len()) by {
        assert(ka.len() == kb.len());
    }
    assert forall|i: int| 0 <= i < ma.len() implies ma[i] == mb[i] by {
        assert(ka[i] == kb[i]);
        assert(shows_category(a[i], c[a[i].label@]));
        assert(shows_category(b[i], c[b[i].label@]));
        lemma_lines_unique(c[a[i].label@], a[i].pitches@, b[i].pitches@);
    }
    assert(ma =~= mb);
}

/// A table has one report: whatever satisfies the description of a report
/// shows the same pitchers, categories, pitches and numbers in the same
/// order.
pub proof fn lemma_report_unique(t: Counts, a: Seq<PitcherBlock>, b: Seq<PitcherBlock>)
    requires
        is_report(a, t),
        is_report(b, t),
    ensures
        report_model(a) == report_model(b),
{
    let ka = pitcher_sort_keys(a);
    let kb = pitcher_sort_keys(b);
    assert forall|i: int, j: int| 0 <= i < j < ka.len() implies key_before(ka[i], ka[j]) by {
        assert(precedes(a[i].name@, a[j].name@));
    }
    assert forall|i: int, j: int| 0 <= i < j < kb.len() implies key_before(kb[i], kb[j]) by {
        assert(precedes(b[i].name@, b[j].name@));
    }
    assert forall|k: SortKey| ka.contains(k) <==> kb.contains(k) by {
        if ka.contains(k) {
            let i = choose|i: int| 0 <= i < ka.len() && ka[i] == k;
            assert(t.contains_key(a[i].name@));
            let j = choose|j: int| 0 <= j < b.len() && b[j].name@ == a[i].name@;
            assert(kb[j] == k);
        }
        if kb.contains(k) {
            let i = choose|i: int| 0 <= i < kb.len() && kb[i] == k;
            assert(t.contains_key(b[i].name@));
            let j = choose|j: int| 0 <= j < a.len() && a[j].name@ == b[i].name@;
            assert(ka[j] == k);
        }
    }
    lemma_ascending_unique(ka, kb);
    let ma = report_model(a);
    let mb = report_model(b);
    assert(ma.len() == mb.len()) by {
        assert(ka.len() == kb.len());
    }
    assert forall|i: int| 0 <= i < ma.len() implies ma[i] == mb[i] by {
        assert(ka[i] == kb[i]);
        assert(shows_pitcher(a[i], t[a[i].name@]));
        assert(shows_pitcher(b[i], t[b[i].name@]));
        lemma_categories_unique(t[a[i].name@], a[i].categories@, b[i].categories@);
    }
    assert(ma =~= mb);
}

/// In the categories of a pitcher, "heater", "breaking ball" and "offspeed"
/// stand before every other category.
pub proof fn lemma_preferred_first(blocks: Seq<CategoryBlock>, c: CategoryCounts, i: int, j: int)
    requires
        lists_categories(blocks, c),
        0 <= i < blocks.len(),
        0 <= j < blocks.len(),
        category_rank(blocks[i].label@) < 3,
        category_rank(blocks[j].label@) == 3,
    ensures
        i < j,
{
    if j < i {
        assert(category_before(blocks[j].label@, blocks[i].label@));
    }
}

/// In a report, the pitchers stand in ascending order of name and no pitcher
/// stands twice.
pub proof fn lemma_pitchers_ascend(blocks: Seq<PitcherBlock>, t: Counts, i: int, j: int)
    requires
        is_report(blocks, t),
        0 <= i < blocks.len(),
        0 <= j < blocks.len(),
    ensures
        i < j <==> precedes(blocks[i].name@, blocks[j].name@),
        i == j <==> blocks[i].name@ == blocks[j].name@,
{
    lemma_precedes_irreflexive(blocks[i].name@);
    if i < j {
        assert(precedes(blocks[i].name@, blocks[j].name@));
    }
    if j < i {
        assert(precedes(blocks[j].name@, blocks[i].name@));
        if precedes(blocks[i].name@, blocks[j].name@) {
            lemma_precedes_transitive(blocks[i].name@, blocks[j].name@, blocks[i].name@);
        }
    }
}

} // verus!
