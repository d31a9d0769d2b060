//! The report as lines of plain text: names padded into columns, counts in
//! decimal and right-aligned.

use crate::report::{CategoryBlock, PitchLine, PitcherBlock};
use crate::table::texts;
use vstd::prelude::*;
use vstd::string::StringExecFns;
use vstd::string::StrSliceExecFns;

verus! {

/// The text of one decimal digit.
pub open spec fn digit_text(d: nat) -> Seq<char> {
    if d == 0 {
        "0"@
    } else if d == 1 {
        "1"@
    } else if d == 2 {
        "2"@
    } else if d == 3 {
        "3"@
    } else if d == 4 {
        "4"@
    } else if d == 5 {
        "5"@
    } else if d == 6 {
        "6"@
    } else if d == 7 {
        "7"@
    } else if d == 8 {
        "8"@
    } else {
        "9"@
    }
}

/// A number in decimal, without leading zeros.
pub open spec fn decimal(n: nat) -> Seq<char>
    decreases n,
{
    if n < 10 {
        digit_text(n)
    } else {
        decimal(n / 10) + digit_text(n % 10)
    }
}

/// `k` spaces.
pub open spec fn spaces(k: nat) -> Seq<char> {
    Seq::new(k, |i: int| ' ')
}

/// `s` filled with spaces on the right up to `width` characters; a longer
/// text stays as it is.
pub open spec fn pad_right(s: Seq<char>, width: nat) -> Seq<char> {
    if s.len() >= width {
        s
    } else {
        s + spaces((width - s.len()) as nat)
    }
}

/// `s` filled with spaces on the left up to `width` characters; a longer
/// text stays as it is.
pub open spec fn pad_left(s: Seq<char>, width: nat) -> Seq<char> {
    if s.len() >= width {
        s
    } else {
        spaces((width - s.len()) as nat) + s
    }
}

/// The line of a pitcher: the name in a column of 13, then the total in
/// brackets.
pub open spec fn pitcher_text(block: PitcherBlock) -> Seq<char> {
    pad_right(block.name@, 13) + " ("@ + decimal(block.total as nat) + ")"@
}

/// The line of a category: indented by two, the label, then the subtotal in
/// a column of 2.
pub open spec fn category_text(block: CategoryBlock) -> Seq<char> {
    "  "@ + block.label@ + " "@ + pad_left(decimal(block.subtotal as nat), 2)
}

/// The line of a pitch: indented by four, the name in a column of 12, then
/// the count in a column of 3.
pub open spec fn pitch_text(line: PitchLine) -> Seq<char> {
    "    "@ + pad_right(line.name@, 12) + " "@ + pad_left(decimal(line.count as nat), 3)
}

/// The lines of the pitches of a category.
pub open spec fn pitch_texts(lines: Seq<PitchLine>) -> Seq<Seq<char>> {
    lines.map_values(|line: PitchLine| pitch_text(line))
}

/// The lines of the categories of a pitcher: each category line followed by
/// the lines of its pitches.
pub open spec fn category_texts(blocks: Seq<CategoryBlock>) -> Seq<Seq<char>>
    decreases blocks.len(),
{
    if blocks.len() == 0 {
        Seq::empty()
    } else {
        category_texts(blocks.drop_last()).push(category_text(blocks.last())) + pitch_texts(
            blocks.last().pitches@,
        )
    }
}

/// The lines of the pitchers: each pitcher line followed by the lines of the
/// categories and an empty line.
pub open spec fn pitcher_texts(blocks: Seq<PitcherBlock>) -> Seq<Seq<char>>
    decreases blocks.len(),
{
    if blocks.len() == 0 {
        Seq::empty()
    } else {
        (pitcher_texts(blocks.drop_last()).push(pitcher_text(blocks.last())) + category_texts(
            blocks.last().categories@,
        )).push(Seq::empty())
    }
}

/// The whole report: an empty line, then the pitchers.
pub open spec fn report_text(blocks: Seq<PitcherBlock>) -> Seq<Seq<char>> {
    seq![Seq::<char>::empty()] + pitcher_texts(blocks)
}

fn digit_str(d: u8) -> (r: &'static str)
    requires
        d < 10,
    ensures
        r@ == digit_text(d as nat),
{
    if d == 0 {
        "0"
    } else if d == 1 {
        "1"
    } else if d == 2 {
        "2"
    } else if d == 3 {
        "3"
    } else if d == 4 {
        "4"
    } else if d == 5 {
        "5"
    } else if d == 6 {
        "6"
    } else if d == 7 {
        "7"
    } else if d == 8 {
        "8"
    } else {
        "9"
    }
}

/// Writes `n` in decimal.
pub fn decimal_string(n: u128) -> (r: String)
    ensures
        r@ == decimal(n as nat),
    decreases n,
{
    if n < 10 {
        digit_str(n as u8).to_owned()
    } else {
        let mut r = decimal_string(n / 10);
        r.append(digit_str((n % 10) as u8));
        r
    }
}

fn append_spaces(s: &mut String, k: usize)
    ensures
        final(s)@ == old(s)@ + spaces(k as nat),
{
    let mut i: usize = 0;
    proof {
        reveal_strlit(" ");
        assert(s@ + spaces(0) =~= s@);
    }
    while i < k
        invariant
            i <= k,
            s@ == old(s)@ + spaces(i as nat),
            " "@ == seq![' '],
        decreases k - i,
    {
        s.append(" ");
        i += 1;
        proof {
            assert(old(s)@ + spaces((i - 1) as nat) + seq![' '] =~= old(s)@ + spaces(i as nat));
        }
    }
}

/// Fills `s` with spaces on the right up to `width` characters.
pub fn pad_right_string(s: &str, width: usize) -> (r: String)
    ensures
        r@ == pad_right(s@, width as nat),
{
    let len = s.unicode_len();
    let mut r = s.to_owned();
    if len < width {
        append_spaces(&mut r, width - len);
    }
    r
}

/// Fills `s` with spaces on the left up to `width` characters.
pub fn pad_left_string(s: &str, width: usize) -> (r: String)
    ensures
        r@ == pad_left(s@, width as nat),
{
    let len = s.unicode_len();
    let mut r = String::new();
    if len < width {
        append_spaces(&mut r, width - len);
    }
    r.append(s);
    proof {
        assert(Seq::<char>::empty() + s@ =~= s@);
        assert(Seq::<char>::empty() + spaces((width - len) as nat) =~= spaces((width - len) as nat));
    }
    r
}

/// The line of a pitcher.
pub fn pitcher_line(block: &PitcherBlock) -> (r: String)
    ensures
        r@ == pitcher_text(*block),
{
    let mut r = pad_right_string(block.name.as_str(), 13);
    r.append(" (");
    r.append(decimal_string(block.total).as_str());
    r.append(")");
    r
}

/// The line of a category.
pub fn category_line(block: &CategoryBlock) -> (r: String)
    ensures
        r@ == category_text(*block),
{
    let mut r = "  ".to_owned();
    r.append(block.label.as_str());
    r.append(" ");
    r.append(pad_left_string(decimal_string(block.subtotal).as_str(), 2).as_str());
    r
}

/// The line of a pitch.
pub fn pitch_line(line: &PitchLine) -> (r: String)
    ensures
        r@ == pitch_text(*line),
{
    let mut r = "    ".to_owned();
    r.append(pad_right_string(line.name.as_str(), 12).as_str());
    r.append(" ");
    r.append(pad_left_string(decimal_string(line.count).as_str(), 3).as_str());
    r
}

proof fn lemma_texts_push(v: Seq<String>, s: String)
    ensures
        texts(v.push(s)) == texts(v).push(s@),
{
    assert(texts(v.push(s)) =~= texts(v).push(s@));
}

/// The report as lines of text, ready to be written out one per line.
pub fn report_lines(blocks: &Vec<PitcherBlock>) -> (r: Vec<String>)
    ensures
        texts(r@) == report_text(blocks@),
{
    let mut r: Vec<String> = Vec::new();
    r.push(String::new());
    let ghost head = seq![Seq::<char>::empty()];
    let mut i: usize = 0;
    proof {
        assert(texts(r@) =~= head);
        assert(blocks@.take(0) =~= Seq::<PitcherBlock>::empty());
        assert(head + pitcher_texts(blocks@.take(0)) =~= head);
    }
    while i < blocks.len()
        invariant
            i <= blocks@.len(),
            head == seq![Seq::<char>::empty()],
            texts(r@) == head + pitcher_texts(blocks@.take(i as int)),
        decreases blocks@.len() - i,
    {
        let block = &blocks[i];
        let ghost done = pitcher_texts(blocks@.take(i as int));
        let ghost cats = block.categories@;
        let line = pitcher_line(block);
        proof {
            lemma_texts_push(r@, line);
        }
        r.push(line);
        let ghost started = head + done.push(pitcher_text(*block));
        let mut j: usize = 0;
        proof {
            assert((head + done).push(pitcher_text(*block)) =~= started);
            assert(texts(r@) =~= started);
            assert(cats.take(0) =~= Seq::<CategoryBlock>::empty());
            assert(started + category_texts(cats.take(0)) =~= started);
        }
        while j < block.categories.len()
            invariant
                j <= cats.len(),
                cats == block.categories@,
                texts(r@) == started + category_texts(cats.take(j as int)),
            decreases cats.len() - j,
        {
            let category = &block.categories[j];
            let ghost before = category_texts(cats.take(j as int));
            let ghost lines = category.pitches@;
            let line = category_line(category);
            proof {
                lemma_texts_push(r@, line);
            }
            r.push(line);
            let ghost opened = started + before.push(category_text(*category));
            let mut k: usize = 0;
            proof {
                assert((started + before).push(category_text(*category)) =~= opened);
                assert(texts(r@) =~= opened);
                assert(lines.take(0) =~= Seq::<PitchLine>::empty());
                assert(pitch_texts(lines.take(0)) =~= Seq::<Seq<char>>::empty());
                assert(opened + pitch_texts(lines.take(0)) =~= opened);
            }
            while k < category.pitches.len()
                invariant
                    k <= lines.len(),
                    lines == category.pitches@,
                    texts(r@) == opened + pitch_texts(lines.take(k as int)),
                decreases lines.len() - k,
            {
                let line = pitch_line(&category.pitches[k]);
                proof {
                    lemma_texts_push(r@, line);
                    assert(pitch_texts(lines.take(k + 1)) =~= pitch_texts(lines.take(k as int)).push(
                        pitch_text(lines[k as int]),
                    ));
                    assert((opened + pitch_texts(lines.take(k as int))).push(
                        pitch_text(lines[k as int]),
                    ) =~= opened + pitch_texts(lines.take(k + 1)));
                }
                r.push(line);
                k += 1;
            }
            j += 1;
            proof {
                assert(lines.take(lines.len() as int) =~= lines);
                assert(cats.take(j as int).drop_last() =~= cats.take(j - 1));
                assert(cats.take(j as int).last() == *category);
                assert(texts(r@) =~= started + category_texts(cats.take(j as int)));
            }
        }
        let gap = String::new();
        proof {
            lemma_texts_push(r@, gap);
            assert(cats.take(cats.len() as int) =~= cats);
            assert(blocks@.take(i + 1).drop_last() =~= blocks@.take(i as int));
            assert(blocks@.take(i + 1).last() == *block);
            assert((started + category_texts(cats)).push(Seq::<char>::empty()) =~= head
                + pitcher_texts(blocks@.take(i + 1)));
        }
        r.push(gap);
        i += 1;
    }
    proof {
        assert(blocks@.take(blocks@.len() as int) =~= blocks@);
    }
    r
}

} // verus!
