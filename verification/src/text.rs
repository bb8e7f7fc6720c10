//! Building blocks for the lines that the reports print.
use vstd::prelude::*;
#[allow(unused_imports)]
use vstd::utf8::{encode_utf8, is_ascii_chars, is_ascii_chars_encode_utf8};

verus! {

/// `n` copies of the character `c`.
pub open spec fn repeated(c: char, n: nat) -> Seq<char> {
    Seq::new(n, |i: int| c)
}

/// Several texts as character sequences.
pub open spec fn line_views(lines: Seq<String>) -> Seq<Seq<char>> {
    lines.map_values(|line: String| line@)
}

/// How much has to be added to a text of `len` characters to fill a column of
/// `width`.
pub open spec fn fill(len: nat, width: nat) -> nat {
    if len < width {
        (width - len) as nat
    } else {
        0
    }
}

/// The text set against the right edge of a column of `width` characters.
pub open spec fn right_aligned(text: Seq<char>, width: nat) -> Seq<char> {
    repeated(' ', fill(text.len(), width)) + text
}

/// The text set against the left edge of a column of `width` characters.
pub open spec fn left_aligned(text: Seq<char>, width: nat) -> Seq<char> {
    text + repeated(' ', fill(text.len(), width))
}

/// The character of a decimal digit.
pub open spec fn digit(d: nat) -> char {
    if d == 0 {
        '0'
    } else if d == 1 {
        '1'
    } else if d == 2 {
        '2'
    } else if d == 3 {
        '3'
    } else if d == 4 {
        '4'
    } else if d == 5 {
        '5'
    } else if d == 6 {
        '6'
    } else if d == 7 {
        '7'
    } else if d == 8 {
        '8'
    } else {
        '9'
    }
}

/// A number in decimal notation, without leading zeros.
pub open spec fn decimal(n: nat) -> Seq<char>
    decreases n,
{
    if n < 10 {
        seq![digit(n)]
    } else {
        decimal(n / 10).push(digit(n % 10))
    }
}

/// The number of bytes that a text takes up.
pub open spec fn byte_len(text: Seq<char>) -> nat {
    encode_utf8(text).len()
}

/// The largest byte length among the first `n` texts, 0 if there is none.
pub open spec fn widest_of(texts: Seq<Seq<char>>, n: int) -> nat
    decreases n,
{
    if n <= 0 {
        0
    } else {
        let rest = widest_of(texts, n - 1);
        let last = byte_len(texts[n - 1]);
        if last > rest {
            last
        } else {
            rest
        }
    }
}

/// The width of a column of texts: the largest byte length among them.
pub open spec fn column_width(texts: Seq<Seq<char>>) -> nat {
    widest_of(texts, texts.len() as int)
}

/// `part` stands in `line`, from place `at` on.
pub open spec fn stands_at(line: Seq<char>, at: int, part: Seq<char>) -> bool {
    0 <= at && at + part.len() <= line.len() && line.subrange(at, at + part.len()) == part
}

/// Appends `n` copies of `c` to a text.
pub fn push_repeated(out: &mut String, c: char, n: usize)
    ensures
        final(out)@ == old(out)@ + repeated(c, n as nat),
{
    let ghost start = out@;
    let mut i: usize = 0;
    while i < n
        invariant
            i <= n,
            out@ == start + repeated(c, i as nat),
        decreases n - i,
    {
        out.push(c);
        i += 1;
        assert(out@ =~= start + repeated(c, i as nat));
    }
}

/// Appends a text set against the right edge of a column.
pub fn push_right_aligned(out: &mut String, text: &str, width: usize)
    ensures
        final(out)@ == old(out)@ + right_aligned(text@, width as nat),
{
    let ghost start = out@;
    let len: usize = text.unicode_len();
    if len < width {
        push_repeated(out, ' ', width - len);
    } else {
        assert(start =~= start + repeated(' ', 0));
    }
    out.append(text);
    assert(out@ =~= start + right_aligned(text@, width as nat));
}

/// Appends a text set against the left edge of a column.
pub fn push_left_aligned(out: &mut String, text: &str, width: usize)
    ensures
        final(out)@ == old(out)@ + left_aligned(text@, width as nat),
{
    let ghost start = out@;
    let len: usize = text.unicode_len();
    out.append(text);
    if len < width {
        push_repeated(out, ' ', width - len);
    }
    assert(out@ =~= start + left_aligned(text@, width as nat));
}

fn digit_char(d: u64) -> (c: char)
    requires
        d < 10,
    ensures
        c == digit(d as nat),
{
    match d {
        0 => '0',
        1 => '1',
        2 => '2',
        3 => '3',
        4 => '4',
        5 => '5',
        6 => '6',
        7 => '7',
        8 => '8',
        _ => '9',
    }
}

/// Writes a number in decimal notation.
pub fn to_decimal(n: u64) -> (text: String)
    ensures
        text@ == decimal(n as nat),
    decreases n,
{
    if n < 10 {
        let mut text = String::new();
        text.push(digit_char(n));
        assert(text@ =~= decimal(n as nat));
        text
    } else {
        let mut text = to_decimal(n / 10);
        text.push(digit_char(n % 10));
        text
    }
}

/// The width of a column that holds the given texts, in bytes.
pub fn widest(texts: &Vec<String>) -> (width: usize)
    ensures
        width as nat == column_width(line_views(texts@)),
{
    let mut width: usize = 0;
    let mut i: usize = 0;
    while i < texts.len()
        invariant
            i <= texts.len(),
            width as nat == widest_of(line_views(texts@), i as int),
        decreases texts.len() - i,
    {
        let len: usize = texts[i].as_str().as_bytes().len();
        if len > width {
            width = len;
        }
        i += 1;
    }
    width
}

/// A column of ASCII texts is straight: set against its right edge, each of
/// them takes up exactly the width of the column.
pub proof fn law_column_is_straight(texts: Seq<Seq<char>>, i: int)
    requires
        0 <= i < texts.len(),
        is_ascii_chars(texts[i]),
    ensures
        right_aligned(texts[i], column_width(texts)).len() == column_width(texts),
{
    lemma_widest_of_bounds(texts, texts.len() as int, i);
    is_ascii_chars_encode_utf8(texts[i]);
}

proof fn lemma_widest_of_bounds(texts: Seq<Seq<char>>, n: int, i: int)
    requires
        0 <= i < n <= texts.len(),
    ensures
        byte_len(texts[i]) <= widest_of(texts, n),
    decreases n,
{
    if i < n - 1 {
        lemma_widest_of_bounds(texts, n - 1, i);
    }
}

/// What separates the fields of a record for tools such as `awk`.
pub open spec fn is_blank(c: char) -> bool {
    c == ' ' || c == '\t' || c == '\n'
}

/// Whether a text has no blanks in it.
pub open spec fn is_word(text: Seq<char>) -> bool {
    forall|i: int| 0 <= i < text.len() ==> !is_blank(#[trigger] text[i])
}

/// The fields of a text that are complete, and the one that its end may still
/// be part of.
pub open spec fn fields_so_far(text: Seq<char>) -> (Seq<Seq<char>>, Seq<char>)
    decreases text.len(),
{
    if text.len() == 0 {
        (Seq::empty(), Seq::empty())
    } else {
        let (done, last) = fields_so_far(text.drop_last());
        if !is_blank(text.last()) {
            (done, last.push(text.last()))
        } else if last.len() == 0 {
            (done, last)
        } else {
            (done.push(last), Seq::empty())
        }
    }
}

/// The fields of a text: what stands between runs of blanks.
pub open spec fn fields(text: Seq<char>) -> Seq<Seq<char>> {
    let (done, last) = fields_so_far(text);
    if last.len() == 0 {
        done
    } else {
        done.push(last)
    }
}

pub(crate) proof fn lemma_fields_word(text: Seq<char>, word: Seq<char>)
    requires
        is_word(word),
    ensures
        fields_so_far(text + word) == (
            fields_so_far(text).0,
            fields_so_far(text).1 + word,
        ),
    decreases word.len(),
{
    if word.len() == 0 {
        assert(text + word =~= text);
        assert(fields_so_far(text).1 + word =~= fields_so_far(text).1);
    } else {
        let before = word.drop_last();
        assert forall|i: int| 0 <= i < before.len() implies !is_blank(#[trigger] before[i]) by {
            assert(before[i] == word[i]);
        }
        lemma_fields_word(text, before);
        assert((text + word).drop_last() =~= text + before);
        assert(!is_blank(word[word.len() - 1]));
        assert((fields_so_far(text).1 + before).push(word.last()) =~= fields_so_far(text).1 + word);
    }
}

pub(crate) proof fn lemma_fields_spaces(text: Seq<char>, n: nat)
    ensures
        fields_so_far(text + repeated(' ', n)) == if n == 0 || fields_so_far(text).1.len() == 0 {
            fields_so_far(text)
        } else {
            (fields_so_far(text).0.push(fields_so_far(text).1), Seq::empty())
        },
    decreases n,
{
    if n == 0 {
        assert(text + repeated(' ', n) =~= text);
    } else {
        lemma_fields_spaces(text, (n - 1) as nat);
        assert((text + repeated(' ', n)).drop_last() =~= text + repeated(' ', (n - 1) as nat));
    }
}

/// Fields that are complete stay, whatever follows.
pub(crate) proof fn lemma_fields_kept(text: Seq<char>, more: Seq<char>)
    ensures
        fields_so_far(text + more).0.len() >= fields_so_far(text).0.len(),
        forall|k: int|
            0 <= k < fields_so_far(text).0.len() ==> #[trigger] fields(text + more)[k]
                == fields_so_far(text).0[k] && fields_so_far(text + more).0[k] == fields_so_far(
                text,
            ).0[k],
        fields(text + more).len() >= fields_so_far(text).0.len(),
    decreases more.len(),
{
    if more.len() == 0 {
        assert(text + more =~= text);
    } else {
        lemma_fields_kept(text, more.drop_last());
        assert((text + more).drop_last() =~= text + more.drop_last());
        let before = fields_so_far(text + more.drop_last()).0;
        assert forall|k: int| 0 <= k < fields_so_far(text).0.len() implies #[trigger] fields(
            text + more,
        )[k] == fields_so_far(text).0[k] && fields_so_far(text + more).0[k] == fields_so_far(
            text,
        ).0[k] by {
            assert(fields(text + more.drop_last())[k] == fields_so_far(text).0[k]);
            assert(before[k] == fields_so_far(text).0[k]);
        }
    }
}

pub(crate) proof fn lemma_decimal_is_word(n: nat)
    ensures
        is_word(decimal(n)),
        decimal(n).len() > 0,
    decreases n,
{
    if n >= 10 {
        lemma_decimal_is_word(n / 10);
        let before = decimal(n / 10);
        assert forall|i: int| 0 <= i < decimal(n).len() implies !is_blank(
            #[trigger] decimal(n)[i],
        ) by {
            if i < before.len() {
                assert(decimal(n)[i] == before[i]);
            }
        }
    }
}

/// The number that a row of decimal digits stands for.
pub open spec fn number_read(text: Seq<char>) -> int
    decreases text.len(),
{
    if text.len() == 0 {
        0
    } else {
        10 * number_read(text.drop_last()) + (text.last() as int - '0' as int)
    }
}

/// A number is written in digits alone, without zeros in front, and reads as
/// the number again.
pub proof fn law_numbers_read_back(n: nat)
    ensures
        number_read(decimal(n)) == n,
        decimal(n).len() > 0,
        forall|i: int| 0 <= i < decimal(n).len() ==> '0' <= #[trigger] decimal(n)[i] <= '9',
        n > 0 ==> decimal(n)[0] != '0',
    decreases n,
{
    reveal_with_fuel(number_read, 2);
    if n < 10 {
        assert(decimal(n).drop_last() =~= Seq::empty());
    } else {
        law_numbers_read_back(n / 10);
        assert(decimal(n).drop_last() =~= decimal(n / 10));
        assert forall|i: int| 0 <= i < decimal(n).len() implies '0' <= #[trigger] decimal(n)[i]
            <= '9' by {
            if i < decimal(n / 10).len() {
                assert(decimal(n)[i] == decimal(n / 10)[i]);
            }
        }
        assert(decimal(n)[0] == decimal(n / 10)[0]);
    }
}

/// A text that is set against an edge of a column stays whole, and spaces fill
/// the column on its other side. Where it has no room to spare nothing is
/// added.
pub proof fn law_alignment_adds_spaces(text: Seq<char>, width: nat)
    ensures
        ({
            let len = if text.len() < width {
                width
            } else {
                text.len()
            };
            let right = right_aligned(text, width);
            let left = left_aligned(text, width);
            &&& right.len() == len
            &&& right.skip(len - text.len()) == text
            &&& forall|i: int| 0 <= i < len - text.len() ==> #[trigger] right[i] == ' '
            &&& left.len() == len
            &&& left.take(text.len() as int) == text
            &&& forall|i: int| text.len() <= i < len ==> #[trigger] left[i] == ' '
        }),
{
    let right = right_aligned(text, width);
    let left = left_aligned(text, width);
    assert(right.skip(right.len() - text.len()) =~= text);
    assert(left.take(text.len() as int) =~= text);
}

/// A column is as wide as the longest of its texts in bytes: none is longer,
/// and one is as long, unless there are no texts at all.
pub proof fn law_columns_fit_the_widest(texts: Seq<Seq<char>>)
    ensures
        forall|i: int| 0 <= i < texts.len() ==> encode_utf8(#[trigger] texts[i]).len()
            <= column_width(texts),
        texts.len() > 0 ==> exists|i: int|
            0 <= i < texts.len() && encode_utf8(#[trigger] texts[i]).len() == column_width(texts),
        texts.len() == 0 ==> column_width(texts) == 0,
{
    assert forall|i: int| 0 <= i < texts.len() implies encode_utf8(#[trigger] texts[i]).len()
        <= column_width(texts) by {
        lemma_widest_of_bounds(texts, texts.len() as int, i);
    }
    if texts.len() > 0 {
        let i = lemma_widest_is_reached(texts, texts.len() as int);
        assert(encode_utf8(texts[i]).len() == column_width(texts));
    }
}

proof fn lemma_widest_is_reached(texts: Seq<Seq<char>>, n: int) -> (i: int)
    requires
        0 < n <= texts.len(),
    ensures
        0 <= i < n,
        encode_utf8(texts[i]).len() == widest_of(texts, n),
    decreases n,
{
    let rest = widest_of(texts, n - 1);
    let last = byte_len(texts[n - 1]);
    if last > rest || n == 1 {
        n - 1
    } else {
        lemma_widest_is_reached(texts, n - 1)
    }
}

/// Several texts are seen one for one.
pub proof fn law_lines_are_seen_whole(lines: Seq<String>)
    ensures
        line_views(lines).len() == lines.len(),
        forall|i: int| 0 <= i < lines.len() ==> #[trigger] line_views(lines)[i] == lines[i]@,
{
}

} // verus!
