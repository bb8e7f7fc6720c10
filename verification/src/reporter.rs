//! The live progress line.
use vstd::prelude::*;

use crate::model::Progress;
#[allow(unused_imports)]
use crate::model::ProgressView;
use crate::text::{push_repeated, to_decimal};
#[allow(unused_imports)]
use crate::text::{decimal, fill, repeated, stands_at};

verus! {

/// The longest name that the progress line shows, in characters. That is
/// conservative for a terminal of 80 columns with the counter in front.
pub const MAX_NAME_CHARS: usize = 60;

/// A text cut down to at most `max` characters, with an ellipsis in place of
/// what was cut off.
pub open spec fn truncated(text: Seq<char>, max: nat) -> Seq<char> {
    if text.len() <= max {
        text
    } else if max == 0 {
        Seq::empty()
    } else {
        text.take(max - 1).push('…')
    }
}

/// Truncates a text to at most `max` characters, replacing the trailing run
/// with `…`. Characters are counted, not bytes: names may hold multi-byte
/// unicode.
pub fn truncate_for_display(s: &str, max: usize) -> (out: String)
    ensures
        out@ == truncated(s@, max as nat),
{
    let count: usize = s.unicode_len();
    if count <= max {
        return s.to_string();
    }
    if max == 0 {
        return String::new();
    }
    let mut out = s.substring_char(0, max - 1).to_string();
    out.push('…');
    assert(out@ =~= truncated(s@, max as nat));
    out
}

/// The result of truncating is never longer than asked for, a text that fits
/// stays as it is, and of one that does not fit all but the last character
/// shown stand at its beginning.
pub proof fn law_truncated_fits(text: Seq<char>, max: nat)
    ensures
        truncated(text, max).len() <= max,
        text.len() <= max ==> truncated(text, max) == text,
        0 < max < text.len() ==> {
            &&& truncated(text, max).len() == max
            &&& truncated(text, max).last() == '…'
            &&& truncated(text, max).drop_last() == text.take(max - 1)
        },
{
    if 0 < max < text.len() {
        assert(truncated(text, max).drop_last() =~= text.take(max - 1));
    }
}

/// The glyph that the spinner shows after `turns` turns.
pub open spec fn spinner(turns: nat) -> char {
    let phase = turns % 10;
    if phase == 0 {
        '⠋'
    } else if phase == 1 {
        '⠙'
    } else if phase == 2 {
        '⠹'
    } else if phase == 3 {
        '⠸'
    } else if phase == 4 {
        '⠼'
    } else if phase == 5 {
        '⠴'
    } else if phase == 6 {
        '⠦'
    } else if phase == 7 {
        '⠧'
    } else if phase == 8 {
        '⠇'
    } else {
        '⠏'
    }
}

fn spinner_glyph(turns: usize) -> (c: char)
    ensures
        c == spinner(turns as nat),
{
    match turns % 10 {
        0 => '⠋',
        1 => '⠙',
        2 => '⠹',
        3 => '⠸',
        4 => '⠼',
        5 => '⠴',
        6 => '⠦',
        7 => '⠧',
        8 => '⠇',
        _ => '⠏',
    }
}

/// The progress line for a child that is about to be sized.
pub open spec fn progress_line(turns: nat, index: nat, total: nat, name: Seq<char>) -> Seq<char> {
    seq![spinner(turns)] + " analyzing ["@ + decimal(index) + "/"@ + decimal(total) + "] "@
        + truncated(name, MAX_NAME_CHARS as nat)
}

/// What a reporter remembers.
pub struct ReporterView {
    /// Whether anything is drawn at all.
    pub enabled: bool,
    /// How often the spinner has turned.
    pub turns: nat,
    /// The length of the line that was drawn last, 0 if there is none.
    pub last_len: nat,
}

/// The number of turns after one more. It starts over when a machine word is
/// full.
pub open spec fn next_turn(turns: nat) -> nat {
    if turns >= usize::MAX {
        0
    } else {
        turns + 1
    }
}

/// What is written to draw `line` over a line of `last_len` characters: the
/// cursor goes back, and spaces blank what the new line does not cover.
pub open spec fn drawn(line: Seq<char>, last_len: nat) -> Seq<char> {
    seq!['\r'] + line + repeated(' ', fill(line.len(), last_len))
}

/// What is written to wipe a line of `last_len` characters.
pub open spec fn wiped(last_len: nat) -> Seq<char> {
    seq!['\r'] + repeated(' ', last_len) + seq!['\r']
}

/// What a reporter writes on an event, and what it remembers then.
pub open spec fn handled(reporter: ReporterView, event: ProgressView) -> (ReporterView, Seq<char>) {
    match event {
        ProgressView::Started { index, total, name } => {
            let line = progress_line(reporter.turns, index, total, name);
            if reporter.enabled {
                (
                    ReporterView {
                        enabled: true,
                        turns: next_turn(reporter.turns),
                        last_len: line.len(),
                    },
                    drawn(line, reporter.last_len),
                )
            } else {
                (reporter, Seq::empty())
            }
        },
        ProgressView::Finished { .. } => (reporter, Seq::empty()),
        ProgressView::Done => if reporter.enabled && reporter.last_len > 0 {
            (ReporterView { last_len: 0, ..reporter }, wiped(reporter.last_len))
        } else {
            (reporter, Seq::empty())
        },
    }
}

/// Live progress indicator.
///
/// Each child that is started turns a small braille spinner and rewrites the
/// status line in place; at the end the line is cleared, so that the report
/// starts on a clean row. When the output is no terminal the reporter is
/// inert.
pub struct ProgressReporter {
    enabled: bool,
    spinner_idx: usize,
    last_len: usize,
}

impl View for ProgressReporter {
    type V = ReporterView;

    closed spec fn view(&self) -> ReporterView {
        ReporterView {
            enabled: self.enabled,
            turns: self.spinner_idx as nat,
            last_len: self.last_len as nat,
        }
    }
}

impl ProgressReporter {
    /// A reporter that has drawn nothing yet.
    pub fn new(enabled: bool) -> (reporter: ProgressReporter)
        ensures
            reporter@ == (ReporterView { enabled, turns: 0, last_len: 0 }),
    {
        ProgressReporter { enabled, spinner_idx: 0, last_len: 0 }
    }

    /// Takes note of an event. What is returned has to be written to the
    /// terminal as it is; where it is empty there is nothing to write.
    pub fn handle(&mut self, event: Progress<'_>) -> (output: String)
        ensures
            (final(self)@, output@) == handled(old(self)@, event@),
    {
        if !self.enabled {
            return String::new();
        }
        match event {
            Progress::Started { index, total, name } => {
                let turns: usize = self.spinner_idx;
                self.spinner_idx = self.spinner_idx.wrapping_add(1);
                let mut line = String::new();
                line.push(spinner_glyph(turns));
                line.append(" analyzing [");
                line.append(to_decimal(index as u64).as_str());
                line.append("/");
                line.append(to_decimal(total as u64).as_str());
                line.append("] ");
                line.append(truncate_for_display(name, MAX_NAME_CHARS).as_str());
                assert(line@ =~= progress_line(turns as nat, index as nat, total as nat, name@));
                self.draw(line.as_str())
            },
            Progress::Finished { .. } => String::new(),
            Progress::Done => self.clear(),
        }
    }

    fn draw(&mut self, line: &str) -> (output: String)
        ensures
            output@ == drawn(line@, old(self)@.last_len),
            final(self)@ == (ReporterView { last_len: line@.len(), ..old(self)@ }),
    {
        let visible_len: usize = line.unicode_len();
        let mut output = String::new();
        output.push('\r');
        output.append(line);
        if visible_len < self.last_len {
            push_repeated(&mut output, ' ', self.last_len - visible_len);
        }
        assert(output@ =~= drawn(line@, self@.last_len));
        self.last_len = visible_len;
        output
    }

    fn clear(&mut self) -> (output: String)
        ensures
            output@ == if old(self)@.last_len > 0 {
                wiped(old(self)@.last_len)
            } else {
                Seq::empty()
            },
            final(self)@ == (ReporterView { last_len: 0, ..old(self)@ }),
    {
        if self.last_len == 0 {
            return String::new();
        }
        let mut output = String::new();
        output.push('\r');
        push_repeated(&mut output, ' ', self.last_len);
        output.push('\r');
        assert(output@ =~= wiped(self@.last_len));
        self.last_len = 0;
        output
    }
}

/// A reporter that is not enabled never writes and never changes.
pub proof fn law_disabled_reporter_is_inert(reporter: ReporterView, event: ProgressView)
    requires
        !reporter.enabled,
    ensures
        handled(reporter, event) == (reporter, Seq::<char>::empty()),
{
}

/// No character of the line before is left behind: what is drawn over it
/// covers it, and at the end as many spaces wipe it as it had characters.
pub proof fn law_line_before_is_covered(reporter: ReporterView, event: ProgressView)
    requires
        reporter.enabled,
    ensures
        event is Started ==> {
            let (next, output) = handled(reporter, event);
            &&& output.len() >= 1 + reporter.last_len
            &&& output.len() >= 1 + next.last_len
            &&& next.last_len > 0
            &&& forall|i: int| 1 + next.last_len <= i < output.len() ==> #[trigger] output[i] == ' '
        },
        event is Done ==> {
            let (next, output) = handled(reporter, event);
            &&& next.last_len == 0
            &&& reporter.last_len > 0 ==> output == wiped(reporter.last_len)
        },
{
}

/// For a child that is started the line is drawn from its beginning: the next
/// phase of the spinner, the child's place among all children, and its name.
/// Of a name of more than sixty characters the first fifty-nine are shown, and
/// an ellipsis. What is remembered is how long the line is, and that the
/// spinner has turned.
pub proof fn law_the_line_tells_the_child(
    reporter: ReporterView,
    index: nat,
    total: nat,
    name: Seq<char>,
)
    requires
        reporter.enabled,
    ensures
        ({
            let (next, output) = handled(reporter, ProgressView::Started { index, total, name });
            let place = decimal(index);
            let count = decimal(total);
            let at = 17 + place.len() + count.len() as int;
            &&& output[0] == '\r'
            &&& output[1] == seq!['⠋', '⠙', '⠹', '⠸', '⠼', '⠴', '⠦', '⠧', '⠇', '⠏'][(reporter.turns
                % 10) as int]
            &&& stands_at(output, 2, " analyzing ["@)
            &&& stands_at(output, 14, place)
            &&& output[14 + place.len() as int] == '/'
            &&& stands_at(output, 15 + place.len() as int, count)
            &&& stands_at(output, at - 2, "] "@)
            &&& name.len() <= 60 ==> stands_at(output, at, name) && next.last_len == at - 1
                + name.len()
            &&& name.len() > 60 ==> stands_at(output, at, name.take(59).push('…'))
                && next.last_len == at + 59
            &&& next.enabled
            &&& next.turns == if reporter.turns >= usize::MAX {
                0
            } else {
                reporter.turns + 1
            }
        }),
{
    reveal_strlit(" analyzing [");
    reveal_strlit("/");
    reveal_strlit("] ");
    let (next, output) = handled(reporter, ProgressView::Started { index, total, name });
    let place = decimal(index);
    let count = decimal(total);
    let at = 17 + place.len() + count.len() as int;
    let glyphs = seq!['⠋', '⠙', '⠹', '⠸', '⠼', '⠴', '⠦', '⠧', '⠇', '⠏'];
    assert(glyphs[0] == '⠋' && glyphs[1] == '⠙' && glyphs[2] == '⠹' && glyphs[3] == '⠸'
        && glyphs[4] == '⠼' && glyphs[5] == '⠴' && glyphs[6] == '⠦' && glyphs[7] == '⠧'
        && glyphs[8] == '⠇' && glyphs[9] == '⠏');
    assert(output[1] == spinner(reporter.turns));
    assert(output.subrange(2, 14) =~= " analyzing ["@);
    assert(output.subrange(14, 14int + place.len()) =~= place);
    assert(output.subrange(15 + place.len() as int, 15 + place.len() + count.len() as int)
        =~= count);
    assert(output.subrange(at - 2, at) =~= "] "@);
    if name.len() <= 60 {
        assert(output.subrange(at, at + name.len()) =~= name);
    } else {
        assert(output.subrange(at, at + 60) =~= name.take(59).push('…'));
    }
}

/// A child that is finished changes nothing. At the end a line that was drawn is
/// wiped with as many spaces as it has characters, between two returns to its
/// beginning, and no line is left.
pub proof fn law_the_end_wipes_the_line(reporter: ReporterView, event: ProgressView)
    requires
        reporter.enabled,
    ensures
        ({
            let (next, output) = handled(reporter, event);
            &&& event is Finished ==> next == reporter && output.len() == 0
            &&& event is Done ==> next.last_len == 0 && next.turns == reporter.turns
                && next.enabled
            &&& event is Done && reporter.last_len == 0 ==> output.len() == 0
            &&& event is Done && reporter.last_len > 0 ==> {
                &&& output.len() == reporter.last_len + 2
                &&& output.first() == '\r'
                &&& output.last() == '\r'
                &&& forall|i: int| 1 <= i <= reporter.last_len ==> #[trigger] output[i] == ' '
            }
        }),
{
}

} // verus!
