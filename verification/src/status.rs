//! The status bar of the window.
use vstd::prelude::*;

use crate::text::to_decimal;
#[allow(unused_imports)]
use crate::text::{decimal, stands_at};

verus! {

/// The ending of "directory" or "directories".
pub open spec fn ending(n: nat) -> Seq<char> {
    if n == 1 {
        "y"@
    } else {
        "ies"@
    }
}

/// The ending of "director..." for a count.
pub fn plural_y(n: usize) -> (text: &'static str)
    ensures
        text@ == ending(n as nat),
{
    if n == 1 {
        "y"
    } else {
        "ies"
    }
}

/// How many directories have been handed out for sizing, and how many of them
/// have come back, in the whole session.
pub struct StatusView {
    /// How many were handed out.
    pub queued: nat,
    /// How many have come back.
    pub sized: nat,
}

/// The text of the status bar.
pub open spec fn status_text(status: StatusView) -> Seq<char> {
    if status.queued == 0 {
        "Ready"@
    } else if status.queued <= status.sized {
        "✓ Done — "@ + decimal(status.sized) + " director"@ + ending(status.sized) + " sized"@
    } else {
        "Sizing… "@ + decimal(status.sized) + "/"@ + decimal(status.queued) + " director"@ + ending(
            status.queued,
        ) + " ("@ + decimal((status.queued - status.sized) as nat) + " pending)"@
    }
}

/// The counters behind the status bar. Both only ever grow.
#[derive(Debug, Clone, Copy)]
pub struct Status {
    queued: usize,
    sized: usize,
}

impl View for Status {
    type V = StatusView;

    closed spec fn view(&self) -> StatusView {
        StatusView { queued: self.queued as nat, sized: self.sized as nat }
    }
}

impl Status {
    /// Nothing has been handed out yet.
    pub fn new() -> (status: Status)
        ensures
            status@ == (StatusView { queued: 0, sized: 0 }),
    {
        Status { queued: 0, sized: 0 }
    }

    /// How many directories have been handed out.
    pub fn queued(&self) -> (n: usize)
        ensures
            n as nat == self@.queued,
    {
        self.queued
    }

    /// How many directories have come back.
    pub fn sized(&self) -> (n: usize)
        ensures
            n as nat == self@.sized,
    {
        self.sized
    }

    /// Accounts for `n` directories that are handed out.
    pub fn enqueue(&mut self, n: usize)
        requires
            old(self)@.queued + n <= usize::MAX,
        ensures
            final(self)@ == (StatusView { queued: old(self)@.queued + n as nat, ..old(self)@ }),
    {
        self.queued = self.queued + n;
    }

    /// Accounts for one directory that has come back.
    pub fn complete_one(&mut self)
        requires
            old(self)@.sized < usize::MAX,
        ensures
            final(self)@ == (StatusView { sized: old(self)@.sized + 1, ..old(self)@ }),
    {
        self.sized = self.sized + 1;
    }

    /// The text that the status bar shows.
    pub fn refresh(&self) -> (text: String)
        ensures
            text@ == status_text(self@),
    {
        let pending: usize = if self.queued > self.sized {
            self.queued - self.sized
        } else {
            0
        };
        if self.queued == 0 {
            "Ready".to_string()
        } else if pending == 0 {
            let mut text = "✓ Done — ".to_string();
            text.append(to_decimal(self.sized as u64).as_str());
            text.append(" director");
            text.append(plural_y(self.sized));
            text.append(" sized");
            text
        } else {
            let mut text = "Sizing… ".to_string();
            text.append(to_decimal(self.sized as u64).as_str());
            text.append("/");
            text.append(to_decimal(self.queued as u64).as_str());
            text.append(" director");
            text.append(plural_y(self.queued));
            text.append(" (");
            text.append(to_decimal(pending as u64).as_str());
            text.append(" pending)");
            text
        }
    }
}

/// The status bar is ready until directories are handed out. While some of them
/// are still out it shows how many have come back, how many there were, and how
/// many are pending; once all are back it shows how many were sized.
pub proof fn law_the_bar_counts_directories(status: StatusView)
    ensures
        ({
            let text = status_text(status);
            let sized = decimal(status.sized);
            let queued = decimal(status.queued);
            &&& status.queued == 0 ==> text == "Ready"@
            &&& 0 < status.queued <= status.sized ==> {
                &&& stands_at(text, 0, "✓ Done — "@)
                &&& stands_at(text, 9, sized)
                &&& text.skip(9 + sized.len() as int) == if status.sized == 1 {
                    " directory sized"@
                } else {
                    " directories sized"@
                }
            }
            &&& status.sized < status.queued ==> {
                let pending = decimal((status.queued - status.sized) as nat);
                let at = 9 + sized.len() + queued.len() + if status.queued == 1 {
                    12int
                } else {
                    14int
                };
                &&& stands_at(text, 0, "Sizing… "@)
                &&& stands_at(text, 8, sized)
                &&& text[8 + sized.len() as int] == '/'
                &&& stands_at(text, 9 + sized.len() as int, queued)
                &&& stands_at(
                    text,
                    9 + sized.len() + queued.len() as int,
                    if status.queued == 1 {
                        " directory ("@
                    } else {
                        " directories ("@
                    },
                )
                &&& stands_at(text, at, pending)
                &&& text.skip(at + pending.len()) == " pending)"@
            }
        }),
{
    reveal_strlit("✓ Done — ");
    reveal_strlit(" director");
    reveal_strlit("y");
    reveal_strlit("ies");
    reveal_strlit(" sized");
    reveal_strlit(" directory sized");
    reveal_strlit(" directories sized");
    reveal_strlit("Sizing… ");
    reveal_strlit("/");
    reveal_strlit(" (");
    reveal_strlit(" directory (");
    reveal_strlit(" directories (");
    reveal_strlit(" pending)");
    let text = status_text(status);
    let sized = decimal(status.sized);
    let queued = decimal(status.queued);
    if 0 < status.queued <= status.sized {
        assert(text.subrange(0, 9) =~= "✓ Done — "@);
        assert(text.subrange(9, 9int + sized.len()) =~= sized);
        assert(text.skip(9 + sized.len() as int) =~= if status.sized == 1 {
            " directory sized"@
        } else {
            " directories sized"@
        });
    } else if status.sized < status.queued {
        let pending = decimal((status.queued - status.sized) as nat);
        let label = if status.queued == 1 {
            " directory ("@
        } else {
            " directories ("@
        };
        let after_sized = 9 + sized.len() as int;
        let after_queued = after_sized + queued.len();
        let at = after_queued + label.len();
        assert(text.subrange(0, 8) =~= "Sizing… "@);
        assert(text.subrange(8, 8int + sized.len()) =~= sized);
        assert(text.subrange(after_sized, after_queued) =~= queued);
        assert(text.subrange(after_queued, at) =~= label);
        assert(text.subrange(at, at + pending.len()) =~= pending);
        assert(text.skip(at + pending.len()) =~= " pending)"@);
    }
}

/// One directory is a directory; any other number, none among them, are
/// directories.
pub proof fn law_only_one_is_singular(n: nat)
    ensures
        n == 1 ==> ending(n) == seq!['y'],
        n != 1 ==> ending(n) == seq!['i', 'e', 's'],
{
    reveal_strlit("y");
    reveal_strlit("ies");
    assert(n == 1 ==> ending(n) =~= seq!['y']);
    assert(n != 1 ==> ending(n) =~= seq!['i', 'e', 's']);
}

} // verus!
