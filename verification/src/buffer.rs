//! The state kept of the editor's current buffer: its lines, the cursor,
//! its path, its number, a version counter and the last accepted edits.

use vstd::prelude::*;
use crate::text::{
    join_lines, string_texts, join_with_newlines, decimal, decimal_string, split_at_newlines,
    total_len, lemma_split_joined_at_newlines, lemma_join_lines_len,
};

verus! {

/// The state of the buffer being edited. `row` and `col` are 0-based.
#[derive(Clone)]
pub struct BufferState {
    pub lines: Vec<String>,
    pub row: i64,
    pub col: i64,
    pub path: String,
    pub version: i64,
    pub id: i64,
    pub diff_history: Vec<String>,
}

impl BufferState {
    /// Whether this is the state of no buffer yet: nothing in it, all
    /// numbers 0.
    pub open spec fn is_blank(&self) -> bool {
        &&& self.lines@.len() == 0
        &&& self.row == 0
        &&& self.col == 0
        &&& self.path@.len() == 0
        &&& self.version == 0
        &&& self.id == 0
        &&& self.diff_history@.len() == 0
    }
}

impl Default for BufferState {
    fn default() -> (s: Self)
        ensures
            s.is_blank(),
    {
        BufferState {
            lines: Vec::new(),
            row: 0,
            col: 0,
            path: String::new(),
            version: 0,
            id: 0,
            diff_history: Vec::new(),
        }
    }
}

/// The text of one removed line in an edit's record: its 1-based number,
/// `-|`, the line, a newline.
pub open spec fn removed_entry(number: nat, line: Seq<char>) -> Seq<char> {
    decimal(number) + seq!['-', '|'] + line + seq!['\n']
}

/// The text of one added line in an edit's record: its 1-based number,
/// `+|`, the line, a newline.
pub open spec fn added_entry(number: nat, line: Seq<char>) -> Seq<char> {
    decimal(number) + seq!['+', '|'] + line + seq!['\n']
}

/// The entries of the removed lines `lo..hi` (0-based, `hi` excluded).
pub open spec fn removed_entries(lines: Seq<Seq<char>>, lo: int, hi: int) -> Seq<char>
    decreases hi - lo,
{
    if hi <= lo {
        Seq::empty()
    } else {
        removed_entries(lines, lo, hi - 1) + removed_entry(hi as nat, lines[hi - 1])
    }
}

/// The entries of the first `k` added lines, numbered from `first` on.
pub open spec fn added_entries(lines: Seq<Seq<char>>, first: nat, k: int) -> Seq<char>
    decreases k,
{
    if k <= 0 {
        Seq::empty()
    } else {
        added_entries(lines, first, k - 1) + added_entry((first + k) as nat, lines[k - 1])
    }
}

/// The last line that an accepted edit over `start..=end` can remove: `end`,
/// but no further than the last line of the buffer. The 64-bit bounds are
/// read as unsigned, so a negative one counts as very large.
pub open spec fn last_removed(len: nat, end: i64) -> int {
    let last = if len == 0 { 0 } else { len - 1 };
    if (end as usize) < last { end as usize as int } else { last }
}

/// The record of an edit that replaces lines `start..=end` of `lines` by
/// `replacement`: an entry for each line removed, then one for each line
/// added.
pub open spec fn diff_text(
    lines: Seq<Seq<char>>,
    start: i64,
    end: i64,
    replacement: Seq<Seq<char>>,
) -> Seq<char> {
    removed_entries(lines, start as usize as int, last_removed(lines.len(), end) + 1)
        + added_entries(replacement, start as usize as nat, replacement.len() as int)
}

/// The history with `d` added at the end, of which only the last three
/// records are kept.
pub open spec fn history_after(history: Seq<Seq<char>>, d: Seq<char>) -> Seq<Seq<char>> {
    let h = history.push(d);
    if h.len() > 3 {
        h.skip(h.len() - 3)
    } else {
        h
    }
}

/// Accepting one line in place of one line records the line removed and
/// the line added, each after its 1-based line number.
pub proof fn lemma_diff_of_one_line(lines: Seq<Seq<char>>, start: i64, line: Seq<char>)
    requires
        0 <= start < lines.len(),
        start <= u32::MAX,
    ensures
        diff_text(lines, start, start, seq![line]) == decimal((start + 1) as nat) + seq!['-', '|']
            + lines[start as int] + seq!['\n'] + decimal((start + 1) as nat) + seq!['+', '|'] + line
            + seq!['\n'],
{
    assert(start as usize as int == start as int);
    assert(last_removed(lines.len(), start) == start as int);
    let s = start as int;
    assert(removed_entries(lines, s, s) == Seq::<char>::empty());
    assert(removed_entries(lines, s, s + 1) == Seq::<char>::empty() + removed_entry(
        (s + 1) as nat,
        lines[s],
    ));
    assert(added_entries(seq![line], s as nat, 0) == Seq::<char>::empty());
    assert(added_entries(seq![line], s as nat, 1) == Seq::<char>::empty() + added_entry(
        (s + 1) as nat,
        line,
    ));
    assert(Seq::<char>::empty() + removed_entry((s + 1) as nat, lines[s]) == removed_entry(
        (s + 1) as nat,
        lines[s],
    ));
    assert(Seq::<char>::empty() + added_entry((s + 1) as nat, line) == added_entry(
        (s + 1) as nat,
        line,
    ));
    assert(removed_entry((s + 1) as nat, lines[s]) + added_entry((s + 1) as nat, line) == decimal(
        (start + 1) as nat,
    ) + seq!['-', '|'] + lines[start as int] + seq!['\n'] + decimal((start + 1) as nat) + seq![
        '+',
        '|',
    ] + line + seq!['\n']);
}

/// Adding a record to a history of at most three records leaves at most
/// three, the new one last and the ones before it in their order.
pub proof fn lemma_history_bounded(history: Seq<Seq<char>>, d: Seq<char>)
    requires
        history.len() <= 3,
    ensures
        history_after(history, d).len() <= 3,
        history_after(history, d).last() == d,
        history_after(history, d).drop_last() == (if history.len() == 3 {
            history.drop_first()
        } else {
            history
        }),
{
    let h = history.push(d);
    if h.len() > 3 {
        assert(h.skip(1).drop_last() == history.drop_first());
    } else {
        assert(h.drop_last() == history);
    }
}

/// The text of a buffer, where no line holds a newline, cuts at its
/// newlines into the buffer's lines again, and is as long as the lines
/// together plus the newlines between them.
pub proof fn lemma_contents_splits_into_lines(b: BufferState)
    requires
        b.lines@.len() >= 1,
        forall|i: int|
            0 <= i < b.lines@.len() ==> !(#[trigger] string_texts(b.lines@)[i]).contains('\n'),
    ensures
        split_at_newlines(join_lines(string_texts(b.lines@))) == string_texts(b.lines@),
        join_lines(string_texts(b.lines@)).len() == total_len(string_texts(b.lines@))
            + b.lines@.len() - 1,
{
    lemma_split_joined_at_newlines(string_texts(b.lines@));
    lemma_join_lines_len(string_texts(b.lines@));
}

impl BufferState {
    /// A state of no buffer yet.
    pub fn new() -> (s: Self)
        ensures
            s.is_blank(),
    {
        Self::default()
    }

    /// The buffer's text: its lines joined with newlines.
    pub fn contents(&self) -> (s: String)
        ensures
            s@ == join_lines(string_texts(self.lines@)),
    {
        join_with_newlines(self.lines.as_slice())
    }

    /// Takes in what the editor reports of its current buffer: its number,
    /// path and lines, and the cursor (1-based row, 0-based column). Another
    /// buffer than before starts with no history and version 0.
    pub fn apply_sync(
        &mut self,
        buf_id: i64,
        path: String,
        lines: Vec<String>,
        cursor_row: i64,
        cursor_col: i64,
    )
        requires
            cursor_row > i64::MIN,
        ensures
            final(self).lines@ == lines@,
            final(self).row == cursor_row - 1,
            final(self).col == cursor_col,
            final(self).path@ == path@,
            final(self).id == buf_id,
            old(self).id != buf_id ==> final(self).diff_history@.len() == 0 && final(self).version
                == 0,
            old(self).id == buf_id ==> final(self).diff_history@ == old(self).diff_history@
                && final(self).version == old(self).version,
    {
        self.lines = lines;
        self.row = cursor_row - 1;
        self.col = cursor_col;
        self.path = path;
        if self.id != buf_id {
            self.id = buf_id;
            self.diff_history = Vec::new();
            self.version = 0;
        }
    }

    /// Records an accepted edit that replaced lines `start..=end` (0-based)
    /// by `replacement`: its record (see `diff_text`) goes at the end of the
    /// history, of which the last three are kept, and the version goes up by
    /// one. The lines are those from before the edit.
    pub fn record_accept(&mut self, start: i64, end: i64, replacement: &[String])
        requires
            old(self).version < i64::MAX,
            !(old(self).lines@.len() == 0 && start as usize == 0),
            (start as usize) + replacement@.len() <= usize::MAX,
        ensures
            string_texts(final(self).diff_history@) == history_after(
                string_texts(old(self).diff_history@),
                diff_text(
                    string_texts(old(self).lines@),
                    start,
                    end,
                    string_texts(replacement@),
                ),
            ),
            final(self).version == old(self).version + 1,
            final(self).lines == old(self).lines,
            final(self).row == old(self).row,
            final(self).col == old(self).col,
            final(self).path == old(self).path,
            final(self).id == old(self).id,
    {
        let ghost lines = string_texts(self.lines@);
        let ghost repl = string_texts(replacement@);
        let s = #[verifier::truncate] (start as usize);
        let n = self.lines.len();
        let last = if n == 0 { 0 } else { n - 1 };
        let e = #[verifier::truncate] (end as usize);
        let hi = if e < last { e } else { last };
        let mut diff = String::new();
        proof {
            reveal_strlit("-|");
            reveal_strlit("+|");
            reveal_strlit("\n");
        }
        let mut i = s;
        if s <= hi {
            while i <= hi
                invariant
                    s <= i <= hi + 1,
                    hi < n,
                    n == self.lines@.len(),
                    lines == string_texts(self.lines@),
                    diff@ == removed_entries(lines, s as int, i as int),
                    "-|"@ == seq!['-', '|'],
                    "\n"@ == seq!['\n'],
                decreases hi + 1 - i,
            {
                let number = decimal_string(i + 1);
                diff.append(number.as_str());
                diff.append("-|");
                diff.append(self.lines[i].as_str());
                diff.append("\n");
                proof {
                    assert(removed_entries(lines, s as int, i + 1) == removed_entries(
                        lines,
                        s as int,
                        i as int,
                    ) + removed_entry((i + 1) as nat, lines[i as int]));
                }
                i = i + 1;
            }
        }
        proof {
            assert(diff@ == removed_entries(lines, s as int, hi + 1));
        }
        let ghost removed = diff@;
        let mut j: usize = 0;
        while j < replacement.len()
            invariant
                j <= replacement@.len(),
                s + replacement@.len() <= usize::MAX,
                repl == string_texts(replacement@),
                diff@ == removed + added_entries(repl, s as nat, j as int),
                "+|"@ == seq!['+', '|'],
                "\n"@ == seq!['\n'],
            decreases replacement@.len() - j,
        {
            let number = decimal_string(s + j + 1);
            diff.append(number.as_str());
            diff.append("+|");
            diff.append(replacement[j].as_str());
            diff.append("\n");
            proof {
                assert(added_entries(repl, s as nat, j + 1) == added_entries(repl, s as nat, j as int)
                    + added_entry((s + j + 1) as nat, repl[j as int]));
            }
            j = j + 1;
        }
        let ghost d = diff@;
        let ghost before = string_texts(self.diff_history@);
        self.diff_history.push(diff);
        proof {
            assert(string_texts(self.diff_history@) =~= before.push(d));
        }
        if self.diff_history.len() > 3 {
            let len = self.diff_history.len();
            let ghost h = self.diff_history@;
            let kept = self.diff_history.split_off(len - 3);
            self.diff_history = kept;
            proof {
                assert(string_texts(self.diff_history@) =~= string_texts(h).skip(h.len() - 3));
            }
        }
        self.version = self.version + 1;
    }
}

} // verus!
