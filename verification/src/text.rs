//! Text operations on the lines of a buffer: joining and splitting lines,
//! comparing texts, and writing numbers in decimal.

use vstd::prelude::*;
use vstd::utf8::{encode_utf8, encode_scalar};

verus! {

/// The decimal digit `d`.
pub open spec fn digit_char(d: nat) -> char {
    if d == 0 { '0' }
    else if d == 1 { '1' }
    else if d == 2 { '2' }
    else if d == 3 { '3' }
    else if d == 4 { '4' }
    else if d == 5 { '5' }
    else if d == 6 { '6' }
    else if d == 7 { '7' }
    else if d == 8 { '8' }
    else { '9' }
}

/// `n` written in decimal, without leading zeros.
pub open spec fn decimal(n: nat) -> Seq<char>
    decreases n,
{
    if n < 10 {
        seq![digit_char(n)]
    } else {
        decimal(n / 10).push(digit_char(n % 10))
    }
}

/// The number that a sequence of decimal digits spells.
pub open spec fn digits_value(s: Seq<char>) -> int
    decreases s.len(),
{
    if s.len() == 0 {
        0
    } else {
        digits_value(s.drop_last()) * 10 + (s.last() as int - '0' as int)
    }
}

/// The decimal text of `n` spells `n`, in digits only, with no leading zero
/// but for 0 itself.
pub proof fn lemma_decimal_spells(n: nat)
    ensures
        digits_value(decimal(n)) == n,
        decimal(n).len() >= 1,
        forall|k: int| 0 <= k < decimal(n).len() ==> '0' <= #[trigger] decimal(n)[k] <= '9',
        decimal(n)[0] == '0' ==> n == 0,
    decreases n,
{
    if n < 10 {
        assert(decimal(n) == seq![digit_char(n)]);
        assert(decimal(n).drop_last().len() == 0);
        assert(digits_value(decimal(n).drop_last()) == 0);
        assert(digit_char(n) as int - '0' as int == n);
        assert(decimal(n).last() == digit_char(n));
    } else {
        lemma_decimal_spells(n / 10);
        let d = decimal(n / 10);
        assert(decimal(n).drop_last() == d);
        assert(decimal(n).last() == digit_char(n % 10));
        assert(digit_char(n % 10) as int - '0' as int == n % 10);
        assert(n == (n / 10) * 10 + n % 10) by (nonlinear_arith);
        assert forall|k: int| 0 <= k < decimal(n).len() implies '0' <= #[trigger] decimal(n)[k]
            <= '9' by {
            if k < d.len() {
                assert(decimal(n)[k] == d[k]);
            }
        }
        assert(decimal(n)[0] == d[0]);
    }
}

fn digit_str(d: usize) -> (s: &'static str)
    requires
        d < 10,
    ensures
        s@ == seq![digit_char(d as nat)],
{
    if d == 0 {
        proof { reveal_strlit("0"); }
        "0"
    } else if d == 1 {
        proof { reveal_strlit("1"); }
        "1"
    } else if d == 2 {
        proof { reveal_strlit("2"); }
        "2"
    } else if d == 3 {
        proof { reveal_strlit("3"); }
        "3"
    } else if d == 4 {
        proof { reveal_strlit("4"); }
        "4"
    } else if d == 5 {
        proof { reveal_strlit("5"); }
        "5"
    } else if d == 6 {
        proof { reveal_strlit("6"); }
        "6"
    } else if d == 7 {
        proof { reveal_strlit("7"); }
        "7"
    } else if d == 8 {
        proof { reveal_strlit("8"); }
        "8"
    } else {
        proof { reveal_strlit("9"); }
        "9"
    }
}

/// `n` in decimal.
pub fn decimal_string(n: usize) -> (s: String)
    ensures
        s@ == decimal(n as nat),
    decreases n,
{
    if n < 10 {
        String::from_str(digit_str(n))
    } else {
        let mut s = decimal_string(n / 10);
        s.append(digit_str(n % 10));
        s
    }
}

/// Lines joined into one text, with a newline between each two.
pub open spec fn join_lines(lines: Seq<Seq<char>>) -> Seq<char>
    decreases lines.len(),
{
    if lines.len() == 0 {
        Seq::empty()
    } else if lines.len() == 1 {
        lines[0]
    } else {
        join_lines(lines.drop_last()).push('\n') + lines.last()
    }
}

/// The texts of a sequence of strings.
pub open spec fn string_texts(ss: Seq<String>) -> Seq<Seq<char>> {
    ss.map_values(|s: String| s@)
}

/// `lines` joined with a newline between each two.
pub fn join_with_newlines(lines: &[String]) -> (s: String)
    ensures
        s@ == join_lines(string_texts(lines@)),
{
    let ghost all = string_texts(lines@);
    let mut out = String::new();
    let mut i: usize = 0;
    proof {
        reveal_strlit("\n");
        assert(all.take(0) == Seq::<Seq<char>>::empty());
    }
    while i < lines.len()
        invariant
            i <= lines@.len(),
            all == string_texts(lines@),
            all.len() == lines@.len(),
            out@ == join_lines(all.take(i as int)),
            "\n"@ == seq!['\n'],
        decreases lines@.len() - i,
    {
        let line = &lines[i];
        proof {
            assert(all.take(i + 1).drop_last() == all.take(i as int));
            assert(all.take(i + 1).last() == line@);
        }
        if i != 0 {
            out.append("\n");
        }
        out.append(line.as_str());
        proof {
            if i == 0 {
                assert(all.take(1)[0] == line@);
                assert(Seq::<char>::empty() + line@ == line@);
            }
        }
        i = i + 1;
    }
    proof {
        assert(all.take(lines@.len() as int) == all);
    }
    out
}

/// Whether two texts are the same.
pub fn same_text(a: &str, b: &str) -> (r: bool)
    ensures
        r == (a@ == b@),
{
    let n = a.unicode_len();
    if n != b.unicode_len() {
        return false;
    }
    let mut i: usize = 0;
    while i < n
        invariant
            n == a@.len(),
            n == b@.len(),
            i <= n,
            forall|j: int| 0 <= j < i ==> a@[j] == b@[j],
        decreases n - i,
    {
        if a.get_char(i) != b.get_char(i) {
            return false;
        }
        i = i + 1;
    }
    proof {
        assert(a@ =~= b@);
    }
    true
}

/// The number of characters at the front of `a` and `b` that are the same.
pub open spec fn common_prefix_len(a: Seq<char>, b: Seq<char>) -> nat
    decreases a.len(),
{
    if a.len() == 0 || b.len() == 0 || a[0] != b[0] {
        0
    } else {
        1 + common_prefix_len(a.drop_first(), b.drop_first())
    }
}

/// The common front of two texts is no longer than either.
pub proof fn lemma_common_prefix_len_bound(a: Seq<char>, b: Seq<char>)
    ensures
        common_prefix_len(a, b) <= a.len(),
        common_prefix_len(a, b) <= b.len(),
    decreases a.len(),
{
    if a.len() > 0 && b.len() > 0 && a[0] == b[0] {
        lemma_common_prefix_len_bound(a.drop_first(), b.drop_first());
    }
}

/// A text and a front part of it have that front part in common.
pub proof fn lemma_common_prefix_of_prefix(a: Seq<char>, k: int)
    requires
        0 <= k <= a.len(),
    ensures
        common_prefix_len(a, a.take(k)) == k,
    decreases k,
{
    if k > 0 {
        assert(a.take(k)[0] == a[0]);
        assert(a.take(k).drop_first() == a.drop_first().take(k - 1));
        lemma_common_prefix_of_prefix(a.drop_first(), k - 1);
    } else {
        assert(a.take(k).len() == 0);
    }
}

/// What two texts have in common at the front does not depend on their
/// order.
pub proof fn lemma_common_prefix_symmetric(a: Seq<char>, b: Seq<char>)
    ensures
        common_prefix_len(a, b) == common_prefix_len(b, a),
    decreases a.len(),
{
    if a.len() > 0 && b.len() > 0 && a[0] == b[0] {
        lemma_common_prefix_symmetric(a.drop_first(), b.drop_first());
    }
}

proof fn lemma_common_prefix_from(a: Seq<char>, b: Seq<char>, k: int)
    requires
        0 <= k <= a.len(),
        k <= b.len(),
        forall|j: int| 0 <= j < k ==> a[j] == b[j],
    ensures
        common_prefix_len(a, b) == k + common_prefix_len(a.skip(k), b.skip(k)),
    decreases k,
{
    if k > 0 {
        lemma_common_prefix_from(a.drop_first(), b.drop_first(), k - 1);
        assert(a.drop_first().skip(k - 1) == a.skip(k));
        assert(b.drop_first().skip(k - 1) == b.skip(k));
    } else {
        assert(a.skip(0) == a);
        assert(b.skip(0) == b);
    }
}

/// How many characters at the front of `a` and `b` are the same.
pub fn common_prefix_count(a: &str, b: &str) -> (n: usize)
    ensures
        n == common_prefix_len(a@, b@),
{
    let la = a.unicode_len();
    let lb = b.unicode_len();
    let mut i: usize = 0;
    while i < la && i < lb && a.get_char(i) == b.get_char(i)
        invariant
            la == a@.len(),
            lb == b@.len(),
            i <= la,
            i <= lb,
            forall|j: int| 0 <= j < i ==> a@[j] == b@[j],
        decreases la - i,
    {
        i = i + 1;
    }
    proof {
        lemma_common_prefix_from(a@, b@, i as int);
        let (sa, sb) = (a@.skip(i as int), b@.skip(i as int));
        if sa.len() > 0 && sb.len() > 0 {
            assert(sa[0] == a@[i as int]);
            assert(sb[0] == b@[i as int]);
        }
    }
    i
}

/// A line without the carriage return that ends it, if one does.
pub open spec fn strip_cr(line: Seq<char>) -> Seq<char> {
    if line.len() > 0 && line.last() == '\r' {
        line.drop_last()
    } else {
        line
    }
}

/// The lines of a text, read from `rest` onwards when the lines `done` are
/// complete and the line `cur` has begun: a newline ends a line, and a
/// carriage return just before it is not part of the line; a last line
/// without a newline counts where it is not empty.
pub open spec fn lines_from(done: Seq<Seq<char>>, cur: Seq<char>, rest: Seq<char>) -> Seq<Seq<char>>
    decreases rest.len(),
{
    if rest.len() == 0 {
        if cur.len() == 0 {
            done
        } else {
            done.push(cur)
        }
    } else if rest[0] == '\n' {
        lines_from(done.push(strip_cr(cur)), Seq::empty(), rest.drop_first())
    } else {
        lines_from(done, cur.push(rest[0]), rest.drop_first())
    }
}

/// The lines of a text.
pub open spec fn lines_of(text: Seq<char>) -> Seq<Seq<char>> {
    lines_from(Seq::empty(), Seq::empty(), text)
}

/// The lines of `text` (see `lines_from`).
pub fn split_lines(text: &str) -> (out: Vec<String>)
    ensures
        string_texts(out@) == lines_of(text@),
{
    let n = text.unicode_len();
    let mut out: Vec<String> = Vec::new();
    let mut start: usize = 0;
    let mut i: usize = 0;
    proof {
        assert(text@.subrange(0, 0) == Seq::<char>::empty());
        assert(text@.skip(0) == text@);
        assert(string_texts(out@) == Seq::<Seq<char>>::empty());
    }
    while i < n
        invariant
            n == text@.len(),
            start <= i <= n,
            lines_of(text@) == lines_from(
                string_texts(out@),
                text@.subrange(start as int, i as int),
                text@.skip(i as int),
            ),
        decreases n - i,
    {
        let c = text.get_char(i);
        proof {
            assert(text@.skip(i as int)[0] == c);
            assert(text@.skip(i as int).drop_first() == text@.skip(i + 1));
        }
        if c == '\n' {
            let mut end = i;
            if end > start && text.get_char(end - 1) == '\r' {
                end = end - 1;
            }
            let line = String::from_str(text.substring_char(start, end));
            proof {
                let cur = text@.subrange(start as int, i as int);
                assert(strip_cr(cur) == text@.subrange(start as int, end as int));
            }
            let ghost before = string_texts(out@);
            out.push(line);
            proof {
                assert(string_texts(out@) =~= before.push(line@));
                assert(text@.subrange((i + 1) as int, (i + 1) as int) == Seq::<char>::empty());
            }
            i = i + 1;
            start = i;
        } else {
            proof {
                assert(text@.subrange(start as int, i as int).push(c) == text@.subrange(
                    start as int,
                    i + 1,
                ));
            }
            i = i + 1;
        }
    }
    if start < n {
        let line = String::from_str(text.substring_char(start, n));
        let ghost before = string_texts(out@);
        out.push(line);
        proof {
            assert(string_texts(out@) =~= before.push(line@));
        }
    }
    out
}

/// The total number of characters of some lines.
pub open spec fn total_len(lines: Seq<Seq<char>>) -> nat
    decreases lines.len(),
{
    if lines.len() == 0 {
        0
    } else {
        total_len(lines.drop_last()) + lines.last().len()
    }
}

/// Joining lines puts one newline between each two: the text is as long as
/// the lines together, plus one less than their number.
pub proof fn lemma_join_lines_len(lines: Seq<Seq<char>>)
    requires
        lines.len() >= 1,
    ensures
        join_lines(lines).len() == total_len(lines) + lines.len() - 1,
    decreases lines.len(),
{
    if lines.len() > 1 {
        lemma_join_lines_len(lines.drop_last());
        assert(join_lines(lines).len() == join_lines(lines.drop_last()).len() + 1
            + lines.last().len());
    } else {
        assert(lines.drop_last().len() == 0);
        assert(total_len(lines.drop_last()) == 0);
        assert(lines.last() == lines[0]);
        assert(join_lines(lines) == lines[0]);
    }
}

proof fn lemma_join_lines_front(lines: Seq<Seq<char>>)
    requires
        lines.len() >= 2,
    ensures
        join_lines(lines) == lines[0] + seq!['\n'] + join_lines(lines.drop_first()),
    decreases lines.len(),
{
    if lines.len() == 2 {
        assert(lines.drop_last().len() == 1);
        assert(lines.drop_first().len() == 1);
        assert(join_lines(lines.drop_last()) == lines[0]);
        assert(join_lines(lines.drop_first()) == lines[1]);
        assert(lines[0].push('\n') == lines[0] + seq!['\n']);
    } else {
        let init = lines.drop_last();
        lemma_join_lines_front(init);
        assert(init.drop_first() == lines.drop_first().drop_last());
        assert(init[0] == lines[0]);
        assert(lines.drop_first().last() == lines.last());
        let j = join_lines(init.drop_first());
        assert((lines[0] + seq!['\n'] + j).push('\n') + lines.last() == lines[0] + seq!['\n'] + (
        j.push('\n') + lines.last()));
    }
}

proof fn lemma_lines_from_plain(done: Seq<Seq<char>>, cur: Seq<char>, t: Seq<char>, rest: Seq<char>)
    requires
        !t.contains('\n'),
    ensures
        lines_from(done, cur, t + rest) == lines_from(done, cur + t, rest),
    decreases t.len(),
{
    if t.len() == 0 {
        assert(t + rest == rest);
        assert(cur + t == cur);
    } else {
        assert((t + rest)[0] == t[0]);
        assert(t[0] != '\n');
        assert((t + rest).drop_first() == t.drop_first() + rest);
        assert(!t.drop_first().contains('\n')) by {
            if t.drop_first().contains('\n') {
                let k = choose|k: int| 0 <= k < t.drop_first().len() && t.drop_first()[k] == '\n';
                assert(t[k + 1] == '\n');
            }
        }
        lemma_lines_from_plain(done, cur.push(t[0]), t.drop_first(), rest);
        assert(cur.push(t[0]) + t.drop_first() == cur + t);
    }
}

proof fn lemma_lines_from_join(done: Seq<Seq<char>>, lines: Seq<Seq<char>>)
    requires
        lines.len() >= 1,
        forall|i: int| 0 <= i < lines.len() ==> !(#[trigger] lines[i]).contains('\n'),
        forall|i: int| 0 <= i < lines.len() - 1 ==> strip_cr(#[trigger] lines[i]) == lines[i],
        lines.last().len() > 0,
    ensures
        lines_from(done, Seq::empty(), join_lines(lines)) == done + lines,
    decreases lines.len(),
{
    let l0 = lines[0];
    assert(!l0.contains('\n'));
    if lines.len() == 1 {
        assert(join_lines(lines) == l0);
        lemma_lines_from_plain(done, Seq::empty(), l0, Seq::empty());
        assert(l0 + Seq::<char>::empty() == l0);
        assert(Seq::<char>::empty() + l0 == l0);
        assert(done.push(l0) == done + lines);
    } else {
        let rest = lines.drop_first();
        lemma_join_lines_front(lines);
        let j = join_lines(rest);
        assert(l0 + seq!['\n'] + j == l0 + (seq!['\n'] + j));
        lemma_lines_from_plain(done, Seq::empty(), l0, seq!['\n'] + j);
        assert(Seq::<char>::empty() + l0 == l0);
        assert((seq!['\n'] + j)[0] == '\n');
        assert((seq!['\n'] + j).drop_first() == j);
        assert(strip_cr(lines[0]) == l0);
        assert forall|i: int| 0 <= i < rest.len() implies !(#[trigger] rest[i]).contains('\n') by {
            assert(rest[i] == lines[i + 1]);
        }
        assert forall|i: int| 0 <= i < rest.len() - 1 implies strip_cr(#[trigger] rest[i])
            == rest[i] by {
            assert(rest[i] == lines[i + 1]);
        }
        lemma_lines_from_join(done.push(l0), rest);
        assert(done.push(l0) + rest == done + lines);
    }
}

/// A carriage return just before a newline is not part of the line, and a
/// newline at the very end adds no empty line: a line without newlines,
/// followed by a carriage return and a newline, is read as that line.
pub proof fn lemma_lines_drop_cr(done: Seq<Seq<char>>, line: Seq<char>, rest: Seq<char>)
    requires
        !line.contains('\n'),
    ensures
        lines_from(done, Seq::empty(), line + seq!['\r', '\n'] + rest) == lines_from(
            done.push(line),
            Seq::empty(),
            rest,
        ),
        lines_from(done, Seq::empty(), line + seq!['\n']) == done.push(strip_cr(line)),
{
    let t = line + seq!['\r'];
    assert(!t.contains('\n')) by {
        if t.contains('\n') {
            let k = choose|k: int| 0 <= k < t.len() && t[k] == '\n';
            if k < line.len() {
                assert(line[k] == '\n');
            }
        }
    }
    assert(line + seq!['\r', '\n'] + rest == t + (seq!['\n'] + rest));
    lemma_lines_from_plain(done, Seq::empty(), t, seq!['\n'] + rest);
    assert(Seq::<char>::empty() + t == t);
    assert((seq!['\n'] + rest)[0] == '\n');
    assert((seq!['\n'] + rest).drop_first() == rest);
    assert(t.last() == '\r' && t.drop_last() == line);
    lemma_lines_from_plain(done, Seq::empty(), line, seq!['\n']);
    assert(Seq::<char>::empty() + line == line);
    assert(seq!['\n'][0] == '\n');
    assert(seq!['\n'].drop_first().len() == 0);
    assert(lines_from(done.push(strip_cr(line)), Seq::empty(), seq!['\n'].drop_first()) == done.push(
        strip_cr(line),
    ));
}

/// The characters two texts have in common at the front are the same in
/// both, and the next ones, where both go on, differ.
pub proof fn lemma_common_prefix_meaning(a: Seq<char>, b: Seq<char>)
    ensures
        a.take(common_prefix_len(a, b) as int) == b.take(common_prefix_len(a, b) as int),
        common_prefix_len(a, b) < a.len() && common_prefix_len(a, b) < b.len() ==> a[common_prefix_len(
            a,
            b,
        ) as int] != b[common_prefix_len(a, b) as int],
    decreases a.len(),
{
    lemma_common_prefix_len_bound(a, b);
    if a.len() > 0 && b.len() > 0 && a[0] == b[0] {
        lemma_common_prefix_meaning(a.drop_first(), b.drop_first());
        let p = common_prefix_len(a, b) as int;
        assert(a.take(p) == seq![a[0]] + a.drop_first().take(p - 1));
        assert(b.take(p) == seq![b[0]] + b.drop_first().take(p - 1));
    } else {
        assert(a.take(0) == b.take(0));
    }
}

/// Splitting joined lines at their newlines gives the lines back, where no
/// line holds a newline, none but the last ends in a carriage return, and
/// the last is not empty; the joined text is as long as the lines together
/// plus the newlines between them.
pub proof fn lemma_split_joined_lines(lines: Seq<Seq<char>>)
    requires
        lines.len() >= 1,
        forall|i: int| 0 <= i < lines.len() ==> !(#[trigger] lines[i]).contains('\n'),
        forall|i: int| 0 <= i < lines.len() - 1 ==> strip_cr(#[trigger] lines[i]) == lines[i],
        lines.last().len() > 0,
    ensures
        lines_of(join_lines(lines)) == lines,
        join_lines(lines).len() == total_len(lines) + lines.len() - 1,
{
    lemma_lines_from_join(Seq::empty(), lines);
    assert(Seq::<Seq<char>>::empty() + lines == lines);
    lemma_join_lines_len(lines);
}

/// The pieces of a text between its newlines, read from `rest` onwards
/// when the pieces `done` are complete and the piece `cur` has begun: every
/// newline ends a piece, and what follows the last newline is the last
/// piece, even where it is empty.
pub open spec fn pieces_from(done: Seq<Seq<char>>, cur: Seq<char>, rest: Seq<char>) -> Seq<Seq<char>>
    decreases rest.len(),
{
    if rest.len() == 0 {
        done.push(cur)
    } else if rest[0] == '\n' {
        pieces_from(done.push(cur), Seq::empty(), rest.drop_first())
    } else {
        pieces_from(done, cur.push(rest[0]), rest.drop_first())
    }
}

/// The pieces of a text between its newlines.
pub open spec fn split_at_newlines(text: Seq<char>) -> Seq<Seq<char>> {
    pieces_from(Seq::empty(), Seq::empty(), text)
}

proof fn lemma_pieces_from_plain(done: Seq<Seq<char>>, cur: Seq<char>, t: Seq<char>, rest: Seq<char>)
    requires
        !t.contains('\n'),
    ensures
        pieces_from(done, cur, t + rest) == pieces_from(done, cur + t, rest),
    decreases t.len(),
{
    if t.len() == 0 {
        assert(t + rest == rest);
        assert(cur + t == cur);
    } else {
        assert((t + rest)[0] == t[0]);
        assert(t[0] != '\n');
        assert((t + rest).drop_first() == t.drop_first() + rest);
        assert(!t.drop_first().contains('\n')) by {
            if t.drop_first().contains('\n') {
                let k = choose|k: int| 0 <= k < t.drop_first().len() && t.drop_first()[k] == '\n';
                assert(t[k + 1] == '\n');
            }
        }
        lemma_pieces_from_plain(done, cur.push(t[0]), t.drop_first(), rest);
        assert(cur.push(t[0]) + t.drop_first() == cur + t);
    }
}

proof fn lemma_pieces_from_join(done: Seq<Seq<char>>, lines: Seq<Seq<char>>)
    requires
        lines.len() >= 1,
        forall|i: int| 0 <= i < lines.len() ==> !(#[trigger] lines[i]).contains('\n'),
    ensures
        pieces_from(done, Seq::empty(), join_lines(lines)) == done + lines,
    decreases lines.len(),
{
    let l0 = lines[0];
    assert(!l0.contains('\n'));
    assert(Seq::<char>::empty() + l0 == l0);
    if lines.len() == 1 {
        assert(join_lines(lines) == l0);
        lemma_pieces_from_plain(done, Seq::empty(), l0, Seq::empty());
        assert(l0 + Seq::<char>::empty() == l0);
        assert(done.push(l0) == done + lines);
    } else {
        let rest = lines.drop_first();
        lemma_join_lines_front(lines);
        let j = join_lines(rest);
        assert(l0 + seq!['\n'] + j == l0 + (seq!['\n'] + j));
        lemma_pieces_from_plain(done, Seq::empty(), l0, seq!['\n'] + j);
        assert((seq!['\n'] + j)[0] == '\n');
        assert((seq!['\n'] + j).drop_first() == j);
        assert forall|i: int| 0 <= i < rest.len() implies !(#[trigger] rest[i]).contains('\n') by {
            assert(rest[i] == lines[i + 1]);
        }
        lemma_pieces_from_join(done.push(l0), rest);
        assert(done.push(l0) + rest == done + lines);
    }
}

/// Cutting joined lines at their newlines gives the lines back, where no
/// line holds a newline.
pub proof fn lemma_split_joined_at_newlines(lines: Seq<Seq<char>>)
    requires
        lines.len() >= 1,
        forall|i: int| 0 <= i < lines.len() ==> !(#[trigger] lines[i]).contains('\n'),
    ensures
        split_at_newlines(join_lines(lines)) == lines,
{
    lemma_pieces_from_join(Seq::empty(), lines);
    assert(Seq::<Seq<char>>::empty() + lines == lines);
}

/// The UTF-8 bytes of two texts one after the other are the bytes of each.
pub proof fn lemma_encode_utf8_concat(a: Seq<char>, b: Seq<char>)
    ensures
        encode_utf8(a + b) == encode_utf8(a) + encode_utf8(b),
    decreases a.len(),
{
    if a.len() == 0 {
        assert(a + b == b);
        assert(Seq::<u8>::empty() + encode_utf8(b) == encode_utf8(b));
    } else {
        assert((a + b)[0] == a[0]);
        assert((a + b).drop_first() == a.drop_first() + b);
        lemma_encode_utf8_concat(a.drop_first(), b);
    }
}

/// The UTF-8 bytes of each line, plus one for the newline after it.
pub open spec fn line_bytes(lines: Seq<Seq<char>>) -> nat
    decreases lines.len(),
{
    if lines.len() == 0 {
        0
    } else {
        line_bytes(lines.drop_last()) + encode_utf8(lines.last()).len() + 1
    }
}

/// Joined lines take no more UTF-8 bytes than the lines with a newline
/// after each.
pub proof fn lemma_join_lines_bytes(lines: Seq<Seq<char>>)
    ensures
        encode_utf8(join_lines(lines)).len() <= line_bytes(lines),
    decreases lines.len(),
{
    if lines.len() == 1 {
        assert(lines.drop_last().len() == 0);
        assert(join_lines(lines) == lines.last());
    } else if lines.len() > 1 {
        let init = lines.drop_last();
        lemma_join_lines_bytes(init);
        let j = join_lines(init);
        assert(j.push('\n') == j + seq!['\n']);
        lemma_encode_utf8_concat(j, seq!['\n']);
        lemma_encode_utf8_concat(j + seq!['\n'], lines.last());
        let nl = seq!['\n'];
        assert(nl[0] as u32 == 10u32);
        assert(nl.drop_first().len() == 0);
        assert(encode_utf8(nl.drop_first()).len() == 0);
        assert(encode_scalar(nl[0] as u32).len() == 1);
        assert(encode_utf8(nl).len() == 1);
    }
}

} // verus!
