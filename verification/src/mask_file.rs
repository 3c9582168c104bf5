//! The file of the exact rows: a heading, and on each line a row with its label behind a tab.
use crate::probe_laws::{integer_is_read_back, numeral_is_read_back};
use crate::stitch_laws::line_in_front;
use crate::text::{dec, i64_value, int_text, is_digit, is_white, parse_i64, push_i64, push_usize, string_of, trim_start,
    white, white_prefix};
use crate::words::{has_prefix, lines, lines_of, spelled, starts_with, without_return};
use vstd::prelude::*;

verus! {

/// How many characters stand before the first white space.
pub open spec fn word_len(s: Seq<char>) -> int
    decreases s.len(),
{
    if s.len() == 0 || is_white(s[0]) { 0 } else { 1 + word_len(s.skip(1)) }
}

/// The row that a line names: its first word, if that is a number and the line is no remark.
pub open spec fn row_on(line: Seq<char>) -> Option<i64> {
    let t = trim_start(line);
    if has_prefix(t, "#"@) { None } else { i64_value(t.take(word_len(t))) }
}

/// Numbers that grow from one to the next.
pub open spec fn grows(v: Seq<i64>) -> bool {
    forall|i: int, j: int| 0 <= i < j < v.len() ==> #[trigger] v[i] < #[trigger] v[j]
}

/// A line among the first `n` names the row.
pub open spec fn named(ls: Seq<Seq<char>>, n: int, x: i64) -> bool {
    exists|i: int| 0 <= i < n && row_on(#[trigger] ls[i]) == Some(x)
}

/// The rows that the lines of a text name, each once, in ascending order.
pub open spec fn is_mask_in(rows: Seq<i64>, text: Seq<char>) -> bool {
    &&& grows(rows)
    &&& forall|x: i64| #[trigger] rows.contains(x) == named(lines_of(text), lines_of(text).len() as int, x)
}

fn count_word(s: &[char]) -> (n: usize)
    ensures
        n == word_len(s@),
        n <= s@.len(),
{
    let mut n: usize = 0;
    assert(s@.skip(0) =~= s@);
    while n < s.len() && !white(s[n])
        invariant
            n <= s@.len(),
            word_len(s@) == n + word_len(s@.skip(n as int)),
        decreases s@.len() - n,
    {
        assert(s@.skip(n as int)[0] == s@[n as int]);
        assert(s@.skip(n as int).skip(1) =~= s@.skip(n + 1));
        n += 1;
    }
    n
}

fn read_row(line: &[char]) -> (r: Option<i64>)
    ensures
        r == row_on(line@),
{
    let from: usize = white_prefix(line);
    let t = vstd::slice::slice_subrange(line, from, line.len());
    assert(t@ =~= line@.skip(from as int));
    if starts_with(t, "#") {
        return None;
    }
    let n: usize = count_word(t);
    let word = string_of(vstd::slice::slice_subrange(t, 0, n));
    assert(word@ =~= t@.take(n as int));
    parse_i64(word.as_str())
}

fn place(v: &mut Vec<i64>, x: i64)
    requires
        grows(old(v)@),
    ensures
        grows(final(v)@),
        forall|y: i64| #[trigger] final(v)@.contains(y) == (old(v)@.contains(y) || y == x),
{
    let n: usize = v.len();
    let mut at: usize = 0;
    while at < n && v[at] < x
        invariant
            n == v@.len(),
            at <= n,
            v@ == old(v)@,
            forall|i: int| 0 <= i < at ==> #[trigger] v@[i] < x,
        decreases n - at,
    {
        at += 1;
    }
    let ghost was = v@;
    if at < n && v[at] == x {
        assert(was.contains(x));
        return;
    }
    assert forall|i: int| at <= i < n implies #[trigger] was[i] > x by {
        if i > at {
            assert(was[at as int] < was[i]);
        }
    }
    v.insert(at, x);
    assert(v@ =~= was.insert(at as int, x));
    assert forall|i: int, j: int| 0 <= i < j < v@.len() implies #[trigger] v@[i] < #[trigger] v@[j] by {
        let a = if i < at { i } else { i - 1 };
        let b = if j < at { j } else { j - 1 };
        if i != at {
            assert(v@[i] == was[a]);
        }
        if j != at {
            assert(v@[j] == was[b]);
        }
    }
    assert forall|y: i64| #[trigger] v@.contains(y) == (was.contains(y) || y == x) by {
        if v@.contains(y) && y != x {
            let i = choose|i: int| 0 <= i < v@.len() && v@[i] == y;
            assert(was[if i < at { i } else { i - 1 }] == y);
        }
        if was.contains(y) {
            let i = choose|i: int| 0 <= i < was.len() && was[i] == y;
            assert(v@[if i < at { i } else { i + 1 }] == y);
        }
        if y == x {
            assert(v@[at as int] == x);
        }
    }
}

/// Reads the rows of a file; remarks and lines that start with no number are passed over.
pub fn read_mask(text: &str) -> (rows: Vec<i64>)
    ensures
        is_mask_in(rows@, text@),
{
    let ls = lines(text);
    let mut rows: Vec<i64> = Vec::new();
    for k in 0..ls.len()
        invariant
            spelled(ls@) == lines_of(text@),
            grows(rows@),
            forall|x: i64| #[trigger] rows@.contains(x) == named(lines_of(text@), k as int, x),
    {
        let ghost all = lines_of(text@);
        let ghost was = rows@;
        assert(all[k as int] == ls@[k as int]@);
        let row = read_row(ls[k].as_slice());
        if let Some(x) = row {
            place(&mut rows, x);
        }
        assert forall|x: i64| #[trigger] rows@.contains(x) == named(all, k + 1, x) by {
            if named(all, k as int, x) {
                let i = choose|i: int| 0 <= i < k && row_on(#[trigger] all[i]) == Some(x);
                assert(0 <= i < k + 1 && row_on(all[i]) == Some(x));
            }
            if named(all, k + 1, x) && !named(all, k as int, x) {
                let i = choose|i: int| 0 <= i < k + 1 && row_on(#[trigger] all[i]) == Some(x);
                assert(i == k);
            }
        }
    }
    rows
}

/// The row stands among the first `n`.
pub open spec fn listed(rows: Seq<i64>, n: int, v: int) -> bool {
    exists|k: int| 0 <= k < n && #[trigger] rows[k] == v
}

/// The rows as one mark for each row of a vocabulary; a row outside it marks nothing.
pub fn mark_rows(rows: &[i64], vocab: usize) -> (mask: Vec<bool>)
    ensures
        mask@.len() == vocab,
        forall|v: int| 0 <= v < vocab ==> #[trigger] mask@[v] == listed(rows@, rows@.len() as int, v),
{
    let mut mask: Vec<bool> = Vec::new();
    for v in 0..vocab
        invariant
            mask@.len() == v,
            forall|u: int| 0 <= u < v ==> !#[trigger] mask@[u],
    {
        mask.push(false);
    }
    for k in 0..rows.len()
        invariant
            mask@.len() == vocab,
            forall|v: int| 0 <= v < vocab ==> #[trigger] mask@[v] == listed(rows@, k as int, v),
    {
        let row: i64 = rows[k];
        let ghost was = mask@;
        if row >= 0 && (row as u64) < vocab as u64 {
            mask.set(row as usize, true);
        }
        assert forall|v: int| 0 <= v < vocab implies #[trigger] mask@[v] == listed(rows@, k + 1, v) by {
            assert(was[v] == listed(rows@, k as int, v));
            if listed(rows@, k as int, v) {
                let i = choose|i: int| 0 <= i < k && #[trigger] rows@[i] == v;
                assert(0 <= i < k + 1 && rows@[i] == v);
            }
            if v == row {
                assert(rows@[k as int] == v);
            }
        }
    }
    mask
}

/// The marked rows, in ascending order.
pub fn marked_rows(mask: &[bool]) -> (rows: Vec<i64>)
    requires
        mask@.len() <= i64::MAX,
    ensures
        grows(rows@),
        forall|x: i64| #[trigger] rows@.contains(x) == (0 <= x < mask@.len() && mask@[x as int]),
{
    let mut rows: Vec<i64> = Vec::new();
    for v in 0..mask.len()
        invariant
            mask@.len() <= i64::MAX,
            grows(rows@),
            forall|i: int| 0 <= i < rows@.len() ==> #[trigger] rows@[i] < v,
            forall|x: i64| #[trigger] rows@.contains(x) == (0 <= x < v && mask@[x as int]),
    {
        let ghost was = rows@;
        if mask[v] {
            rows.push(v as i64);
            assert(rows@[was.len() as int] == v as i64);
            assert forall|x: i64| #[trigger] rows@.contains(x) == (0 <= x < v + 1 && mask@[x as int]) by {
                if was.contains(x) {
                    let i = choose|i: int| 0 <= i < was.len() && was[i] == x;
                    assert(rows@[i] == x);
                }
                if rows@.contains(x) {
                    let i = choose|i: int| 0 <= i < rows@.len() && rows@[i] == x;
                    assert(i == was.len() || was[i] == x);
                }
            }
        }
    }
    rows
}

/// The line of a row.
pub open spec fn row_line(row: i64, label: Seq<char>) -> Seq<char> {
    int_text(row as int) + "\t"@ + label
}

/// The lines of the first `n` rows, with line feeds between them.
pub open spec fn row_lines(rows: Seq<i64>, labels: Seq<String>, n: nat) -> Seq<char>
    decreases n,
{
    if n == 0 {
        Seq::empty()
    } else if n == 1 {
        row_line(rows[0], labels[0]@)
    } else {
        row_lines(rows, labels, (n - 1) as nat) + "\n"@ + row_line(rows[n - 1], labels[n - 1]@)
    }
}

/// The first line of the file, without its end.
pub open spec fn mask_heading(rows: nat, trits: nat, decisions: nat) -> Seq<char> {
    "# residual mask: "@ + dec(rows) + " rows, "@ + dec(trits) + "-trit bulk, "@ + dec(decisions) + " decisions"@
}

/// The file of the rows.
pub open spec fn mask_file(rows: Seq<i64>, labels: Seq<String>, trits: nat, decisions: nat) -> Seq<char> {
    mask_heading(rows.len(), trits, decisions) + "\n"@ + row_lines(rows, labels, rows.len()) + "\n"@
}

/// Writes the rows with their labels.
pub fn mask_text(rows: &[i64], labels: &[String], trits: usize, decisions: usize) -> (s: String)
    requires
        rows@.len() == labels@.len(),
    ensures
        s@ == mask_file(rows@, labels@, trits as nat, decisions as nat),
{
    let mut s = String::new();
    s.append("# residual mask: ");
    push_usize(&mut s, rows.len());
    s.append(" rows, ");
    push_usize(&mut s, trits);
    s.append("-trit bulk, ");
    push_usize(&mut s, decisions);
    s.append(" decisions");
    let ghost head = mask_heading(rows@.len(), trits as nat, decisions as nat);
    assert(s@ =~= head);
    s.append("\n");
    assert(s@ =~= head + "\n"@ + row_lines(rows@, labels@, 0));
    for k in 0..rows.len()
        invariant
            rows@.len() == labels@.len(),
            s@ == head + "\n"@ + row_lines(rows@, labels@, k as nat),
    {
        let ghost was = s@;
        if k > 0 {
            s.append("\n");
        }
        push_i64(&mut s, rows[k]);
        s.append("\t");
        s.append(labels[k].as_str());
        proof {
            let line = row_line(rows@[k as int], labels@[k as int]@);
            if k > 0 {
                assert(s@ =~= was + "\n"@ + line);
                let body = row_lines(rows@, labels@, k as nat);
                assert(head + "\n"@ + body + "\n"@ + line =~= head + "\n"@ + (body + "\n"@ + line));
            } else {
                assert(row_lines(rows@, labels@, 0) =~= Seq::empty());
                assert(s@ =~= head + "\n"@ + line);
            }
        }
    }
    s.append("\n");
    s
}

proof fn word_ends(s: Seq<char>, k: int)
    requires
        0 <= k < s.len(),
        is_white(s[k]),
        forall|i: int| 0 <= i < k ==> !is_white(#[trigger] s[i]),
    ensures
        word_len(s) == k,
    decreases k,
{
    if k > 0 {
        assert(!is_white(s[0]));
        assert forall|i: int| 0 <= i < k - 1 implies !is_white(#[trigger] s.skip(1)[i]) by {
            assert(!is_white(s[i + 1]));
        }
        word_ends(s.skip(1), k - 1);
    }
}

proof fn numeral_is_a_word(i: int)
    ensures
        int_text(i).len() > 0,
        forall|k: int| 0 <= k < int_text(i).len() ==> !is_white(#[trigger] int_text(i)[k]) && int_text(i)[k] != '#',
{
    let d = dec(if i < 0 { (-i) as nat } else { i as nat });
    numeral_is_read_back(if i < 0 { (-i) as nat } else { i as nat });
    assert forall|k: int| 0 <= k < int_text(i).len() implies !is_white(#[trigger] int_text(i)[k]) && int_text(i)[k]
        != '#' by {
        if i < 0 && k > 0 {
            assert(int_text(i)[k] == d[k - 1]);
            assert(is_digit(d[k - 1]));
        } else if i >= 0 {
            assert(is_digit(d[k]));
        }
    }
}

/// The line of a row names it, whatever its label is.
proof fn row_line_is_read(row: i64, label: Seq<char>)
    requires
        !label.contains('\n'),
    ensures
        row_on(without_return(row_line(row, label))) == Some(row),
        !row_line(row, label).contains('\n'),
{
    reveal_strlit("\t");
    reveal_strlit("#");
    let d = int_text(row as int);
    let k = d.len() as int;
    let line = row_line(row, label);
    let l = without_return(line);
    numeral_is_a_word(row as int);
    assert(line[k] == '\t');
    assert forall|i: int| 0 <= i <= k implies i < l.len() && #[trigger] l[i] == line[i] by {}
    assert forall|i: int| 0 <= i < k implies #[trigger] l[i] == d[i] && !is_white(l[i]) by {
        assert(!is_white(d[i]));
    }
    assert(!is_white(d[0]) && d[0] != '#');
    assert(trim_start(l) == l);
    assert(l[k] == '\t');
    word_ends(l, k);
    assert(l.take(k) =~= d);
    integer_is_read_back(row);
    assert(l[0] == d[0]);
    assert(!has_prefix(l, "#"@)) by {
        if has_prefix(l, "#"@) {
            assert(l.take(1)[0] == '#');
        }
    }
    assert forall|i: int| 0 <= i < line.len() implies line[i] != '\n' by {
        if i < k {
            assert(!is_white(d[i]));
        } else if i > k {
            assert(line[i] == label[i - k - 1]);
        }
    }
}

/// The lines that the rows take.
spec fn lines_of_rows(rows: Seq<i64>, labels: Seq<String>, n: nat) -> Seq<Seq<char>> {
    if n == 0 {
        seq![Seq::empty()]
    } else {
        Seq::new(n, |i: int| without_return(row_line(rows[i], labels[i]@)))
    }
}

proof fn row_lines_are_split(rows: Seq<i64>, labels: Seq<String>, n: nat, rest: Seq<char>)
    requires
        n <= rows.len() == labels.len(),
        forall|i: int| 0 <= i < labels.len() ==> !(#[trigger] labels[i])@.contains('\n'),
    ensures
        lines_of(row_lines(rows, labels, n) + seq!['\n'] + rest) == lines_of_rows(rows, labels, n) + lines_of(rest),
    decreases n,
{
    if n == 0 {
        line_in_front(Seq::empty(), rest);
        assert(without_return(Seq::empty()) =~= Seq::empty());
    } else {
        assert(!labels[n - 1]@.contains('\n'));
        let line = row_line(rows[n - 1], labels[n - 1]@);
        row_line_is_read(rows[n - 1], labels[n - 1]@);
        line_in_front(line, rest);
        if n == 1 {
            assert(lines_of_rows(rows, labels, 1) =~= seq![without_return(line)]);
        } else {
            reveal_strlit("\n");
            assert("\n"@ =~= seq!['\n']);
            let front = row_lines(rows, labels, (n - 1) as nat);
            let tail = line + seq!['\n'] + rest;
            row_lines_are_split(rows, labels, (n - 1) as nat, tail);
            assert(row_lines(rows, labels, n) + seq!['\n'] + rest =~= front + seq!['\n'] + tail);
            assert(lines_of_rows(rows, labels, (n - 1) as nat) + (seq![without_return(line)] + lines_of(rest))
                =~= lines_of_rows(rows, labels, n) + lines_of(rest));
        }
    }
}

proof fn heading_is_a_remark(rows: nat, trits: nat, decisions: nat)
    ensures
        !mask_heading(rows, trits, decisions).contains('\n'),
        row_on(without_return(mask_heading(rows, trits, decisions))) is None,
{
    reveal_strlit("# residual mask: ");
    reveal_strlit(" rows, ");
    reveal_strlit("-trit bulk, ");
    reveal_strlit(" decisions");
    reveal_strlit("#");
    numeral_is_read_back(rows);
    numeral_is_read_back(trits);
    numeral_is_read_back(decisions);
    let (a, b, c, d) = ("# residual mask: "@, " rows, "@, "-trit bulk, "@, " decisions"@);
    let p = a + dec(rows);
    let q = p + b + dec(trits);
    let r = q + c + dec(decisions);
    let h = mask_heading(rows, trits, decisions);
    assert forall|i: int| 0 <= i < h.len() implies h[i] != '\n' by {
        if i < p.len() {
            assert(h[i] == p[i]);
            if i >= a.len() {
                assert(is_digit(dec(rows)[i - a.len()]));
            }
        } else if i < q.len() {
            assert(h[i] == q[i]);
            if i >= p.len() + b.len() {
                assert(is_digit(dec(trits)[i - p.len() - b.len()]));
            }
        } else if i < r.len() {
            assert(h[i] == r[i]);
            if i >= q.len() + c.len() {
                assert(is_digit(dec(decisions)[i - q.len() - c.len()]));
            }
        } else {
            assert(h[i] == d[i - r.len()]);
        }
    }
    assert(h.last() == d[9]);
    assert(h[0] == '#');
    assert(trim_start(h) == h);
    assert(h.take(1) =~= "#"@);
}

/// A file of rows gives back the rows that were written, in ascending order, whatever their labels are as long as
/// each stays on its line.
pub proof fn written_mask_is_read_back(
    rows: Seq<i64>,
    labels: Seq<String>,
    trits: nat,
    decisions: nat,
    read: Seq<i64>,
)
    requires
        rows.len() == labels.len(),
        grows(rows),
        forall|i: int| 0 <= i < labels.len() ==> !(#[trigger] labels[i])@.contains('\n'),
        is_mask_in(read, mask_file(rows, labels, trits, decisions)),
    ensures
        read == rows,
{
    reveal_strlit("\n");
    assert("\n"@ =~= seq!['\n']);
    let head = mask_heading(rows.len(), trits, decisions);
    let body = row_lines(rows, labels, rows.len());
    let text = mask_file(rows, labels, trits, decisions);
    let tail = body + seq!['\n'] + Seq::<char>::empty();
    assert(text =~= head + seq!['\n'] + tail);
    heading_is_a_remark(rows.len(), trits, decisions);
    line_in_front(head, tail);
    row_lines_are_split(rows, labels, rows.len(), Seq::empty());
    let mine = lines_of_rows(rows, labels, rows.len());
    assert(mine + lines_of(Seq::<char>::empty()) =~= mine);
    let ls = lines_of(text);
    assert(ls =~= seq![without_return(head)] + mine);
    assert forall|x: i64| #[trigger] read.contains(x) == rows.contains(x) by {
        if named(ls, ls.len() as int, x) {
            let i = choose|i: int| 0 <= i < ls.len() && row_on(#[trigger] ls[i]) == Some(x);
            if i > 0 {
                assert(ls[i] == mine[i - 1]);
                if rows.len() == 0 {
                    empty_line_names_nothing();
                } else {
                    assert(!labels[i - 1]@.contains('\n'));
                    row_line_is_read(rows[i - 1], labels[i - 1]@);
                    assert(rows[i - 1] == x);
                }
            }
        }
        if rows.contains(x) {
            let i = choose|i: int| 0 <= i < rows.len() && rows[i] == x;
            assert(!labels[i]@.contains('\n'));
            row_line_is_read(rows[i], labels[i]@);
            assert(ls[i + 1] == mine[i]);
        }
    }
    same_when_growing(read, rows);
}

proof fn empty_line_names_nothing()
    ensures
        row_on(Seq::empty()) is None,
{
    assert(trim_start(Seq::empty()) == Seq::<char>::empty());
    assert(Seq::<char>::empty().take(0) =~= Seq::empty());
}

/// Growing sequences of the same numbers are the same.
proof fn same_when_growing(a: Seq<i64>, b: Seq<i64>)
    requires
        grows(a),
        grows(b),
        forall|x: i64| #[trigger] a.contains(x) == b.contains(x),
    ensures
        a == b,
    decreases a.len(),
{
    if a.len() == 0 {
        if b.len() > 0 {
            assert(b.contains(b[0]) && a.contains(b[0]));
        }
        assert(a =~= b);
    } else {
        assert(a.contains(a.last()));
        let j = choose|j: int| 0 <= j < b.len() && b[j] == a.last();
        assert(b.contains(b.last()) && a.contains(b.last()));
        let i = choose|i: int| 0 <= i < a.len() && a[i] == b.last();
        assert(a.last() == b.last()) by {
            if j < b.len() - 1 {
                assert(b[j] < b[b.len() - 1]);
            }
            if i < a.len() - 1 {
                assert(a[i] < a[a.len() - 1]);
            }
        }
        let (c, d) = (a.drop_last(), b.drop_last());
        assert forall|x: i64| #[trigger] c.contains(x) == d.contains(x) by {
            if c.contains(x) {
                let k = choose|k: int| 0 <= k < c.len() && c[k] == x;
                assert(a[k] == x && a[k] < a[a.len() - 1]);
                assert(a.contains(x));
                let m = choose|m: int| 0 <= m < b.len() && b[m] == x;
                assert(d[m] == x);
            }
            if d.contains(x) {
                let k = choose|k: int| 0 <= k < d.len() && d[k] == x;
                assert(b[k] == x && b[k] < b[b.len() - 1]);
                assert(b.contains(x) && a.contains(x));
                let m = choose|m: int| 0 <= m < a.len() && a[m] == x;
                assert(c[m] == x);
            }
        }
        same_when_growing(c, d);
        assert(a =~= c.push(a.last()));
        assert(b =~= d.push(b.last()));
    }
}

} // verus!
