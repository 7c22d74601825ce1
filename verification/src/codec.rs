//! The on-disk form of the high-score table: a flat JSON object from label
//! to score, pretty-printed with one entry per line, exactly as
//! `{\n  "label": score,\n  ...\n}` (or `{}` when empty). Labels are stored
//! verbatim, so a label may hold neither a double quote nor a backslash.
//! Rendering and parsing are verified against one spec: parsing a rendered
//! table gives the table back, and a text parses only if it is the
//! rendering of the table it yields.

use vstd::prelude::*;

verus! {

/// A label can be stored and reloaded verbatim: it holds no double quote
/// and no backslash, so it needs no JSON escaping.
pub open spec fn plain_label(s: Seq<char>) -> bool {
    forall|i: int| 0 <= i < s.len() ==> s[i] != '"' && s[i] != '\\'
}

/// Every label of the table is plain and no label repeats.
pub open spec fn table_ok(es: Seq<(Seq<char>, u32)>) -> bool {
    &&& forall|i: int| 0 <= i < es.len() ==> plain_label(#[trigger] es[i].0)
    &&& forall|i: int, j: int| 0 <= i < j < es.len() ==> es[i].0 != es[j].0
}

/// The table holds an entry with this label.
pub open spec fn has_label(es: Seq<(Seq<char>, u32)>, k: Seq<char>) -> bool {
    exists|i: int| 0 <= i < es.len() && (#[trigger] es[i]).0 == k
}

/// The decimal digit character for `d` (which must lie in `0..10`).
pub open spec fn dec_digit(d: int) -> char {
    if d == 0 {
        '0'
    } else if d == 1 {
        '1'
    } else if d == 2 {
        '2'
    } else if d == 3 {
        '3'
    } else if d == 4 {
        '4'
    } else if d == 5 {
        '5'
    } else if d == 6 {
        '6'
    } else if d == 7 {
        '7'
    } else if d == 8 {
        '8'
    } else {
        '9'
    }
}

/// The decimal rendering of a non-negative integer, without leading zeros.
pub open spec fn dec_of(n: int) -> Seq<char>
    decreases n,
{
    if n <= 9 {
        seq![dec_digit(n)]
    } else {
        dec_of(n / 10) + seq![dec_digit(n % 10)]
    }
}

/// One rendered entry: a newline, two spaces of indent, the quoted label,
/// a colon and a space, and the decimal score.
pub open spec fn entry_text(k: Seq<char>, v: u32) -> Seq<char> {
    seq!['\n', ' ', ' ', '"'] + k + seq!['"', ':', ' '] + dec_of(v as int)
}

/// The rendered entries, separated by commas.
pub open spec fn items_text(es: Seq<(Seq<char>, u32)>) -> Seq<char>
    decreases es.len(),
{
    if es.len() == 0 {
        Seq::empty()
    } else if es.len() == 1 {
        entry_text(es[0].0, es[0].1)
    } else {
        entry_text(es[0].0, es[0].1) + seq![','] + items_text(es.drop_first())
    }
}

/// The rendered table: `{}` when empty, else the entries between braces
/// with the closing brace on its own line.
pub open spec fn json_of(es: Seq<(Seq<char>, u32)>) -> Seq<char> {
    if es.len() == 0 {
        seq!['{', '}']
    } else {
        seq!['{'] + items_text(es) + seq!['\n', '}']
    }
}

/// The label-and-score views of a vector of entries.
pub open spec fn entries_view(v: Seq<(String, u32)>) -> Seq<(Seq<char>, u32)> {
    v.map_values(|p: (String, u32)| (p.0@, p.1))
}

/// Appending one entry to a non-empty table appends a comma and the entry
/// to its rendered items.
pub proof fn lemma_items_text_push(es: Seq<(Seq<char>, u32)>, e: (Seq<char>, u32))
    ensures
        items_text(es.push(e)) == if es.len() == 0 {
            entry_text(e.0, e.1)
        } else {
            items_text(es) + seq![','] + items_text(seq![e])
        },
    decreases es.len(),
{
    let esp = es.push(e);
    if es.len() == 0 {
        assert(esp.len() == 1);
        assert(esp[0] == e);
    } else {
        assert(esp[0] == es[0]);
        assert(esp.drop_first() =~= es.drop_first().push(e));
        lemma_items_text_push(es.drop_first(), e);
        if es.len() == 1 {
            assert(es.drop_first().len() == 0);
            assert(items_text(esp) == entry_text(es[0].0, es[0].1) + seq![',']
                + entry_text(e.0, e.1));
            assert(items_text(es) + seq![','] + items_text(seq![e]) =~= items_text(esp));
        } else {
            assert(items_text(es) + seq![','] + items_text(seq![e]) =~= items_text(esp));
        }
    }
}

/// The decimal digit character for a digit value.
fn digit_str(d: u32) -> (s: &'static str)
    requires
        d <= 9,
    ensures
        s@ =~= seq![dec_digit(d as int)],
{
    proof {
        reveal_strlit("0");
        reveal_strlit("1");
        reveal_strlit("2");
        reveal_strlit("3");
        reveal_strlit("4");
        reveal_strlit("5");
        reveal_strlit("6");
        reveal_strlit("7");
        reveal_strlit("8");
        reveal_strlit("9");
    }
    match d {
        0 => "0",
        1 => "1",
        2 => "2",
        3 => "3",
        4 => "4",
        5 => "5",
        6 => "6",
        7 => "7",
        8 => "8",
        _ => "9",
    }
}

/// Renders a score in decimal, matching `dec_of`.
pub fn u32_to_dec(n: u32) -> (r: String)
    ensures
        r@ == dec_of(n as int),
    decreases n,
{
    if n <= 9 {
        String::from_str(digit_str(n))
    } else {
        let mut r = u32_to_dec(n / 10);
        r.append(digit_str(n % 10));
        proof {
            assert(r@ =~= dec_of(n as int));
        }
        r
    }
}

/// Renders the table in its on-disk JSON form.
#[verifier::loop_isolation(false)]
pub fn render_highscores(entries: &Vec<(String, u32)>) -> (r: String)
    ensures
        r@ == json_of(entries_view(entries@)),
{
    proof {
        reveal_strlit("{");
        reveal_strlit("}");
        reveal_strlit("{}");
        reveal_strlit("\n  \"");
        reveal_strlit("\": ");
        reveal_strlit(",");
        reveal_strlit("\n}");
    }
    if entries.len() == 0 {
        let r = String::from_str("{}");
        proof {
            assert(r@ =~= json_of(entries_view(entries@)));
        }
        return r;
    }
    let ghost es = entries_view(entries@);
    let mut r = String::from_str("{");
    let mut i: usize = 0;
    while i < entries.len()
        invariant
            0 < entries@.len(),
            0 <= i <= entries@.len(),
            es == entries_view(entries@),
            i == 0 ==> r@ == seq!['{'],
            0 < i < entries@.len() ==> r@ == seq!['{'] + items_text(es.take(i as int))
                + seq![','],
            i == entries@.len() ==> r@ == seq!['{'] + items_text(es),
        decreases entries@.len() - i,
    {
        let ghost r0 = r@;
        r.append("\n  \"");
        r.append(entries[i].0.as_str());
        r.append("\": ");
        let num = u32_to_dec(entries[i].1);
        r.append(num.as_str());
        proof {
            assert(es[i as int] == (entries@[i as int].0@, entries@[i as int].1));
            assert(r@ =~= r0 + entry_text(es[i as int].0, es[i as int].1));
        }
        if i + 1 < entries.len() {
            r.append(",");
        }
        proof {
            let t = es.take(i as int);
            assert(t.push(es[i as int]) =~= es.take(i + 1 as int));
            lemma_items_text_push(t, es[i as int]);
            assert(items_text(seq![es[i as int]]) == entry_text(es[i as int].0, es[i as int].1));
            if i == 0 {
                assert(items_text(es.take(1)) == entry_text(es[0].0, es[0].1));
                if i + 1 < entries@.len() {
                    assert(r@ =~= seq!['{'] + items_text(es.take(1)) + seq![',']);
                } else {
                    assert(es.take(1) =~= es);
                    assert(r@ =~= seq!['{'] + items_text(es));
                }
            } else {
                assert(items_text(es.take(i + 1 as int)) =~= items_text(t) + seq![',']
                    + items_text(seq![es[i as int]]));
                if i + 1 < entries@.len() {
                    assert(r@ =~= seq!['{'] + items_text(es.take(i + 1 as int)) + seq![',']);
                } else {
                    assert(es.take(i + 1 as int) =~= es);
                    assert(r@ =~= seq!['{'] + items_text(es));
                }
            }
        }
        i = i + 1;
    }
    r.append("\n}");
    proof {
        assert(r@ =~= json_of(es));
    }
    r
}

/// Error returned when the stored table cannot be read back: the text is
/// not a rendering of any table.
#[derive(Debug, Clone, Copy, PartialEq, Eq, Structural)]
pub enum ParseError {
    Malformed,
}

/// A decimal digit character.
pub open spec fn is_digit(c: char) -> bool {
    48 <= c as int && c as int <= 57
}

/// The value of a decimal digit character.
pub open spec fn digit_val(c: char) -> int {
    c as int - 48
}

/// The value of a sequence of decimal digit characters.
pub open spec fn dec_val(ds: Seq<char>) -> int
    decreases ds.len(),
{
    if ds.len() == 0 {
        0
    } else {
        dec_val(ds.drop_last()) * 10 + digit_val(ds.last())
    }
}

/// The index of the first double quote in `t`, or `t.len()` if there is none.
pub open spec fn scan_quote(t: Seq<char>) -> int
    decreases t.len(),
{
    if t.len() == 0 {
        0
    } else if t[0] == '"' {
        0
    } else {
        1 + scan_quote(t.drop_first())
    }
}

/// The length of the longest prefix of `t` made of decimal digits.
pub open spec fn digit_run(t: Seq<char>) -> int
    decreases t.len(),
{
    if t.len() == 0 || !is_digit(t[0]) {
        0
    } else {
        1 + digit_run(t.drop_first())
    }
}

/// Parses one rendered entry at the front of `s`: the indent, the quoted
/// plain label, the separator, and the canonical decimal score (no empty
/// run, no leading zero, nothing above `u32::MAX`). Yields the label, the
/// score, and the text that follows the entry.
pub open spec fn parse_entry(s: Seq<char>) -> Option<(Seq<char>, u32, Seq<char>)> {
    if s.len() < 4 || s[0] != '\n' || s[1] != ' ' || s[2] != ' ' || s[3] != '"' {
        None
    } else {
        let t = s.skip(4);
        let q = scan_quote(t);
        if q < 0 || q >= t.len() {
            None
        } else {
            let k = t.take(q);
            if !plain_label(k) {
                None
            } else {
                let u = t.skip(q + 1);
                if u.len() < 2 || u[0] != ':' || u[1] != ' ' {
                    None
                } else {
                    let w = u.skip(2);
                    let n = digit_run(w);
                    if n <= 0 || n > w.len() {
                        None
                    } else {
                        let ds = w.take(n);
                        if ds[0] == '0' && n > 1 {
                            None
                        } else if dec_val(ds) > u32::MAX {
                            None
                        } else {
                            Some((k, dec_val(ds) as u32, w.skip(n)))
                        }
                    }
                }
            }
        }
    }
}

/// Parses the rendered entries together with the closing `\n}`: exactly the
/// text that follows the opening brace of a non-empty table. Yields the
/// entries, or `None` where the text is not such a rendering (including a
/// non-canonical number, a score above `u32::MAX`, or a repeated label).
pub open spec fn parse_items(s: Seq<char>) -> Option<Seq<(Seq<char>, u32)>>
    decreases s.len(),
{
    match parse_entry(s) {
        None => None,
        Some((k, v, rest)) => {
            if rest.len() == 2 && rest[0] == '\n' && rest[1] == '}' {
                Some(seq![(k, v)])
            } else if rest.len() >= 1 && rest[0] == ',' && rest.len() < s.len() {
                match parse_items(rest.skip(1)) {
                    None => None,
                    Some(tail) => if has_label(tail, k) {
                        None
                    } else {
                        Some(seq![(k, v)] + tail)
                    },
                }
            } else {
                None
            }
        },
    }
}

/// Parses a rendered table: `{}` is the empty table, and any other text
/// must be an opening brace followed by rendered entries.
pub open spec fn parse_table(s: Seq<char>) -> Option<Seq<(Seq<char>, u32)>> {
    if s.len() == 2 && s[0] == '{' && s[1] == '}' {
        Some(Seq::empty())
    } else if s.len() >= 1 && s[0] == '{' {
        parse_items(s.skip(1))
    } else {
        None
    }
}

/// `scan_quote` finds exactly the first quote: if no quote stands before
/// `p` and `p` is either a quote or the end, the scan yields `p`.
pub proof fn lemma_scan_quote(t: Seq<char>, p: int)
    requires
        0 <= p <= t.len(),
        forall|j: int| 0 <= j < p ==> t[j] != '"',
        p == t.len() || t[p] == '"',
    ensures
        scan_quote(t) == p,
    decreases t.len(),
{
    if t.len() != 0 && p != 0 {
        lemma_scan_quote(t.drop_first(), p - 1);
    }
}

/// `digit_run` finds exactly the maximal digit prefix: if everything before
/// `p` is a digit and `p` is either the end or not a digit, the run is `p`.
pub proof fn lemma_digit_run(t: Seq<char>, p: int)
    requires
        0 <= p <= t.len(),
        forall|j: int| 0 <= j < p ==> is_digit(#[trigger] t[j]),
        p == t.len() || !is_digit(t[p]),
    ensures
        digit_run(t) == p,
    decreases t.len(),
{
    if t.len() != 0 && p != 0 {
        lemma_digit_run(t.drop_first(), p - 1);
    }
}

/// The decimal rendering of `n` is made of digits, carries no leading zero,
/// and evaluates back to `n`.
pub proof fn lemma_dec_of_props(n: int)
    requires
        n >= 0,
    ensures
        dec_of(n).len() >= 1,
        forall|i: int| 0 <= i < dec_of(n).len() ==> is_digit(#[trigger] dec_of(n)[i]),
        dec_of(n).len() > 1 ==> dec_of(n)[0] != '0',
        n >= 1 ==> dec_of(n)[0] != '0',
        dec_val(dec_of(n)) == n,
    decreases n,
{
    if n <= 9 {
        let d = dec_of(n);
        assert(d.drop_last() =~= Seq::<char>::empty());
        assert(d.last() == dec_digit(n));
        assert(dec_val(d) == dec_val(Seq::<char>::empty()) * 10 + digit_val(dec_digit(n)));
    } else {
        vstd::arithmetic::div_mod::lemma_div_is_ordered_by_denominator(n, 1, 10);
        vstd::arithmetic::div_mod::lemma_div_pos_is_pos(n, 10);
        lemma_dec_of_props(n / 10);
        let d = dec_of(n);
        assert(d.drop_last() =~= dec_of(n / 10));
        assert(d.last() == dec_digit(n % 10));
        vstd::arithmetic::div_mod::lemma_fundamental_div_mod(n, 10);
        assert(dec_val(d) == dec_val(dec_of(n / 10)) * 10 + digit_val(dec_digit(n % 10)));
        assert(d[0] == dec_of(n / 10)[0]);
        assert(forall|i: int| 0 <= i < d.len() ==> is_digit(#[trigger] d[i])) by {
            assert(forall|i: int| 0 <= i < d.len() - 1 ==> d[i] == dec_of(n / 10)[i]);
        };
    }
}

/// Digit sequences evaluate to non-negative values, and a longer prefix
/// never evaluates to less.
pub proof fn lemma_dec_val_prefix_mono(ds: Seq<char>, i: int, j: int)
    requires
        0 <= i <= j <= ds.len(),
        forall|x: int| 0 <= x < ds.len() ==> is_digit(#[trigger] ds[x]),
    ensures
        0 <= dec_val(ds.take(i)) <= dec_val(ds.take(j)),
    decreases j - i,
{
    if i == j {
        lemma_dec_val_nonneg(ds.take(i));
    } else {
        lemma_dec_val_prefix_mono(ds, i, j - 1);
        assert(ds.take(j).drop_last() =~= ds.take(j - 1));
        assert(ds.take(j).last() == ds[j - 1]);
    }
}

/// A sequence of digits has a non-negative value.
pub proof fn lemma_dec_val_nonneg(ds: Seq<char>)
    requires
        forall|x: int| 0 <= x < ds.len() ==> is_digit(#[trigger] ds[x]),
    ensures
        dec_val(ds) >= 0,
    decreases ds.len(),
{
    if ds.len() > 0 {
        assert(forall|x: int| 0 <= x < ds.len() - 1 ==> ds.drop_last()[x] == ds[x]);
        lemma_dec_val_nonneg(ds.drop_last());
    }
}

/// Whether a character is a decimal digit.
fn digit_char(c: char) -> (r: bool)
    ensures
        r == is_digit(c),
{
    let u: u32 = c as u32;
    48 <= u && u <= 57
}

/// Whether every character of the label may be stored verbatim.
fn label_plain(s: &str) -> (r: bool)
    ensures
        r == plain_label(s@),
{
    let n = s.unicode_len();
    let mut i: usize = 0;
    while i < n
        invariant
            0 <= i <= n,
            n == s@.len(),
            forall|j: int| 0 <= j < i ==> s@[j] != '"' && s@[j] != '\\',
        decreases n - i,
    {
        let c = s.get_char(i);
        if c == '"' || c == '\\' {
            return false;
        }
        i = i + 1;
    }
    true
}

/// Putting a fresh, plain label in front of a well-formed table keeps it
/// well formed.
proof fn lemma_table_ok_cons(e: (Seq<char>, u32), tail: Seq<(Seq<char>, u32)>)
    requires
        plain_label(e.0),
        table_ok(tail),
        !has_label(tail, e.0),
    ensures
        table_ok(seq![e] + tail),
{
    let es = seq![e] + tail;
    assert forall|i: int, j: int| 0 <= i < j < es.len() implies es[i].0 != es[j].0 by {
        if i == 0 {
            assert(es[j] == tail[j - 1]);
            assert(!(tail[j - 1].0 == e.0));
        } else {
            assert(es[i] == tail[i - 1] && es[j] == tail[j - 1]);
        }
    };
    assert forall|i: int| 0 <= i < es.len() implies plain_label(#[trigger] es[i].0) by {
        if i > 0 {
            assert(es[i] == tail[i - 1]);
            assert(plain_label(tail[i - 1].0));
        }
    };
}

/// Whether some stored entry carries this label.
fn contains_label(v: &Vec<(String, u32)>, k: &String) -> (r: bool)
    ensures
        r == has_label(entries_view(v@), k@),
{
    let mut j: usize = 0;
    while j < v.len()
        invariant
            0 <= j <= v@.len(),
            forall|i: int| 0 <= i < j ==> entries_view(v@)[i].0 != k@,
        decreases v@.len() - j,
    {
        if v[j].0 == *k {
            proof {
                assert(entries_view(v@)[j as int].0 == k@);
            }
            return true;
        }
        j = j + 1;
    }
    false
}

/// Finds the first double quote at or after `from`, mirroring
/// `scan_quote` on the remaining text.
fn find_quote(s: &str, from: usize) -> (r: Option<usize>)
    requires
        from <= s@.len(),
    ensures
        match r {
            Some(q) => from <= q < s@.len() && scan_quote(s@.skip(from as int)) == q - from,
            None => scan_quote(s@.skip(from as int)) == s@.len() - from,
        },
{
    let ghost t = s@.skip(from as int);
    let n = s.unicode_len();
    let mut q: usize = from;
    while q < n && s.get_char(q) != '"'
        invariant
            from <= q <= n,
            n == s@.len(),
            forall|j: int| from <= j < q ==> s@[j] != '"',
        decreases n - q,
    {
        q = q + 1;
    }
    proof {
        assert(forall|j: int| 0 <= j < q - from ==> t[j] == s@[j + from] && t[j] != '"');
        if q < n {
            assert(t[q - from] == '"');
        }
        lemma_scan_quote(t, q - from);
    }
    if q == n {
        None
    } else {
        Some(q)
    }
}

/// Reads the decimal score that starts at `start`, scanning the maximal
/// digit run and rejecting an empty run, a leading zero, and any value
/// above `u32::MAX`, exactly as the parsing spec does on the text from
/// `start` on.
fn parse_dec(s: &str, start: usize) -> (r: Result<(u32, usize), ParseError>)
    requires
        start <= s@.len(),
    ensures
        ({
            let w = s@.skip(start as int);
            let nr = digit_run(w);
            match r {
                Ok((v, e)) => {
                    &&& nr == e - start
                    &&& start < e <= s@.len()
                    &&& !(w.take(nr)[0] == '0' && nr > 1)
                    &&& dec_val(w.take(nr)) == v
                },
                Err(_) => nr == 0 || (w.take(nr)[0] == '0' && nr > 1) || dec_val(w.take(nr))
                    > u32::MAX,
            }
        }),
{
    let ghost w = s@.skip(start as int);
    let n = s.unicode_len();
    let mut e: usize = start;
    while e < n && digit_char(s.get_char(e))
        invariant
            start <= e <= n,
            n == s@.len(),
            forall|j: int| start <= j < e ==> is_digit(#[trigger] s@[j]),
        decreases n - e,
    {
        e = e + 1;
    }
    proof {
        assert(forall|j: int| 0 <= j < e - start ==> w[j] == s@[j + start]);
        if e < n {
            assert(w[e - start] == s@[e as int]);
        }
        lemma_digit_run(w, e - start);
    }
    if e == start {
        return Err(ParseError::Malformed);
    }
    let ghost ds = w.take(e - start);
    proof {
        assert(forall|j: int| 0 <= j < ds.len() ==> ds[j] == s@[j + start]);
        assert(ds[0] == s@[start as int]);
    }
    if s.get_char(start) == '0' && e > start + 1 {
        return Err(ParseError::Malformed);
    }
    let mut val: u32 = 0;
    let mut i: usize = start;
    while i < e
        invariant
            start <= i <= e <= n,
            n == s@.len(),
            w == s@.skip(start as int),
            ds == w.take(e - start),
            digit_run(w) == e - start,
            forall|j: int| start <= j < e ==> is_digit(#[trigger] s@[j]),
            forall|j: int| 0 <= j < ds.len() ==> #[trigger] ds[j] == s@[j + start],
            val == dec_val(ds.take(i - start)),
        decreases e - i,
    {
        let c: u32 = s.get_char(i) as u32;
        let d: u32 = c - 48;
        proof {
            assert(is_digit(s@[i as int]));
            assert(ds.take(i - start + 1).drop_last() =~= ds.take(i - start));
            assert(ds.take(i - start + 1).last() == s@[i as int]);
        }
        let next: u64 = val as u64 * 10 + d as u64;
        if next > u32::MAX as u64 {
            proof {
                assert(dec_val(ds.take(i - start + 1)) == val * 10 + d > u32::MAX);
                assert(forall|j: int| 0 <= j < ds.len() ==> is_digit(#[trigger] ds[j]));
                lemma_dec_val_prefix_mono(ds, i - start + 1, ds.len() as int);
                assert(ds.take(ds.len() as int) =~= ds);
                assert(dec_val(w.take(digit_run(w))) > u32::MAX);
            }
            return Err(ParseError::Malformed);
        }
        val = next as u32;
        proof {
            assert(val == dec_val(ds.take(i - start + 1)));
        }
        i = i + 1;
    }
    proof {
        assert(ds.take(e - start) =~= ds);
    }
    Ok((val, e))
}

/// Parses the text that follows the opening brace of a non-empty table,
/// deciding exactly as `parse_items` does.
#[verifier::rlimit(60)]
fn parse_items_str(s: &str) -> (r: Result<Vec<(String, u32)>, ParseError>)
    ensures
        match r {
            Ok(v) => parse_items(s@) == Some(entries_view(v@)) && table_ok(entries_view(v@)),
            Err(_) => parse_items(s@) is None,
        },
    decreases s@.len(),
{
    let n = s.unicode_len();
    if n < 4 || s.get_char(0) != '\n' || s.get_char(1) != ' ' || s.get_char(2) != ' '
        || s.get_char(3) != '"' {
        return Err(ParseError::Malformed);
    }
    let ghost t = s@.skip(4);
    let quote = find_quote(s, 4);
    if quote.is_none() {
        proof {
            assert(scan_quote(t) >= t.len());
        }
        return Err(ParseError::Malformed);
    }
    let q = quote.unwrap();
    proof {
        assert(scan_quote(t) == q - 4 < t.len());
    }
    let key = s.substring_char(4, q);
    proof {
        assert(key@ =~= t.take(q - 4));
    }
    if !label_plain(key) {
        return Err(ParseError::Malformed);
    }
    let ghost u = t.skip(q - 4 + 1);
    proof {
        assert(u =~= s@.skip(q + 1));
    }
    // The colon and space that separate label and score.
    if q >= n - 2 || s.get_char(q + 1) != ':' || s.get_char(q + 2) != ' ' {
        proof {
            if q < n - 2 {
                assert(u[0] == s@[q + 1] && u[1] == s@[q + 2]);
            } else if q == n - 2 {
                assert(u[0] == s@[q + 1]);
            }
        }
        return Err(ParseError::Malformed);
    }
    proof {
        assert(u[0] == s@[q + 1] && u[1] == s@[q + 2]);
        assert(u.skip(2) =~= s@.skip(q + 3));
    }
    // The score.
    let start: usize = q + 3;
    let dec = parse_dec(s, start);
    if dec.is_err() {
        return Err(ParseError::Malformed);
    }
    let (val, e) = dec.unwrap();
    let ghost w = s@.skip(start as int);
    let ghost nr = digit_run(w);
    // What follows the score: the closing brace, or a comma and more entries.
    let ghost rest = w.skip(nr);
    proof {
        assert(rest =~= s@.skip(e as int));
    }
    if e == n - 2 && s.get_char(e) == '\n' && s.get_char(e + 1) == '}' {
        proof {
            assert(rest.len() == 2 && rest[0] == '\n' && rest[1] == '}');
        }
        let mut out: Vec<(String, u32)> = Vec::new();
        out.push((String::from_str(key), val));
        proof {
            assert(entries_view(out@) =~= seq![(key@, val)]);
            assert(table_ok(entries_view(out@)));
        }
        return Ok(out);
    }
    if e < n && s.get_char(e) == ',' {
        proof {
            assert(rest[0] == ',');
            assert(!(rest.len() == 2 && rest[0] == '\n' && rest[1] == '}'));
            assert(rest.skip(1) =~= s@.skip(e + 1));
        }
        let more = s.substring_char(e + 1, n);
        proof {
            assert(more@ =~= rest.skip(1));
        }
        match parse_items_str(more) {
            Err(err) => Err(err),
            Ok(mut tail) => {
                let key_string = String::from_str(key);
                if contains_label(&tail, &key_string) {
                    return Err(ParseError::Malformed);
                }
                let ghost tail0 = tail@;
                tail.insert(0, (key_string, val));
                proof {
                    assert(entries_view(tail@) =~= seq![(key@, val)] + entries_view(tail0));
                    lemma_table_ok_cons((key@, val), entries_view(tail0));
                }
                Ok(tail)
            },
        }
    } else {
        proof {
            if rest.len() == 2 && rest[0] == '\n' && rest[1] == '}' {
                assert(s@[e as int] == rest[0]);
                assert(e < n - 1 ==> s@[e + 1] == rest[1]);
            }
            if rest.len() >= 1 && rest[0] == ',' {
                assert(s@[e as int] == rest[0]);
            }
        }
        Err(ParseError::Malformed)
    }
}

/// Reads a stored table back, deciding exactly as `parse_table` does: the
/// result is the unique table whose rendering is `s`, and an error exactly
/// where `s` is no rendering.
pub fn parse_highscores(s: &str) -> (r: Result<Vec<(String, u32)>, ParseError>)
    ensures
        match r {
            Ok(v) => parse_table(s@) == Some(entries_view(v@)) && table_ok(entries_view(v@)),
            Err(_) => parse_table(s@) is None,
        },
{
    let n = s.unicode_len();
    if n == 2 && s.get_char(0) == '{' && s.get_char(1) == '}' {
        let out: Vec<(String, u32)> = Vec::new();
        proof {
            assert(entries_view(out@) =~= Seq::<(Seq<char>, u32)>::empty());
        }
        return Ok(out);
    }
    if n >= 1 && s.get_char(0) == '{' {
        let body = s.substring_char(1, n);
        proof {
            assert(body@ =~= s@.skip(1));
        }
        parse_items_str(body)
    } else {
        Err(ParseError::Malformed)
    }
}

/// What `scan_quote` yields: an index within the text, with no quote
/// before it, and a quote at it unless it is the end.
proof fn lemma_scan_quote_props(t: Seq<char>)
    ensures
        0 <= scan_quote(t) <= t.len(),
        forall|j: int| 0 <= j < scan_quote(t) ==> t[j] != '"',
        scan_quote(t) < t.len() ==> t[scan_quote(t)] == '"',
    decreases t.len(),
{
    if t.len() != 0 && t[0] != '"' {
        lemma_scan_quote_props(t.drop_first());
        assert(forall|j: int| 1 <= j < scan_quote(t) ==> t[j] == t.drop_first()[j - 1]);
    }
}

/// What `digit_run` yields: a prefix length within the text, with digits
/// throughout the prefix and none right after it.
proof fn lemma_digit_run_props(t: Seq<char>)
    ensures
        0 <= digit_run(t) <= t.len(),
        forall|j: int| 0 <= j < digit_run(t) ==> is_digit(#[trigger] t[j]),
        digit_run(t) < t.len() ==> !is_digit(t[digit_run(t)]),
    decreases t.len(),
{
    if t.len() != 0 && is_digit(t[0]) {
        lemma_digit_run_props(t.drop_first());
        assert(forall|j: int| 1 <= j < digit_run(t) ==> t[j] == t.drop_first()[j - 1]);
    }
}

/// A digit character is the digit of its value.
proof fn lemma_dec_digit_inverse(c: char)
    requires
        is_digit(c),
    ensures
        dec_digit(digit_val(c)) == c,
{
}

/// A digit sequence that starts with a non-zero digit has a positive value.
proof fn lemma_dec_val_pos(ds: Seq<char>)
    requires
        ds.len() >= 1,
        forall|j: int| 0 <= j < ds.len() ==> is_digit(#[trigger] ds[j]),
        ds[0] != '0',
    ensures
        dec_val(ds) >= 1,
{
    assert(dec_val(Seq::<char>::empty()) == 0);
    assert(ds.take(1).drop_last() =~= Seq::<char>::empty());
    assert(ds.take(1).last() == ds[0]);
    assert(dec_val(ds.take(1)) == digit_val(ds[0]));
    assert(digit_val(ds[0]) >= 1);
    lemma_dec_val_prefix_mono(ds, 1, ds.len() as int);
    assert(ds.take(ds.len() as int) =~= ds);
}

/// A canonical digit sequence is the decimal rendering of its value: no
/// other digits, and no leading zero, can give the same number.
proof fn lemma_dec_of_inverse(ds: Seq<char>)
    requires
        ds.len() >= 1,
        forall|j: int| 0 <= j < ds.len() ==> is_digit(#[trigger] ds[j]),
        ds[0] == '0' ==> ds.len() == 1,
    ensures
        dec_of(dec_val(ds)) == ds,
    decreases ds.len(),
{
    if ds.len() == 1 {
        assert(dec_val(Seq::<char>::empty()) == 0);
        assert(ds.drop_last() =~= Seq::<char>::empty());
        assert(ds.last() == ds[0]);
        assert(dec_val(ds) == digit_val(ds[0]));
        lemma_dec_digit_inverse(ds[0]);
        assert(dec_of(dec_val(ds)) =~= ds);
    } else {
        let front = ds.drop_last();
        let d = digit_val(ds.last());
        let v0 = dec_val(front);
        assert(front[0] == ds[0] && front[0] != '0');
        assert(forall|j: int| 0 <= j < front.len() ==> front[j] == ds[j]);
        lemma_dec_val_pos(front);
        lemma_dec_of_inverse(front);
        let v = dec_val(ds);
        assert(v == v0 * 10 + d);
        vstd::arithmetic::div_mod::lemma_fundamental_div_mod_converse(v, 10, v0, d);
        assert(v / 10 == v0 && v % 10 == d);
        assert(v >= 10) by {
            assert(v0 >= 1 && d >= 0);
        };
        lemma_dec_digit_inverse(ds.last());
        assert(dec_of(v) == dec_of(v0) + seq![dec_digit(d)]);
        assert(dec_of(v) =~= ds);
    }
}

/// Parsing the text of one rendered entry, followed by anything that can
/// legally follow an entry, gives the entry back with that text as the
/// rest.
proof fn lemma_parse_entry_of_text(k: Seq<char>, v: u32, z: Seq<char>)
    requires
        plain_label(k),
        z.len() >= 1,
        z[0] == ',' || z[0] == '\n',
    ensures
        parse_entry(entry_text(k, v) + z) == Some((k, v, z)),
{
    let s = entry_text(k, v) + z;
    lemma_dec_of_props(v as int);
    let dec = dec_of(v as int);
    assert(s =~= seq!['\n', ' ', ' ', '"'] + k + seq!['"', ':', ' '] + dec + z);
    assert(s.len() >= 4 && s[0] == '\n' && s[1] == ' ' && s[2] == ' ' && s[3] == '"');
    let t = s.skip(4);
    assert(t =~= k + seq!['"'] + (seq![':', ' '] + dec + z));
    lemma_scan_quote(t, k.len() as int);
    let q = scan_quote(t);
    assert(q == k.len());
    assert(t.take(q) =~= k);
    let u = t.skip(q + 1);
    assert(u =~= seq![':', ' '] + dec + z);
    assert(u[0] == ':' && u[1] == ' ');
    let w = u.skip(2);
    assert(w =~= dec + z);
    assert(!is_digit(z[0])) by {
        assert(',' as int == 44 && '\n' as int == 10);
    };
    lemma_digit_run(w, dec.len() as int);
    let n = digit_run(w);
    assert(w.take(n) =~= dec);
    assert(!(dec[0] == '0' && n > 1));
    assert(dec_val(dec) == v as int <= u32::MAX);
    assert(w.skip(n) =~= z);
}

/// An entry that parses is the rendering of what it yields: the text up
/// to the rest is exactly the rendered entry, and what follows is
/// strictly shorter than the whole.
proof fn lemma_parse_entry_sound(s: Seq<char>, k: Seq<char>, v: u32, rest: Seq<char>)
    requires
        parse_entry(s) == Some((k, v, rest)),
    ensures
        s == entry_text(k, v) + rest,
        plain_label(k),
        rest.len() < s.len(),
{
    let t = s.skip(4);
    let q = scan_quote(t);
    lemma_scan_quote_props(t);
    assert(k == t.take(q) && t[q] == '"');
    let u = t.skip(q + 1);
    let w = u.skip(2);
    let n = digit_run(w);
    lemma_digit_run_props(w);
    let ds = w.take(n);
    assert(forall|j: int| 0 <= j < ds.len() ==> is_digit(#[trigger] ds[j]));
    lemma_dec_val_nonneg(ds);
    assert(v as int == dec_val(ds));
    lemma_dec_of_inverse(ds);
    assert(dec_of(v as int) == ds);
    assert(rest == w.skip(n));
    assert(w =~= ds + rest);
    assert(u =~= seq![':', ' '] + w);
    assert(t =~= k + seq!['"'] + u);
    assert(s =~= s.take(4) + t);
    assert(s.take(4) =~= seq!['\n', ' ', ' ', '"']);
    assert(s =~= entry_text(k, v) + rest);
}

/// Parsing the rendered entries of a non-empty well-formed table gives the
/// entries back.
#[verifier::rlimit(100)]
proof fn lemma_parse_items_round(es: Seq<(Seq<char>, u32)>)
    requires
        es.len() >= 1,
        table_ok(es),
    ensures
        parse_items(items_text(es) + seq!['\n', '}']) == Some(es),
    decreases es.len(),
{
    let close = seq!['\n', '}'];
    let k = es[0].0;
    let v = es[0].1;
    let tail = es.drop_first();
    let s = items_text(es) + close;
    assert(plain_label(es[0].0));
    lemma_dec_of_props(v as int);
    if es.len() == 1 {
        assert(s =~= entry_text(k, v) + close);
        lemma_parse_entry_of_text(k, v, close);
        assert(seq![(k, v)] =~= es);
    } else {
        let after = seq![','] + items_text(tail) + close;
        assert(s =~= entry_text(k, v) + after);
        lemma_parse_entry_of_text(k, v, after);
        assert(after[0] == ',');
        assert(!(after.len() == 2 && after[0] == '\n' && after[1] == '}'));
        assert(after.len() < s.len());
        assert(after.skip(1) =~= items_text(tail) + close);
        assert(table_ok(tail)) by {
            assert(forall|i: int| 0 <= i < tail.len() ==> tail[i] == es[i + 1]);
        };
        lemma_parse_items_round(tail);
        assert(!has_label(tail, k)) by {
            assert(forall|i: int| 0 <= i < tail.len() ==> (#[trigger] tail[i]).0 == es[i + 1].0
                && es[i + 1].0 != es[0].0);
        };
        assert(seq![(k, v)] + tail =~= es);
    }
}

/// Putting an entry in front of a non-empty table puts its rendering, and
/// a comma, in front of the rendered items.
proof fn lemma_items_text_cons(e: (Seq<char>, u32), tail: Seq<(Seq<char>, u32)>)
    requires
        tail.len() >= 1,
    ensures
        items_text(seq![e] + tail) == entry_text(e.0, e.1) + seq![','] + items_text(tail),
{
    let es = seq![e] + tail;
    assert(es[0] == e);
    assert(es.drop_first() =~= tail);
}

/// Entries that parse are the rendering of what they yield, label for
/// label and score for score, and the table read off is well formed.
#[verifier::rlimit(100)]
proof fn lemma_parse_items_sound(s: Seq<char>, es: Seq<(Seq<char>, u32)>)
    requires
        parse_items(s) == Some(es),
    ensures
        s == items_text(es) + seq!['\n', '}'],
        es.len() >= 1,
        table_ok(es),
    decreases s.len(),
{
    let close = seq!['\n', '}'];
    let (k, v, rest) = parse_entry(s).unwrap();
    lemma_parse_entry_sound(s, k, v, rest);
    if rest.len() == 2 && rest[0] == '\n' && rest[1] == '}' {
        assert(es == seq![(k, v)]);
        assert(rest =~= close);
        assert(items_text(es) == entry_text(k, v));
        assert(s =~= items_text(es) + close);
        assert(table_ok(es));
    } else {
        let tail = parse_items(rest.skip(1)).unwrap();
        lemma_parse_items_sound(rest.skip(1), tail);
        assert(es == seq![(k, v)] + tail);
        lemma_items_text_cons((k, v), tail);
        assert(rest =~= seq![','] + (items_text(tail) + close)) by {
            assert(rest[0] == ',');
            assert(rest.skip(1) == items_text(tail) + close);
            assert(forall|i: int| 1 <= i < rest.len() ==> rest[i] == rest.skip(1)[i - 1]);
        };
        assert(s =~= items_text(es) + close) by {
            assert(s == entry_text(k, v) + rest);
            assert(items_text(es) == entry_text(k, v) + seq![','] + items_text(tail));
        };
        lemma_table_ok_cons((k, v), tail);
    }
}

/// A text that parses is the rendering of the table it yields: the parsed
/// table is well formed and renders back to exactly the input, so each
/// table is read from one text alone.
pub proof fn lemma_parse_table_sound(s: Seq<char>, es: Seq<(Seq<char>, u32)>)
    requires
        parse_table(s) == Some(es),
    ensures
        s == json_of(es),
        table_ok(es),
{
    if s.len() == 2 && s[0] == '{' && s[1] == '}' {
        assert(es =~= Seq::<(Seq<char>, u32)>::empty());
        assert(s =~= json_of(es));
    } else {
        lemma_parse_items_sound(s.skip(1), es);
        assert(s.skip(1) == items_text(es) + seq!['\n', '}']);
        assert(s.len() >= 1 && s[0] == '{');
        assert(forall|i: int| 1 <= i < s.len() ==> s[i] == s.skip(1)[i - 1]);
        assert(s =~= seq!['{'] + items_text(es) + seq!['\n', '}']);
        assert(s =~= json_of(es));
    }
}

/// Reloading a rendered table gives the table back: for every table whose
/// labels are plain and distinct, parsing its rendering yields exactly the
/// same entries, in the same order.
pub proof fn lemma_render_parse_round_trip(es: Seq<(Seq<char>, u32)>)
    requires
        table_ok(es),
    ensures
        parse_table(json_of(es)) == Some(es),
{
    let s = json_of(es);
    if es.len() == 0 {
        assert(s.len() == 2 && s[0] == '{' && s[1] == '}');
    } else {
        lemma_parse_items_round(es);
        assert(s[0] == '{');
        assert(s.skip(1) =~= items_text(es) + seq!['\n', '}']);
        assert(s.len() != 2 || s[1] != '}') by {
            let e = items_text(es) + seq!['\n', '}'];
            assert(e[0] == '\n');
            assert(s[1] == e[0]);
        };
    }
}

} // verus!
