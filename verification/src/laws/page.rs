//! Reading the Prometheus text format: what a reader makes of a page of metrics.

use crate::exposition::{esc, esc_char};
use crate::text::{cat, lemma_cat_append};
use vstd::prelude::*;

verus! {

/// What a line of a page says.
#[verifier::ext_equal]
pub enum Entry {
    Help { metric: Seq<char>, text: Seq<char> },
    Kind { metric: Seq<char>, kind: Seq<char> },
    /// A sample with its labels, each a name and a value.
    Sample { metric: Seq<char>, labels: Seq<(Seq<char>, Seq<char>)>, value: Seq<char> },
}

/// Whether a character can stand in the name of a metric or a label.
pub open spec fn in_name(c: char) -> bool {
    'a' <= c <= 'z' || c == '_'
}

/// How many characters a text begins with that are not `end`.
pub open spec fn before(s: Seq<char>, end: char) -> nat
    decreases s.len(),
{
    if s.len() == 0 || s[0] == end {
        0
    } else {
        1 + before(s.skip(1), end)
    }
}

/// How many characters of a name a text begins with.
pub open spec fn name_len(s: Seq<char>) -> nat
    decreases s.len(),
{
    if s.len() == 0 || !in_name(s[0]) {
        0
    } else {
        1 + name_len(s.skip(1))
    }
}

/// Reads a label's value up to the quote that ends it: the value and what follows. A
/// backslash stands before a backslash, a quote, and an `n` that means a line end.
pub open spec fn read_value(s: Seq<char>) -> Option<(Seq<char>, Seq<char>)>
    decreases s.len(),
{
    if s.len() == 0 {
        None
    } else if s[0] == '"' {
        Some((Seq::empty(), s.skip(1)))
    } else if s[0] == '\\' {
        if s.len() == 1 {
            None
        } else {
            let c = if s[1] == 'n' {
                '\n'
            } else {
                s[1]
            };
            match read_value(s.skip(2)) {
                Some((more, rest)) => Some((seq![c] + more, rest)),
                None => None,
            }
        }
    } else {
        match read_value(s.skip(1)) {
            Some((more, rest)) => Some((seq![s[0]] + more, rest)),
            None => None,
        }
    }
}

/// Reads labels up to the brace that ends them: the labels and what follows.
pub open spec fn read_labels(s: Seq<char>) -> Option<
    (Seq<(Seq<char>, Seq<char>)>, Seq<char>),
>
    decreases s.len(),
{
    let n = name_len(s) as int;
    if n == 0 || n + 1 >= s.len() || s[n] != '=' || s[n + 1] != '"' {
        None
    } else {
        match read_value(s.skip(n + 2)) {
            Some((value, rest)) => {
                let label = (s.take(n), value);
                if rest.len() == 0 || rest.len() >= s.len() {
                    None
                } else if rest[0] == '}' {
                    Some((seq![label], rest.skip(1)))
                } else if rest[0] == ',' {
                    match read_labels(rest.skip(1)) {
                        Some((more, end)) => Some((seq![label] + more, end)),
                        None => None,
                    }
                } else {
                    None
                }
            },
            None => None,
        }
    }
}

/// Reads a name, a space and what follows.
pub open spec fn read_pair(s: Seq<char>) -> Option<(Seq<char>, Seq<char>)> {
    let n = name_len(s) as int;
    if n == 0 || n >= s.len() || s[n] != ' ' {
        None
    } else {
        Some((s.take(n), s.skip(n + 1)))
    }
}

/// Reads a line without its end.
pub open spec fn read_line(s: Seq<char>) -> Option<Entry> {
    let n = name_len(s) as int;
    if s.len() >= 7 && s.take(7) == seq!['#', ' ', 'H', 'E', 'L', 'P', ' '] {
        match read_pair(s.skip(7)) {
            Some((metric, text)) => Some(Entry::Help { metric, text }),
            None => None,
        }
    } else if s.len() >= 7 && s.take(7) == seq!['#', ' ', 'T', 'Y', 'P', 'E', ' '] {
        match read_pair(s.skip(7)) {
            Some((metric, kind)) => Some(Entry::Kind { metric, kind }),
            None => None,
        }
    } else if n == 0 || n >= s.len() {
        None
    } else if s[n] == '{' {
        match read_labels(s.skip(n + 1)) {
            Some((labels, rest)) => if rest.len() > 0 && rest[0] == ' ' {
                Some(Entry::Sample { metric: s.take(n), labels, value: rest.skip(1) })
            } else {
                None
            },
            None => None,
        }
    } else if s[n] == ' ' {
        Some(Entry::Sample { metric: s.take(n), labels: Seq::empty(), value: s.skip(n + 1) })
    } else {
        None
    }
}

/// Reads a page line by line.
pub open spec fn read_page(s: Seq<char>) -> Option<Seq<Entry>>
    decreases s.len(),
{
    let n = before(s, '\n') as int;
    if s.len() == 0 {
        Some(Seq::empty())
    } else if n >= s.len() {
        None
    } else {
        match (read_line(s.take(n)), read_page(s.skip(n + 1))) {
            (Some(entry), Some(more)) => Some(seq![entry] + more),
            _ => None,
        }
    }
}

/// A label as a page shows it.
pub open spec fn label_text(label: (Seq<char>, Seq<char>)) -> Seq<char> {
    label.0 + seq!['=', '"'] + esc(label.1) + seq!['"']
}

/// Labels as a page shows them, up to the brace that ends them.
pub open spec fn labels_text(labels: Seq<(Seq<char>, Seq<char>)>) -> Seq<char>
    decreases labels.len(),
{
    if labels.len() == 0 {
        Seq::empty()
    } else if labels.len() == 1 {
        label_text(labels[0])
    } else {
        label_text(labels[0]) + seq![','] + labels_text(labels.skip(1))
    }
}

/// A line of a page without its end.
pub open spec fn line_text(entry: Entry) -> Seq<char> {
    match entry {
        Entry::Help { metric, text } => seq!['#', ' ', 'H', 'E', 'L', 'P', ' '] + (metric + (
        seq![' '] + text)),
        Entry::Kind { metric, kind } => seq!['#', ' ', 'T', 'Y', 'P', 'E', ' '] + (metric + (
        seq![' '] + kind)),
        Entry::Sample { metric, labels, value } => if labels.len() == 0 {
            metric + (seq![' '] + value)
        } else {
            metric + (seq!['{'] + (labels_text(labels) + (seq!['}'] + (seq![' '] + value))))
        },
    }
}

/// A line of a page.
pub open spec fn entry_text(entry: Entry) -> Seq<char> {
    line_text(entry) + seq!['\n']
}

/// A page.
pub open spec fn page_text(entries: Seq<Entry>) -> Seq<char> {
    cat(entries, |entry: Entry| entry_text(entry))
}

/// Whether a text is a name.
pub open spec fn is_name(s: Seq<char>) -> bool {
    s.len() > 0 && forall|i: int| 0 <= i < s.len() ==> in_name(#[trigger] s[i])
}

/// Whether a text is one line.
pub open spec fn one_line(s: Seq<char>) -> bool {
    forall|i: int| 0 <= i < s.len() ==> (#[trigger] s[i]) != '\n'
}

/// Whether an entry can be shown: its names are names, and it is one line.
pub open spec fn fit(entry: Entry) -> bool {
    match entry {
        Entry::Help { metric, text } => is_name(metric) && one_line(text),
        Entry::Kind { metric, kind } => is_name(metric) && one_line(kind),
        Entry::Sample { metric, labels, value } => is_name(metric) && one_line(value) && forall|
            i: int,
        |
            0 <= i < labels.len() ==> is_name((#[trigger] labels[i]).0),
    }
}

proof fn lemma_before(a: Seq<char>, b: Seq<char>, end: char)
    requires
        forall|i: int| 0 <= i < a.len() ==> (#[trigger] a[i]) != end,
        b.len() > 0,
        b[0] == end,
    ensures
        before(a + b, end) == a.len(),
    decreases a.len(),
{
    if a.len() == 0 {
        assert(a + b =~= b);
    } else {
        assert((a + b).skip(1) =~= a.skip(1) + b);
        assert((a + b)[0] == a[0]);
        lemma_before(a.skip(1), b, end);
    }
}

proof fn lemma_name(a: Seq<char>, b: Seq<char>)
    requires
        is_name(a) || a.len() == 0,
        b.len() > 0,
        !in_name(b[0]),
    ensures
        name_len(a + b) == a.len(),
        (a + b).take(a.len() as int) == a,
        (a + b).skip(a.len() as int) == b,
        (a + b).skip(a.len() as int + 1) == b.skip(1),
        (a + b)[a.len() as int] == b[0],
    decreases a.len(),
{
    assert((a + b).take(a.len() as int) =~= a);
    assert((a + b).skip(a.len() as int) =~= b);
    assert((a + b).skip(a.len() as int + 1) =~= b.skip(1));
    if a.len() == 0 {
        assert(a + b =~= b);
    } else {
        assert((a + b).skip(1) =~= a.skip(1) + b);
        assert((a + b)[0] == a[0]);
        assert(in_name(a[0]));
        lemma_name(a.skip(1), b);
    }
}

/// A text escaped is its first character escaped, then the rest.
pub proof fn lemma_esc_first(s: Seq<char>)
    requires
        s.len() > 0,
    ensures
        esc(s) == esc_char(s[0]) + esc(s.skip(1)),
{
    let f = |c: char| esc_char(c);
    let first = seq![s[0]];
    assert(s =~= first + s.skip(1));
    lemma_cat_append(first, s.skip(1), f);
    assert(first.drop_last() =~= Seq::empty());
    assert(cat(first.drop_last(), f) =~= Seq::empty());
    assert(cat(first, f) =~= esc_char(s[0]));
}

/// A label's value is read as what was escaped, whatever it holds and whatever
/// follows.
pub proof fn law_value_reads_back(s: Seq<char>, rest: Seq<char>)
    ensures
        read_value(esc(s) + (seq!['"'] + rest)) == Some((s, rest)),
    decreases s.len(),
{
    let all = esc(s) + (seq!['"'] + rest);
    if s.len() == 0 {
        assert(esc(s) =~= Seq::empty());
        assert(all[0] == '"');
        assert(all.skip(1) =~= rest);
        assert(s =~= Seq::empty());
    } else {
        let tail = esc(s.skip(1)) + (seq!['"'] + rest);
        lemma_esc_first(s);
        law_value_reads_back(s.skip(1), rest);
        assert(all =~= esc_char(s[0]) + tail);
        assert(s =~= seq![s[0]] + s.skip(1));
        if s[0] == '\\' || s[0] == '"' || s[0] == '\n' {
            assert(all.skip(2) =~= tail);
            assert(all[0] == '\\');
        } else {
            assert(all.skip(1) =~= tail);
            assert(all[0] == s[0]);
        }
    }
}

proof fn lemma_label(label: (Seq<char>, Seq<char>), rest: Seq<char>)
    requires
        is_name(label.0),
    ensures
        ({
            let s = label_text(label) + rest;
            let n = label.0.len() as int;
            &&& name_len(s) == n
            &&& s.len() > n + 1
            &&& s[n] == '='
            &&& s[n + 1] == '"'
            &&& s.take(n) == label.0
            &&& read_value(s.skip(n + 2)) == Some((label.1, rest))
        }),
{
    let s = label_text(label) + rest;
    let n = label.0.len() as int;
    let value = esc(label.1) + (seq!['"'] + rest);
    assert(s =~= label.0 + (seq!['=', '"'] + value));
    lemma_name(label.0, seq!['=', '"'] + value);
    assert(s.skip(n + 2) =~= value);
    law_value_reads_back(label.1, rest);
}

/// Labels are read as what was shown.
proof fn lemma_labels(labels: Seq<(Seq<char>, Seq<char>)>, rest: Seq<char>)
    requires
        labels.len() > 0,
        forall|i: int| 0 <= i < labels.len() ==> is_name((#[trigger] labels[i]).0),
    ensures
        read_labels(labels_text(labels) + (seq!['}'] + rest)) == Some((labels, rest)),
    decreases labels.len(),
{
    let s = labels_text(labels) + (seq!['}'] + rest);
    assert(is_name(labels[0].0));
    if labels.len() == 1 {
        let after = seq!['}'] + rest;
        lemma_label(labels[0], after);
        assert(after[0] == '}');
        assert(after.skip(1) =~= rest);
        assert(labels =~= seq![labels[0]]);
    } else {
        let more = labels.skip(1);
        let after = seq![','] + (labels_text(more) + (seq!['}'] + rest));
        assert(s =~= label_text(labels[0]) + after);
        lemma_label(labels[0], after);
        assert(after[0] == ',');
        assert(after.skip(1) =~= labels_text(more) + (seq!['}'] + rest));
        assert forall|i: int| 0 <= i < more.len() implies is_name((#[trigger] more[i]).0) by {
            assert(more[i] == labels[i + 1]);
        }
        lemma_labels(more, rest);
        assert(labels =~= seq![labels[0]] + more);
    }
}

proof fn lemma_pair_line(name: Seq<char>, text: Seq<char>)
    requires
        is_name(name),
    ensures
        read_pair(name + (seq![' '] + text)) == Some((name, text)),
{
    let after = seq![' '] + text;
    lemma_name(name, after);
    assert(after.skip(1) =~= text);
}

/// A line is read as what was shown.
proof fn lemma_line(entry: Entry)
    requires
        fit(entry),
    ensures
        read_line(line_text(entry)) == Some(entry),
{
    let s = line_text(entry);
    match entry {
        Entry::Help { metric, text } => {
            let mark = seq!['#', ' ', 'H', 'E', 'L', 'P', ' '];
            assert(s.take(7) =~= mark);
            assert(s.skip(7) =~= metric + (seq![' '] + text));
            lemma_pair_line(metric, text);
        },
        Entry::Kind { metric, kind } => {
            let mark = seq!['#', ' ', 'T', 'Y', 'P', 'E', ' '];
            assert(s.take(7) =~= mark);
            assert(s.take(7)[2] == 'T');
            assert(s.skip(7) =~= metric + (seq![' '] + kind));
            lemma_pair_line(metric, kind);
        },
        Entry::Sample { metric, labels, value } => {
            assert(s[0] == metric[0]);
            if s.len() >= 7 {
                assert(s.take(7)[0] != '#');
            }
            if labels.len() == 0 {
                let after = seq![' '] + value;
                lemma_name(metric, after);
                assert(after.skip(1) =~= value);
                assert(labels =~= Seq::empty());
            } else {
                let inner = labels_text(labels) + (seq!['}'] + (seq![' '] + value));
                let after = seq!['{'] + inner;
                lemma_name(metric, after);
                assert(after.skip(1) =~= inner);
                lemma_labels(labels, seq![' '] + value);
                let rest = seq![' '] + value;
                assert(rest[0] == ' ');
                assert(rest.skip(1) =~= value);
            }
        },
    }
}

proof fn lemma_esc_one_line(s: Seq<char>)
    ensures
        one_line(esc(s)),
    decreases s.len(),
{
    if s.len() > 0 {
        lemma_esc_one_line(s.drop_last());
        assert(esc(s) == esc(s.drop_last()) + esc_char(s.last()));
    }
}

proof fn lemma_labels_one_line(labels: Seq<(Seq<char>, Seq<char>)>)
    requires
        forall|i: int| 0 <= i < labels.len() ==> is_name((#[trigger] labels[i]).0),
    ensures
        one_line(labels_text(labels)),
    decreases labels.len(),
{
    if labels.len() > 0 {
        assert(is_name(labels[0].0));
        lemma_esc_one_line(labels[0].1);
        assert(one_line(label_text(labels[0])));
        let more = labels.skip(1);
        assert forall|i: int| 0 <= i < more.len() implies is_name((#[trigger] more[i]).0) by {
            assert(more[i] == labels[i + 1]);
        }
        lemma_labels_one_line(more);
    }
}

proof fn lemma_one_line(entry: Entry)
    requires
        fit(entry),
    ensures
        one_line(line_text(entry)),
{
    match entry {
        Entry::Help { metric, text } => {},
        Entry::Kind { metric, kind } => {},
        Entry::Sample { metric, labels, value } => {
            lemma_labels_one_line(labels);
        },
    }
}

/// A page is read as the entries that it shows, in their order.
pub proof fn law_page_reads_back(entries: Seq<Entry>)
    requires
        forall|i: int| 0 <= i < entries.len() ==> fit(#[trigger] entries[i]),
    ensures
        read_page(page_text(entries)) == Some(entries),
    decreases entries.len(),
{
    let f = |entry: Entry| entry_text(entry);
    let s = page_text(entries);
    if entries.len() == 0 {
        assert(s =~= Seq::empty());
        assert(entries =~= Seq::empty());
    } else {
        let first = entries[0];
        let more = entries.skip(1);
        assert(entries =~= seq![first] + more);
        lemma_cat_append(seq![first], more, f);
        assert(seq![first].drop_last() =~= Seq::empty());
        assert(cat(seq![first].drop_last(), f) =~= Seq::empty());
        assert(cat(seq![first], f) =~= entry_text(first));
        let line = line_text(first);
        let tail = seq!['\n'] + page_text(more);
        assert(s =~= line + tail);
        assert(fit(first));
        lemma_one_line(first);
        lemma_before(line, tail, '\n');
        lemma_line(first);
        assert(s.take(line.len() as int) =~= line);
        assert(s.skip(line.len() as int + 1) =~= page_text(more));
        assert forall|i: int| 0 <= i < more.len() implies fit(#[trigger] more[i]) by {
            assert(more[i] == entries[i + 1]);
        }
        law_page_reads_back(more);
    }
}

} // verus!
