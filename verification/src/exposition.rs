//! The Prometheus text format: what the exporter and the remediator share.

use crate::text::{cat, chars_of, lemma_cat_step};
use vstd::prelude::*;

verus! {

/// A character of a label value.
pub open spec fn esc_char(c: char) -> Seq<char> {
    if c == '\\' {
        seq!['\\', '\\']
    } else if c == '"' {
        seq!['\\', '"']
    } else if c == '\n' {
        seq!['\\', 'n']
    } else {
        seq![c]
    }
}

/// A label value: backslashes, quotes and line ends escaped.
pub open spec fn esc(s: Seq<char>) -> Seq<char> {
    cat(s, |c: char| esc_char(c))
}

/// Escapes a label value.
pub fn escaped(s: &str) -> (r: String)
    ensures
        r@ == esc(s@),
{
    let cs = chars_of(s);
    let mut r: String = String::new();
    let mut i: usize = 0;
    assert(cs@.take(0) =~= Seq::<char>::empty());
    while i < cs.len()
        invariant
            i <= cs.len(),
            r@ == esc(cs@.take(i as int)),
        decreases cs.len() - i,
    {
        let ghost before = r@;
        proof {
            lemma_cat_step(cs@, i as int, |c: char| esc_char(c));
        }
        let c = cs[i];
        if c == '\\' {
            r.push('\\');
            r.push('\\');
        } else if c == '"' {
            r.push('\\');
            r.push('"');
        } else if c == '\n' {
            r.push('\\');
            r.push('n');
        } else {
            r.push(c);
        }
        assert(r@ =~= before + esc_char(c));
        i = i + 1;
    }
    assert(cs@.take(cs@.len() as int) =~= cs@);
    r
}

/// A flag as a metric shows it.
pub open spec fn flag_text(b: bool) -> Seq<char> {
    if b {
        "1"@
    } else {
        "0"@
    }
}

pub fn flag(b: bool) -> (r: &'static str)
    ensures
        r@ == flag_text(b),
{
    if b {
        "1"
    } else {
        "0"
    }
}

/// A sample whose only label is the device.
pub open spec fn device_line(metric: Seq<char>, device: Seq<char>, value: Seq<char>) -> Seq<char> {
    metric + "{device=\""@ + esc(device) + "\"} "@ + value + "\n"@
}

/// A sample whose only label is the device.
pub fn device_row(metric: &str, device: &str, value: &str) -> (r: String)
    ensures
        r@ == device_line(metric@, device@, value@),
{
    let name = escaped(device);
    metric.to_owned().concat("{device=\"").concat(name.as_str()).concat("\"} ").concat(value).concat(
        "\n",
    )
}

/// The lines that announce a metric.
pub open spec fn header(name: Seq<char>, kind: Seq<char>, help: Seq<char>) -> Seq<char> {
    "# HELP "@ + name + " "@ + help + "\n# TYPE "@ + name + " "@ + kind + "\n"@
}

/// The samples of a metric under its header. A metric without samples is left
/// out.
pub open spec fn block(head: Seq<char>, samples: Seq<char>) -> Seq<char> {
    if samples.len() == 0 {
        Seq::empty()
    } else {
        head + samples
    }
}

/// Adds the header of a metric.
pub fn push_header(out: &mut String, name: &str, kind: &str, help: &str)
    ensures
        final(out)@ == old(out)@ + header(name@, kind@, help@),
{
    let text = "# HELP ".to_owned().concat(name).concat(" ").concat(help).concat("\n# TYPE ").concat(
        name,
    ).concat(" ").concat(kind).concat("\n");
    out.append(text.as_str());
}

/// Adds the samples of a metric under its header.
pub fn push_block(out: &mut String, name: &str, kind: &str, help: &str, samples: &str)
    ensures
        final(out)@ == old(out)@ + block(header(name@, kind@, help@), samples@),
{
    if !is_empty(samples) {
        push_header(out, name, kind, help);
        out.append(samples);
        assert(out@ =~= old(out)@ + block(header(name@, kind@, help@), samples@));
    } else {
        assert(out@ =~= old(out)@ + block(header(name@, kind@, help@), samples@));
    }
}

fn is_empty(s: &str) -> (r: bool)
    ensures
        r == (s@.len() == 0),
{
    proof {
        reveal_strlit("");
    }
    let r = crate::text::same_text(s, "");
    assert(s@.len() == 0 ==> s@ =~= ""@);
    r
}

/// No label value holds a bare quote or a line end: an escaped text is one line,
/// and its quotes follow a backslash.
pub proof fn law_escaped_is_one_line(s: Seq<char>)
    ensures
        !esc(s).contains('\n'),
        forall|i: int|
            0 <= i < esc(s).len() && #[trigger] esc(s)[i] == '"' ==> i > 0 && esc(s)[i - 1] == '\\',
    decreases s.len(),
{
    if s.len() > 0 {
        let before = esc(s.drop_last());
        law_escaped_is_one_line(s.drop_last());
        assert(esc(s) == before + esc_char(s.last()));
        assert forall|i: int| 0 <= i < esc(s).len() implies #[trigger] esc(s)[i] != '\n' by {
            if i < before.len() {
                assert(before.contains(before[i]));
            }
        }
        assert forall|i: int| 0 <= i < esc(s).len() && #[trigger] esc(s)[i] == '"' implies i > 0
            && esc(s)[i - 1] == '\\' by {
            if i < before.len() {
                assert(before[i] == '"');
            }
        }
    }
}

} // verus!
