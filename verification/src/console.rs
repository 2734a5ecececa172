//! Laying text out in a console: widths, in which CJK characters take two
//! columns, and label–value tables.

use vstd::prelude::*;

use crate::text::{chars_of, string_from_chars};

verus! {

/// Whether a character takes two console columns: the CJK blocks.
pub open spec fn is_wide(c: char) -> bool {
    let u = c as u32;
    ||| 0x1100 <= u <= 0x115F
    ||| 0x2E80 <= u <= 0xA4CF
    ||| 0xAC00 <= u <= 0xD7A3
    ||| 0xF900 <= u <= 0xFAFF
    ||| 0xFE30 <= u <= 0xFE4F
    ||| 0xFF00 <= u <= 0xFF60
    ||| 0xFFE0 <= u <= 0xFFE6
}

/// Columns a character takes.
pub open spec fn char_width(c: char) -> nat {
    if is_wide(c) {
        2
    } else {
        1
    }
}

/// Columns a text takes.
pub open spec fn width_of(s: Seq<char>) -> nat
    decreases s.len(),
{
    if s.len() == 0 {
        0
    } else {
        width_of(s.drop_last()) + char_width(s.last())
    }
}

proof fn lemma_width_bound(s: Seq<char>)
    ensures
        s.len() <= width_of(s) <= 2 * s.len(),
    decreases s.len(),
{
    if s.len() > 0 {
        lemma_width_bound(s.drop_last());
    }
}

fn char_columns(c: char) -> (res: usize)
    ensures
        res == char_width(c),
{
    let u = c as u32;
    if (0x1100 <= u && u <= 0x115F) || (0x2E80 <= u && u <= 0xA4CF) || (0xAC00 <= u && u
        <= 0xD7A3) || (0xF900 <= u && u <= 0xFAFF) || (0xFE30 <= u && u <= 0xFE4F) || (0xFF00
        <= u && u <= 0xFF60) || (0xFFE0 <= u && u <= 0xFFE6) {
        2
    } else {
        1
    }
}

fn width_of_chars(chars: &Vec<char>) -> (res: usize)
    requires
        chars@.len() <= usize::MAX / 2,
    ensures
        res == width_of(chars@),
{
    let mut w: usize = 0;
    let mut i: usize = 0;
    while i < chars.len()
        invariant
            i <= chars@.len() <= usize::MAX / 2,
            w == width_of(chars@.take(i as int)),
        decreases chars.len() - i,
    {
        proof {
            lemma_width_bound(chars@.take(i as int));
            assert(chars@.take(i + 1).drop_last() =~= chars@.take(i as int));
        }
        w = w + char_columns(chars[i]);
        i = i + 1;
    }
    assert(chars@.take(i as int) =~= chars@);
    w
}

/// Width in console columns: CJK characters take two.
pub fn display_width(text: &str) -> (res: usize)
    requires
        text@.len() <= usize::MAX / 2,
    ensures
        res == width_of(text@),
{
    let chars = chars_of(text);
    width_of_chars(&chars)
}

/// The widest label.
pub open spec fn label_width(rows: Seq<(Seq<char>, Seq<char>)>) -> nat
    decreases rows.len(),
{
    if rows.len() == 0 {
        0
    } else {
        let w = width_of(rows.last().0);
        let rest = label_width(rows.drop_last());
        if w > rest {
            w
        } else {
            rest
        }
    }
}

/// `n` spaces.
pub open spec fn spaces(n: nat) -> Seq<char> {
    Seq::new(n, |i: int| ' ')
}

/// A table line: the label, spaces up to two past the widest label, the
/// value.
pub open spec fn table_line(label: Seq<char>, value: Seq<char>, width: nat) -> Seq<char> {
    label + spaces((width - width_of(label) + 2) as nat) + value
}

pub open spec fn rows_view(rows: Seq<(String, String)>) -> Seq<(Seq<char>, Seq<char>)> {
    rows.map_values(|r: (String, String)| (r.0@, r.1@))
}

proof fn lemma_label_width_max(rows: Seq<(Seq<char>, Seq<char>)>, i: int)
    requires
        0 <= i < rows.len(),
    ensures
        width_of(rows[i].0) <= label_width(rows),
    decreases rows.len(),
{
    if i < rows.len() - 1 {
        lemma_label_width_max(rows.drop_last(), i);
    }
}

/// Label–value pairs laid out with the values in one column, whatever the
/// language makes of the labels' widths.
pub fn table_lines(rows: &Vec<(String, String)>) -> (res: Vec<String>)
    requires
        forall|i: int| 0 <= i < rows@.len() ==> (#[trigger] rows@[i]).0@.len() <= usize::MAX / 4,
        forall|i: int| 0 <= i < rows@.len() ==> (#[trigger] rows@[i]).1@.len() <= usize::MAX / 4,
    ensures
        res@.len() == rows@.len(),
        forall|i: int|
            0 <= i < rows@.len() ==> (#[trigger] res@[i])@ == table_line(
                rows@[i].0@,
                rows@[i].1@,
                label_width(rows_view(rows@)),
            ),
{
    let ghost rv = rows_view(rows@);
    let mut width: usize = 0;
    let mut i: usize = 0;
    while i < rows.len()
        invariant
            i <= rows@.len(),
            rv == rows_view(rows@),
            forall|k: int| 0 <= k < rows@.len() ==> (#[trigger] rows@[k]).0@.len() <= usize::MAX / 4,
            width == label_width(rv.take(i as int)),
            width <= usize::MAX / 2,
        decreases rows.len() - i,
    {
        let w = display_width(rows[i].0.as_str());
        proof {
            lemma_width_bound(rows@[i as int].0@);
            assert(rv.take(i + 1).drop_last() =~= rv.take(i as int));
            assert(rv.take(i + 1).last() == rv[i as int]);
        }
        if w > width {
            width = w;
        }
        i = i + 1;
    }
    assert(rv.take(i as int) =~= rv);
    let mut out: Vec<String> = Vec::new();
    let mut i: usize = 0;
    while i < rows.len()
        invariant
            i <= rows@.len(),
            rv == rows_view(rows@),
            rv.len() == rows@.len(),
            forall|k: int| 0 <= k < rows@.len() ==> (#[trigger] rows@[k]).0@.len() <= usize::MAX / 4,
            width == label_width(rv),
            width <= usize::MAX / 2,
            out@.len() == i,
            forall|k: int|
                0 <= k < i ==> (#[trigger] out@[k])@ == table_line(rows@[k].0@, rows@[k].1@, width as nat),
        decreases rows.len() - i,
    {
        let label = chars_of(rows[i].0.as_str());
        let value = chars_of(rows[i].1.as_str());
        let lw = width_of_chars(&label);
        proof {
            lemma_label_width_max(rv, i as int);
            assert(rv[i as int].0 == rows@[i as int].0@);
        }
        let pad = width - lw + 2;
        let mut line: Vec<char> = label.clone();
        let mut k: usize = 0;
        while k < pad
            invariant
                k <= pad,
                line@ == label@ + spaces(k as nat),
            decreases pad - k,
        {
            line.push(' ');
            k = k + 1;
            assert(line@ =~= label@ + spaces(k as nat));
        }
        let mut j: usize = 0;
        while j < value.len()
            invariant
                j <= value@.len(),
                line@ == label@ + spaces(pad as nat) + value@.take(j as int),
            decreases value.len() - j,
        {
            line.push(value[j]);
            j = j + 1;
            assert(line@ =~= label@ + spaces(pad as nat) + value@.take(j as int));
        }
        assert(value@.take(j as int) =~= value@);
        out.push(string_from_chars(line.as_slice()));
        i = i + 1;
    }
    out
}

} // verus!
