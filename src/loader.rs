use std::collections::HashMap;
use vstd::prelude::*;

verus! {

broadcast use vstd::std_specs::hash::group_hash_axioms;

/// The fields of `s` between tab characters, in order; one empty field for
/// an empty `s`.
pub open spec fn tab_fields(s: Seq<char>) -> Seq<Seq<char>>
    decreases s.len(),
{
    if s.len() == 0 {
        seq![Seq::<char>::empty()]
    } else {
        let f = tab_fields(s.drop_last());
        if s.last() == '\t' {
            f.push(Seq::<char>::empty())
        } else {
            f.update(f.len() - 1, f.last().push(s.last()))
        }
    }
}

/// Whether `c` is an ASCII decimal digit.
pub open spec fn is_digit(c: char) -> bool {
    '0' <= c <= '9'
}

/// The number spelled by the decimal digits `s`.
pub open spec fn chars_value(s: Seq<char>) -> int
    decreases s.len(),
{
    if s.len() == 0 {
        0
    } else {
        chars_value(s.drop_last()) * 10 + (s.last() as int - '0' as int)
    }
}

/// The `u32` that `s` spells in decimal, after an optional `+`, if it is one.
pub open spec fn u32_text(s: Seq<char>) -> Option<u32> {
    let d = if s.len() > 0 && s[0] == '+' {
        s.drop_first()
    } else {
        s
    };
    if d.len() > 0 && (forall|i: int| 0 <= i < d.len() ==> is_digit(#[trigger] d[i]))
        && chars_value(d) <= u32::MAX {
        Some(chars_value(d) as u32)
    } else {
        None
    }
}

/// The record of a line with fields `fields`: the hash in the first field and
/// the text in the third; none where there are fewer than three fields or the
/// first is no `u32`.
pub open spec fn record_of(fields: Seq<Seq<char>>) -> Option<(u32, Seq<char>)> {
    if fields.len() < 3 {
        None
    } else {
        match u32_text(fields[0]) {
            Some(h) => Some((h, fields[2])),
            None => None,
        }
    }
}

/// The table that the lines `lines` give: each well-formed line in turn maps
/// its hash to its text, a later line replacing an earlier one.
pub open spec fn table_of(lines: Seq<String>) -> Map<u32, Seq<char>>
    decreases lines.len(),
{
    if lines.len() == 0 {
        Map::empty()
    } else {
        let t = table_of(lines.drop_last());
        match record_of(tab_fields(lines.last()@)) {
            Some((h, text)) => t.insert(h, text),
            None => t,
        }
    }
}

/// Relies on `str::split` with a tab separator: the fields between tabs, in
/// order.
#[verifier::external_body]
fn split_tabs<'a>(line: &'a str) -> (r: Vec<&'a str>)
    ensures
        r@.len() == tab_fields(line@).len(),
        forall|i: int| 0 <= i < r@.len() ==> (#[trigger] r@[i])@ == tab_fields(line@)[i],
{
    line.split('\t').collect()
}

/// Relies on `<u32 as FromStr>::from_str`: an optional `+`, then one or more
/// ASCII digits whose value fits in a `u32`.
#[verifier::external_body]
fn parse_u32(s: &str) -> (r: Option<u32>)
    ensures
        r == u32_text(s@),
{
    s.parse::<u32>().ok()
}

/// The hash and the text of one line of the input table, or `None` for a
/// malformed line.
pub fn parse_line(line: &str) -> (r: Option<(u32, String)>)
    ensures
        match r {
            Some((h, text)) => record_of(tab_fields(line@)) == Some((h, text@)),
            None => record_of(tab_fields(line@)) is None,
        },
{
    let fields = split_tabs(line);
    if fields.len() < 3 {
        return None;
    }
    match parse_u32(fields[0]) {
        Some(h) => Some((h, fields[2].to_owned())),
        None => None,
    }
}

/// The table that `lines` give, malformed lines skipped.
pub fn load_table(lines: &Vec<String>) -> (r: HashMap<u32, String>)
    ensures
        forall|h: u32| #[trigger]
            r@.contains_key(h) <==> table_of(lines@).contains_key(h),
        forall|h: u32| r@.contains_key(h) ==> (#[trigger] r@[h])@ == table_of(lines@)[h],
{
    let mut table: HashMap<u32, String> = HashMap::new();
    let mut i: usize = 0;
    while i < lines.len()
        invariant
            i <= lines@.len(),
            forall|h: u32| #[trigger]
                table@.contains_key(h) <==> table_of(lines@.subrange(0, i as int)).contains_key(h),
            forall|h: u32|
                table@.contains_key(h) ==> (#[trigger] table@[h])@ == table_of(
                    lines@.subrange(0, i as int),
                )[h],
        decreases lines@.len() - i,
    {
        assert(lines@.subrange(0, i as int + 1).drop_last() =~= lines@.subrange(0, i as int));
        match parse_line(lines[i].as_str()) {
            Some((h, text)) => {
                table.insert(h, text);
            },
            None => {},
        }
        i = i + 1;
    }
    assert(lines@.subrange(0, lines@.len() as int) =~= lines@);
    table
}

/// A malformed line (fewer than three fields, or a first field that is no
/// `u32`) is skipped: the table is what it would be without that line.
pub proof fn lemma_malformed_line_skipped(lines: Seq<String>, i: int)
    requires
        0 <= i < lines.len(),
        record_of(tab_fields(lines[i]@)) is None,
    ensures
        table_of(lines) == table_of(lines.remove(i)),
    decreases lines.len(),
{
    if i == lines.len() - 1 {
        assert(lines.remove(i) =~= lines.drop_last());
    } else {
        lemma_malformed_line_skipped(lines.drop_last(), i);
        assert(lines.remove(i).drop_last() =~= lines.drop_last().remove(i));
        assert(lines.remove(i).last() == lines.last());
    }
}

} // verus!
