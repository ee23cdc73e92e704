//! Text: the pieces from which messages are built.

use vstd::prelude::*;

verus! {

/// The characters of a string that may be missing.
pub open spec fn optional_text(text: Option<String>) -> Option<Seq<char>> {
    match text {
        Some(text) => Some(text@),
        None => None,
    }
}

/// The characters of each string of `list`.
pub open spec fn strings(list: Seq<String>) -> Seq<Seq<char>> {
    Seq::new(list.len(), |i: int| list[i]@)
}

/// The parts, one after the other, with `sep` between neighbours.
pub open spec fn joined(parts: Seq<Seq<char>>, sep: Seq<char>) -> Seq<char>
    decreases parts.len(),
{
    if parts.len() == 0 {
        Seq::empty()
    } else if parts.len() == 1 {
        parts[0]
    } else {
        joined(parts.drop_last(), sep) + sep + parts.last()
    }
}

/// The text in which a calendar shows the instant `nanos` nanoseconds after
/// the Unix epoch: date, time of day and the zone name, in UTC.
pub uninterp spec fn utc_text_of(nanos: i64) -> Seq<char>;

/// `chrono::DateTime::<Utc>::from_timestamp_nanos`, then `to_string` on the
/// result. The first accepts every `i64`; the second writes the date and the
/// time in UTC, which depends on the instant alone. The contract gives that
/// text its name and claims nothing else of it.
#[verifier::external_body]
pub(crate) fn utc_text(nanos: i64) -> (text: String)
    ensures
        text@ == utc_text_of(nanos),
{
    chrono::DateTime::<chrono::Utc>::from_timestamp_nanos(nanos).to_string()
}

/// `str::strip_prefix` with a string as the pattern: what follows `prefix`
/// in `s` if `s` starts with it, and `None` if it does not.
#[verifier::external_body]
pub(crate) fn strip_prefix<'a>(s: &'a str, prefix: &str) -> (rest: Option<&'a str>)
    ensures
        match rest {
            Some(tail) => s@ == prefix@ + tail@,
            None => !prefix@.is_prefix_of(s@),
        },
{
    s.strip_prefix(prefix)
}

/// The text in capital letters, as Unicode pairs small letters with capital
/// ones.
pub uninterp spec fn uppercase_of(text: Seq<char>) -> Seq<char>;

/// `str::to_uppercase`: the text with every character replaced by its
/// capital form, which depends on the text alone. The contract gives the
/// result its name and claims nothing else of it.
#[verifier::external_body]
pub(crate) fn to_uppercase(text: &str) -> (upper: String)
    ensures
        upper@ == uppercase_of(text@),
{
    text.to_uppercase()
}

/// Whether `part` stands somewhere in `whole`, character for character.
pub open spec fn occurs_in(part: Seq<char>, whole: Seq<char>) -> bool {
    exists|i: int|
        0 <= i && i + part.len() <= whole.len() && #[trigger] whole.subrange(
            i,
            i + part.len() as int,
        ) == part
}

/// `str::contains` with a string as the pattern: whether the pattern
/// matches a part of the text.
#[verifier::external_body]
pub(crate) fn contains_str(whole: &str, part: &str) -> (found: bool)
    ensures
        found == occurs_in(part@, whole@),
{
    whole.contains(part)
}

/// Whether `list` holds a string with the characters of `wanted`.
pub fn contains_text(list: &Vec<String>, wanted: &String) -> (found: bool)
    ensures
        found == strings(list@).contains(wanted@),
{
    let mut i: usize = 0;
    while i < list.len()
        invariant
            i <= list@.len(),
            forall|j: int| 0 <= j < i ==> list@[j]@ != wanted@,
        decreases list@.len() - i,
    {
        if list[i] == *wanted {
            assert(strings(list@)[i as int] == wanted@);
            return true;
        }
        i += 1;
    }
    assert forall|j: int| 0 <= j < strings(list@).len() implies strings(list@)[j] != wanted@ by {
        assert(list@[j]@ != wanted@);
    }
    false
}

/// The strings of `parts`, one after the other, with `sep` between
/// neighbours.
pub fn join(parts: &Vec<String>, sep: &str) -> (text: String)
    ensures
        text@ == joined(strings(parts@), sep@),
{
    let mut text = String::new();
    let mut i: usize = 0;
    assert(strings(parts@).take(0) =~= Seq::<Seq<char>>::empty());
    while i < parts.len()
        invariant
            i <= parts@.len(),
            text@ == joined(strings(parts@).take(i as int), sep@),
        decreases parts@.len() - i,
    {
        let ghost before = strings(parts@).take(i as int);
        let ghost after = strings(parts@).take(i + 1);
        proof {
            assert(after.drop_last() =~= before);
            assert(after.last() == parts@[i as int]@);
            assert(Seq::<char>::empty() + parts@[i as int]@ =~= parts@[i as int]@);
        }
        if i > 0 {
            text.append(sep);
        }
        text.append(parts[i].as_str());
        i += 1;
    }
    assert(strings(parts@).take(i as int) =~= strings(parts@));
    text
}

/// Whether the character is white space: a tab, a line feed, a vertical
/// tab, a form feed, a carriage return, a space, a next line, a no-break
/// space, or one of the other spaces and separators of lines and paragraphs
/// that Unicode lists as white space.
pub open spec fn is_white(c: char) -> bool {
    let code = c as u32;
    ||| 0x09 <= code <= 0x0d
    ||| code == 0x20
    ||| code == 0x85
    ||| code == 0xa0
    ||| code == 0x1680
    ||| 0x2000 <= code <= 0x200a
    ||| code == 0x2028
    ||| code == 0x2029
    ||| code == 0x202f
    ||| code == 0x205f
    ||| code == 0x3000
}

/// Whether the character is white space.
pub fn is_whitespace(c: char) -> (white: bool)
    ensures
        white == is_white(c),
{
    let code = c as u32;
    (0x09 <= code && code <= 0x0d) || code == 0x20 || code == 0x85 || code == 0xa0 || code
        == 0x1680 || (0x2000 <= code && code <= 0x200a) || code == 0x2028 || code == 0x2029 || code
        == 0x202f || code == 0x205f || code == 0x3000
}

/// Whether the character ends an entry of a list: a comma or a line break.
pub open spec fn is_separator(c: char) -> bool {
    c == ',' || c == '\n'
}

/// The text without the white space at its start and at its end.
pub open spec fn trimmed(text: Seq<char>) -> Seq<char>
    decreases text.len(),
{
    if text.len() == 0 {
        text
    } else if is_white(text[0]) {
        trimmed(text.drop_first())
    } else if is_white(text.last()) {
        trimmed(text.drop_last())
    } else {
        text
    }
}

/// The entry as a list: empty if the entry is empty, else the entry alone.
pub open spec fn kept(entry: Seq<char>) -> Seq<Seq<char>> {
    if entry.len() == 0 {
        Seq::empty()
    } else {
        seq![entry]
    }
}

/// The entries of the list from the entry that starts at `start`, given
/// that no separator stands between `start` and `at`.
pub open spec fn entries_from(text: Seq<char>, start: int, at: int) -> Seq<Seq<char>>
    decreases text.len() - at,
{
    if at < 0 || start < 0 || start > at {
        Seq::empty()
    } else if at >= text.len() {
        if start <= text.len() {
            kept(trimmed(text.subrange(start, text.len() as int)))
        } else {
            Seq::empty()
        }
    } else if is_separator(text[at]) {
        kept(trimmed(text.subrange(start, at))) + entries_from(text, at + 1, at + 1)
    } else {
        entries_from(text, start, at + 1)
    }
}

/// The entries of a list that is written with commas or line breaks
/// between the entries: each without the white space around it, and
/// without the entries that are empty then.
pub open spec fn entries_of(text: Seq<char>) -> Seq<Seq<char>> {
    entries_from(text, 0, 0)
}

/// The characters from `start` up to `end`, without the white space at
/// their start and at their end.
fn trimmed_part(text: &str, start: usize, end: usize) -> (part: String)
    requires
        start <= end <= text@.len(),
    ensures
        part@ == trimmed(text@.subrange(start as int, end as int)),
{
    let mut from = start;
    while from < end && is_whitespace(text.get_char(from))
        invariant
            start <= from <= end <= text@.len(),
            trimmed(text@.subrange(start as int, end as int)) == trimmed(
                text@.subrange(from as int, end as int),
            ),
        decreases end - from,
    {
        proof {
            let now = text@.subrange(from as int, end as int);
            assert(now.drop_first() =~= text@.subrange(from + 1, end as int));
        }
        from += 1;
    }
    let mut to = end;
    while to > from && is_whitespace(text.get_char(to - 1))
        invariant
            start <= from <= to <= end <= text@.len(),
            from < end ==> !is_white(text@[from as int]),
            from == end ==> to == end,
            trimmed(text@.subrange(start as int, end as int)) == trimmed(
                text@.subrange(from as int, to as int),
            ),
        decreases to - from,
    {
        proof {
            let now = text@.subrange(from as int, to as int);
            assert(now[0] == text@[from as int]);
            assert(now.last() == text@[to - 1]);
            assert(now.drop_last() =~= text@.subrange(from as int, to - 1));
        }
        to -= 1;
    }
    proof {
        let now = text@.subrange(from as int, to as int);
        if now.len() > 0 {
            assert(now[0] == text@[from as int]);
            assert(now.last() == text@[to - 1]);
        }
    }
    text.substring_char(from, to).to_owned()
}

/// The entries of a list that is written with commas or line breaks
/// between the entries.
pub fn parse_entries(text: &str) -> (entries: Vec<String>)
    ensures
        strings(entries@) == entries_of(text@),
{
    let len = text.unicode_len();
    let mut entries: Vec<String> = Vec::new();
    let mut start: usize = 0;
    let mut at: usize = 0;
    assert(strings(entries@) + entries_from(text@, 0, 0) =~= entries_of(text@));
    while at < len
        invariant
            start <= at <= len,
            len == text@.len(),
            strings(entries@) + entries_from(text@, start as int, at as int) == entries_of(text@),
        decreases len - at,
    {
        if is_comma_or_break(text.get_char(at)) {
            let ghost had = strings(entries@);
            let entry = trimmed_part(text, start, at);
            if entry.as_str().unicode_len() > 0 {
                entries.push(entry);
            }
            proof {
                let piece = trimmed(text@.subrange(start as int, at as int));
                assert(strings(entries@) =~= had + kept(piece));
                assert((had + kept(piece)) + entries_from(text@, at + 1, at + 1) =~= had + (kept(
                    piece,
                ) + entries_from(text@, at + 1, at + 1)));
            }
            start = at + 1;
        }
        at += 1;
    }
    let ghost had = strings(entries@);
    let entry = trimmed_part(text, start, len);
    if entry.as_str().unicode_len() > 0 {
        entries.push(entry);
    }
    proof {
        let piece = trimmed(text@.subrange(start as int, len as int));
        assert(strings(entries@) =~= had + kept(piece));
    }
    entries
}

fn is_comma_or_break(c: char) -> (found: bool)
    ensures
        found == is_separator(c),
{
    c == ',' || c == '\n'
}

} // verus!
