//! The search line: a text whose start may say what is searched for.
//!
//! A search knows a list of prefixes, each with the kind of search that it
//! stands for. A text that starts with one of them is a search of that kind
//! for the rest of the text; any other text is a search of the fallback
//! kind for the whole text.

use crate::planer::{Student, StudentModel, Teacher, TeacherModel};
use crate::text::{contains_str, occurs_in, strings, strip_prefix, to_uppercase, uppercase_of};
use vstd::prelude::*;

verus! {

/// The kinds of a search that knows names and tags only.
#[derive(Clone, Copy, Debug, PartialEq, Eq, Structural)]
pub enum SearchKind {
    Normal,
    Name,
    Tag,
}

impl Default for SearchKind {
    fn default() -> (kind: Self)
        ensures
            kind == SearchKind::Normal,
    {
        SearchKind::Normal
    }
}

/// The first place at or after `from` whose prefix starts `text`.
pub open spec fn prefix_place(text: Seq<char>, prefixes: Seq<Seq<char>>, from: int) -> Option<int>
    decreases prefixes.len() - from,
{
    if from < 0 || from >= prefixes.len() {
        None
    } else if prefixes[from].is_prefix_of(text) {
        Some(from)
    } else {
        prefix_place(text, prefixes, from + 1)
    }
}

/// A search line: its text, the prefixes that it knows with their kinds,
/// and the kind of a search without prefix.
pub struct SearchData<T> {
    search_string: String,
    search_type: T,
    types: Vec<(String, T)>,
}

impl<T> SearchData<T> {
    /// The text that is searched for, prefix and all.
    pub closed spec fn text(&self) -> Seq<char> {
        self.search_string@
    }

    /// The prefixes, in the order in which they are tried.
    pub closed spec fn prefixes(&self) -> Seq<Seq<char>> {
        Seq::new(self.types@.len(), |i: int| self.types@[i].0@)
    }

    /// The kind of search that each prefix stands for.
    pub closed spec fn kinds(&self) -> Seq<T> {
        Seq::new(self.types@.len(), |i: int| self.types@[i].1)
    }

    /// The kind of a search whose text starts with no prefix.
    pub closed spec fn fallback(&self) -> T {
        self.search_type
    }

    /// The prefix that the text starts with: the first in the list that
    /// fits, or the empty text if none does.
    pub open spec fn prefix(&self) -> Seq<char> {
        match prefix_place(self.text(), self.prefixes(), 0) {
            Some(i) => self.prefixes()[i],
            None => Seq::empty(),
        }
    }

    /// What is searched for: the text without its prefix.
    pub open spec fn rest(&self) -> Seq<char> {
        self.text().skip(self.prefix().len() as int)
    }

    /// The kind of the search: that of the prefix that the text starts
    /// with, or the fallback kind.
    pub open spec fn kind(&self) -> T {
        match prefix_place(self.text(), self.prefixes(), 0) {
            Some(i) => self.kinds()[i],
            None => self.fallback(),
        }
    }

    pub fn search_string(&self) -> (text: &str)
        ensures
            text@ == self.text(),
    {
        self.search_string.as_str()
    }

    pub fn set_search_string(&mut self, text: String)
        ensures
            final(self).text() == text@,
            final(self).prefixes() == old(self).prefixes(),
            final(self).kinds() == old(self).kinds(),
            final(self).fallback() == old(self).fallback(),
    {
        self.search_string = text;
    }

    /// Forgets the text.
    pub fn clear(&mut self)
        ensures
            final(self).text() == Seq::<char>::empty(),
            final(self).prefixes() == old(self).prefixes(),
            final(self).kinds() == old(self).kinds(),
            final(self).fallback() == old(self).fallback(),
    {
        self.search_string = String::new();
    }

    /// The prefixes with their kinds, in the order in which they are tried.
    pub fn types(&self) -> (types: &[(String, T)])
        ensures
            types@.len() == self.prefixes().len(),
            types@.len() == self.kinds().len(),
            forall|i: int|
                0 <= i < types@.len() ==> (#[trigger] types@[i]).0@ == self.prefixes()[i]
                    && types@[i].1 == self.kinds()[i],
    {
        self.types.as_slice()
    }
}

impl<T: Default + Copy> SearchData<T> {
    /// A search with an empty text that knows the given prefixes. Its
    /// fallback kind is what the default of `T` hands out.
    pub fn new(types: &[(&str, T)]) -> (search: Self)
        ensures
            search.text() == Seq::<char>::empty(),
            search.prefixes() == Seq::new(types@.len(), |i: int| types@[i].0@),
            search.kinds() == Seq::new(types@.len(), |i: int| types@[i].1),
            call_ensures(T::default, (), search.fallback()),
    {
        let mut list: Vec<(String, T)> = Vec::new();
        let mut i: usize = 0;
        while i < types.len()
            invariant
                i <= types@.len(),
                list@.len() == i,
                forall|j: int|
                    0 <= j < i ==> (#[trigger] list@[j]).0@ == types@[j].0@ && list@[j].1
                        == types@[j].1,
            decreases types@.len() - i,
        {
            let prefix: String = types[i].0.to_owned();
            list.push((prefix, types[i].1));
            i += 1;
        }
        let search = Self { search_string: String::new(), search_type: T::default(), types: list };
        assert(search.prefixes() =~= Seq::new(types@.len(), |i: int| types@[i].0@));
        assert(search.kinds() =~= Seq::new(types@.len(), |i: int| types@[i].1));
        search
    }

    /// The prefix that the text starts with, what follows it, and the kind
    /// of the search.
    fn parts(&self) -> (found: (&str, &str, T))
        ensures
            found.0@ == self.prefix(),
            found.1@ == self.rest(),
            found.2 == self.kind(),
    {
        let text = self.search_string.as_str();
        let mut i: usize = 0;
        while i < self.types.len()
            invariant
                i <= self.types@.len(),
                text@ == self.text(),
                prefix_place(self.text(), self.prefixes(), 0) == prefix_place(
                    self.text(),
                    self.prefixes(),
                    i as int,
                ),
            decreases self.types@.len() - i,
        {
            let prefix = self.types[i].0.as_str();
            match strip_prefix(text, prefix) {
                Some(rest) => {
                    proof {
                        assert((prefix@ + rest@).subrange(0, prefix@.len() as int) =~= prefix@);
                        assert((prefix@ + rest@).skip(prefix@.len() as int) =~= rest@);
                    }
                    return (prefix, rest, self.types[i].1);
                },
                None => {},
            }
            i += 1;
        }
        proof {
            reveal_strlit("");
            assert(""@ =~= Seq::<char>::empty());
            assert(text@.skip(0) =~= text@);
        }
        ("", text, self.search_type)
    }

    /// The prefix that the text starts with, and the kind of the search.
    pub fn get_search_type(&self) -> (found: (&str, T))
        ensures
            found.0@ == self.prefix(),
            found.1 == self.kind(),
    {
        let parts = self.parts();
        (parts.0, parts.2)
    }

    /// What is searched for, without the prefix, and the kind of the
    /// search.
    pub fn search(&self) -> (found: (&str, T))
        ensures
            found.0@ == self.rest(),
            found.1 == self.kind(),
    {
        let parts = self.parts();
        (parts.1, parts.2)
    }

    /// Makes the search one of the kind at `place`: the prefix of that kind
    /// takes the place of the prefix that the text starts with. Nothing
    /// happens if there is no such kind.
    pub fn select(&mut self, place: usize)
        ensures
            final(self).prefixes() == old(self).prefixes(),
            final(self).kinds() == old(self).kinds(),
            final(self).fallback() == old(self).fallback(),
            final(self).text() == if place < old(self).prefixes().len() {
                old(self).prefixes()[place as int] + old(self).rest()
            } else {
                old(self).text()
            },
    {
        if place < self.types.len() {
            let parts = self.parts();
            let mut text = self.types[place].0.clone();
            text.append(parts.1);
            self.search_string = text;
        }
    }
}

/// What a search can be for.
#[derive(Clone, Copy, Debug, PartialEq, Eq, Structural)]
pub enum SearchType {
    Normal,
    Name,
    Id,
    Subject,
    Tag,
}

impl Default for SearchType {
    fn default() -> (kind: Self)
        ensures
            kind == SearchType::Normal,
    {
        SearchType::Normal
    }
}

impl SearchType {
    /// The label of the kind: its name behind the prefix that selects it.
    pub fn label(&self) -> (label: &'static str)
        ensures
            label@ == match *self {
                SearchType::Normal => "normal"@,
                SearchType::Name => "@name"@,
                SearchType::Id => "$id"@,
                SearchType::Subject => ":subject"@,
                SearchType::Tag => "#tag"@,
            },
    {
        match self {
            SearchType::Normal => "normal",
            SearchType::Name => "@name",
            SearchType::Id => "$id",
            SearchType::Subject => ":subject",
            SearchType::Tag => "#tag",
        }
    }
}

/// Whether a text whose capital form is `text` matches a query whose
/// capital form is `query`: the query stands somewhere in the text.
pub open spec fn capitals_match(text: Seq<char>, query: Seq<char>) -> bool {
    occurs_in(query, text)
}

/// Whether `text` matches `query`, small and capital letters taken for the
/// same.
pub open spec fn text_matches_spec(text: Seq<char>, query: Seq<char>) -> bool {
    capitals_match(uppercase_of(text), uppercase_of(query))
}

/// Whether one of the subjects matches the query.
pub open spec fn subject_matches_spec(subjects: Seq<Seq<char>>, query: Seq<char>) -> bool {
    exists|i: int| 0 <= i < subjects.len() && text_matches_spec(#[trigger] subjects[i], query)
}

/// Whether the teacher is shown for a search of the kind `kind` for
/// `query`: by name for a plain search and for a search by name, by
/// subject for a search by subject, and not at all for any other.
pub open spec fn teacher_matches_spec(teacher: TeacherModel, query: Seq<char>, kind: SearchType) -> bool {
    match kind {
        SearchType::Normal | SearchType::Name => text_matches_spec(teacher.name.text(), query),
        SearchType::Subject => subject_matches_spec(teacher.subjects, query),
        _ => false,
    }
}

/// Whether the student is shown for a search of the kind `kind` for
/// `query`: by name for a plain search and for a search by name, and not
/// at all for any other.
pub open spec fn student_matches_spec(student: StudentModel, query: Seq<char>, kind: SearchType) -> bool {
    match kind {
        SearchType::Normal | SearchType::Name => text_matches_spec(student.name.text(), query),
        _ => false,
    }
}

/// Whether the query, already in capital letters, stands somewhere in the
/// text, already in capital letters.
pub fn capitals_match_in(text: &str, query: &str) -> (found: bool)
    ensures
        found == capitals_match(text@, query@),
{
    contains_str(text, query)
}

/// Whether `text` matches `query`, small and capital letters taken for the
/// same.
pub fn text_matches(text: &str, query: &str) -> (found: bool)
    ensures
        found == text_matches_spec(text@, query@),
{
    let text = to_uppercase(text);
    let query = to_uppercase(query);
    capitals_match_in(text.as_str(), query.as_str())
}

/// Whether one of the subjects matches the query.
pub fn subject_matches(subjects: &Vec<String>, query: &str) -> (found: bool)
    ensures
        found == subject_matches_spec(strings(subjects@), query@),
{
    let mut i: usize = 0;
    while i < subjects.len()
        invariant
            i <= subjects@.len(),
            forall|j: int| 0 <= j < i ==> !text_matches_spec(#[trigger] strings(subjects@)[j], query@),
        decreases subjects@.len() - i,
    {
        if text_matches(subjects[i].as_str(), query) {
            assert(text_matches_spec(strings(subjects@)[i as int], query@));
            return true;
        }
        i += 1;
    }
    false
}

/// Whether the teacher is shown for a search of the kind `kind` for
/// `query`.
pub fn teacher_matches(teacher: &Teacher, query: &str, kind: SearchType) -> (shown: bool)
    ensures
        shown == teacher_matches_spec(teacher@, query@, kind),
{
    match kind {
        SearchType::Normal | SearchType::Name => {
            let name = teacher.name.to_text();
            text_matches(name.as_str(), query)
        },
        SearchType::Subject => subject_matches(&teacher.subjects, query),
        _ => false,
    }
}

/// Whether the student is shown for a search of the kind `kind` for
/// `query`.
pub fn student_matches(student: &Student, query: &str, kind: SearchType) -> (shown: bool)
    ensures
        shown == student_matches_spec(student@, query@, kind),
{
    match kind {
        SearchType::Normal | SearchType::Name => {
            let name = student.name.to_text();
            text_matches(name.as_str(), query)
        },
        _ => false,
    }
}

} // verus!
