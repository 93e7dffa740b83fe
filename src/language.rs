//! Choosing a caption language from an ordered list of preferences.
use crate::cues::texts_view;
use vstd::prelude::*;
use youtube_captions::language_tags::LanguageTag;

verus! {

#[verifier::external_type_specification]
#[verifier::external_body]
pub struct ExLanguageTag(LanguageTag);

/// Whether `LanguageTag::parse` accepts the text (a well-formed tag).
pub uninterp spec fn tag_parses(s: Seq<char>) -> bool;

/// Whether the tag parsed from the text is a language range: it has no
/// extension and no private-use part.
pub uninterp spec fn tag_is_range(s: Seq<char>) -> bool;

/// Whether the range parsed from `range` matches the tag parsed from `tag`.
pub uninterp spec fn tag_matches(range: Seq<char>, tag: Seq<char>) -> bool;

/// A language tag together with the text it was parsed from.
pub struct Tag {
    text: String,
    parsed: LanguageTag,
}

impl View for Tag {
    type V = Seq<char>;

    closed spec fn view(&self) -> Seq<char> {
        self.text@
    }
}

/// Relies on `LanguageTag::parse`: `Ok` exactly on a well-formed tag. The
/// text is kept beside the parsed tag.
#[verifier::external_body]
fn parse_tag(s: &str) -> (r: Option<Tag>)
    ensures
        r is Some <==> tag_parses(s@),
        r matches Some(t) ==> t@ == s@,
{
    match LanguageTag::parse(s) {
        Ok(parsed) => Some(Tag { text: s.to_string(), parsed }),
        Err(_) => None,
    }
}

/// Relies on `LanguageTag::is_language_range`.
#[verifier::external_body]
fn is_language_range(t: &Tag) -> (r: bool)
    ensures
        r == tag_is_range(t@),
{
    t.parsed.is_language_range()
}

/// Relies on `LanguageTag::matches`, with the first tag as the range; it
/// panics unless that tag is a language range.
#[verifier::external_body]
fn range_matches(range: &Tag, tag: &Tag) -> (r: bool)
    requires
        tag_is_range(range@),
    ensures
        r == tag_matches(range@, tag@),
{
    range.parsed.matches(&tag.parsed)
}

/// Whether preference `p` selects available tag `a`: both are well-formed,
/// `p` is a language range, and it matches `a` (directionally, from the
/// preference to the available tag). A malformed tag matches nothing.
pub open spec fn pref_matches(p: Seq<char>, a: Seq<char>) -> bool {
    tag_parses(p) && tag_is_range(p) && tag_parses(a) && tag_matches(p, a)
}

pub open spec fn matches_any(p: Seq<char>, available: Seq<Seq<char>>) -> bool {
    exists|j: int| 0 <= j < available.len() && pref_matches(p, #[trigger] available[j])
}

/// `i` is the earliest preference that matches some available tag.
pub open spec fn is_first_matching(prefs: Seq<Seq<char>>, available: Seq<Seq<char>>, i: int) -> bool {
    &&& 0 <= i < prefs.len()
    &&& matches_any(prefs[i], available)
    &&& forall|k: int| 0 <= k < i ==> !matches_any(#[trigger] prefs[k], available)
}

pub open spec fn none_matches(prefs: Seq<Seq<char>>, available: Seq<Seq<char>>) -> bool {
    forall|k: int| 0 <= k < prefs.len() ==> !matches_any(#[trigger] prefs[k], available)
}

/// `j` is the first available tag that preference `p` matches.
pub open spec fn is_first_track(p: Seq<char>, available: Seq<Seq<char>>, j: int) -> bool {
    &&& 0 <= j < available.len()
    &&& pref_matches(p, available[j])
    &&& forall|l: int| 0 <= l < j ==> !pref_matches(p, #[trigger] available[l])
}

/// The earliest preference that matches some available tag, where one does.
pub open spec fn chosen_preference(prefs: Seq<Seq<char>>, available: Seq<Seq<char>>) -> int {
    choose|i: int| is_first_matching(prefs, available, i)
}

/// Parses each available tag; a malformed one becomes `None`.
fn parse_all(available: &Vec<String>) -> (r: Vec<Option<Tag>>)
    ensures
        r@.len() == available@.len(),
        forall|j: int| 0 <= j < r@.len() ==> (#[trigger] r@[j] is Some <==> tag_parses(available@[j]@)),
        forall|j: int| 0 <= j < r@.len() && #[trigger] r@[j] is Some ==> r@[j]->0@ == available@[j]@,
{
    let mut out: Vec<Option<Tag>> = Vec::new();
    let mut j: usize = 0;
    while j < available.len()
        invariant
            j <= available.len(),
            out@.len() == j,
            forall|l: int| 0 <= l < j ==> (#[trigger] out@[l] is Some <==> tag_parses(available@[l]@)),
            forall|l: int| 0 <= l < j && #[trigger] out@[l] is Some ==> out@[l]->0@ == available@[l]@,
        decreases available.len() - j,
    {
        out.push(parse_tag(available[j].as_str()));
        j += 1;
    }
    out
}

/// Position of the first parsed tag that `range` matches.
fn first_match(range: &Tag, tags: &Vec<Option<Tag>>, available: Ghost<Seq<Seq<char>>>) -> (r: Option<usize>)
    requires
        tag_parses(range@),
        tag_is_range(range@),
        tags@.len() == available@.len(),
        forall|j: int| 0 <= j < tags@.len() ==> (#[trigger] tags@[j] is Some <==> tag_parses(available@[j])),
        forall|j: int| 0 <= j < tags@.len() && #[trigger] tags@[j] is Some ==> tags@[j]->0@ == available@[j],
    ensures
        r matches Some(j) ==> is_first_track(range@, available@, j as int),
        r is None ==> !matches_any(range@, available@),
{
    let mut j: usize = 0;
    while j < tags.len()
        invariant
            j <= tags@.len(),
            tag_parses(range@),
            tag_is_range(range@),
            tags@.len() == available@.len(),
            forall|l: int| 0 <= l < tags@.len() ==> (#[trigger] tags@[l] is Some <==> tag_parses(available@[l])),
            forall|l: int| 0 <= l < tags@.len() && #[trigger] tags@[l] is Some ==> tags@[l]->0@ == available@[l],
            forall|l: int| 0 <= l < j ==> !pref_matches(range@, #[trigger] available@[l]),
        decreases tags.len() - j,
    {
        match &tags[j] {
            Some(t) => {
                if range_matches(range, t) {
                    return Some(j);
                }
            },
            None => {},
        }
        j += 1;
    }
    None
}

/// The earliest preference that matches an available tag, and the first
/// available tag that it matches.
fn select(preferences: &Vec<String>, available: &Vec<String>) -> (r: Option<(usize, usize)>)
    ensures
        r matches Some((i, j)) ==> is_first_matching(texts_view(preferences@), texts_view(available@), i as int)
            && is_first_track(preferences@[i as int]@, texts_view(available@), j as int),
        r is None ==> none_matches(texts_view(preferences@), texts_view(available@)),
{
    let ghost prefs = texts_view(preferences@);
    let ghost avs = texts_view(available@);
    let tags = parse_all(available);
    let mut i: usize = 0;
    while i < preferences.len()
        invariant
            i <= preferences.len(),
            prefs == texts_view(preferences@),
            avs == texts_view(available@),
            tags@.len() == avs.len(),
            forall|j: int| 0 <= j < tags@.len() ==> (#[trigger] tags@[j] is Some <==> tag_parses(avs[j])),
            forall|j: int| 0 <= j < tags@.len() && #[trigger] tags@[j] is Some ==> tags@[j]->0@ == avs[j],
            forall|k: int| 0 <= k < i ==> !matches_any(#[trigger] prefs[k], avs),
        decreases preferences.len() - i,
    {
        assert(prefs[i as int] == preferences@[i as int]@);
        match parse_tag(preferences[i].as_str()) {
            Some(range) => {
                if is_language_range(&range) {
                    match first_match(&range, &tags, Ghost(avs)) {
                        Some(j) => {
                            return Some((i, j));
                        },
                        None => {},
                    }
                }
            },
            None => {},
        }
        i += 1;
    }
    None
}

/// The position of the first preference, in the caller's order, that matches
/// at least one available tag; `None` when no preference matches any. Priority
/// belongs to the preference list, not to the order of the available tags.
/// Malformed tags on either side match nothing.
pub fn select_language(preferences: &Vec<String>, available: &Vec<String>) -> (r: Option<usize>)
    ensures
        r matches Some(i) ==> is_first_matching(texts_view(preferences@), texts_view(available@), i as int),
        r is None ==> none_matches(texts_view(preferences@), texts_view(available@)),
{
    match select(preferences, available) {
        Some((i, _)) => Some(i),
        None => None,
    }
}

/// The position of the first available tag that the preference chosen by
/// `select_language` matches; `None` exactly when that gives `None`.
pub fn select_track(preferences: &Vec<String>, available: &Vec<String>) -> (r: Option<usize>)
    ensures
        r matches Some(j) ==> is_first_track(
            preferences@[chosen_preference(texts_view(preferences@), texts_view(available@))]@,
            texts_view(available@),
            j as int,
        ),
        r is None ==> none_matches(texts_view(preferences@), texts_view(available@)),
{
    match select(preferences, available) {
        Some((i, j)) => {
            let ghost ii = i as int;
            assert(is_first_matching(texts_view(preferences@), texts_view(available@), ii));
            let ghost c = chosen_preference(texts_view(preferences@), texts_view(available@));
            proof {
                assert(is_first_matching(texts_view(preferences@), texts_view(available@), c));
                if c < ii {
                    assert(!matches_any(texts_view(preferences@)[c], texts_view(available@)));
                }
                if ii < c {
                    assert(!matches_any(texts_view(preferences@)[ii], texts_view(available@)));
                }
                assert(texts_view(preferences@)[ii] == preferences@[ii]@);
            }
            Some(j)
        },
        None => None,
    }
}

} // verus!
