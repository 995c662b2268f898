//! Card names and the one spelling under which a card is looked up.
//!
//! A double-faced card is listed as `Front // Back`; caches and the collection
//! know it by its front face. A few cards are commonly typed without their
//! accents and are known by the accented spelling. The key of a name is its
//! front face in the accented spelling, and every lookup goes by the key.

use crate::text::{
    chars_of, find_char, lemma_prefix_len, lemma_prefix_len_holds, lemma_trimmed_is_part,
    prefix_len, same_text, trim_bounds, trimmed,
};
use vstd::prelude::*;
use vstd::std_specs::convert::FromSpecImpl;
use vstd::string::StrSliceExecFns;

verus! {

/// The front face of a double-faced name: what stands before the first `/`,
/// without the white space around it. `None` for a name without `/`.
pub open spec fn double_faced_front(card: Seq<char>) -> Option<Seq<char>> {
    let at = prefix_len(card, |c: char| c != '/');
    if at < card.len() {
        Some(trimmed(card.take(at as int)))
    } else {
        None
    }
}

/// The accented spelling of a name that is known to be typed without accents.
pub open spec fn accented_spelling(card: Seq<char>) -> Option<Seq<char>> {
    if card == "Lorien Revealed"@ {
        Some("L\u{f3}rien Revealed"@)
    } else if card == "Troll of Khazad-dum"@ {
        Some("Troll of Khazad-d\u{fb}m"@)
    } else {
        None
    }
}

/// `card` in its accented spelling where it has one, else as it is.
pub open spec fn accent_fixed(card: Seq<char>) -> Seq<char> {
    match accented_spelling(card) {
        Some(fixed) => fixed,
        None => card,
    }
}

/// `card` cut down to its front face where it is double-faced, else as it is.
pub open spec fn front_face(card: Seq<char>) -> Seq<char> {
    match double_faced_front(card) {
        Some(front) => front,
        None => card,
    }
}

/// The one spelling under which a card is looked up and kept, however its
/// name was typed: the front face, in its accented spelling where it has one.
pub open spec fn lookup_key(card: Seq<char>) -> Seq<char> {
    accent_fixed(front_face(card))
}

/// A name that is known to be typed without accents is a single face, and so
/// is its accented spelling, which has no other spelling in turn.
pub proof fn lemma_accented_names(card: Seq<char>)
    requires
        accented_spelling(card) is Some,
    ensures
        double_faced_front(card) is None,
        double_faced_front(accent_fixed(card)) is None,
        accented_spelling(accent_fixed(card)) is None,
{
    reveal_strlit("Lorien Revealed");
    reveal_strlit("L\u{f3}rien Revealed");
    reveal_strlit("Troll of Khazad-dum");
    reveal_strlit("Troll of Khazad-d\u{fb}m");
    let fixed = accent_fixed(card);
    let no_slash = |c: char| c != '/';
    assert forall|i: int| 0 <= i < card.len() implies no_slash(#[trigger] card[i]) by {}
    lemma_prefix_len(card, no_slash, card.len() as int);
    assert forall|i: int| 0 <= i < fixed.len() implies no_slash(#[trigger] fixed[i]) by {}
    lemma_prefix_len(fixed, no_slash, fixed.len() as int);
    if card == "Lorien Revealed"@ {
        assert(fixed[1] != "Lorien Revealed"@[1]);
    } else {
        assert(fixed[17] != "Troll of Khazad-dum"@[17]);
    }
}

/// The front face of a double-faced name is a single face.
pub proof fn lemma_front_is_single(card: Seq<char>)
    requires
        double_faced_front(card) is Some,
    ensures
        double_faced_front(front_face(card)) is None,
{
    let no_slash = |c: char| c != '/';
    lemma_prefix_len_holds(card, no_slash);
    let at = prefix_len(card, no_slash) as int;
    let before = card.take(at);
    lemma_trimmed_is_part(before);
    let (a, b) = choose|a: int, b: int|
        0 <= a <= b <= before.len() && #[trigger] before.subrange(a, b) == trimmed(before);
    let front = trimmed(before);
    assert forall|i: int| 0 <= i < front.len() implies no_slash(#[trigger] front[i]) by {
        assert(front[i] == card[a + i]);
    }
    lemma_prefix_len(front, no_slash, front.len() as int);
}

/// The key of a name is settled: looked up again, it is its own key. So
/// however often a name is normalized, all its spellings meet in one key.
pub proof fn lemma_key_is_settled(card: Seq<char>)
    ensures
        lookup_key(lookup_key(card)) == lookup_key(card),
{
    let face = front_face(card);
    if double_faced_front(card) is Some {
        lemma_front_is_single(card);
    }
    if accented_spelling(face) is Some {
        lemma_accented_names(face);
    }
}

/// It makes no difference to the key whether the accents of a name were fixed
/// before it is looked up.
pub proof fn lemma_key_of_fixed(card: Seq<char>)
    ensures
        lookup_key(accent_fixed(card)) == lookup_key(card),
{
    if accented_spelling(card) is Some {
        lemma_accented_names(card);
    }
}

/// The front face of `card` where it is double-faced.
pub fn trim_if_double_faced(card: &str) -> (front: Option<&str>)
    ensures
        match front {
            Some(f) => double_faced_front(card@) == Some(f@),
            None => double_faced_front(card@) is None,
        },
{
    let chars = chars_of(card);
    let at = find_char(&chars, '/');
    if at < chars.len() {
        let (a, b) = trim_bounds(&chars, 0, at);
        assert(chars@.subrange(0, at as int) == chars@.take(at as int));
        Some(card.substring_char(a, b))
    } else {
        None
    }
}

/// The accented spelling of `card` where it is typed without its accents.
pub fn fix_lotr_accented_cards(card: &str) -> (fixed: Option<&'static str>)
    ensures
        match fixed {
            Some(f) => accented_spelling(card@) == Some(f@),
            None => accented_spelling(card@) is None,
        },
{
    if same_text(card, "Lorien Revealed") {
        Some("L\u{f3}rien Revealed")
    } else if same_text(card, "Troll of Khazad-dum") {
        Some("Troll of Khazad-d\u{fb}m")
    } else {
        None
    }
}

/// `card` under the one spelling by which it is looked up and kept.
pub fn normalized<'a>(card: &'a str) -> (out: &'a str)
    ensures
        out@ == lookup_key(card@),
{
    let front = match trim_if_double_faced(card) {
        Some(front) => front,
        None => card,
    };
    match fix_lotr_accented_cards(front) {
        Some(fixed) => fixed,
        None => front,
    }
}

/// An owned card name.
#[derive(Debug, PartialEq, Eq, PartialOrd, Ord, Hash)]
pub struct CardName(String);

/// A borrowed card name.
#[derive(Debug, PartialEq, Eq, PartialOrd, Ord, Hash)]
pub struct CName<'a>(&'a str);

impl View for CardName {
    type V = Seq<char>;

    closed spec fn view(&self) -> Seq<char> {
        self.0@
    }
}

impl<'a> View for CName<'a> {
    type V = Seq<char>;

    closed spec fn view(&self) -> Seq<char> {
        self.0@
    }
}

impl CardName {
    /// The name under its accented spelling where it has one.
    pub fn new(value: String) -> (out: Self)
        ensures
            out@ == accent_fixed(value@),
    {
        match fix_lotr_accented_cards(value.as_str()) {
            Some(fixed) => CardName(fixed.to_owned()),
            None => CardName(value),
        }
    }

    /// The name under which the card is looked up and kept: cut down to its
    /// front face, in its accented spelling where it has one.
    pub fn trimming_double_faced(self) -> (out: Self)
        ensures
            out@ == lookup_key(self@),
    {
        CardName(normalized(self.0.as_str()).to_owned())
    }

    /// The name borrowed, under its accented spelling where it has one.
    pub fn as_slice(&self) -> (out: CName<'_>)
        ensures
            out@ == accent_fixed(self@),
    {
        CName::new(self.0.as_str())
    }

    /// The name as text.
    pub fn as_str(&self) -> (out: &str)
        ensures
            out@ == self@,
    {
        self.0.as_str()
    }

    /// The name as an owned string.
    pub fn to_text(&self) -> (out: String)
        ensures
            out@ == self@,
    {
        self.0.clone()
    }
}

impl<'a> CName<'a> {
    /// The name under its accented spelling where it has one.
    pub fn new(value: &'a str) -> (out: Self)
        ensures
            out@ == accent_fixed(value@),
    {
        match fix_lotr_accented_cards(value) {
            Some(fixed) => CName(fixed),
            None => CName(value),
        }
    }

    /// The name under which the card is looked up and kept: cut down to its
    /// front face, in its accented spelling where it has one.
    pub fn trimming_double_faced(&self) -> (out: CName<'a>)
        ensures
            out@ == lookup_key(self@),
    {
        CName(normalized(self.0))
    }

    /// The name as text.
    pub fn as_str(&self) -> (out: &'a str)
        ensures
            out@ == self@,
    {
        self.0
    }

    /// The name as an owned string.
    pub fn to_text(&self) -> (out: String)
        ensures
            out@ == self@,
    {
        self.0.to_owned()
    }

    /// An owned copy, spelled as it stands.
    pub fn to_owned(&self) -> (out: CardName)
        ensures
            out@ == self@,
    {
        CardName(self.0.to_owned())
    }
}

/// `CardName::new`, for callers that convert with `from` or `into`.
impl From<String> for CardName {
    fn from(value: String) -> (out: Self) {
        CardName::new(value)
    }
}

/// What `from` returns is stated by `CardName::new`: two strings with the same
/// characters are not one value, so no spec function can name the result.
impl FromSpecImpl<String> for CardName {
    open spec fn obeys_from_spec() -> bool {
        false
    }

    open spec fn from_spec(value: String) -> Self {
        arbitrary()
    }
}

/// `CName::new`, for callers that convert with `from` or `into`.
impl<'a> From<&'a str> for CName<'a> {
    fn from(value: &'a str) -> (out: Self) {
        CName::new(value)
    }
}

/// What `from` returns is stated by `CName::new`.
impl<'a> FromSpecImpl<&'a str> for CName<'a> {
    open spec fn obeys_from_spec() -> bool {
        false
    }

    open spec fn from_spec(value: &'a str) -> Self {
        arbitrary()
    }
}

} // verus!
