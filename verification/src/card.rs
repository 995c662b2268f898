//! What the checklist reads of a card.

use crate::digits::{hyphenated, id_text};
use crate::text::{contains_text, has_infix};
use vstd::prelude::*;

verus! {

/// One of the five colors. Their order is white, blue, black, red, green.
#[derive(Clone, Copy, Debug, PartialEq, Eq, Structural, PartialOrd, Ord, Hash)]
pub enum Color {
    White,
    Blue,
    Black,
    Red,
    Green,
}

impl Color {
    /// The place of the color in the order of colors.
    pub open spec fn rank(self) -> int {
        match self {
            Color::White => 0,
            Color::Blue => 1,
            Color::Black => 2,
            Color::Red => 3,
            Color::Green => 4,
        }
    }

    /// The place of the color in the order of colors.
    pub fn index(self) -> (i: usize)
        ensures
            i == self.rank(),
    {
        match self {
            Color::White => 0,
            Color::Blue => 1,
            Color::Black => 2,
            Color::Red => 3,
            Color::Green => 4,
        }
    }
}

/// The places of a list of colors, by which two lists are ordered.
pub open spec fn color_ranks(colors: Seq<Color>) -> Seq<int> {
    Seq::new(colors.len(), |i: int| colors[i].rank())
}

/// One face of a card with more than one.
#[derive(Clone, Debug, PartialEq, Eq)]
pub struct CardFace {
    pub name: String,
    pub colors: Option<Vec<Color>>,
    /// Where the large picture of the face is found.
    pub image_large: Option<String>,
}

/// A card as the card database describes it. It is never changed once made.
#[derive(Clone, Debug, PartialEq, Eq)]
pub struct Card {
    /// The database's identifier of the card.
    pub id: u128,
    pub name: String,
    pub colors: Option<Vec<Color>>,
    pub card_faces: Option<Vec<CardFace>>,
    pub type_line: Option<String>,
    /// Where the large picture of the card is found.
    pub image_large: Option<String>,
    /// Where the database lists the printings of the card.
    pub prints_search_uri: String,
}

/// A printing: the code of a set and the set's name.
#[derive(Clone, Debug, PartialEq, Eq)]
pub struct Printing {
    pub code: String,
    pub name: String,
}

impl Card {
    /// The colors by which the card is ranked: its own where it has any, else
    /// those of its first face.
    pub open spec fn color_signature(self) -> Option<Seq<Color>> {
        match self.colors {
            Some(colors) => Some(colors@),
            None => match self.card_faces {
                Some(faces) => if faces@.len() > 0 {
                    match faces@[0].colors {
                        Some(colors) => Some(colors@),
                        None => None,
                    }
                } else {
                    None
                },
                None => None,
            },
        }
    }

    /// The name of the face that the card shows first: that of its first face
    /// where it has faces, else its own.
    pub open spec fn front_name(self) -> Seq<char> {
        match self.card_faces {
            Some(faces) => if faces@.len() > 0 {
                faces@[0].name@
            } else {
                self.name@
            },
            None => self.name@,
        }
    }

    /// Whether the type line calls the card a land.
    pub open spec fn land(self) -> bool {
        match self.type_line {
            Some(line) => has_infix(line@, "Land"@),
            None => false,
        }
    }

    /// The first large picture there is: the card's own, else that of the first
    /// face that has one.
    pub open spec fn picture(self) -> Option<Seq<char>> {
        match self.image_large {
            Some(uri) => Some(uri@),
            None => match self.card_faces {
                Some(faces) => first_face_picture(faces@),
                None => None,
            },
        }
    }

    /// The colors by which the card is ranked.
    pub fn colors_of(&self) -> (out: Option<&Vec<Color>>)
        ensures
            match out {
                Some(colors) => self.color_signature() == Some(colors@),
                None => self.color_signature() is None,
            },
    {
        match &self.colors {
            Some(colors) => Some(colors),
            None => match &self.card_faces {
                Some(faces) => if faces.len() > 0 {
                    match &faces[0].colors {
                        Some(colors) => Some(colors),
                        None => None,
                    }
                } else {
                    None
                },
                None => None,
            },
        }
    }

    /// The name of the face that the card shows first.
    pub fn front_face_name(&self) -> (out: &str)
        ensures
            out@ == self.front_name(),
    {
        match &self.card_faces {
            Some(faces) => if faces.len() > 0 {
                faces[0].name.as_str()
            } else {
                self.name.as_str()
            },
            None => self.name.as_str(),
        }
    }

    /// The name under which the printings of the card are kept once fetched:
    /// its identifier as it is written.
    pub fn printings_key(&self) -> (out: String)
        ensures
            out@ == hyphenated(self.id),
    {
        id_text(self.id)
    }

    /// Whether the type line calls the card a land.
    pub fn is_land(&self) -> (out: bool)
        ensures
            out == self.land(),
    {
        match &self.type_line {
            Some(line) => contains_text(line.as_str(), "Land"),
            None => false,
        }
    }

    /// Where the picture to show for the card is found, if it has one.
    pub fn large_image(&self) -> (out: Option<&str>)
        ensures
            match out {
                Some(uri) => self.picture() == Some(uri@),
                None => self.picture() is None,
            },
    {
        match &self.image_large {
            Some(uri) => Some(uri.as_str()),
            None => match &self.card_faces {
                Some(faces) => face_picture(faces),
                None => None,
            },
        }
    }
}

/// Where the large picture of the first face that has one is found.
fn face_picture(faces: &Vec<CardFace>) -> (out: Option<&str>)
    ensures
        match out {
            Some(uri) => first_face_picture(faces@) == Some(uri@),
            None => first_face_picture(faces@) is None,
        },
{
    let mut i: usize = 0;
    assert(faces@.skip(0) == faces@);
    while i < faces.len()
        invariant
            i <= faces.len(),
            first_face_picture(faces@) == first_face_picture(faces@.skip(i as int)),
        decreases faces.len() - i,
    {
        assert(faces@.skip(i as int).drop_first() == faces@.skip(i + 1));
        match &faces[i].image_large {
            Some(uri) => {
                return Some(uri.as_str());
            },
            None => {},
        }
        i += 1;
    }
    None
}

/// The large picture of the first face that has one.
pub open spec fn first_face_picture(faces: Seq<CardFace>) -> Option<Seq<char>>
    decreases faces.len(),
{
    if faces.len() == 0 {
        None
    } else {
        match faces[0].image_large {
            Some(uri) => Some(uri@),
            None => first_face_picture(faces.drop_first()),
        }
    }
}

} // verus!
