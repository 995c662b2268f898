//! The cards that the user owns: for each name, the set codes of the copies.

use crate::card_name::{lookup_key, normalized, CName, CardName};
use crate::table::{loaded, named, Table};
use crate::text::same_text;
use vstd::prelude::*;

verus! {

/// The owned copies by card name. A card is filed under the key of its name:
/// its front face, in the accented spelling where it has one.
pub struct Collection(pub Table<Vec<String>>);

/// The place of the first `code` among `codes`; their number where there is none.
pub open spec fn first_place(codes: Seq<Seq<char>>, code: Seq<char>) -> int
    decreases codes.len(),
{
    if codes.len() == 0 || codes[0] == code {
        0
    } else {
        1 + first_place(codes.drop_first(), code)
    }
}

/// `codes` without the first `code` among them.
pub open spec fn without_first(codes: Seq<Seq<char>>, code: Seq<char>) -> Seq<Seq<char>> {
    let at = first_place(codes, code);
    if at < codes.len() {
        codes.remove(at)
    } else {
        codes
    }
}

/// `first_place` is the one place before which no `code` stands and at which
/// one does, or the number of codes.
pub proof fn lemma_first_place(codes: Seq<Seq<char>>, code: Seq<char>, at: int)
    requires
        0 <= at <= codes.len(),
        forall|i: int| 0 <= i < at ==> codes[i] != code,
        at < codes.len() ==> codes[at] == code,
    ensures
        first_place(codes, code) == at,
    decreases at,
{
    if at > 0 {
        let rest = codes.drop_first();
        assert forall|i: int| 0 <= i < at - 1 implies rest[i] != code by {
            assert(rest[i] == codes[i + 1]);
        }
        lemma_first_place(rest, code, at - 1);
    }
}

/// Where the first `code` stands among `codes`, if one does.
pub fn position(codes: &Vec<String>, code: &str) -> (out: Option<usize>)
    ensures
        match out {
            Some(at) => at < codes.len() && at == first_place(codes.deep_view(), code@)
                && codes.deep_view()[at as int] == code@,
            None => first_place(codes.deep_view(), code@) == codes.len(),
        },
{
    let mut i: usize = 0;
    while i < codes.len()
        invariant
            i <= codes.len(),
            forall|j: int| 0 <= j < i ==> codes.deep_view()[j] != code@,
        decreases codes.len() - i,
    {
        if same_text(codes[i].as_str(), code) {
            proof {
                lemma_first_place(codes.deep_view(), code@, i as int);
            }
            return Some(i);
        }
        i += 1;
    }
    proof {
        lemma_first_place(codes.deep_view(), code@, i as int);
    }
    None
}

/// The codes that `held` files under `name`; none where nothing is.
pub open spec fn filed_in(held: Map<Seq<char>, Seq<Seq<char>>>, name: Seq<char>) -> Seq<
    Seq<char>,
> {
    if held.contains_key(name) {
        held[name]
    } else {
        Seq::empty()
    }
}

/// What is held once one more copy of the card `name`, of the set `code`, is
/// filed: the copy stands last under the key of the name.
pub open spec fn with_copy(
    held: Map<Seq<char>, Seq<Seq<char>>>,
    name: Seq<char>,
    code: Seq<char>,
) -> Map<Seq<char>, Seq<Seq<char>>> {
    held.insert(lookup_key(name), filed_in(held, lookup_key(name)).push(code))
}

/// What is held once one copy of the card `name`, of the set `code`, is
/// struck: the first such copy under the key of the name is gone, and where
/// there is none nothing changes.
pub open spec fn without_copy(
    held: Map<Seq<char>, Seq<Seq<char>>>,
    name: Seq<char>,
    code: Seq<char>,
) -> Map<Seq<char>, Seq<Seq<char>>> {
    let key = lookup_key(name);
    if filed_in(held, key).contains(code) {
        held.insert(key, without_first(held[key], code))
    } else {
        held
    }
}

/// What `first_place` says of the codes: none before it is `code`, and where
/// it is a place, `code` stands there.
pub proof fn lemma_first_place_holds(codes: Seq<Seq<char>>, code: Seq<char>)
    ensures
        0 <= first_place(codes, code) <= codes.len(),
        forall|i: int| 0 <= i < first_place(codes, code) ==> codes[i] != code,
        first_place(codes, code) < codes.len() ==> codes[first_place(codes, code)] == code,
    decreases codes.len(),
{
    if codes.len() > 0 && codes[0] != code {
        let rest = codes.drop_first();
        lemma_first_place_holds(rest, code);
        assert forall|i: int| 0 <= i < first_place(codes, code) implies codes[i] != code by {
            if i > 0 {
                assert(rest[i - 1] == codes[i]);
            }
        }
        if first_place(codes, code) < codes.len() {
            assert(rest[first_place(rest, code)] == codes[first_place(codes, code)]);
        }
    }
}

/// A copy filed and struck again leaves the copies that were there.
pub proof fn lemma_pushed_and_struck(codes: Seq<Seq<char>>, code: Seq<char>)
    ensures
        codes.push(code).contains(code),
        without_first(codes.push(code), code).to_multiset() == codes.to_multiset(),
{
    broadcast use vstd::seq_lib::group_to_multiset_ensures;

    let more = codes.push(code);
    assert(more[codes.len() as int] == code);
    lemma_first_place_holds(more, code);
    let at = first_place(more, code);
    assert(at < more.len());
    vstd::seq_lib::to_multiset_remove(more, at);
    vstd::seq_lib::to_multiset_build(codes, code);
    assert(more.remove(at).to_multiset() =~= codes.to_multiset());
}

/// Filing a copy of a card and striking it again restores the collection:
/// under every name the same copies are held as before, however the card's
/// name was typed either time.
pub proof fn lemma_filed_then_struck(
    held: Map<Seq<char>, Seq<Seq<char>>>,
    name: Seq<char>,
    code: Seq<char>,
    other: Seq<char>,
)
    ensures
        filed_in(without_copy(with_copy(held, name, code), name, code), other).to_multiset()
            == filed_in(held, other).to_multiset(),
{
    let key = lookup_key(name);
    lemma_pushed_and_struck(filed_in(held, key), code);
    let more = with_copy(held, name, code);
    assert(filed_in(more, key) == filed_in(held, key).push(code));
    if other != key {
        assert(filed_in(without_copy(more, name, code), other) == filed_in(held, other));
    }
}

/// Striking a copy that is not held changes nothing.
pub proof fn lemma_nothing_to_strike(
    held: Map<Seq<char>, Seq<Seq<char>>>,
    name: Seq<char>,
    code: Seq<char>,
)
    requires
        !filed_in(held, lookup_key(name)).contains(code),
    ensures
        without_copy(held, name, code) == held,
{
}

impl Collection {
    /// The collection as a map from names to the codes owned.
    pub open spec fn view(self) -> Map<Seq<char>, Seq<Seq<char>>> {
        Map::new(
            |name: Seq<char>| self.0@.contains_key(name),
            |name: Seq<char>| self.0@[name].deep_view(),
        )
    }

    /// The codes filed under `name`; none where nothing is.
    pub open spec fn filed(self, name: Seq<char>) -> Seq<Seq<char>> {
        filed_in(self@, name)
    }

    /// The empty collection: no name has copies filed under it, and the table
    /// underneath holds no row to write out.
    pub fn new() -> (out: Self)
        ensures
            out@ == Map::<Seq<char>, Seq<Seq<char>>>::empty(),
            out.0@ == Map::<Seq<char>, Vec<String>>::empty(),
            out.0.rows().len() == 0,
    {
        let out = Collection(Table::new());
        assert(out@ =~= Map::<Seq<char>, Seq<Seq<char>>>::empty());
        out
    }

    /// The codes owned of the card `name`, looked up under the key of the
    /// name; none where nothing is filed under it.
    pub fn get(&self, name: &CName) -> (out: &[String])
        ensures
            out.deep_view() == self.filed(lookup_key(name@)),
    {
        let key = name.trimming_double_faced();
        match self.0.get(key.as_str()) {
            Some(codes) => {
                let held = codes.as_slice();
                assert(held.deep_view() =~= codes.deep_view());
                held
            },
            None => {
                let none: &[String] = &[];
                assert(none.deep_view() =~= Seq::<Seq<char>>::empty());
                none
            },
        }
    }

    /// How many copies of the card `name` are owned.
    pub fn count(&self, name: &CName) -> (out: usize)
        ensures
            out == self.filed(lookup_key(name@)).len(),
    {
        self.get(name).len()
    }
}

/// The collection that its file holds; the empty one where there is no file.
pub fn load(rows: Option<Vec<(String, Vec<String>)>>) -> (out: Collection)
    ensures
        out.0@ == match rows {
            Some(rows) => loaded(named(rows@)),
            None => Map::empty(),
        },
{
    match rows {
        Some(rows) => Collection(Table::from_rows(rows)),
        None => Collection(Table::new()),
    }
}

/// Files one more copy of `card`, of the set `new_version`, under the key of
/// the card's name.
pub fn add_to_collection(collection: &mut Collection, card: CardName, new_version: String)
    ensures
        final(collection)@ == with_copy(old(collection)@, card@, new_version@),
{
    let card = card.trimming_double_faced();
    let mut versions = match collection.0.remove(card.as_str()) {
        Some(versions) => versions,
        None => Vec::new(),
    };
    proof {
        assert(versions.deep_view() =~= old(collection).filed(card@));
    }
    let ghost before = versions.deep_view();
    versions.push(new_version);
    proof {
        assert(versions.deep_view() =~= before.push(new_version@));
    }
    collection.0.insert(card.to_text(), versions);
    proof {
        assert(collection@ =~= old(collection)@.insert(card@, before.push(new_version@)));
    }
}

/// Takes one copy of `card`, of the set `to_del`, out of the collection: the
/// first one filed under the key of the card's name. Says whether there was
/// one.
pub fn del_from_collection(collection: &mut Collection, card: CardName, to_del: &str) -> (changed:
    bool)
    ensures
        changed == old(collection).filed(lookup_key(card@)).contains(to_del@),
        final(collection)@ == without_copy(old(collection)@, card@, to_del@),
{
    let key = normalized(card.as_str());
    let at = match collection.0.get(key) {
        Some(versions) => {
            let at = position(versions, to_del);
            proof {
                let codes = versions.deep_view();
                match at {
                    Some(i) => {
                        assert(codes[i as int] == to_del@);
                    },
                    None => {
                        lemma_no_place(codes, to_del@);
                    },
                }
            }
            at
        },
        None => None,
    };
    match at {
        Some(i) => {
            let mut versions = match collection.0.remove(key) {
                Some(versions) => versions,
                None => Vec::new(),
            };
            let ghost before = versions.deep_view();
            versions.remove(i);
            proof {
                assert(versions.deep_view() =~= before.remove(i as int));
            }
            collection.0.insert(key.to_owned(), versions);
            proof {
                assert(collection@ =~= old(collection)@.insert(key@, before.remove(i as int)));
            }
            true
        },
        None => false,
    }
}

/// Where `first_place` finds nothing, the code is not there.
pub proof fn lemma_no_place(codes: Seq<Seq<char>>, code: Seq<char>)
    requires
        first_place(codes, code) == codes.len(),
    ensures
        !codes.contains(code),
    decreases codes.len(),
{
    if codes.len() > 0 {
        let rest = codes.drop_first();
        lemma_no_place(rest, code);
        assert forall|i: int| 0 <= i < codes.len() implies codes[i] != code by {
            if i > 0 {
                assert(rest[i - 1] == codes[i]);
                assert(rest.contains(codes[i]));
            }
        }
    }
}

} // verus!
