//! Formats, and which one a user means by a word.

use fuzzy_matcher::skim::SkimMatcherV2;
use fuzzy_matcher::FuzzyMatcher;
use vstd::prelude::*;

verus! {

/// A format of play.
#[derive(Clone, Copy, Debug, PartialEq, Eq, Structural, Hash)]
pub enum Format {
    Standard,
    Modern,
    Legacy,
    Vintage,
    Commander,
    Pauper,
    Pioneer,
}

/// How well `pattern` matches `choice` by the skim algorithm in its default
/// setting; `None` where it does not match at all.
pub uninterp spec fn skim_score(choice: Seq<char>, pattern: Seq<char>) -> Option<i64>;

/// `SkimMatcherV2::default().fuzzy_match`: scores `pattern` against `choice`.
/// The contract claims that the score depends on the two texts alone, and that
/// the empty pattern matches everything with score 0, which is the first thing
/// the matcher tests.
#[verifier::external_body]
fn skim_match(choice: &str, pattern: &str) -> (out: Option<i64>)
    ensures
        out == skim_score(choice@, pattern@),
        pattern@.len() == 0 ==> out == Some(0i64),
{
    SkimMatcherV2::default().fuzzy_match(choice, pattern)
}

/// The place of the greatest score; of several that are greatest, the last.
/// `None` where nothing scored.
pub open spec fn last_best(scores: Seq<Option<i64>>) -> Option<int>
    decreases scores.len(),
{
    if scores.len() == 0 {
        None
    } else {
        let before = last_best(scores.drop_last());
        match (scores.last(), before) {
            (None, _) => before,
            (Some(_), None) => Some(scores.len() - 1),
            (Some(x), Some(j)) => if scores[j]->0 <= x {
                Some(scores.len() - 1)
            } else {
                before
            },
        }
    }
}

/// The scores of `pattern` against each of `choices`.
pub open spec fn match_scores(choices: Seq<Seq<char>>, pattern: Seq<char>) -> Seq<Option<i64>> {
    Seq::new(choices.len(), |i: int| skim_score(choices[i], pattern))
}

/// `last_best` finds a score that none exceeds and none behind it equals, and
/// finds nothing only where nothing scored.
pub proof fn lemma_last_best(scores: Seq<Option<i64>>)
    ensures
        match last_best(scores) {
            Some(i) => {
                &&& 0 <= i < scores.len()
                &&& scores[i] is Some
                &&& forall|j: int|
                    0 <= j < scores.len() && scores[j] is Some ==> scores[j]->0 <= scores[i]->0
                &&& forall|j: int|
                    i < j < scores.len() && scores[j] is Some ==> scores[j]->0 < scores[i]->0
            },
            None => forall|j: int| 0 <= j < scores.len() ==> scores[j] is None,
        },
    decreases scores.len(),
{
    if scores.len() > 0 {
        let front = scores.drop_last();
        lemma_last_best(front);
        assert forall|j: int| 0 <= j < front.len() implies front[j] == scores[j] by {}
    }
}

/// The place of the greatest score; of several that are greatest, the last.
pub fn pick_best(scores: &Vec<Option<i64>>) -> (out: Option<usize>)
    ensures
        match out {
            Some(i) => last_best(scores@) == Some(i as int),
            None => last_best(scores@) is None,
        },
{
    let mut best: Option<usize> = None;
    let mut i: usize = 0;
    proof {
        assert(scores@.take(0) =~= Seq::empty());
    }
    while i < scores.len()
        invariant
            i <= scores.len(),
            match best {
                Some(b) => last_best(scores@.take(i as int)) == Some(b as int) && b < i
                    && scores@[b as int] is Some,
                None => last_best(scores@.take(i as int)) is None,
            },
        decreases scores.len() - i,
    {
        proof {
            assert(scores@.take(i + 1).drop_last() =~= scores@.take(i as int));
        }
        match (scores[i], best) {
            (None, _) => {},
            (Some(_), None) => {
                best = Some(i);
            },
            (Some(x), Some(b)) => {
                let held = match scores[b] {
                    Some(y) => y,
                    None => x,
                };
                if held <= x {
                    best = Some(i);
                }
            },
        }
        i += 1;
    }
    proof {
        assert(scores@.take(i as int) =~= scores@);
    }
    best
}

/// Which of `choices` the text `pattern` matches best; of several that match
/// equally well, the last. `None` where it matches none.
pub fn best_match(choices: &Vec<String>, pattern: &str) -> (out: Option<usize>)
    ensures
        match out {
            Some(i) => last_best(match_scores(choices.deep_view(), pattern@)) == Some(i as int),
            None => last_best(match_scores(choices.deep_view(), pattern@)) is None,
        },
        pattern@.len() == 0 && choices.len() > 0 ==> out == Some((choices.len() - 1) as usize),
{
    let mut scores: Vec<Option<i64>> = Vec::new();
    let mut i: usize = 0;
    while i < choices.len()
        invariant
            i <= choices.len(),
            scores.len() == i,
            forall|j: int| 0 <= j < i ==> scores@[j] == skim_score(choices@[j]@, pattern@),
            pattern@.len() == 0 ==> forall|j: int| 0 <= j < i ==> scores@[j] == Some(0i64),
        decreases choices.len() - i,
    {
        scores.push(skim_match(choices[i].as_str(), pattern));
        i += 1;
    }
    proof {
        assert(scores@ =~= match_scores(choices.deep_view(), pattern@));
        lemma_last_best(scores@);
    }
    pick_best(&scores)
}

/// The names by which a format can be asked for, and the format of each.
pub open spec fn known_formats() -> Seq<(Seq<char>, Format)> {
    seq![("pauper"@, Format::Pauper), ("legacy"@, Format::Legacy), ("pioneer"@, Format::Pioneer)]
}

/// The format that `arg` means: the one whose name it matches best, the last
/// of them where several match equally well.
pub open spec fn format_meant(arg: Seq<char>) -> Option<Format> {
    let names = Seq::new(known_formats().len(), |i: int| known_formats()[i].0);
    match last_best(match_scores(names, arg)) {
        Some(i) => Some(known_formats()[i].1),
        None => None,
    }
}

/// The format that `arg` means, if it means one.
pub fn parse_format(arg: &str) -> (out: Option<Format>)
    ensures
        out == format_meant(arg@),
        arg@.len() == 0 ==> out == Some(Format::Pioneer),
{
    let mut names: Vec<String> = Vec::new();
    names.push("pauper".to_owned());
    names.push("legacy".to_owned());
    names.push("pioneer".to_owned());
    proof {
        let spec_names = Seq::new(known_formats().len(), |i: int| known_formats()[i].0);
        assert(names.deep_view() =~= spec_names);
        lemma_last_best(match_scores(spec_names, arg@));
    }
    match best_match(&names, arg) {
        Some(0) => Some(Format::Pauper),
        Some(1) => Some(Format::Legacy),
        Some(_) => Some(Format::Pioneer),
        None => None,
    }
}

} // verus!
