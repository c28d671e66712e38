//! The scores of the well-known layouts, for comparison.

use crate::layout::{colemak_keys, dvorak_keys, qwerty_keys, workman_keys, Keyboard};
use crate::score::Scorer;
use vstd::prelude::*;

verus! {

/// A layout's name and score, as contracts see them.
pub struct Named {
    pub name: Seq<char>,
    pub score: int,
}

/// A layout's name and score.
pub struct NamedScore {
    pub name: String,
    pub score: i64,
}

impl View for NamedScore {
    type V = Named;

    open spec fn view(&self) -> Named {
        Named { name: self.name@, score: self.score as int }
    }
}

/// The entries of a list, each by its view.
pub open spec fn list_view(list: Seq<NamedScore>) -> Seq<Named> {
    list.map_values(|entry: NamedScore| entry@)
}

/// No entry has a higher score than one behind it.
pub open spec fn ascending(list: Seq<Named>) -> bool {
    forall|i: int, j: int| 0 <= i < j < list.len() ==> (#[trigger] list[i]).score <= (
    #[trigger] list[j]).score
}

/// `list` with `item` put in behind the last entry whose score is not higher.
pub open spec fn inserted(list: Seq<Named>, item: Named) -> Seq<Named>
    decreases list.len(),
{
    if list.len() == 0 || list.last().score <= item.score {
        list.push(item)
    } else {
        inserted(list.drop_last(), item).push(list.last())
    }
}

/// The four well-known layouts with their scores under `scorer`, lowest
/// score first; layouts with one score stand in the order QWERTY, Dvorak,
/// Colemak, Workman.
pub open spec fn standard_ranking(scorer: Scorer) -> Seq<Named> {
    inserted(
        inserted(
            inserted(
                inserted(
                    Seq::empty(),
                    (Named { name: "qwerty"@, score: scorer.score_of(qwerty_keys()) }),
                ),
                (Named { name: "dvorak"@, score: scorer.score_of(dvorak_keys()) }),
            ),
            (Named { name: "colemak"@, score: scorer.score_of(colemak_keys()) }),
        ),
        (Named { name: "workman"@, score: scorer.score_of(workman_keys()) }),
    )
}

/// Putting an entry into an ascending list leaves it ascending, one entry
/// longer, and with nothing changed but the entry that came in.
pub proof fn lemma_inserted(list: Seq<Named>, item: Named)
    requires
        ascending(list),
    ensures
        ascending(inserted(list, item)),
        inserted(list, item).len() == list.len() + 1,
        inserted(list, item).to_multiset() == list.to_multiset().insert(item),
    decreases list.len(),
{
    broadcast use vstd::multiset::group_multiset_axioms;

    vstd::seq_lib::to_multiset_build(list, item);
    if !(list.len() == 0 || list.last().score <= item.score) {
        let front = list.drop_last();
        assert(ascending(front)) by {
            assert forall|i: int, j: int| 0 <= i < j < front.len() implies (#[trigger] front[i]).score
                <= (#[trigger] front[j]).score by {
                assert(front[i] == list[i]);
                assert(front[j] == list[j]);
            }
        }
        lemma_inserted(front, item);
        let placed = inserted(front, item);
        let whole = placed.push(list.last());
        vstd::seq_lib::to_multiset_build(placed, list.last());
        vstd::seq_lib::to_multiset_build(front, list.last());
        assert(front.push(list.last()) =~= list);
        assert(whole.to_multiset() =~= list.to_multiset().insert(item));
        assert forall|i: int, j: int| 0 <= i < j < whole.len() implies (#[trigger] whole[i]).score
            <= (#[trigger] whole[j]).score by {
            if j < placed.len() {
                assert(whole[i] == placed[i]);
                assert(whole[j] == placed[j]);
            } else {
                assert(whole[i] == placed[i]);
                vstd::seq_lib::to_multiset_contains(placed, placed[i]);
                assert(placed.contains(placed[i]));
                if placed[i] != item {
                    vstd::seq_lib::to_multiset_contains(front, placed[i]);
                    let k = choose|k: int| 0 <= k < front.len() && front[k] == placed[i];
                    assert(list[k] == front[k]);
                    assert(list[k].score <= list[list.len() - 1].score);
                }
            }
        }
    }
}

/// The ranking of the well-known layouts is ascending and has all four.
pub proof fn lemma_standard_ranking(scorer: Scorer)
    ensures
        ascending(standard_ranking(scorer)),
        standard_ranking(scorer).len() == 4,
{
    let q = Named { name: "qwerty"@, score: scorer.score_of(qwerty_keys()) };
    let d = Named { name: "dvorak"@, score: scorer.score_of(dvorak_keys()) };
    let c = Named { name: "colemak"@, score: scorer.score_of(colemak_keys()) };
    let w = Named { name: "workman"@, score: scorer.score_of(workman_keys()) };
    lemma_inserted(Seq::empty(), q);
    lemma_inserted(inserted(Seq::empty(), q), d);
    lemma_inserted(inserted(inserted(Seq::empty(), q), d), c);
    lemma_inserted(inserted(inserted(inserted(Seq::empty(), q), d), c), w);
}

/// Puts `item` into `list` behind the last entry whose score is not higher.
pub fn insert_by_score(list: &mut Vec<NamedScore>, item: NamedScore)
    ensures
        list_view(final(list)@) == inserted(list_view(old(list)@), item@),
    decreases old(list)@.len(),
{
    let ghost before = list_view(list@);
    match list.pop() {
        None => {
            list.push(item);
            assert(list_view(list@) =~= inserted(before, item@));
        },
        Some(last) => {
            assert(list_view(list@) =~= before.drop_last());
            assert(before.last() == last@);
            if last.score <= item.score {
                let ghost entry = item@;
                list.push(last);
                list.push(item);
                assert(list_view(list@) =~= before.push(entry));
            } else {
                let ghost entry = item@;
                insert_by_score(list, item);
                let ghost placed = list_view(list@);
                list.push(last);
                assert(list_view(list@) =~= placed.push(last@));
            }
        },
    }
}

/// Scores the four well-known layouts and lists them, lowest score first.
pub fn standard_scores(scorer: &Scorer) -> (list: Vec<NamedScore>)
    ensures
        list_view(list@) == standard_ranking(*scorer),
{
    let mut list: Vec<NamedScore> = Vec::new();
    assert(list_view(list@) =~= Seq::<Named>::empty());
    let qwerty = Keyboard::qwerty();
    let score = scorer.score_keyboard(&qwerty);
    insert_by_score(&mut list, NamedScore { name: String::from_str("qwerty"), score });
    let dvorak = Keyboard::dvorak();
    let score = scorer.score_keyboard(&dvorak);
    insert_by_score(&mut list, NamedScore { name: String::from_str("dvorak"), score });
    let colemak = Keyboard::colemak();
    let score = scorer.score_keyboard(&colemak);
    insert_by_score(&mut list, NamedScore { name: String::from_str("colemak"), score });
    let workman = Keyboard::workman();
    let score = scorer.score_keyboard(&workman);
    insert_by_score(&mut list, NamedScore { name: String::from_str("workman"), score });
    list
}

} // verus!
