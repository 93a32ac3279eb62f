//! Hit-testing the Alt+Tab switcher's cards: which card a point is on, and
//! whether it is on the selected card's close button. The cards' placement
//! (scaled, slid into place) is computed in floating point outside; here
//! each card is the integer rectangle it was rounded to.

use vstd::prelude::*;

use crate::snap::fits;

verus! {

/// Close-button size on the selected card, logical px.
pub const CLOSE_BTN_SIZE: i32 = 30;

/// Close-button inset from the card's top-right corner, logical px.
pub const CLOSE_BTN_MARGIN: i32 = 8;

/// A laid-out card: the switcher entry it shows, its rectangle in logical
/// output coordinates, and whether it is the selected one.
#[derive(Clone, Copy, Debug, PartialEq, Eq, Structural)]
pub struct CardRect {
    pub entry_index: usize,
    pub x: i32,
    pub y: i32,
    pub w: i32,
    pub h: i32,
    pub selected: bool,
}

/// Whether the point lies in the `w × h` box at `(x, y)` (right and bottom
/// edges excluded).
pub open spec fn in_box(x: int, y: int, w: int, h: int, px: int, py: int) -> bool {
    x <= px < x + w && y <= py < y + h
}

/// The card's edges are `i32`.
pub open spec fn card_fits(c: CardRect) -> bool {
    fits(c.x + c.w) && fits(c.y + c.h) && fits(c.x + c.w - CLOSE_BTN_SIZE) && fits(
        c.x + c.w - CLOSE_BTN_SIZE - CLOSE_BTN_MARGIN,
    ) && fits(c.y + CLOSE_BTN_MARGIN) && fits(c.y + CLOSE_BTN_MARGIN + CLOSE_BTN_SIZE)
}

/// The top-left corner of the card's close button (its side is
/// [`CLOSE_BTN_SIZE`]).
pub open spec fn spec_close_rect(c: CardRect) -> (int, int) {
    (c.x + c.w - CLOSE_BTN_SIZE - CLOSE_BTN_MARGIN, c.y + CLOSE_BTN_MARGIN)
}

/// The close button of a card: its top-left corner and side, in the card's
/// top-right corner.
pub fn close_rect(c: CardRect) -> (r: (i32, i32, i32))
    requires
        card_fits(c),
    ensures
        r.0 == spec_close_rect(c).0,
        r.1 == spec_close_rect(c).1,
        r.2 == CLOSE_BTN_SIZE,
{
    (c.x + c.w - CLOSE_BTN_SIZE - CLOSE_BTN_MARGIN, c.y + CLOSE_BTN_MARGIN, CLOSE_BTN_SIZE)
}

/// The first of the first `n` cards holding the point.
pub open spec fn first_card_at(cards: Seq<CardRect>, px: i32, py: i32, n: int) -> Option<int>
    decreases n,
{
    if n <= 0 {
        None
    } else {
        match first_card_at(cards, px, py, n - 1) {
            Some(i) => Some(i),
            None => if in_box(cards[n - 1].x as int, cards[n - 1].y as int, cards[n - 1].w as int, cards[n - 1].h as int, px as int, py as int) {
                Some(n - 1)
            } else {
                None
            },
        }
    }
}

/// Whether the point is on the close button of card `c`, which must be the
/// selected one.
pub open spec fn on_close(c: CardRect, px: i32, py: i32) -> bool {
    c.selected && in_box(spec_close_rect(c).0, spec_close_rect(c).1, CLOSE_BTN_SIZE as int, CLOSE_BTN_SIZE as int, px as int, py as int)
}

/// The first of the first `n` cards whose close button holds the point.
pub open spec fn first_close_at(cards: Seq<CardRect>, px: i32, py: i32, n: int) -> Option<int>
    decreases n,
{
    if n <= 0 {
        None
    } else {
        match first_close_at(cards, px, py, n - 1) {
            Some(i) => Some(i),
            None => if on_close(cards[n - 1], px, py) {
                Some(n - 1)
            } else {
                None
            },
        }
    }
}

/// Every card's edges are `i32`.
pub open spec fn cards_fit(cards: Seq<CardRect>) -> bool {
    forall|i: int| 0 <= i < cards.len() ==> card_fits(#[trigger] cards[i])
}

proof fn lemma_first_card_stays(cards: Seq<CardRect>, px: i32, py: i32, n: int, m: int)
    requires
        0 <= n <= m,
        first_card_at(cards, px, py, n) is Some,
    ensures
        first_card_at(cards, px, py, m) == first_card_at(cards, px, py, n),
    decreases m - n,
{
    if m > n {
        lemma_first_card_stays(cards, px, py, n, m - 1);
    }
}

proof fn lemma_first_close_stays(cards: Seq<CardRect>, px: i32, py: i32, n: int, m: int)
    requires
        0 <= n <= m,
        first_close_at(cards, px, py, n) is Some,
    ensures
        first_close_at(cards, px, py, m) == first_close_at(cards, px, py, n),
    decreases m - n,
{
    if m > n {
        lemma_first_close_stays(cards, px, py, n, m - 1);
    }
}

/// The entry of the card under the point: the first card holding it;
/// none off every card.
pub fn hit_test(cards: &Vec<CardRect>, px: i32, py: i32) -> (r: Option<usize>)
    requires
        cards_fit(cards@),
    ensures
        r == match first_card_at(cards@, px, py, cards@.len() as int) {
            Some(i) => Some(cards@[i].entry_index),
            None => None::<usize>,
        },
{
    let mut i: usize = 0;
    while i < cards.len()
        invariant
            i <= cards@.len(),
            cards_fit(cards@),
            first_card_at(cards@, px, py, i as int) is None,
        decreases cards@.len() - i,
    {
        let c = cards[i];
        assert(card_fits(cards@[i as int]));
        if px >= c.x && px < c.x + c.w && py >= c.y && py < c.y + c.h {
            proof {
                lemma_first_card_stays(cards@, px, py, i + 1, cards@.len() as int);
            }
            return Some(c.entry_index);
        }
        i += 1;
    }
    None
}

/// The entry whose close button is under the point: only the selected card
/// has one; none elsewhere.
pub fn hit_test_close(cards: &Vec<CardRect>, px: i32, py: i32) -> (r: Option<usize>)
    requires
        cards_fit(cards@),
    ensures
        r == match first_close_at(cards@, px, py, cards@.len() as int) {
            Some(i) => Some(cards@[i].entry_index),
            None => None::<usize>,
        },
{
    let mut i: usize = 0;
    while i < cards.len()
        invariant
            i <= cards@.len(),
            cards_fit(cards@),
            first_close_at(cards@, px, py, i as int) is None,
        decreases cards@.len() - i,
    {
        let c = cards[i];
        assert(card_fits(cards@[i as int]));
        if c.selected {
            let (bx, by, sz) = close_rect(c);
            if px >= bx && px < bx + sz && py >= by && py < by + sz {
                proof {
                    lemma_first_close_stays(cards@, px, py, i + 1, cards@.len() as int);
                }
                return Some(c.entry_index);
            }
        }
        i += 1;
    }
    None
}

/// A click on a close button is a click on the selected card: whenever the
/// close test finds an entry, that card is the selected one.
pub proof fn lemma_close_only_on_selected(cards: Seq<CardRect>, px: i32, py: i32, n: int)
    requires
        0 <= n <= cards.len(),
    ensures
        first_close_at(cards, px, py, n) matches Some(i) ==> 0 <= i < n && cards[i].selected,
    decreases n,
{
    if n > 0 {
        lemma_close_only_on_selected(cards, px, py, n - 1);
    }
}

} // verus!
