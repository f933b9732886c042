use vstd::prelude::*;
use vstd::multiset::Multiset;

use crate::card::{Card, PlacedCard, Placement, Suit};
use crate::position::Position;
use rand::seq::SliceRandom;
use rand::SeedableRng;

verus! {

broadcast use
    vstd::seq_lib::group_to_multiset_ensures,
    vstd::multiset::group_multiset_axioms,
;

/// The outcome of a requested move.
///
/// `Executed` covers real transfers and the no-op cases (same position, or two
/// slots of one tableau pile); `Rejected` is an illegal but well-formed
/// request, with the board left unchanged; `Invalid` marks a request the
/// interaction layer must never make (an empty source, the stock as a
/// destination), also with the board unchanged.
#[derive(Clone, Copy, PartialEq, Eq, Structural, Debug)]
pub enum MoveOutcome {
    Executed,
    Rejected,
    Invalid,
}

/// The cards of a tableau pile, without their face-up flags.
pub open spec fn placed_cards(s: Seq<PlacedCard>) -> Seq<Card> {
    s.map_values(|pc: PlacedCard| pc.card)
}

/// A foundation holds one ascending same-suit run starting at the Ace:
/// the card at index `i` has rank `i`, and every card has the suit of the
/// bottom card.
pub open spec fn foundation_ok(s: Seq<Card>) -> bool {
    &&& forall|i: int| 0 <= i < s.len() ==> (#[trigger] s[i]).0 == i
    &&& forall|i: int| 0 <= i < s.len() ==> (#[trigger] s[i]).1 == s[0].1
}

/// A tableau pile holds a face-down prefix followed by a face-up suffix, and
/// within the face-up suffix consecutive cards descend by one rank and
/// alternate color from bottom to top.
pub open spec fn tableau_ok(s: Seq<PlacedCard>) -> bool {
    &&& forall|i: int, j: int|
        0 <= i <= j < s.len() && (#[trigger] s[i]).visible ==> (#[trigger] s[j]).visible
    &&& forall|i: int|
        0 < i < s.len() && (#[trigger] s[i - 1]).visible ==> s[i].card.placeable_spec(
            s[i - 1].card,
            Placement::GamePile,
        )
}

/// The multiset of cards held by a sequence of foundation piles.
pub open spec fn seqs_ms(ss: Seq<Seq<Card>>) -> Multiset<Card>
    decreases ss.len(),
{
    if ss.len() == 0 {
        Multiset::empty()
    } else {
        seqs_ms(ss.drop_last()).add(ss.last().to_multiset())
    }
}

/// The multiset of cards held by a sequence of tableau piles.
pub open spec fn placed_seqs_ms(ss: Seq<Seq<PlacedCard>>) -> Multiset<Card>
    decreases ss.len(),
{
    if ss.len() == 0 {
        Multiset::empty()
    } else {
        placed_seqs_ms(ss.drop_last()).add(placed_cards(ss.last()).to_multiset())
    }
}

/// The mathematical model of a board: the stock, the waste, the four
/// foundations and the seven tableaus, each as a sequence with the top card
/// last.
#[verifier::ext_equal]
pub struct BoardView {
    pub deck: Seq<Card>,
    pub pick: Seq<Card>,
    pub ends: Seq<Seq<Card>>,
    pub games: Seq<Seq<PlacedCard>>,
}

impl BoardView {
    /// The pile counts are fixed: four foundations, seven tableaus.
    pub open spec fn shape(self) -> bool {
        self.ends.len() == 4 && self.games.len() == 7
    }

    /// The board invariant: the shape, every foundation an ascending
    /// same-suit run from the Ace, and every tableau a face-down prefix
    /// followed by an alternating descending face-up run.
    pub open spec fn wf(self) -> bool {
        &&& self.shape()
        &&& forall|n: int| 0 <= n < 4 ==> foundation_ok(#[trigger] self.ends[n])
        &&& forall|p: int| 0 <= p < 7 ==> tableau_ok(#[trigger] self.games[p])
    }

    /// Every card on the board, as a multiset.
    pub open spec fn cards(self) -> Multiset<Card> {
        self.deck.to_multiset().add(self.pick.to_multiset()).add(seqs_ms(self.ends)).add(
            placed_seqs_ms(self.games),
        )
    }

    /// The card a position names: the top of the stock, waste or foundation,
    /// or the card at the given depth of a tableau; nothing when the pile is
    /// empty or the depth out of range.
    pub open spec fn top_at(self, pos: Position) -> Option<Card> {
        match pos {
            Position::Deck => if self.deck.len() > 0 {
                Some(self.deck.last())
            } else {
                None
            },
            Position::Pick => if self.pick.len() > 0 {
                Some(self.pick.last())
            } else {
                None
            },
            Position::EndPile(n) => if self.ends[n as int].len() > 0 {
                Some(self.ends[n as int].last())
            } else {
                None
            },
            Position::GamePile(p, d) => {
                let s = self.games[p as int];
                if (d as int) < s.len() {
                    Some(s[s.len() - 1 - d].card)
                } else {
                    None
                }
            },
        }
    }

    /// The board with the top card of the addressed pile removed; tableau
    /// depth plays no part.
    pub open spec fn pop_at(self, pos: Position) -> BoardView {
        match pos {
            Position::Deck => BoardView { deck: self.deck.drop_last(), ..self },
            Position::Pick => BoardView { pick: self.pick.drop_last(), ..self },
            Position::EndPile(n) => BoardView {
                ends: self.ends.update(n as int, self.ends[n as int].drop_last()),
                ..self
            },
            Position::GamePile(p, _) => BoardView {
                games: self.games.update(p as int, self.games[p as int].drop_last()),
                ..self
            },
        }
    }

    /// The board with `c` appended to foundation `n`.
    pub open spec fn push_end(self, n: int, c: Card) -> BoardView {
        BoardView { ends: self.ends.update(n, self.ends[n].push(c)), ..self }
    }

    /// The board with `c` appended face-up to tableau `q`.
    pub open spec fn push_game(self, q: int, c: Card) -> BoardView {
        BoardView {
            games: self.games.update(
                q,
                self.games[q].push(PlacedCard { card: c, visible: true }),
            ),
            ..self
        }
    }
}

/// A solitaire board: the stock (`deck`), the waste (`pick`), the four
/// foundations (`end_piles`) and the seven tableaus (`game_piles`), each a
/// vector with the top card last.
pub struct Game {
    pub deck: Vec<Card>,
    pub pick: Vec<Card>,
    pub end_piles: Vec<Vec<Card>>,
    pub game_piles: Vec<Vec<PlacedCard>>,
}

/// The foundation vectors as a sequence of sequences.
pub open spec fn ends_view(vs: Seq<Vec<Card>>) -> Seq<Seq<Card>> {
    vs.map_values(|v: Vec<Card>| v@)
}

/// The tableau vectors as a sequence of sequences.
pub open spec fn piles_view(vs: Seq<Vec<PlacedCard>>) -> Seq<Seq<PlacedCard>> {
    vs.map_values(|v: Vec<PlacedCard>| v@)
}

impl View for Game {
    type V = BoardView;

    open spec fn view(&self) -> BoardView {
        BoardView {
            deck: self.deck@,
            pick: self.pick@,
            ends: ends_view(self.end_piles@),
            games: piles_view(self.game_piles@),
        }
    }
}

/// Whether a move rooted at `pos` would carry more than one card: only a
/// tableau slot of nonzero depth does.
pub open spec fn moves_multiple(pos: Position) -> bool {
    match pos {
        Position::GamePile(_, d) => d > 0,
        _ => false,
    }
}

impl Game {
    /// The board invariant, on the model.
    pub open spec fn wf(self) -> bool {
        self@.wf()
    }

    pub fn will_move_multiple_cards(&self, pos: &Position) -> (r: bool)
        ensures
            r == moves_multiple(*pos),
    {
        match pos {
            Position::Deck | Position::Pick | Position::EndPile(_) => false,
            Position::GamePile(_, idx) => *idx > 0,
        }
    }

    /// A borrow of the card a position names, or nothing when the pile is
    /// empty or the tableau depth out of range.
    pub fn card_at(&self, pos: &Position) -> (r: Option<&Card>)
        requires
            self@.shape(),
            pos.is_valid(),
        ensures
            (match r {
                Some(c) => self@.top_at(*pos) == Some(*c),
                None => self@.top_at(*pos) == None::<Card>,
            }),
    {
        match pos {
            Position::Deck => self.deck.as_slice().last(),
            Position::Pick => self.pick.as_slice().last(),
            Position::EndPile(n) => self.end_piles[*n as usize].as_slice().last(),
            Position::GamePile(p, d) => {
                let pile = &self.game_piles[*p as usize];
                if (*d as usize) < pile.len() {
                    Some(&pile[pile.len() - 1 - (*d as usize)].card)
                } else {
                    None
                }
            },
        }
    }

    /// Remove and return the top card of the addressed pile. A tableau may
    /// only be popped at depth 0.
    pub fn pop_card_at(&mut self, pos: &Position) -> (r: Option<Card>)
        requires
            old(self)@.shape(),
            pos.is_valid(),
            (match *pos {
                Position::GamePile(_, d) => d == 0,
                _ => true,
            }),
        ensures
            r == old(self)@.top_at(*pos),
            r is Some ==> final(self)@ == old(self)@.pop_at(*pos),
            r is None ==> final(self)@ == old(self)@,
            final(self)@.shape(),
    {
        match pos {
            Position::Deck => {
                let r = self.deck.pop();
                proof {
                    assert(self@ =~= if r is Some {
                        old(self)@.pop_at(*pos)
                    } else {
                        old(self)@
                    });
                }
                r
            },
            Position::Pick => {
                let r = self.pick.pop();
                proof {
                    assert(self@ =~= if r is Some {
                        old(self)@.pop_at(*pos)
                    } else {
                        old(self)@
                    });
                }
                r
            },
            Position::EndPile(n) => {
                let pile = &mut self.end_piles[*n as usize];
                let r = pile.pop();
                proof {
                    assert(self@.ends =~= if r is Some {
                        old(self)@.pop_at(*pos).ends
                    } else {
                        old(self)@.ends
                    });
                    assert(self@ =~= if r is Some {
                        old(self)@.pop_at(*pos)
                    } else {
                        old(self)@
                    });
                }
                r
            },
            Position::GamePile(p, _) => {
                let pile = &mut self.game_piles[*p as usize];
                let popped = pile.pop();
                proof {
                    assert(self@.games =~= if popped is Some {
                        old(self)@.pop_at(*pos).games
                    } else {
                        old(self)@.games
                    });
                    assert(self@ =~= if popped is Some {
                        old(self)@.pop_at(*pos)
                    } else {
                        old(self)@
                    });
                }
                match popped {
                    Some(pc) => Some(pc.card),
                    None => None,
                }
            },
        }
    }

    /// Append a card to a foundation, or face-up to a tableau at depth 0.
    /// The stock and the waste are never direct targets.
    pub fn place_card_at(&mut self, pos: &Position, card: Card)
        requires
            old(self)@.shape(),
            pos.is_valid(),
            (match *pos {
                Position::EndPile(_) => true,
                Position::GamePile(_, d) => d == 0,
                _ => false,
            }),
        ensures
            final(self)@ == (match *pos {
                Position::EndPile(n) => old(self)@.push_end(n as int, card),
                Position::GamePile(p, _) => old(self)@.push_game(p as int, card),
                _ => old(self)@,
            }),
            final(self)@.shape(),
    {
        match pos {
            Position::Deck | Position::Pick => {
                proof {
                    assert(false);
                }
            },
            Position::EndPile(n) => {
                let pile = &mut self.end_piles[*n as usize];
                pile.push(card);
                proof {
                    assert(self@.ends =~= old(self)@.push_end(*n as int, card).ends);
                    assert(self@ =~= old(self)@.push_end(*n as int, card));
                }
            },
            Position::GamePile(p, _) => {
                let pile = &mut self.game_piles[*p as usize];
                pile.push(PlacedCard { card, visible: true });
                proof {
                    assert(self@.games =~= old(self)@.push_game(*p as int, card).games);
                    assert(self@ =~= old(self)@.push_game(*p as int, card));
                }
            },
        }
    }

    /// The screen cell a position is drawn at: the stock and waste on the top
    /// row, the foundations to their right, and each tableau in a column,
    /// deeper cards higher up.
    pub fn as_screen_coords(&self, pos: &Position) -> (r: (u16, u16))
        requires
            self@.shape(),
            pos.is_valid(),
            (match *pos {
                Position::GamePile(p, d) => {
                    let s = self@.games[p as int];
                    s.len() <= 52 && (s.len() > 0 ==> (d as int) < s.len())
                },
                _ => true,
            }),
        ensures
            r.0 == self@.screen_coords(*pos).0,
            r.1 == self@.screen_coords(*pos).1,
    {
        match pos {
            Position::Deck => (1, 1),
            Position::Pick => (7, 1),
            Position::EndPile(n) => (1 + (*n as u16 + 3) * 6, 1),
            Position::GamePile(row, col) => {
                let pile = &self.game_piles[*row as usize];
                if pile.len() == 0 {
                    (1 + (*row as u16) * 6, 3)
                } else {
                    (1 + (*row as u16) * 6, 2 + (pile.len() as u16) - (*col as u16))
                }
            },
        }
    }

    /// Draw or recycle: with a nonempty stock, its top card moves to the
    /// waste; with an empty stock, the whole waste is drained back, so that
    /// the new stock reads as the waste reversed and the oldest-drawn card is
    /// on top again.
    pub fn activate_stock(&mut self)
        requires
            old(self)@.shape(),
        ensures
            final(self)@.ends == old(self)@.ends,
            final(self)@.games == old(self)@.games,
            old(self)@.deck.len() > 0 ==> final(self)@.deck == old(self)@.deck.drop_last()
                && final(self)@.pick == old(self)@.pick.push(old(self)@.deck.last()),
            old(self)@.deck.len() == 0 ==> final(self)@.deck == old(self)@.pick.reverse()
                && final(self)@.pick.len() == 0,
            final(self)@ == old(self)@.stock_cycled(),
            final(self)@.cards() == old(self)@.cards(),
            final(self)@.shape(),
            old(self)@.wf() ==> final(self)@.wf(),
    {
        let popped = self.deck.pop();
        match popped {
            Some(card) => {
                self.pick.push(card);
                proof {
                    lemma_drop_last_to_multiset(old(self)@.deck);
                    lemma_ms_transfer(old(self)@.deck.to_multiset(), old(self)@.pick.to_multiset(), card);
                    assert(self@.cards() == old(self)@.cards());
                    assert(self@ =~= old(self)@.stock_cycled());
                }
            },
            None => {
                let ghost pick0 = self.pick@;
                proof {
                    assert(self.pick@ =~= pick0.take(self.pick@.len() as int));
                    assert(self.deck@ =~= pick0.skip(self.pick@.len() as int).reverse());
                }
                while self.pick.len() > 0
                    invariant
                        self@.ends == old(self)@.ends,
                        self@.games == old(self)@.games,
                        self.pick@.len() <= pick0.len(),
                        self.pick@ == pick0.take(self.pick@.len() as int),
                        self.deck@ == pick0.skip(self.pick@.len() as int).reverse(),
                    decreases self.pick.len(),
                {
                    let ghost k = self.pick@.len() as int;
                    let drawn = self.pick.pop();
                    match drawn {
                        Some(c) => {
                            self.deck.push(c);
                            proof {
                                assert(self.pick@ =~= pick0.take(k - 1));
                                assert(self.deck@ =~= pick0.skip(k - 1).reverse());
                            }
                        },
                        None => {
                            proof {
                                assert(false);
                            }
                        },
                    }
                }
                proof {
                    assert(self.deck@ =~= pick0.reverse());
                    assert(self.pick@ =~= Seq::<Card>::empty());
                    pick0.lemma_reverse_to_multiset();
                    assert(Seq::<Card>::empty().to_multiset() =~= Multiset::<Card>::empty());
                    assert(old(self)@.deck.to_multiset() =~= Multiset::<Card>::empty());
                    assert(self@.cards() =~= old(self)@.cards());
                    assert(self@ =~= old(self)@.stock_cycled());
                }
            },
        }
    }

    /// A freshly dealt game: the 52-card deck is shuffled, tableau `p` is
    /// dealt `p + 1` cards with only the top one face-up, and the remaining
    /// 24 cards form the stock. The waste and the foundations start empty.
    pub fn new() -> (g: Game)
        ensures
            g@.wf(),
            g@.cards() == standard_deck().to_multiset(),
            g@.deck.len() == 24,
            g@.pick.len() == 0,
            forall|n: int| 0 <= n < 4 ==> (#[trigger] g@.ends[n]).len() == 0,
            forall|p: int| 0 <= p < 7 ==> (#[trigger] g@.games[p]).len() == p + 1,
            forall|p: int, i: int|
                0 <= p < 7 && 0 <= i <= p ==> ((#[trigger] g@.games[p][i]).visible <==> i == p),
    {
        let mut deck = build_deck();
        let mut rng = fresh_rng();
        shuffle_cards(&mut deck, &mut rng);

        let mut game_piles: Vec<Vec<PlacedCard>> = Vec::new();
        let mut p: usize = 0;
        while p < 7
            invariant
                p <= 7,
                game_piles@.len() == p,
                deck@.len() == 52 - tri(p as int),
                deck@.to_multiset().add(placed_seqs_ms(piles_view(game_piles@)))
                    == standard_deck().to_multiset(),
                forall|q: int| 0 <= q < p ==> (#[trigger] game_piles@[q]@).len() == q + 1,
                forall|q: int, i: int|
                    0 <= q < p && 0 <= i <= q ==> ((#[trigger] game_piles@[q]@[i]).visible <==> i
                        == q),
            decreases 7 - p,
        {
            let ghost deck_start = deck@;
            let ghost piles_before = piles_view(game_piles@);
            proof {
                lemma_tri_mono(p as int + 1, 7);
                reveal_with_fuel(tri, 9);
                assert(tri(7) == 28);
            }
            let mut pile: Vec<PlacedCard> = Vec::new();
            let mut j: usize = 0;
            while j < p + 1
                invariant
                    j <= p + 1,
                    p < 7,
                    pile@.len() == j,
                    deck@.len() == deck_start.len() - j,
                    deck_start.len() == 52 - tri(p as int),
                    tri(p as int + 1) <= 28,
                    tri(p as int + 1) == tri(p as int) + p + 1,
                    deck@.to_multiset().add(placed_cards(pile@).to_multiset())
                        == deck_start.to_multiset(),
                    forall|i: int| 0 <= i < j ==> ((#[trigger] pile@[i]).visible <==> i == p),
                decreases p + 1 - j,
            {
                proof {
                    assert(deck@.len() > 0);
                }
                let ghost deck_prev = deck@;
                let ghost pile_prev = pile@;
                let c_opt = deck.pop();
                match c_opt {
                    Some(c) => {
                        pile.push(PlacedCard { card: c, visible: j == p });
                        proof {
                            lemma_drop_last_to_multiset(deck_prev);
                            lemma_placed_cards_push(
                                pile_prev,
                                PlacedCard { card: c, visible: j == p },
                            );
                            assert(deck_prev.contains(c));
                            lemma_ms_transfer(
                                deck_prev.to_multiset(),
                                placed_cards(pile_prev).to_multiset(),
                                c,
                            );
                            assert(deck@.to_multiset().add(placed_cards(pile@).to_multiset())
                                =~= deck_start.to_multiset());
                        }
                    },
                    None => {
                        proof {
                            assert(false);
                        }
                    },
                }
                j += 1;
            }
            let ghost pile_done = pile@;
            game_piles.push(pile);
            proof {
                assert(piles_view(game_piles@) =~= piles_before.push(pile_done));
                assert(piles_before.push(pile_done).drop_last() =~= piles_before);
                assert(placed_seqs_ms(piles_before.push(pile_done)) == placed_seqs_ms(
                    piles_before,
                ).add(placed_cards(pile_done).to_multiset()));
                assert forall|c: Card|
                    deck@.to_multiset().add(placed_seqs_ms(piles_view(game_piles@))).count(c)
                        == standard_deck().to_multiset().count(c) by {
                    assert(deck_start.to_multiset().add(placed_seqs_ms(piles_before)).count(c)
                        == standard_deck().to_multiset().count(c));
                    assert(deck@.to_multiset().add(
                        placed_cards(pile_done).to_multiset(),
                    ).count(c) == deck_start.to_multiset().count(c));
                }
                assert(deck@.to_multiset().add(placed_seqs_ms(piles_view(game_piles@)))
                    =~= standard_deck().to_multiset());
            }
            p += 1;
        }
        proof {
            reveal_with_fuel(tri, 9);
            assert(tri(7) == 28);
        }

        let mut end_piles: Vec<Vec<Card>> = Vec::new();
        end_piles.push(Vec::new());
        end_piles.push(Vec::new());
        end_piles.push(Vec::new());
        end_piles.push(Vec::new());
        let pick: Vec<Card> = Vec::new();

        let g = Game { deck, pick, end_piles, game_piles };
        proof {
            assert(forall|i: int|
                0 <= i < ends_view(g.end_piles@).len() ==> (#[trigger] ends_view(
                    g.end_piles@,
                )[i]).len() == 0);
            lemma_seqs_ms_all_empty(ends_view(g.end_piles@));
            assert(g.pick@.to_multiset() =~= Multiset::<Card>::empty());
            assert forall|c: Card| g@.cards().count(c) == standard_deck().to_multiset().count(
                c,
            ) by {
                assert(g@.deck.to_multiset().add(placed_seqs_ms(g@.games)).count(c)
                    == standard_deck().to_multiset().count(c));
            }
            assert(g@.cards() =~= standard_deck().to_multiset());
            assert forall|q: int| 0 <= q < 7 implies tableau_ok(#[trigger] g@.games[q]) by {
                let s = g@.games[q];
                assert(s == g.game_piles@[q]@);
                assert forall|i: int, j: int|
                    0 <= i <= j < s.len() && (#[trigger] s[i]).visible implies (
                #[trigger] s[j]).visible by {
                    assert(i == q && j == q);
                }
                assert forall|i: int|
                    0 < i < s.len() && (#[trigger] s[i - 1]).visible implies (s[i].card.placeable_spec(
                    s[i - 1].card,
                    Placement::GamePile,
                )) by {
                    assert(i - 1 == q);
                    assert(false);
                }
            }
            assert(g@.wf());
        }
        g
    }

    /// Turn the top card of tableau `p` face-up, if the pile has one.
    fn expose_top_pile(&mut self, p: usize)
        requires
            old(self)@.shape(),
            p < 7,
        ensures
            final(self)@ == old(self)@.expose_top(p as int),
            final(self)@.shape(),
    {
        let pile = &mut self.game_piles[p];
        let n = pile.len();
        if n > 0 {
            let top = &mut pile[n - 1];
            let cur = *top;
            *top = PlacedCard { card: cur.card, visible: true };
        }
        proof {
            assert(self@.games =~= old(self)@.expose_top(p as int).games);
            assert(self@ =~= old(self)@.expose_top(p as int));
        }
    }

    /// Carry one card, face-up, from slot `cut` of tableau `pu` onto the top
    /// of tableau `qu`.
    fn carry_one(&mut self, pu: usize, qu: usize, cut: usize)
        requires
            old(self)@.shape(),
            pu < 7,
            qu < 7,
            pu != qu,
            cut < old(self)@.games[pu as int].len(),
        ensures
            final(self)@.deck == old(self)@.deck,
            final(self)@.pick == old(self)@.pick,
            final(self)@.ends == old(self)@.ends,
            final(self)@.games == old(self)@.games.update(
                pu as int,
                old(self)@.games[pu as int].remove(cut as int),
            ).update(
                qu as int,
                old(self)@.games[qu as int].push(
                    PlacedCard { card: old(self)@.games[pu as int][cut as int].card, visible: true },
                ),
            ),
            final(self)@.shape(),
    {
        let srcp = &mut self.game_piles[pu];
        let pc = srcp.remove(cut);
        let dstp = &mut self.game_piles[qu];
        dstp.push(PlacedCard { card: pc.card, visible: true });
        proof {
            assert(self@.games =~= old(self)@.games.update(
                pu as int,
                old(self)@.games[pu as int].remove(cut as int),
            ).update(
                qu as int,
                old(self)@.games[qu as int].push(
                    PlacedCard { card: old(self)@.games[pu as int][cut as int].card, visible: true },
                ),
            ));
        }
    }

    /// The move engine: validate the request and, when it is legal, transfer
    /// the run rooted at `from` onto `to`, updating face-up flags. The
    /// outcome follows `move_outcome`, the board follows `move_result`; a
    /// request that is not executed leaves the board untouched, and every
    /// request preserves the board invariant and the multiset of cards.
    pub fn move_cards(&mut self, from: &Position, to: &Position) -> (r: MoveOutcome)
        requires
            old(self)@.wf(),
            from.is_valid(),
            to.is_valid(),
        ensures
            r == old(self)@.move_outcome(*from, *to),
            final(self)@ == old(self)@.move_result(*from, *to),
            final(self)@.wf(),
            final(self)@.cards() == old(self)@.cards(),
            r != MoveOutcome::Executed ==> final(self)@ == old(self)@,
    {
        if from == to {
            return MoveOutcome::Executed;
        }
        let same_tableau = match (*from, *to) {
            (Position::GamePile(a, _), Position::GamePile(b, _)) => a == b,
            _ => false,
        };
        if same_tableau {
            return MoveOutcome::Executed;
        }

        let card: Card = match self.card_at(from) {
            Some(c) => *c,
            None => {
                return MoveOutcome::Invalid;
            },
        };

        match from {
            Position::GamePile(p, d) => {
                let pile = &self.game_piles[*p as usize];
                if !pile[pile.len() - 1 - (*d as usize)].visible {
                    return MoveOutcome::Invalid;
                }
            },
            _ => {},
        }

        match to {
            Position::Deck => MoveOutcome::Invalid,
            Position::Pick => MoveOutcome::Rejected,
            Position::EndPile(n) => {
                if self.will_move_multiple_cards(from) {
                    return MoveOutcome::Rejected;
                }
                let dest_len = self.end_piles[*n as usize].len();
                if dest_len == 0 {
                    if card.0 != 0 {
                        return MoveOutcome::Rejected;
                    }
                } else {
                    let top = self.end_piles[*n as usize][dest_len - 1];
                    if !card.placeable_on(&top, Placement::EndPile) {
                        return MoveOutcome::Rejected;
                    }
                }
                let _popped = self.pop_card_at(from);
                self.place_card_at(to, card);
                proof {
                    assert(old(self)@.move_outcome(*from, *to) == MoveOutcome::Executed);
                    old(self)@.lemma_cards_pop_at(*from);
                    old(self)@.pop_at(*from).lemma_cards_push_end(*n as int, card);
                }
                match from {
                    Position::GamePile(p, _) => {
                        self.expose_top_pile(*p as usize);
                        proof {
                            old(self)@.pop_at(*from).push_end(*n as int, card).lemma_cards_expose(
                                *p as int,
                            );
                        }
                    },
                    _ => {},
                }
                proof {
                    let b0 = old(self)@;
                    let b1 = b0.pop_at(*from);
                    assert(self@ == b0.move_result(*from, *to));
                    assert forall|m: int| 0 <= m < 4 implies foundation_ok(
                        #[trigger] self@.ends[m],
                    ) by {
                        if m == *n as int {
                            assert(b1.ends[m] == b0.ends[m]);
                            lemma_foundation_push(b0.ends[m], card);
                            assert(self@.ends[m] == b0.ends[m].push(card));
                        } else {
                            match *from {
                                Position::EndPile(mm) => {
                                    if mm as int == m {
                                        let s = b0.ends[m];
                                        lemma_foundation_take(s, s.len() - 1);
                                        assert(s.drop_last() =~= s.take(s.len() - 1));
                                        assert(self@.ends[m] == s.drop_last());
                                    } else {
                                        assert(self@.ends[m] == b0.ends[m]);
                                    }
                                },
                                _ => {
                                    assert(self@.ends[m] == b0.ends[m]);
                                },
                            }
                        }
                    }
                    assert forall|t: int| 0 <= t < 7 implies tableau_ok(
                        #[trigger] self@.games[t],
                    ) by {
                        match *from {
                            Position::GamePile(pp, _) => {
                                if pp as int == t {
                                    let s = b0.games[t];
                                    lemma_tableau_take(s, s.len() - 1);
                                    assert(s.drop_last() =~= s.take(s.len() - 1));
                                    lemma_tableau_expose(s.drop_last());
                                    assert(self@.games[t] == expose_seq(s.drop_last()));
                                } else {
                                    assert(self@.games[t] == b0.games[t]);
                                }
                            },
                            _ => {
                                assert(self@.games[t] == b0.games[t]);
                            },
                        }
                    }
                    assert(self@.wf());
                }
                MoveOutcome::Executed
            },
            Position::GamePile(q, _) => {
                let dest_len = self.game_piles[*q as usize].len();
                if dest_len > 0 {
                    let top = self.game_piles[*q as usize][dest_len - 1].card;
                    if !card.placeable_on(&top, Placement::GamePile) {
                        return MoveOutcome::Rejected;
                    }
                } else {
                    if card.0 != 12 {
                        return MoveOutcome::Rejected;
                    }
                }
                match from {
                    Position::Deck => MoveOutcome::Invalid,
                    Position::Pick | Position::EndPile(_) => {
                        let _popped = self.pop_card_at(from);
                        self.place_card_at(&Position::GamePile(*q, 0), card);
                        proof {
                            let b0 = old(self)@;
                            let b1 = b0.pop_at(*from);
                            assert(b0.move_outcome(*from, *to) == MoveOutcome::Executed);
                            b0.lemma_cards_pop_at(*from);
                            b1.lemma_cards_push_game(*q as int, card);
                            assert(self@ == b0.move_result(*from, *to));
                            assert forall|m: int| 0 <= m < 4 implies foundation_ok(
                                #[trigger] self@.ends[m],
                            ) by {
                                match *from {
                                    Position::EndPile(mm) => {
                                        if mm as int == m {
                                            let s = b0.ends[m];
                                            lemma_foundation_take(s, s.len() - 1);
                                            assert(s.drop_last() =~= s.take(s.len() - 1));
                                            assert(self@.ends[m] == s.drop_last());
                                        } else {
                                            assert(self@.ends[m] == b0.ends[m]);
                                        }
                                    },
                                    _ => {
                                        assert(self@.ends[m] == b0.ends[m]);
                                    },
                                }
                            }
                            assert forall|t: int| 0 <= t < 7 implies tableau_ok(
                                #[trigger] self@.games[t],
                            ) by {
                                if t == *q as int {
                                    let s = b0.games[t];
                                    lemma_tableau_push(
                                        s,
                                        PlacedCard { card, visible: true },
                                    );
                                    assert(self@.games[t] == s.push(
                                        PlacedCard { card, visible: true },
                                    ));
                                } else {
                                    assert(self@.games[t] == b0.games[t]);
                                }
                            }
                            assert(self@.wf());
                        }
                        MoveOutcome::Executed
                    },
                    Position::GamePile(p, d) => {
                        let pu = *p as usize;
                        let qu = *q as usize;
                        let du = *d as usize;
                        let ghost b0 = old(self)@;
                        let ghost src0 = b0.games[pu as int];
                        let ghost dest0 = b0.games[qu as int];
                        let ghost cut = src0.len() - 1 - (du as int);
                        let ghost run0 = src0.subrange(cut, src0.len() as int);
                        let ghost arrived = run0.map_values(
                            |pc: PlacedCard| PlacedCard { card: pc.card, visible: true },
                        );
                        proof {
                            assert(b0.move_outcome(*from, *to) == MoveOutcome::Executed);
                            assert(tableau_ok(src0));
                            assert(src0[cut].visible);
                            assert forall|i: int|
                                cut <= i < src0.len() implies (#[trigger] src0[i]).visible by {
                                assert(src0[cut].visible ==> src0[i].visible);
                            }
                            assert(arrived.len() == du + 1);
                            assert(b0.games.update(pu as int, src0.take(cut) + src0.skip(cut))
                                .update(qu as int, dest0 + arrived.take(0)) =~= b0.games) by {
                                assert(src0.take(cut) + src0.skip(cut) =~= src0);
                                assert(dest0 + arrived.take(0) =~= dest0);
                            }
                            assert(tableau_ok(dest0 + arrived.take(0))) by {
                                assert(dest0 + arrived.take(0) =~= dest0);
                            }
                        }
                        let cut_e: usize = {
                            let src_len = self.game_piles[pu].len();
                            src_len - 1 - du
                        };
                        let mut t: usize = 0;
                        while t < du + 1
                            invariant
                                t <= du + 1,
                                du <= 255,
                                pu < 7,
                                qu < 7,
                                pu != qu,
                                self.game_piles@.len() == 7,
                                b0 == old(self)@,
                                b0.wf(),
                                src0 == b0.games[pu as int],
                                dest0 == b0.games[qu as int],
                                cut == src0.len() - 1 - du,
                                cut_e as int == cut,
                                0 <= cut,
                                du + 1 <= src0.len(),
                                run0 == src0.subrange(cut, src0.len() as int),
                                arrived == run0.map_values(
                                    |pc: PlacedCard| PlacedCard { card: pc.card, visible: true },
                                ),
                                arrived.len() == du + 1,
                                forall|i: int| cut <= i < src0.len() ==> (#[trigger] src0[i]).visible,
                                self@.deck == b0.deck,
                                self@.pick == b0.pick,
                                self@.ends == b0.ends,
                                self@.games == b0.games.update(
                                    pu as int,
                                    src0.take(cut) + src0.skip(cut + t),
                                ).update(qu as int, dest0 + arrived.take(t as int)),
                                tableau_ok(dest0 + arrived.take(t as int)),
                                dest0.len() > 0 && dest0.last().visible ==> arrived[
                                    0
                                ].card.placeable_spec(dest0.last().card, Placement::GamePile),
                            decreases du + 1 - t,
                        {
                            let ghost ct = dest0 + arrived.take(t as int);
                            let ghost spu = src0.take(cut) + src0.skip(cut + t);
                            proof {
                                assert(self@.games[pu as int] == spu);
                                assert(self@.games[qu as int] == ct);
                                assert(spu.len() == src0.len() - t);
                                assert(spu[cut] == src0[cut + t]);
                            }
                            self.carry_one(pu, qu, cut_e);
                            proof {
                                let moved = PlacedCard { card: src0[cut + t].card, visible: true };
                                assert(moved == arrived[t as int]);
                                assert(spu.remove(cut) =~= src0.take(cut) + src0.skip(
                                    cut + t + 1,
                                ));
                                assert(dest0 + arrived.take(t + 1) =~= ct.push(
                                    arrived[t as int],
                                ));
                                assert(self@.games =~= b0.games.update(
                                    pu as int,
                                    src0.take(cut) + src0.skip(cut + t + 1),
                                ).update(qu as int, dest0 + arrived.take(t + 1)));
                                if t > 0 {
                                    assert(ct.last() == arrived[t - 1]);
                                    assert(src0[cut + t].card.placeable_spec(
                                        src0[cut + t - 1].card,
                                        Placement::GamePile,
                                    ));
                                    assert(arrived[t as int].card == src0[cut + t].card);
                                    assert(arrived[t - 1].card == src0[cut + t - 1].card);
                                }
                                lemma_tableau_push(ct, moved);
                                assert(tableau_ok(dest0 + arrived.take(t + 1)));
                            }
                            t += 1;
                        }
                        proof {
                            assert(src0.take(cut) + src0.skip(cut + (du + 1)) =~= src0.take(cut));
                            assert(arrived.take(du + 1) =~= arrived);
                        }
                        self.expose_top_pile(pu);
                        proof {
                            let mid = BoardView {
                                games: b0.games.update(pu as int, src0.take(cut)).update(
                                    qu as int,
                                    dest0 + arrived,
                                ),
                                ..b0
                            };
                            assert(self@ =~= mid.expose_top(pu as int)) by {
                                assert(self@.games =~= mid.expose_top(pu as int).games);
                            }
                            assert(self@ == b0.move_run(pu as int, du as int, qu as int));
                            assert(self@ == b0.move_result(*from, *to));
                            // the invariant holds of every pile
                            lemma_tableau_take(src0, cut);
                            lemma_tableau_expose(src0.take(cut));
                            assert forall|r: int| 0 <= r < 7 implies tableau_ok(
                                #[trigger] self@.games[r],
                            ) by {
                                if r == pu as int {
                                    assert(self@.games[r] == expose_seq(src0.take(cut)));
                                } else if r == qu as int {
                                    assert(self@.games[r] == dest0 + arrived);
                                    assert(tableau_ok(dest0 + arrived.take(du + 1)));
                                } else {
                                    assert(self@.games[r] == b0.games[r]);
                                }
                            }
                            assert(self@.wf());
                            // conservation
                            let g0 = b0.games;
                            let bb = dest0 + arrived;
                            let aa = expose_seq(src0.take(cut));
                            let g1 = g0.update(qu as int, bb);
                            let g2 = g1.update(pu as int, aa);
                            assert(self@.games =~= g2);
                            lemma_placed_seqs_ms_update(g0, qu as int, bb);
                            lemma_placed_seqs_ms_update(g1, pu as int, aa);
                            assert(g1[pu as int] == src0);
                            lemma_placed_cards_expose(src0.take(cut));
                            assert(placed_cards(bb) =~= placed_cards(dest0) + placed_cards(
                                arrived,
                            ));
                            assert(placed_cards(arrived) =~= placed_cards(run0));
                            assert(placed_cards(src0) =~= placed_cards(src0.take(cut))
                                + placed_cards(run0)) by {
                                assert(src0 =~= src0.take(cut) + run0);
                                assert(placed_cards(src0.take(cut) + run0) =~= placed_cards(
                                    src0.take(cut),
                                ) + placed_cards(run0));
                            }
                            vstd::seq_lib::lemma_multiset_commutative(
                                placed_cards(dest0),
                                placed_cards(arrived),
                            );
                            vstd::seq_lib::lemma_multiset_commutative(
                                placed_cards(src0.take(cut)),
                                placed_cards(run0),
                            );
                            assert forall|x: Card|
                                self@.cards().count(x) == b0.cards().count(x) by {
                                assert(placed_seqs_ms(g1).add(
                                    placed_cards(g0[qu as int]).to_multiset(),
                                ).count(x) == placed_seqs_ms(g0).add(
                                    placed_cards(bb).to_multiset(),
                                ).count(x));
                                assert(placed_seqs_ms(g2).add(
                                    placed_cards(g1[pu as int]).to_multiset(),
                                ).count(x) == placed_seqs_ms(g1).add(
                                    placed_cards(aa).to_multiset(),
                                ).count(x));
                            }
                            assert(self@.cards() =~= b0.cards());
                        }
                        MoveOutcome::Executed
                    },
                }
            },
        }
    }
}

/// Both ends of a request name the same pile: either literally the same
/// position, or two depths of one tableau pile. Such a request is a no-op
/// that still counts as executed.
pub open spec fn same_pile_noop(from: Position, to: Position) -> bool {
    from == to || (from matches Position::GamePile(a, _) && to matches Position::GamePile(b, _)
        && a == b)
}

/// The pile with its top card turned face-up, if it has one.
pub open spec fn expose_seq(s: Seq<PlacedCard>) -> Seq<PlacedCard> {
    if s.len() == 0 {
        s
    } else {
        s.update(s.len() - 1, PlacedCard { card: s.last().card, visible: true })
    }
}

impl BoardView {
    /// Whether depth `d` of tableau `p` names a face-up card.
    pub open spec fn run_visible(self, p: int, d: int) -> bool {
        d < self.games[p].len() && self.games[p][self.games[p].len() - 1 - d].visible
    }

    /// The board with the top card of tableau `p` turned face-up.
    pub open spec fn expose_top(self, p: int) -> BoardView {
        BoardView { games: self.games.update(p, expose_seq(self.games[p])), ..self }
    }

    /// The run of `d + 1` cards rooted at depth `d` of tableau `p`, moved in
    /// order onto tableau `q`, each arriving face-up; the uncovered card of
    /// `p` is then turned face-up.
    pub open spec fn move_run(self, p: int, d: int, q: int) -> BoardView {
        let s = self.games[p];
        let cut = s.len() - 1 - d;
        let run = s.subrange(cut, s.len() as int);
        let arrived = run.map_values(|pc: PlacedCard| PlacedCard { card: pc.card, visible: true });
        let mid = BoardView {
            games: self.games.update(p, s.take(cut)).update(q, self.games[q] + arrived),
            ..self
        };
        mid.expose_top(p)
    }

    /// One activation of the stock: a draw when it has a card, else the
    /// recycle that turns the waste back into the stock in reverse order.
    pub open spec fn stock_cycled(self) -> BoardView {
        if self.deck.len() > 0 {
            BoardView {
                deck: self.deck.drop_last(),
                pick: self.pick.push(self.deck.last()),
                ..self
            }
        } else {
            BoardView { deck: self.pick.reverse(), pick: Seq::<Card>::empty(), ..self }
        }
    }

    /// The outcome the move engine owes for a request, following the rules of
    /// the game: a same-pile request is executed as a no-op; an empty or
    /// face-down source, the stock as a destination, and the stock as a
    /// tableau source are contract violations; the waste accepts nothing; a
    /// foundation accepts a single next-rank same-suit card, or an Ace when
    /// empty; a tableau accepts a run under an opposite-color card of one
    /// rank higher, or any King-rooted run when empty.
    pub open spec fn move_outcome(self, from: Position, to: Position) -> MoveOutcome {
        if same_pile_noop(from, to) {
            MoveOutcome::Executed
        } else if self.top_at(from) is None {
            MoveOutcome::Invalid
        } else if from matches Position::GamePile(p, d) && !self.run_visible(p as int, d as int) {
            MoveOutcome::Invalid
        } else {
            match (self.top_at(from), to) {
                (Some(c), Position::Deck) => MoveOutcome::Invalid,
                (Some(c), Position::Pick) => MoveOutcome::Rejected,
                (Some(c), Position::EndPile(n)) => {
                    if moves_multiple(from) {
                        MoveOutcome::Rejected
                    } else if self.ends[n as int].len() == 0 {
                        if c.0 == 0 {
                            MoveOutcome::Executed
                        } else {
                            MoveOutcome::Rejected
                        }
                    } else if c.placeable_spec(self.ends[n as int].last(), Placement::EndPile) {
                        MoveOutcome::Executed
                    } else {
                        MoveOutcome::Rejected
                    }
                },
                (Some(c), Position::GamePile(q, _)) => {
                    let dest = self.games[q as int];
                    if dest.len() > 0 && !c.placeable_spec(dest.last().card, Placement::GamePile) {
                        MoveOutcome::Rejected
                    } else if dest.len() == 0 && c.0 != 12 {
                        MoveOutcome::Rejected
                    } else if from is Deck {
                        MoveOutcome::Invalid
                    } else {
                        MoveOutcome::Executed
                    }
                },
                (None, _) => MoveOutcome::Invalid,
            }
        }
    }

    /// The board after a request: unchanged unless the outcome is `Executed`,
    /// unchanged for a same-pile no-op, and otherwise the transfer, with the
    /// uncovered tableau card turned face-up.
    pub open spec fn move_result(self, from: Position, to: Position) -> BoardView {
        if self.move_outcome(from, to) != MoveOutcome::Executed || same_pile_noop(from, to) {
            self
        } else {
            match (self.top_at(from), to) {
                (Some(c), Position::EndPile(n)) => {
                    let moved = self.pop_at(from).push_end(n as int, c);
                    match from {
                        Position::GamePile(p, _) => moved.expose_top(p as int),
                        _ => moved,
                    }
                },
                (Some(c), Position::GamePile(q, _)) => {
                    match from {
                        Position::GamePile(p, d) => self.move_run(p as int, d as int, q as int),
                        _ => self.pop_at(from).push_game(q as int, c),
                    }
                },
                _ => self,
            }
        }
    }

    /// The screen cell a position is drawn at, as a pair of column and row.
    pub open spec fn screen_coords(self, pos: Position) -> (int, int) {
        match pos {
            Position::Deck => (1, 1),
            Position::Pick => (7, 1),
            Position::EndPile(n) => (1 + (n + 3) * 6, 1),
            Position::GamePile(p, d) => {
                let s = self.games[p as int];
                if s.len() == 0 {
                    (1 + p * 6, 3)
                } else {
                    (1 + p * 6, 2 + s.len() - d)
                }
            },
        }
    }
}

/// Replacing pile `j` by `v` exchanges exactly that pile's cards in the
/// total: the sum with the old pile's cards added back equals the old sum
/// with the new pile's cards added.
pub proof fn lemma_seqs_ms_update(ss: Seq<Seq<Card>>, j: int, v: Seq<Card>)
    requires
        0 <= j < ss.len(),
    ensures
        seqs_ms(ss.update(j, v)).add(ss[j].to_multiset()) == seqs_ms(ss).add(v.to_multiset()),
    decreases ss.len(),
{
    if j == ss.len() - 1 {
        assert(ss.update(j, v).drop_last() =~= ss.drop_last());
        assert(seqs_ms(ss.update(j, v)).add(ss[j].to_multiset()) =~= seqs_ms(ss).add(
            v.to_multiset(),
        ));
    } else {
        let upd = ss.update(j, v);
        assert(upd.drop_last() =~= ss.drop_last().update(j, v));
        assert(upd.last() == ss.last());
        assert(seqs_ms(upd) == seqs_ms(upd.drop_last()).add(upd.last().to_multiset()));
        lemma_seqs_ms_update(ss.drop_last(), j, v);
        assert(ss.drop_last()[j] == ss[j]);
        assert(seqs_ms(ss) == seqs_ms(ss.drop_last()).add(ss.last().to_multiset()));
        let dl = ss.drop_last();
        assert forall|c: Card|
            seqs_ms(upd).add(ss[j].to_multiset()).count(c) == seqs_ms(ss).add(
                v.to_multiset(),
            ).count(c) by {
            assert(seqs_ms(dl.update(j, v)).add(ss[j].to_multiset()).count(c) == seqs_ms(dl).add(
                v.to_multiset(),
            ).count(c));
        }
        assert(seqs_ms(upd).add(ss[j].to_multiset()) =~= seqs_ms(ss).add(v.to_multiset()));
    }
}

/// The tableau counterpart of `lemma_seqs_ms_update`.
pub proof fn lemma_placed_seqs_ms_update(ss: Seq<Seq<PlacedCard>>, j: int, v: Seq<PlacedCard>)
    requires
        0 <= j < ss.len(),
    ensures
        placed_seqs_ms(ss.update(j, v)).add(placed_cards(ss[j]).to_multiset()) == placed_seqs_ms(
            ss,
        ).add(placed_cards(v).to_multiset()),
    decreases ss.len(),
{
    if j == ss.len() - 1 {
        assert(ss.update(j, v).drop_last() =~= ss.drop_last());
        assert(placed_seqs_ms(ss.update(j, v)).add(placed_cards(ss[j]).to_multiset())
            =~= placed_seqs_ms(ss).add(placed_cards(v).to_multiset()));
    } else {
        let upd = ss.update(j, v);
        assert(upd.drop_last() =~= ss.drop_last().update(j, v));
        assert(upd.last() == ss.last());
        assert(placed_seqs_ms(upd) == placed_seqs_ms(upd.drop_last()).add(
            placed_cards(upd.last()).to_multiset(),
        ));
        lemma_placed_seqs_ms_update(ss.drop_last(), j, v);
        assert(ss.drop_last()[j] == ss[j]);
        assert(placed_seqs_ms(ss) == placed_seqs_ms(ss.drop_last()).add(
            placed_cards(ss.last()).to_multiset(),
        ));
        let dl = ss.drop_last();
        assert forall|c: Card|
            placed_seqs_ms(upd).add(placed_cards(ss[j]).to_multiset()).count(c) == placed_seqs_ms(
                ss,
            ).add(placed_cards(v).to_multiset()).count(c) by {
            assert(placed_seqs_ms(dl.update(j, v)).add(placed_cards(ss[j]).to_multiset()).count(c)
                == placed_seqs_ms(dl).add(placed_cards(v).to_multiset()).count(c));
        }
        assert(placed_seqs_ms(upd).add(placed_cards(ss[j]).to_multiset()) =~= placed_seqs_ms(
            ss,
        ).add(placed_cards(v).to_multiset()));
    }
}

/// Dropping the last element of a sequence removes exactly that element from
/// its multiset.
pub proof fn lemma_drop_last_to_multiset<A>(s: Seq<A>)
    requires
        s.len() > 0,
    ensures
        s.drop_last().to_multiset() == s.to_multiset().remove(s.last()),
{
    assert(s.drop_last() =~= s.remove(s.len() - 1));
    assert(s.remove(s.len() - 1).to_multiset() == s.to_multiset().remove(s[s.len() - 1]));
}

/// Taking one card out of one multiset and adding it to another leaves the
/// combined total unchanged.
pub proof fn lemma_ms_transfer(a: Multiset<Card>, b: Multiset<Card>, c: Card)
    requires
        a.count(c) > 0,
    ensures
        a.remove(c).add(b.insert(c)) == a.add(b),
{
    assert(a.remove(c).add(b.insert(c)) =~= a.add(b));
}

/// Stripping the face-up flags commutes with appending a card.
pub proof fn lemma_placed_cards_push(s: Seq<PlacedCard>, pc: PlacedCard)
    ensures
        placed_cards(s.push(pc)) == placed_cards(s).push(pc.card),
{
    assert(placed_cards(s.push(pc)) =~= placed_cards(s).push(pc.card));
}

/// Stripping the face-up flags commutes with dropping the last card.
pub proof fn lemma_placed_cards_drop_last(s: Seq<PlacedCard>)
    requires
        s.len() > 0,
    ensures
        placed_cards(s.drop_last()) == placed_cards(s).drop_last(),
{
    assert(placed_cards(s.drop_last()) =~= placed_cards(s).drop_last());
}

/// A bottom part of a well-formed tableau pile is itself well-formed.
pub proof fn lemma_tableau_take(s: Seq<PlacedCard>, k: int)
    requires
        tableau_ok(s),
        0 <= k <= s.len(),
    ensures
        tableau_ok(s.take(k)),
{
    let t = s.take(k);
    assert(forall|i: int| 0 <= i < k ==> t[i] == s[i]);
}

/// Turning the top card face-up keeps a tableau pile well-formed.
pub proof fn lemma_tableau_expose(s: Seq<PlacedCard>)
    requires
        tableau_ok(s),
    ensures
        tableau_ok(expose_seq(s)),
{
    if s.len() > 0 {
        let t = expose_seq(s);
        assert forall|i: int, j: int|
            0 <= i <= j < t.len() && (#[trigger] t[i]).visible implies (#[trigger] t[j]).visible by {
            if j < t.len() - 1 {
                assert(s[i].visible ==> s[j].visible);
            }
        }
        assert forall|i: int|
            0 < i < t.len() && (#[trigger] t[i - 1]).visible implies (t[i].card.placeable_spec(
            t[i - 1].card,
            Placement::GamePile,
        )) by {
            assert(t[i - 1].card == s[i - 1].card && t[i].card == s[i].card);
            if i - 1 < t.len() - 1 {
                assert(s[i - 1].visible);
            } else {
                assert(i == t.len());
            }
        }
    }
}

/// Appending one face-up card that fits under a face-up top keeps a tableau
/// pile well-formed.
pub proof fn lemma_tableau_push(s: Seq<PlacedCard>, pc: PlacedCard)
    requires
        tableau_ok(s),
        pc.visible,
        s.len() > 0 && s.last().visible ==> pc.card.placeable_spec(
            s.last().card,
            Placement::GamePile,
        ),
    ensures
        tableau_ok(s.push(pc)),
{
    let t = s.push(pc);
    assert forall|i: int, j: int|
        0 <= i <= j < t.len() && (#[trigger] t[i]).visible implies (#[trigger] t[j]).visible by {
        if j < t.len() - 1 {
            assert(t[i] == s[i] && t[j] == s[j]);
            assert(s[i].visible ==> s[j].visible);
        }
    }
    assert forall|i: int|
        0 < i < t.len() && (#[trigger] t[i - 1]).visible implies (t[i].card.placeable_spec(
        t[i - 1].card,
        Placement::GamePile,
    )) by {
        if i < t.len() - 1 {
            assert(t[i - 1] == s[i - 1] && t[i] == s[i]);
        } else {
            assert(t[i - 1] == s[s.len() - 1] && t[i] == pc);
        }
    }
}

/// A bottom part of a well-formed foundation is itself well-formed.
pub proof fn lemma_foundation_take(s: Seq<Card>, k: int)
    requires
        foundation_ok(s),
        0 <= k <= s.len(),
    ensures
        foundation_ok(s.take(k)),
{
    let t = s.take(k);
    assert(forall|i: int| 0 <= i < k ==> t[i] == s[i]);
}

/// An Ace starts an empty foundation; on a nonempty one, the next rank of
/// the same suit continues it.
pub proof fn lemma_foundation_push(s: Seq<Card>, c: Card)
    requires
        foundation_ok(s),
        s.len() == 0 ==> c.0 == 0,
        s.len() > 0 ==> c.placeable_spec(s.last(), Placement::EndPile),
    ensures
        foundation_ok(s.push(c)),
{
    let t = s.push(c);
    assert forall|i: int| 0 <= i < t.len() implies (#[trigger] t[i]).0 == i by {
        if i < s.len() {
            assert(t[i] == s[i]);
        } else {
            if s.len() > 0 {
                assert(s.last().0 == s.len() - 1);
            }
        }
    }
    assert forall|i: int| 0 <= i < t.len() implies (#[trigger] t[i]).1 == t[0].1 by {
        if i < s.len() {
            assert(t[i] == s[i]);
        } else {
            if s.len() > 0 {
                assert(s.last().1 == s[0].1);
            }
        }
    }
}

/// Turning tableau cards face-up or face-down never changes which cards a
/// pile holds.
pub proof fn lemma_placed_cards_expose(s: Seq<PlacedCard>)
    ensures
        placed_cards(expose_seq(s)) == placed_cards(s),
{
    assert(placed_cards(expose_seq(s)) =~= placed_cards(s));
}

impl BoardView {
    /// Removing the top card of a pile takes exactly that card out of the
    /// board's multiset.
    pub proof fn lemma_cards_pop_at(self, pos: Position)
        requires
            self.shape(),
            pos.is_valid(),
            (match pos {
                Position::GamePile(_, d) => d == 0,
                _ => true,
            }),
            self.top_at(pos) matches Some(_),
        ensures
            self.cards() == (match self.top_at(pos) {
                Some(c) => self.pop_at(pos).cards().insert(c),
                None => self.cards(),
            }),
    {
        match pos {
            Position::Deck => {
                lemma_drop_last_to_multiset(self.deck);
                let c = self.deck.last();
                assert(self.deck.contains(c));
                assert(self.cards() =~= self.pop_at(pos).cards().insert(c));
            },
            Position::Pick => {
                lemma_drop_last_to_multiset(self.pick);
                let c = self.pick.last();
                assert(self.pick.contains(c));
                assert(self.cards() =~= self.pop_at(pos).cards().insert(c));
            },
            Position::EndPile(n) => {
                let s = self.ends[n as int];
                let c = s.last();
                lemma_drop_last_to_multiset(s);
                assert(s.contains(c));
                lemma_seqs_ms_update(self.ends, n as int, s.drop_last());
                assert forall|x: Card|
                    self.cards().count(x) == self.pop_at(pos).cards().insert(c).count(x) by {
                    assert(seqs_ms(self.ends.update(n as int, s.drop_last())).add(
                        s.to_multiset(),
                    ).count(x) == seqs_ms(self.ends).add(s.drop_last().to_multiset()).count(x));
                }
                assert(self.cards() =~= self.pop_at(pos).cards().insert(c));
            },
            Position::GamePile(p, _) => {
                let s = self.games[p as int];
                let c = s.last().card;
                lemma_placed_cards_drop_last(s);
                lemma_drop_last_to_multiset(placed_cards(s));
                assert(placed_cards(s).last() == c);
                assert(placed_cards(s).contains(c));
                lemma_placed_seqs_ms_update(self.games, p as int, s.drop_last());
                assert forall|x: Card|
                    self.cards().count(x) == self.pop_at(pos).cards().insert(c).count(x) by {
                    assert(placed_seqs_ms(self.games.update(p as int, s.drop_last())).add(
                        placed_cards(s).to_multiset(),
                    ).count(x) == placed_seqs_ms(self.games).add(
                        placed_cards(s.drop_last()).to_multiset(),
                    ).count(x));
                }
                assert(self.cards() =~= self.pop_at(pos).cards().insert(c));
            },
        }
    }

    /// Appending a card to a foundation adds exactly that card to the
    /// board's multiset.
    pub proof fn lemma_cards_push_end(self, n: int, c: Card)
        requires
            self.shape(),
            0 <= n < 4,
        ensures
            self.push_end(n, c).cards() == self.cards().insert(c),
    {
        let s = self.ends[n];
        lemma_seqs_ms_update(self.ends, n, s.push(c));
        assert forall|x: Card|
            self.push_end(n, c).cards().count(x) == self.cards().insert(c).count(x) by {
            assert(seqs_ms(self.ends.update(n, s.push(c))).add(s.to_multiset()).count(x)
                == seqs_ms(self.ends).add(s.push(c).to_multiset()).count(x));
        }
        assert(self.push_end(n, c).cards() =~= self.cards().insert(c));
    }

    /// Appending a face-up card to a tableau adds exactly that card to the
    /// board's multiset.
    pub proof fn lemma_cards_push_game(self, q: int, c: Card)
        requires
            self.shape(),
            0 <= q < 7,
        ensures
            self.push_game(q, c).cards() == self.cards().insert(c),
    {
        let s = self.games[q];
        let pc = PlacedCard { card: c, visible: true };
        lemma_placed_cards_push(s, pc);
        lemma_placed_seqs_ms_update(self.games, q, s.push(pc));
        assert forall|x: Card|
            self.push_game(q, c).cards().count(x) == self.cards().insert(c).count(x) by {
            assert(placed_seqs_ms(self.games.update(q, s.push(pc))).add(
                placed_cards(s).to_multiset(),
            ).count(x) == placed_seqs_ms(self.games).add(
                placed_cards(s.push(pc)).to_multiset(),
            ).count(x));
        }
        assert(self.push_game(q, c).cards() =~= self.cards().insert(c));
    }

    /// Turning the top card of a tableau face-up changes no card.
    pub proof fn lemma_cards_expose(self, p: int)
        requires
            self.shape(),
            0 <= p < 7,
        ensures
            self.expose_top(p).cards() == self.cards(),
    {
        let s = self.games[p];
        lemma_placed_cards_expose(s);
        lemma_placed_seqs_ms_update(self.games, p, expose_seq(s));
        assert forall|x: Card| self.expose_top(p).cards().count(x) == self.cards().count(x) by {
            assert(placed_seqs_ms(self.games.update(p, expose_seq(s))).add(
                placed_cards(s).to_multiset(),
            ).count(x) == placed_seqs_ms(self.games).add(
                placed_cards(expose_seq(s)).to_multiset(),
            ).count(x));
        }
        assert(self.expose_top(p).cards() =~= self.cards());
    }
}

/// A group of piles that are all empty holds no cards.
pub proof fn lemma_seqs_ms_all_empty(ss: Seq<Seq<Card>>)
    requires
        forall|i: int| 0 <= i < ss.len() ==> (#[trigger] ss[i]).len() == 0,
    ensures
        seqs_ms(ss) == Multiset::<Card>::empty(),
    decreases ss.len(),
{
    if ss.len() > 0 {
        lemma_seqs_ms_all_empty(ss.drop_last());
        assert(ss.last().to_multiset() =~= Multiset::<Card>::empty());
        assert(seqs_ms(ss) =~= Multiset::<Card>::empty());
    }
}

/// Suit number `k` of the fixed deck-building order.
pub open spec fn nth_suit(k: int) -> Suit {
    if k == 0 {
        Suit::Diamonds
    } else if k == 1 {
        Suit::Hearts
    } else if k == 2 {
        Suit::Clubs
    } else {
        Suit::Spades
    }
}

/// The full 52-card deck in a fixed order: each suit's ranks 0 through 12.
pub open spec fn standard_deck() -> Seq<Card> {
    Seq::new(52, |i: int| Card((i % 13) as u8, nth_suit(i / 13)))
}

/// The number of cards dealt to the first `p` tableaus: 1 + 2 + ... + p.
pub open spec fn tri(p: int) -> int
    decreases p,
{
    if p <= 0 {
        0
    } else {
        tri(p - 1) + p
    }
}

proof fn lemma_tri_mono(a: int, b: int)
    requires
        0 <= a <= b,
    ensures
        tri(a) <= tri(b),
    decreases b,
{
    if a < b {
        lemma_tri_mono(a, b - 1);
    }
}

/// A request whose two ends name the same pile — the same position, or two
/// depths of one tableau — is always executed and never changes the board.
pub proof fn lemma_no_op_move(b: BoardView, from: Position, to: Position)
    requires
        same_pile_noop(from, to),
    ensures
        b.move_outcome(from, to) == MoveOutcome::Executed,
        b.move_result(from, to) == b,
{
}

/// Run integrity: an executed move of the run rooted at depth `d` of tableau
/// `p` onto a different tableau `q` relocates exactly `d + 1` cards. The
/// destination gains the run's cards in their old order, every one face-up,
/// and the source keeps exactly the cards that lay below the run.
pub proof fn lemma_run_integrity(b: BoardView, p: u8, d: u8, q: u8, dd: u8)
    requires
        b.wf(),
        p < 7,
        q < 7,
        p != q,
        b.move_outcome(Position::GamePile(p, d), Position::GamePile(q, dd))
            == MoveOutcome::Executed,
    ensures
        ({
            let src = b.games[p as int];
            let dest = b.games[q as int];
            let cut = src.len() - 1 - d;
            let after = b.move_result(Position::GamePile(p, d), Position::GamePile(q, dd));
            &&& d + 1 <= src.len()
            &&& after.games[q as int].len() == dest.len() + d + 1
            &&& after.games[p as int].len() == src.len() - (d + 1)
            &&& forall|i: int|
                0 <= i <= d ==> (#[trigger] after.games[q as int][dest.len() + i]).card == src[
                    cut + i
                ].card
            &&& forall|i: int| 0 <= i <= d ==> (#[trigger] after.games[q as int][dest.len() + i]).visible
            &&& forall|i: int| 0 <= i < dest.len() ==> (#[trigger] after.games[q as int][i]) == dest[i]
            &&& forall|i: int|
                0 <= i < src.len() - (d + 1) - 1 ==> (#[trigger] after.games[p as int][i]) == src[i]
        }),
{
    let from = Position::GamePile(p, d);
    let to = Position::GamePile(q, dd);
    let src = b.games[p as int];
    let dest = b.games[q as int];
    let cut = src.len() - 1 - d;
    assert(b.top_at(from) is Some);
    assert((d as int) < src.len());
    let after = b.move_result(from, to);
    assert(after == b.move_run(p as int, d as int, q as int));
    let run = src.subrange(cut, src.len() as int);
    let arrived = run.map_values(|pc: PlacedCard| PlacedCard { card: pc.card, visible: true });
    assert(after.games[q as int] == dest + arrived);
    assert(after.games[p as int] == expose_seq(src.take(cut)));
}

#[verifier::external_type_specification]
#[verifier::external_body]
pub struct ExStdRng(rand::rngs::StdRng);

/// Relies on rand's `StdRng::from_entropy`: a generator freshly seeded from
/// the operating system. Nothing is promised of the values it yields.
#[verifier::external_body]
fn fresh_rng() -> rand::rngs::StdRng {
    rand::rngs::StdRng::from_entropy()
}

/// Relies on rand's `SliceRandom::shuffle`: a Fisher-Yates shuffle that
/// permutes the slice in place by swapping elements, so exactly the same
/// cards remain, in whatever order came out.
#[verifier::external_body]
fn shuffle_cards(cards: &mut Vec<Card>, rng: &mut rand::rngs::StdRng)
    ensures
        final(cards)@.to_multiset() == old(cards)@.to_multiset(),
        final(cards)@.len() == old(cards)@.len(),
{
    cards.shuffle(rng);
}

/// The ordered 52-card deck, before shuffling.
fn build_deck() -> (deck: Vec<Card>)
    ensures
        deck@ == standard_deck(),
{
    let mut deck: Vec<Card> = Vec::new();
    let mut i: usize = 0;
    while i < 52
        invariant
            i <= 52,
            deck@ == standard_deck().take(i as int),
        decreases 52 - i,
    {
        let q = i / 13;
        let s: Suit = if q == 0 {
            Suit::Diamonds
        } else if q == 1 {
            Suit::Hearts
        } else if q == 2 {
            Suit::Clubs
        } else {
            Suit::Spades
        };
        deck.push(Card((i % 13) as u8, s));
        proof {
            assert(s == nth_suit(i as int / 13));
            assert(deck@ =~= standard_deck().take(i as int + 1));
        }
        i += 1;
    }
    proof {
        assert(deck@ =~= standard_deck());
    }
    deck
}

} // verus!
