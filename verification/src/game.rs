//! The game: its state, the commands of a player, and what each command
//! does to the state.

use crate::card::Card;
use crate::deck::{standard, standard_cards, Deck, DeckView};
use std::collections::VecDeque;
use std::sync::mpsc::Sender;
use vstd::prelude::*;

verus! {

/// What a player can ask of the game.
#[derive(Debug, PartialEq, Eq, Clone, Copy)]
pub enum Command {
    Draw,
    Move { from: usize, to: usize, amount: usize },
    Place { stack: usize },
    GetState,
}

/// The sum `1 + 2 + ... + n`: how many cards the first `n` stacks are dealt.
pub open spec fn triangle(n: nat) -> nat
    decreases n,
{
    if n == 0 {
        0
    } else {
        n + triangle((n - 1) as nat)
    }
}

/// The mathematical content of a game state.
pub struct StateView {
    pub stacks: Seq<Seq<Card>>,
    pub unplaced: Seq<Card>,
    pub deck: DeckView<Card>,
    pub out_top: Seq<Option<Card>>,
}

impl StateView {
    /// A state has 8 stacks and 4 foundation slots, and a deck of 52 cards.
    pub open spec fn wf(self) -> bool {
        &&& self.stacks.len() == 8
        &&& self.out_top.len() == 4
        &&& self.deck.cards.len() == 52
        &&& self.deck.wf()
    }

    /// The state in which every game starts: a standard deck with nothing
    /// drawn, and no card anywhere else.
    pub open spec fn initial() -> StateView {
        StateView {
            stacks: Seq::new(8, |i: int| Seq::empty()),
            unplaced: Seq::empty(),
            deck: DeckView::fresh(standard_cards()),
            out_top: Seq::new(4, |i: int| None),
        }
    }

    /// The state after the tableau has been dealt: stack `i` gets the next
    /// `i + 1` cards of the deck, as far as the deck has them.
    pub open spec fn deal(self) -> StateView {
        StateView {
            stacks: Seq::new(
                8,
                |i: int|
                    self.stacks[i] + self.deck.span(triangle(i as nat), triangle((i + 1) as nat)),
            ),
            deck: self.deck.after_draw(triangle(8)),
            ..self
        }
    }

    /// The state after a draw: a deck from which nothing has been drawn is
    /// dealt first, then up to 3 cards go from the deck to the unplaced cards.
    pub open spec fn draw(self) -> StateView {
        let dealt = if self.deck.top == 0 {
            self.deal()
        } else {
            self
        };
        StateView {
            unplaced: dealt.unplaced + dealt.deck.peek(3),
            deck: dealt.deck.after_draw(3),
            ..dealt
        }
    }

    /// The cards that a move of `amount` cards takes off stack `from`, in the
    /// order in which they lay: the topmost `amount`, or the whole stack where
    /// it holds fewer; none where there is no such stack.
    pub open spec fn taken(self, from: int, amount: nat) -> Seq<Card> {
        if 0 <= from < self.stacks.len() {
            let stack = self.stacks[from];
            if amount <= stack.len() {
                stack.skip(stack.len() - amount)
            } else {
                stack
            }
        } else {
            Seq::empty()
        }
    }

    /// The state without the cards that a move of `amount` cards takes off
    /// stack `from`.
    pub open spec fn without_taken(self, from: int, amount: nat) -> StateView {
        if 0 <= from < self.stacks.len() {
            let stack = self.stacks[from];
            let rest = stack.take(stack.len() - self.taken(from, amount).len());
            StateView { stacks: self.stacks.update(from, rest), ..self }
        } else {
            self
        }
    }

    /// Where `to` is one of the stacks, the state with `cards` on top of it,
    /// the last of them topmost; else the state as it is.
    pub open spec fn with_cards_on(self, to: int, cards: Seq<Card>) -> StateView {
        if 0 <= to < self.stacks.len() {
            StateView { stacks: self.stacks.update(to, self.stacks[to] + cards), ..self }
        } else {
            self
        }
    }

    /// The state after a move: the cards taken off `from` lie on `to` in the
    /// order in which they lay on `from`. Where there is no stack `to`, they
    /// are gone.
    pub open spec fn move_cards(self, from: int, to: int, amount: nat) -> StateView {
        self.without_taken(from, amount).with_cards_on(to, self.taken(from, amount))
    }

    /// The state after a request to place a card on `stack`: the last of the
    /// unplaced cards lies on top of it. Where there is no such stack, the
    /// card is gone. Where no card is unplaced, nothing changes.
    pub open spec fn place(self, stack: int) -> StateView {
        if self.unplaced.len() == 0 {
            self
        } else {
            StateView { unplaced: self.unplaced.drop_last(), ..self }.with_cards_on(
                stack,
                seq![self.unplaced.last()],
            )
        }
    }

    /// The state after a command. A request for the state changes nothing.
    pub open spec fn step(self, command: Command) -> StateView {
        match command {
            Command::Draw => self.draw(),
            Command::Move { from, to, amount } => self.move_cards(
                from as int,
                to as int,
                amount as nat,
            ),
            Command::Place { stack } => self.place(stack as int),
            Command::GetState => self,
        }
    }
}

impl StateView {
    /// Every command leaves a valid state valid, and moves no card of the
    /// deck.
    pub proof fn lemma_step_keeps_wf(self, command: Command)
        requires
            self.wf(),
        ensures
            self.step(command).wf(),
            self.step(command).deck.cards == self.deck.cards,
            self.step(command).deck.top >= self.deck.top,
            self.step(command).out_top == self.out_top,
    {
    }

    /// The first draw of a game deals the tableau from the top of the fresh
    /// deck, 1 card onto the first stack up to 8 onto the last, and then
    /// draws 3 cards: 39 cards have left the deck.
    pub proof fn lemma_first_draw()
        ensures
            Self::initial().wf(),
            Self::initial().draw().deck == DeckView::fresh(standard_cards()).after_draw(39),
            Self::initial().draw().deck.top == 39,
            Self::initial().draw().unplaced == standard_cards().subrange(36, 39),
            forall|i: int|
                0 <= i < 8 ==> #[trigger] Self::initial().draw().stacks[i]
                    == standard_cards().subrange(
                    triangle(i as nat) as int,
                    triangle((i + 1) as nat) as int,
                ),
            forall|i: int| 0 <= i < 8 ==> (#[trigger] Self::initial().draw().stacks[i]).len() == i + 1,
    {
        reveal_with_fuel(triangle, 9);
        let start = Self::initial();
        let dealt = start.deal();
        assert(dealt.deck.peek(3) =~= standard_cards().subrange(36, 39));
        assert(start.draw().unplaced =~= standard_cards().subrange(36, 39));
        assert forall|i: int| 0 <= i < 8 implies #[trigger] start.draw().stacks[i]
            == standard_cards().subrange(
            triangle(i as nat) as int,
            triangle((i + 1) as nat) as int,
        ) by {
            assert(start.draw().stacks[i] =~= standard_cards().subrange(
                triangle(i as nat) as int,
                triangle((i + 1) as nat) as int,
            ));
        }
    }

    /// A draw from a deck from which something has been drawn deals nothing:
    /// it only takes up to 3 cards from the deck to the unplaced cards, fewer
    /// where fewer are left.
    pub proof fn lemma_later_draw(self)
        requires
            self.wf(),
            self.deck.top > 0,
        ensures
            self.draw().stacks == self.stacks,
            self.draw().unplaced == self.unplaced + self.deck.peek(3),
            self.draw().deck == self.deck.after_draw(3),
            self.draw().unplaced.len() == self.unplaced.len() + self.deck.granted(3),
    {
    }

    /// A move from a stack that does not exist changes nothing.
    pub proof fn lemma_move_from_nowhere(self, from: int, to: int, amount: nat)
        requires
            self.wf(),
            !(0 <= from < 8),
        ensures
            self.move_cards(from, to, amount) == self,
    {
        let after = self.move_cards(from, to, amount);
        assert(self.taken(from, amount) =~= Seq::empty());
        assert(after.stacks =~~= self.stacks);
    }

    /// A move between two different stacks takes the topmost `amount` cards
    /// of the one, or all of them where it holds fewer, and lays them on the
    /// other in the order in which they lay. Nothing else changes.
    pub proof fn lemma_move_between(self, from: int, to: int, amount: nat)
        requires
            self.wf(),
            0 <= from < 8,
            0 <= to < 8,
            from != to,
        ensures
            self.move_cards(from, to, amount).stacks[from] + self.taken(from, amount)
                == self.stacks[from],
            self.move_cards(from, to, amount).stacks[to] == self.stacks[to] + self.taken(
                from,
                amount,
            ),
            self.taken(from, amount).len() == (if amount <= self.stacks[from].len() {
                amount
            } else {
                self.stacks[from].len()
            }),
            amount >= self.stacks[from].len() ==> self.move_cards(from, to, amount).stacks[from]
                == Seq::<Card>::empty() && self.taken(from, amount) == self.stacks[from],
            forall|k: int|
                0 <= k < 8 && k != from && k != to ==> #[trigger] self.move_cards(
                    from,
                    to,
                    amount,
                ).stacks[k] == self.stacks[k],
            self.move_cards(from, to, amount).unplaced == self.unplaced,
            self.move_cards(from, to, amount).deck == self.deck,
            self.move_cards(from, to, amount).out_top == self.out_top,
    {
        let after = self.move_cards(from, to, amount);
        assert(after.stacks[from] + self.taken(from, amount) =~= self.stacks[from]);
        if amount >= self.stacks[from].len() {
            assert(after.stacks[from] =~= Seq::<Card>::empty());
            assert(self.taken(from, amount) =~= self.stacks[from]);
        }
    }

    /// A move from a stack onto itself changes nothing.
    pub proof fn lemma_move_onto_itself(self, stack: int, amount: nat)
        requires
            self.wf(),
        ensures
            self.move_cards(stack, stack, amount) == self,
    {
        let after = self.move_cards(stack, stack, amount);
        if 0 <= stack < 8 {
            assert(after.stacks[stack] =~= self.stacks[stack]);
        }
        assert(after.stacks =~~= self.stacks);
    }

    /// A move to a stack that does not exist loses the cards that it takes.
    pub proof fn lemma_move_to_nowhere(self, from: int, to: int, amount: nat)
        requires
            self.wf(),
            !(0 <= to < 8),
        ensures
            self.move_cards(from, to, amount) == self.without_taken(from, amount),
    {
    }

    /// Placing takes the last of the unplaced cards and, where the stack
    /// exists, lays it on top of that stack; the other stacks stay as they
    /// are. With no unplaced card nothing changes.
    pub proof fn lemma_place(self, stack: int)
        requires
            self.wf(),
        ensures
            self.unplaced.len() == 0 ==> self.place(stack) == self,
            self.unplaced.len() > 0 ==> self.place(stack).unplaced == self.unplaced.drop_last(),
            self.unplaced.len() > 0 && 0 <= stack < 8 ==> self.place(stack).stacks[stack]
                == self.stacks[stack].push(self.unplaced.last()),
            self.unplaced.len() > 0 && !(0 <= stack < 8) ==> self.place(stack).stacks
                == self.stacks,
            forall|k: int|
                0 <= k < 8 && k != stack ==> #[trigger] self.place(stack).stacks[k]
                    == self.stacks[k],
            self.place(stack).deck == self.deck,
            self.place(stack).out_top == self.out_top,
    {
        if self.unplaced.len() > 0 && 0 <= stack < 8 {
            assert(self.place(stack).stacks[stack] =~= self.stacks[stack].push(
                self.unplaced.last(),
            ));
        }
    }
}

/// Everything the game keeps: the deck, the 8 stacks of the tableau, the
/// cards drawn and not yet placed, and one foundation slot for each suit.
#[derive(Debug)]
pub struct State {
    stacks: [VecDeque<Card>; 8],
    unplaced: VecDeque<Card>,
    deck: Deck<Card, 52>,
    out_top: [Option<Card>; 4],
}

impl View for State {
    type V = StateView;

    closed spec fn view(&self) -> StateView {
        StateView {
            stacks: Seq::new(8, |i: int| self.stacks@[i]@),
            unplaced: self.unplaced@,
            deck: self.deck@,
            out_top: self.out_top@,
        }
    }
}

impl Clone for State {
    /// An independent copy of the whole state.
    fn clone(&self) -> (copy: Self)
        ensures
            copy@ == self@,
    {
        let copy = State {
            stacks: self.stacks.clone(),
            unplaced: self.unplaced.clone(),
            deck: self.deck,
            out_top: self.out_top,
        };
        assert(copy@.unplaced =~= self@.unplaced);
        assert(copy@.stacks =~= self@.stacks);
        copy
    }
}

impl State {
    /// The state in which every game starts.
    pub fn new() -> (state: Self)
        ensures
            state@ == StateView::initial(),
    {
        let state = State {
            stacks: [
                VecDeque::new(),
                VecDeque::new(),
                VecDeque::new(),
                VecDeque::new(),
                VecDeque::new(),
                VecDeque::new(),
                VecDeque::new(),
                VecDeque::new(),
            ],
            unplaced: VecDeque::new(),
            deck: standard(),
            out_top: [None;4],
        };
        assert(state@.stacks =~= StateView::initial().stacks);
        assert(state@.out_top =~= StateView::initial().out_top);
        state
    }

    /// The 8 stacks of the tableau; in each the last card is the topmost.
    pub fn stacks(&self) -> (stacks: &[VecDeque<Card>; 8])
        ensures
            self@.stacks.len() == 8,
            forall|i: int|
                #![trigger stacks@[i]]
                #![trigger self@.stacks[i]]
                0 <= i < 8 ==> stacks@[i]@ == self@.stacks[i],
    {
        &self.stacks
    }

    /// The cards drawn and not yet placed; the last is the next to be placed.
    pub fn unplaced(&self) -> (unplaced: &VecDeque<Card>)
        ensures
            unplaced@ == self@.unplaced,
    {
        &self.unplaced
    }

    /// The deck.
    pub fn deck(&self) -> (deck: &Deck<Card, 52>)
        ensures
            deck@ == self@.deck,
            self@.wf(),
    {
        proof {
            use_type_invariant(&self.deck);
        }
        &self.deck
    }

    /// The foundation slots, one for each suit.
    pub fn out_top(&self) -> (out_top: &[Option<Card>; 4])
        ensures
            out_top@ == self@.out_top,
    {
        &self.out_top
    }
}

/// `std::sync::mpsc::Sender`, the sending end of a channel. Nothing is known
/// of what is in it.
#[verifier::external_type_specification]
#[verifier::external_body]
#[verifier::reject_recursive_types(T)]
pub struct ExSender<T>(Sender<T>);

/// `std::sync::mpsc::Sender::send`: hands `snapshot` over to the channel and
/// tells whether the channel took it. It does not, once the receiving end is
/// gone, and whether that is so is not the library's to know: nothing is
/// claimed of the result.
#[verifier::external_body]
fn send_snapshot(tx: &Sender<State>, snapshot: State) -> (sent: bool) {
    tx.send(snapshot).is_ok()
}

/// Draws up to `n` cards from `deck` and lays them on `pile` in the order in
/// which they were drawn.
fn deal_onto(deck: &mut Deck<Card, 52>, pile: &mut VecDeque<Card>, n: usize)
    ensures
        final(deck)@ == old(deck)@.after_draw(n as nat),
        final(pile)@ == old(pile)@ + old(deck)@.peek(n as nat),
{
    let cards = deck.draw_many(n);
    let mut j: usize = 0;
    while j < cards.len()
        invariant
            j <= cards.len(),
            pile@ =~= old(pile)@ + Seq::new(j as nat, |k: int| *cards@[k]),
        decreases cards.len() - j,
    {
        pile.push_back(*cards[j]);
        j += 1;
    }
    assert(Seq::new(cards@.len(), |k: int| *cards@[k]) =~= old(deck)@.peek(n as nat));
}

/// A game: its state, and the channel on which it publishes snapshots of it.
pub struct Game {
    state: State,
    tx: Sender<State>,
}

impl View for Game {
    type V = StateView;

    closed spec fn view(&self) -> StateView {
        self.state@
    }
}

impl Game {
    /// A game in its initial state that publishes its snapshots on `tx`.
    pub fn new(tx: Sender<State>) -> (game: Self)
        ensures
            game@ == StateView::initial(),
            game.channel() == tx,
    {
        Game { state: State::new(), tx }
    }

    /// The channel on which the game publishes its snapshots: the one that it
    /// was made with. No command changes it.
    pub closed spec fn channel(&self) -> Sender<State> {
        self.tx
    }

    /// The state of the game.
    pub fn state(&self) -> (state: &State)
        ensures
            state@ == self@,
            self@.wf(),
    {
        proof {
            use_type_invariant(&self.state.deck);
        }
        &self.state
    }

    /// Deals the tableau: stack `i` gets the next `i + 1` cards of the deck,
    /// as far as the deck has them.
    pub fn init(&mut self)
        ensures
            final(self)@ == old(self)@.deal(),
            final(self).channel() == old(self).channel(),
    {
        proof {
            use_type_invariant(&self.state.deck);
        }
        let ghost before = self@;
        let mut i: usize = 0;
        while i < 8
            invariant
                i <= 8,
                before == old(self)@,
                self.channel() == old(self).channel(),
                before.wf(),
                self@.unplaced == before.unplaced,
                self@.out_top == before.out_top,
                self@.deck == before.deck.after_draw(triangle(i as nat)),
                self@.stacks =~~= Seq::new(
                    8,
                    |k: int|
                        if k < i {
                            before.stacks[k] + before.deck.span(
                                triangle(k as nat),
                                triangle((k + 1) as nat),
                            )
                        } else {
                            before.stacks[k]
                        },
                ),
            decreases 8 - i,
        {
            let ghost prev = self@;
            deal_onto(&mut self.state.deck, &mut self.state.stacks[i], i + 1);
            proof {
                before.deck.lemma_draws_compose(triangle(i as nat), (i + 1) as nat);
                assert(triangle((i + 1) as nat) == triangle(i as nat) + i + 1);
                assert(self@.stacks[i as int] == prev.stacks[i as int] + prev.deck.peek(
                    (i + 1) as nat,
                ));
                assert forall|k: int| 0 <= k < 8 implies #[trigger] self@.stacks[k] == (if k < i
                    + 1 {
                    before.stacks[k] + before.deck.span(
                        triangle(k as nat),
                        triangle((k + 1) as nat),
                    )
                } else {
                    before.stacks[k]
                }) by {
                    if k != i {
                        assert(self@.stacks[k] == prev.stacks[k]);
                    }
                }
            }
            i += 1;
        }
        assert(self@.stacks =~~= before.deal().stacks);
    }

    /// Draws up to 3 cards from the deck onto the unplaced cards. A deck from
    /// which nothing has been drawn is first dealt onto the tableau.
    pub fn draw(&mut self)
        ensures
            final(self)@ == old(self)@.draw(),
            final(self).channel() == old(self).channel(),
    {
        if self.state.deck.is_full() {
            self.init();
        }
        deal_onto(&mut self.state.deck, &mut self.state.unplaced, 3);
    }

    /// Moves up to `amount` cards from the top of stack `from` onto stack
    /// `to`, where they lie in the order in which they lay on `from`.
    pub fn move_cards(&mut self, from: usize, to: usize, amount: usize)
        ensures
            final(self)@ == old(self)@.move_cards(from as int, to as int, amount as nat),
            final(self).channel() == old(self).channel(),
    {
        let ghost before = self@;
        let mut cards: VecDeque<Card> = VecDeque::new();
        if from < 8 {
            let ghost source = before.stacks[from as int];
            let available: usize = self.state.stacks[from].len();
            let count: usize = if amount < available {
                amount
            } else {
                available
            };
            let mut i: usize = 0;
            while i < count
                invariant
                    from < 8,
                    i <= count <= source.len(),
                    self.channel() == old(self).channel(),
                    before.stacks.len() == 8,
                    source == before.stacks[from as int],
                    self@.unplaced == before.unplaced,
                    self@.deck == before.deck,
                    self@.out_top == before.out_top,
                    self@.stacks =~~= before.stacks.update(
                        from as int,
                        source.take(source.len() - i),
                    ),
                    cards@ =~= source.skip(source.len() - i),
                decreases count - i,
            {
                let ghost prev = self@;
                assert(self@.stacks[from as int] == source.take(source.len() - i));
                if let Some(card) = self.state.stacks[from].pop_back() {
                    cards.push_front(card);
                }
                i += 1;
                assert(self@.stacks[from as int] =~= source.take(source.len() - i));
                assert forall|k: int| 0 <= k < 8 && k != from implies self@.stacks[k]
                    == before.stacks[k] by {
                    assert(self@.stacks[k] == prev.stacks[k]);
                }
            }
            assert(cards@ == before.taken(from as int, amount as nat));
            assert(self@ == before.without_taken(from as int, amount as nat));
        }
        if to < 8 {
            let ghost emptied = self@;
            let ghost moved = cards@;
            let ghost target = emptied.stacks[to as int];
            while cards.len() > 0
                invariant
                    to < 8,
                    emptied.stacks.len() == 8,
                    self.channel() == old(self).channel(),
                    target == emptied.stacks[to as int],
                    cards@.len() <= moved.len(),
                    cards@ =~= moved.skip(moved.len() - cards@.len()),
                    self@.unplaced == emptied.unplaced,
                    self@.deck == emptied.deck,
                    self@.out_top == emptied.out_top,
                    self@.stacks =~~= emptied.stacks.update(
                        to as int,
                        target + moved.take(moved.len() - cards@.len()),
                    ),
                decreases cards@.len(),
            {
                let ghost prev = self@;
                let ghost left = cards@.len();
                assert(self@.stacks[to as int] == target + moved.take(moved.len() - left));
                if let Some(card) = cards.pop_front() {
                    self.state.stacks[to].push_back(card);
                }
                assert(self@.stacks[to as int] =~= target + moved.take(moved.len() - left + 1));
                assert forall|k: int| 0 <= k < 8 && k != to implies self@.stacks[k]
                    == emptied.stacks[k] by {
                    assert(self@.stacks[k] == prev.stacks[k]);
                }
            }
            assert(self@.stacks =~~= emptied.with_cards_on(to as int, moved).stacks);
        }
    }

    /// Takes the last of the unplaced cards and lays it on top of stack
    /// `stack`. Where there is no such stack, the card leaves the game.
    pub fn place(&mut self, stack: usize)
        ensures
            final(self)@ == old(self)@.place(stack as int),
            final(self).channel() == old(self).channel(),
    {
        let ghost before = self@;
        if let Some(card) = self.state.unplaced.pop_back() {
            if stack < 8 {
                self.state.stacks[stack].push_back(card);
                assert(self@.stacks =~~= before.place(stack as int).stacks);
            }
        }
    }

    /// Carries out `command` on the state. A request for the state is
    /// answered with an independent copy of it; the other commands are
    /// answered with nothing.
    pub fn apply(&mut self, command: Command) -> (snapshot: Option<State>)
        ensures
            final(self)@ == old(self)@.step(command),
            final(self).channel() == old(self).channel(),
            match snapshot {
                Some(state) => command is GetState && state@ == old(self)@,
                None => !(command is GetState),
            },
    {
        match command {
            Command::Draw => {
                self.draw();
                None
            },
            Command::Move { from, to, amount } => {
                self.move_cards(from, to, amount);
                None
            },
            Command::Place { stack } => {
                self.place(stack);
                None
            },
            Command::GetState => Some(self.state.clone()),
        }
    }

    /// Carries out `command` on the state, and publishes the copy of the
    /// state that a request for it is answered with. A copy that the channel
    /// does not take is dropped.
    pub fn run_command(&mut self, command: Command)
        ensures
            final(self)@ == old(self)@.step(command),
            final(self).channel() == old(self).channel(),
    {
        if let Some(snapshot) = self.apply(command) {
            let _ = send_snapshot(&self.tx, snapshot);
        }
    }
}

} // verus!
