//! A deck of fixed size with a draw cursor, and the standard deck of 52
//! cards.

use crate::card::{Card, Suit, Value, SUITS, VALUES};
use vstd::prelude::*;

verus! {

/// The mathematical content of a deck: its elements in order, and how many
/// of them have been drawn.
pub struct DeckView<T> {
    pub cards: Seq<T>,
    pub top: nat,
}

impl<T> DeckView<T> {
    /// A deck of the given elements from which nothing has been drawn.
    pub open spec fn fresh(cards: Seq<T>) -> Self {
        DeckView { cards, top: 0 }
    }

    /// The cursor never passes the end of the deck.
    pub open spec fn wf(self) -> bool {
        self.top <= self.cards.len()
    }

    /// The elements that have been drawn, oldest first.
    pub open spec fn drawn(self) -> Seq<T> {
        self.cards.take(self.top as int)
    }

    /// The elements that are still to be drawn, next one first.
    pub open spec fn undrawn(self) -> Seq<T> {
        self.cards.skip(self.top as int)
    }

    /// How many elements are still to be drawn.
    pub open spec fn remaining(self) -> nat {
        (self.cards.len() - self.top) as nat
    }

    /// How many elements a request for `n` of them gets.
    pub open spec fn granted(self, n: nat) -> nat {
        if n <= self.remaining() {
            n
        } else {
            self.remaining()
        }
    }

    /// The element that the next draw hands out, if one is left.
    pub open spec fn next(self) -> Option<T> {
        if self.top < self.cards.len() {
            Some(self.cards[self.top as int])
        } else {
            None
        }
    }

    /// The first `n` undrawn elements, or all of them where fewer are left.
    pub open spec fn peek(self, n: nat) -> Seq<T> {
        self.undrawn().take(self.granted(n) as int)
    }

    /// The deck after a request to draw `n` elements.
    pub open spec fn after_draw(self, n: nat) -> Self {
        DeckView { cards: self.cards, top: self.top + self.granted(n) }
    }

    /// What a request for `b` elements hands out beyond what a request for
    /// `a` of them does.
    pub open spec fn span(self, a: nat, b: nat) -> Seq<T> {
        self.cards.subrange(self.after_draw(a).top as int, self.after_draw(b).top as int)
    }

    /// The deck with every drawn element back in its place.
    pub open spec fn reset(self) -> Self {
        DeckView { cards: self.cards, top: 0 }
    }

    /// `self` is `before` with its undrawn elements rearranged.
    pub open spec fn is_shuffle_of(self, before: Self) -> bool {
        &&& self.top == before.top
        &&& self.cards.len() == before.cards.len()
        &&& self.drawn() == before.drawn()
        &&& self.undrawn().to_multiset() == before.undrawn().to_multiset()
    }
}

impl<T> DeckView<T> {
    /// What `k` single draws in a row hand out, the first draw first.
    pub open spec fn draws(self, k: nat) -> Seq<Option<T>>
        decreases k,
    {
        if k == 0 {
            Seq::empty()
        } else {
            seq![self.next()] + self.after_draw(1).draws((k - 1) as nat)
        }
    }

    /// The deck after `k` single draws in a row.
    pub open spec fn after_draws(self, k: nat) -> Self
        decreases k,
    {
        if k == 0 {
            self
        } else {
            self.after_draw(1).after_draws((k - 1) as nat)
        }
    }

    /// A deck made of `cards` has its cursor at the start, and all of `cards`
    /// are still to be drawn, in their order.
    pub proof fn lemma_fresh(cards: Seq<T>)
        ensures
            Self::fresh(cards).wf(),
            Self::fresh(cards).top == 0,
            Self::fresh(cards).cards == cards,
            Self::fresh(cards).undrawn() == cards,
            Self::fresh(cards).peek(cards.len()) == cards,
    {
        assert(Self::fresh(cards).undrawn() =~= cards);
        assert(Self::fresh(cards).peek(cards.len()) =~= cards);
    }

    /// Single draws in a row hand out the undrawn elements in their order,
    /// each once, and nothing from then on.
    pub proof fn lemma_draws(self, k: nat)
        requires
            self.wf(),
        ensures
            self.draws(k).len() == k,
            forall|i: int|
                0 <= i < k ==> #[trigger] self.draws(k)[i] == (if i < self.remaining() {
                    Some(self.undrawn()[i])
                } else {
                    None
                }),
        decreases k,
    {
        if k > 0 {
            let rest = self.after_draw(1);
            rest.lemma_draws((k - 1) as nat);
            assert forall|i: int| 0 <= i < k implies #[trigger] self.draws(k)[i] == (if i
                < self.remaining() {
                Some(self.undrawn()[i])
            } else {
                None
            }) by {
                if i > 0 {
                    assert(self.draws(k)[i] == rest.draws((k - 1) as nat)[i - 1]);
                }
            }
        }
    }

    /// A request for `n` elements hands out what `n` single draws in a row
    /// hand out, as far as they hand out anything, and leaves the deck as
    /// they leave it.
    pub proof fn lemma_draw_many_is_draw_one_repeated(self, n: nat)
        requires
            self.wf(),
        ensures
            forall|i: int|
                0 <= i < self.granted(n) ==> #[trigger] self.draws(n)[i] == Some(self.peek(n)[i]),
            forall|i: int| self.granted(n) <= i < n ==> (#[trigger] self.draws(n)[i]) is None,
            self.after_draw(n) == self.after_draws(n),
        decreases n,
    {
        self.lemma_draws(n);
        if n > 0 {
            self.after_draw(1).lemma_draw_many_is_draw_one_repeated((n - 1) as nat);
            self.lemma_draws_compose(1, (n - 1) as nat);
        }
    }

    /// Drawn one by one from a deck from which nothing has been drawn, the
    /// elements leave in their order, each exactly once; after the last of
    /// them every draw hands out nothing.
    pub proof fn lemma_draw_one_by_one(self, k: nat)
        requires
            self.wf(),
            self.top == 0,
        ensures
            self.draws(k).len() == k,
            forall|i: int|
                0 <= i < k && i < self.cards.len() ==> #[trigger] self.draws(k)[i] == Some(
                    self.cards[i],
                ),
            forall|i: int|
                self.cards.len() <= i < k ==> (#[trigger] self.draws(k)[i]) is None,
    {
        self.lemma_draws(k);
    }

    /// A request for `a` elements followed by one for `b` comes to one
    /// request for `a + b`: the deck ends up the same, and the two requests
    /// together hand out what the joint one does, in the same order.
    pub proof fn lemma_draws_compose(self, a: nat, b: nat)
        requires
            self.wf(),
        ensures
            self.after_draw(a).wf(),
            self.after_draw(a).after_draw(b) == self.after_draw(a + b),
            self.after_draw(a).peek(b) == self.span(a, a + b),
            self.peek(a) + self.after_draw(a).peek(b) == self.peek(a + b),
    {
        assert(self.after_draw(a).peek(b) =~= self.span(a, a + b));
        assert(self.peek(a) + self.after_draw(a).peek(b) =~= self.peek(a + b));
    }

    /// A look at as many elements as the deck holds, or at more, shows every
    /// undrawn element.
    pub proof fn lemma_peek_all(self, n: nat)
        requires
            self.wf(),
            n >= self.remaining(),
        ensures
            self.peek(n) == self.undrawn(),
            self.peek(self.cards.len()) == self.undrawn(),
    {
        assert(self.peek(n) =~= self.undrawn());
        assert(self.peek(self.cards.len()) =~= self.undrawn());
    }

    /// A draw moves no element: it lengthens the drawn part by what it hands
    /// out, and what was drawn before stays where it was.
    pub proof fn lemma_draw_keeps_drawn(self, n: nat)
        requires
            self.wf(),
        ensures
            self.after_draw(n).cards == self.cards,
            self.after_draw(n).drawn() == self.drawn() + self.peek(n),
            self.after_draw(n).undrawn() == self.undrawn().skip(self.granted(n) as int),
    {
        assert(self.after_draw(n).drawn() =~= self.drawn() + self.peek(n));
        assert(self.after_draw(n).undrawn() =~= self.undrawn().skip(self.granted(n) as int));
    }

    /// After a reset every element is undrawn again, in the order in which
    /// the deck holds them, whatever was drawn before; and a second reset
    /// changes nothing.
    pub proof fn lemma_reset_restores(self, n: nat)
        ensures
            self.reset().wf(),
            self.reset().undrawn() == self.cards,
            self.after_draw(n).reset() == self.reset(),
            self.reset().reset() == self.reset(),
    {
        assert(self.reset().undrawn() =~= self.cards);
    }

    /// A shuffle keeps the deck valid and as long as it was: the same
    /// elements are in it, each as often as before, and as many are undrawn.
    pub proof fn lemma_shuffle_keeps_elements(self, before: Self)
        requires
            before.wf(),
            self.is_shuffle_of(before),
        ensures
            self.wf(),
            self.remaining() == before.remaining(),
            self.cards.to_multiset() == before.cards.to_multiset(),
    {
        vstd::seq_lib::lemma_multiset_commutative(self.drawn(), self.undrawn());
        vstd::seq_lib::lemma_multiset_commutative(before.drawn(), before.undrawn());
        assert(self.drawn() + self.undrawn() =~= self.cards);
        assert(before.drawn() + before.undrawn() =~= before.cards);
    }
}

/// A fixed sequence of `N` elements with a cursor: the elements before the
/// cursor have been drawn, those from the cursor on have not.
#[derive(Eq, PartialEq, Debug)]
pub struct Deck<T, const N: usize> {
    cards: [T; N],
    top: usize,
}

impl<T, const N: usize> View for Deck<T, N> {
    type V = DeckView<T>;

    closed spec fn view(&self) -> DeckView<T> {
        DeckView { cards: self.cards@, top: self.top as nat }
    }
}

impl<T: Clone, const N: usize> Clone for Deck<T, N> {
    /// A deck with the same cursor whose elements are clones of this one's.
    fn clone(&self) -> (copy: Self)
        ensures
            copy@.top == self@.top,
            copy@.cards.len() == self@.cards.len(),
            forall|i: int| 0 <= i < N ==> cloned::<T>(self@.cards[i], #[trigger] copy@.cards[i]),
    {
        proof {
            use_type_invariant(self);
        }
        Deck { cards: self.cards.clone(), top: self.top }
    }
}

impl<T: Copy, const N: usize> Copy for Deck<T, N> {

}

impl<T, const N: usize> From<[T; N]> for Deck<T, N> {
    /// A deck of the given elements, in the given order, with nothing drawn.
    fn from(value: [T; N]) -> (deck: Self)
        ensures
            deck@ == DeckView::fresh(value@),
    {
        Deck { cards: value, top: 0 }
    }
}

impl<T, const N: usize> vstd::std_specs::convert::FromSpecImpl<[T; N]> for Deck<T, N> {
    open spec fn obeys_from_spec() -> bool {
        true
    }

    closed spec fn from_spec(value: [T; N]) -> Self {
        Deck { cards: value, top: 0 }
    }
}

impl<T, const N: usize> Deck<T, N> {
    /// What holds of every deck: it has `N` elements and its cursor is at
    /// most `N`.
    #[verifier::type_invariant]
    pub open spec fn wf(self) -> bool {
        self@.wf() && self@.cards.len() == N
    }

    /// What `from` makes of an array, as contracts see it.
    pub proof fn lemma_from_spec(value: [T; N])
        ensures
            <Self as vstd::std_specs::convert::FromSpec<[T; N]>>::from_spec(value)@
                == DeckView::fresh(value@),
    {
    }

    /// The position of the cursor: how many elements have been drawn.
    pub fn top(&self) -> (top: usize)
        ensures
            top == self@.top,
            top <= N,
    {
        proof {
            use_type_invariant(self);
        }
        self.top
    }

    /// All `N` elements, drawn or not, in their order.
    pub fn cards(&self) -> (cards: &[T; N])
        ensures
            cards@ == self@.cards,
    {
        &self.cards
    }

    /// Whether nothing has been drawn.
    pub fn is_full(&self) -> (full: bool)
        ensures
            full == (self@.top == 0),
    {
        self.top == 0
    }

    /// Hands out the element at the cursor and moves the cursor past it; at
    /// the end of the deck hands out nothing and changes nothing.
    pub fn draw_one(&mut self) -> (drawn: Option<&T>)
        ensures
            final(self)@ == old(self)@.after_draw(1),
            match drawn {
                Some(card) => old(self)@.next() == Some(*card),
                None => old(self)@.next() is None,
            },
    {
        proof {
            use_type_invariant(&*self);
        }
        if self.top >= N {
            None
        } else {
            let card = &self.cards[self.top];
            self.top += 1;
            Some(card)
        }
    }

    /// The element at the cursor, if one is left. The cursor stays.
    pub fn get_one(&self) -> (card: Option<&T>)
        ensures
            match card {
                Some(card) => self@.next() == Some(*card),
                None => self@.next() is None,
            },
    {
        if self.top < N {
            Some(&self.cards[self.top])
        } else {
            None
        }
    }

    /// Draws `n` elements one after another, and stops early where the deck
    /// runs out: the elements drawn, in the order in which they left.
    pub fn draw_many(&mut self, n: usize) -> (drawn: Vec<&T>)
        ensures
            final(self)@ == old(self)@.after_draw(n as nat),
            drawn@ == old(self)@.peek(n as nat).as_ref(),
    {
        proof {
            use_type_invariant(&*self);
        }
        let ghost before = self@;
        let mut vec: Vec<&T> = Vec::new();
        let mut i: usize = 0;
        while i < n
            invariant
                i <= n,
                before == old(self)@,
                before.wf(),
                before.cards.len() == N,
                self@.cards == before.cards,
                self@.top == before.top + i,
                self@.top <= N,
                vec@ == before.undrawn().take(i as int).as_ref(),
            decreases n - i,
        {
            if self.top < N {
                vec.push(&self.cards[self.top]);
                self.top += 1;
            } else {
                return vec;
            }
            i += 1;
        }
        vec
    }

    /// The first `n` undrawn elements, or all of them where fewer are left.
    /// The cursor stays.
    pub fn get_many(&self, n: usize) -> (cards: Vec<&T>)
        ensures
            cards@ == self@.peek(n as nat).as_ref(),
    {
        proof {
            use_type_invariant(self);
        }
        let left: usize = N - self.top;
        let count: usize = if n < left {
            n
        } else {
            left
        };
        let mut vec: Vec<&T> = Vec::new();
        let mut i: usize = 0;
        while i < count
            invariant
                i <= count,
                count == self@.granted(n as nat),
                self@.wf(),
                self@.cards.len() == N,
                vec@ == self@.undrawn().take(i as int).as_ref(),
            decreases count - i,
        {
            vec.push(&self.cards[self.top + i]);
            i += 1;
        }
        vec
    }

    /// Every undrawn element, next one first. The cursor stays.
    pub fn get_all(&self) -> (cards: Vec<&T>)
        ensures
            cards@ == self@.undrawn().as_ref(),
    {
        proof {
            use_type_invariant(self);
        }
        self.get_many(N)
    }

    /// Rearranges the undrawn elements at random. The drawn elements and the
    /// cursor stay as they are.
    pub fn shuffle(&mut self)
        ensures
            final(self)@.is_shuffle_of(old(self)@),
    {
        proof {
            use_type_invariant(&*self);
        }
        // The shuffle runs on a generator of its own, seeded from the
        // thread's: once seeded it asks nothing more of the system.
        let mut rng = rand::thread_rng();
        let mut seed: [u8; 32] = [0u8;32];
        fill_seed(&mut rng, &mut seed);
        let mut seeded = seeded_with(seed);
        shuffle_from(&mut self.cards, self.top, &mut seeded);
    }

    /// Moves the cursor back to the start. No element moves.
    pub fn reset(&mut self)
        ensures
            final(self)@ == old(self)@.reset(),
    {
        self.top = 0;
    }
}

/// `rand::rngs::ThreadRng`, the generator that `rand` keeps for each thread.
/// Nothing is known of what is in it.
#[verifier::external_type_specification]
#[verifier::external_body]
pub struct ExThreadRng(rand::rngs::ThreadRng);

/// `rand::thread_rng`: a handle to the calling thread's generator, which the
/// system seeds and reseeds. Nothing is claimed of the numbers that it gives.
pub assume_specification[ rand::thread_rng ]() -> (rng: rand::rngs::ThreadRng)
;

/// `rand::rngs::StdRng`, a generator that computes its numbers from its seed
/// alone. Nothing is known of what is in it.
#[verifier::external_type_specification]
#[verifier::external_body]
pub struct ExStdRng(rand::rngs::StdRng);

/// `rand::RngCore::fill_bytes` of the thread's generator: overwrites `seed`
/// with random bytes. Nothing is claimed of the bytes.
#[verifier::external_body]
fn fill_seed(rng: &mut rand::rngs::ThreadRng, seed: &mut [u8; 32]) {
    rand::RngCore::fill_bytes(rng, seed);
}

/// `rand::SeedableRng::from_seed` of `StdRng`: the generator that `seed`
/// determines. Nothing is claimed of the numbers that it gives.
#[verifier::external_body]
fn seeded_with(seed: [u8; 32]) -> (rng: rand::rngs::StdRng) {
    rand::SeedableRng::from_seed(seed)
}

/// `rand::seq::SliceRandom::shuffle` on the part of `cards` that starts at
/// `from`, with the numbers of `rng`. It only ever swaps two elements of that
/// part, so the elements before `from` stay as they are and those from `from`
/// on are the same ones as before, each as often as before. In which order
/// they end up is left open. The call does not unwind: the indices that it
/// swaps lie inside the part, each is sampled from a range that is not
/// empty, and `StdRng` computes its numbers in a buffer of fixed size
/// without reseeding or asking the system.
#[verifier::external_body]
fn shuffle_from<T, const N: usize>(cards: &mut [T; N], from: usize, rng: &mut rand::rngs::StdRng)
    requires
        from <= N,
    ensures
        final(cards)@.take(from as int) == old(cards)@.take(from as int),
        final(cards)@.skip(from as int).to_multiset() == old(cards)@.skip(
            from as int,
        ).to_multiset(),
    no_unwind
{
    rand::seq::SliceRandom::shuffle(&mut cards[from..], rng);
}

/// The card at position `k` of a fresh standard deck: the suits follow one
/// another, and within a suit the ranks rise.
pub open spec fn standard_card(k: int) -> Card {
    Card { suit: SUITS@[k / 13], value: VALUES@[k % 13] }
}

/// The 52 cards of a fresh standard deck, in their order.
pub open spec fn standard_cards() -> Seq<Card> {
    Seq::new(52, |k: int| standard_card(k))
}

/// A standard deck of 52 cards, unshuffled, with nothing drawn.
pub fn standard() -> (deck: Deck<Card, 52>)
    ensures
        deck@ == DeckView::fresh(standard_cards()),
{
    let mut cards: [Card; 52] = [Card { suit: Suit::Clubs, value: Value::Ace };52];
    let mut i: usize = 0;
    while i < 4
        invariant
            i <= 4,
            forall|k: int| 0 <= k < 13 * i ==> cards@[k] == standard_card(k),
        decreases 4 - i,
    {
        let mut j: usize = 0;
        while j < 13
            invariant
                i < 4,
                j <= 13,
                forall|k: int| 0 <= k < 13 * i + j ==> cards@[k] == standard_card(k),
            decreases 13 - j,
        {
            cards[13 * i + j] = Card { suit: SUITS[i], value: VALUES[j] };
            j += 1;
        }
        i += 1;
    }
    assert(cards@ =~= standard_cards());
    Deck::from(cards)
}

} // verus!
