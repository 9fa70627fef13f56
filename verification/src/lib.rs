//! Automata over atomic labels and their composition, tables of tiers and
//! slots with their notation and abstractions, and the conversion of
//! Hungarian spelling to such tables.
//!
//! The centre is [`machine::FSA`]: an automaton whose edges are a partial
//! function of state and label, with accepting states and with looping
//! states, which stand for a self-loop on every label without an edge while
//! two automata are composed. `Machine::intersection` composes two automata;
//! [`unfolding::is_intersection`] says what it gives, and [`laws`] states
//! what follows: the composition accepts what both accept, it commutes, the
//! automaton that allows everything is neutral, pruning is idempotent, and
//! the correspondence maps cover the result.
//!
//! The automata: [`label`], [`model`], [`language`], [`pruning`],
//! [`machine`], [`walk`], [`order`], [`construction`], [`unfolding`],
//! [`product`], [`laws`], [`traversal`], [`render`].
//!
//! Sets of labels: [`setoid`], [`labelset`]. Sublists and what lists have in
//! common: [`subsets`], [`similarity`], [`score`].
//!
//! Tables: [`table`], [`tabular`], [`notation`], [`weight`],
//! [`abstraction`], [`html`]. Hungarian: [`rewriting`], [`graphemes`],
//! [`hungarian`].
pub mod abstraction;
pub mod construction;
pub mod graphemes;
pub mod html;
pub mod hungarian;
pub mod label;
pub mod labelset;
pub mod language;
pub mod laws;
pub mod machine;
pub mod model;
pub mod notation;
pub mod order;
pub mod product;
pub mod pruning;
pub mod render;
pub mod rewriting;
pub mod score;
pub mod setoid;
pub mod similarity;
pub mod subsets;
pub mod table;
pub mod tabular;
pub mod traversal;
pub mod unfolding;
pub mod walk;
pub mod weight;
