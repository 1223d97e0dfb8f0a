//! A dead-man's-switch custody engine.
//!
//! Owners deposit fungible tokens into a will, name recipients with
//! percentage shares, and keep the will alive by renewing their activity.
//! Once the renewal interval has lapsed without activity, anyone may trigger
//! the distribution: the balances are split among the recipients and the
//! will is deleted. An index from each recipient to the owners whose wills
//! name it is kept in step with the wills.
//!
//! The engine is a state machine. [`model`] states each operation as a
//! function on mathematical values, [`contract`] holds the executable
//! operations, which are proved to compute those functions, and [`laws`]
//! holds what is proved of the machine as a whole. The parts that the
//! operations are made of are in [`tokens`] (the ledger of a will),
//! [`recipients`] (submissions and their merge), [`distribution`] (the split
//! and the dust floor) and [`index`] (the reverse index). [`store`] keeps
//! the state in memory, on [`table`].
//!
//! The engine does not talk to the outside. The host hands in the time, the
//! sender and the funds ([`host`]), resolves address texts through the
//! function that the operations take as `api`, carries out the transfers
//! that an operation orders, and keeps the state between operations. The
//! host must run one operation at a time on a state, and must keep what an
//! operation leaves in the [`store::Store`] all together or, where the
//! operation is refused, not at all. It need not hand in the whole state:
//! the operations are local, as [`laws`] states, so that the will and the
//! index entries that an operation touches are enough.
//!
//! No verified function panics. Amounts are 128 bits wide: a deposit that
//! would carry a balance beyond that is left out by the preconditions of
//! [`contract::try_deposit_tokens`], and [`contract::deposit_fits`] tells
//! beforehand.

pub mod contract;
pub mod distribution;
pub mod error;
pub mod host;
pub mod index;
pub mod laws;
pub mod model;
pub mod msg;
pub mod recipients;
pub mod state;
pub mod store;
pub mod table;
pub mod tokens;
