//! The engine as a state machine over mathematical values.
//!
//! The state is what is kept between operations: the will of each owner, the
//! index from each recipient to the owners whose wills name it, and the
//! administrator recorded at set-up. Each operation is a function from the
//! state before it and its inputs to the state after it and its answer. The
//! executable operations are proved to compute these functions.

use crate::distribution::transfers;
use crate::error::ErrorView;
use crate::host::{AttributeView, ResponseView, TransferView};
use crate::index::{dismissed_all, enrolled_all, lists, set_valued, IndexView};
use crate::recipients::{
    first_refusal, merged, resolved_recipients, EntryView, ResolvedView,
};
use crate::state::{
    names, total_percentage, CoinView, RecipientView, WillView, DEFAULT_RENEWAL_RATE,
};
use crate::tokens::{any_reserved, credit_fits, credited_all, debited_all};
use vstd::prelude::*;

verus! {

/// The state of the engine.
pub struct StoreView {
    pub wills: Map<Seq<char>, WillView>,
    pub memberships: IndexView,
    pub admin: Option<Seq<char>>,
}

/// The state after an operation, and its answer.
pub struct Outcome {
    pub store: StoreView,
    pub result: Result<ResponseView, ErrorView>,
}

impl StoreView {
    /// Every will is kept under its owner and is well formed.
    pub open spec fn wf(self) -> bool {
        forall|owner: Seq<char>| #[trigger]
            self.wills.contains_key(owner) ==> self.wills[owner].wf() && self.wills[owner].owner
                == owner
    }

    /// Whether `owner` has a will that names `recipient`.
    pub open spec fn names_in_will(self, owner: Seq<char>, recipient: Seq<char>) -> bool {
        self.wills.contains_key(owner) && names(self.wills[owner].recipients, recipient)
    }

    /// The index agrees with the wills: an owner stands under a recipient
    /// exactly if the owner has a will that names the recipient.
    pub open spec fn consistent(self) -> bool {
        forall|owner: Seq<char>, recipient: Seq<char>|
            #![trigger self.names_in_will(owner, recipient)]
            #![trigger lists(self.memberships, recipient, owner)]
            self.names_in_will(owner, recipient) == lists(self.memberships, recipient, owner)
    }

    /// Whether this state and `other` hold the same for `owner`: both no
    /// will, or both the same will.
    pub open spec fn same_will(self, other: StoreView, owner: Seq<char>) -> bool {
        &&& self.wills.contains_key(owner) == other.wills.contains_key(owner)
        &&& self.wills.contains_key(owner) ==> self.wills[owner] == other.wills[owner]
    }

    /// Each index entry is a set: no owner stands twice under a recipient.
    pub open spec fn set_valued(self) -> bool {
        set_valued(self.memberships)
    }

    /// The will of `owner`: the stored one, or a fresh one, alive since
    /// `now` and to be renewed within the default interval.
    pub open spec fn will_of(self, owner: Seq<char>, now: nat) -> WillView {
        if self.wills.contains_key(owner) {
            self.wills[owner]
        } else {
            WillView::fresh(owner, now, DEFAULT_RENEWAL_RATE as nat)
        }
    }

    /// The state with `will` kept under `owner`.
    pub open spec fn with_will(self, owner: Seq<char>, will: WillView) -> StoreView {
        StoreView { wills: self.wills.insert(owner, will), ..self }
    }

    /// The operation is refused with `error`, and nothing changes.
    pub open spec fn refused(self, error: ErrorView) -> Outcome {
        Outcome { store: self, result: Err(error) }
    }

    /// Setting up: `sender` is recorded as the administrator.
    pub open spec fn instantiate(self, sender: Seq<char>) -> Outcome {
        Outcome {
            store: StoreView { admin: Some(sender), ..self },
            result: Ok(
                ResponseView {
                    attributes: seq![
                        AttributeView { key: "action"@, value: "instantiate"@ },
                        AttributeView { key: "owner_address"@, value: sender },
                    ],
                    messages: Seq::empty(),
                },
            ),
        }
    }

    /// `sender` shows to be alive.
    pub open spec fn reset_timestamp(self, sender: Seq<char>, now: nat) -> Outcome {
        let will = self.will_of(sender, now);
        Outcome {
            store: self.with_will(sender, WillView { timestamp: now, ..will }),
            result: Ok(ResponseView::note("action"@, "reset_timestamp"@)),
        }
    }

    /// `sender` sets the interval within which the will must be renewed.
    pub open spec fn set_renewal_rate(self, sender: Seq<char>, now: nat, rate: nat) -> Outcome {
        let will = self.will_of(sender, now);
        Outcome {
            store: self.with_will(
                sender,
                WillView { renewal_rate: rate, timestamp: now, ..will },
            ),
            result: Ok(ResponseView::note("action"@, "set_renewal_rate"@)),
        }
    }

    /// `sender` submits recipients: a submission whose percentages add up to
    /// one hundred is merged into the will, and the index learns of each
    /// address that the will did not name before.
    pub open spec fn set_recipients(
        self,
        sender: Seq<char>,
        now: nat,
        submitted: Seq<RecipientView>,
    ) -> Outcome {
        let will = self.will_of(sender, now);
        if total_percentage(submitted) != 100 {
            self.refused(ErrorView::InvalidRecipients)
        } else {
            Outcome {
                store: StoreView {
                    wills: self.wills.insert(
                        sender,
                        WillView {
                            recipients: merged(will.recipients, submitted),
                            timestamp: now,
                            ..will
                        },
                    ),
                    memberships: enrolled_all(
                        self.memberships,
                        will.recipients,
                        submitted,
                        sender,
                    ),
                    ..self
                },
                result: Ok(ResponseView::note("action"@, "set_recipients"@)),
            }
        }
    }

    /// `sender` submits recipients whose addresses the host has resolved: the
    /// first refusal of the host is the answer; without one, the submission
    /// is taken as it was resolved.
    pub open spec fn set_recipients_resolved(
        self,
        sender: Seq<char>,
        now: nat,
        entries: Seq<EntryView>,
    ) -> Outcome {
        match first_refusal(entries) {
            Some(why) => self.refused(ErrorView::Std(why)),
            None => self.set_recipients(sender, now, resolved_recipients(entries)),
        }
    }

    /// Whether the deposit of `funds` by `sender` keeps every balance within
    /// 128 bits, where it is not refused anyway.
    pub open spec fn deposit_fits(self, sender: Seq<char>, now: nat, funds: Seq<CoinView>) -> bool {
        any_reserved(funds) || credit_fits(self.will_of(sender, now).tokens, funds)
    }

    /// `sender` deposits `funds`, none of which may be of the reserved
    /// denomination.
    pub open spec fn deposit_tokens(
        self,
        sender: Seq<char>,
        now: nat,
        funds: Seq<CoinView>,
    ) -> Outcome {
        let will = self.will_of(sender, now);
        if any_reserved(funds) {
            self.refused(ErrorView::InvalidTokenDenom)
        } else {
            Outcome {
                store: self.with_will(
                    sender,
                    WillView { tokens: credited_all(will.tokens, funds), timestamp: now, ..will },
                ),
                result: Ok(ResponseView::note("action"@, "deposit_tokens"@)),
            }
        }
    }

    /// `sender` withdraws `requests`, which are sent back in one transfer.
    /// The will is not renewed by it.
    pub open spec fn withdraw_tokens(self, sender: Seq<char>, requests: Seq<CoinView>) -> Outcome {
        if !self.wills.contains_key(sender) {
            self.refused(ErrorView::NonExistentWill)
        } else {
            let will = self.wills[sender];
            match debited_all(will.tokens, requests) {
                Err(e) => self.refused(e),
                Ok(tokens) => Outcome {
                    store: self.with_will(sender, WillView { tokens, ..will }),
                    result: Ok(
                        ResponseView {
                            attributes: seq![
                                AttributeView { key: "action"@, value: "withdraw_tokens"@ },
                            ],
                            messages: seq![
                                TransferView { to_address: sender, amount: requests },
                            ],
                        },
                    ),
                },
            }
        }
    }

    /// Whether the will of `owner` may be distributed at `now`: the renewal
    /// interval has lapsed since the owner was last seen alive.
    pub open spec fn claimable(self, owner: Seq<char>, now: nat) -> bool {
        now - self.wills[owner].timestamp >= self.wills[owner].renewal_rate
    }

    /// Anyone asks for the will of `owner` to be distributed: once it is
    /// claimable, its balances are split among its recipients, the will is
    /// deleted, and the owner leaves the index entry of each recipient.
    pub open spec fn distribute_assets(self, owner: Seq<char>, now: nat) -> Outcome {
        if !self.wills.contains_key(owner) {
            self.refused(ErrorView::NonExistentWill)
        } else if !self.claimable(owner, now) {
            self.refused(ErrorView::NotClaimable)
        } else {
            let will = self.wills[owner];
            Outcome {
                store: StoreView {
                    wills: self.wills.remove(owner),
                    memberships: dismissed_all(self.memberships, will.recipients, owner),
                    ..self
                },
                result: Ok(
                    ResponseView {
                        attributes: seq![
                            AttributeView { key: "method"@, value: "distribute_assets"@ },
                        ],
                        messages: transfers(will.recipients, will.tokens),
                    },
                ),
            }
        }
    }

    /// Anyone asks for the will of an owner to be distributed, and the host
    /// has resolved the owner's address.
    pub open spec fn distribute_assets_resolved(self, owner: ResolvedView, now: nat) -> Outcome {
        match owner {
            Ok(owner) => self.distribute_assets(owner, now),
            Err(why) => self.refused(ErrorView::Std(why)),
        }
    }

    /// The will of `address` as a query shows it.
    pub open spec fn get_will(self, address: Seq<char>, now: nat) -> WillView {
        self.will_of(address, now)
    }

    /// The wills of the owners that stand under `address` in the index.
    pub open spec fn see_memberships(self, address: Seq<char>, now: nat) -> Seq<WillView> {
        if self.memberships.contains_key(address) {
            self.memberships[address].map_values(|owner: Seq<char>| self.will_of(owner, now))
        } else {
            Seq::empty()
        }
    }

    /// The will of an address that the host has resolved.
    pub open spec fn get_will_resolved(self, address: ResolvedView, now: nat) -> Result<
        WillView,
        ErrorView,
    > {
        match address {
            Ok(address) => Ok(self.get_will(address, now)),
            Err(why) => Err(ErrorView::Std(why)),
        }
    }

    /// The wills that name an address that the host has resolved.
    pub open spec fn see_memberships_resolved(self, address: ResolvedView, now: nat) -> Result<
        Seq<WillView>,
        ErrorView,
    > {
        match address {
            Ok(address) => Ok(self.see_memberships(address, now)),
            Err(why) => Err(ErrorView::Std(why)),
        }
    }
}

} // verus!
