//! Recipient lists: accepting a submission and merging it into a will.

use crate::error::{ContractError, ErrorView};
use crate::state::{
    bounded_shares, distinct_addresses, names, total_percentage, Recipient, RecipientView,
    UnparsedRecipient,
};
use vstd::prelude::*;

verus! {

/// What the host made of an address text when it resolved it: the address, or
/// the text of the host's refusal.
pub type ResolvedView = Result<Seq<char>, Seq<char>>;

/// A submitted recipient after the host resolved its address: the recipient
/// under its resolved address, or the text of the host's refusal.
pub type EntryView = Result<RecipientView, Seq<char>>;

/// The refusal of the first entry whose address the host did not resolve.
pub open spec fn first_refusal(entries: Seq<EntryView>) -> Option<Seq<char>>
    decreases entries.len(),
{
    if entries.len() == 0 {
        None
    } else {
        match first_refusal(entries.drop_last()) {
            Some(why) => Some(why),
            None => match entries.last() {
                Ok(_) => None,
                Err(why) => Some(why),
            },
        }
    }
}

/// The recipients of entries that were all resolved.
pub open spec fn resolved_recipients(entries: Seq<EntryView>) -> Seq<RecipientView> {
    entries.map_values(|entry: EntryView| entry->Ok_0)
}

/// `recipients` with the share of `address` set to `percentage` wherever the
/// address is named.
pub open spec fn reassigned(
    recipients: Seq<RecipientView>,
    address: Seq<char>,
    percentage: nat,
) -> Seq<RecipientView> {
    recipients.map_values(
        |r: RecipientView|
            if r.address == address {
                RecipientView { address, percentage }
            } else {
                r
            },
    )
}

/// `recipients` after `entry` was merged in: a named address gets the new
/// share in place, an unnamed one is appended.
pub open spec fn merged_one(recipients: Seq<RecipientView>, entry: RecipientView) -> Seq<
    RecipientView,
> {
    if names(recipients, entry.address) {
        reassigned(recipients, entry.address, entry.percentage)
    } else {
        recipients.push(entry)
    }
}

/// `recipients` after every entry of `submitted` was merged in, in order.
pub open spec fn merged(recipients: Seq<RecipientView>, submitted: Seq<RecipientView>) -> Seq<
    RecipientView,
>
    decreases submitted.len(),
{
    if submitted.len() == 0 {
        recipients
    } else {
        merged_one(merged(recipients, submitted.drop_last()), submitted.last())
    }
}

/// The sum over a list is at least the sum over any prefix of it.
pub proof fn lemma_total_percentage_prefix(recipients: Seq<RecipientView>, n: int)
    requires
        0 <= n <= recipients.len(),
    ensures
        total_percentage(recipients.take(n)) <= total_percentage(recipients),
    decreases recipients.len(),
{
    if n == recipients.len() {
        assert(recipients.take(n) =~= recipients);
    } else {
        lemma_total_percentage_prefix(recipients.drop_last(), n);
        assert(recipients.drop_last().take(n) =~= recipients.take(n));
    }
}

/// No share exceeds the sum of all shares.
pub proof fn lemma_percentage_within_total(recipients: Seq<RecipientView>, i: int)
    requires
        0 <= i < recipients.len(),
    ensures
        recipients[i].percentage <= total_percentage(recipients),
    decreases recipients.len(),
{
    if i < recipients.len() - 1 {
        lemma_percentage_within_total(recipients.drop_last(), i);
    }
}

/// Merging an entry with a share of at most one hundred keeps each address
/// named once and each share at most one hundred.
pub proof fn lemma_merged_one_wf(recipients: Seq<RecipientView>, entry: RecipientView)
    requires
        distinct_addresses(recipients),
        bounded_shares(recipients),
        entry.percentage <= 100,
    ensures
        distinct_addresses(merged_one(recipients, entry)),
        bounded_shares(merged_one(recipients, entry)),
{
    let after = merged_one(recipients, entry);
    lemma_merged_one_distinct(recipients, entry);
    assert forall|i: int| 0 <= i < after.len() implies #[trigger] after[i].percentage
        <= 100 by {
        if i < recipients.len() {
            assert(recipients[i].percentage <= 100);
        }
    }
}

/// Merging a submission whose shares are at most one hundred each keeps each
/// address named once and each share at most one hundred.
pub proof fn lemma_merged_wf(recipients: Seq<RecipientView>, submitted: Seq<RecipientView>)
    requires
        distinct_addresses(recipients),
        bounded_shares(recipients),
        bounded_shares(submitted),
    ensures
        distinct_addresses(merged(recipients, submitted)),
        bounded_shares(merged(recipients, submitted)),
    decreases submitted.len(),
{
    if submitted.len() > 0 {
        let rest = submitted.drop_last();
        assert forall|i: int| 0 <= i < rest.len() implies #[trigger] rest[i].percentage
            <= 100 by {
            assert(submitted[i].percentage <= 100);
        }
        lemma_merged_wf(recipients, rest);
        assert(submitted.last() == submitted[submitted.len() - 1]);
        assert(submitted[submitted.len() - 1].percentage <= 100);
        lemma_merged_one_wf(merged(recipients, rest), submitted.last());
    }
}

/// Model of an address as the host resolved it.
pub open spec fn resolution(resolved: Result<String, String>) -> ResolvedView {
    match resolved {
        Ok(address) => Ok(address@),
        Err(why) => Err(why@),
    }
}

/// Model of a submitted recipient as the host resolved it.
pub open spec fn entry_view(entry: Result<Recipient, String>) -> EntryView {
    match entry {
        Ok(recipient) => Ok(recipient@),
        Err(why) => Err(why@),
    }
}

/// Model of submitted recipients as the host resolved them.
pub open spec fn entries_view(entries: Seq<Result<Recipient, String>>) -> Seq<EntryView> {
    entries.map_values(|entry: Result<Recipient, String>| entry_view(entry))
}

/// Whether `entry` is what became of `proposed` when `api` resolved its
/// address: the recipient with the same percentage under the address that
/// `api` gave, or the refusal that `api` gave.
pub open spec fn resolved_by<A: Fn(&String) -> Result<String, String>>(
    api: A,
    proposed: UnparsedRecipient,
    entry: Result<Recipient, String>,
) -> bool {
    match entry {
        Ok(recipient) => recipient.percentage == proposed.percentage && call_ensures(
            api,
            (&proposed.address,),
            Ok::<String, String>(recipient.address),
        ),
        Err(why) => call_ensures(api, (&proposed.address,), Err::<String, String>(why)),
    }
}

/// Whether `entries` are what became of `proposed`, entry for entry, when
/// `api` resolved the addresses.
pub open spec fn all_resolved_by<A: Fn(&String) -> Result<String, String>>(
    api: A,
    proposed: Seq<UnparsedRecipient>,
    entries: Seq<Result<Recipient, String>>,
) -> bool {
    &&& entries.len() == proposed.len()
    &&& forall|i: int|
        0 <= i < entries.len() ==> resolved_by(api, proposed[i], #[trigger] entries[i])
}

/// What becomes of resolved entries: the first refusal of the host;
/// without one, the recipients where their percentages add up to one
/// hundred, and the refusal of the submission where they do not.
pub open spec fn acceptance(entries: Seq<EntryView>) -> Result<Seq<RecipientView>, ErrorView> {
    match first_refusal(entries) {
        Some(why) => Err(ErrorView::Std(why)),
        None => if total_percentage(resolved_recipients(entries)) == 100 {
            Ok(resolved_recipients(entries))
        } else {
            Err(ErrorView::InvalidRecipients)
        },
    }
}

/// Has `api` resolve the address of each proposed recipient.
pub fn resolve_recipients<A: Fn(&String) -> Result<String, String>>(
    api: &A,
    proposed: &Vec<UnparsedRecipient>,
) -> (entries: Vec<Result<Recipient, String>>)
    requires
        forall|text: &String| call_requires(*api, (text,)),
    ensures
        all_resolved_by(*api, proposed@, entries@),
{
    let mut entries: Vec<Result<Recipient, String>> = Vec::new();
    let mut i: usize = 0;
    while i < proposed.len()
        invariant
            i <= proposed.len(),
            forall|text: &String| call_requires(*api, (text,)),
            entries.len() == i,
            forall|j: int| 0 <= j < i ==> resolved_by(*api, proposed[j], #[trigger] entries[j]),
        decreases proposed.len() - i,
    {
        let entry = match api(&proposed[i].address) {
            Ok(address) => Ok(Recipient { address, percentage: proposed[i].percentage }),
            Err(why) => Err(why),
        };
        entries.push(entry);
        i += 1;
    }
    entries
}

/// Decides on resolved entries: the first refusal of the host is handed on;
/// without one, the entries are accepted exactly if their percentages add
/// up to one hundred.
pub fn accept_recipients(entries: &Vec<Result<Recipient, String>>) -> (res: Result<
    Vec<Recipient>,
    ContractError,
>)
    ensures
        match res {
            Ok(accepted) => acceptance(entries_view(entries@)) == Ok::<
                Seq<RecipientView>,
                ErrorView,
            >(accepted.deep_view()),
            Err(e) => acceptance(entries_view(entries@)) == Err::<
                Seq<RecipientView>,
                ErrorView,
            >(e@),
        },
{
    let ghost all = entries_view(entries@);
    let mut resolved: Vec<Recipient> = Vec::new();
    let mut i: usize = 0;
    assert(all.take(0) =~= Seq::<EntryView>::empty());
    assert(resolved.deep_view() =~= resolved_recipients(all.take(0)));
    while i < entries.len()
        invariant
            i <= entries.len(),
            all == entries_view(entries@),
            first_refusal(all.take(i as int)) is None,
            resolved.deep_view() == resolved_recipients(all.take(i as int)),
        decreases entries.len() - i,
    {
        proof {
            assert(all.take(i as int + 1).drop_last() =~= all.take(i as int));
            assert(all.take(i as int + 1).last() == entry_view(entries[i as int]));
        }
        match &entries[i] {
            Ok(recipient) => {
                let ghost before = resolved.deep_view();
                resolved.push(recipient.clone());
                assert(resolved.deep_view() =~= before.push(recipient@));
                assert(resolved_recipients(all.take(i as int + 1)) =~= before.push(recipient@));
            },
            Err(why) => {
                proof {
                    lemma_first_refusal_stays(all, i as int + 1);
                }
                return Err(ContractError::Std(why.clone()));
            },
        }
        i += 1;
    }
    assert(all.take(entries.len() as int) =~= all);
    let ghost submitted = resolved.deep_view();
    let mut sum: u128 = 0;
    let mut k: usize = 0;
    assert(submitted.take(0) =~= Seq::<RecipientView>::empty());
    while k < resolved.len()
        invariant
            k <= resolved.len(),
            submitted == resolved.deep_view(),
            all == entries_view(entries@),
            first_refusal(all) is None,
            submitted == resolved_recipients(all),
            sum == total_percentage(submitted.take(k as int)),
            sum <= 100,
        decreases resolved.len() - k,
    {
        let percentage: u128 = resolved[k].percentage;
        proof {
            assert(submitted.take(k as int + 1).drop_last() =~= submitted.take(k as int));
            assert(submitted.take(k as int + 1).last() == resolved[k as int]@);
        }
        if percentage > 100 - sum {
            proof {
                lemma_total_percentage_prefix(submitted, k as int + 1);
            }
            return Err(ContractError::InvalidRecipients {  });
        }
        sum = sum + percentage;
        k += 1;
    }
    assert(submitted.take(resolved.len() as int) =~= submitted);
    if sum != 100 {
        return Err(ContractError::InvalidRecipients {  });
    }
    Ok(resolved)
}

/// A refusal met at some point is the first refusal of the whole.
pub proof fn lemma_first_refusal_stays(entries: Seq<EntryView>, n: int)
    requires
        0 <= n <= entries.len(),
        first_refusal(entries.take(n)) is Some,
    ensures
        first_refusal(entries) == first_refusal(entries.take(n)),
    decreases entries.len(),
{
    if n == entries.len() {
        assert(entries.take(n) =~= entries);
    } else {
        assert(entries.drop_last().take(n) =~= entries.take(n));
        lemma_first_refusal_stays(entries.drop_last(), n);
    }
}

/// Has `api` resolve the address of each proposed recipient, and decides on
/// what comes back: the first refusal of the host is handed on; without one, the
/// submission is accepted exactly if its percentages add up to one hundred.
pub fn validate_recipients<A: Fn(&String) -> Result<String, String>>(
    api: &A,
    proposed: &Vec<UnparsedRecipient>,
) -> (res: Result<Vec<Recipient>, ContractError>)
    requires
        forall|text: &String| call_requires(*api, (text,)),
    ensures
        exists|entries: Seq<Result<Recipient, String>>|
            all_resolved_by(*api, proposed@, entries) && match res {
                Ok(accepted) => acceptance(entries_view(entries)) == Ok::<
                    Seq<RecipientView>,
                    ErrorView,
                >(accepted.deep_view()),
                Err(e) => acceptance(entries_view(entries)) == Err::<Seq<RecipientView>, ErrorView>(
                    e@,
                ),
            },
{
    let entries = resolve_recipients(api, proposed);
    accept_recipients(&entries)
}

/// Merges `entry` into `recipients`, and tells whether its address was new.
pub fn merge_one(recipients: &mut Vec<Recipient>, entry: &Recipient) -> (added: bool)
    ensures
        final(recipients).deep_view() == merged_one(old(recipients).deep_view(), entry@),
        added == !names(old(recipients).deep_view(), entry@.address),
{
    let ghost before = recipients.deep_view();
    let mut found = false;
    let mut i: usize = 0;
    while i < recipients.len()
        invariant
            i <= recipients.len(),
            before == old(recipients).deep_view(),
            recipients.len() == before.len(),
            found == names(before.take(i as int), entry@.address),
            forall|j: int|
                0 <= j < i ==> recipients.deep_view()[j] == reassigned(
                    before,
                    entry@.address,
                    entry@.percentage,
                )[j],
            forall|j: int| i <= j < before.len() ==> recipients.deep_view()[j] == before[j],
        decreases recipients.len() - i,
    {
        let ghost seen = before.take(i as int);
        let ghost next = before.take(i as int + 1);
        let ghost here = recipients.deep_view();
        assert(here[i as int] == before[i as int]);
        if recipients[i].address == entry.address {
            recipients.set(
                i,
                Recipient { address: entry.address.clone(), percentage: entry.percentage },
            );
            found = true;
            assert(next[i as int].address == entry@.address);
        } else {
            proof {
                if names(next, entry@.address) {
                    let j = choose|j: int|
                        0 <= j < next.len() && #[trigger] next[j].address == entry@.address;
                    assert(seen[j].address == entry@.address);
                }
            }
        }
        proof {
            if names(seen, entry@.address) {
                let j = choose|j: int|
                    0 <= j < seen.len() && #[trigger] seen[j].address == entry@.address;
                assert(next[j].address == entry@.address);
            }
            assert forall|j: int| 0 <= j < i + 1 implies recipients.deep_view()[j]
                == reassigned(before, entry@.address, entry@.percentage)[j] by {
                if j < i {
                    assert(recipients.deep_view()[j] == here[j]);
                }
            }
            assert forall|j: int| i + 1 <= j < before.len() implies recipients.deep_view()[j]
                == before[j] by {
                assert(recipients.deep_view()[j] == here[j]);
            }
        }
        i += 1;
    }
    assert(before.take(before.len() as int) =~= before);
    let ghost mid = recipients.deep_view();
    if !found {
        proof {
            assert forall|j: int| 0 <= j < before.len() implies mid[j] == before[j] by {
                assert(before[j].address != entry@.address);
                assert(mid[j] == reassigned(before, entry@.address, entry@.percentage)[j]);
            }
            assert(mid =~= before);
        }
        recipients.push(entry.clone());
        assert(recipients.deep_view() =~= before.push(entry@));
    } else {
        assert(mid =~= reassigned(before, entry@.address, entry@.percentage));
    }
    !found
}

/// The share that `recipients` hold under `address`: zero where the address
/// is not named.
pub open spec fn held(recipients: Seq<RecipientView>, address: Seq<char>) -> nat
    decreases recipients.len(),
{
    if recipients.len() == 0 {
        0
    } else {
        held(recipients.drop_last(), address) + if recipients.last().address == address {
            recipients.last().percentage
        } else {
            0
        }
    }
}

/// What the merge of `submitted` into `recipients` displaced: for each
/// entry, the share that stood under its address when it was merged.
pub open spec fn displaced(recipients: Seq<RecipientView>, submitted: Seq<RecipientView>) -> nat
    decreases submitted.len(),
{
    if submitted.len() == 0 {
        0
    } else {
        displaced(recipients, submitted.drop_last()) + held(
            merged(recipients, submitted.drop_last()),
            submitted.last().address,
        )
    }
}

/// The shares of `recipients` that `submitted` leaves alone: those of the
/// addresses that it does not name.
pub open spec fn uncovered(recipients: Seq<RecipientView>, submitted: Seq<RecipientView>) -> nat
    decreases recipients.len(),
{
    if recipients.len() == 0 {
        0
    } else {
        uncovered(recipients.drop_last(), submitted) + if names(
            submitted,
            recipients.last().address,
        ) {
            0
        } else {
            recipients.last().percentage
        }
    }
}

/// An address is named in a list with one entry more exactly if it is named
/// before or by that entry.
pub proof fn lemma_names_push(
    recipients: Seq<RecipientView>,
    entry: RecipientView,
    address: Seq<char>,
)
    ensures
        names(recipients.push(entry), address) == (names(recipients, address) || entry.address
            == address),
{
    let longer = recipients.push(entry);
    if names(recipients, address) {
        let i = choose|i: int|
            0 <= i < recipients.len() && #[trigger] recipients[i].address == address;
        assert(longer[i].address == address);
    }
    if entry.address == address {
        assert(longer[recipients.len() as int].address == address);
    }
    if names(longer, address) {
        let i = choose|i: int| 0 <= i < longer.len() && #[trigger] longer[i].address == address;
        if i < recipients.len() {
            assert(recipients[i].address == address);
        }
    }
}

/// An address that is not named holds no share, and giving it a share
/// changes nothing.
pub proof fn lemma_unnamed(recipients: Seq<RecipientView>, address: Seq<char>, percentage: nat)
    requires
        !names(recipients, address),
    ensures
        held(recipients, address) == 0,
        reassigned(recipients, address, percentage) == recipients,
    decreases recipients.len(),
{
    if recipients.len() > 0 {
        let rest = recipients.drop_last();
        assert(recipients =~= rest.push(recipients.last()));
        lemma_names_push(rest, recipients.last(), address);
        lemma_unnamed(rest, address, percentage);
    }
    assert forall|i: int| 0 <= i < recipients.len() implies reassigned(
        recipients,
        address,
        percentage,
    )[i] == recipients[i] by {
        assert(recipients[i].address != address);
    }
    assert(reassigned(recipients, address, percentage) =~= recipients);
}

/// Giving a named address a share changes the sum of the shares by the
/// difference to the share that the address held.
pub proof fn lemma_reassigned_total(
    recipients: Seq<RecipientView>,
    address: Seq<char>,
    percentage: nat,
)
    requires
        distinct_addresses(recipients),
        names(recipients, address),
    ensures
        total_percentage(reassigned(recipients, address, percentage)) + held(recipients, address)
            == total_percentage(recipients) + percentage,
    decreases recipients.len(),
{
    let rest = recipients.drop_last();
    let last = recipients.last();
    let after = reassigned(recipients, address, percentage);
    assert(recipients =~= rest.push(last));
    assert(after.drop_last() =~= reassigned(rest, address, percentage));
    lemma_names_push(rest, last, address);
    if last.address == address {
        if names(rest, address) {
            let i = choose|i: int| 0 <= i < rest.len() && #[trigger] rest[i].address == address;
            assert(recipients[i].address == recipients[recipients.len() - 1].address);
        }
        lemma_unnamed(rest, address, percentage);
    } else {
        lemma_reassigned_total(rest, address, percentage);
    }
}

/// Merging an entry changes the sum of the shares by the difference between
/// the entry's share and the share that stood under its address.
pub proof fn lemma_merged_one_total(recipients: Seq<RecipientView>, entry: RecipientView)
    requires
        distinct_addresses(recipients),
    ensures
        total_percentage(merged_one(recipients, entry)) + held(recipients, entry.address)
            == total_percentage(recipients) + entry.percentage,
{
    if names(recipients, entry.address) {
        lemma_reassigned_total(recipients, entry.address, entry.percentage);
    } else {
        lemma_unnamed(recipients, entry.address, entry.percentage);
        assert(recipients.push(entry).drop_last() =~= recipients);
    }
}

/// Merging an entry keeps each address named once.
pub proof fn lemma_merged_one_distinct(recipients: Seq<RecipientView>, entry: RecipientView)
    requires
        distinct_addresses(recipients),
    ensures
        distinct_addresses(merged_one(recipients, entry)),
{
    let after = merged_one(recipients, entry);
    if names(recipients, entry.address) {
        assert forall|i: int, j: int| 0 <= i < j < after.len() implies after[i].address
            != after[j].address by {
            assert(after[i].address == recipients[i].address);
            assert(after[j].address == recipients[j].address);
        }
    } else {
        assert forall|i: int, j: int| 0 <= i < j < after.len() implies after[i].address
            != after[j].address by {
            assert(recipients[i].address != entry.address);
        }
    }
}

/// Merging a submission keeps each address named once.
pub proof fn lemma_merged_distinct(recipients: Seq<RecipientView>, submitted: Seq<RecipientView>)
    requires
        distinct_addresses(recipients),
    ensures
        distinct_addresses(merged(recipients, submitted)),
    decreases submitted.len(),
{
    if submitted.len() > 0 {
        lemma_merged_distinct(recipients, submitted.drop_last());
        lemma_merged_one_distinct(merged(recipients, submitted.drop_last()), submitted.last());
    }
}

/// The merged list names the addresses that the list named before and
/// those of the entry, and no others.
pub proof fn lemma_merged_one_names(
    recipients: Seq<RecipientView>,
    entry: RecipientView,
    address: Seq<char>,
)
    ensures
        names(merged_one(recipients, entry), address) == (names(recipients, address)
            || entry.address == address),
{
    let after = merged_one(recipients, entry);
    if names(recipients, entry.address) {
        if names(recipients, address) {
            let i = choose|i: int|
                0 <= i < recipients.len() && #[trigger] recipients[i].address == address;
            assert(after[i].address == address);
        }
        if names(after, address) {
            let i = choose|i: int| 0 <= i < after.len() && #[trigger] after[i].address == address;
            assert(recipients[i].address == address);
        }
    } else {
        lemma_names_push(recipients, entry, address);
    }
}

/// The merged list names the addresses that the list named before and
/// those of the submission, and no others.
pub proof fn lemma_merged_names(
    recipients: Seq<RecipientView>,
    submitted: Seq<RecipientView>,
    address: Seq<char>,
)
    ensures
        names(merged(recipients, submitted), address) == (names(recipients, address) || names(
            submitted,
            address,
        )),
    decreases submitted.len(),
{
    if submitted.len() > 0 {
        let rest = submitted.drop_last();
        assert(submitted =~= rest.push(submitted.last()));
        lemma_merged_names(recipients, rest, address);
        lemma_merged_one_names(merged(recipients, rest), submitted.last(), address);
        lemma_names_push(rest, submitted.last(), address);
    } else {
        assert(!names(submitted, address));
    }
}

/// Merging an entry leaves the shares under other addresses as they were.
pub proof fn lemma_merged_one_held(
    recipients: Seq<RecipientView>,
    entry: RecipientView,
    address: Seq<char>,
)
    requires
        entry.address != address,
    ensures
        held(merged_one(recipients, entry), address) == held(recipients, address),
{
    if names(recipients, entry.address) {
        lemma_reassigned_held(recipients, entry.address, entry.percentage, address);
    } else {
        assert(recipients.push(entry).drop_last() =~= recipients);
    }
}

/// Giving an address a share leaves the shares under other addresses as
/// they were.
pub proof fn lemma_reassigned_held(
    recipients: Seq<RecipientView>,
    changed: Seq<char>,
    percentage: nat,
    address: Seq<char>,
)
    requires
        changed != address,
    ensures
        held(reassigned(recipients, changed, percentage), address) == held(recipients, address),
    decreases recipients.len(),
{
    if recipients.len() > 0 {
        let rest = recipients.drop_last();
        assert(reassigned(recipients, changed, percentage).drop_last() =~= reassigned(
            rest,
            changed,
            percentage,
        ));
        lemma_reassigned_held(rest, changed, percentage, address);
    }
}

/// Merging a submission leaves the shares under the addresses that it does
/// not name as they were.
pub proof fn lemma_merged_held(
    recipients: Seq<RecipientView>,
    submitted: Seq<RecipientView>,
    address: Seq<char>,
)
    requires
        !names(submitted, address),
    ensures
        held(merged(recipients, submitted), address) == held(recipients, address),
    decreases submitted.len(),
{
    if submitted.len() > 0 {
        let rest = submitted.drop_last();
        assert(submitted =~= rest.push(submitted.last()));
        lemma_names_push(rest, submitted.last(), address);
        lemma_merged_held(recipients, rest, address);
        lemma_merged_one_held(merged(recipients, rest), submitted.last(), address);
    }
}

/// A submission that grows by an entry whose address it did not name
/// covers what stood under that address, and nothing more.
pub proof fn lemma_uncovered_push(
    recipients: Seq<RecipientView>,
    submitted: Seq<RecipientView>,
    entry: RecipientView,
)
    requires
        !names(submitted, entry.address),
    ensures
        uncovered(recipients, submitted.push(entry)) + held(recipients, entry.address)
            == uncovered(recipients, submitted),
    decreases recipients.len(),
{
    if recipients.len() > 0 {
        lemma_uncovered_push(recipients.drop_last(), submitted, entry);
        lemma_names_push(submitted, entry, recipients.last().address);
    }
}

/// The empty submission leaves every share alone.
pub proof fn lemma_uncovered_by_nothing(recipients: Seq<RecipientView>)
    ensures
        uncovered(recipients, Seq::empty()) == total_percentage(recipients),
    decreases recipients.len(),
{
    if recipients.len() > 0 {
        lemma_uncovered_by_nothing(recipients.drop_last());
        assert(!names(Seq::<RecipientView>::empty(), recipients.last().address));
    }
}

/// A submission that names every address of the list leaves no share alone.
pub proof fn lemma_all_covered(recipients: Seq<RecipientView>, submitted: Seq<RecipientView>)
    requires
        forall|i: int|
            0 <= i < recipients.len() ==> names(submitted, #[trigger] recipients[i].address),
    ensures
        uncovered(recipients, submitted) == 0,
    decreases recipients.len(),
{
    if recipients.len() > 0 {
        let rest = recipients.drop_last();
        assert forall|i: int| 0 <= i < rest.len() implies names(
            submitted,
            #[trigger] rest[i].address,
        ) by {
            assert(rest[i].address == recipients[i].address);
        }
        lemma_all_covered(rest, submitted);
        assert(recipients.last().address == recipients[recipients.len() - 1].address);
    }
}

/// The sum of the shares after a merge: the old sum and the sum of the
/// submission, less what the merge displaced.
pub proof fn lemma_merged_total(recipients: Seq<RecipientView>, submitted: Seq<RecipientView>)
    requires
        distinct_addresses(recipients),
    ensures
        total_percentage(merged(recipients, submitted)) + displaced(recipients, submitted)
            == total_percentage(recipients) + total_percentage(submitted),
    decreases submitted.len(),
{
    if submitted.len() > 0 {
        let rest = submitted.drop_last();
        lemma_merged_total(recipients, rest);
        lemma_merged_distinct(recipients, rest);
        lemma_merged_one_total(merged(recipients, rest), submitted.last());
    }
}

/// The sum of the shares after the merge of a submission that names no
/// address twice: the sum of the submission and the shares that it leaves
/// alone.
pub proof fn lemma_merged_total_distinct(
    recipients: Seq<RecipientView>,
    submitted: Seq<RecipientView>,
)
    requires
        distinct_addresses(recipients),
        distinct_addresses(submitted),
    ensures
        total_percentage(merged(recipients, submitted)) == total_percentage(submitted)
            + uncovered(recipients, submitted),
    decreases submitted.len(),
{
    if submitted.len() == 0 {
        assert(submitted =~= Seq::empty());
        lemma_uncovered_by_nothing(recipients);
    } else {
        let rest = submitted.drop_last();
        let last = submitted.last();
        assert(submitted =~= rest.push(last));
        if names(rest, last.address) {
            let i = choose|i: int| 0 <= i < rest.len() && #[trigger] rest[i].address
                == last.address;
            assert(submitted[i].address == submitted[submitted.len() - 1].address);
        }
        lemma_merged_total_distinct(recipients, rest);
        lemma_merged_distinct(recipients, rest);
        lemma_merged_one_total(merged(recipients, rest), last);
        lemma_merged_held(recipients, rest, last.address);
        lemma_uncovered_push(recipients, rest, last);
    }
}

} // verus!
