//! The index from recipients to owners: how a submission and a distribution
//! change it, and what holds of it afterwards.

use crate::recipients::{lemma_merged_names, lemma_names_push, merged};
use crate::state::{names, RecipientView};
use vstd::prelude::*;

verus! {

/// The index from a recipient to the owners whose wills name it.
pub type IndexView = Map<Seq<char>, Seq<Seq<char>>>;

/// Whether `owner` stands under `recipient` in `index`.
pub open spec fn lists(index: IndexView, recipient: Seq<char>, owner: Seq<char>) -> bool {
    index.contains_key(recipient) && index[recipient].contains(owner)
}

/// Whether `recipient` has an entry in `index` that is free of `owner`.
pub open spec fn clear_of(index: IndexView, recipient: Seq<char>, owner: Seq<char>) -> bool {
    index.contains_key(recipient) && !index[recipient].contains(owner)
}

/// No owner stands twice under a recipient: each entry is a set of owners.
pub open spec fn set_valued(index: IndexView) -> bool {
    forall|recipient: Seq<char>| #[trigger]
        index.contains_key(recipient) ==> index[recipient].no_duplicates()
}

/// Whether two indexes hold the same under `recipient`: both no entry, or
/// both the same entry.
pub open spec fn same_entry(a: IndexView, b: IndexView, recipient: Seq<char>) -> bool {
    &&& a.contains_key(recipient) == b.contains_key(recipient)
    &&& a.contains_key(recipient) ==> a[recipient] == b[recipient]
}

/// Whether an owner is another than `owner`.
pub open spec fn other_than(owner: Seq<char>) -> spec_fn(Seq<char>) -> bool {
    |o: Seq<char>| o != owner
}

/// `index` after `owner` was entered under `recipient`.
pub open spec fn enrolled(index: IndexView, recipient: Seq<char>, owner: Seq<char>) -> IndexView {
    index.insert(
        recipient,
        if index.contains_key(recipient) {
            index[recipient].push(owner)
        } else {
            seq![owner]
        },
    )
}

/// `index` after the merge of `submitted` into `recipients`: `owner` is
/// entered under each address that the merge appended.
pub open spec fn enrolled_all(
    index: IndexView,
    recipients: Seq<RecipientView>,
    submitted: Seq<RecipientView>,
    owner: Seq<char>,
) -> IndexView
    decreases submitted.len(),
{
    if submitted.len() == 0 {
        index
    } else {
        let before = enrolled_all(index, recipients, submitted.drop_last(), owner);
        if names(merged(recipients, submitted.drop_last()), submitted.last().address) {
            before
        } else {
            enrolled(before, submitted.last().address, owner)
        }
    }
}

/// `index` after `owner` was struck from the entry of `recipient`. A recipient
/// without an entry gets an empty one.
pub open spec fn dismissed(index: IndexView, recipient: Seq<char>, owner: Seq<char>) -> IndexView {
    index.insert(
        recipient,
        if index.contains_key(recipient) {
            index[recipient].filter(other_than(owner))
        } else {
            Seq::empty()
        },
    )
}

/// `index` after `owner` was struck from the entry of each of `recipients`.
pub open spec fn dismissed_all(
    index: IndexView,
    recipients: Seq<RecipientView>,
    owner: Seq<char>,
) -> IndexView
    decreases recipients.len(),
{
    if recipients.len() == 0 {
        index
    } else {
        dismissed(
            dismissed_all(index, recipients.drop_last(), owner),
            recipients.last().address,
            owner,
        )
    }
}

/// After an owner was entered under a recipient, the owner stands there,
/// and whoever stood anywhere in the index still does.
pub proof fn lemma_enrolled(
    index: IndexView,
    recipient: Seq<char>,
    owner: Seq<char>,
    r: Seq<char>,
    o: Seq<char>,
)
    ensures
        lists(enrolled(index, recipient, owner), recipient, owner),
        lists(index, r, o) ==> lists(enrolled(index, recipient, owner), r, o),
        lists(enrolled(index, recipient, owner), r, o) ==> lists(index, r, o) || (r == recipient
            && o == owner),
{
    let after = enrolled(index, recipient, owner);
    let entry = after[recipient];
    assert(entry[entry.len() - 1] == owner);
    if lists(index, r, o) && r == recipient {
        let i = choose|i: int| 0 <= i < index[r].len() && index[r][i] == o;
        assert(entry[i] == o);
    }
    if lists(after, r, o) && r == recipient && o != owner {
        let i = choose|i: int| 0 <= i < entry.len() && entry[i] == o;
        assert(index.contains_key(r));
        assert(index[r][i] == o);
    }
}

/// Whoever stood in the index before a merge still does after it.
pub proof fn lemma_enrolled_all_keeps(
    index: IndexView,
    recipients: Seq<RecipientView>,
    submitted: Seq<RecipientView>,
    owner: Seq<char>,
    r: Seq<char>,
    o: Seq<char>,
)
    requires
        lists(index, r, o),
    ensures
        lists(enrolled_all(index, recipients, submitted, owner), r, o),
    decreases submitted.len(),
{
    if submitted.len() > 0 {
        let rest = submitted.drop_last();
        lemma_enrolled_all_keeps(index, recipients, rest, owner, r, o);
        lemma_enrolled(
            enrolled_all(index, recipients, rest, owner),
            submitted.last().address,
            owner,
            r,
            o,
        );
    }
}

/// After a merge, the owner stands under every submitted address that the
/// list did not name before.
pub proof fn lemma_enrolled_all_enters(
    index: IndexView,
    recipients: Seq<RecipientView>,
    submitted: Seq<RecipientView>,
    owner: Seq<char>,
    i: int,
)
    requires
        0 <= i < submitted.len(),
        !names(recipients, submitted[i].address),
    ensures
        lists(enrolled_all(index, recipients, submitted, owner), submitted[i].address, owner),
    decreases submitted.len(),
{
    let rest = submitted.drop_last();
    let last = submitted.last();
    let before = enrolled_all(index, recipients, rest, owner);
    let address = submitted[i].address;
    if i < submitted.len() - 1 {
        lemma_enrolled_all_enters(index, recipients, rest, owner, i);
        lemma_enrolled(before, last.address, owner, address, owner);
    } else if names(merged(recipients, rest), address) {
        lemma_merged_names(recipients, rest, address);
        let j = choose|j: int| 0 <= j < rest.len() && #[trigger] rest[j].address == address;
        lemma_enrolled_all_enters(index, recipients, rest, owner, j);
    } else {
        lemma_enrolled(before, address, owner, address, owner);
    }
}

/// What a merge enters into the index: the owner, under submitted addresses
/// that the list did not name before.
pub proof fn lemma_enrolled_all_only(
    index: IndexView,
    recipients: Seq<RecipientView>,
    submitted: Seq<RecipientView>,
    owner: Seq<char>,
    r: Seq<char>,
    o: Seq<char>,
)
    requires
        lists(enrolled_all(index, recipients, submitted, owner), r, o),
    ensures
        lists(index, r, o) || (o == owner && names(submitted, r) && !names(recipients, r)),
    decreases submitted.len(),
{
    if submitted.len() > 0 {
        let rest = submitted.drop_last();
        let last = submitted.last();
        let before = enrolled_all(index, recipients, rest, owner);
        assert(submitted =~= rest.push(last));
        lemma_names_push(rest, last, r);
        if names(merged(recipients, rest), last.address) {
            lemma_enrolled_all_only(index, recipients, rest, owner, r, o);
        } else {
            lemma_enrolled(before, last.address, owner, r, o);
            if lists(before, r, o) {
                lemma_enrolled_all_only(index, recipients, rest, owner, r, o);
            } else {
                lemma_merged_names(recipients, rest, last.address);
            }
        }
    }
}

/// After an owner was struck from the entry of a recipient, that entry is
/// free of the owner, every entry that was free of the owner still is, and
/// whoever else stood anywhere still does.
pub proof fn lemma_dismissed(
    index: IndexView,
    recipient: Seq<char>,
    owner: Seq<char>,
    r: Seq<char>,
    o: Seq<char>,
)
    ensures
        clear_of(dismissed(index, recipient, owner), recipient, owner),
        clear_of(index, r, owner) ==> clear_of(dismissed(index, recipient, owner), r, owner),
        lists(index, r, o) && o != owner ==> lists(dismissed(index, recipient, owner), r, o),
        lists(dismissed(index, recipient, owner), r, o) ==> lists(index, r, o) && !(r
            == recipient && o == owner),
{
    let after = dismissed(index, recipient, owner);
    let entry = after[recipient];
    if index.contains_key(recipient) {
        let old_entry = index[recipient];
        if entry.contains(owner) {
            let i = choose|i: int| 0 <= i < entry.len() && entry[i] == owner;
            old_entry.lemma_filter_pred(other_than(owner), i);
        }
        if lists(index, r, o) && o != owner && r == recipient {
            let i = choose|i: int| 0 <= i < old_entry.len() && old_entry[i] == o;
            old_entry.lemma_filter_contains(other_than(owner), i);
        }
        if r == recipient && entry.contains(o) {
            old_entry.lemma_filter_contains_rev(other_than(owner), o);
        }
    }
}

/// After an owner was struck from the entries of recipients, each of those
/// entries is free of the owner.
pub proof fn lemma_dismissed_all_clears(
    index: IndexView,
    recipients: Seq<RecipientView>,
    owner: Seq<char>,
    i: int,
)
    requires
        0 <= i < recipients.len(),
    ensures
        clear_of(dismissed_all(index, recipients, owner), recipients[i].address, owner),
    decreases recipients.len(),
{
    let rest = recipients.drop_last();
    let before = dismissed_all(index, rest, owner);
    if i < recipients.len() - 1 {
        lemma_dismissed_all_clears(index, rest, owner, i);
    }
    lemma_dismissed(before, recipients.last().address, owner, recipients[i].address, owner);
}

/// Striking an owner from the entries of recipients removes the owner from
/// those entries and nobody else from any entry.
pub proof fn lemma_dismissed_all_only(
    index: IndexView,
    recipients: Seq<RecipientView>,
    owner: Seq<char>,
    r: Seq<char>,
    o: Seq<char>,
)
    ensures
        lists(dismissed_all(index, recipients, owner), r, o) <==> lists(index, r, o) && !(o
            == owner && names(recipients, r)),
    decreases recipients.len(),
{
    if recipients.len() > 0 {
        let rest = recipients.drop_last();
        let last = recipients.last();
        let before = dismissed_all(index, rest, owner);
        assert(recipients =~= rest.push(last));
        lemma_names_push(rest, last, r);
        lemma_dismissed_all_only(index, rest, owner, r, o);
        lemma_dismissed(before, last.address, owner, r, o);
    } else {
        assert(!names(recipients, r));
    }
}

/// What is left of a list without repetitions has none.
pub proof fn lemma_filter_keeps_distinct(owners: Seq<Seq<char>>, owner: Seq<char>)
    requires
        owners.no_duplicates(),
    ensures
        owners.filter(other_than(owner)).no_duplicates(),
    decreases owners.len(),
{
    if owners.len() == 0 {
        owners.lemma_filter_len(other_than(owner));
    } else {
        let rest = owners.drop_last();
        let last = owners.last();
        let kept = rest.filter(other_than(owner));
        assert(owners =~= rest.push(last));
        rest.lemma_filter_push(last, other_than(owner));
        lemma_filter_keeps_distinct(rest, owner);
        if kept.contains(last) {
            rest.lemma_filter_contains_rev(other_than(owner), last);
            let i = choose|i: int| 0 <= i < rest.len() && rest[i] == last;
            assert(owners[i] == owners[owners.len() - 1]);
        }
    }
}

/// Entering an owner where the owner does not stand yet keeps every entry
/// a set.
pub proof fn lemma_enrolled_set(index: IndexView, recipient: Seq<char>, owner: Seq<char>)
    requires
        set_valued(index),
        !lists(index, recipient, owner),
    ensures
        set_valued(enrolled(index, recipient, owner)),
{
    let after = enrolled(index, recipient, owner);
    assert forall|r: Seq<char>| #[trigger]
        after.contains_key(r) implies after[r].no_duplicates() by {
        if r != recipient {
            assert(index.contains_key(r));
        } else if index.contains_key(recipient) {
            let entry = index[recipient];
            assert forall|i: int| 0 <= i < entry.len() implies entry[i] != owner by {
                if entry[i] == owner {
                    assert(entry.contains(owner));
                }
            }
        }
    }
}

/// Striking an owner keeps every entry a set.
pub proof fn lemma_dismissed_set(index: IndexView, recipient: Seq<char>, owner: Seq<char>)
    requires
        set_valued(index),
    ensures
        set_valued(dismissed(index, recipient, owner)),
{
    let after = dismissed(index, recipient, owner);
    assert forall|r: Seq<char>| #[trigger]
        after.contains_key(r) implies after[r].no_duplicates() by {
        if r != recipient {
            assert(index.contains_key(r));
        } else if index.contains_key(recipient) {
            lemma_filter_keeps_distinct(index[recipient], owner);
        }
    }
}

/// Striking an owner from the entries of recipients keeps every entry a set.
pub proof fn lemma_dismissed_all_set(
    index: IndexView,
    recipients: Seq<RecipientView>,
    owner: Seq<char>,
)
    requires
        set_valued(index),
    ensures
        set_valued(dismissed_all(index, recipients, owner)),
    decreases recipients.len(),
{
    if recipients.len() > 0 {
        lemma_dismissed_all_set(index, recipients.drop_last(), owner);
        lemma_dismissed_set(
            dismissed_all(index, recipients.drop_last(), owner),
            recipients.last().address,
            owner,
        );
    }
}

/// A merge keeps every entry a set, where the owner stood only under
/// addresses that the list named.
pub proof fn lemma_enrolled_all_set(
    index: IndexView,
    recipients: Seq<RecipientView>,
    submitted: Seq<RecipientView>,
    owner: Seq<char>,
)
    requires
        set_valued(index),
        forall|r: Seq<char>| #[trigger] lists(index, r, owner) ==> names(recipients, r),
    ensures
        set_valued(enrolled_all(index, recipients, submitted, owner)),
    decreases submitted.len(),
{
    if submitted.len() > 0 {
        let rest = submitted.drop_last();
        let last = submitted.last();
        let before = enrolled_all(index, recipients, rest, owner);
        lemma_enrolled_all_set(index, recipients, rest, owner);
        if !names(merged(recipients, rest), last.address) {
            lemma_merged_names(recipients, rest, last.address);
            if lists(before, last.address, owner) {
                lemma_enrolled_all_only(index, recipients, rest, owner, last.address, owner);
            }
            lemma_enrolled_set(before, last.address, owner);
        }
    }
}

/// What a merge leaves under a recipient depends on what stood under that
/// recipient, and on nothing else in the index.
pub proof fn lemma_enrolled_all_local(
    a: IndexView,
    b: IndexView,
    recipients: Seq<RecipientView>,
    submitted: Seq<RecipientView>,
    owner: Seq<char>,
    r: Seq<char>,
)
    requires
        same_entry(a, b, r),
    ensures
        same_entry(
            enrolled_all(a, recipients, submitted, owner),
            enrolled_all(b, recipients, submitted, owner),
            r,
        ),
    decreases submitted.len(),
{
    if submitted.len() > 0 {
        lemma_enrolled_all_local(a, b, recipients, submitted.drop_last(), owner, r);
    }
}

/// A merge leaves alone what stands under the recipients that the
/// submission does not name.
pub proof fn lemma_enrolled_all_elsewhere(
    index: IndexView,
    recipients: Seq<RecipientView>,
    submitted: Seq<RecipientView>,
    owner: Seq<char>,
    r: Seq<char>,
)
    requires
        !names(submitted, r),
    ensures
        same_entry(enrolled_all(index, recipients, submitted, owner), index, r),
    decreases submitted.len(),
{
    if submitted.len() > 0 {
        let rest = submitted.drop_last();
        assert(submitted =~= rest.push(submitted.last()));
        lemma_names_push(rest, submitted.last(), r);
        lemma_enrolled_all_elsewhere(index, recipients, rest, owner, r);
    }
}

/// What striking an owner leaves under a recipient depends on what stood
/// under that recipient, and on nothing else in the index.
pub proof fn lemma_dismissed_all_local(
    a: IndexView,
    b: IndexView,
    recipients: Seq<RecipientView>,
    owner: Seq<char>,
    r: Seq<char>,
)
    requires
        same_entry(a, b, r),
    ensures
        same_entry(dismissed_all(a, recipients, owner), dismissed_all(b, recipients, owner), r),
    decreases recipients.len(),
{
    if recipients.len() > 0 {
        lemma_dismissed_all_local(a, b, recipients.drop_last(), owner, r);
    }
}

/// Striking an owner from the entries of recipients leaves alone what
/// stands under any other recipient.
pub proof fn lemma_dismissed_all_elsewhere(
    index: IndexView,
    recipients: Seq<RecipientView>,
    owner: Seq<char>,
    r: Seq<char>,
)
    requires
        !names(recipients, r),
    ensures
        same_entry(dismissed_all(index, recipients, owner), index, r),
    decreases recipients.len(),
{
    if recipients.len() > 0 {
        let rest = recipients.drop_last();
        assert(recipients =~= rest.push(recipients.last()));
        lemma_names_push(rest, recipients.last(), r);
        lemma_dismissed_all_elsewhere(index, rest, owner, r);
    }
}

} // verus!
