//! Which node a finger is on: decided when it comes down, and kept until it
//! lifts.
use vstd::prelude::*;

verus! {

/// Fingers that are followed at once.
pub const MAX_CONTACTS: usize = 8;

/// The node that a contact is on, by a list of contacts and nodes.
pub open spec fn node_under(entries: Seq<(u32, i32)>, contact: u32) -> Option<i32>
    decreases entries.len(),
{
    if entries.len() == 0 {
        None
    } else if entries[0].0 == contact {
        Some(entries[0].1)
    } else {
        node_under(entries.drop_first(), contact)
    }
}

/// How many contacts of a frame are followed.
pub open spec fn followed(n: int) -> int {
    if n < MAX_CONTACTS {
        n
    } else {
        MAX_CONTACTS as int
    }
}

/// The list after a frame with these contacts, `under` being what lies under
/// each of them now: a contact that was there before stays on its node.
pub open spec fn after_frame(entries: Seq<(u32, i32)>, contacts: Seq<u32>, under: Seq<i32>) -> Seq<
    (u32, i32),
> {
    Seq::new(
        followed(contacts.len() as int) as nat,
        |i: int|
            (
                contacts[i],
                match node_under(entries, contacts[i]) {
                    Some(node) => node,
                    None => under[i],
                },
            ),
    )
}

/// The contacts of the last frame and the nodes they are on.
pub struct HitTable {
    pub entries: Vec<(u32, i32)>,
}

impl View for HitTable {
    type V = Seq<(u32, i32)>;

    open spec fn view(&self) -> Seq<(u32, i32)> {
        self.entries@
    }
}

impl HitTable {
    /// No contact yet.
    pub fn new() -> (t: HitTable)
        ensures
            t@.len() == 0,
    {
        HitTable { entries: Vec::new() }
    }

    fn find(&self, contact: u32) -> (r: Option<i32>)
        ensures
            r == node_under(self@, contact),
    {
        let mut i: usize = 0;
        proof {
            assert(self@.skip(0) =~= self@);
        }
        while i < self.entries.len()
            invariant
                i <= self@.len(),
                node_under(self@.skip(i as int), contact) == node_under(self@, contact),
            decreases self@.len() - i,
        {
            proof {
                assert(self@.skip(i as int).drop_first() =~= self@.skip(i + 1));
            }
            if self.entries[i].0 == contact {
                return Some(self.entries[i].1);
            }
            i = i + 1;
        }
        None
    }

    /// Takes in the contacts of a frame and what lies under each of them, and
    /// returns the nodes they are on.
    pub fn resolve(&mut self, contacts: &[u32], under: &[i32]) -> (nodes: Vec<i32>)
        requires
            contacts@.len() == under@.len(),
        ensures
            final(self)@ == after_frame(old(self)@, contacts@, under@),
            nodes@ =~= final(self)@.map_values(|e: (u32, i32)| e.1),
    {
        let n: usize = if contacts.len() < MAX_CONTACTS {
            contacts.len()
        } else {
            MAX_CONTACTS
        };
        let mut entries: Vec<(u32, i32)> = Vec::new();
        let mut nodes: Vec<i32> = Vec::new();
        let mut i: usize = 0;
        while i < n
            invariant
                n == followed(contacts@.len() as int),
                contacts@.len() == under@.len(),
                self@ == old(self)@,
                i <= n,
                entries@ =~= after_frame(self@, contacts@, under@).take(i as int),
                nodes@ =~= entries@.map_values(|e: (u32, i32)| e.1),
            decreases n - i,
        {
            let node: i32 = match self.find(contacts[i]) {
                Some(v) => v,
                None => under[i],
            };
            entries.push((contacts[i], node));
            nodes.push(node);
            i = i + 1;
        }
        self.entries = entries;
        proof {
            assert(self@ =~= after_frame(old(self)@, contacts@, under@));
        }
        nodes
    }
}

proof fn lemma_node_under_first(entries: Seq<(u32, i32)>, contact: u32, node: i32)
    requires
        exists|i: int| 0 <= i < entries.len() && (#[trigger] entries[i]).0 == contact,
        forall|i: int|
            0 <= i < entries.len() && (#[trigger] entries[i]).0 == contact ==> entries[i].1 == node,
    ensures
        node_under(entries, contact) == Some(node),
    decreases entries.len(),
{
    let i = choose|i: int| 0 <= i < entries.len() && (#[trigger] entries[i]).0 == contact;
    if entries[0].0 == contact {
        assert(entries[0].1 == node);
    } else {
        let rest = entries.drop_first();
        assert(rest[i - 1] == entries[i]);
        assert forall|j: int|
            0 <= j < rest.len() && (#[trigger] rest[j]).0 == contact implies rest[j].1 == node by {
            assert(rest[j] == entries[j + 1]);
        }
        lemma_node_under_first(rest, contact, node);
    }
}

proof fn lemma_node_under_none(entries: Seq<(u32, i32)>, contact: u32)
    requires
        forall|i: int| 0 <= i < entries.len() ==> (#[trigger] entries[i]).0 != contact,
    ensures
        node_under(entries, contact) is None,
    decreases entries.len(),
{
    if entries.len() > 0 {
        let rest = entries.drop_first();
        assert forall|j: int| 0 <= j < rest.len() implies (#[trigger] rest[j]).0 != contact by {
            assert(rest[j] == entries[j + 1]);
        }
        assert(entries[0].0 != contact);
        lemma_node_under_none(rest, contact);
    }
}

/// A contact that stays down stays on its node, wherever it moves.
pub proof fn law_contact_keeps_its_node(
    entries: Seq<(u32, i32)>,
    contacts: Seq<u32>,
    under: Seq<i32>,
    i: int,
    node: i32,
)
    requires
        0 <= i < followed(contacts.len() as int),
        node_under(entries, contacts[i]) == Some(node),
    ensures
        after_frame(entries, contacts, under)[i].1 == node,
        node_under(after_frame(entries, contacts, under), contacts[i]) == Some(node),
{
    let after = after_frame(entries, contacts, under);
    assert(after[i].0 == contacts[i]);
    lemma_node_under_first(after, contacts[i], node);
}

/// A contact that comes down is on what lies under it then.
pub proof fn law_new_contact_is_on_what_is_under_it(
    entries: Seq<(u32, i32)>,
    contacts: Seq<u32>,
    under: Seq<i32>,
    i: int,
)
    requires
        0 <= i < followed(contacts.len() as int),
        node_under(entries, contacts[i]) is None,
    ensures
        after_frame(entries, contacts, under)[i].1 == under[i],
{
}

/// A contact that lifts is forgotten.
pub proof fn law_lifted_contact_is_forgotten(
    entries: Seq<(u32, i32)>,
    contacts: Seq<u32>,
    under: Seq<i32>,
    contact: u32,
)
    requires
        forall|i: int|
            0 <= i < followed(contacts.len() as int) ==> #[trigger] contacts[i] != contact,
    ensures
        node_under(after_frame(entries, contacts, under), contact) is None,
{
    let after = after_frame(entries, contacts, under);
    assert forall|i: int| 0 <= i < after.len() implies (#[trigger] after[i]).0 != contact by {
        assert(contacts[i] != contact);
    }
    lemma_node_under_none(after, contact);
}

/// All contacts of a frame are followed, in their order, up to eight of them.
pub proof fn law_eight_contacts_are_followed(
    entries: Seq<(u32, i32)>,
    contacts: Seq<u32>,
    under: Seq<i32>,
)
    ensures
        ({
            let after = after_frame(entries, contacts, under);
            &&& contacts.len() <= 8 ==> after.len() == contacts.len()
            &&& contacts.len() > 8 ==> after.len() == 8
            &&& forall|i: int| 0 <= i < after.len() ==> (#[trigger] after[i]).0 == contacts[i]
        }),
{
}

/// A contact in a list is on the node that stands beside it first.
pub proof fn law_first_entry_of_a_contact(entries: Seq<(u32, i32)>, i: int)
    requires
        0 <= i < entries.len(),
        forall|j: int| 0 <= j < i ==> (#[trigger] entries[j]).0 != entries[i].0,
    ensures
        node_under(entries, entries[i].0) == Some(entries[i].1),
    decreases i,
{
    if i > 0 {
        let rest = entries.drop_first();
        assert(entries[0].0 != entries[i].0);
        assert(rest[i - 1] == entries[i]);
        assert forall|j: int| 0 <= j < i - 1 implies (#[trigger] rest[j]).0 != rest[i - 1].0 by {
            assert(rest[j] == entries[j + 1]);
        }
        law_first_entry_of_a_contact(rest, i - 1);
    }
}

} // verus!
