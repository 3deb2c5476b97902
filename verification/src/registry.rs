//! The connection registry: which peers are connected, and the handle on
//! which each of them is written to.

use crate::addr::PeerAddr;
use vstd::prelude::*;

verus! {

/// `order` without `addr`.
pub open spec fn without(order: Seq<PeerAddr>, addr: PeerAddr) -> Seq<PeerAddr> {
    if order.contains(addr) {
        order.remove(order.index_of(addr))
    } else {
        order
    }
}

/// One call on a registry.
pub enum RegistryOp<H> {
    /// `register` of the address with the handle.
    Register(PeerAddr, H),
    /// `unregister` of the address.
    Unregister(PeerAddr),
}

/// The map of a registry that started empty and took the calls `ops`, in
/// order, none of them turned down for want of a connection number.
pub open spec fn replay<H>(ops: Seq<RegistryOp<H>>) -> Map<PeerAddr, H>
    decreases ops.len(),
{
    if ops.len() == 0 {
        Map::empty()
    } else {
        match ops.last() {
            RegistryOp::Register(addr, handle) => replay(ops.drop_last()).insert(addr, handle),
            RegistryOp::Unregister(addr) => replay(ops.drop_last()).remove(addr),
        }
    }
}

/// Whether call `i` of `ops` registers `addr` and no later call
/// unregisters it.
pub open spec fn registers_for_good<H>(ops: Seq<RegistryOp<H>>, i: int, addr: PeerAddr) -> bool {
    &&& 0 <= i < ops.len()
    &&& ops[i] matches RegistryOp::Register(a, _)
    &&& a == addr
    &&& forall|j: int| i < j < ops.len() ==> ops[j] != RegistryOp::<H>::Unregister(addr)
}

/// Whether the call `op` is about `addr`.
pub open spec fn concerns<H>(op: RegistryOp<H>, addr: PeerAddr) -> bool {
    match op {
        RegistryOp::Register(a, _) => a == addr,
        RegistryOp::Unregister(a) => a == addr,
    }
}

proof fn lemma_registers_for_good_prefix<H>(ops: Seq<RegistryOp<H>>, i: int, addr: PeerAddr)
    requires
        ops.len() > 0,
        0 <= i < ops.len() - 1,
    ensures
        registers_for_good(ops, i, addr) <==> registers_for_good(ops.drop_last(), i, addr)
            && ops.last() != RegistryOp::<H>::Unregister(addr),
{
    let before = ops.drop_last();
    assert(before[i] == ops[i]);
    if registers_for_good(ops, i, addr) {
        assert forall|j: int| i < j < before.len() implies before[j] != RegistryOp::<
            H,
        >::Unregister(addr) by {
            assert(before[j] == ops[j]);
        }
    }
    if registers_for_good(before, i, addr) && ops.last() != RegistryOp::<H>::Unregister(addr) {
        assert forall|j: int| i < j < ops.len() implies ops[j] != RegistryOp::<H>::Unregister(
            addr,
        ) by {
            if j < ops.len() - 1 {
                assert(before[j] == ops[j]);
            }
        }
    }
}

/// After any sequence of calls, the registry holds exactly the addresses
/// that were registered and not unregistered since.
pub proof fn lemma_replay<H>(ops: Seq<RegistryOp<H>>, addr: PeerAddr)
    ensures
        replay(ops).contains_key(addr) <==> exists|i: int| registers_for_good(ops, i, addr),
    decreases ops.len(),
{
    if ops.len() > 0 {
        let before = ops.drop_last();
        let last = ops.len() - 1;
        lemma_replay(before, addr);
        if ops.last() == RegistryOp::<H>::Unregister(addr) {
            assert forall|i: int| !registers_for_good(ops, i, addr) by {}
        } else if ops.last() matches RegistryOp::Register(a, _) && a == addr {
            assert(registers_for_good(ops, last, addr));
        } else {
            if replay(before).contains_key(addr) {
                let i = choose|i: int| registers_for_good(before, i, addr);
                lemma_registers_for_good_prefix(ops, i, addr);
            }
            if exists|i: int| registers_for_good(ops, i, addr) {
                let i = choose|i: int| registers_for_good(ops, i, addr);
                lemma_registers_for_good_prefix(ops, i, addr);
            }
        }
    }
}

/// After any sequence of calls, an address whose latest call registered
/// it is held with the handle of that call.
pub proof fn lemma_replay_handle<H>(ops: Seq<RegistryOp<H>>, i: int, addr: PeerAddr, handle: H)
    requires
        0 <= i < ops.len(),
        ops[i] == RegistryOp::Register(addr, handle),
        forall|j: int| i < j < ops.len() ==> !concerns(#[trigger] ops[j], addr),
    ensures
        replay(ops).contains_key(addr),
        replay(ops)[addr] == handle,
    decreases ops.len(),
{
    if i < ops.len() - 1 {
        let before = ops.drop_last();
        assert(before[i] == ops[i]);
        assert forall|j: int| i < j < before.len() implies !concerns(#[trigger] before[j], addr) by {
            assert(before[j] == ops[j]);
        }
        lemma_replay_handle(before, i, addr, handle);
        assert(!concerns(ops[ops.len() - 1], addr));
    }
}

/// One entry of the registry.
struct Entry<H> {
    addr: PeerAddr,
    connection: u64,
    handle: H,
}

spec fn addresses<H>(entries: Seq<Entry<H>>) -> Seq<PeerAddr> {
    entries.map_values(|e: Entry<H>| e.addr)
}

spec fn handles<H>(entries: Seq<Entry<H>>) -> Map<PeerAddr, H> {
    Map::new(
        |a: PeerAddr| addresses(entries).contains(a),
        |a: PeerAddr| entries[addresses(entries).index_of(a)].handle,
    )
}

spec fn numbers<H>(entries: Seq<Entry<H>>) -> Map<PeerAddr, u64> {
    Map::new(
        |a: PeerAddr| addresses(entries).contains(a),
        |a: PeerAddr| entries[addresses(entries).index_of(a)].connection,
    )
}

proof fn lemma_entry<H>(entries: Seq<Entry<H>>, i: int)
    requires
        addresses(entries).no_duplicates(),
        0 <= i < entries.len(),
    ensures
        addresses(entries)[i] == entries[i].addr,
        addresses(entries).index_of(entries[i].addr) == i,
        handles(entries).contains_key(entries[i].addr),
        handles(entries)[entries[i].addr] == entries[i].handle,
        numbers(entries).contains_key(entries[i].addr),
        numbers(entries)[entries[i].addr] == entries[i].connection,
{
    let order = addresses(entries);
    assert(order[i] == entries[i].addr);
    let k = order.index_of(order[i]);
    assert(order[k] == order[i]);
}

proof fn lemma_push<H>(entries: Seq<Entry<H>>, entry: Entry<H>)
    requires
        addresses(entries).no_duplicates(),
        !addresses(entries).contains(entry.addr),
    ensures
        addresses(entries.push(entry)) == addresses(entries).push(entry.addr),
        addresses(entries.push(entry)).no_duplicates(),
        handles(entries.push(entry)) == handles(entries).insert(entry.addr, entry.handle),
        numbers(entries.push(entry)) == numbers(entries).insert(entry.addr, entry.connection),
{
    let after = entries.push(entry);
    assert(addresses(after) =~= addresses(entries).push(entry.addr));
    assert forall|a: PeerAddr|
        addresses(after).contains(a) <==> addresses(entries).contains(a) || a == entry.addr by {
        if addresses(entries).contains(a) {
            let k = addresses(entries).index_of(a);
            assert(addresses(after)[k] == a);
        }
        if a == entry.addr {
            assert(addresses(after)[entries.len() as int] == a);
        }
    }
    assert forall|a: PeerAddr| addresses(after).contains(a) implies handles(after)[a] == handles(
        entries,
    ).insert(entry.addr, entry.handle)[a] && numbers(after)[a] == numbers(entries).insert(
        entry.addr,
        entry.connection,
    )[a] by {
        let k = addresses(after).index_of(a);
        lemma_entry(after, k);
        if k < entries.len() {
            lemma_entry(entries, k);
        }
    }
    assert(handles(after) =~= handles(entries).insert(entry.addr, entry.handle));
    assert(numbers(after) =~= numbers(entries).insert(entry.addr, entry.connection));
}

proof fn lemma_replace<H>(entries: Seq<Entry<H>>, i: int, entry: Entry<H>)
    requires
        addresses(entries).no_duplicates(),
        0 <= i < entries.len(),
        entry.addr == entries[i].addr,
    ensures
        addresses(entries.update(i, entry)) == addresses(entries),
        handles(entries.update(i, entry)) == handles(entries).insert(entry.addr, entry.handle),
        numbers(entries.update(i, entry)) == numbers(entries).insert(
            entry.addr,
            entry.connection,
        ),
{
    let after = entries.update(i, entry);
    assert(addresses(after) =~= addresses(entries));
    lemma_entry(entries, i);
    assert forall|a: PeerAddr| addresses(after).contains(a) implies handles(after)[a] == handles(
        entries,
    ).insert(entry.addr, entry.handle)[a] && numbers(after)[a] == numbers(entries).insert(
        entry.addr,
        entry.connection,
    )[a] by {
        let k = addresses(after).index_of(a);
        lemma_entry(after, k);
        lemma_entry(entries, k);
    }
    assert(handles(after) =~= handles(entries).insert(entry.addr, entry.handle));
    assert(numbers(after) =~= numbers(entries).insert(entry.addr, entry.connection));
}

proof fn lemma_remove<H>(entries: Seq<Entry<H>>, i: int)
    requires
        addresses(entries).no_duplicates(),
        0 <= i < entries.len(),
    ensures
        addresses(entries.remove(i)) == without(addresses(entries), entries[i].addr),
        addresses(entries.remove(i)).no_duplicates(),
        handles(entries.remove(i)) == handles(entries).remove(entries[i].addr),
        numbers(entries.remove(i)) == numbers(entries).remove(entries[i].addr),
        forall|k: int|
            0 <= k < entries.remove(i).len() ==> exists|s: int|
                0 <= s < entries.len() && #[trigger] entries.remove(i)[k] == entries[s],
{
    let addr = entries[i].addr;
    let after = entries.remove(i);
    let order = addresses(entries);
    let rest = addresses(after);
    lemma_entry(entries, i);
    assert(rest =~= order.remove(i));
    assert forall|x: int, y: int| 0 <= x < rest.len() && 0 <= y < rest.len() && x != y implies rest[x]
        != rest[y] by {
        let sx = if x < i { x } else { x + 1 };
        let sy = if y < i { y } else { y + 1 };
        assert(rest[x] == order[sx]);
        assert(rest[y] == order[sy]);
    }
    assert forall|a: PeerAddr| rest.contains(a) <==> order.contains(a) && a != addr by {
        if rest.contains(a) {
            let k = rest.index_of(a);
            let s = if k < i { k } else { k + 1 };
            assert(order[s] == a);
        }
        if a != addr && order.contains(a) {
            let s = order.index_of(a);
            let k = if s < i { s } else { s - 1 };
            assert(rest[k] == a);
        }
    }
    assert forall|a: PeerAddr| rest.contains(a) implies handles(after)[a] == handles(
        entries,
    ).remove(addr)[a] && numbers(after)[a] == numbers(entries).remove(addr)[a] by {
        let k = rest.index_of(a);
        let s = if k < i { k } else { k + 1 };
        lemma_entry(after, k);
        lemma_entry(entries, s);
    }
    assert(handles(after) =~= handles(entries).remove(addr));
    assert(numbers(after) =~= numbers(entries).remove(addr));
    assert forall|k: int| 0 <= k < after.len() implies exists|s: int|
        0 <= s < entries.len() && #[trigger] after[k] == entries[s] by {
        let s = if k < i { k } else { k + 1 };
        assert(after[k] == entries[s]);
    }
}

fn position<H>(entries: &Vec<Entry<H>>, addr: PeerAddr) -> (found: Option<usize>)
    ensures
        match found {
            Some(i) => i < entries@.len() && entries@[i as int].addr == addr,
            None => !addresses(entries@).contains(addr),
        },
{
    let mut i: usize = 0;
    while i < entries.len()
        invariant
            i <= entries@.len(),
            forall|j: int| 0 <= j < i ==> entries@[j].addr != addr,
        decreases entries@.len() - i,
    {
        if entries[i].addr == addr {
            return Some(i);
        }
        i += 1;
    }
    None
}

/// What `register` answers: the number of the new connection, and the
/// handle of the connection that it took the place of, if there was one.
#[derive(Debug, PartialEq, Eq)]
pub struct Registration<H> {
    /// The number of the connection. No other connection of this registry
    /// has it, before or after.
    pub connection: u64,
    /// The handle that was replaced, which is thereby abandoned.
    pub replaced: Option<H>,
}

/// A table from peer address to the write handle of that peer's connection.
///
/// It holds at most one entry per address. Entries keep the order in which
/// their addresses were first registered. Every connection that is
/// registered gets a number of its own, so that the handler of a
/// connection can tell its own entry from that of a later connection to
/// the same address.
pub struct Registry<H> {
    entries: Vec<Entry<H>>,
    issued: u64,
}

impl<H> View for Registry<H> {
    type V = Map<PeerAddr, H>;

    /// The registry as a map from address to handle.
    closed spec fn view(&self) -> Map<PeerAddr, H> {
        handles(self.entries@)
    }
}

impl<H> Registry<H> {
    #[verifier::type_invariant]
    spec fn well_formed(self) -> bool {
        &&& addresses(self.entries@).no_duplicates()
        &&& forall|i: int|
            0 <= i < self.entries@.len() ==> (#[trigger] self.entries@[i]).connection
                < self.issued
    }

    /// The registered addresses, in the order in which they were registered.
    pub closed spec fn order(&self) -> Seq<PeerAddr> {
        addresses(self.entries@)
    }

    /// The number of the connection that each entry stands for.
    pub closed spec fn connections(&self) -> Map<PeerAddr, u64> {
        numbers(self.entries@)
    }

    /// How many connection numbers have been handed out.
    pub closed spec fn issued(&self) -> u64 {
        self.issued
    }

    /// The addresses in `order()` are exactly the keys of the map, and
    /// every entry has a connection number.
    pub proof fn lemma_order_is_domain(&self)
        ensures
            self.order().to_set() == self@.dom(),
            self.connections().dom() == self@.dom(),
            forall|a: PeerAddr| self.order().contains(a) <==> self@.contains_key(a),
    {
        assert(self.order().to_set() =~= self@.dom());
        assert(self.connections().dom() =~= self@.dom());
    }

    proof fn lemma_numbered_below_issued(&self)
        requires
            self.well_formed(),
        ensures
            forall|a: PeerAddr| #[trigger]
                self.connections().contains_key(a) ==> self.connections()[a] < self.issued(),
    {
        assert forall|a: PeerAddr| #[trigger] self.connections().contains_key(a) implies self.connections()[a]
            < self.issued() by {
            let k = addresses(self.entries@).index_of(a);
            lemma_entry(self.entries@, k);
        }
    }

    /// An empty registry.
    pub fn new() -> (registry: Self)
        ensures
            registry@ == Map::<PeerAddr, H>::empty(),
            registry.connections() == Map::<PeerAddr, u64>::empty(),
            registry.order() == Seq::<PeerAddr>::empty(),
            registry.issued() == 0,
    {
        let registry = Registry { entries: Vec::new(), issued: 0 };
        assert(registry@ =~= Map::<PeerAddr, H>::empty());
        assert(registry.connections() =~= Map::<PeerAddr, u64>::empty());
        assert(registry.order() =~= Seq::<PeerAddr>::empty());
        registry
    }

    /// The number of registered peers.
    pub fn len(&self) -> (n: usize)
        ensures
            n == self.order().len(),
            n == self@.dom().len(),
    {
        proof {
            use_type_invariant(self);
            self.lemma_order_is_domain();
            self.order().unique_seq_to_set();
        }
        self.entries.len()
    }

    /// Whether `addr` is registered.
    pub fn contains(&self, addr: PeerAddr) -> (found: bool)
        ensures
            found == self@.contains_key(addr),
    {
        match position(&self.entries, addr) {
            Some(i) => {
                assert(addresses(self.entries@)[i as int] == addr);
                true
            },
            None => false,
        }
    }

    /// Inserts the entry for `addr`, or replaces it where `addr` is
    /// registered already (a reconnect), and gives the connection the next
    /// number.
    ///
    /// Once 2^64 - 1 numbers have been handed out the registry takes no
    /// further connection: it hands the handle back and stays as it is.
    pub fn register(&mut self, addr: PeerAddr, handle: H) -> (outcome: Result<Registration<H>, H>)
        ensures
            old(self).issued() == u64::MAX ==> {
                &&& outcome == Err::<Registration<H>, H>(handle)
                &&& final(self)@ == old(self)@
                &&& final(self).connections() == old(self).connections()
                &&& final(self).order() == old(self).order()
                &&& final(self).issued() == old(self).issued()
            },
            old(self).issued() < u64::MAX ==> {
                &&& outcome == Ok::<Registration<H>, H>(
                    Registration {
                        connection: old(self).issued(),
                        replaced: if old(self)@.contains_key(addr) {
                            Some(old(self)@[addr])
                        } else {
                            None
                        },
                    },
                )
                &&& final(self)@ == old(self)@.insert(addr, handle)
                &&& final(self).connections() == old(self).connections().insert(
                    addr,
                    old(self).issued(),
                )
                &&& final(self).order() == if old(self)@.contains_key(addr) {
                    old(self).order()
                } else {
                    old(self).order().push(addr)
                }
                &&& final(self).issued() == old(self).issued() + 1
            },
            final(self).order().no_duplicates(),
            forall|a: PeerAddr| #[trigger]
                final(self).connections().contains_key(a) ==> final(self).connections()[a]
                    < final(self).issued(),
    {
        proof {
            use_type_invariant(&*self);
            self.lemma_numbered_below_issued();
        }
        if self.issued == u64::MAX {
            return Err(handle);
        }
        let connection: u64 = self.issued;
        let mut entries: Vec<Entry<H>> = Vec::new();
        core::mem::swap(&mut self.entries, &mut entries);
        let ghost before = entries@;
        let entry = Entry { addr, connection, handle };
        let ghost added = entry;
        let replaced = match position(&entries, addr) {
            Some(i) => {
                proof {
                    lemma_entry(before, i as int);
                    lemma_replace(before, i as int, added);
                }
                let previous = entries.remove(i);
                entries.insert(i, entry);
                assert(entries@ =~= before.update(i as int, added));
                Some(previous.handle)
            },
            None => {
                proof {
                    lemma_push(before, added);
                }
                entries.push(entry);
                None
            },
        };
        self.issued = connection + 1;
        self.entries = entries;
        proof {
            self.lemma_numbered_below_issued();
        }
        Ok(Registration { connection, replaced })
    }

    /// Removes the entry for `addr`, if there is one, whatever connection
    /// it stands for, and returns its handle.
    pub fn unregister(&mut self, addr: PeerAddr) -> (removed: Option<H>)
        ensures
            final(self)@ == old(self)@.remove(addr),
            final(self).connections() == old(self).connections().remove(addr),
            removed == if old(self)@.contains_key(addr) {
                Some(old(self)@[addr])
            } else {
                None
            },
            final(self).order() == without(old(self).order(), addr),
            final(self).order().no_duplicates(),
            final(self).issued() == old(self).issued(),
    {
        proof {
            use_type_invariant(&*self);
        }
        let mut entries: Vec<Entry<H>> = Vec::new();
        core::mem::swap(&mut self.entries, &mut entries);
        let ghost before = entries@;
        let removed = match position(&entries, addr) {
            Some(i) => {
                proof {
                    lemma_entry(before, i as int);
                    lemma_remove(before, i as int);
                }
                let entry = entries.remove(i);
                Some(entry.handle)
            },
            None => {
                assert(handles(before).remove(addr) =~= handles(before));
                assert(numbers(before).remove(addr) =~= numbers(before));
                None
            },
        };
        self.entries = entries;
        removed
    }

    /// Removes the entry for `addr` if it still stands for the connection
    /// with the number `connection`, and returns its handle. Where `addr` is
    /// not registered, or its entry stands for another connection (the peer
    /// has reconnected since), the registry stays as it is.
    pub fn release(&mut self, addr: PeerAddr, connection: u64) -> (released: Option<H>)
        ensures
            old(self)@.contains_key(addr) && old(self).connections()[addr] == connection ==> {
                &&& released == Some(old(self)@[addr])
                &&& final(self)@ == old(self)@.remove(addr)
                &&& final(self).connections() == old(self).connections().remove(addr)
                &&& final(self).order() == without(old(self).order(), addr)
            },
            !(old(self)@.contains_key(addr) && old(self).connections()[addr] == connection) ==> {
                &&& released is None
                &&& final(self)@ == old(self)@
                &&& final(self).connections() == old(self).connections()
                &&& final(self).order() == old(self).order()
            },
            final(self).order().no_duplicates(),
            final(self).issued() == old(self).issued(),
    {
        proof {
            use_type_invariant(&*self);
        }
        let mut entries: Vec<Entry<H>> = Vec::new();
        core::mem::swap(&mut self.entries, &mut entries);
        let ghost before = entries@;
        let released = match position(&entries, addr) {
            Some(i) => {
                proof {
                    lemma_entry(before, i as int);
                }
                if entries[i].connection == connection {
                    proof {
                        lemma_remove(before, i as int);
                    }
                    let entry = entries.remove(i);
                    Some(entry.handle)
                } else {
                    None
                }
            },
            None => None,
        };
        self.entries = entries;
        released
    }

    /// The addresses of all registered peers, in registration order.
    pub fn snapshot(&self) -> (peers: Vec<PeerAddr>)
        ensures
            peers@ == self.order(),
            peers@.no_duplicates(),
            peers@.to_set() == self@.dom(),
    {
        proof {
            use_type_invariant(self);
            self.lemma_order_is_domain();
        }
        let mut peers: Vec<PeerAddr> = Vec::new();
        let mut i: usize = 0;
        while i < self.entries.len()
            invariant
                i <= self.entries@.len(),
                peers@ == addresses(self.entries@).take(i as int),
            decreases self.entries@.len() - i,
        {
            peers.push(self.entries[i].addr);
            assert(peers@ =~= addresses(self.entries@).take(i + 1));
            i += 1;
        }
        assert(peers@ =~= addresses(self.entries@));
        peers
    }

    /// Hands `frame` to `write` once for every registered peer, in
    /// registration order, and returns what `write` answered for each. A
    /// failure for one peer does not keep the frame from the peers after it;
    /// the registry itself is left as it is, so that the caller decides
    /// whether a peer that failed is unregistered.
    pub fn broadcast<E, F>(&self, frame: &[u8], write: F) -> (outcomes: Vec<
        (PeerAddr, Result<(), E>),
    >) where F: Fn(&PeerAddr, &H, &[u8]) -> Result<(), E>
        requires
            forall|a: PeerAddr|
                self@.contains_key(a) ==> call_requires(write, (&a, &#[trigger] self@[a], frame)),
        ensures
            outcomes@.len() == self.order().len(),
            forall|i: int|
                0 <= i < outcomes@.len() ==> {
                    &&& (#[trigger] outcomes@[i]).0 == self.order()[i]
                    &&& call_ensures(
                        write,
                        (&self.order()[i], &self@[self.order()[i]], frame),
                        outcomes@[i].1,
                    )
                },
    {
        proof {
            use_type_invariant(self);
        }
        let mut outcomes: Vec<(PeerAddr, Result<(), E>)> = Vec::new();
        let mut i: usize = 0;
        while i < self.entries.len()
            invariant
                addresses(self.entries@).no_duplicates(),
                i <= self.entries@.len(),
                outcomes@.len() == i,
                forall|a: PeerAddr|
                    self@.contains_key(a) ==> call_requires(
                        write,
                        (&a, &#[trigger] self@[a], frame),
                    ),
                forall|j: int|
                    0 <= j < i ==> {
                        &&& (#[trigger] outcomes@[j]).0 == self.order()[j]
                        &&& call_ensures(
                            write,
                            (&self.order()[j], &self@[self.order()[j]], frame),
                            outcomes@[j].1,
                        )
                    },
            decreases self.entries@.len() - i,
        {
            proof {
                lemma_entry(self.entries@, i as int);
            }
            let addr: PeerAddr = self.entries[i].addr;
            let outcome = write(&addr, &self.entries[i].handle, frame);
            outcomes.push((addr, outcome));
            i += 1;
        }
        outcomes
    }
}

} // verus!
