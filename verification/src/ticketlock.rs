use vstd::prelude::*;

verus! {

/// A ticket lock: a thread takes the next ticket, waits until the turn
/// reaches it, and on release passes the turn to the next ticket. Threads
/// are thus served in the order in which they took their tickets.
pub struct TicketLock<T> {
    ticket: usize,
    turn: usize,
    data: T,
}

/// The right to the data of a ticket lock, held by the thread whose ticket
/// has the turn.
pub struct TicketLockGuard {
    ticket: usize,
}

/// The value after `x` in the wrapping arithmetic of machine words.
pub open spec fn succ(x: usize) -> usize {
    if x == usize::MAX {
        0
    } else {
        (x + 1) as usize
    }
}

/// The turn after `k` releases, starting from `turn`.
pub open spec fn turn_after(turn: usize, k: nat) -> usize
    decreases k,
{
    if k == 0 {
        turn
    } else {
        succ(turn_after(turn, (k - 1) as nat))
    }
}

impl TicketLockGuard {
    /// The ticket of the holder.
    pub closed spec fn ticket_of(&self) -> usize {
        self.ticket
    }
}

impl<T> TicketLock<T> {
    /// The next ticket to be handed out.
    pub closed spec fn next_ticket(&self) -> usize {
        self.ticket
    }

    /// The ticket that may enter.
    pub closed spec fn now_serving(&self) -> usize {
        self.turn
    }

    /// The protected data.
    pub closed spec fn value(&self) -> T {
        self.data
    }

    /// An unlocked ticket lock around `v`; the first ticket is zero.
    pub fn new(v: T) -> (r: Self)
        ensures
            r.next_ticket() == 0,
            r.now_serving() == 0,
            r.value() == v,
    {
        TicketLock { ticket: 0, turn: 0, data: v }
    }

    /// The ticket that may enter.
    pub fn turn(&self) -> (r: usize)
        ensures
            r == self.now_serving(),
    {
        self.turn
    }

    /// Takes a ticket: the caller gets the next ticket and the counter
    /// advances (wrapping around as an atomic counter does).
    pub fn take_ticket(&mut self) -> (t: usize)
        ensures
            t == old(self).next_ticket(),
            final(self).next_ticket() == succ(old(self).next_ticket()),
            final(self).now_serving() == old(self).now_serving(),
            final(self).value() == old(self).value(),
    {
        let t = self.ticket;
        self.ticket = self.ticket.wrapping_add(1);
        t
    }

    /// One step of waiting for the lock with ticket `t`: the holder of `t`
    /// enters exactly when the turn has reached `t`; otherwise it spins and
    /// tries again.
    pub fn lock(&self, t: usize) -> (r: Option<TicketLockGuard>)
        ensures
            r is Some <==> self.now_serving() == t,
            r matches Some(g) ==> g.ticket_of() == t,
    {
        if self.turn != t {
            None
        } else {
            Some(TicketLockGuard { ticket: t })
        }
    }

    /// Releases the lock: the turn passes to the next ticket.
    pub fn unlock(&mut self, guard: TicketLockGuard)
        requires
            guard.ticket_of() == old(self).now_serving(),
        ensures
            final(self).now_serving() == succ(old(self).now_serving()),
            final(self).next_ticket() == old(self).next_ticket(),
            final(self).value() == old(self).value(),
    {
        self.turn = self.turn.wrapping_add(1);
    }

    /// The protected data, for the holder of the lock.
    pub fn get(&self, guard: &TicketLockGuard) -> (r: &T)
        requires
            guard.ticket_of() == self.now_serving(),
        ensures
            *r == self.value(),
    {
        &self.data
    }

    /// Replaces the protected data, for the holder of the lock.
    pub fn set(&mut self, guard: &TicketLockGuard, v: T)
        requires
            guard.ticket_of() == old(self).now_serving(),
        ensures
            final(self).value() == v,
            final(self).now_serving() == old(self).now_serving(),
            final(self).next_ticket() == old(self).next_ticket(),
    {
        self.data = v;
    }
}

/// Law: first come, first served. From a fresh lock, the `k`-th ticket
/// handed out is `k`, and the turn reaches it after exactly `k` releases.
pub proof fn law_fifo(k: nat)
    requires
        k <= usize::MAX,
    ensures
        turn_after(0, k) == k,
    decreases k,
{
    if k > 0 {
        law_fifo((k - 1) as nat);
    }
}

/// Law: mutual exclusion. Two holders with different tickets never both
/// have the turn.
pub proof fn law_mutual_exclusion<T>(l: TicketLock<T>, g1: TicketLockGuard, g2: TicketLockGuard)
    requires
        g1.ticket_of() == l.now_serving(),
        g2.ticket_of() == l.now_serving(),
    ensures
        g1.ticket_of() == g2.ticket_of(),
{
}

} // verus!
