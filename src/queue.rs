use vstd::prelude::*;
use std::collections::VecDeque;

verus! {

/// A send found no receiver left; the job comes back to the caller undelivered.
pub struct Disconnected<J>(pub J);

/// The outcome of one attempt to take a job from the queue.
pub enum Received<J> {
    /// The job at the head of the queue, now owned by the receiver.
    Job(J),
    /// Nothing is pending, but the sender may still send: the receiver waits.
    Empty,
    /// Nothing is pending and the sender is gone: no job will ever arrive.
    Closed,
}

/// The abstract state of a job queue.
pub struct QueueView<J> {
    /// Every job ever accepted by `send`, in the order sent.
    pub sent: Seq<J>,
    /// How many of those jobs have been handed out by `receive`.
    pub received: nat,
    /// Whether the sending side is still held.
    pub sender_open: bool,
    /// How many receivers still hold the receiving side.
    pub receivers: nat,
}

impl<J> QueueView<J> {
    /// The jobs sent and not yet received, head first.
    pub open spec fn pending(self) -> Seq<J> {
        self.sent.skip(self.received as int)
    }
}

/// An unbounded FIFO channel of jobs with one sending side and a counted set
/// of receivers.
pub struct JobQueue<J> {
    items: VecDeque<J>,
    sender_open: bool,
    receivers: usize,
    sent: Ghost<Seq<J>>,
    received: Ghost<nat>,
}

impl<J> View for JobQueue<J> {
    type V = QueueView<J>;

    closed spec fn view(&self) -> QueueView<J> {
        QueueView {
            sent: self.sent@,
            received: self.received@,
            sender_open: self.sender_open,
            receivers: self.receivers as nat,
        }
    }
}

impl<J> JobQueue<J> {
    /// The queue's items are exactly the sent jobs not yet received.
    pub closed spec fn wf(&self) -> bool {
        &&& self.received@ <= self.sent@.len()
        &&& self.items@ == self.sent@.skip(self.received@ as int)
    }

    /// A queue never hands out more jobs than were sent to it.
    pub proof fn lemma_received_within_sent(&self)
        requires
            self.wf(),
        ensures
            self@.received <= self@.sent.len(),
    {
    }

    /// A fresh queue: nothing sent, the sender held, `receivers` receivers.
    pub fn new(receivers: usize) -> (q: Self)
        ensures
            q.wf(),
            q@.sent == Seq::<J>::empty(),
            q@.received == 0,
            q@.sender_open,
            q@.receivers == receivers,
    {
        let q = JobQueue {
            items: VecDeque::new(),
            sender_open: true,
            receivers,
            sent: Ghost(Seq::empty()),
            received: Ghost(0),
        };
        assert(q.items@ =~= q.sent@.skip(0));
        q
    }

    /// Enqueues `job` at the tail, or hands it back when no receiver is left.
    pub fn send(&mut self, job: J) -> (r: Result<(), Disconnected<J>>)
        requires
            old(self).wf(),
        ensures
            final(self).wf(),
            old(self)@.receivers == 0 ==> r == Err::<(), Disconnected<J>>(Disconnected(job))
                && final(self)@ == old(self)@,
            old(self)@.receivers > 0 ==> r is Ok && final(self)@ == (QueueView {
                sent: old(self)@.sent.push(job),
                ..old(self)@
            }),
    {
        if self.receivers == 0 {
            return Err(Disconnected(job));
        }
        proof {
            let old_sent = self.sent@;
            assert(old_sent.push(job).skip(self.received@ as int) =~= old_sent.skip(
                self.received@ as int,
            ).push(job));
        }
        self.items.push_back(job);
        self.sent = Ghost(self.sent@.push(job));
        Ok(())
    }

    /// Takes the job at the head, if any; otherwise says whether one may still come.
    pub fn receive(&mut self) -> (r: Received<J>)
        requires
            old(self).wf(),
        ensures
            final(self).wf(),
            old(self)@.pending().len() > 0 ==> r == Received::Job(old(self)@.pending()[0])
                && final(self)@ == (QueueView { received: old(self)@.received + 1, ..old(self)@ }),
            old(self)@.pending().len() == 0 ==> final(self)@ == old(self)@ && if old(
                self,
            )@.sender_open {
                r is Empty
            } else {
                r is Closed
            },
    {
        match self.items.pop_front() {
            Some(job) => {
                proof {
                    let s = self.sent@;
                    let k = self.received@ as int;
                    assert(s.skip(k + 1) =~= s.skip(k).subrange(1, s.skip(k).len() as int));
                }
                self.received = Ghost(self.received@ + 1);
                Received::Job(job)
            },
            None => {
                if self.sender_open {
                    Received::Empty
                } else {
                    Received::Closed
                }
            },
        }
    }

    /// Releases the sending side: once the queue drains, receivers see `Closed`.
    pub fn close(&mut self)
        requires
            old(self).wf(),
        ensures
            final(self).wf(),
            final(self)@ == (QueueView { sender_open: false, ..old(self)@ }),
    {
        self.sender_open = false;
    }

    /// One receiver lets go of the receiving side.
    pub fn release_receiver(&mut self)
        requires
            old(self).wf(),
            old(self)@.receivers > 0,
        ensures
            final(self).wf(),
            final(self)@ == (QueueView { receivers: (old(self)@.receivers - 1) as nat, ..old(self)@ }),
    {
        self.receivers = self.receivers - 1;
    }

    /// How many receivers still hold the receiving side.
    pub fn receivers(&self) -> (n: usize)
        ensures
            n == self@.receivers,
    {
        self.receivers
    }

    /// Whether the sending side is still held.
    pub fn sender_open(&self) -> (b: bool)
        ensures
            b == self@.sender_open,
    {
        self.sender_open
    }

    /// How many jobs wait in the queue.
    pub fn pending_len(&self) -> (n: usize)
        requires
            self.wf(),
        ensures
            n == self@.pending().len(),
    {
        self.items.len()
    }
}

} // verus!
