use vstd::prelude::*;

verus! {

/// An unbounded first-in first-out queue of encoded commands. Sending never
/// blocks or fails; draining never blocks and takes everything queued.
pub struct CommandChannel {
    queue: Vec<Vec<u8>>,
}

/// What a queue of buffers holds, as byte sequences.
pub open spec fn contents(q: Seq<Vec<u8>>) -> Seq<Seq<u8>> {
    q.map_values(|m: Vec<u8>| m@)
}

/// The queue after sending each of `msgs` in order.
pub open spec fn send_all(q: Seq<Seq<u8>>, msgs: Seq<Seq<u8>>) -> Seq<Seq<u8>>
    decreases msgs.len(),
{
    if msgs.len() == 0 {
        q
    } else {
        send_all(q, msgs.drop_last()).push(msgs.last())
    }
}

impl View for CommandChannel {
    type V = Seq<Seq<u8>>;

    closed spec fn view(&self) -> Seq<Seq<u8>> {
        contents(self.queue@)
    }
}

impl CommandChannel {
    pub fn new() -> (r: CommandChannel)
        ensures
            r@ == Seq::<Seq<u8>>::empty(),
    {
        let r = CommandChannel { queue: Vec::new() };
        assert(r@ =~= Seq::<Seq<u8>>::empty());
        r
    }

    /// Number of buffers waiting.
    pub fn pending(&self) -> (r: usize)
        ensures
            r == self@.len(),
    {
        self.queue.len()
    }

    /// Queues `msg` behind everything sent before it.
    pub fn send(&mut self, msg: Vec<u8>)
        ensures
            final(self)@ == old(self)@.push(msg@),
    {
        let ghost m = msg@;
        self.queue.push(msg);
        assert(self@ =~= old(self)@.push(m));
    }

    /// Takes every queued buffer, oldest first, leaving the channel empty.
    pub fn drain(&mut self) -> (r: Vec<Vec<u8>>)
        ensures
            contents(r@) == old(self)@,
            final(self)@ == Seq::<Seq<u8>>::empty(),
            old(self)@.len() == 0 ==> r@.len() == 0 && final(self)@ == old(self)@,
    {
        let mut out: Vec<Vec<u8>> = Vec::new();
        std::mem::swap(&mut out, &mut self.queue);
        assert(self@ =~= Seq::<Seq<u8>>::empty());
        out
    }
}

/// Sending buffers one after another and then draining hands them out after
/// what was already queued, in the order they were sent, whenever the drain
/// happens.
pub proof fn lemma_send_all_order(q: Seq<Seq<u8>>, msgs: Seq<Seq<u8>>)
    ensures
        send_all(q, msgs) == q + msgs,
    decreases msgs.len(),
{
    if msgs.len() > 0 {
        lemma_send_all_order(q, msgs.drop_last());
        assert(q + msgs =~= (q + msgs.drop_last()).push(msgs.last()));
    }
}

} // verus!
