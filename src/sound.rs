use vstd::prelude::*;

use crate::channel::{contents, lemma_send_all_order, send_all, CommandChannel};
use crate::protocol::{
    decoding, encode, encodable, encoding, lemma_decode_encode, Command, CommandView,
};

verus! {

/// The control handle: each method queues one command for the dispatch loop,
/// and the last playback position the loop published can be read back.
pub struct Sound {
    channel: CommandChannel,
    chiptune_position: i32,
}

impl Sound {
    /// Commands queued and not yet drained.
    pub closed spec fn queued(&self) -> Seq<Seq<u8>> {
        self.channel@
    }

    /// The last published playback position.
    pub closed spec fn position(&self) -> i32 {
        self.chiptune_position
    }

    pub fn new() -> (r: Sound)
        ensures
            r.queued() == Seq::<Seq<u8>>::empty(),
            r.position() == 0,
    {
        Sound { channel: CommandChannel::new(), chiptune_position: 0 }
    }

    fn send(&mut self, cmd: Command)
        ensures
            final(self).queued() == old(self).queued().push(encoding(cmd@)),
            final(self).position() == old(self).position(),
            encodable(cmd@),
    {
        let bytes = encode(&cmd);
        self.channel.send(bytes);
    }

    /// Queues a request to load and play the music `filename`.
    pub fn music(
        &mut self,
        id: i32,
        filename: String,
        channel: i32,
        loops: i32,
        start_position: i32,
    )
        ensures
            final(self).queued() == old(self).queued().push(
                encoding(CommandView::PlayMusic { id, channel, filename: filename@, loops, start_position }),
            ),
            final(self).position() == old(self).position(),
    {
        self.send(Command::PlayMusic { id, channel, filename, loops, start_position });
    }

    /// Queues a request to play a sound effect, by `filename` when it is
    /// non-empty, else by numeric `id`.
    pub fn sfx(
        &mut self,
        id: i32,
        filename: String,
        channel: i32,
        note: u16,
        panning: i32,
        rate: i32,
        loops: i32,
    )
        ensures
            final(self).queued() == old(self).queued().push(
                encoding(
                    CommandView::PlaySfx { id, filename: filename@, channel, note, panning, rate, loops },
                ),
            ),
            final(self).position() == old(self).position(),
    {
        self.send(Command::PlaySfx { id, filename, channel, note, panning, rate, loops });
    }

    /// Queues sound effect bytes to be registered under `filename`.
    pub fn load_sfx(&mut self, filename: String, data: Vec<u8>)
        ensures
            final(self).queued() == old(self).queued().push(
                encoding(CommandView::LoadSfx { filename: filename@, data: data@ }),
            ),
            final(self).position() == old(self).position(),
    {
        self.send(Command::LoadSfx { filename, data });
    }

    /// Queues a stop of every channel.
    pub fn music_stop(&mut self)
        ensures
            final(self).queued() == old(self).queued().push(
                encoding(CommandView::MusicState { stop: true, chan: -1i32, pause: false, resume: false }),
            ),
            final(self).position() == old(self).position(),
    {
        self.send(Command::MusicState { stop: true, chan: -1, pause: false, resume: false });
    }

    /// Queues a stop of channel `chan` (of every channel when `chan < 0`).
    pub fn stop_chan(&mut self, chan: i32)
        ensures
            final(self).queued() == old(self).queued().push(
                encoding(CommandView::MusicState { stop: true, chan, pause: false, resume: false }),
            ),
            final(self).position() == old(self).position(),
    {
        self.send(Command::MusicState { stop: true, chan, pause: false, resume: false });
    }

    /// Queues a pause of the music.
    pub fn music_pause(&mut self)
        ensures
            final(self).queued() == old(self).queued().push(
                encoding(CommandView::MusicState { stop: false, chan: -1i32, pause: true, resume: false }),
            ),
            final(self).position() == old(self).position(),
    {
        self.send(Command::MusicState { stop: false, chan: -1, pause: true, resume: false });
    }

    /// Queues a resume of the music.
    pub fn music_resume(&mut self)
        ensures
            final(self).queued() == old(self).queued().push(
                encoding(CommandView::MusicState { stop: false, chan: -1i32, pause: false, resume: true }),
            ),
            final(self).position() == old(self).position(),
    {
        self.send(Command::MusicState { stop: false, chan: -1, pause: false, resume: true });
    }

    /// Queues a volume change.
    pub fn music_volume(&mut self, volume: i32)
        ensures
            final(self).queued() == old(self).queued().push(
                encoding(CommandView::Volume { volume }),
            ),
            final(self).position() == old(self).position(),
    {
        self.send(Command::Volume { volume });
    }

    /// The playback position last published by the dispatch loop.
    pub fn chiptune_get_position(&mut self) -> (r: i32)
        ensures
            r == old(self).position(),
            *final(self) == *old(self),
    {
        self.chiptune_position
    }

    /// Takes every queued command, oldest first. With nothing queued it
    /// returns nothing and changes nothing.
    pub fn take_commands(&mut self) -> (r: Vec<Vec<u8>>)
        ensures
            contents(r@) == old(self).queued(),
            final(self).queued() == Seq::<Seq<u8>>::empty(),
            final(self).position() == old(self).position(),
            old(self).queued().len() == 0 ==> r@.len() == 0 && final(self).queued() == old(
                self,
            ).queued(),
    {
        self.channel.drain()
    }

    /// Publishes the engine's playback position at the end of a tick.
    pub fn publish_position(&mut self, position: i32)
        ensures
            final(self).position() == position,
            final(self).queued() == old(self).queued(),
    {
        self.chiptune_position = position;
    }
}

/// Commands sent one after another come out of the channel, and decode, in
/// the order they were sent, after whatever was queued before them.
pub proof fn lemma_commands_in_order(q: Seq<Seq<u8>>, cs: Seq<CommandView>)
    requires
        forall|i: int| 0 <= i < cs.len() ==> encodable(#[trigger] cs[i]),
    ensures
        ({
            let drained = send_all(q, cs.map_values(|c: CommandView| encoding(c)));
            &&& drained.len() == q.len() + cs.len()
            &&& drained.subrange(0, q.len() as int) == q
            &&& forall|i: int|
                0 <= i < cs.len() ==> decoding(#[trigger] drained[q.len() + i]) == Some(cs[i])
        }),
{
    let msgs = cs.map_values(|c: CommandView| encoding(c));
    lemma_send_all_order(q, msgs);
    let drained = q + msgs;
    assert(drained.subrange(0, q.len() as int) =~= q);
    assert forall|i: int| 0 <= i < cs.len() implies decoding(#[trigger] drained[q.len() + i]) == Some(
        cs[i],
    ) by {
        assert(drained[q.len() + i] == encoding(cs[i]));
        lemma_decode_encode(cs[i]);
    }
}

} // verus!
