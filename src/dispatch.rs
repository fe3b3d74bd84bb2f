use vstd::prelude::*;
use vstd::string::*;

use crate::cache::{
    contains_name, insert_step, load_step, AssetCache, Entry, LoadError, by_index,
};
use crate::protocol::{Command, CommandView};

verus! {

/// One call on the audio engine.
#[derive(Clone, Copy, Debug, PartialEq, Eq, Structural)]
pub enum EngineCall {
    PlayMusic { start_position: i32 },
    SetLooping { loops: i32 },
    PlaySound { handle: u64, channel: i32, note: u16, panning: i32, rate: i32 },
    Stop,
    StopChannel { channel: i32 },
    Pause { flag: i32 },
    SetVolume { volume: i32 },
}

/// What the engine must load before a command can be dispatched.
#[derive(Clone, Debug, PartialEq, Eq)]
pub enum LoadRequest {
    Nothing,
    Music { filename: String },
    Sound { filename: String },
    SoundFromMemory { data: Vec<u8> },
}

pub enum LoadRequestView {
    Nothing,
    Music { filename: Seq<char> },
    Sound { filename: Seq<char> },
    SoundFromMemory { data: Seq<u8> },
}

impl View for LoadRequest {
    type V = LoadRequestView;

    open spec fn view(&self) -> LoadRequestView {
        match self {
            LoadRequest::Nothing => LoadRequestView::Nothing,
            LoadRequest::Music { filename } => LoadRequestView::Music { filename: filename@ },
            LoadRequest::Sound { filename } => LoadRequestView::Sound { filename: filename@ },
            LoadRequest::SoundFromMemory { data } => LoadRequestView::SoundFromMemory {
                data: data@,
            },
        }
    }
}

/// A sub-track of a loaded song, as the engine names and hands it out.
#[derive(Clone, Debug, PartialEq, Eq)]
pub struct SubTrack {
    pub name: String,
    pub handle: u64,
}

/// What the engine answered to a `LoadRequest`.
#[derive(Clone, Debug, PartialEq, Eq)]
pub enum LoadOutcome {
    /// Nothing was loaded.
    NotLoaded,
    /// The load failed.
    Failed,
    /// A sound was loaded under this handle.
    Sound { handle: u64 },
    /// A song was loaded; these are its sub-tracks, in order.
    Music { sub_tracks: Vec<SubTrack> },
}

pub enum LoadOutcomeView {
    NotLoaded,
    Failed,
    Sound { handle: u64 },
    Music { sub_tracks: Seq<Entry> },
}

impl View for LoadOutcome {
    type V = LoadOutcomeView;

    open spec fn view(&self) -> LoadOutcomeView {
        match self {
            LoadOutcome::NotLoaded => LoadOutcomeView::NotLoaded,
            LoadOutcome::Failed => LoadOutcomeView::Failed,
            LoadOutcome::Sound { handle } => LoadOutcomeView::Sound { handle: *handle },
            LoadOutcome::Music { sub_tracks } => LoadOutcomeView::Music {
                sub_tracks: sub_tracks@.map_values(|t: SubTrack| (t.name@, t.handle)),
            },
        }
    }
}

pub open spec fn digit(d: nat) -> char {
    if d == 0 { '0' }
    else if d == 1 { '1' }
    else if d == 2 { '2' }
    else if d == 3 { '3' }
    else if d == 4 { '4' }
    else if d == 5 { '5' }
    else if d == 6 { '6' }
    else if d == 7 { '7' }
    else if d == 8 { '8' }
    else { '9' }
}

/// The decimal digits of `n`, most significant first.
pub open spec fn decimal(n: nat) -> Seq<char>
    decreases n,
{
    if n < 10 {
        seq![digit(n)]
    } else {
        decimal(n / 10).push(digit(n % 10))
    }
}

/// The cache name of sub-track `i` called `name`: `"<i>:<name>"`.
pub open spec fn sub_track_name(i: nat, name: Seq<char>) -> Seq<char> {
    decimal(i) + seq![':'] + name
}

/// The cache after registering the first `n` sub-tracks, each under its
/// indexed name.
pub open spec fn register_sub_tracks(e: Seq<Entry>, subs: Seq<Entry>, n: nat) -> Seq<Entry>
    decreases n,
{
    if n == 0 {
        e
    } else {
        let k = (n - 1) as nat;
        insert_step(
            register_sub_tracks(e, subs, k),
            sub_track_name(k, subs[k as int].0),
            subs[k as int].1,
        )
    }
}

/// The load that a command needs, given the cache.
pub open spec fn request_for(e: Seq<Entry>, c: CommandView) -> LoadRequestView {
    match c {
        CommandView::PlayMusic { filename, .. } => LoadRequestView::Music { filename },
        CommandView::LoadSfx { filename, data } => if contains_name(e, filename) {
            LoadRequestView::Nothing
        } else {
            LoadRequestView::SoundFromMemory { data }
        },
        CommandView::PlaySfx { filename, .. } => if filename.len() > 0 && !contains_name(e, filename) {
            LoadRequestView::Sound { filename }
        } else {
            LoadRequestView::Nothing
        },
        _ => LoadRequestView::Nothing,
    }
}

/// A load outcome read as the answer to a sound load.
pub open spec fn sound_result(o: LoadOutcomeView) -> Result<u64, LoadError> {
    match o {
        LoadOutcomeView::Sound { handle } => Ok(handle),
        _ => Err(LoadError),
    }
}

pub open spec fn play_call(
    handle: u64,
    channel: i32,
    note: u16,
    panning: i32,
    rate: i32,
) -> EngineCall {
    EngineCall::PlaySound { handle, channel, note, panning, rate }
}

/// The cache and the engine calls after dispatching `c` against cache `e`,
/// where `o` is the engine's answer to `request_for(e, c)`.
///
/// A sound effect is chosen by filename when that is non-empty (loading it on
/// demand), otherwise by numeric index; an index out of range plays nothing.
pub open spec fn dispatch_step(e: Seq<Entry>, c: CommandView, o: LoadOutcomeView) -> (
    Seq<Entry>,
    Seq<EngineCall>,
) {
    match c {
        CommandView::PlayMusic { start_position, loops, .. } => match o {
            LoadOutcomeView::Music { sub_tracks } => (
                register_sub_tracks(e, sub_tracks, sub_tracks.len()),
                seq![EngineCall::PlayMusic { start_position }, EngineCall::SetLooping { loops }],
            ),
            _ => (e, Seq::empty()),
        },
        CommandView::LoadSfx { filename, .. } => match o {
            LoadOutcomeView::Sound { handle } => (insert_step(e, filename, handle), Seq::empty()),
            _ => (e, Seq::empty()),
        },
        CommandView::PlaySfx { id, filename, channel, note, panning, rate, .. } => if filename.len()
            > 0 {
            let (e2, r) = load_step(e, filename, sound_result(o));
            match r {
                Ok(h) => (e2, seq![play_call(h, channel, note, panning, rate)]),
                Err(_) => (e2, Seq::empty()),
            }
        } else {
            match by_index(e, id as int) {
                Some(h) => (e, seq![play_call(h, channel, note, panning, rate)]),
                None => (e, Seq::empty()),
            }
        },
        CommandView::MusicState { stop, chan, pause, resume } => if stop {
            if chan >= 0 {
                (e, seq![EngineCall::StopChannel { channel: chan }])
            } else {
                (e, seq![EngineCall::Stop])
            }
        } else if pause {
            (e, seq![EngineCall::Pause { flag: 1 }])
        } else if resume {
            (e, seq![EngineCall::Pause { flag: 0 }])
        } else {
            (e, Seq::empty())
        },
        CommandView::Volume { volume } => (e, seq![EngineCall::SetVolume { volume }]),
    }
}

fn digit_str(d: usize) -> (r: &'static str)
    requires
        d < 10,
    ensures
        r@ == seq![digit(d as nat)],
{
    if d == 0 {
        proof { reveal_strlit("0"); }
        "0"
    } else if d == 1 {
        proof { reveal_strlit("1"); }
        "1"
    } else if d == 2 {
        proof { reveal_strlit("2"); }
        "2"
    } else if d == 3 {
        proof { reveal_strlit("3"); }
        "3"
    } else if d == 4 {
        proof { reveal_strlit("4"); }
        "4"
    } else if d == 5 {
        proof { reveal_strlit("5"); }
        "5"
    } else if d == 6 {
        proof { reveal_strlit("6"); }
        "6"
    } else if d == 7 {
        proof { reveal_strlit("7"); }
        "7"
    } else if d == 8 {
        proof { reveal_strlit("8"); }
        "8"
    } else {
        proof { reveal_strlit("9"); }
        "9"
    }
}

/// Appends the decimal digits of `n` to `out`.
pub fn push_decimal(out: &mut String, n: usize)
    ensures
        final(out)@ == old(out)@ + decimal(n as nat),
    decreases n,
{
    if n >= 10 {
        push_decimal(out, n / 10);
    }
    out.append(digit_str(n % 10));
    proof {
        if n >= 10 {
            assert(decimal(n as nat) == decimal((n / 10) as nat).push(digit((n % 10) as nat)));
        }
        assert(final(out)@ =~= old(out)@ + decimal(n as nat));
    }
}

/// The cache name of sub-track `i` called `name`: `"<i>:<name>"`.
pub fn sub_track_label(i: usize, name: &String) -> (r: String)
    ensures
        r@ == sub_track_name(i as nat, name@),
{
    let mut out = String::new();
    push_decimal(&mut out, i);
    out.append(":");
    out.append(name.as_str());
    proof {
        reveal_strlit(":");
        assert(out@ =~= sub_track_name(i as nat, name@));
    }
    out
}

/// The load that `cmd` needs before `dispatch` can run it.
pub fn load_request(cache: &AssetCache, cmd: &Command) -> (r: LoadRequest)
    requires
        cache.wf(),
    ensures
        r@ == request_for(cache@, cmd@),
{
    match cmd {
        Command::PlayMusic { filename, .. } => LoadRequest::Music { filename: filename.clone() },
        Command::LoadSfx { filename, data } => if cache.contains(filename) {
            LoadRequest::Nothing
        } else {
            LoadRequest::SoundFromMemory { data: data.clone() }
        },
        Command::PlaySfx { filename, .. } => if !filename.as_str().is_empty() && !cache.contains(filename) {
            LoadRequest::Sound { filename: filename.clone() }
        } else {
            LoadRequest::Nothing
        },
        _ => LoadRequest::Nothing,
    }
}

fn outcome_as_sound(outcome: &LoadOutcome) -> (r: Result<u64, LoadError>)
    ensures
        r == sound_result(outcome@),
{
    match outcome {
        LoadOutcome::Sound { handle } => Ok(*handle),
        _ => Err(LoadError),
    }
}

/// Registers each sub-track of a loaded song under `"<index>:<name>"`.
pub fn register_sub_track_names(cache: &mut AssetCache, sub_tracks: &Vec<SubTrack>)
    requires
        old(cache).wf(),
    ensures
        final(cache).wf(),
        final(cache)@ == register_sub_tracks(
            old(cache)@,
            sub_tracks@.map_values(|t: SubTrack| (t.name@, t.handle)),
            sub_tracks@.len(),
        ),
{
    let ghost subs = sub_tracks@.map_values(|t: SubTrack| (t.name@, t.handle));
    let mut i: usize = 0;
    while i < sub_tracks.len()
        invariant
            i <= sub_tracks@.len(),
            subs == sub_tracks@.map_values(|t: SubTrack| (t.name@, t.handle)),
            cache.wf(),
            cache@ == register_sub_tracks(old(cache)@, subs, i as nat),
        decreases sub_tracks@.len() - i,
    {
        let t = &sub_tracks[i];
        let label = sub_track_label(i, &t.name);
        cache.register_preloaded(label, t.handle);
        proof {
            assert(subs[i as int] == (t.name@, t.handle));
        }
        i = i + 1;
    }
}

/// Plays sound effect by `filename` when it is non-empty (using `outcome` as
/// the loader's answer if it is not cached yet), else by numeric `id`.
/// Returns the play call to make, or `None` when nothing resolves.
pub fn play_sfx(
    cache: &mut AssetCache,
    id: i32,
    filename: &String,
    channel: i32,
    note: u16,
    panning: i32,
    rate: i32,
    outcome: &LoadOutcome,
) -> (r: Option<EngineCall>)
    requires
        old(cache).wf(),
    ensures
        final(cache).wf(),
        ({
            let (e2, calls) = dispatch_step(
                old(cache)@,
                CommandView::PlaySfx { id, filename: filename@, channel, note, panning, rate, loops: 0 },
                outcome@,
            );
            &&& final(cache)@ == e2
            &&& r matches Some(c) ==> calls == seq![c]
            &&& r is None ==> calls.len() == 0
        }),
{
    if !filename.as_str().is_empty() {
        match cache.resolve_or_load(filename.clone(), outcome_as_sound(outcome)) {
            Ok(h) => Some(EngineCall::PlaySound { handle: h, channel, note, panning, rate }),
            Err(_) => None,
        }
    } else {
        match cache.resolve_by_index(id) {
            Some(h) => Some(EngineCall::PlaySound { handle: h, channel, note, panning, rate }),
            None => None,
        }
    }
}

/// Dispatches one command: updates the cache and returns the engine calls to
/// make, in order. `outcome` is the engine's answer to `load_request(cache, cmd)`.
pub fn dispatch(
    cache: &mut AssetCache,
    cmd: &Command,
    outcome: &LoadOutcome,
) -> (r: Vec<EngineCall>)
    requires
        old(cache).wf(),
    ensures
        final(cache).wf(),
        (final(cache)@, r@) == dispatch_step(old(cache)@, cmd@, outcome@),
{
    let mut calls: Vec<EngineCall> = Vec::new();
    match cmd {
        Command::PlayMusic { start_position, loops, .. } => {
            match outcome {
                LoadOutcome::Music { sub_tracks } => {
                    register_sub_track_names(cache, sub_tracks);
                    calls.push(EngineCall::PlayMusic { start_position: *start_position });
                    calls.push(EngineCall::SetLooping { loops: *loops });
                },
                _ => {},
            }
        },
        Command::LoadSfx { filename, .. } => {
            match outcome {
                LoadOutcome::Sound { handle } => {
                    cache.register_preloaded(filename.clone(), *handle);
                },
                _ => {},
            }
        },
        Command::PlaySfx { id, filename, channel, note, panning, rate, .. } => {
            match play_sfx(cache, *id, filename, *channel, *note, *panning, *rate, outcome) {
                Some(c) => calls.push(c),
                None => {},
            }
        },
        Command::MusicState { stop, chan, pause, resume } => {
            if *stop {
                if *chan >= 0 {
                    calls.push(EngineCall::StopChannel { channel: *chan });
                } else {
                    calls.push(EngineCall::Stop);
                }
            } else if *pause {
                calls.push(EngineCall::Pause { flag: 1 });
            } else if *resume {
                calls.push(EngineCall::Pause { flag: 0 });
            }
        },
        Command::Volume { volume } => {
            calls.push(EngineCall::SetVolume { volume: *volume });
        },
    }
    proof {
        assert(calls@ =~= dispatch_step(old(cache)@, cmd@, outcome@).1);
    }
    calls
}

/// A sound effect request with an empty filename and an index out of range
/// makes no engine call and leaves the cache as it was.
pub proof fn lemma_unresolved_sfx_is_silent(
    e: Seq<Entry>,
    id: i32,
    channel: i32,
    note: u16,
    panning: i32,
    rate: i32,
    loops: i32,
    o: LoadOutcomeView,
)
    requires
        id < 0 || id >= e.len(),
    ensures
        dispatch_step(
            e,
            CommandView::PlaySfx { id, filename: Seq::empty(), channel, note, panning, rate, loops },
            o,
        ) == (e, Seq::<EngineCall>::empty()),
        request_for(
            e,
            CommandView::PlaySfx { id, filename: Seq::empty(), channel, note, panning, rate, loops },
        ) == LoadRequestView::Nothing,
{
}

proof fn lemma_insert_extends(e: Seq<Entry>, name: Seq<char>, handle: u64)
    ensures
        e.is_prefix_of(insert_step(e, name, handle)),
{
    assert(e =~= insert_step(e, name, handle).subrange(0, e.len() as int));
}

proof fn lemma_register_extends(e: Seq<Entry>, subs: Seq<Entry>, n: nat)
    ensures
        e.is_prefix_of(register_sub_tracks(e, subs, n)),
    decreases n,
{
    if n > 0 {
        let k = (n - 1) as nat;
        let mid = register_sub_tracks(e, subs, k);
        lemma_register_extends(e, subs, k);
        lemma_insert_extends(mid, sub_track_name(k, subs[k as int].0), subs[k as int].1);
        let last = register_sub_tracks(e, subs, n);
        assert(e =~= last.subrange(0, e.len() as int)) by {
            assert forall|i: int| 0 <= i < e.len() implies e[i] == last[i] by {
                assert(e[i] == mid[i]);
                assert(mid[i] == last[i]);
            }
        }
    }
}

/// Dispatch only ever appends to the cache: every existing entry keeps its
/// numeric index and handle.
pub proof fn lemma_dispatch_only_appends(e: Seq<Entry>, c: CommandView, o: LoadOutcomeView)
    ensures
        e.is_prefix_of(dispatch_step(e, c, o).0),
{
    match c {
        CommandView::PlayMusic { .. } => match o {
            LoadOutcomeView::Music { sub_tracks } => {
                lemma_register_extends(e, sub_tracks, sub_tracks.len());
            },
            _ => {
                assert(e =~= e.subrange(0, e.len() as int));
            },
        },
        CommandView::LoadSfx { filename, .. } => match o {
            LoadOutcomeView::Sound { handle } => {
                lemma_insert_extends(e, filename, handle);
            },
            _ => {
                assert(e =~= e.subrange(0, e.len() as int));
            },
        },
        CommandView::PlaySfx { filename, .. } => {
            let e2 = dispatch_step(e, c, o).0;
            assert(e =~= e2.subrange(0, e.len() as int));
        },
        _ => {
            assert(e =~= e.subrange(0, e.len() as int));
        },
    }
}

} // verus!
