use unicorn_sound::cache::{AssetCache, LoadError};
use unicorn_sound::channel::CommandChannel;
use unicorn_sound::dispatch::{
    dispatch, load_request, play_sfx, push_decimal, register_sub_track_names, sub_track_label,
    EngineCall, LoadOutcome, LoadRequest, SubTrack,
};
use unicorn_sound::protocol::{decode, encode, Command, ProtocolError};
use unicorn_sound::sound::Sound;

fn decoded(batch: Vec<Vec<u8>>) -> Vec<Command> {
    batch.iter().map(|b| decode(b).unwrap()).collect()
}

#[test]
fn load_twice_is_idempotent() {
    let mut cache = AssetCache::new();
    let first = cache.resolve_or_load("a.wav".to_string(), Ok(7));
    assert_eq!(first, Ok(7));
    assert_eq!(cache.len(), 1);
    let second = cache.resolve_or_load("a.wav".to_string(), Ok(99));
    assert_eq!(second, Ok(7));
    assert_eq!(cache.len(), 1);
    let third = cache.resolve_or_load("a.wav".to_string(), Err(LoadError));
    assert_eq!(third, Ok(7));
}

#[test]
fn failed_load_leaves_cache_unchanged() {
    let mut cache = AssetCache::new();
    assert_eq!(cache.resolve_or_load("x.wav".to_string(), Err(LoadError)), Err(LoadError));
    assert_eq!(cache.len(), 0);
    assert!(!cache.contains(&"x.wav".to_string()));
}

#[test]
fn index_resolves_like_name() {
    let mut cache = AssetCache::new();
    cache.register_preloaded("a".to_string(), 10);
    cache.register_preloaded("b".to_string(), 20);
    cache.register_preloaded("c".to_string(), 30);
    for i in 0..3usize {
        let name = cache.name_at(i).unwrap().clone();
        let by_name = cache.resolve_or_load(name, Ok(0)).unwrap();
        assert_eq!(cache.resolve_by_index(i as i32), Some(by_name));
    }
    assert_eq!(cache.resolve_by_index(3), None);
    assert_eq!(cache.resolve_by_index(-1), None);
    assert_eq!(cache.name_at(3), None);
}

#[test]
fn preloaded_name_is_never_replaced() {
    let mut cache = AssetCache::new();
    cache.register_preloaded("a".to_string(), 1);
    cache.register_preloaded("a".to_string(), 2);
    assert_eq!(cache.len(), 1);
    assert_eq!(cache.resolve_by_index(0), Some(1));
    assert_eq!(cache.find(&"a".to_string()), Some(0));
}

#[test]
fn commands_come_out_in_send_order() {
    let mut sound = Sound::new();
    sound.music_volume(1);
    sound.music_pause();
    sound.stop_chan(3);
    let cmds = decoded(sound.take_commands());
    assert_eq!(
        cmds,
        vec![
            Command::Volume { volume: 1 },
            Command::MusicState { stop: false, chan: -1, pause: true, resume: false },
            Command::MusicState { stop: true, chan: 3, pause: false, resume: false },
        ]
    );
}

#[test]
fn sends_across_drains_keep_order() {
    let mut ch = CommandChannel::new();
    ch.send(vec![1]);
    ch.send(vec![2]);
    assert_eq!(ch.drain(), vec![vec![1], vec![2]]);
    ch.send(vec![3]);
    assert_eq!(ch.pending(), 1);
    assert_eq!(ch.drain(), vec![vec![3]]);
}

#[test]
fn draining_empty_channel_returns_nothing() {
    let mut ch = CommandChannel::new();
    assert!(ch.drain().is_empty());
    assert_eq!(ch.pending(), 0);
    let mut sound = Sound::new();
    assert!(sound.take_commands().is_empty());
    assert_eq!(sound.chiptune_get_position(), 0);
}

#[test]
fn unresolved_sfx_makes_no_call() {
    let mut cache = AssetCache::new();
    cache.register_preloaded("a".to_string(), 5);
    let cmd = Command::PlaySfx {
        id: 4,
        filename: String::new(),
        channel: 0,
        note: 60,
        panning: 0,
        rate: 100,
        loops: 0,
    };
    assert_eq!(load_request(&cache, &cmd), LoadRequest::Nothing);
    let calls = dispatch(&mut cache, &cmd, &LoadOutcome::NotLoaded);
    assert!(calls.is_empty());
    assert_eq!(cache.len(), 1);
    let neg = Command::PlaySfx {
        id: -1,
        filename: String::new(),
        channel: 0,
        note: 60,
        panning: 0,
        rate: 100,
        loops: 0,
    };
    assert!(dispatch(&mut cache, &neg, &LoadOutcome::NotLoaded).is_empty());
}

#[test]
fn load_then_play_sfx_by_name() {
    let mut sound = Sound::new();
    let mut cache = AssetCache::new();
    sound.load_sfx("jump.wav".to_string(), vec![1, 2, 3]);
    sound.sfx(-1, "jump.wav".to_string(), 0, 60, 0, 100, 0);
    let cmds = decoded(sound.take_commands());
    assert_eq!(cmds.len(), 2);

    assert_eq!(load_request(&cache, &cmds[0]), LoadRequest::SoundFromMemory { data: vec![1, 2, 3] });
    let calls = dispatch(&mut cache, &cmds[0], &LoadOutcome::Sound { handle: 42 });
    assert!(calls.is_empty());
    assert_eq!(cache.len(), 1);
    assert_eq!(cache.name_at(0), Some(&"jump.wav".to_string()));

    assert_eq!(load_request(&cache, &cmds[1]), LoadRequest::Nothing);
    let calls = dispatch(&mut cache, &cmds[1], &LoadOutcome::NotLoaded);
    assert_eq!(
        calls,
        vec![EngineCall::PlaySound { handle: 42, channel: 0, note: 60, panning: 0, rate: 100 }]
    );
    assert_eq!(cache.len(), 1);
}

#[test]
fn play_music_registers_sub_tracks() {
    let mut sound = Sound::new();
    let mut cache = AssetCache::new();
    sound.music(0, "theme.mod".to_string(), 0, 1, 0);
    let cmds = decoded(sound.take_commands());
    assert_eq!(load_request(&cache, &cmds[0]), LoadRequest::Music { filename: "theme.mod".to_string() });
    let subs = vec![
        SubTrack { name: "bass".to_string(), handle: 100 },
        SubTrack { name: "lead".to_string(), handle: 101 },
        SubTrack { name: "drums".to_string(), handle: 102 },
    ];
    let calls = dispatch(&mut cache, &cmds[0], &LoadOutcome::Music { sub_tracks: subs });
    assert_eq!(calls, vec![EngineCall::PlayMusic { start_position: 0 }, EngineCall::SetLooping { loops: 1 }]);
    assert_eq!(cache.len(), 3);
    assert_eq!(cache.name_at(0), Some(&"0:bass".to_string()));
    assert_eq!(cache.name_at(1), Some(&"1:lead".to_string()));
    assert_eq!(cache.name_at(2), Some(&"2:drums".to_string()));
    assert_eq!(cache.resolve_by_index(1), Some(101));
}

#[test]
fn failed_music_load_is_a_no_op() {
    let mut cache = AssetCache::new();
    let cmd = Command::PlayMusic { id: 0, channel: 0, filename: "bad.mod".to_string(), loops: 1, start_position: 0 };
    assert!(dispatch(&mut cache, &cmd, &LoadOutcome::Failed).is_empty());
    assert_eq!(cache.len(), 0);
}

#[test]
fn volume_is_forwarded_and_position_published() {
    let mut sound = Sound::new();
    let mut cache = AssetCache::new();
    sound.music_volume(50);
    let cmds = decoded(sound.take_commands());
    let calls = dispatch(&mut cache, &cmds[0], &LoadOutcome::NotLoaded);
    assert_eq!(calls, vec![EngineCall::SetVolume { volume: 50 }]);
    sound.publish_position(1234);
    assert_eq!(sound.chiptune_get_position(), 1234);
}

#[test]
fn music_state_commands_map_to_one_call() {
    let mut cache = AssetCache::new();
    let mut sound = Sound::new();
    sound.music_stop();
    sound.stop_chan(2);
    sound.music_pause();
    sound.music_resume();
    let cmds = decoded(sound.take_commands());
    let calls: Vec<Vec<EngineCall>> =
        cmds.iter().map(|c| dispatch(&mut cache, c, &LoadOutcome::NotLoaded)).collect();
    assert_eq!(
        calls,
        vec![
            vec![EngineCall::Stop],
            vec![EngineCall::StopChannel { channel: 2 }],
            vec![EngineCall::Pause { flag: 1 }],
            vec![EngineCall::Pause { flag: 0 }],
        ]
    );
    let none = Command::MusicState { stop: false, chan: -1, pause: false, resume: false };
    assert!(dispatch(&mut cache, &none, &LoadOutcome::NotLoaded).is_empty());
}

#[test]
fn filename_takes_precedence_over_id() {
    let mut cache = AssetCache::new();
    cache.register_preloaded("a".to_string(), 1);
    cache.register_preloaded("b".to_string(), 2);
    let call = play_sfx(&mut cache, 0, &"b".to_string(), 1, 2, 3, 4, &LoadOutcome::NotLoaded);
    assert_eq!(call, Some(EngineCall::PlaySound { handle: 2, channel: 1, note: 2, panning: 3, rate: 4 }));
    let call = play_sfx(&mut cache, 0, &String::new(), 1, 2, 3, 4, &LoadOutcome::NotLoaded);
    assert_eq!(call, Some(EngineCall::PlaySound { handle: 1, channel: 1, note: 2, panning: 3, rate: 4 }));
}

#[test]
fn sfx_loaded_on_demand() {
    let mut cache = AssetCache::new();
    let cmd = Command::PlaySfx { id: -1, filename: "boom.wav".to_string(), channel: 1, note: 40, panning: -5, rate: 50, loops: 0 };
    assert_eq!(load_request(&cache, &cmd), LoadRequest::Sound { filename: "boom.wav".to_string() });
    let calls = dispatch(&mut cache, &cmd, &LoadOutcome::Sound { handle: 9 });
    assert_eq!(calls, vec![EngineCall::PlaySound { handle: 9, channel: 1, note: 40, panning: -5, rate: 50 }]);
    assert_eq!(cache.len(), 1);
    let failed = dispatch(
        &mut AssetCache::new(),
        &cmd,
        &LoadOutcome::Failed,
    );
    assert!(failed.is_empty());
}

#[test]
fn codec_round_trips_every_variant() {
    let cmds = vec![
        Command::PlayMusic { id: -3, channel: 7, filename: "thème.mod".to_string(), loops: 1, start_position: 123456 },
        Command::LoadSfx { filename: "a".to_string(), data: vec![0, 255, 7] },
        Command::PlaySfx { id: i32::MIN, filename: String::new(), channel: i32::MAX, note: 65535, panning: -1, rate: 100, loops: 2 },
        Command::MusicState { stop: true, chan: -1, pause: false, resume: true },
        Command::Volume { volume: 50 },
    ];
    for c in cmds {
        assert_eq!(decode(&encode(&c)), Ok(c.clone()));
    }
}

#[test]
fn encoding_layout_is_exact() {
    assert_eq!(encode(&Command::Volume { volume: 50 }), vec![4, 50, 0, 0, 0]);
    assert_eq!(encode(&Command::Volume { volume: -2 }), vec![4, 254, 255, 255, 255]);
    assert_eq!(
        encode(&Command::LoadSfx { filename: "é".to_string(), data: vec![9] }),
        vec![1, 2, 0, 0, 0, 0, 0, 0, 0, 0xc3, 0xa9, 1, 0, 0, 0, 0, 0, 0, 0, 9]
    );
    assert_eq!(
        encode(&Command::MusicState { stop: true, chan: 1, pause: false, resume: false }),
        vec![3, 1, 1, 0, 0, 0, 0, 0]
    );
}

#[test]
fn malformed_buffers_are_rejected() {
    assert_eq!(decode(&[]), Err(ProtocolError));
    assert_eq!(decode(&[9, 0, 0, 0, 0]), Err(ProtocolError));
    assert_eq!(decode(&[4, 50, 0, 0]), Err(ProtocolError));
    assert_eq!(decode(&[4, 50, 0, 0, 0, 0]), Err(ProtocolError));
    assert_eq!(decode(&[3, 2, 1, 0, 0, 0, 0, 0]), Err(ProtocolError));
    // a filename that is not UTF-8
    assert_eq!(
        decode(&[1, 1, 0, 0, 0, 0, 0, 0, 0, 0xff, 0, 0, 0, 0, 0, 0, 0, 0]),
        Err(ProtocolError)
    );
    // a length that runs past the end
    assert_eq!(decode(&[1, 200, 0, 0, 0, 0, 0, 0, 0, 0x41]), Err(ProtocolError));
}

#[test]
fn decode_reads_text_back() {
    let bytes = vec![1, 2, 0, 0, 0, 0, 0, 0, 0, 0xc3, 0xa9, 0, 0, 0, 0, 0, 0, 0, 0];
    assert_eq!(decode(&bytes), Ok(Command::LoadSfx { filename: "é".to_string(), data: vec![] }));
}

#[test]
fn decimal_labels() {
    assert_eq!(sub_track_label(0, &"x".to_string()), "0:x");
    assert_eq!(sub_track_label(12, &"lead".to_string()), "12:lead");
    assert_eq!(sub_track_label(1907, &String::new()), "1907:");
    let mut s = String::from("n=");
    push_decimal(&mut s, 10);
    assert_eq!(s, "n=10");
}

#[test]
fn sub_track_names_do_not_replace_existing() {
    let mut cache = AssetCache::new();
    cache.register_preloaded("0:bass".to_string(), 1);
    register_sub_track_names(
        &mut cache,
        &vec![SubTrack { name: "bass".to_string(), handle: 2 }, SubTrack { name: "hat".to_string(), handle: 3 }],
    );
    assert_eq!(cache.len(), 2);
    assert_eq!(cache.resolve_by_index(0), Some(1));
    assert_eq!(cache.name_at(1), Some(&"1:hat".to_string()));
}
