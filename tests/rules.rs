use ephyr_restreamer::api::{ErrorCode, MutationsRoot};
use ephyr_restreamer::ids::{InputKey, Label, RestreamKey};
use ephyr_restreamer::restreamer::PortAllocator;
use ephyr_restreamer::state::{InputEndpointKind, Restream};
use ephyr_restreamer::store::State;
use ephyr_restreamer::supervisor::{change_status, stopped_cleanly};
use ephyr_restreamer::ids::Status;
use ephyr_restreamer::statistics::{Stream, StreamInfo, StatusStatistics, UNumber};
use ephyr_restreamer::v1::{self, SpecError};
use ephyr_restreamer::{Delay, InputSrcUrl, MixinSrcUrl, OutputDstUrl, UrlParts};

fn url(s: &str) -> UrlParts {
    UrlParts::parse(s).unwrap()
}

fn mixin(s: &str, sidechain: bool) -> v1::Mixin {
    v1::Mixin {
        src: MixinSrcUrl::new(url(s)).unwrap(),
        volume: v1::Volume::default(),
        delay: Delay::from_millis(0).unwrap(),
        sidechain,
    }
}

#[test]
fn url_validation() {
    assert!(UrlParts::parse("not a url").is_none());
    assert!(OutputDstUrl::validate(&url("rtmp://host/app")));
    assert!(OutputDstUrl::validate(&url("srt://host:1234")));
    assert!(OutputDstUrl::validate(&url("icecast://host/mount")));
    assert!(OutputDstUrl::validate(&url("file:///record.flv")));
    assert!(!OutputDstUrl::validate(&url("file:///dir/record.flv")));
    assert!(!OutputDstUrl::validate(&url("file:///record.avi")));
    assert!(!OutputDstUrl::validate(&url("http://host/x")));
    assert!(InputSrcUrl::validate(&url("https://host/live.m3u8")));
    assert!(!InputSrcUrl::validate(&url("https://host/live.mp4")));
    assert!(MixinSrcUrl::validate(&url("ts://vc.example/room")));
    assert!(MixinSrcUrl::validate(&url("http://host/track.mp3")));
    assert!(!MixinSrcUrl::validate(&url("http://host/track.wav")));
    assert_eq!(url("RTMP://Host/App").scheme, "rtmp");
}

#[test]
fn keys_and_labels() {
    assert!(RestreamKey::new("live_1-a").is_some());
    assert!(RestreamKey::new("Live").is_none());
    assert!(RestreamKey::new("").is_none());
    assert!(InputKey::new("abcdefghijklmnopqrstu").is_none());
    assert!(Label::new("My stream").is_some());
    assert!(Label::new("a,b").is_none());
}

#[test]
fn mixin_limits() {
    let ok = vec![mixin("ts://a/x", true), mixin("http://h/a.mp3", false)];
    assert_eq!(v1::Output::check_mixins(&ok), Ok(()));
    let dup = vec![mixin("ts://a/x", false), mixin("ts://a/x", false)];
    assert_eq!(v1::Output::check_mixins(&dup), Err(SpecError::DuplicateMixinSrc));
    let ts = vec![mixin("ts://a/1", false), mixin("ts://a/2", false), mixin("ts://a/3", false), mixin("ts://a/4", false)];
    assert_eq!(v1::Output::check_mixins(&ts), Err(SpecError::TooManyVoiceChatMixins));
    let side = vec![mixin("ts://a/1", true), mixin("ts://a/2", true)];
    assert_eq!(v1::Output::check_mixins(&side), Err(SpecError::MultipleSidechains));
    let many: Vec<v1::Mixin> = (0..6).map(|n| mixin(&format!("http://h/{}.mp3", n), false)).collect();
    assert_eq!(v1::Output::check_mixins(&many), Err(SpecError::TooManyMixins));
}

fn input(key: &str, kinds: &[InputEndpointKind], src: Option<v1::InputSrc>) -> v1::Input {
    v1::Input {
        id: None,
        key: InputKey::new(key).unwrap(),
        endpoints: kinds.iter().map(|k| v1::InputEndpoint { kind: *k, label: None }).collect(),
        src,
        enabled: true,
    }
}

#[test]
fn input_checks() {
    let (hls, rtmp) = (InputEndpointKind::Hls, InputEndpointKind::Rtmp);
    assert_eq!(input("a", &[rtmp, hls], None).check(), Ok(()));
    assert_eq!(input("a", &[rtmp, rtmp], None).check(), Err(SpecError::DuplicateEndpointKind));
    assert_eq!(input("a", &[hls], None).check(), Err(SpecError::NoRtmpEndpoint));
    let dup_keys = v1::InputSrc::FailoverInputs(vec![input("m", &[rtmp], None), input("m", &[rtmp], None)]);
    assert_eq!(input("a", &[rtmp], Some(dup_keys)).check(), Err(SpecError::DuplicateInputKey));
    let u = || v1::InputSrc::RemoteUrl(InputSrcUrl::new(url("rtmp://up/a")).unwrap());
    let dup_urls = v1::InputSrc::FailoverInputs(vec![input("m", &[rtmp], Some(u())), input("b", &[rtmp], Some(u()))]);
    assert_eq!(input("a", &[rtmp], Some(dup_urls)).check(), Err(SpecError::DuplicateRemoteUrl));
}

#[test]
fn spec_checks() {
    let r = |k: &str| v1::Restream {
        id: None,
        key: RestreamKey::new(k).unwrap(),
        label: None,
        input: input(k, &[InputEndpointKind::Rtmp], None),
        outputs: vec![],
    };
    assert_eq!(v1::Spec::check_restreams(&vec![r("a"), r("b")]), Ok(()));
    assert_eq!(v1::Spec::check_restreams(&vec![r("a"), r("a")]), Err(SpecError::DuplicateRestreamKey));
    let o = |d: &str| v1::Output {
        id: None,
        dst: OutputDstUrl::new(url(d)).unwrap(),
        label: None,
        preview_url: None,
        volume: v1::Volume::default(),
        mixins: vec![],
        enabled: false,
    };
    assert_eq!(v1::Restream::check_outputs(&vec![o("rtmp://a/b"), o("rtmp://a/c")]), Ok(()));
    assert_eq!(v1::Restream::check_outputs(&vec![o("rtmp://a/b"), o("rtmp://a/b")]), Err(SpecError::DuplicateOutputDst));
}

#[test]
fn export_then_import_keeps_configuration() {
    let mut state = State::new();
    let src = InputSrcUrl::new(url("https://up/live.m3u8")).unwrap();
    MutationsRoot::set_restream(&mut state, RestreamKey::new("x").unwrap(), None, Some(src), None, false, true, None).unwrap();
    let exported = state.restreams[0].export();
    assert_eq!(exported.id, Some(state.restreams[0].id));
    let imported = Restream::new(exported);
    assert_eq!(imported.key.as_str(), "x");
    assert_eq!(imported.input.key.as_str(), "origin");
    assert_eq!(imported.input.endpoints.len(), 2);
    assert_eq!(imported.input.endpoints[1].kind, InputEndpointKind::Hls);
    assert_ne!(imported.id, state.restreams[0].id);
}

#[test]
fn ports_wrap() {
    let mut p = PortAllocator::new();
    assert_eq!(p.new_unique_zmq_port(), 20000);
    assert_eq!(p.new_unique_zmq_port(), 20001);
    p.latest = u16::MAX;
    assert_eq!(p.new_unique_zmq_port(), u16::MAX);
    assert_eq!(p.latest, 20000);
}

#[test]
fn status_classification() {
    assert_eq!(change_status(None, 100, Status::Offline), Status::Offline);
    assert_eq!(change_status(Some(90), 100, Status::Offline), Status::Unstable);
    assert_eq!(change_status(Some(85), 100, Status::Initializing), Status::Initializing);
    assert!(stopped_cleanly(Some(0), None));
    assert!(stopped_cleanly(Some(255), None));
    assert!(stopped_cleanly(None, Some(15)));
    assert!(!stopped_cleanly(Some(1), None));
}

#[test]
fn settings_and_paths() {
    let mut state = State::new();
    assert_eq!(MutationsRoot::set_settings(&mut state, Some("x".repeat(71)), None, None).unwrap_err().code, ErrorCode::WrongTitleLength);
    assert_eq!(MutationsRoot::set_settings(&mut state, Some("Main".to_string()), Some(false), None), Ok(true));
    assert_eq!(state.settings.title.as_deref(), Some("Main"));
    assert!(MutationsRoot::check_dvr_file_path("a/b.flv").is_ok());
    assert!(MutationsRoot::check_dvr_file_path("/etc/passwd").is_err());
    assert!(MutationsRoot::check_dvr_file_path("a/../b").is_err());
}

#[test]
fn clients_and_outputs() {
    let mut state = State::new();
    assert!(state.add_client("http://peer").is_ok());
    assert!(state.add_client("http://peer").is_err());
    assert_eq!(state.remove_client("http://peer"), Some(()));
    assert_eq!(state.remove_client("http://peer"), None);
    assert!(!MutationsRoot::enables_all_outputs_of_restreams(&mut state));
}

#[test]
fn copy_arguments() {
    let args = ephyr_restreamer::ffmpeg::copy_args(&url("https://up/live.m3u8"), &url("srt://host:9000"), "").unwrap();
    assert_eq!(
        args,
        vec!["-re", "-i", "https://up/live.m3u8", "-c", "copy", "-strict", "-2", "-y", "-f", "mpegts", "srt://host:9000"]
    );
    let args = ephyr_restreamer::ffmpeg::copy_args(&url("rtmp://in/a"), &url("file:///rec.mp3"), "/dvr/x/rec.mp3").unwrap();
    assert_eq!(
        args,
        vec!["-i", "rtmp://in/a", "-vn", "-acodec", "libmp3lame", "-b:a", "64k", "-ar", "48000", "-ac", "2", "/dvr/x/rec.mp3"]
    );
    let args = ephyr_restreamer::ffmpeg::copy_args(&url("rtmp://in/a"), &url("icecast://ice/mount"), "").unwrap();
    assert_eq!(args[2..5].to_vec(), vec!["-vn", "-acodec", "libmp3lame"]);
    assert!(ephyr_restreamer::ffmpeg::copy_args(&url("ftp://in/a"), &url("rtmp://o/b"), "").is_none());
}

#[test]
fn status_statistics() {
    let mut state = State::new();
    for k in ["a", "b", "c"] {
        let spec = v1::Restream {
            id: None,
            key: RestreamKey::new(k).unwrap(),
            label: None,
            input: input(k, &[InputEndpointKind::Rtmp], None),
            outputs: vec![],
        };
        state.add_restream(spec).unwrap();
    }
    state.restreams[1].input.endpoints[0].status = Status::Online;
    assert_eq!(
        state.get_inputs_statistics(),
        vec![
            StatusStatistics { status: Status::Offline, count: 2 },
            StatusStatistics { status: Status::Online, count: 1 },
        ]
    );
    assert!(state.get_outputs_statistics().is_empty());
}

#[test]
fn stream_lookup() {
    let info = StreamInfo {
        streams: vec![
            Stream { codec_type: Some("video".to_string()), codec_name: Some("h264".to_string()), ..Default::default() },
            Stream { codec_type: Some("audio".to_string()), codec_name: Some("aac".to_string()), ..Default::default() },
        ],
        format: Default::default(),
    };
    assert_eq!(info.find_stream("audio").unwrap().codec_name.as_deref(), Some("aac"));
    assert!(info.find_stream("data").is_none());
    assert_eq!(UNumber::new(7).0, 7);
}

#[test]
fn voice_chat_parameters() {
    use_voice_chat();
}

fn use_voice_chat() {
    let src = MixinSrcUrl::new(url("ts://vc.example:9987//room?name=Bot&identity=abc")).unwrap();
    let c = ephyr_restreamer::voice_chat::voice_chat_connection(&src, None, ephyr_restreamer::ids::MixinId(1)).unwrap();
    assert_eq!(c.host, "vc.example:9987");
    assert_eq!(c.channel, "room");
    assert_eq!(c.name, "Bot");
    assert_eq!(c.identity.as_deref(), Some("abc"));
    let src = MixinSrcUrl::new(url("ts://vc.example/room")).unwrap();
    let label = Label::new("Show").unwrap();
    let c = ephyr_restreamer::voice_chat::voice_chat_connection(&src, Some(&label), ephyr_restreamer::ids::MixinId(1)).unwrap();
    assert_eq!(c.host, "vc.example");
    assert_eq!(c.name, "🤖 Show");
    assert!(c.identity.is_none());
    let c = ephyr_restreamer::voice_chat::voice_chat_connection(&src, None, ephyr_restreamer::ids::MixinId(1)).unwrap();
    assert_eq!(c.name, format!("🤖 {}", uuid::Uuid::from_u128(1)));
    let mp3 = MixinSrcUrl::new(url("http://music/a.mp3")).unwrap();
    assert!(ephyr_restreamer::voice_chat::voice_chat_connection(&mp3, None, ephyr_restreamer::ids::MixinId(1)).is_none());
}

#[test]
fn readiness_looks_at_the_whole_tree() {
    let rtmp = InputEndpointKind::Rtmp;
    let grandchild = input("deep", &[rtmp], None);
    let child = input("mid", &[rtmp], Some(v1::InputSrc::FailoverInputs(vec![grandchild])));
    let root = input("top", &[rtmp], Some(v1::InputSrc::FailoverInputs(vec![child])));
    let mut tree = ephyr_restreamer::state::Input::new(root);
    assert!(!tree.is_ready_to_serve());
    match &mut tree.src {
        Some(ephyr_restreamer::state::InputSrc::Failover(f)) => match &mut f.inputs[0].src {
            Some(ephyr_restreamer::state::InputSrc::Failover(g)) => g.inputs[0].endpoints[0].status = Status::Online,
            _ => panic!("expected a nested failover"),
        },
        _ => panic!("expected a failover"),
    }
    assert!(tree.is_ready_to_serve());
}

#[test]
fn merge_import_keeps_ids() {
    let mut state = State::new();
    let r = |k: &str| v1::Restream {
        id: None,
        key: RestreamKey::new(k).unwrap(),
        label: None,
        input: input(k, &[InputEndpointKind::Rtmp], None),
        outputs: vec![],
    };
    state.add_restream(r("a")).unwrap();
    let id_a = state.restreams[0].id;
    state.apply(v1::Spec { settings: None, restreams: vec![r("a"), r("b")] }, false);
    assert_eq!(state.restreams.len(), 2);
    assert_eq!(state.restreams[0].id, id_a);
    assert_eq!(state.restreams[1].key.as_str(), "b");
    assert!(!state.renew_status(12345, Status::Offline));
}

#[test]
fn backup_equal_to_main_is_refused() {
    let mut state = State::new();
    let src = |s: &str| InputSrcUrl::new(url(s)).unwrap();
    let e = MutationsRoot::set_restream(
        &mut state,
        RestreamKey::new("x").unwrap(),
        None,
        Some(src("rtmp://up/app/one")),
        Some(src("rtmp://up/app/one")),
        true,
        false,
        None,
    )
    .unwrap_err();
    assert_eq!(e.code, ErrorCode::InvalidSpec);
    assert!(state.restreams.is_empty());
    let r = MutationsRoot::set_restream(
        &mut state,
        RestreamKey::new("x").unwrap(),
        None,
        Some(src("rtmp://up/app/one")),
        Some(src("rtmp://up/app/two")),
        true,
        false,
        None,
    );
    assert_eq!(r, Ok(Some(true)));
    assert_eq!(state.restreams.len(), 1);
}

#[test]
fn set_output_keeps_mixin_settings() {
    let mut state = State::new();
    MutationsRoot::set_restream(&mut state, RestreamKey::new("x").unwrap(), None, None, None, false, false, None).unwrap();
    let rid = state.restreams[0].id;
    let ts = || MixinSrcUrl::new(url("ts://vc.example/room?name=Bot")).unwrap();
    let mp3 = || MixinSrcUrl::new(url("https://host/a.mp3")).unwrap();
    let dst = || OutputDstUrl::new(url("rtmp://dst/live")).unwrap();
    let r = MutationsRoot::set_output(&mut state, rid, dst(), Some(Label::new("Main").unwrap()), None, vec![ts(), mp3()], None);
    assert_eq!(r, Ok(Some(true)));
    let o = &state.restreams[0].outputs[0];
    assert_eq!(o.label.as_ref().unwrap().as_str(), "Main");
    assert!(!o.enabled);
    assert_eq!(o.mixins[0].delay.total_millis(), 3500);
    assert_eq!(o.mixins[1].delay.total_millis(), 0);
    assert_eq!(o.volume.level.level(), 100);
    let (oid, mid) = (o.id, o.mixins[0].id);

    let half = ephyr_restreamer::Volume { level: ephyr_restreamer::VolumeLevel::new(50).unwrap(), muted: false };
    state.tune_volume(rid, oid, Some(mid), half).unwrap();
    state.tune_volume(rid, oid, None, half).unwrap();
    let r = MutationsRoot::set_output(&mut state, rid, dst(), None, None, vec![mp3(), ts()], Some(oid));
    assert_eq!(r, Ok(Some(true)));
    let o = &state.restreams[0].outputs[0];
    assert_eq!(o.id, oid);
    assert!(o.label.is_none());
    assert_eq!(o.volume.level.level(), 50);
    assert_eq!(o.mixins[0].delay.total_millis(), 0);
    assert_eq!(o.mixins[0].volume.level.level(), 100);
    assert_eq!(o.mixins[1].delay.total_millis(), 3500);
    assert_eq!(o.mixins[1].volume.level.level(), 50);

    let r = MutationsRoot::set_output(&mut state, rid, dst(), None, None, vec![], Some(oid));
    assert_eq!(r, Ok(Some(true)));
    let o = &state.restreams[0].outputs[0];
    assert!(o.mixins.is_empty());
    assert_eq!(o.volume.level.level(), 100);
}

#[test]
fn replace_import_keeps_runtime_state() {
    let mut state = State::new();
    let out = |u: &str| v1::Output {
        id: None,
        dst: OutputDstUrl::new(url(u)).unwrap(),
        label: None,
        preview_url: None,
        volume: v1::Volume::default(),
        mixins: vec![],
        enabled: false,
    };
    let r = |outputs: Vec<v1::Output>| v1::Restream {
        id: None,
        key: RestreamKey::new("a").unwrap(),
        label: None,
        input: input("a", &[InputEndpointKind::Rtmp], None),
        outputs,
    };
    state.add_restream(r(vec![out("rtmp://dst/one")])).unwrap();
    let rid = state.restreams[0].id;
    let input_id = state.restreams[0].input.id;
    let endpoint_id = state.restreams[0].input.endpoints[0].id;
    let oid = state.restreams[0].outputs[0].id;
    assert_eq!(state.enable_output(oid, rid), Some(true));
    state.apply(v1::Spec { settings: None, restreams: vec![r(vec![out("rtmp://dst/two"), out("rtmp://dst/one")])] }, true);
    let got = &state.restreams[0];
    assert_eq!(got.id, rid);
    assert_eq!(got.input.id, input_id);
    assert_eq!(got.input.endpoints[0].id, endpoint_id);
    assert_eq!(got.outputs.len(), 2);
    assert_ne!(got.outputs[0].id, oid);
    assert!(!got.outputs[0].enabled);
    assert_eq!(got.outputs[1].id, oid);
    assert!(got.outputs[1].enabled);
}

#[test]
fn merge_import_keeps_outputs() {
    let mut state = State::new();
    let out = |u: &str| v1::Output {
        id: None,
        dst: OutputDstUrl::new(url(u)).unwrap(),
        label: None,
        preview_url: None,
        volume: v1::Volume::default(),
        mixins: vec![],
        enabled: false,
    };
    let r = |outputs: Vec<v1::Output>| v1::Restream {
        id: None,
        key: RestreamKey::new("a").unwrap(),
        label: None,
        input: input("a", &[InputEndpointKind::Rtmp], None),
        outputs,
    };
    state.add_restream(r(vec![out("rtmp://dst/one")])).unwrap();
    let rid = state.restreams[0].id;
    let input_id = state.restreams[0].input.id;
    let oid = state.restreams[0].outputs[0].id;
    assert_eq!(state.enable_output(oid, rid), Some(true));
    state.apply(v1::Spec { settings: None, restreams: vec![r(vec![out("rtmp://dst/two"), out("rtmp://dst/one")])] }, false);
    let got = &state.restreams[0];
    assert_eq!(got.id, rid);
    assert_eq!(got.input.id, input_id);
    assert_eq!(got.outputs.len(), 2);
    assert_eq!(got.outputs[0].id, oid);
    assert!(got.outputs[0].enabled);
    assert_eq!(got.outputs[1].dst.as_str(), "rtmp://dst/two");
}

#[test]
fn replace_import_keeps_mixin_ids() {
    let mut state = State::new();
    let out = |mixins: Vec<v1::Mixin>| v1::Output {
        id: None,
        dst: OutputDstUrl::new(url("rtmp://dst/one")).unwrap(),
        label: None,
        preview_url: None,
        volume: v1::Volume::default(),
        mixins,
        enabled: false,
    };
    let r = |outputs: Vec<v1::Output>| v1::Restream {
        id: None,
        key: RestreamKey::new("a").unwrap(),
        label: None,
        input: input("a", &[InputEndpointKind::Rtmp], None),
        outputs,
    };
    state.add_restream(r(vec![out(vec![mixin("https://host/a.mp3", false)])])).unwrap();
    let mid = state.restreams[0].outputs[0].mixins[0].id;
    let spec = r(vec![out(vec![mixin("https://host/b.mp3", false), mixin("https://host/a.mp3", true)])]);
    state.apply(v1::Spec { settings: None, restreams: vec![spec] }, true);
    let got = &state.restreams[0].outputs[0];
    assert_eq!(got.mixins.len(), 2);
    assert_ne!(got.mixins[0].id, mid);
    assert_eq!(got.mixins[1].id, mid);
    assert!(got.mixins[1].sidechain);
}

#[test]
fn replace_import_keeps_failover_inputs() {
    let mut state = State::new();
    let rtmp = InputEndpointKind::Rtmp;
    let spec = || v1::Restream {
        id: None,
        key: RestreamKey::new("a").unwrap(),
        label: None,
        input: input(
            "origin",
            &[rtmp],
            Some(v1::InputSrc::FailoverInputs(vec![input("main", &[rtmp], None), input("backup", &[rtmp], None)])),
        ),
        outputs: vec![],
    };
    state.add_restream(spec()).unwrap();
    let ids = |s: &State| match &s.restreams[0].input.src {
        Some(ephyr_restreamer::state::InputSrc::Failover(f)) => (f.inputs[0].id, f.inputs[1].id),
        _ => panic!("expected a failover source"),
    };
    let before = ids(&state);
    state.apply(v1::Spec { settings: None, restreams: vec![spec()] }, true);
    assert_eq!(ids(&state), before);
}
