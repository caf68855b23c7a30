use ephyr_restreamer::api::{ErrorCode, MutationsRoot};
use ephyr_restreamer::callback::{on_callback, CallbackError, Event, Request};
use ephyr_restreamer::ids::{InputKey, RestreamKey, Status};
use ephyr_restreamer::restreamer::{PortAllocator, RestreamerKind, RestreamersPool};
use ephyr_restreamer::state::{InputEndpointKind, InputSrc};
use ephyr_restreamer::store::{State, StoreError};
use ephyr_restreamer::supervisor::{Supervisor, SupervisorAction, SupervisorEvent};
use ephyr_restreamer::v1;
use ephyr_restreamer::{MixinSrcUrl, OutputDstUrl, UrlParts, Volume, VolumeLevel};

fn dst(s: &str) -> OutputDstUrl {
    OutputDstUrl::new(UrlParts::parse(s).unwrap()).unwrap()
}

fn mixin_src(s: &str) -> MixinSrcUrl {
    MixinSrcUrl::new(UrlParts::parse(s).unwrap()).unwrap()
}

fn push_restream(key: &str) -> v1::Restream {
    v1::Restream {
        id: None,
        key: RestreamKey::new(key).unwrap(),
        label: None,
        input: v1::Input {
            id: None,
            key: InputKey::new(key).unwrap(),
            endpoints: vec![v1::InputEndpoint { kind: InputEndpointKind::Rtmp, label: None }],
            src: None,
            enabled: true,
        },
        outputs: vec![],
    }
}

fn output_spec(url: &str, enabled: bool) -> v1::Output {
    v1::Output {
        id: None,
        dst: dst(url),
        label: None,
        preview_url: None,
        volume: v1::Volume::default(),
        mixins: vec![],
        enabled,
    }
}

fn request(action: Event, app: &str, stream: &str, vhost: &str, loopback: bool, client: &str) -> Request {
    Request {
        action,
        app: app.to_string(),
        stream: Some(stream.to_string()),
        vhost: vhost.to_string(),
        ip_is_loopback: loopback,
        client_id: client.to_string(),
    }
}

fn copy_urls(pool: &RestreamersPool, id: u128) -> (String, String) {
    let e = pool.pool.iter().find(|e| e.id == id).unwrap();
    match &e.kind {
        RestreamerKind::Copy(c) => (c.from_url.clone(), c.to_url.clone()),
        _ => panic!("not a copy"),
    }
}

#[test]
fn create_and_publish() {
    let mut state = State::new();
    let mut pool = RestreamersPool::new();
    let mut ports = PortAllocator::new();
    state.add_restream(push_restream("live1")).unwrap();
    pool.apply(&state.restreams, &mut ports);
    assert_eq!(pool.pool.len(), 0);

    let req = request(Event::OnPublish, "live1", "live1", "", false, "A");
    assert_eq!(on_callback(&req, &mut state), Ok(()));
    assert_eq!(state.restreams[0].input.endpoints[0].status, Status::Online);
    pool.apply(&state.restreams, &mut ports);
    assert_eq!(pool.pool.len(), 0);

    let rid = state.restreams[0].id;
    assert_eq!(state.add_output(rid, output_spec("rtmp://dst/live", true)), Ok(Some(())));
    let changes = pool.apply(&state.restreams, &mut ports);
    assert_eq!(pool.pool.len(), 1);
    assert_eq!(changes.started.len(), 1);
    let oid = state.restreams[0].outputs[0].id.0;
    let (from, to) = copy_urls(&pool, oid);
    assert_eq!(from, "rtmp://127.0.0.1:1935/live1/live1");
    assert_eq!(to, "rtmp://dst/live");
}

#[test]
fn mix_with_hot_volume_tune() {
    let mut state = State::new();
    let mut pool = RestreamersPool::new();
    let mut ports = PortAllocator::new();
    state.add_restream(push_restream("live1")).unwrap();
    let rid = state.restreams[0].id;
    on_callback(&request(Event::OnPublish, "live1", "live1", "", true, "A"), &mut state).unwrap();
    state.add_output(rid, output_spec("rtmp://dst/live", true)).unwrap();
    pool.apply(&state.restreams, &mut ports);
    let oid = state.restreams[0].outputs[0].id;

    let r = MutationsRoot::set_output(
        &mut state,
        rid,
        dst("rtmp://dst/live"),
        None,
        None,
        vec![mixin_src("ts://vc.example/room?name=Bot")],
        Some(oid),
    );
    assert_eq!(r, Ok(Some(true)));
    let mid = state.restreams[0].outputs[0].mixins[0].id;
    let full = Volume { level: VolumeLevel::new(100).unwrap(), muted: false };
    assert_eq!(state.tune_volume(rid, oid, Some(mid), full), Some(false));
    let changes = pool.apply(&state.restreams, &mut ports);
    assert_eq!(changes.started, vec![oid.0]);
    let entry = pool.pool.iter().find(|e| e.id == oid.0).unwrap();
    assert!(matches!(entry.kind, RestreamerKind::Mixing(_)));

    let half = Volume { level: VolumeLevel::new(50).unwrap(), muted: false };
    assert_eq!(state.tune_volume(rid, oid, Some(mid), half), Some(true));
    let changes = pool.apply(&state.restreams, &mut ports);
    assert!(changes.started.is_empty());
    assert!(changes.stopped.is_empty());
    assert_eq!(changes.tunes.len(), 1);
    let expected = format!("volume@{} volume 0.50", uuid::Uuid::from_u128(mid.0));
    assert_eq!(changes.tunes[0].message(), expected);
}

#[test]
fn failover_switchover() {
    let mut state = State::new();
    let mut pool = RestreamersPool::new();
    let mut ports = PortAllocator::new();
    let r = MutationsRoot::set_restream(&mut state, RestreamKey::new("show").unwrap(), None, None, None, true, false, None);
    assert_eq!(r, Ok(Some(true)));
    let origin_endpoint = state.restreams[0].input.endpoints[0].id.0;
    match &state.restreams[0].input.src {
        Some(InputSrc::Failover(f)) => {
            assert_eq!(f.inputs.len(), 2);
            assert_eq!(f.inputs[0].key.as_str(), "main");
            assert_eq!(f.inputs[1].key.as_str(), "backup");
        }
        _ => panic!("expected a failover source"),
    }
    on_callback(&request(Event::OnPublish, "show", "main", "", true, "M"), &mut state).unwrap();
    on_callback(&request(Event::OnPublish, "show", "backup", "", true, "B"), &mut state).unwrap();
    pool.apply(&state.restreams, &mut ports);
    assert_eq!(copy_urls(&pool, origin_endpoint).0, "rtmp://127.0.0.1:1935/show/main");

    on_callback(&request(Event::OnUnpublish, "show", "main", "", true, "M"), &mut state).unwrap();
    let changes = pool.apply(&state.restreams, &mut ports);
    assert_eq!(copy_urls(&pool, origin_endpoint).0, "rtmp://127.0.0.1:1935/show/backup");
    assert!(changes.started.contains(&origin_endpoint));
}

#[test]
fn dup_guards() {
    let mut state = State::new();
    state.add_restream(push_restream("live1")).unwrap();
    let rid = state.restreams[0].id;
    let first = MutationsRoot::set_output(&mut state, rid, dst("rtmp://x/y"), None, None, vec![], None);
    assert_eq!(first, Ok(Some(true)));
    let second = MutationsRoot::set_output(&mut state, rid, dst("rtmp://x/y"), None, None, vec![], None);
    let e = second.unwrap_err();
    assert_eq!(e.code, ErrorCode::DuplicateOutputUrl);
    assert_eq!(e.code_text(), "DUPLICATE_OUTPUT_URL");
    assert_eq!(e.status, 409);

    let six: Vec<MixinSrcUrl> = (0..6).map(|n| mixin_src(&format!("https://host/{}.mp3", n))).collect();
    let e = MutationsRoot::set_output(&mut state, rid, dst("rtmp://x/z"), None, None, six, None).unwrap_err();
    assert_eq!(e.code_text(), "TOO_MUCH_MIXIN_URLS");
    assert_eq!(e.status, 400);
    assert_eq!(state.restreams[0].outputs.len(), 1);
}

#[test]
fn unstable_classification() {
    let mut s = Supervisor::new();
    assert_eq!(s.on_event(SupervisorEvent::Spawning { now: 0 }), (Some(Status::Initializing), SupervisorAction::Launch));
    let (status, action) = s.on_event(SupervisorEvent::Exited { now: 3 });
    assert_eq!(status, Some(Status::Offline));
    assert_eq!(action, SupervisorAction::RespawnAfter { secs: 2 });
    assert_eq!(s.time_of_fail, Some(3));
    s.on_event(SupervisorEvent::Spawning { now: 5 });
    assert_eq!(s.on_event(SupervisorEvent::Exited { now: 8 }).0, Some(Status::Unstable));
    s.on_event(SupervisorEvent::Spawning { now: 10 });
    assert_eq!(s.on_event(SupervisorEvent::Settled).0, Some(Status::Online));
    assert_eq!(s.on_event(SupervisorEvent::Exited { now: 60 }).0, Some(Status::Offline));
    assert_eq!(s.on_event(SupervisorEvent::ShutdownRequested), (Some(Status::Offline), SupervisorAction::Stop));
    assert_eq!(s.on_event(SupervisorEvent::Spawning { now: 70 }), (None, SupervisorAction::Done));
}

#[test]
fn disable_restream_sets_endpoints_offline() {
    let mut state = State::new();
    state.add_restream(push_restream("live1")).unwrap();
    let rid = state.restreams[0].id;
    on_callback(&request(Event::OnPublish, "live1", "live1", "", true, "A"), &mut state).unwrap();
    on_callback(&request(Event::OnPlay, "live1", "live1", "", true, "P"), &mut state).unwrap();
    assert_eq!(state.restreams[0].input.endpoints[0].srs_player_ids.len(), 1);
    assert_eq!(state.disable_restream(rid), Some(true));
    let e = &state.restreams[0].input.endpoints[0];
    assert_eq!(e.status, Status::Offline);
    assert!(e.srs_publisher_id.is_none());
    assert!(e.srs_player_ids.is_empty());
    assert_eq!(state.disable_restream(rid), Some(false));
    assert_eq!(state.enable_restream(rid), Some(true));
}

#[test]
fn unpublish_sets_offline() {
    let mut state = State::new();
    state.add_restream(push_restream("live1")).unwrap();
    on_callback(&request(Event::OnPublish, "live1", "live1", "", true, "A"), &mut state).unwrap();
    on_callback(&request(Event::OnUnpublish, "live1", "live1", "", true, "A"), &mut state).unwrap();
    assert_eq!(state.restreams[0].input.endpoints[0].status, Status::Offline);
    assert!(state.restreams[0].input.endpoints[0].srs_publisher_id.is_none());
}

#[test]
fn callback_errors() {
    let mut state = State::new();
    state.add_restream(push_restream("live1")).unwrap();
    assert_eq!(on_callback(&request(Event::OnConnect, "live1", "live1", "", true, "A"), &mut state), Ok(()));
    assert_eq!(on_callback(&request(Event::OnConnect, "nope", "live1", "", true, "A"), &mut state), Err(CallbackError::AppNotFound));
    assert_eq!(on_callback(&request(Event::OnPublish, "live1", "other", "", true, "A"), &mut state), Err(CallbackError::StreamNotFound));
    assert_eq!(on_callback(&request(Event::OnPublish, "live1", "live1", "hls", true, "A"), &mut state), Err(CallbackError::VhostNotAllowed));
    assert_eq!(on_callback(&request(Event::OnHls, "live1", "live1", "", true, "A"), &mut state), Err(CallbackError::VhostNotAllowed));
}

#[test]
fn external_publish_refused_on_pull_input() {
    let mut state = State::new();
    let src = ephyr_restreamer::InputSrcUrl::new(UrlParts::parse("rtmp://upstream/app/stream").unwrap()).unwrap();
    let r = MutationsRoot::set_restream(&mut state, RestreamKey::new("pull").unwrap(), None, Some(src), None, false, true, None);
    assert_eq!(r, Ok(Some(true)));
    assert_eq!(
        on_callback(&request(Event::OnPublish, "pull", "origin", "", false, "X"), &mut state),
        Err(CallbackError::OnlyLocal)
    );
    assert_eq!(on_callback(&request(Event::OnPublish, "pull", "origin", "", true, "X"), &mut state), Ok(()));
    assert_eq!(
        on_callback(&request(Event::OnHls, "pull", "origin", "hls", true, "H"), &mut state),
        Err(CallbackError::NotReady)
    );
}

#[test]
fn hls_transcoding_only_while_ready() {
    let mut state = State::new();
    let mut pool = RestreamersPool::new();
    let mut ports = PortAllocator::new();
    MutationsRoot::set_restream(&mut state, RestreamKey::new("tv").unwrap(), None, None, None, false, true, None).unwrap();
    pool.apply(&state.restreams, &mut ports);
    assert_eq!(pool.pool.len(), 0);
    on_callback(&request(Event::OnPublish, "tv", "origin", "", true, "A"), &mut state).unwrap();
    pool.apply(&state.restreams, &mut ports);
    assert_eq!(pool.pool.len(), 1);
    match &pool.pool[0].kind {
        RestreamerKind::Transcoding(t) => {
            assert_eq!(t.from_url, "rtmp://127.0.0.1:1935/tv/origin");
            assert_eq!(t.to_url, "rtmp://127.0.0.1:1935/tv?vhost=hls/origin");
            assert_eq!(t.vcodec.as_deref(), Some("libx264"));
        }
        _ => panic!("expected a transcoding"),
    }
    on_callback(&request(Event::OnUnpublish, "tv", "origin", "", true, "A"), &mut state).unwrap();
    let changes = pool.apply(&state.restreams, &mut ports);
    assert_eq!(pool.pool.len(), 0);
    assert_eq!(changes.stopped.len(), 1);
}

#[test]
fn restream_key_conflicts() {
    let mut state = State::new();
    assert_eq!(state.add_restream(push_restream("a")), Ok(()));
    assert_eq!(state.add_restream(push_restream("a")), Err(StoreError::RestreamKeyInUse));
    assert_eq!(state.add_restream(push_restream("b")), Ok(()));
    let ida = state.restreams[0].id;
    assert_eq!(state.edit_restream(ida, push_restream("b")), Err(StoreError::RestreamKeyInUse));
    assert_eq!(state.edit_restream(ida, push_restream("c")), Ok(Some(())));
    assert_eq!(state.restreams[0].key.as_str(), "c");
    assert_eq!(state.remove_restream(ida), Some(()));
    assert_eq!(state.remove_restream(ida), None);
    assert_eq!(state.restreams.len(), 1);
}

fn pull_restream(key: &str, url: &str) -> v1::Restream {
    let mut r = push_restream(key);
    r.input.src = Some(v1::InputSrc::RemoteUrl(
        ephyr_restreamer::InputSrcUrl::new(UrlParts::parse(url).unwrap()).unwrap(),
    ));
    r
}

#[test]
fn replace_import_preserves_ids_but_clears_orphans() {
    let mut state = State::new();
    let mut pool = RestreamersPool::new();
    let mut ports = PortAllocator::new();
    state.add_restream(pull_restream("a", "rtmp://up/a")).unwrap();
    state.add_restream(pull_restream("b", "rtmp://up/b")).unwrap();
    pool.apply(&state.restreams, &mut ports);
    assert_eq!(pool.pool.len(), 2);
    let ids: Vec<_> = state.restreams.iter().map(|r| r.id).collect();
    let b_endpoint = state.restreams[1].input.endpoints[0].id.0;

    let exported = state.export();
    assert_eq!(MutationsRoot::import(&mut state, exported, true, None), Ok(Some(true)));
    let after: Vec<_> = state.restreams.iter().map(|r| r.id).collect();
    assert_eq!(ids, after);
    let changes = pool.apply(&state.restreams, &mut ports);
    assert!(changes.started.is_empty());
    assert!(changes.stopped.is_empty());

    let mut only_a = state.export();
    only_a.restreams.retain(|r| r.key.as_str() == "a");
    assert_eq!(MutationsRoot::import(&mut state, only_a, true, None), Ok(Some(true)));
    assert_eq!(state.restreams.len(), 1);
    assert_eq!(state.restreams[0].id, ids[0]);
    let changes = pool.apply(&state.restreams, &mut ports);
    assert_eq!(changes.stopped, vec![b_endpoint]);
    assert_eq!(pool.pool.len(), 1);
}

#[test]
fn import_refuses_invalid_spec() {
    let mut state = State::new();
    let spec = v1::Spec { settings: None, restreams: vec![push_restream("a"), push_restream("a")] };
    let e = MutationsRoot::import(&mut state, spec, false, None).unwrap_err();
    assert_eq!(e.code, ErrorCode::InvalidSpec);
    assert!(state.restreams.is_empty());
}

#[test]
fn mixing_filter_graph() {
    let mut state = State::new();
    let mut ports = PortAllocator::new();
    state.add_restream(push_restream("live1")).unwrap();
    let rid = state.restreams[0].id;
    let mut spec = output_spec("rtmp://dst/live", true);
    spec.mixins = vec![
        v1::Mixin {
            src: mixin_src("ts://vc.example/room"),
            volume: v1::Volume::default(),
            delay: ephyr_restreamer::Delay::from_millis(3500).unwrap(),
            sidechain: true,
        },
        v1::Mixin {
            src: mixin_src("https://music/a.mp3"),
            volume: v1::Volume { level: VolumeLevel::new(50).unwrap(), muted: false },
            delay: ephyr_restreamer::Delay::from_millis(0).unwrap(),
            sidechain: false,
        },
    ];
    state.add_output(rid, spec).unwrap();
    let kind = RestreamerKind::from_output(&state.restreams[0].outputs[0], "rtmp://127.0.0.1:1935/live1/live1", None, &mut ports).unwrap();
    let m = match kind {
        RestreamerKind::Mixing(m) => m,
        _ => panic!("expected a mixing"),
    };
    let oid = uuid::Uuid::from_u128(m.id).to_string();
    let m1 = uuid::Uuid::from_u128(m.mixins[0].id.0).to_string();
    let m2 = uuid::Uuid::from_u128(m.mixins[1].id.0).to_string();
    let expected = [
        format!("[0:a]volume@{oid}=1.00,aresample=48000,azmq=bind_address=tcp\\\\\\://127.0.0.1\\\\\\:20000[{oid}]"),
        format!("[1:a]volume@{m1}=1.00,aresample=async=1,adelay=delays=3500:all=1,azmq=bind_address=tcp\\\\\\://127.0.0.1\\\\\\:20001[{m1}]"),
        format!("[2:a]volume@{m2}=0.50,aresample=48000,azmq=bind_address=tcp\\\\\\://127.0.0.1\\\\\\:20002[{m2}]"),
        format!("[{m1}]asplit=2[sc][mix];[{oid}][sc]sidechaincompress=level_in=2:threshold=0.01:ratio=10:attack=10:release=1500[compr]"),
        format!("[compr][mix][{m2}]amix=inputs=3:duration=longest[out]"),
    ]
    .join(";");
    assert_eq!(m.filter_complex().unwrap(), expected);
    let args = m.args("/tmp", &UrlParts::parse("rtmp://dst/live").unwrap(), "").unwrap();
    assert_eq!(args[0..2].to_vec(), vec!["-i".to_string(), "rtmp://127.0.0.1:1935/live1/live1".to_string()]);
    assert!(args.contains(&format!("/tmp/ephyr_mixin_{m1}.pipe")));
    assert!(args.contains(&"f32le".to_string()));
    assert_eq!(args.last().unwrap(), "rtmp://dst/live");
}

#[test]
fn status_write_back_and_input_toggles() {
    let mut state = State::new();
    MutationsRoot::set_restream(&mut state, RestreamKey::new("show").unwrap(), None, None, None, true, false, None).unwrap();
    let rid = state.restreams[0].id;
    let (main_id, main_endpoint) = match &state.restreams[0].input.src {
        Some(InputSrc::Failover(f)) => (f.inputs[0].id, f.inputs[0].endpoints[0].id),
        _ => panic!("expected a failover source"),
    };
    assert!(state.renew_status(main_endpoint.0, Status::Initializing));
    assert!(!state.renew_status(main_endpoint.0, Status::Online));
    assert_eq!(state.disable_input(main_id, rid), Some(true));
    match &state.restreams[0].input.src {
        Some(InputSrc::Failover(f)) => {
            assert!(!f.inputs[0].enabled);
            assert_eq!(f.inputs[0].endpoints[0].status, Status::Offline);
            assert!(f.inputs[1].enabled);
        }
        _ => panic!("expected a failover source"),
    }
    assert_eq!(state.enable_input(main_id, rid), Some(true));
    let label = ephyr_restreamer::ids::Label::new("Main cam").unwrap();
    assert_eq!(state.change_endpoint_label(main_id, rid, main_endpoint, Some(label)), Some(true));
    match &state.restreams[0].input.src {
        Some(InputSrc::Failover(f)) => assert_eq!(f.inputs[0].endpoints[0].label.as_ref().unwrap().as_str(), "Main cam"),
        _ => panic!("expected a failover source"),
    }
    let missing = ephyr_restreamer::ids::InputId(7);
    assert_eq!(state.enable_input(missing, rid), None);
    assert!(state.get_output(rid, ephyr_restreamer::ids::OutputId(1)).is_none());
}

#[test]
fn sidechain_stays_single() {
    let mut state = State::new();
    state.add_restream(push_restream("live1")).unwrap();
    let rid = state.restreams[0].id;
    let mut spec = output_spec("rtmp://dst/live", true);
    spec.mixins = vec![
        v1::Mixin {
            src: mixin_src("ts://vc.example/a"),
            volume: v1::Volume::default(),
            delay: ephyr_restreamer::Delay::from_millis(0).unwrap(),
            sidechain: true,
        },
        v1::Mixin {
            src: mixin_src("ts://vc.example/b"),
            volume: v1::Volume::default(),
            delay: ephyr_restreamer::Delay::from_millis(0).unwrap(),
            sidechain: false,
        },
    ];
    state.add_output(rid, spec).unwrap();
    let oid = state.restreams[0].outputs[0].id;
    let second = state.restreams[0].outputs[0].mixins[1].id;
    assert_eq!(state.tune_sidechain(rid, oid, second, true), Some(true));
    let ms = &state.restreams[0].outputs[0].mixins;
    assert!(!ms[0].sidechain);
    assert!(ms[1].sidechain);
    let missing = ephyr_restreamer::ids::MixinId(9);
    assert_eq!(state.tune_sidechain(rid, oid, missing, true), None);
    assert_eq!(state.tune_delay(rid, oid, missing, ephyr_restreamer::Delay::from_millis(1).unwrap()), None);
}

#[test]
fn set_output_on_missing_restream() {
    let mut state = State::new();
    let r = MutationsRoot::set_output(&mut state, ephyr_restreamer::ids::RestreamId(5), dst("rtmp://x/y"), None, None, vec![], None);
    assert_eq!(r, Ok(None));
}

#[test]
fn mixing_keeps_previous_ports() {
    let mut state = State::new();
    let mut ports = PortAllocator::new();
    state.add_restream(push_restream("live1")).unwrap();
    let rid = state.restreams[0].id;
    let mut spec = output_spec("rtmp://dst/live", true);
    spec.mixins = vec![v1::Mixin {
        src: mixin_src("https://music/a.mp3"),
        volume: v1::Volume::default(),
        delay: ephyr_restreamer::Delay::from_millis(0).unwrap(),
        sidechain: false,
    }];
    state.add_output(rid, spec).unwrap();
    let from = "rtmp://127.0.0.1:1935/live1/live1";
    let output = &state.restreams[0].outputs[0];
    let first = RestreamerKind::from_output(output, from, None, &mut ports).unwrap();
    let again = RestreamerKind::from_output(output, from, Some(&first), &mut ports).unwrap();
    let fresh = RestreamerKind::from_output(output, from, None, &mut ports).unwrap();
    match (&first, &again, &fresh) {
        (RestreamerKind::Mixing(a), RestreamerKind::Mixing(b), RestreamerKind::Mixing(c)) => {
            assert_eq!(b.orig_zmq_port, a.orig_zmq_port);
            assert_eq!(b.mixins[0].zmq_port, a.mixins[0].zmq_port);
            assert_ne!(c.orig_zmq_port, a.orig_zmq_port);
            assert_ne!(c.mixins[0].zmq_port, a.mixins[0].zmq_port);
        }
        _ => panic!("expected mixing processes"),
    }
}
