//! Logic of the control API: validation of mutation arguments, building of
//! specifications out of them, and their application to the state.
use vstd::prelude::*;
use crate::ids::{InputKey, Label, MixinId, OutputId, RestreamId, RestreamKey};
use crate::state::{InputEndpointKind, Output, Settings};
use crate::store::{
    has_output, has_restream, other_outputs_unchanged, others_unchanged, output_pos, restream_pos, restream_spec_ok,
    State, StoreError,
};
use crate::urls::{InputSrcUrl, MixinSrcUrl, OutputDstUrl, UrlParts};
use crate::v1;
use crate::volume::{Delay, Volume, VolumeLevel};

verus! {

/// Domain code of a refused mutation.
#[derive(Clone, Copy, Debug, PartialEq, Eq, Structural)]
pub enum ErrorCode {
    /// More than five mixin URLs.
    TooMuchMixinUrls,
    /// A mixin URL given twice.
    DuplicateMixinUrl,
    /// More than three voice-chat mixin URLs.
    TooMuchTeamspeakMixinUrls,
    /// The output destination is used already.
    DuplicateOutputUrl,
    /// The restream key is used already.
    DuplicateRestreamKey,
    /// The specification is not acceptable.
    InvalidSpec,
    /// The title is longer than seventy characters.
    WrongTitleLength,
    /// The recorded file path is not a relative one inside the storage.
    InvalidDvrFilePath,
}

/// A refused mutation: its domain code and HTTP status.
#[derive(Clone, Copy, Debug, PartialEq, Eq, Structural)]
pub struct ApiError {
    /// Domain code.
    pub code: ErrorCode,
    /// HTTP status.
    pub status: u16,
}

/// The error of the given code, with its HTTP status: `409` for duplicates
/// of outputs and restreams, `400` otherwise.
pub open spec fn api_error(code: ErrorCode) -> ApiError {
    ApiError {
        code,
        status: if code == ErrorCode::DuplicateOutputUrl || code == ErrorCode::DuplicateRestreamKey { 409u16 } else { 400u16 },
    }
}

impl ApiError {
    /// The error of the given code, with its HTTP status: `409` for
    /// duplicates of outputs and restreams, `400` otherwise.
    pub fn new(code: ErrorCode) -> (r: Self)
        ensures
            r == api_error(code),
    {
        let status = match code {
            ErrorCode::DuplicateOutputUrl | ErrorCode::DuplicateRestreamKey => 409,
            _ => 400,
        };
        ApiError { code, status }
    }

    /// The domain code as text, such as `DUPLICATE_OUTPUT_URL`.
    pub fn code_text(&self) -> (r: &'static str) {
        match self.code {
            ErrorCode::TooMuchMixinUrls => "TOO_MUCH_MIXIN_URLS",
            ErrorCode::DuplicateMixinUrl => "DUPLICATE_MIXIN_URL",
            ErrorCode::TooMuchTeamspeakMixinUrls => "TOO_MUCH_TEAMSPEAK_MIXIN_URLS",
            ErrorCode::DuplicateOutputUrl => "DUPLICATE_OUTPUT_URL",
            ErrorCode::DuplicateRestreamKey => "DUPLICATE_RESTREAM_KEY",
            ErrorCode::InvalidSpec => "INVALID_SPEC",
            ErrorCode::WrongTitleLength => "WRONG_TITLE_LENGTH",
            ErrorCode::InvalidDvrFilePath => "INVALID_DVR_FILE_PATH",
        }
    }
}

/// Largest length of a server title.
pub const MAX_TITLE_LEN: usize = 70;

/// Source URLs of the given mixin sources.
pub open spec fn src_hrefs(m: Seq<MixinSrcUrl>) -> Seq<Seq<char>> {
    m.map_values(|x: MixinSrcUrl| x.url().href@)
}

/// Schemes of the given mixin sources.
pub open spec fn src_schemes(m: Seq<MixinSrcUrl>) -> Seq<Seq<char>> {
    m.map_values(|x: MixinSrcUrl| x.url().scheme@)
}

/// Checks mixin sources given to `set_output`: at most five, no duplicate,
/// at most three voice-chat ones.
pub fn check_mixin_srcs(mixins: &Vec<MixinSrcUrl>) -> (r: Result<(), ApiError>)
    ensures
        r == Err::<(), ApiError>(api_error(ErrorCode::TooMuchMixinUrls)) <==> mixins@.len() > v1::MAX_MIXINS,
        mixins@.len() <= v1::MAX_MIXINS ==>
            (r == Err::<(), ApiError>(api_error(ErrorCode::DuplicateMixinUrl)) <==> !v1::all_distinct(src_hrefs(mixins@))),
        mixins@.len() <= v1::MAX_MIXINS && v1::all_distinct(src_hrefs(mixins@)) ==>
            (r == Err::<(), ApiError>(api_error(ErrorCode::TooMuchTeamspeakMixinUrls))
                <==> v1::voice_chat_count(src_schemes(mixins@)) > v1::MAX_VOICE_CHAT_MIXINS),
        r is Ok <==> mixins@.len() <= v1::MAX_MIXINS && v1::all_distinct(src_hrefs(mixins@))
            && v1::voice_chat_count(src_schemes(mixins@)) <= v1::MAX_VOICE_CHAT_MIXINS,
{
    if mixins.len() > v1::MAX_MIXINS {
        return Err(ApiError::new(ErrorCode::TooMuchMixinUrls));
    }
    let mut hrefs: Vec<String> = Vec::new();
    let mut k: usize = 0;
    while k < mixins.len()
        invariant
            k <= mixins@.len(),
            hrefs@.len() == k,
            forall|j: int| 0 <= j < k ==> (#[trigger] hrefs@[j])@ == src_hrefs(mixins@)[j],
        decreases mixins@.len() - k,
    {
        hrefs.push(mixins[k].as_str().to_owned());
        k = k + 1;
    }
    let distinct = v1::strings_distinct(&hrefs);
    proof {
        v1::lemma_distinct_views(hrefs@, src_hrefs(mixins@), mixins@.len() as int);
        assert(src_hrefs(mixins@).subrange(0, mixins@.len() as int) =~= src_hrefs(mixins@));
    }
    if !distinct {
        return Err(ApiError::new(ErrorCode::DuplicateMixinUrl));
    }
    let ghost schemes = src_schemes(mixins@);
    let mut ts: usize = 0;
    let mut k: usize = 0;
    while k < mixins.len()
        invariant
            k <= mixins@.len() <= v1::MAX_MIXINS,
            schemes == src_schemes(mixins@),
            ts == v1::voice_chat_count(schemes.subrange(0, k as int)),
            ts <= k,
        decreases mixins@.len() - k,
    {
        if mixins[k].is_voice_chat() {
            ts = ts + 1;
        }
        proof {
            assert(schemes.subrange(0, k + 1).drop_last() =~= schemes.subrange(0, k as int));
        }
        k = k + 1;
    }
    proof {
        assert(schemes.subrange(0, k as int) =~= schemes);
    }
    if ts > v1::MAX_VOICE_CHAT_MIXINS {
        return Err(ApiError::new(ErrorCode::TooMuchTeamspeakMixinUrls));
    }
    Ok(())
}

/// Delay given to a new voice-chat mixin, in milliseconds.
pub const VOICE_CHAT_DELAY_MILLIS: i64 = 3500;

/// Whether `j` is the first of the mixins `ms` pulling from the URL of `src`.
pub open spec fn first_from(ms: Seq<crate::state::Mixin>, src: MixinSrcUrl, j: int) -> bool {
    &&& 0 <= j < ms.len()
    &&& ms[j].src.url().href@ == src.url().href@
    &&& forall|i: int| 0 <= i < j ==> (#[trigger] ms[i]).src.url().href@ != src.url().href@
}

/// Whether some of the mixins `ms` pulls from the URL of `src`.
pub open spec fn any_from(ms: Seq<crate::state::Mixin>, src: MixinSrcUrl) -> bool {
    exists|j: int| 0 <= j < ms.len() && (#[trigger] ms[j]).src.url().href@ == src.url().href@
}

/// Whether a mixin pulling from `src` and set over the output `prior` (if
/// any) has the volume `v` and the delay `d`: those of the first mixin of
/// `prior` pulling from the same URL, else the original volume and, for a
/// voice-chat source, a delay of 3.5 s (none for another).
pub open spec fn mixin_settings(v: Volume, d: Delay, src: MixinSrcUrl, prior: Option<Output>) -> bool {
    if prior is Some && any_from(prior->Some_0.mixins@, src) {
        forall|j: int| #[trigger] first_from(prior->Some_0.mixins@, src, j) ==>
            v.level == prior->Some_0.mixins@[j].volume.level && v.muted == prior->Some_0.mixins@[j].volume.muted
                && d == prior->Some_0.mixins@[j].delay
    } else {
        &&& v.level.percents() == crate::volume::ORIGIN_LEVEL
        &&& !v.muted
        &&& src.url().scheme@ == "ts"@ ==> d.millis() == VOICE_CHAT_DELAY_MILLIS
        &&& src.url().scheme@ != "ts"@ ==> d.millis() == 0
    }
}

/// Whether the first mixin of `prior` pulling from the URL of `src` is
/// side-chained.
pub open spec fn prior_sidechain(src: MixinSrcUrl, prior: Option<Output>) -> bool {
    prior is Some && exists|j: int| #[trigger] first_from(prior->Some_0.mixins@, src, j) && prior->Some_0.mixins@[j].sidechain
}

/// The mixin specification for the source `src`: that of the existing
/// mixin with the same source if there is one; otherwise the original
/// volume, no side-chain, and a delay of 3.5 s for voice-chat sources.
fn mixin_spec_for(src: MixinSrcUrl, existing: Option<&Output>, allow_sidechain: bool) -> (r: v1::Mixin)
    ensures
        same_src(r.src, src),
        r.sidechain ==> allow_sidechain,
        mixin_settings(Volume { level: r.volume.level, muted: r.volume.muted }, r.delay, src,
            match existing { Some(o) => Some(*o), None => None }),
        r.sidechain == (allow_sidechain && prior_sidechain(src, match existing { Some(o) => Some(*o), None => None })),
{
    match existing {
        Some(o) => {
            let mut j: usize = 0;
            while j < o.mixins.len()
                invariant
                    j <= o.mixins@.len(),
                    existing == Some(o),
                    forall|i: int| 0 <= i < j ==> (#[trigger] o.mixins@[i]).src.url().href@ != src.url().href@,
                decreases o.mixins@.len() - j,
            {
                if o.mixins[j].src.parts().same_as(src.parts()) {
                    proof {
                        assert(first_from(o.mixins@, src, j as int));
                        assert(any_from(o.mixins@, src));
                        assert forall|i: int| #[trigger] first_from(o.mixins@, src, i) implies i == j by {
                            if i < j {
                                assert(o.mixins@[i].src.url().href@ != src.url().href@);
                            } else if i > j {
                                assert(o.mixins@[j as int].src.url().href@ != src.url().href@);
                            }
                        }
                    }
                    let r = v1::Mixin {
                        src,
                        volume: o.mixins[j].volume.export(),
                        delay: o.mixins[j].delay,
                        sidechain: o.mixins[j].sidechain && allow_sidechain,
                    };
                    proof {
                        let ex: Option<Output> = Some(*o);
                        assert((match existing { Some(o) => Some(*o), None => None::<Output> }) == ex);
                        let v = Volume { level: r.volume.level, muted: r.volume.muted };
                        assert(ex is Some && any_from(ex->Some_0.mixins@, src));
                        assert forall|i: int| #[trigger] first_from(ex->Some_0.mixins@, src, i) implies
                            v.level == ex->Some_0.mixins@[i].volume.level && v.muted == ex->Some_0.mixins@[i].volume.muted
                                && r.delay == ex->Some_0.mixins@[i].delay by {
                            assert(i == j);
                        }
                        assert(mixin_settings(v, r.delay, src, ex));
                        if o.mixins@[j as int].sidechain {
                            assert(first_from(ex->Some_0.mixins@, src, j as int));
                            assert(prior_sidechain(src, ex));
                        } else {
                            assert(!prior_sidechain(src, ex));
                        }
                    }
                    return r;
                }
                j = j + 1;
            }
            proof {
                assert(!any_from(o.mixins@, src));
            }
        },
        None => {},
    }
    let delay = if src.is_voice_chat() {
        match Delay::from_millis(VOICE_CHAT_DELAY_MILLIS) {
            Some(d) => d,
            None => Delay::zero(),
        }
    } else {
        Delay::zero()
    };
    v1::Mixin { src, volume: Volume::origin().export(), delay, sidechain: false }
}

/// Whether the output `o`, set over `prior` (the output it replaces, if
/// any) with the label `label`, the preview URL `preview_url` and mixins from
/// the sources `m`, carries them with the settings `set_output` gives: the
/// volume of `prior` if it has mixins left, else the original one; for each
/// mixin the settings of `mixin_settings`, side-chained when the first mixin
/// of `prior` with its URL was and no earlier one of `o` is.
pub open spec fn set_fields(o: Output, label: Option<Label>, preview_url: Option<UrlParts>, m: Seq<MixinSrcUrl>,
    prior: Option<Output>) -> bool {
    &&& crate::state::label_view(o.label) == crate::state::label_view(label)
    &&& crate::state::same_opt_url(o.preview_url, preview_url)
    &&& if prior is Some && m.len() > 0 {
        o.volume.level == prior->Some_0.volume.level && o.volume.muted == prior->Some_0.volume.muted
    } else {
        o.volume.level.percents() == crate::volume::ORIGIN_LEVEL && !o.volume.muted
    }
    &&& o.mixins@.len() == m.len()
    &&& forall|j: int| 0 <= j < m.len() ==> mixin_settings(#[trigger] o.mixins@[j].volume, o.mixins@[j].delay, m[j], prior)
    &&& forall|j: int| 0 <= j < m.len() ==> (#[trigger] o.mixins@[j]).sidechain
        == (prior_sidechain(m[j], prior) && forall|k: int| 0 <= k < j ==> !(#[trigger] o.mixins@[k]).sidechain)
}

/// An output matching a specification built the way `set_output` builds
/// one carries the fields `set_fields` states.
proof fn lemma_set_fields(o: Output, sp: v1::Output, label: Option<Label>, preview_url: Option<UrlParts>, m: Seq<MixinSrcUrl>,
    prior: Option<Output>)
    requires
        crate::state::output_matches(o, sp, false),
        sp.label == label,
        sp.preview_url == preview_url,
        sp.mixins@.len() == m.len(),
        forall|j: int| 0 <= j < m.len() ==> mixin_settings(
            Volume { level: (#[trigger] sp.mixins@[j]).volume.level, muted: sp.mixins@[j].volume.muted }, sp.mixins@[j].delay, m[j], prior),
        forall|j: int| 0 <= j < m.len() ==> (#[trigger] sp.mixins@[j]).sidechain
            == (prior_sidechain(m[j], prior) && forall|k: int| 0 <= k < j ==> !(#[trigger] sp.mixins@[k]).sidechain),
        if prior is Some && m.len() > 0 {
            sp.volume.level == prior->Some_0.volume.level && sp.volume.muted == prior->Some_0.volume.muted
        } else {
            sp.volume.level.percents() == crate::volume::ORIGIN_LEVEL && !sp.volume.muted
        },
    ensures
        set_fields(o, label, preview_url, m, prior),
{
    assert forall|j: int| 0 <= j < m.len() implies mixin_settings(#[trigger] o.mixins@[j].volume, o.mixins@[j].delay, m[j], prior)
        && o.mixins@[j].sidechain == sp.mixins@[j].sidechain by {
        assert(crate::state::mixin_matches(o.mixins@[j], sp.mixins@[j]));
        assert(o.mixins@[j].volume == Volume { level: sp.mixins@[j].volume.level, muted: sp.mixins@[j].volume.muted });
    }
    assert forall|j: int| 0 <= j < m.len() implies (#[trigger] o.mixins@[j]).sidechain
        == (prior_sidechain(m[j], prior) && forall|k: int| 0 <= k < j ==> !(#[trigger] o.mixins@[k]).sidechain) by {
        assert(crate::state::mixin_matches(o.mixins@[j], sp.mixins@[j]));
        assert((forall|k: int| 0 <= k < j ==> !(#[trigger] o.mixins@[k]).sidechain)
            == (forall|k: int| 0 <= k < j ==> !(#[trigger] sp.mixins@[k]).sidechain)) by {
            assert forall|k: int| 0 <= k < j implies o.mixins@[k].sidechain == sp.mixins@[k].sidechain by {
                assert(crate::state::mixin_matches(o.mixins@[k], sp.mixins@[k]));
            }
        }
    }
}

/// What a successful `set_output` leaves: the restream `restream_id` of
/// `old_rs` has, in `new_rs`, the output set to `dst` with mixins from `m`,
/// appended when `id` is none or in place of the output `id`.
pub open spec fn set_output_done(old_rs: Seq<crate::state::Restream>, new_rs: Seq<crate::state::Restream>, restream_id: RestreamId,
    dst: OutputDstUrl, label: Option<Label>, preview_url: Option<UrlParts>, m: Seq<MixinSrcUrl>, id: Option<OutputId>) -> bool {
                let k = restream_pos(old_rs, restream_id);
                let os = old_rs[k].outputs@;
                let fos = new_rs[k].outputs@;
                &&& others_unchanged(old_rs, new_rs, k)
                &&& new_rs[k].input == old_rs[k].input
                &&& match id {
                    None => fos.drop_last() == os && fos.len() == os.len() + 1
                        && set_result(fos.last(), dst, m) && !fos.last().enabled
                        && set_fields(fos.last(), label, preview_url, m, None),
                    Some(oid) => other_outputs_unchanged(os, fos, output_pos(os, oid))
                        && set_result(fos[output_pos(os, oid)], dst, m)
                        && set_fields(fos[output_pos(os, oid)], label, preview_url, m, Some(os[output_pos(os, oid)]))
                        && fos[output_pos(os, oid)].id == oid
                        && fos[output_pos(os, oid)].enabled == os[output_pos(os, oid)].enabled,
                }
            }

/// Whether the optional source `o` pulls from the optional URL `u`.
pub open spec fn pulls_from(o: Option<crate::state::InputSrc>, u: Option<InputSrcUrl>) -> bool {
    match (o, u) {
        (None, None) => true,
        (Some(crate::state::InputSrc::Remote(x)), Some(v)) => crate::state::same_url(x.url.url(), v.url()),
        _ => false,
    }
}

/// Whether the restream `r` is the one `set_restream` sets: key `key`,
/// label `label`, and an input `origin` with an RTMP endpoint (and an HLS one
/// with `with_hls`) that pulls from `src`, or, with `with_backup`, fails over
/// between the inputs `main`, pulling from `src`, and `backup`, pulling from
/// `backup_src`, each with an RTMP endpoint.
pub open spec fn restream_shape(r: crate::state::Restream, key: RestreamKey, label: Option<Label>, src: Option<InputSrcUrl>,
    backup_src: Option<InputSrcUrl>, with_backup: bool, with_hls: bool) -> bool {
    let i = r.input;
    &&& r.key@ == key@
    &&& crate::state::label_view(r.label) == crate::state::label_view(label)
    &&& i.key@ == "origin"@
    &&& i.endpoints@.len() == if with_hls { 2int } else { 1int }
    &&& i.endpoints@[0].kind == InputEndpointKind::Rtmp
    &&& with_hls ==> i.endpoints@[1].kind == InputEndpointKind::Hls
    &&& if with_backup {
        i.src matches Some(crate::state::InputSrc::Failover(f)) && f.inputs@.len() == 2
            && f.inputs@[0].key@ == "main"@ && f.inputs@[1].key@ == "backup"@
            && pulls_from(f.inputs@[0].src, src) && pulls_from(f.inputs@[1].src, backup_src)
            && f.inputs@[0].endpoints@.len() == 1 && f.inputs@[0].endpoints@[0].kind == InputEndpointKind::Rtmp
            && f.inputs@[1].endpoints@.len() == 1 && f.inputs@[1].endpoints@[0].kind == InputEndpointKind::Rtmp
    } else {
        pulls_from(i.src, src)
    }
}

/// Whether the optional specified source `o` pulls from the optional URL `u`.
pub open spec fn spec_pulls_from(o: Option<v1::InputSrc>, u: Option<InputSrcUrl>) -> bool {
    match (o, u) {
        (None, None) => true,
        (Some(v1::InputSrc::RemoteUrl(x)), Some(v)) => crate::state::same_url(x.url(), v.url()),
        _ => false,
    }
}

/// `restream_shape` for the specification of a restream.
pub open spec fn spec_shape(r: v1::Restream, key: RestreamKey, label: Option<Label>, src: Option<InputSrcUrl>,
    backup_src: Option<InputSrcUrl>, with_backup: bool, with_hls: bool) -> bool {
    let i = r.input;
    &&& r.key@ == key@
    &&& crate::state::label_view(r.label) == crate::state::label_view(label)
    &&& i.key@ == "origin"@
    &&& i.endpoints@.len() == if with_hls { 2int } else { 1int }
    &&& i.endpoints@[0].kind == InputEndpointKind::Rtmp
    &&& with_hls ==> i.endpoints@[1].kind == InputEndpointKind::Hls
    &&& if with_backup {
        i.src matches Some(v1::InputSrc::FailoverInputs(v)) && v@.len() == 2
            && v@[0].key@ == "main"@ && v@[1].key@ == "backup"@
            && spec_pulls_from(v@[0].src, src) && spec_pulls_from(v@[1].src, backup_src)
            && v@[0].endpoints@.len() == 1 && v@[0].endpoints@[0].kind == InputEndpointKind::Rtmp
            && v@[1].endpoints@.len() == 1 && v@[1].endpoints@[0].kind == InputEndpointKind::Rtmp
    } else {
        spec_pulls_from(i.src, src)
    }
}

/// Whether a main and a backup source are asked for that pull from the same
/// URL, which the input tree refuses.
pub open spec fn backup_clash(src: Option<InputSrcUrl>, backup_src: Option<InputSrcUrl>, with_backup: bool) -> bool {
    with_backup && src is Some && backup_src is Some && src->Some_0.url().href@ == backup_src->Some_0.url().href@
}

/// Of the sources a specification may pull from, one that is a remote URL or
/// none is a leaf that the checks accept alone.
proof fn lemma_leaf_ok(i: v1::Input, u: Option<InputSrcUrl>)
    requires
        spec_pulls_from(i.src, u),
    ensures
        v1::endpoint_kinds_ok(i.endpoints@) ==> v1::input_ok(i),
        v1::src_keys(i.src) == Seq::<Seq<char>>::empty(),
        v1::src_urls(i.src) == match u { Some(x) => seq![x.url().href@], None => Seq::<Seq<char>>::empty() },
{
    assert(seq![i.key@] + v1::src_keys(i.src) =~= seq![i.key@]);
}

/// An input of the `set_restream` shape passes the checks unless its main and
/// backup sources pull from the same URL.
proof fn lemma_shape_check(s: v1::Restream, key: RestreamKey, label: Option<Label>, src: Option<InputSrcUrl>,
    backup_src: Option<InputSrcUrl>, with_backup: bool, with_hls: bool)
    requires
        spec_shape(s, key, label, src, backup_src, with_backup, with_hls),
    ensures
        v1::input_ok(s.input) <==> !backup_clash(src, backup_src, with_backup),
{
    let i = s.input;
    reveal_strlit("origin");
    reveal_strlit("main");
    reveal_strlit("backup");
    if with_hls {
        assert(i.endpoints@[1].kind == InputEndpointKind::Hls);
    }
    assert(v1::endpoint_kinds_ok(i.endpoints@));
    if with_backup {
        let v = i.src->Some_0->FailoverInputs_0;
        lemma_leaf_ok(v@[0], src);
        lemma_leaf_ok(v@[1], backup_src);
        assert(v1::endpoint_kinds_ok(v@[0].endpoints@));
        assert(v1::endpoint_kinds_ok(v@[1].endpoints@));
        let w = v@.drop_last();
        assert(w.drop_last() =~= Seq::<v1::Input>::empty());
        assert(w.last() == v@[0]);
        assert(v1::forest_ok(w.drop_last()));
        assert(v1::forest_keys(w.drop_last()) =~= Seq::<Seq<char>>::empty());
        assert(v1::forest_urls(w.drop_last()) =~= Seq::<Seq<char>>::empty());
        assert(v1::forest_ok(w));
        assert(v1::forest_ok(v@));
        assert(v1::forest_keys(v@.drop_last()) =~= seq!["main"@]);
        assert(v1::forest_keys(v@) =~= seq!["main"@, "backup"@]);
        assert(seq![i.key@] + v1::src_keys(i.src) =~= seq!["origin"@, "main"@, "backup"@]);
        assert("origin"@ != "backup"@) by {
            assert("origin"@[0] != "backup"@[0]);
        }
        assert("main"@.len() != "origin"@.len());
        assert("main"@.len() != "backup"@.len());
        assert(v1::all_distinct(seq![i.key@] + v1::src_keys(i.src)));
        assert(v1::forest_urls(v@.drop_last()) =~= v1::src_urls(v@[0].src));
        assert(v1::forest_urls(v@) =~= v1::src_urls(v@[0].src) + v1::src_urls(v@[1].src));
        if backup_clash(src, backup_src, with_backup) {
            assert(v1::src_urls(i.src)[0] == v1::src_urls(i.src)[1]);
        } else {
            assert(v1::all_distinct(v1::src_urls(i.src)));
        }
    } else {
        lemma_leaf_ok(i, src);
        assert(seq![i.key@] + v1::src_keys(i.src) =~= seq![i.key@]);
    }
}

/// A restream matching a specification of the `set_restream` shape has that
/// shape.
pub proof fn lemma_restream_shape(r: crate::state::Restream, s: v1::Restream, key: RestreamKey, label: Option<Label>,
    src: Option<InputSrcUrl>, backup_src: Option<InputSrcUrl>, with_backup: bool, with_hls: bool, strict: bool)
    requires
        r.key@ == s.key@,
        crate::state::label_view(r.label) == crate::state::label_view(s.label),
        crate::state::input_matches(r.input, s.input, strict),
        spec_shape(s, key, label, src, backup_src, with_backup, with_hls),
    ensures
        restream_shape(r, key, label, src, backup_src, with_backup, with_hls),
{
    let i = r.input;
    assert(i.endpoints@[0].kind == s.input.endpoints@[0].kind);
    if with_hls {
        assert(i.endpoints@[1].kind == s.input.endpoints@[1].kind);
    }
    if with_backup {
        match (i.src, s.input.src) {
            (Some(crate::state::InputSrc::Failover(f)), Some(v1::InputSrc::FailoverInputs(v))) => {
                let a = f.inputs@;
                let b = v@;
                assert(crate::state::inputs_match(a, b, strict));
                assert(crate::state::input_matches(a.last(), b.last(), strict));
                assert(crate::state::inputs_match(a.drop_last(), b.drop_last(), strict));
                assert(crate::state::input_matches(a.drop_last().last(), b.drop_last().last(), strict));
                assert(a.drop_last().last() == a[0]);
                assert(b.drop_last().last() == b[0]);
                assert(a[0].endpoints@[0].kind == b[0].endpoints@[0].kind);
                assert(a[1].endpoints@[0].kind == b[1].endpoints@[0].kind);
            },
            _ => {},
        }
    }
}

/// Whether the mixin sources given to `set_output` pass its checks.
pub open spec fn srcs_ok(m: Seq<MixinSrcUrl>) -> bool {
    &&& m.len() <= v1::MAX_MIXINS
    &&& v1::all_distinct(src_hrefs(m))
    &&& v1::voice_chat_count(src_schemes(m)) <= v1::MAX_VOICE_CHAT_MIXINS
}

/// Whether the destination `dst` clashes with the outputs `os` when setting
/// the output `id` (a new one if none): another output has it.
pub open spec fn output_clash(os: Seq<Output>, dst: OutputDstUrl, id: Option<OutputId>) -> bool {
    match id {
        None => exists|j: int| 0 <= j < os.len() && (#[trigger] os[j]).dst.url().href@ == dst.url().href@,
        Some(oid) => (exists|j: int| 0 <= j < os.len() && (#[trigger] os[j]).dst.url().href@ == dst.url().href@ && os[j].id != oid)
            || (has_output(os, oid) && exists|j: int| 0 <= j < os.len() && (#[trigger] os[j]).dst.url().href@ == dst.url().href@
                && j != output_pos(os, oid)),
    }
}

/// Whether the output `o` is the one `set_output` sets: destination `dst`,
/// mixins from the sources `m`, in order.
pub open spec fn set_result(o: Output, dst: OutputDstUrl, m: Seq<MixinSrcUrl>) -> bool {
    &&& crate::state::same_url(o.dst.url(), dst.url())
    &&& crate::store::mixin_hrefs(o.mixins@) == src_hrefs(m)
}

/// Whether two mixin sources are the same value.
pub open spec fn same_src(a: MixinSrcUrl, b: MixinSrcUrl) -> bool {
    a == b
}

/// Root of the mutations of the main control API.
#[derive(Clone, Copy, Debug)]
pub struct MutationsRoot;

impl MutationsRoot {
    /// Sets a new output of the restream `restream_id`, or updates the output
    /// `id` if one is given. The output is created disabled; an updated one
    /// keeps its `enabled` flag. Mixins keep the settings of the existing
    /// mixins with the same source (at most one of them side-chained).
    ///
    /// Returns `None` if there is no such restream or output.
    pub fn set_output(
        state: &mut State,
        restream_id: RestreamId,
        dst: OutputDstUrl,
        label: Option<Label>,
        preview_url: Option<UrlParts>,
        mixins: Vec<MixinSrcUrl>,
        id: Option<OutputId>,
    ) -> (r: Result<Option<bool>, ApiError>)
        requires
            old(state).wf(),
        ensures
            final(state).wf(),
            r == Err::<Option<bool>, ApiError>(api_error(ErrorCode::TooMuchMixinUrls)) <==> mixins@.len() > v1::MAX_MIXINS,
            mixins@.len() <= v1::MAX_MIXINS ==>
                (r == Err::<Option<bool>, ApiError>(api_error(ErrorCode::DuplicateMixinUrl)) <==> !v1::all_distinct(src_hrefs(mixins@))),
            mixins@.len() <= v1::MAX_MIXINS && v1::all_distinct(src_hrefs(mixins@)) ==>
                (r == Err::<Option<bool>, ApiError>(api_error(ErrorCode::TooMuchTeamspeakMixinUrls))
                    <==> v1::voice_chat_count(src_schemes(mixins@)) > v1::MAX_VOICE_CHAT_MIXINS),
            r matches Ok(Some(b)) ==> b,
            r != Ok::<Option<bool>, ApiError>(Some(true)) ==> final(state).restreams@ == old(state).restreams@,
            srcs_ok(mixins@) ==> (r == Err::<Option<bool>, ApiError>(api_error(ErrorCode::DuplicateOutputUrl)) <==>
                has_restream(old(state).restreams@, restream_id)
                && output_clash(old(state).restreams@[restream_pos(old(state).restreams@, restream_id)].outputs@, dst, id)),
            srcs_ok(mixins@) ==> (r == Ok::<Option<bool>, ApiError>(None) <==> !has_restream(old(state).restreams@, restream_id) || {
                let os = old(state).restreams@[restream_pos(old(state).restreams@, restream_id)].outputs@;
                !output_clash(os, dst, id) && (id matches Some(oid) && !has_output(os, oid))
            }),
            srcs_ok(mixins@) ==> (r is Ok || r == Err::<Option<bool>, ApiError>(api_error(ErrorCode::DuplicateOutputUrl))),
            r == Ok::<Option<bool>, ApiError>(Some(true)) ==> set_output_done(old(state).restreams@, final(state).restreams@, restream_id, dst, label, preview_url,
                mixins@, id),
    {
        match check_mixin_srcs(&mixins) {
            Err(e) => return Err(e),
            Ok(()) => {},
        }
        let ghost srcs = mixins@;
        let ghost label0 = label;
        let ghost preview0 = preview_url;
        let existing = match id {
            Some(oid) => state.get_output(restream_id, oid),
            None => None,
        };
        let ghost ex: Option<Output> = match existing { Some(o) => Some(*o), None => None };
        let volume = match existing {
            Some(o) => if mixins.len() > 0 { o.volume.export() } else { Volume::origin().export() },
            None => Volume::origin().export(),
        };
        proof {
            if ex is Some && srcs.len() > 0 {
                assert(volume.level == ex->Some_0.volume.level && volume.muted == ex->Some_0.volume.muted);
            } else {
                assert(volume.level.percents() == crate::volume::ORIGIN_LEVEL && !volume.muted);
            }
        }
        let mut specs: Vec<v1::Mixin> = Vec::new();
        let mut rest = mixins;
        let mut taken = false;
        while rest.len() > 0
            invariant
                specs@.len() + rest@.len() == srcs.len(),
                rest@ == srcs.subrange(specs@.len() as int, srcs.len() as int),
                forall|j: int| 0 <= j < specs@.len() ==> (#[trigger] specs@[j]).src == srcs[j],
                v1::true_count(v1::mixin_sidechains(specs@)) == if taken { 1nat } else { 0nat },
                ex == (match existing { Some(o) => Some(*o), None => None::<Output> }),
                taken <==> exists|k: int| 0 <= k < specs@.len() && (#[trigger] specs@[k]).sidechain,
                forall|j: int| 0 <= j < specs@.len() ==> mixin_settings(
                    Volume { level: (#[trigger] specs@[j]).volume.level, muted: specs@[j].volume.muted }, specs@[j].delay, srcs[j], ex),
                forall|j: int| 0 <= j < specs@.len() ==> (#[trigger] specs@[j]).sidechain
                    == (prior_sidechain(srcs[j], ex) && forall|k: int| 0 <= k < j ==> !(#[trigger] specs@[k]).sidechain),
            decreases rest@.len(),
        {
            let s0 = rest.remove(0);
            let ghost before = specs@;
            let ghost t0 = taken;
            let m = mixin_spec_for(s0, existing, !taken);
            if m.sidechain {
                taken = true;
            }
            specs.push(m);
            proof {
                assert(specs@[specs@.len() - 1] == m);
                assert(srcs[specs@.len() - 1] == s0);
                assert forall|j: int| 0 <= j < specs@.len() - 1 implies #[trigger] specs@[j] == before[j] by {}
                let n = before.len() as int;
                assert((forall|k: int| 0 <= k < n ==> !(#[trigger] specs@[k]).sidechain) <==> !t0) by {
                    if t0 {
                        let k = choose|k: int| 0 <= k < n && (#[trigger] before[k]).sidechain;
                        assert(specs@[k] == before[k]);
                    }
                }
                if !m.sidechain {
                    assert forall|k: int| 0 <= k < specs@.len() && (#[trigger] specs@[k]).sidechain implies k < before.len()
                        && before[k].sidechain by {}
                    if t0 {
                        let k = choose|k: int| 0 <= k < n && (#[trigger] before[k]).sidechain;
                        assert(specs@[k] == before[k]);
                    }
                } else {
                    assert(specs@[n].sidechain);
                }
                assert forall|j: int| 0 <= j < specs@.len() implies (#[trigger] specs@[j]).sidechain
                    == (prior_sidechain(srcs[j], ex) && forall|k: int| 0 <= k < j ==> !(#[trigger] specs@[k]).sidechain) by {
                    if j < n {
                        assert(specs@[j] == before[j]);
                        assert((forall|k: int| 0 <= k < j ==> !(#[trigger] specs@[k]).sidechain)
                            == (forall|k: int| 0 <= k < j ==> !(#[trigger] before[k]).sidechain)) by {
                            assert forall|k: int| 0 <= k < j implies specs@[k] == before[k] by {}
                        }
                    }
                }
                assert(rest@ =~= srcs.subrange(specs@.len() as int, srcs.len() as int));
                assert(v1::mixin_sidechains(specs@).drop_last() =~= v1::mixin_sidechains(before));
            }
        }
        proof {
            assert(v1::mixin_hrefs(specs@) =~= src_hrefs(srcs));
            assert(v1::mixin_schemes(specs@) =~= src_schemes(srcs));
            assert(v1::mixins_ok(specs@));
        }
        let spec = v1::Output { id: None, dst, label, preview_url, volume, mixins: specs, enabled: false };
        let ghost sp = spec;
        let res = match id {
            Some(oid) => state.edit_output(restream_id, oid, spec),
            None => state.add_output(restream_id, spec),
        };
        match res {
            Err(_) => Err(ApiError::new(ErrorCode::DuplicateOutputUrl)),
            Ok(None) => Ok(None),
            Ok(Some(u)) => {
                proof {
                assert(u == ());
                assert(res == Ok::<Option<()>, StoreError>(Some(())));
                let k = restream_pos(old(state).restreams@, restream_id);
                let fos = state.restreams@[k].outputs@;
                let os = old(state).restreams@[k].outputs@;
                let o = match id { None => fos.last(), Some(oid) => fos[output_pos(os, oid)] };
                assert(crate::state::output_matches(o, sp, false));
                assert forall|j: int| 0 <= j < o.mixins@.len() implies
                    #[trigger] crate::store::mixin_hrefs(o.mixins@)[j] == src_hrefs(srcs)[j] by {
                    assert(crate::state::mixin_matches(o.mixins@[j], sp.mixins@[j]));
                }
                assert(crate::store::mixin_hrefs(o.mixins@) =~= src_hrefs(srcs));
                assert(crate::state::same_url(o.dst.url(), dst.url()));
                assert(set_result(o, dst, srcs));
                assert(others_unchanged(old(state).restreams@, state.restreams@, k));
                assert(state.restreams@[k].input == old(state).restreams@[k].input);
                if id is None {
                    assert(fos.drop_last() == os);
                    assert(!fos.last().enabled);
                } else {
                    let oid = id->Some_0;
                    assert(has_restream(old(state).restreams@, restream_id));
                    assert(other_outputs_unchanged(os, fos, output_pos(os, oid)));
                    assert(fos[output_pos(os, oid)].id == oid);
                }
                let prior: Option<Output> = match id { None => None, Some(oid) => Some(os[output_pos(os, oid)]) };
                if id is Some {
                    assert(has_output(os, id->Some_0));
                }
                assert(prior == ex);
                lemma_set_fields(o, sp, label0, preview0, srcs, prior);
                assert(set_fields(o, label0, preview0, srcs, prior));
                assert(set_output_done(old(state).restreams@, state.restreams@, restream_id, dst, label0, preview0, srcs, id));
                }
                Ok(Some(true))
            },
        }
    }

    /// Sets a new restream, or updates the restream `id` if one is given.
    /// Its input `origin` has an RTMP endpoint (and an HLS one with
    /// `with_hls`); it pulls from `src` if given, or, with `with_backup`,
    /// fails over between the inputs `main` (pulling from `src`) and `backup`
    /// (pulling from `backup_src`).
    ///
    /// Returns `None` if there is no restream `id`.
    pub fn set_restream(
        state: &mut State,
        key: RestreamKey,
        label: Option<Label>,
        src: Option<InputSrcUrl>,
        backup_src: Option<InputSrcUrl>,
        with_backup: bool,
        with_hls: bool,
        id: Option<RestreamId>,
    ) -> (r: Result<Option<bool>, ApiError>)
        requires
            old(state).wf(),
        ensures
            final(state).wf(),
            r matches Ok(v) ==> v is None || v == Some(true),
            r is Err ==> r == Err::<Option<bool>, ApiError>(api_error(ErrorCode::DuplicateRestreamKey))
                || r == Err::<Option<bool>, ApiError>(api_error(ErrorCode::InvalidSpec)),
            r == Err::<Option<bool>, ApiError>(api_error(ErrorCode::InvalidSpec)) <==> backup_clash(src, backup_src, with_backup),
            r != Ok::<Option<bool>, ApiError>(Some(true)) ==> final(state).restreams@ == old(state).restreams@,
            r != Err::<Option<bool>, ApiError>(api_error(ErrorCode::InvalidSpec)) ==> match id {
                None => (r == Err::<Option<bool>, ApiError>(api_error(ErrorCode::DuplicateRestreamKey)) <==>
                    exists|k: int| 0 <= k < old(state).restreams@.len() && (#[trigger] old(state).restreams@[k]).key@ == key@),
                Some(rid) => (r == Err::<Option<bool>, ApiError>(api_error(ErrorCode::DuplicateRestreamKey)) <==>
                    (exists|k: int| 0 <= k < old(state).restreams@.len()
                        && (#[trigger] old(state).restreams@[k]).key@ == key@ && old(state).restreams@[k].id != rid)
                    || (has_restream(old(state).restreams@, rid) && exists|k: int| 0 <= k < old(state).restreams@.len()
                        && (#[trigger] old(state).restreams@[k]).key@ == key@ && k != restream_pos(old(state).restreams@, rid)))
                    && (r == Ok::<Option<bool>, ApiError>(None) <==> !(r is Err) && !has_restream(old(state).restreams@, rid)),
            },
            r == Ok::<Option<bool>, ApiError>(Some(true)) ==> match id {
                None => final(state).restreams@.drop_last() == old(state).restreams@
                    && final(state).restreams@.len() == old(state).restreams@.len() + 1
                    && restream_shape(final(state).restreams@.last(), key, label, src, backup_src, with_backup, with_hls),
                Some(rid) => has_restream(old(state).restreams@, rid) && {
                    let k = restream_pos(old(state).restreams@, rid);
                    &&& others_unchanged(old(state).restreams@, final(state).restreams@, k)
                    &&& final(state).restreams@[k].id == rid
                    &&& final(state).restreams@[k].outputs == old(state).restreams@[k].outputs
                    &&& restream_shape(final(state).restreams@[k], key, label, src, backup_src, with_backup, with_hls)
                },
            },
    {
        let input_src = if with_backup {
            let main = v1::Input {
                id: None,
                key: InputKey::known("main"),
                endpoints: rtmp_only(),
                src: match src {
                    Some(u) => Some(v1::InputSrc::RemoteUrl(u)),
                    None => None,
                },
                enabled: true,
            };
            let backup = v1::Input {
                id: None,
                key: InputKey::known("backup"),
                endpoints: rtmp_only(),
                src: match backup_src {
                    Some(u) => Some(v1::InputSrc::RemoteUrl(u)),
                    None => None,
                },
                enabled: true,
            };
            let mut inputs: Vec<v1::Input> = Vec::new();
            inputs.push(main);
            inputs.push(backup);
            Some(v1::InputSrc::FailoverInputs(inputs))
        } else {
            match src {
                Some(u) => Some(v1::InputSrc::RemoteUrl(u)),
                None => None,
            }
        };
        let mut endpoints = rtmp_only();
        if with_hls {
            endpoints.push(v1::InputEndpoint { kind: InputEndpointKind::Hls, label: None });
        }
        let input = v1::Input {
            id: None,
            key: InputKey::known("origin"),
            endpoints,
            src: input_src,
            enabled: true,
        };
        let ghost key0 = key;
        let ghost label0 = label;
        let spec = v1::Restream { id: None, key, label, input, outputs: Vec::new() };
        proof {
            reveal_strlit("origin");
            reveal_strlit("main");
            reveal_strlit("backup");
            assert(spec_shape(spec, key0, label0, src, backup_src, with_backup, with_hls));
            lemma_shape_check(spec, key0, label0, src, backup_src, with_backup, with_hls);
        }
        if spec.input.check().is_err() {
            return Err(ApiError::new(ErrorCode::InvalidSpec));
        }
        proof {
            assert(v1::output_hrefs(spec.outputs@) =~= Seq::<Seq<char>>::empty());
            assert(restream_spec_ok(spec));
        }
        let ghost sp = spec;
        let res = match id {
            Some(rid) => state.edit_restream(rid, spec),
            None => match state.add_restream(spec) {
                Ok(()) => Ok(Some(())),
                Err(e) => Err(e),
            },
        };
        match res {
            Err(_) => Err(ApiError::new(ErrorCode::DuplicateRestreamKey)),
            Ok(None) => Ok(None),
            Ok(Some(u)) => {
                proof {
                    assert(u == ());
                    assert(res == Ok::<Option<()>, StoreError>(Some(())));
                    match id {
                        None => {
                            let nr = state.restreams@.last();
                            crate::state::lemma_input_match_lenient(nr.input, sp.input);
                            lemma_restream_shape(nr, sp, key0, label0, src, backup_src, with_backup, with_hls, true);
                        },
                        Some(rid) => {
                            let nr = state.restreams@[restream_pos(old(state).restreams@, rid)];
                            lemma_restream_shape(nr, sp, key0, label0, src, backup_src, with_backup, with_hls, false);
                        },
                    }
                }
                Ok(Some(true))
            },
        }
    }

    /// Sets the title and confirmation flags of the server. A missing title
    /// is set empty; titles longer than seventy characters are refused.
    pub fn set_settings(
        state: &mut State,
        title: Option<String>,
        delete_confirmation: Option<bool>,
        enable_confirmation: Option<bool>,
    ) -> (r: Result<bool, ApiError>)
        ensures
            final(state).restreams == old(state).restreams,
            r is Err <==> title_text(title).len() > MAX_TITLE_LEN,
            r is Err ==> r == Err::<bool, ApiError>(api_error(ErrorCode::WrongTitleLength)) && *final(state) == *old(state),
            r is Ok ==> r == Ok::<bool, ApiError>(true)
                && (final(state).settings.title matches Some(t) && t@ == title_text(title)),
            r is Ok ==> final(state).settings.delete_confirmation == delete_confirmation
                && final(state).settings.enable_confirmation == enable_confirmation,
            final(state).settings.password_hash == old(state).settings.password_hash,
            final(state).settings.password_output_hash == old(state).settings.password_output_hash,
            final(state).clients == old(state).clients,
    {
        let value = match title {
            Some(t) => t,
            None => String::new(),
        };
        if value.as_str().unicode_len() > MAX_TITLE_LEN {
            return Err(ApiError::new(ErrorCode::WrongTitleLength));
        }
        state.settings.title = Some(value);
        state.settings.delete_confirmation = delete_confirmation;
        state.settings.enable_confirmation = enable_confirmation;
        Ok(true)
    }

    /// Checks the path given to remove a recorded file: it must not start
    /// with `/` nor contain `../`.
    pub fn check_dvr_file_path(path: &str) -> (r: Result<(), ApiError>)
        ensures
            r is Err <==> (path@.len() > 0 && path@[0] == '/') || contains_parent_step(path@),
            r is Err ==> r == Err::<(), ApiError>(api_error(ErrorCode::InvalidDvrFilePath)),
    {
        let p = crate::text::chars_of(path);
        if p.len() > 0 && p[0] == '/' {
            return Err(ApiError::new(ErrorCode::InvalidDvrFilePath));
        }
        let mut k: usize = 0;
        while p.len() >= 3 && k <= p.len() - 3
            invariant
                p@ == path@,
                forall|j: int| 0 <= j < k && j + 3 <= p@.len() ==> !(#[trigger] p@[j] == '.' && p@[j + 1] == '.' && p@[j + 2] == '/'),
            decreases p@.len() - k,
        {
            if p[k] == '.' && p[k + 1] == '.' && p[k + 2] == '/' {
                return Err(ApiError::new(ErrorCode::InvalidDvrFilePath));
            }
            k = k + 1;
        }
        Ok(())
    }

    /// Imports a specification. With `restream_id` it must hold exactly one
    /// restream, applied to that restream only (`None` if there is no such
    /// restream); otherwise it is applied to the whole state. With `replace`
    /// the items not in the specification are dropped.
    #[verifier::loop_isolation(false)]
    pub fn import(state: &mut State, spec: v1::Spec, replace: bool, restream_id: Option<RestreamId>) -> (r: Result<Option<bool>, ApiError>)
        ensures
            r is Err ==> r == Err::<Option<bool>, ApiError>(api_error(ErrorCode::InvalidSpec))
                && *final(state) == *old(state),
            r is Err <==> !crate::store::spec_ok(spec) || (restream_id is Some && spec.restreams@.len() != 1),
            restream_id is None && !(r is Err) ==> r == Ok::<Option<bool>, ApiError>(Some(true)),
            restream_id is None && replace && !(r is Err) ==> final(state).wf(),
            restream_id is None && !(r is Err) ==> crate::store::applied(old(state).restreams@, final(state).restreams@,
                spec.restreams@, replace),
            r is Err || r == Ok::<Option<bool>, ApiError>(None) ==> *final(state) == *old(state),
            restream_id is Some && !(r is Err) ==> (r == Ok::<Option<bool>, ApiError>(None)
                <==> !has_restream(old(state).restreams@, restream_id->Some_0)),
            restream_id is Some && r == Ok::<Option<bool>, ApiError>(Some(true)) ==> {
                let k = restream_pos(old(state).restreams@, restream_id->Some_0);
                &&& others_unchanged(old(state).restreams@, final(state).restreams@, k)
                &&& final(state).restreams@[k].id == restream_id->Some_0
                &&& final(state).restreams@[k].key@ == spec.restreams@[0].key@
                &&& crate::state::input_matches(final(state).restreams@[k].input, spec.restreams@[0].input, false)
            },
    {
        if check_spec(&spec).is_err() {
            return Err(ApiError::new(ErrorCode::InvalidSpec));
        }
        match restream_id {
            Some(id) => {
                if spec.restreams.len() != 1 {
                    return Err(ApiError::new(ErrorCode::InvalidSpec));
                }
                let ghost s0 = spec.restreams@[0];
                let mut restreams = spec.restreams;
                let r = restreams.remove(0);
                match crate::store::find_restream_first_pub(&state.restreams, id) {
                    None => Ok(None),
                    Some(k) => {
                        let ghost before = state.restreams@;
                        state.restreams[k].apply(r, replace);
                        proof {
                            assert(state.restreams@ == before.update(k as int, state.restreams@[k as int]));
                        }
                        Ok(Some(true))
                    },
                }
            },
            None => {
                state.apply(spec, replace);
                Ok(Some(true))
            },
        }
    }

    /// Disables every output of every restream; returns whether any flipped.
    pub fn disable_all_outputs_of_restreams(state: &mut State) -> (r: bool)
        requires
            old(state).wf(),
        ensures
            final(state).wf(),
            r == exists|k: int| 0 <= k < old(state).restreams@.len()
                && !crate::store::all_outputs_set(#[trigger] old(state).restreams@[k].outputs@, false),
    {
        state.disable_all_outputs_of_restreams()
    }

    /// Enables every output of every restream; returns whether any flipped.
    pub fn enables_all_outputs_of_restreams(state: &mut State) -> (r: bool)
        requires
            old(state).wf(),
        ensures
            final(state).wf(),
            r == exists|k: int| 0 <= k < old(state).restreams@.len()
                && !crate::store::all_outputs_set(#[trigger] old(state).restreams@[k].outputs@, true),
    {
        state.enable_all_outputs_of_restreams()
    }
}

/// The characters of an optional title; none stands for the empty one.
pub open spec fn title_text(title: Option<String>) -> Seq<char> {
    match title {
        Some(t) => t@,
        None => Seq::empty(),
    }
}

/// Checks a whole specification: restream keys distinct, and for each
/// restream its input tree, its output destinations and the mixins of each
/// output.
pub fn check_spec(spec: &v1::Spec) -> (r: Result<(), v1::SpecError>)
    ensures
        r is Ok <==> crate::store::spec_ok(*spec),
{
    let mut k: usize = 0;
    while k < spec.restreams.len()
        invariant
            k <= spec.restreams@.len(),
            forall|j: int| 0 <= j < k ==> crate::store::restream_spec_ok(#[trigger] spec.restreams@[j]),
        decreases spec.restreams@.len() - k,
    {
        let r = &spec.restreams[k];
        match r.input.check() {
            Err(e) => {
                assert(!crate::store::restream_spec_ok(spec.restreams@[k as int]));
                return Err(e);
            },
            Ok(()) => {},
        }
        let mut j: usize = 0;
        while j < r.outputs.len()
            invariant
                j <= r.outputs@.len(),
                k < spec.restreams@.len(),
                *r == spec.restreams@[k as int],
                forall|i: int| 0 <= i < j ==> v1::mixins_ok(#[trigger] r.outputs@[i].mixins@),
            decreases r.outputs@.len() - j,
        {
            match v1::Output::check_mixins(&r.outputs[j].mixins) {
                Err(e) => {
                    assert(!crate::store::restream_spec_ok(spec.restreams@[k as int]));
                    return Err(e);
                },
                Ok(()) => {},
            }
            j = j + 1;
        }
        match v1::Restream::check_outputs(&r.outputs) {
            Err(e) => {
                assert(!crate::store::restream_spec_ok(spec.restreams@[k as int]));
                return Err(e);
            },
            Ok(()) => {},
        }
        k = k + 1;
    }
    v1::Spec::check_restreams(&spec.restreams)
}

/// Whether `p` holds `../` somewhere.
pub open spec fn contains_parent_step(p: Seq<char>) -> bool {
    exists|j: int| 0 <= j && j + 3 <= p.len() && #[trigger] p[j] == '.' && p[j + 1] == '.' && p[j + 2] == '/'
}

/// A single RTMP endpoint.
fn rtmp_only() -> (r: Vec<v1::InputEndpoint>)
    ensures
        r@.len() == 1,
        r@[0].kind == InputEndpointKind::Rtmp,
        r@[0].label is None,
{
    let mut v: Vec<v1::InputEndpoint> = Vec::new();
    v.push(v1::InputEndpoint { kind: InputEndpointKind::Rtmp, label: None });
    v
}

/// Current parameters of the server.
#[derive(Debug)]
pub struct Info {
    /// Host this server is reachable via in public.
    pub public_host: String,
    /// Title of the server.
    pub title: Option<String>,
    /// Whether deletion is to be confirmed.
    pub delete_confirmation: Option<bool>,
    /// Whether enabling and disabling is to be confirmed.
    pub enable_confirmation: Option<bool>,
    /// Hash of the main password, if one is set.
    pub password_hash: Option<String>,
    /// Hash of the single-output password, if one is set.
    pub password_output_hash: Option<String>,
}

/// Root of the queries of the main control API.
#[derive(Clone, Copy, Debug)]
pub struct QueriesRoot;

impl QueriesRoot {
    /// Returns the current parameters of this server.
    pub fn info(state: &State, public_host: &str) -> (r: Info)
        ensures
            r.public_host@ == public_host@,
            r.title == state.settings.title,
            r.delete_confirmation == state.settings.delete_confirmation,
            r.enable_confirmation == state.settings.enable_confirmation,
            r.password_hash == state.settings.password_hash,
            r.password_output_hash == state.settings.password_output_hash,
    {
        Info {
            public_host: public_host.to_owned(),
            title: crate::state::copy_opt_string(&state.settings.title),
            delete_confirmation: state.settings.delete_confirmation,
            enable_confirmation: state.settings.enable_confirmation,
            password_hash: crate::state::copy_opt_string(&state.settings.password_hash),
            password_output_hash: crate::state::copy_opt_string(&state.settings.password_output_hash),
        }
    }
}

} // verus!
