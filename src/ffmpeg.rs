//! Argument vectors of the media tool for copying, transcoding and mixing
//! processes, and the filter graph of mixing ones.
use vstd::prelude::*;
use crate::restreamer::{uuid_text, Mixin, MixingRestreamer, TranscodingRestreamer};
use crate::urls::{has_extension, UrlParts};
use crate::volume::{decimal, fraction_text};

verus! {

/// The characters of each string of `v`.
pub open spec fn views(v: Seq<String>) -> Seq<Seq<char>> {
    v.map_values(|s: String| s@)
}

/// Appends `s` to the arguments `v`.
fn arg(v: &mut Vec<String>, s: &str)
    ensures
        views(final(v)@) == views(old(v)@).push(s@),
{
    let ghost before = v@;
    v.push(s.to_owned());
    assert(views(v@) =~= views(before).push(s@));
}

/// Whether `u` is an HLS playlist URL over HTTP(S).
pub open spec fn is_hls_url(u: UrlParts) -> bool {
    (u.scheme@ == "http"@ || u.scheme@ == "https"@) && has_extension(u.path@, "m3u8"@)
}

/// Whether `u` is an RTMP(S) URL.
pub open spec fn is_rtmp_url(u: UrlParts) -> bool {
    u.scheme@ == "rtmp"@ || u.scheme@ == "rtmps"@
}

/// Arguments reading a live stream from `from`: HLS playlists are paced in
/// real time, RTMP(S) streams are read as they come; other sources are not
/// supported.
pub open spec fn input_args(from: UrlParts) -> Option<Seq<Seq<char>>> {
    if is_hls_url(from) {
        Some(seq!["-re"@, "-i"@, from.href@])
    } else if is_rtmp_url(from) {
        Some(seq!["-i"@, from.href@])
    } else {
        None
    }
}

/// Arguments writing a copied live stream to `to`; `file` is the path that a
/// `file` destination records into.
pub open spec fn copy_output_args(to: UrlParts, file: Seq<char>) -> Option<Seq<Seq<char>>> {
    if to.scheme@ == "file"@ {
        if has_extension(to.path@, "flv"@) {
            Some(seq!["-c"@, "copy"@, file])
        } else if has_extension(to.path@, "wav"@) {
            Some(seq!["-vn"@, "-acodec"@, "pcm_s16le"@, "-ar"@, "48000"@, "-ac"@, "2"@, file])
        } else if has_extension(to.path@, "mp3"@) {
            Some(seq!["-vn"@, "-acodec"@, "libmp3lame"@, "-b:a"@, "64k"@, "-ar"@, "48000"@, "-ac"@, "2"@, file])
        } else {
            None
        }
    } else if to.scheme@ == "icecast"@ {
        Some(seq!["-vn"@, "-acodec"@, "libmp3lame"@, "-b:a"@, "64k"@, "-f"@, "mp3"@, "-content_type"@, "audio/mpeg"@, to.href@])
    } else if is_rtmp_url(to) {
        Some(seq!["-c"@, "copy"@, "-f"@, "flv"@, to.href@])
    } else if to.scheme@ == "srt"@ {
        Some(seq!["-c"@, "copy"@, "-strict"@, "-2"@, "-y"@, "-f"@, "mpegts"@, to.href@])
    } else {
        None
    }
}

/// Arguments of a copying process from `from` to `to`.
pub open spec fn copy_args_spec(from: UrlParts, to: UrlParts, file: Seq<char>) -> Option<Seq<Seq<char>>> {
    match (input_args(from), copy_output_args(to, file)) {
        (Some(i), Some(o)) => Some(i + o),
        _ => None,
    }
}

fn path_has_extension(u: &UrlParts, e: &str) -> (r: bool)
    ensures
        r == has_extension(u.path@, e@),
{
    let p = crate::text::chars_of(u.path.as_str());
    crate::urls::ends_with_extension_pub(&p, e)
}

fn push_input_args(v: &mut Vec<String>, from: &UrlParts) -> (ok: bool)
    ensures
        ok == input_args(*from) is Some,
        ok ==> views(final(v)@) == views(old(v)@) + input_args(*from)->Some_0,
{
    let ghost v0 = views(v@);
    if (from.scheme_is("http") || from.scheme_is("https")) && path_has_extension(from, "m3u8") {
        arg(v, "-re");
        arg(v, "-i");
        arg(v, from.href.as_str());
        assert(views(v@) =~= v0 + input_args(*from)->Some_0);
        true
    } else if from.scheme_is("rtmp") || from.scheme_is("rtmps") {
        arg(v, "-i");
        arg(v, from.href.as_str());
        assert(views(v@) =~= v0 + input_args(*from)->Some_0);
        true
    } else {
        false
    }
}

/// Builds the arguments of a process copying the live stream from `from`
/// to `to` "as is", re-encoding audio only where the destination needs it:
/// FLV files and RTMP(S) keep the codecs, WAV files get PCM, MP3 files and
/// Icecast get MP3 at 64 kbit/s, SRT gets MPEG-TS. `file` is the path a
/// `file` destination records into. Returns `None` for a source or
/// destination that is not supported.
pub fn copy_args(from: &UrlParts, to: &UrlParts, file: &str) -> (r: Option<Vec<String>>)
    ensures
        r is Some <==> copy_args_spec(*from, *to, file@) is Some,
        r matches Some(v) ==> views(v@) == copy_args_spec(*from, *to, file@)->Some_0,
{
    let mut v: Vec<String> = Vec::new();
    if !push_input_args(&mut v, from) {
        return None;
    }
    let ghost v0 = views(v@);
    assert(v0 =~= Seq::<Seq<char>>::empty() + input_args(*from)->Some_0);
    if to.scheme_is("file") {
        if path_has_extension(to, "flv") {
            arg(&mut v, "-c");
            arg(&mut v, "copy");
            arg(&mut v, file);
        } else if path_has_extension(to, "wav") {
            arg(&mut v, "-vn");
            arg(&mut v, "-acodec");
            arg(&mut v, "pcm_s16le");
            arg(&mut v, "-ar");
            arg(&mut v, "48000");
            arg(&mut v, "-ac");
            arg(&mut v, "2");
            arg(&mut v, file);
        } else if path_has_extension(to, "mp3") {
            arg(&mut v, "-vn");
            arg(&mut v, "-acodec");
            arg(&mut v, "libmp3lame");
            arg(&mut v, "-b:a");
            arg(&mut v, "64k");
            arg(&mut v, "-ar");
            arg(&mut v, "48000");
            arg(&mut v, "-ac");
            arg(&mut v, "2");
            arg(&mut v, file);
        } else {
            return None;
        }
    } else if to.scheme_is("icecast") {
        arg(&mut v, "-vn");
        arg(&mut v, "-acodec");
        arg(&mut v, "libmp3lame");
        arg(&mut v, "-b:a");
        arg(&mut v, "64k");
        arg(&mut v, "-f");
        arg(&mut v, "mp3");
        arg(&mut v, "-content_type");
        arg(&mut v, "audio/mpeg");
        arg(&mut v, to.href.as_str());
    } else if to.scheme_is("rtmp") || to.scheme_is("rtmps") {
        arg(&mut v, "-c");
        arg(&mut v, "copy");
        arg(&mut v, "-f");
        arg(&mut v, "flv");
        arg(&mut v, to.href.as_str());
    } else if to.scheme_is("srt") {
        arg(&mut v, "-c");
        arg(&mut v, "copy");
        arg(&mut v, "-strict");
        arg(&mut v, "-2");
        arg(&mut v, "-y");
        arg(&mut v, "-f");
        arg(&mut v, "mpegts");
        arg(&mut v, to.href.as_str());
    } else {
        return None;
    }
    assert(views(v@) =~= v0 + copy_output_args(*to, file@)->Some_0);
    Some(v)
}

/// Arguments naming an optional codec setting.
pub open spec fn opt_args(flag: Seq<char>, val: Option<String>) -> Seq<Seq<char>> {
    match val {
        Some(x) => seq![flag, x@],
        None => Seq::empty(),
    }
}

/// Arguments of a transcoding process.
pub open spec fn transcoding_args_spec(t: TranscodingRestreamer, to_is_rtmp: bool) -> Option<Seq<Seq<char>>> {
    if to_is_rtmp {
        Some(seq!["-i"@, t.from_url@] + opt_args("-c:v"@, t.vcodec) + opt_args("-preset"@, t.vpreset)
            + opt_args("-profile:v"@, t.vprofile) + opt_args("-c:a"@, t.acodec) + seq!["-f"@, "flv"@, t.to_url@])
    } else {
        None
    }
}

fn push_opt(v: &mut Vec<String>, flag: &str, val: &Option<String>)
    ensures
        views(final(v)@) == views(old(v)@) + opt_args(flag@, *val),
{
    let ghost v0 = views(v@);
    match val {
        Some(x) => {
            arg(v, flag);
            arg(v, x.as_str());
        },
        None => {},
    }
    assert(views(v@) =~= v0 + opt_args(flag@, *val));
}

impl TranscodingRestreamer {
    /// Builds the arguments of this transcoding process: its input, the codec
    /// settings it has, and FLV output to its RTMP(S) destination. Returns
    /// `None` unless the destination `to` (the parsed `to_url`) is RTMP(S).
    pub fn args(&self, to: &UrlParts) -> (r: Option<Vec<String>>)
        ensures
            r is Some <==> is_rtmp_url(*to),
            r matches Some(v) ==> views(v@) == transcoding_args_spec(*self, is_rtmp_url(*to))->Some_0,
    {
        if !(to.scheme_is("rtmp") || to.scheme_is("rtmps")) {
            return None;
        }
        let mut v: Vec<String> = Vec::new();
        let ghost v0 = views(v@);
        arg(&mut v, "-i");
        arg(&mut v, self.from_url.as_str());
        push_opt(&mut v, "-c:v", &self.vcodec);
        push_opt(&mut v, "-preset", &self.vpreset);
        push_opt(&mut v, "-profile:v", &self.vprofile);
        push_opt(&mut v, "-c:a", &self.acodec);
        arg(&mut v, "-f");
        arg(&mut v, "flv");
        arg(&mut v, self.to_url.as_str());
        assert(views(v@) =~= transcoding_args_spec(*self, true)->Some_0);
        Some(v)
    }
}

/// `s` joined by `sep`.
pub open spec fn join(s: Seq<Seq<char>>, sep: Seq<char>) -> Seq<char>
    decreases s.len(),
{
    if s.len() == 0 {
        Seq::empty()
    } else if s.len() == 1 {
        s[0]
    } else {
        join(s.drop_last(), sep) + sep + s.last()
    }
}

/// The control-socket filter bound to `127.0.0.1:<port>`, with the escaping
/// the filter graph syntax asks for.
pub open spec fn zmq_filter(port: u16) -> Seq<char> {
    "azmq=bind_address=tcp\\\\\\://127.0.0.1\\\\\\:"@ + decimal(port as nat)
}

/// Filter chain of the original audio: volume, resampling to 48 kHz and its
/// control socket, labelled with the process ID.
pub open spec fn orig_chain(m: MixingRestreamer) -> Seq<char> {
    "[0:a]volume@"@ + uuid_text(m.id) + "="@ + fraction_text(m.orig_volume) + ",aresample=48000,"@
        + zmq_filter(m.orig_zmq_port) + "["@ + uuid_text(m.id) + "]"@
}

/// Filters put before the control socket of a mixin: resampling for its
/// kind of source, and its delay if it has one. `None` for a source that is
/// not supported.
pub open spec fn mixin_extra(x: Mixin) -> Option<Seq<char>> {
    let delay = if x.delay.millis() == 0 {
        Seq::empty()
    } else {
        "adelay=delays="@ + decimal(x.delay.millis() as nat) + ":all=1,"@
    };
    if x.url.url().scheme@ == "ts"@ {
        Some("aresample=async=1,"@ + delay)
    } else if (x.url.url().scheme@ == "http"@ || x.url.url().scheme@ == "https"@) && has_extension(x.url.url().path@, "mp3"@) {
        Some("aresample=48000,"@ + delay)
    } else {
        None
    }
}

/// Filter chain of the mixin `x`, read as input number `n`.
pub open spec fn mixin_chain(x: Mixin, n: nat, extra: Seq<char>) -> Seq<char> {
    "["@ + decimal(n) + ":a]volume@"@ + uuid_text(x.id.0) + "="@ + fraction_text(x.volume) + ","@ + extra
        + zmq_filter(x.zmq_port) + "["@ + uuid_text(x.id.0) + "]"@
}

/// Filter chains of the mixins `s`, the first read as input number `1`.
pub open spec fn mixin_chains(s: Seq<Mixin>) -> Option<Seq<Seq<char>>>
    decreases s.len(),
{
    if s.len() == 0 {
        Some(Seq::empty())
    } else {
        match (mixin_chains(s.drop_last()), mixin_extra(s.last())) {
            (Some(c), Some(e)) => Some(c.push(mixin_chain(s.last(), s.len(), e))),
            _ => None,
        }
    }
}

/// Position of the first side-chained mixin, if any.
pub open spec fn sidechain_pos(s: Seq<Mixin>) -> Option<int>
    decreases s.len(),
{
    if s.len() == 0 {
        None
    } else {
        match sidechain_pos(s.drop_last()) {
            Some(k) => Some(k),
            None => if s.last().sidechain { Some(s.len() - 1) } else { None },
        }
    }
}

/// Whether an optional position held in a `usize` is `p`.
pub open spec fn same_pos(sc: Option<usize>, p: Option<int>) -> bool {
    match (sc, p) {
        (Some(a), Some(b)) => a == b,
        (None, None) => true,
        _ => false,
    }
}

/// Labels of the mixin streams fed to the final mix: their IDs, the
/// side-chained one (at `sc`) replaced by `mix`.
pub open spec fn mix_labels(s: Seq<Mixin>, sc: Option<int>) -> Seq<Seq<char>> {
    Seq::new(s.len(), |k: int| if sc == Some(k) { "mix"@ } else { uuid_text(s[k].id.0) })
}

/// The filter graph of the mixing process `m`: its original chain, its
/// mixin chains, the side-chain compression if a mixin asks for it, and the
/// final mix of all streams; `None` if a mixin source is not supported.
pub open spec fn filter_complex_spec(m: MixingRestreamer) -> Option<Seq<char>> {
    match mixin_chains(m.mixins@) {
        None => None,
        Some(chains) => {
            let sc = sidechain_pos(m.mixins@);
            let side = match sc {
                Some(k) => seq!["["@ + uuid_text(m.mixins@[k].id.0) + "]asplit=2[sc][mix];["@ + uuid_text(m.id)
                    + "][sc]sidechaincompress=level_in=2:threshold=0.01:ratio=10:attack=10:release=1500[compr]"@],
                None => Seq::empty(),
            };
            let orig_label = if sc is Some { "compr"@ } else { uuid_text(m.id) };
            let amix = "["@ + orig_label + "]["@ + join(mix_labels(m.mixins@, sc), "]["@)
                + "]amix=inputs="@ + decimal((m.mixins@.len() + 1) as nat) + ":duration=longest[out]"@;
            Some(join(seq![orig_chain(m)] + chains + side + seq![amix], ";"@))
        },
    }
}

fn push_zmq(s: &mut String, port: u16)
    ensures
        final(s)@ == old(s)@ + zmq_filter(port),
{
    s.append("azmq=bind_address=tcp\\\\\\://127.0.0.1\\\\\\:");
    crate::volume::push_decimal(s, port as u64);
}

fn orig_chain_text(m: &MixingRestreamer) -> (r: String)
    ensures
        r@ == orig_chain(*m),
{
    let id = crate::restreamer::uuid_string_pub(m.id);
    let mut s = String::from_str("[0:a]volume@");
    s.append(id.as_str());
    s.append("=");
    let v = m.orig_volume.display_as_fraction();
    s.append(v.as_str());
    s.append(",aresample=48000,");
    push_zmq(&mut s, m.orig_zmq_port);
    s.append("[");
    s.append(id.as_str());
    s.append("]");
    assert(s@ =~= orig_chain(*m));
    s
}

fn mixin_chain_text(x: &Mixin, n: u64) -> (r: Option<String>)
    ensures
        r is Some <==> mixin_extra(*x) is Some,
        r matches Some(t) ==> t@ == mixin_chain(*x, n as nat, mixin_extra(*x)->Some_0),
{
    let mut extra = String::new();
    if x.url.is_voice_chat() {
        extra.append("aresample=async=1,");
    } else if (x.url.parts().scheme_is("http") || x.url.parts().scheme_is("https")) && path_has_extension(x.url.parts(), "mp3") {
        extra.append("aresample=48000,");
    } else {
        return None;
    }
    if !x.delay.is_zero() {
        extra.append("adelay=delays=");
        crate::volume::push_decimal(&mut extra, x.delay.total_millis());
        extra.append(":all=1,");
    }
    proof {
        assert(extra@ =~= mixin_extra(*x)->Some_0);
    }
    let id = crate::restreamer::uuid_string_pub(x.id.0);
    let mut s = String::from_str("[");
    crate::volume::push_decimal(&mut s, n);
    s.append(":a]volume@");
    s.append(id.as_str());
    s.append("=");
    let v = x.volume.display_as_fraction();
    s.append(v.as_str());
    s.append(",");
    s.append(extra.as_str());
    push_zmq(&mut s, x.zmq_port);
    s.append("[");
    s.append(id.as_str());
    s.append("]");
    assert(s@ =~= mixin_chain(*x, n as nat, mixin_extra(*x)->Some_0));
    Some(s)
}

/// Appends `sep` and `t` to `acc`, or just `t` if `acc` holds no item yet.
fn join_push(acc: &mut String, count: usize, t: &str, sep: &str, items: Ghost<Seq<Seq<char>>>)
    requires
        old(acc)@ == join(items@, sep@),
        count == items@.len(),
    ensures
        final(acc)@ == join(items@.push(t@), sep@),
{
    let ghost it = items@.push(t@);
    assert(it.drop_last() =~= items@);
    if count == 0 {
        acc.append(t);
        assert(acc@ =~= it[0]);
    } else {
        acc.append(sep);
        acc.append(t);
        assert(acc@ =~= join(items@, sep@) + sep@ + t@);
    }
}

impl MixingRestreamer {
    /// Builds the filter graph of this mixing process: for the original
    /// audio and each mixin a volume filter tagged with its ID and a control
    /// socket on its port (voice-chat mixins resampled with `async=1`, MP3
    /// ones to 48 kHz, delayed ones through `adelay`), a side-chain
    /// compression of the original audio keyed by the first side-chained
    /// mixin, and a final mix of all streams. Returns `None` if a mixin
    /// source is not supported.
    pub fn filter_complex(&self) -> (r: Option<String>)
        requires
            self.mixins@.len() < 1000,
        ensures
            r is Some <==> filter_complex_spec(*self) is Some,
            r matches Some(t) ==> t@ == filter_complex_spec(*self)->Some_0,
    {
        let mut out = orig_chain_text(self);
        let ghost items: Seq<Seq<char>> = seq![orig_chain(*self)];
        proof {
            assert(join(items, ";"@) =~= orig_chain(*self));
        }
        let mut k: usize = 0;
        let mut n_items: usize = 1;
        let ghost chains: Seq<Seq<char>> = Seq::empty();
        let mut sc: Option<usize> = None;
        while k < self.mixins.len()
            invariant
                k <= self.mixins@.len() < 1000,
                mixin_chains(self.mixins@.subrange(0, k as int)) == Some(chains),
                items == seq![orig_chain(*self)] + chains,
                n_items == items.len(),
                chains.len() == k,
                out@ == join(items, ";"@),
                same_pos(sc, sidechain_pos(self.mixins@.subrange(0, k as int))),
                sc matches Some(p) ==> p < k,
            decreases self.mixins@.len() - k,
        {
            let ghost pre = self.mixins@.subrange(0, k as int);
            let ghost next = self.mixins@.subrange(0, k + 1);
            proof {
                assert(next.drop_last() =~= pre);
            }
            let t = match mixin_chain_text(&self.mixins[k], (k + 1) as u64) {
                Some(t) => t,
                None => {
                    proof {
                        lemma_mixin_chains_prefix_none(self.mixins@, k + 1);
                    }
                    return None;
                },
            };
            join_push(&mut out, n_items, t.as_str(), ";", Ghost(items));
            proof {
                chains = chains.push(t@);
                items = items.push(t@);
            }
            n_items = n_items + 1;
            if sc.is_none() && self.mixins[k].sidechain {
                sc = Some(k);
            }
            k = k + 1;
        }
        proof {
            assert(self.mixins@.subrange(0, k as int) =~= self.mixins@);
        }
        let orig_id = crate::restreamer::uuid_string_pub(self.id);
        let orig_label = match sc {
            Some(p) => {
                let sid = crate::restreamer::uuid_string_pub(self.mixins[p].id.0);
                let mut side = String::from_str("[");
                side.append(sid.as_str());
                side.append("]asplit=2[sc][mix];[");
                side.append(orig_id.as_str());
                side.append("][sc]sidechaincompress=level_in=2:threshold=0.01:ratio=10:attack=10:release=1500[compr]");
                join_push(&mut out, n_items, side.as_str(), ";", Ghost(items));
                proof {
                    items = items.push(side@);
                }
                n_items = n_items + 1;
                String::from_str("compr")
            },
            None => orig_id,
        };
        let mut labels = String::new();
        let ghost lab: Seq<Seq<char>> = Seq::empty();
        let ghost all_labels = mix_labels(self.mixins@, sidechain_pos(self.mixins@));
        let mut j: usize = 0;
        while j < self.mixins.len()
            invariant
                j <= self.mixins@.len(),
                lab == all_labels.subrange(0, j as int),
                labels@ == join(lab, "]["@),
                all_labels == mix_labels(self.mixins@, sidechain_pos(self.mixins@)),
                same_pos(sc, sidechain_pos(self.mixins@)),
            decreases self.mixins@.len() - j,
        {
            let l = if sc == Some(j) {
                String::from_str("mix")
            } else {
                crate::restreamer::uuid_string_pub(self.mixins[j].id.0)
            };
            proof {
                assert(l@ == all_labels[j as int]);
            }
            join_push(&mut labels, j, l.as_str(), "][", Ghost(lab));
            proof {
                lab = lab.push(l@);
                assert(lab =~= all_labels.subrange(0, j + 1));
            }
            j = j + 1;
        }
        proof {
            assert(lab =~= all_labels);
        }
        let mut amix = String::from_str("[");
        amix.append(orig_label.as_str());
        amix.append("][");
        amix.append(labels.as_str());
        amix.append("]amix=inputs=");
        crate::volume::push_decimal(&mut amix, (self.mixins.len() + 1) as u64);
        amix.append(":duration=longest[out]");
        join_push(&mut out, n_items, amix.as_str(), ";", Ghost(items));
        proof {
            items = items.push(amix@);
            let side_items = match sidechain_pos(self.mixins@) {
                Some(p) => seq!["["@ + uuid_text(self.mixins@[p].id.0) + "]asplit=2[sc][mix];["@ + uuid_text(self.id)
                    + "][sc]sidechaincompress=level_in=2:threshold=0.01:ratio=10:attack=10:release=1500[compr]"@],
                None => Seq::<Seq<char>>::empty(),
            };
            assert(items =~= seq![orig_chain(*self)] + chains + side_items + seq![amix@]);
        }
        Some(out)
    }
}

/// Once a prefix of the mixins has an unsupported source, so has the whole.
pub proof fn lemma_mixin_chains_prefix_none(s: Seq<Mixin>, k: int)
    requires
        0 < k <= s.len(),
        mixin_chains(s.subrange(0, k)) is None,
    ensures
        mixin_chains(s) is None,
    decreases s.len(),
{
    if k < s.len() {
        assert(s.drop_last().subrange(0, k) =~= s.subrange(0, k));
        lemma_mixin_chains_prefix_none(s.drop_last(), k);
    } else {
        assert(s.subrange(0, k) =~= s);
    }
}

/// Path of the named pipe that feeds the voice-chat mixin `id`, in the
/// directory `dir`.
pub open spec fn fifo_path(dir: Seq<char>, id: u128) -> Seq<char> {
    dir + "/ephyr_mixin_"@ + uuid_text(id) + ".pipe"@
}

/// Arguments reading the mixin `x`: raw 48 kHz stereo little-endian float
/// samples from its pipe for a voice-chat source, its URL otherwise.
pub open spec fn mixin_input_args(x: Mixin, dir: Seq<char>) -> Seq<Seq<char>> {
    if x.url.url().scheme@ == "ts"@ {
        seq!["-thread_queue_size"@, "512"@, "-f"@, "f32le"@, "-sample_rate"@, "48000"@, "-channels"@, "2"@,
            "-use_wallclock_as_timestamps"@, "true"@, "-i"@, fifo_path(dir, x.id.0)]
    } else {
        seq!["-i"@, x.url.url().href@]
    }
}

/// Arguments reading all the mixins `s`.
pub open spec fn mixins_input_args(s: Seq<Mixin>, dir: Seq<char>) -> Seq<Seq<char>>
    decreases s.len(),
{
    if s.len() == 0 {
        Seq::empty()
    } else {
        mixins_input_args(s.drop_last(), dir) + mixin_input_args(s.last(), dir)
    }
}

/// Arguments writing the mixed stream to `to`; `file` is the path a `file`
/// destination records into.
pub open spec fn mixing_output_args(to: UrlParts, file: Seq<char>) -> Option<Seq<Seq<char>>> {
    if to.scheme@ == "file"@ && has_extension(to.path@, "flv"@) {
        Some(seq!["-map"@, "0:v"@, "-c:a"@, "libfdk_aac"@, "-c:v"@, "copy"@, "-shortest"@, file])
    } else if to.scheme@ == "icecast"@ {
        Some(seq!["-c:a"@, "libmp3lame"@, "-b:a"@, "64k"@, "-f"@, "mp3"@, "-content_type"@, "audio/mpeg"@, to.href@])
    } else if is_rtmp_url(to) {
        Some(seq!["-map"@, "0:v"@, "-c:a"@, "libfdk_aac"@, "-c:v"@, "copy"@, "-shortest"@, "-f"@, "flv"@, to.href@])
    } else if to.scheme@ == "srt"@ {
        Some(seq!["-map"@, "0:v"@, "-c:a"@, "libfdk_aac"@, "-c:v"@, "copy"@, "-shortest"@, "-strict"@, "-2"@, "-y"@,
            "-f"@, "mpegts"@, to.href@])
    } else {
        None
    }
}

/// Arguments of the mixing process `m`.
pub open spec fn mixing_args_spec(m: MixingRestreamer, dir: Seq<char>, to: UrlParts, file: Seq<char>) -> Option<Seq<Seq<char>>> {
    match (filter_complex_spec(m), mixing_output_args(to, file)) {
        (Some(f), Some(o)) => Some(seq!["-i"@, m.from_url@] + mixins_input_args(m.mixins@, dir)
            + seq!["-filter_complex"@, f, "-map"@, "[out]"@, "-max_muxing_queue_size"@, "50000000"@] + o),
        _ => None,
    }
}

/// Appends the arguments writing a mixed stream to `to`.
fn push_mixing_output(v: &mut Vec<String>, to: &UrlParts, file: &str) -> (ok: bool)
    ensures
        ok == mixing_output_args(*to, file@) is Some,
        ok ==> views(final(v)@) == views(old(v)@) + mixing_output_args(*to, file@)->Some_0,
{
    let ghost v0 = views(v@);
    if to.scheme_is("file") && path_has_extension(to, "flv") {
        arg(v, "-map");
        arg(v, "0:v");
        arg(v, "-c:a");
        arg(v, "libfdk_aac");
        arg(v, "-c:v");
        arg(v, "copy");
        arg(v, "-shortest");
        arg(v, file);
    } else if to.scheme_is("icecast") {
        arg(v, "-c:a");
        arg(v, "libmp3lame");
        arg(v, "-b:a");
        arg(v, "64k");
        arg(v, "-f");
        arg(v, "mp3");
        arg(v, "-content_type");
        arg(v, "audio/mpeg");
        arg(v, to.href.as_str());
    } else if to.scheme_is("rtmp") || to.scheme_is("rtmps") {
        arg(v, "-map");
        arg(v, "0:v");
        arg(v, "-c:a");
        arg(v, "libfdk_aac");
        arg(v, "-c:v");
        arg(v, "copy");
        arg(v, "-shortest");
        arg(v, "-f");
        arg(v, "flv");
        arg(v, to.href.as_str());
    } else if to.scheme_is("srt") {
        arg(v, "-map");
        arg(v, "0:v");
        arg(v, "-c:a");
        arg(v, "libfdk_aac");
        arg(v, "-c:v");
        arg(v, "copy");
        arg(v, "-shortest");
        arg(v, "-strict");
        arg(v, "-2");
        arg(v, "-y");
        arg(v, "-f");
        arg(v, "mpegts");
        arg(v, to.href.as_str());
    } else {
        return false;
    }
    assert(views(v@) =~= v0 + mixing_output_args(*to, file@)->Some_0);
    true
}

impl MixingRestreamer {
    /// Path of the named pipe that feeds the voice-chat mixin `id`, in the
    /// directory `dir`.
    pub fn get_fifo_path(dir: &str, id: u128) -> (r: String)
        ensures
            r@ == fifo_path(dir@, id),
    {
        let mut s = String::from_str(dir);
        s.append("/ephyr_mixin_");
        let t = crate::restreamer::uuid_string_pub(id);
        s.append(t.as_str());
        s.append(".pipe");
        s
    }

    /// Builds the arguments of this mixing process: its input, one input per
    /// mixin (voice-chat ones read from their pipes in `fifo_dir`), the filter
    /// graph, and the output to `to` (the parsed `to_url`; `file` is the path
    /// a `file` destination records into). Returns `None` if a source or the
    /// destination is not supported.
    pub fn args(&self, fifo_dir: &str, to: &UrlParts, file: &str) -> (r: Option<Vec<String>>)
        requires
            self.mixins@.len() < 1000,
        ensures
            r is Some <==> mixing_args_spec(*self, fifo_dir@, *to, file@) is Some,
            r matches Some(v) ==> views(v@) == mixing_args_spec(*self, fifo_dir@, *to, file@)->Some_0,
    {
        let filter = match self.filter_complex() {
            Some(f) => f,
            None => return None,
        };
        let mut v: Vec<String> = Vec::new();
        arg(&mut v, "-i");
        arg(&mut v, self.from_url.as_str());
        let ghost head = views(v@);
        let mut k: usize = 0;
        while k < self.mixins.len()
            invariant
                k <= self.mixins@.len(),
                views(v@) == head + mixins_input_args(self.mixins@.subrange(0, k as int), fifo_dir@),
            decreases self.mixins@.len() - k,
        {
            let ghost before = views(v@);
            let x = &self.mixins[k];
            if x.url.is_voice_chat() {
                arg(&mut v, "-thread_queue_size");
                arg(&mut v, "512");
                arg(&mut v, "-f");
                arg(&mut v, "f32le");
                arg(&mut v, "-sample_rate");
                arg(&mut v, "48000");
                arg(&mut v, "-channels");
                arg(&mut v, "2");
                arg(&mut v, "-use_wallclock_as_timestamps");
                arg(&mut v, "true");
                arg(&mut v, "-i");
                let p = Self::get_fifo_path(fifo_dir, x.id.0);
                arg(&mut v, p.as_str());
            } else {
                arg(&mut v, "-i");
                arg(&mut v, x.url.as_str());
            }
            proof {
                assert(self.mixins@.subrange(0, k + 1).drop_last() =~= self.mixins@.subrange(0, k as int));
                assert(views(v@) =~= before + mixin_input_args(*x, fifo_dir@));
            }
            k = k + 1;
        }
        proof {
            assert(self.mixins@.subrange(0, k as int) =~= self.mixins@);
        }
        let ghost mid = views(v@);
        arg(&mut v, "-filter_complex");
        arg(&mut v, filter.as_str());
        arg(&mut v, "-map");
        arg(&mut v, "[out]");
        arg(&mut v, "-max_muxing_queue_size");
        arg(&mut v, "50000000");
        let ghost mid2 = views(v@);
        if !push_mixing_output(&mut v, to, file) {
            return None;
        }
        proof {
            assert(views(v@) =~= mixing_args_spec(*self, fifo_dir@, *to, file@)->Some_0);
        }
        Some(v)
    }
}

} // verus!
