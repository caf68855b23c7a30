//! Parameters of the voice-chat connection that captures the audio of a
//! `ts://` mixin.
use vstd::prelude::*;
use crate::ids::{Label, MixinId};
use crate::restreamer::uuid_text;
use crate::urls::{opt_view, pairs_view, MixinSrcUrl, UrlParts};
use crate::volume::decimal;

verus! {

/// How the client connects to a voice-chat server.
#[derive(Debug)]
pub struct VoiceChatConnection {
    /// Host of the server, with its port if the URL gives one.
    pub host: String,
    /// Channel to join: the URL path without its leading slashes.
    pub channel: String,
    /// Name to announce the client by.
    pub name: String,
    /// Private identity to restore, if the URL gives one.
    pub identity: Option<String>,
}

/// The value of the last query pair named `key`, if any.
pub open spec fn last_value(q: Seq<(Seq<char>, Seq<char>)>, key: Seq<char>) -> Option<Seq<char>>
    decreases q.len(),
{
    if q.len() == 0 {
        None
    } else if q.last().0 == key {
        Some(q.last().1)
    } else {
        last_value(q.drop_last(), key)
    }
}

/// `p` without its leading slashes.
pub open spec fn trim_slashes(p: Seq<char>) -> Seq<char>
    decreases p.len(),
{
    if p.len() > 0 && p[0] == '/' {
        trim_slashes(p.subrange(1, p.len() as int))
    } else {
        p
    }
}

/// The name a client announces itself by: the `name` query parameter, or a
/// robot sign followed by the output label or else the mixin ID.
pub open spec fn client_name(u: UrlParts, label: Option<Seq<char>>, id: MixinId) -> Seq<char> {
    match last_value(pairs_view(u.query@), "name"@) {
        Some(n) => n,
        None => "🤖 "@ + match label {
            Some(l) => l,
            None => uuid_text(id.0),
        },
    }
}

/// Host and port text of `u`, if it has a host.
pub open spec fn host_text(u: UrlParts) -> Option<Seq<char>> {
    match opt_view(u.host) {
        Some(h) => Some(h + match u.port {
            Some(p) => ":"@ + decimal(p as nat),
            None => Seq::empty(),
        }),
        None => None,
    }
}

fn find_last(q: &Vec<(String, String)>, key: &str) -> (r: Option<String>)
    ensures
        opt_view(r) == last_value(pairs_view(q@), key@),
{
    let mut k: usize = 0;
    let mut found: Option<String> = None;
    while k < q.len()
        invariant
            k <= q@.len(),
            opt_view(found) == last_value(pairs_view(q@.subrange(0, k as int)), key@),
        decreases q@.len() - k,
    {
        proof {
            assert(pairs_view(q@.subrange(0, k + 1)).drop_last() =~= pairs_view(q@.subrange(0, k as int)));
        }
        if crate::text::str_eq(q[k].0.as_str(), key) {
            found = Some(q[k].1.clone());
        }
        k = k + 1;
    }
    proof {
        assert(q@.subrange(0, k as int) =~= q@);
    }
    found
}

fn trimmed(p: &str) -> (r: String)
    ensures
        r@ == trim_slashes(p@),
{
    let n = p.unicode_len();
    let mut i: usize = 0;
    proof {
        assert(p@.subrange(0, p@.len() as int) =~= p@);
    }
    while i < n && p.get_char(i) == '/'
        invariant
            i <= n == p@.len(),
            trim_slashes(p@.subrange(i as int, n as int)) == trim_slashes(p@),
        decreases n - i,
    {
        proof {
            let s = p@.subrange(i as int, n as int);
            assert(s.subrange(1, s.len() as int) =~= p@.subrange(i + 1, n as int));
        }
        i = i + 1;
    }
    p.substring_char(i, n).to_owned()
}

/// Parameters of the voice-chat connection of the mixin `id` reading from
/// `src`, for an output labelled `label`: `None` unless `src` is a `ts://`
/// URL with a host.
pub fn voice_chat_connection(src: &MixinSrcUrl, label: Option<&Label>, id: MixinId) -> (r: Option<VoiceChatConnection>)
    ensures
        r is Some <==> src.url().scheme@ == "ts"@ && src.url().host is Some,
        r matches Some(c) ==> {
            &&& Some(c.host@) == host_text(src.url())
            &&& c.channel@ == trim_slashes(src.url().path@)
            &&& c.name@ == client_name(src.url(), match label { Some(l) => Some(l@), None => None }, id)
            &&& opt_view(c.identity) == last_value(pairs_view(src.url().query@), "identity"@)
        },
{
    if !src.is_voice_chat() {
        return None;
    }
    let u = src.parts();
    let mut host = match &u.host {
        Some(h) => h.clone(),
        None => return None,
    };
    match u.port {
        Some(p) => {
            host.append(":");
            crate::volume::push_decimal(&mut host, p as u64);
        },
        None => {},
    }
    let channel = trimmed(u.path.as_str());
    let name = match find_last(&u.query, "name") {
        Some(n) => n,
        None => {
            let mut n = String::from_str("🤖 ");
            match label {
                Some(l) => n.append(l.as_str()),
                None => {
                    let t = crate::restreamer::uuid_string_pub(id.0);
                    n.append(t.as_str());
                },
            }
            n
        },
    };
    let identity = find_last(&u.query, "identity");
    Some(VoiceChatConnection { host, channel, name, identity })
}

} // verus!
