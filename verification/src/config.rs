//! Client settings: where the node is, how to authenticate, and how to cache and reconnect.

use vstd::prelude::*;

use crate::text::text_eq;

verus! {

/// `s` with every occurrence of a nonempty `pat` replaced by `rep`, scanning from the
/// left and never re-reading replaced text.
pub open spec fn replace_all(s: Seq<char>, pat: Seq<char>, rep: Seq<char>) -> Seq<char>
    decreases s.len(),
{
    if pat.len() == 0 || s.len() == 0 {
        s
    } else if pat.len() <= s.len() && s.take(pat.len() as int) == pat {
        rep + replace_all(s.skip(pat.len() as int), pat, rep)
    } else {
        seq![s[0]] + replace_all(s.skip(1), pat, rep)
    }
}

/// The websocket address that goes with an RPC address: each `http` becomes `ws`.
pub open spec fn ws_url_for(url: Seq<char>) -> Seq<char> {
    replace_all(url, "http"@, "ws"@)
}

/// Settings of a client.
#[derive(Debug, Clone)]
pub struct KaspaConfig {
    pub rpc_url: String,
    pub ws_url: String,
    pub username: Option<String>,
    pub password: Option<String>,
    pub timeout_seconds: u64,
    pub cache_enabled: bool,
    pub cache_ttl_seconds: u64,
    pub monitored_addresses: Vec<String>,
    pub auto_reconnect: bool,
    pub max_reconnect_attempts: usize,
}

impl Default for KaspaConfig {
    /// A local node on the default port, no credentials, a 30 s timeout, a cache of
    /// 300 s, no monitored address, and up to 10 reconnection attempts.
    fn default() -> (c: Self)
        ensures
            c.rpc_url@ == "http://localhost:16110"@,
            c.ws_url@ == "ws://localhost:16110"@,
            c.username is None,
            c.password is None,
            c.timeout_seconds == 30,
            c.cache_enabled,
            c.cache_ttl_seconds == 300,
            c.monitored_addresses@.len() == 0,
            c.auto_reconnect,
            c.max_reconnect_attempts == 10,
    {
        KaspaConfig {
            rpc_url: String::from_str("http://localhost:16110"),
            ws_url: String::from_str("ws://localhost:16110"),
            username: None,
            password: None,
            timeout_seconds: 30,
            cache_enabled: true,
            cache_ttl_seconds: 300,
            monitored_addresses: Vec::new(),
            auto_reconnect: true,
            max_reconnect_attempts: 10,
        }
    }
}

/// Replaces each occurrence of the nonempty `pat` in `s` by `rep`.
pub fn replace_text(s: &str, pat: &str, rep: &str) -> (r: String)
    ensures
        r@ == replace_all(s@, pat@, rep@),
{
    let n = s.unicode_len();
    let m = pat.unicode_len();
    if m == 0 {
        return String::from_str(s);
    }
    let mut out = String::new();
    let mut i: usize = 0;
    proof {
        assert(s@.skip(0) =~= s@);
        assert(out@ + replace_all(s@, pat@, rep@) =~= replace_all(s@, pat@, rep@));
    }
    while i < n
        invariant
            n == s@.len(),
            m == pat@.len(),
            m > 0,
            i <= n,
            out@ + replace_all(s@.skip(i as int), pat@, rep@) == replace_all(s@, pat@, rep@),
        decreases n - i,
    {
        let ghost rest = s@.skip(i as int);
        if m <= n - i && text_eq(s.substring_char(i, i + m), pat) {
            proof {
                assert(rest.take(m as int) =~= s@.subrange(i as int, i + m));
                assert(rest.skip(m as int) =~= s@.skip(i + m));
                assert(replace_all(rest, pat@, rep@) == rep@ + replace_all(rest.skip(m as int), pat@, rep@));
            }
            out.append(rep);
            proof {
                assert(out@ + replace_all(s@.skip(i + m), pat@, rep@) =~= replace_all(s@, pat@, rep@));
            }
            i = i + m;
        } else {
            proof {
                if m <= n - i {
                    assert(rest.take(m as int) =~= s@.subrange(i as int, i + m));
                }
                assert(rest.skip(1) =~= s@.skip(i + 1));
                assert(s@.subrange(i as int, i + 1) =~= seq![rest[0]]);
                assert(replace_all(rest, pat@, rep@) == seq![rest[0]] + replace_all(rest.skip(1), pat@, rep@));
            }
            out.append(s.substring_char(i, i + 1));
            proof {
                assert(out@ + replace_all(s@.skip(i + 1), pat@, rep@) =~= replace_all(s@, pat@, rep@));
            }
            i = i + 1;
        }
    }
    proof {
        assert(s@.skip(n as int) =~= Seq::<char>::empty());
        assert(out@ + Seq::<char>::empty() =~= out@);
    }
    out
}

impl KaspaConfig {
    /// The same settings with the RPC address `url`, and as websocket address `url`
    /// with each `http` read as `ws`.
    pub fn with_rpc_url(self, url: &str) -> (c: Self)
        ensures
            c.rpc_url@ == url@,
            c.ws_url@ == ws_url_for(url@),
            c.username == self.username,
            c.password == self.password,
            c.timeout_seconds == self.timeout_seconds,
            c.cache_enabled == self.cache_enabled,
            c.cache_ttl_seconds == self.cache_ttl_seconds,
            c.monitored_addresses == self.monitored_addresses,
            c.auto_reconnect == self.auto_reconnect,
            c.max_reconnect_attempts == self.max_reconnect_attempts,
    {
        proof {
            reveal_strlit("http");
            reveal_strlit("ws");
        }
        let mut c = self;
        c.rpc_url = String::from_str(url);
        c.ws_url = replace_text(url, "http", "ws");
        c
    }

    /// The same settings with the given user name and password.
    pub fn with_credentials(self, username: &str, password: &str) -> (c: Self)
        ensures
            c.rpc_url == self.rpc_url,
            c.ws_url == self.ws_url,
            c.username matches Some(u) && u@ == username@,
            c.password matches Some(p) && p@ == password@,
            c.timeout_seconds == self.timeout_seconds,
            c.cache_enabled == self.cache_enabled,
            c.cache_ttl_seconds == self.cache_ttl_seconds,
            c.monitored_addresses == self.monitored_addresses,
            c.auto_reconnect == self.auto_reconnect,
            c.max_reconnect_attempts == self.max_reconnect_attempts,
    {
        let mut c = self;
        c.username = Some(String::from_str(username));
        c.password = Some(String::from_str(password));
        c
    }
}

} // verus!
