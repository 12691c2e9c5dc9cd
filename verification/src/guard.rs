//! The guard itself: normalization of the mixed proxy port and of the
//! external controller address, the document wrapper, patching, and the
//! derived client view.

use vstd::prelude::*;

use crate::addr::{
    fmt_sock, fmt_sock_exec, host_unspecified, host_unspecified_exec, parse_sock, parse_sock_exec,
    parse_u16_exec, parse_u16_text, addr_eq, AddrSpec, HostAddr, HostSpec, SockAddr,
};
use crate::digits::{dec_text, push_dec};
use crate::doc::{
    dinsert, dlookup, doc_wf, lemma_key_index_aligned, mkey_index, mlookup, patch_spec, ConfigDoc,
    ConfigValue, Val,
};
use crate::ext::{chars_to_string, fresh_secret, is_uuid_text};
use crate::text::{piece_views, split_from, split_on, str_to_chars, trim_chars, trim_ws};

verus! {

/// The fallback controller address, `127.0.0.1:9090`.
pub open spec fn dflt_ctrl() -> Seq<char> {
    seq!['1', '2', '7', '.', '0', '.', '0', '.', '1', ':', '9', '0', '9', '0']
}

/// The loopback host text, `127.0.0.1`.
pub open spec fn lb_prefix() -> Seq<char> {
    seq!['1', '2', '7', '.', '0', '.', '0', '.', '1']
}

/// The canonical text of `a` — provided it reads back as `a`; the
/// fallback otherwise.
pub open spec fn checked_fmt(a: AddrSpec) -> Seq<char> {
    let f = fmt_sock(a);
    if parse_sock(f) == Some(a) {
        f
    } else {
        dflt_ctrl()
    }
}

/// Normalization of the raw `external-controller` value: read it as a
/// string, trim it, prefix the loopback host to a `:port` shorthand,
/// parse it as `host:port` and re-serialize canonically; on any failure
/// fall back to `127.0.0.1:9090`.
pub open spec fn norm_server(v: Option<Val>) -> Seq<char> {
    match v {
        Some(Val::VStr(s)) => {
            let t = trim_ws(s);
            let u = if t.len() > 0 && t[0] == ':' {
                lb_prefix() + t
            } else {
                t
            };
            match parse_sock(u) {
                Some(a) => checked_fmt(a),
                None => dflt_ctrl(),
            }
        },
        _ => dflt_ctrl(),
    }
}

/// An unspecified (wildcard) host is replaced by loopback, the port kept.
pub open spec fn client_fix(a: AddrSpec) -> AddrSpec {
    if host_unspecified(a.host) {
        AddrSpec { host: HostSpec::H4(seq![127nat, 0nat, 0nat, 1nat]), port: a.port }
    } else {
        a
    }
}

/// The client-reachable controller address: the normalized server
/// address, with an unspecified host rewritten to loopback.
pub open spec fn norm_client(v: Option<Val>) -> Seq<char> {
    match parse_sock(norm_server(v)) {
        Some(a) => checked_fmt(client_fix(a)),
        None => dflt_ctrl(),
    }
}

/// Normalization of the raw `mixed-port` value: a string is parsed as a
/// 16-bit number, an integer is truncated to 16 bits; anything else, a
/// failure, or zero becomes 7890.
pub open spec fn norm_port(v: Option<Val>) -> u16 {
    let p: u16 = match v {
        Some(Val::VStr(s)) => match parse_u16_text(s) {
            Some(x) => x as u16,
            None => 7890u16,
        },
        Some(Val::VInt(i)) => if 0 <= i <= u64::MAX {
            (i % 0x10000) as u16
        } else {
            7890u16
        },
        _ => 7890u16,
    };
    if p == 0 {
        7890u16
    } else {
        p
    }
}

/// What guarding does to a document: exactly the `mixed-port` and
/// `external-controller` keys are rewritten, from the raw document's own
/// values; everything else is untouched.
pub open spec fn guard_spec(d: Seq<(Seq<char>, Val)>) -> Seq<(Seq<char>, Val)> {
    let p = norm_port(dlookup(d, "mixed-port"@));
    let c = norm_server(dlookup(d, "external-controller"@));
    dinsert(dinsert(d, "mixed-port"@, Val::VInt(p as int)), "external-controller"@, Val::VStr(c))
}

/// The fallback controller address as a string.
fn default_ctrl_string() -> (r: String)
    ensures
        r@ == dflt_ctrl(),
{
    let r = String::from_str("127.0.0.1:9090");
    proof {
        reveal_strlit("127.0.0.1:9090");
        assert(r@ =~= dflt_ctrl());
    }
    r
}

/// The derived read-only view of the controller connection.
#[derive(Debug, Clone, PartialEq, Eq, Default)]
pub struct ClashInfo {
    /// The effective mixed proxy port.
    pub port: u16,
    /// The client-reachable controller address, `host:port`.
    pub server: String,
    /// The controller secret, if one can be read as text.
    pub secret: Option<String>,
}

/// The guarded configuration document.
#[derive(Debug, Default)]
pub struct IClashTemp(pub ConfigDoc);

impl IClashTemp {
    /// The effective mixed proxy port of `config`.
    pub fn guard_mixed_port(config: &ConfigDoc) -> (p: u16)
        ensures
            p == norm_port(dlookup(config@, "mixed-port"@)),
            p != 0,
    {
        let p: u16 = match config.get("mixed-port") {
            Some(v) => match v {
                ConfigValue::Str(s) => {
                    let cs = str_to_chars(s.as_str());
                    match parse_u16_exec(&cs) {
                        Some(x) => x,
                        None => 7890,
                    }
                },
                ConfigValue::Int(i) => {
                    let iv = *i;
                    if 0 <= iv && iv <= u64::MAX as i128 {
                        (iv % 0x10000) as u16
                    } else {
                        7890
                    }
                },
                _ => 7890,
            },
            None => 7890,
        };
        if p == 0 {
            7890
        } else {
            p
        }
    }

    /// The normalized `external-controller` bind address of `config`.
    pub fn guard_server_ctrl(config: &ConfigDoc) -> (r: String)
        ensures
            r@ == norm_server(dlookup(config@, "external-controller"@)),
    {
        match config.get("external-controller") {
            Some(v) => match v {
                ConfigValue::Str(s) => {
                    let cs = str_to_chars(s.as_str());
                    let t = trim_chars(&cs);
                    let u: Vec<char> = if t.len() > 0 && t[0] == ':' {
                        let mut pre = str_to_chars("127.0.0.1");
                        proof {
                            reveal_strlit("127.0.0.1");
                            assert(pre@ =~= lb_prefix());
                        }
                        let mut tt = t;
                        pre.append(&mut tt);
                        pre
                    } else {
                        t
                    };
                    match parse_sock_exec(&u) {
                        Some(a) => {
                            let f = fmt_sock_exec(&a);
                            match parse_sock_exec(&f) {
                                Some(a2) => {
                                    if addr_eq(&a, &a2) {
                                        chars_to_string(&f)
                                    } else {
                                        default_ctrl_string()
                                    }
                                },
                                None => default_ctrl_string(),
                            }
                        },
                        None => default_ctrl_string(),
                    }
                },
                _ => default_ctrl_string(),
            },
            None => default_ctrl_string(),
        }
    }

    /// The client-reachable controller address of `config`.
    pub fn guard_client_ctrl(config: &ConfigDoc) -> (r: String)
        ensures
            r@ == norm_client(dlookup(config@, "external-controller"@)),
    {
        let server = Self::guard_server_ctrl(config);
        let cs = str_to_chars(server.as_str());
        match parse_sock_exec(&cs) {
            Some(a) => {
                let b: SockAddr = if host_unspecified_exec(&a) {
                    SockAddr { host: HostAddr::V4(127, 0, 0, 1), port: a.port }
                } else {
                    a
                };
                proof {
                    assert(b@ == client_fix(parse_sock(cs@).unwrap())) by {
                        if host_unspecified(parse_sock(cs@).unwrap().host) {
                            assert(b@.host =~= HostSpec::H4(seq![127nat, 0nat, 0nat, 1nat]));
                        }
                    }
                }
                let f = fmt_sock_exec(&b);
                match parse_sock_exec(&f) {
                    Some(b2) => {
                        if addr_eq(&b, &b2) {
                            chars_to_string(&f)
                        } else {
                            default_ctrl_string()
                        }
                    },
                    None => default_ctrl_string(),
                }
            },
            None => default_ctrl_string(),
        }
    }

    /// Normalizes the two guarded keys of `config`, in place, and leaves
    /// every other key byte-identical.
    pub fn guard(config: ConfigDoc) -> (r: ConfigDoc)
        ensures
            r@ == guard_spec(config@),
    {
        let port = Self::guard_mixed_port(&config);
        let ctrl = Self::guard_server_ctrl(&config);
        let mut config = config;
        config.insert(String::from_str("mixed-port"), ConfigValue::Int(port as i128));
        config.insert(String::from_str("external-controller"), ConfigValue::Str(ctrl));
        config
    }

    /// The effective mixed proxy port.
    pub fn get_mixed_port(&self) -> (p: u16)
        ensures
            p == norm_port(dlookup(self.0@, "mixed-port"@)),
    {
        Self::guard_mixed_port(&self.0)
    }
}

/// The textual form of a boolean.
pub open spec fn bool_text(b: bool) -> Seq<char> {
    if b {
        "true"@
    } else {
        "false"@
    }
}

/// The decimal text of a signed integer.
pub open spec fn int_text(i: int) -> Seq<char> {
    if i < 0 {
        seq!['-'] + dec_text((-i) as nat)
    } else {
        dec_text(i as nat)
    }
}

/// How the `secret` value reads as text: a string as it is, a boolean or
/// an integer in its decimal form, a kept float text verbatim; anything
/// else yields nothing.
pub open spec fn secret_view(v: Option<Val>) -> Option<Seq<char>> {
    match v {
        Some(Val::VStr(s)) => Some(s),
        Some(Val::VBool(b)) => Some(bool_text(b)),
        Some(Val::VInt(i)) => Some(int_text(i)),
        Some(Val::VFloat(t)) => Some(t),
        _ => None,
    }
}

/// The decimal string of a signed integer.
fn int_to_string(i: i128) -> (r: String)
    ensures
        r@ == int_text(i as int),
{
    let mut out: Vec<char> = Vec::new();
    if i < 0 {
        out.push('-');
        let m: u128 = ((-(i + 1)) as u128) + 1;
        proof {
            assert(m == -(i as int));
        }
        push_dec(m, &mut out);
        proof {
            assert(out@ =~= int_text(i as int));
        }
    } else {
        push_dec(i as u128, &mut out);
    }
    chars_to_string(&out)
}

/// The port named after the last colon of the normalized client address,
/// 9090 when that does not read as a port.
pub open spec fn last_piece_port(server: Seq<char>) -> u16 {
    let ps = split_on(server, ':');
    match parse_u16_text(ps.last()) {
        Some(x) => x as u16,
        None => 9090u16,
    }
}

/// The part before the last colon and the port after it; without a
/// colon, the loopback host and port 9090.  A port that does not read as
/// a 16-bit number also falls back to 9090.  Splitting at the last colon
/// keeps a bracketed IPv6 host whole.
pub open spec fn split_last_colon(s: Seq<char>) -> Option<(Seq<char>, Seq<char>)>
    decreases s.len(),
{
    if s.len() == 0 {
        None
    } else if s.last() == ':' {
        Some((s.drop_last(), Seq::<char>::empty()))
    } else {
        match split_last_colon(s.drop_last()) {
            Some(hp) => Some((hp.0, hp.1.push(s.last()))),
            None => None,
        }
    }
}

pub open spec fn ctrl_host_port(server: Seq<char>) -> (Seq<char>, u16) {
    match split_last_colon(server) {
        Some(hp) => (
            hp.0,
            match parse_u16_text(hp.1) {
                Some(x) => x as u16,
                None => 9090u16,
            },
        ),
        None => (lb_prefix(), 9090u16),
    }
}

pub proof fn lemma_split_last_colon_at(s: Seq<char>, j: int)
    requires
        0 <= j < s.len(),
        s[j] == ':',
        forall|i: int| j < i < s.len() ==> s[i] != ':',
    ensures
        split_last_colon(s) == Some((s.take(j), s.skip(j + 1))),
    decreases s.len(),
{
    if j == s.len() - 1 {
        assert(s.take(j) =~= s.drop_last());
        assert(s.skip(j + 1) =~= Seq::<char>::empty());
    } else {
        assert(s.last() != ':');
        assert forall|i: int| j < i < s.drop_last().len() implies s.drop_last()[i] != ':' by {
            assert(s.drop_last()[i] == s[i]);
        }
        assert(s.drop_last()[j] == s[j]);
        lemma_split_last_colon_at(s.drop_last(), j);
        assert(s.take(j) =~= s.drop_last().take(j));
        assert(s.skip(j + 1) =~= s.drop_last().skip(j + 1).push(s.last()));
    }
}

pub proof fn lemma_split_last_colon_none(s: Seq<char>)
    requires
        forall|i: int| 0 <= i < s.len() ==> s[i] != ':',
    ensures
        split_last_colon(s) is None,
    decreases s.len(),
{
    if s.len() > 0 {
        assert forall|i: int| 0 <= i < s.drop_last().len() implies s.drop_last()[i] != ':' by {
            assert(s.drop_last()[i] == s[i]);
        }
        lemma_split_last_colon_none(s.drop_last());
    }
}

/// `s` with every occurrence of `1/16` replaced by `2`, left to right.
pub open spec fn replace_fake(s: Seq<char>) -> Seq<char>
    decreases s.len(),
{
    if s.len() == 0 {
        s
    } else if s.len() >= 4 && s[0] == '1' && s[1] == '/' && s[2] == '1' && s[3] == '6' {
        seq!['2'] + replace_fake(s.skip(4))
    } else {
        seq![s[0]] + replace_fake(s.drop_first())
    }
}

fn replace_fake_exec(s: &Vec<char>) -> (r: Vec<char>)
    ensures
        r@ == replace_fake(s@),
{
    let n = s.len();
    let mut out: Vec<char> = Vec::new();
    let mut i: usize = 0;
    proof {
        assert(s@.skip(0) =~= s@);
        assert(out@ + replace_fake(s@) =~= replace_fake(s@));
    }
    while i < n
        invariant
            n == s@.len(),
            0 <= i <= n,
            out@ + replace_fake(s@.skip(i as int)) == replace_fake(s@),
        decreases n - i,
    {
        let ghost t = s@.skip(i as int);
        proof {
            assert(t.len() == n - i);
            assert(forall|m: int| 0 <= m < t.len() ==> t[m] == s@[i + m]);
        }
        if n - i >= 4 && s[i] == '1' && s[i + 1] == '/' && s[i + 2] == '1' && s[i + 3] == '6' {
            out.push('2');
            proof {
                assert(t.skip(4) =~= s@.skip(i as int + 4));
                assert(replace_fake(t) == seq!['2'] + replace_fake(t.skip(4)));
                assert(out@ + replace_fake(s@.skip(i as int + 4)) =~= (out@.drop_last())
                    + replace_fake(t));
            }
            i += 4;
        } else {
            out.push(s[i]);
            proof {
                assert(t.drop_first() =~= s@.skip(i as int + 1));
                assert(replace_fake(t) == seq![t[0]] + replace_fake(t.drop_first()));
                assert(out@ + replace_fake(s@.skip(i as int + 1)) =~= (out@.drop_last())
                    + replace_fake(t));
            }
            i += 1;
        }
    }
    proof {
        assert(s@.skip(n as int) =~= Seq::<char>::empty());
        assert(out@ =~= replace_fake(s@));
    }
    out
}

/// The template document carrying `secret` as its secret token.
pub open spec fn template_doc(secret: Seq<char>) -> Seq<(Seq<char>, Val)> {
    seq![
        ("mixed-port"@, Val::VInt(7890)),
        ("log-level"@, Val::VStr("info"@)),
        ("allow-lan"@, Val::VBool(false)),
        ("mode"@, Val::VStr("rule"@)),
        ("external-controller"@, Val::VStr("127.0.0.1:17650"@)),
        ("secret"@, Val::VStr(secret)),
        ("unified-delay"@, Val::VBool(true)),
        ("tcp-concurrent"@, Val::VBool(true)),
        ("ipv6"@, Val::VBool(false)),
    ]
}

/// The tun device address: the `dns.fake-ip-range` text with `1/16`
/// rewritten to `2`, or the fixed default.
pub open spec fn tun_ip_spec(d: Seq<(Seq<char>, Val)>) -> Seq<char> {
    match dlookup(d, "dns"@) {
        Some(Val::VMap(m)) => match mlookup(m, "fake-ip-range"@) {
            Some(cv) => match cv {
                ConfigValue::Str(s) => replace_fake(s@),
                _ => "198.18.0.2"@,
            },
            None => "198.18.0.2"@,
        },
        _ => "198.18.0.2"@,
    }
}

fn default_tun_string() -> (r: String)
    ensures
        r@ == "198.18.0.2"@,
{
    String::from_str("198.18.0.2")
}

impl IClashTemp {
    /// A loaded document is guarded before anything reads it; without
    /// one, the built-in template stands.
    pub fn new(loaded: Option<ConfigDoc>) -> (r: Self)
        ensures
            match loaded {
                Some(m) => r.0@ == guard_spec(m@),
                None => exists|s: Seq<char>|
                    #![auto]
                    is_uuid_text(s) && r.0@ == template_doc(s),
            },
    {
        match loaded {
            Some(m) => IClashTemp(Self::guard(m)),
            None => Self::template(),
        }
    }

    /// The built-in default document, with a freshly drawn secret token.
    pub fn template() -> (r: Self)
        ensures
            exists|s: Seq<char>| #![auto] is_uuid_text(s) && r.0@ == template_doc(s),
            doc_wf(r.0@),
    {
        let secret = fresh_secret();
        let ghost sec = secret@;
        let mut entries: Vec<(String, ConfigValue)> = Vec::new();
        entries.push((String::from_str("mixed-port"), ConfigValue::Int(7890)));
        entries.push((String::from_str("log-level"), ConfigValue::Str(String::from_str("info"))));
        entries.push((String::from_str("allow-lan"), ConfigValue::Bool(false)));
        entries.push((String::from_str("mode"), ConfigValue::Str(String::from_str("rule"))));
        entries.push((
            String::from_str("external-controller"),
            ConfigValue::Str(String::from_str("127.0.0.1:17650")),
        ));
        entries.push((String::from_str("secret"), ConfigValue::Str(secret)));
        entries.push((String::from_str("unified-delay"), ConfigValue::Bool(true)));
        entries.push((String::from_str("tcp-concurrent"), ConfigValue::Bool(true)));
        entries.push((String::from_str("ipv6"), ConfigValue::Bool(false)));
        let d = ConfigDoc { entries };
        proof {
            assert(d@ =~~= template_doc(sec));
            reveal_strlit("mixed-port");
            reveal_strlit("log-level");
            reveal_strlit("allow-lan");
            reveal_strlit("mode");
            reveal_strlit("external-controller");
            reveal_strlit("secret");
            reveal_strlit("unified-delay");
            reveal_strlit("tcp-concurrent");
            reveal_strlit("ipv6");
            assert forall|i: int, j: int| 0 <= i < j < d@.len() implies d@[i].0 != d@[j].0 by {
                assert(d@[i].0.len() != d@[j].0.len() || d@[i].0[0] != d@[j].0[0] || d@[i].0[1]
                    != d@[j].0[1]);
            }
        }
        IClashTemp(d)
    }

    /// Key-wise upsert of every entry of `patch` into the document, in
    /// order.  No validation happens here; callers re-guard when they
    /// touch the guarded keys.
    pub fn patch_config(&mut self, patch: ConfigDoc)
        ensures
            final (self).0@ == patch_spec(old(self).0@, patch@),
    {
        let ghost orig_d = self.0@;
        let ghost orig_p = patch@;
        let mut p = patch;
        while p.entries.len() > 0
            invariant
                patch_spec(orig_d, orig_p) == patch_spec(self.0@, p@),
            decreases p.entries.len(),
        {
            let ghost pre_d = self.0@;
            let ghost pre_p = p@;
            let e = p.entries.remove(0);
            proof {
                assert(p@ =~= pre_p.drop_first());
                assert(pre_p[0] == (e.0@, crate::doc::val_view(e.1)));
            }
            self.0.insert(e.0, e.1);
        }
        proof {
            assert(p@.len() == 0);
        }
    }

    /// The derived controller view: effective port, client-reachable
    /// server address, and the secret read as text.
    pub fn get_client_info(&self) -> (r: ClashInfo)
        ensures
            r.port == norm_port(dlookup(self.0@, "mixed-port"@)),
            r.server@ == norm_client(dlookup(self.0@, "external-controller"@)),
            match r.secret {
                Some(s) => secret_view(dlookup(self.0@, "secret"@)) == Some(s@),
                None => secret_view(dlookup(self.0@, "secret"@)) is None,
            },
    {
        let port = Self::guard_mixed_port(&self.0);
        let server = Self::guard_client_ctrl(&self.0);
        let secret: Option<String> = match self.0.get("secret") {
            Some(v) => match v {
                ConfigValue::Str(s) => Some(s.clone()),
                ConfigValue::Bool(b) => Some(
                    if *b {
                        String::from_str("true")
                    } else {
                        String::from_str("false")
                    },
                ),
                ConfigValue::Int(i) => Some(int_to_string(*i)),
                ConfigValue::Float(t) => Some(t.clone()),
                _ => None,
            },
            None => None,
        };
        ClashInfo { port, server, secret }
    }

    /// The port of the client-reachable controller address.
    pub fn get_external_controller_port(&self) -> (p: u16)
        ensures
            p == last_piece_port(norm_client(dlookup(self.0@, "external-controller"@))),
    {
        let server = Self::guard_client_ctrl(&self.0);
        let cs = str_to_chars(server.as_str());
        let ps = split_from(&cs, 0, ':');
        proof {
            assert(cs@.skip(0) =~= cs@);
        }
        let last = ps.len() - 1;
        proof {
            assert(piece_views(ps@).last() == ps@[ps@.len() - 1]@);
        }
        match parse_u16_exec(&ps[last]) {
            Some(x) => x,
            None => 9090,
        }
    }

    /// Applies an externally resolved controller port: when it differs
    /// from the current one, exactly the `external-controller` key is
    /// patched, the host kept, and the new address is handed back for
    /// the caller's warning; otherwise the document is untouched.
    pub fn prepare_external_controller_port(&mut self, resolved_port: u16) -> (r: Option<String>)
        ensures
            ({
                let server = norm_client(dlookup(old(self).0@, "external-controller"@));
                let hp = ctrl_host_port(server);
                if resolved_port == hp.1 {
                    final (self).0@ == old(self).0@ && r is None
                } else {
                    let ns = hp.0 + seq![':'] + dec_text(resolved_port as nat);
                    &&& final (self).0@ == dinsert(
                        old(self).0@,
                        "external-controller"@,
                        Val::VStr(ns),
                    )
                    &&& r matches Some(x) && x@ == ns
                }
            }),
    {
        let server = Self::guard_client_ctrl(&self.0);
        let cs = str_to_chars(server.as_str());
        let n = cs.len();
        let mut j: usize = n;
        while j > 0 && cs[j - 1] != ':'
            invariant
                n == cs@.len(),
                0 <= j <= n,
                forall|i: int| j <= i < n ==> cs@[i] != ':',
            decreases j,
        {
            j -= 1;
        }
        let mut host: Vec<char>;
        let cur_port: u16;
        if j == 0 {
            proof {
                lemma_split_last_colon_none(cs@);
            }
            host = str_to_chars("127.0.0.1");
            proof {
                reveal_strlit("127.0.0.1");
                assert(host@ =~= lb_prefix());
            }
            cur_port = 9090;
        } else {
            // the last colon sits at j - 1
            proof {
                lemma_split_last_colon_at(cs@, j as int - 1);
            }
            let mut h: Vec<char> = Vec::new();
            let mut k: usize = 0;
            while k < j - 1
                invariant
                    1 <= j <= n,
                    0 <= k <= j - 1,
                    n == cs@.len(),
                    h@ =~= cs@.take(k as int),
                decreases j - k,
            {
                h.push(cs[k]);
                k += 1;
            }
            proof {
                assert(h@ =~= cs@.take(j as int - 1));
            }
            let mut rest: Vec<char> = Vec::new();
            let mut m: usize = j;
            while m < n
                invariant
                    1 <= j <= m <= n,
                    n == cs@.len(),
                    rest@ =~= cs@.subrange(j as int, m as int),
                decreases n - m,
            {
                rest.push(cs[m]);
                m += 1;
            }
            proof {
                assert(rest@ =~= cs@.skip(j as int));
            }
            host = h;
            cur_port = match parse_u16_exec(&rest) {
                Some(x) => x,
                None => 9090,
            };
        }
        let ghost h0 = host@;
        if resolved_port != cur_port {
            let mut ns = host;
            ns.push(':');
            push_dec(resolved_port as u128, &mut ns);
            proof {
                assert(ns@ =~= h0 + seq![':'] + dec_text(resolved_port as nat));
            }
            let ns_str = chars_to_string(&ns);
            let out = ns_str.clone();
            self.0.insert(String::from_str("external-controller"), ConfigValue::Str(ns_str));
            Some(out)
        } else {
            None
        }
    }

    /// The tun device address derived from `dns.fake-ip-range`: the
    /// range text with `1/16` rewritten to `2`; the fixed default when
    /// the `dns` sub-mapping, or a textual `fake-ip-range` in it, is
    /// missing.
    pub fn get_tun_device_ip(&self) -> (r: String)
        ensures
            r@ == tun_ip_spec(self.0@),
    {
        match self.0.get("dns") {
            Some(v) => match v {
                ConfigValue::Mapping(dd) => {
                    let ghost m = dd.entries@.map_values(
                        |e: (String, ConfigValue)| (e.0@, e.1),
                    );
                    let ghost k = "fake-ip-range"@;
                    proof {
                        assert(crate::doc::val_view(*v) == Val::VMap(m));
                        assert(dd@.len() == m.len());
                        assert forall|i: int| 0 <= i < dd@.len() implies dd@[i].0 == m[i].0 by {
                            assert(dd@[i] == (dd.entries@[i].0@, crate::doc::val_view(
                                dd.entries@[i].1,
                            )));
                            assert(m[i] == (dd.entries@[i].0@, dd.entries@[i].1));
                        }
                        lemma_key_index_aligned(dd@, m, k);
                        crate::doc::lemma_key_index_range(dd@, k);
                    }
                    let found = dd.get("fake-ip-range");
                    proof {
                        let ki = crate::doc::key_index(dd@, k);
                        if ki >= 0 {
                            assert(mkey_index(m, k) == ki);
                            assert(mlookup(m, k) == Some(m[ki].1));
                            assert(dd@[ki] == (dd.entries@[ki as int].0@,
                                crate::doc::val_view(dd.entries@[ki as int].1)));
                            assert(m[ki] == (dd.entries@[ki as int].0@, dd.entries@[
                                ki as int].1));
                            assert(dd@[ki].1 == crate::doc::val_view(m[ki].1));
                        } else {
                            assert(mkey_index(m, k) < 0);
                            assert(mlookup(m, k) is None);
                        }
                    }
                    match found {
                        Some(fv) => match fv {
                            ConfigValue::Str(s) => {
                                proof {
                                    let ki = crate::doc::key_index(dd@, k);
                                    assert(crate::doc::val_view(m[ki].1) == Val::VStr(s@));
                                    assert(m[ki].1 matches ConfigValue::Str(t) && t@ == s@);
                                }
                                let cs = str_to_chars(s.as_str());
                                let out = replace_fake_exec(&cs);
                                chars_to_string(&out)
                            },
                            _ => {
                                proof {
                                    let ki = crate::doc::key_index(dd@, k);
                                    assert(crate::doc::val_view(m[ki].1) == crate::doc::val_view(
                                        *fv,
                                    ));
                                    assert(!(m[ki].1 matches ConfigValue::Str(_)));
                                }
                                default_tun_string()
                            },
                        },
                        None => default_tun_string(),
                    }
                },
                _ => default_tun_string(),
            },
            None => default_tun_string(),
        }
    }
}

} // verus!
