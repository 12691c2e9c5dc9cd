//! The guard's laws: guarding is idempotent, an in-range port passes
//! through unchanged, and patching leaves unlisted keys alone.

use vstd::prelude::*;

use crate::addr::{
    best_run, count_empty, fmt_sock, fmt_v6, group_vals, groups_ok, join_hex, parse_group,
    parse_octet, parse_port_text, parse_sock, parse_v4, parse_v6, zero_groups, zero_run, AddrSpec,
    HostSpec,
};
use crate::digits::{
    dec_text, hex_text, is_dec_digit, is_hex_digit, lemma_dec_text_le3, lemma_dec_text_shape,
    lemma_dec_text_value, lemma_hex_num_bound, lemma_hex_text_le4, lemma_hex_text_shape,
    lemma_hex_text_value,
};
use crate::doc::{dinsert, dlookup, doc_wf, lemma_insert_same_value, lemma_insert_wf,
    lemma_lookup_insert_other, lemma_lookup_insert_same, Val};
use crate::guard::{checked_fmt, dflt_ctrl, guard_spec, lb_prefix, norm_port, norm_server};
use crate::text::{is_ws, lemma_split_nosep, lemma_split_sep, lemma_trim_noop, split_on, trim_ws};

verus! {

/// The parsed form of the fallback controller address.
pub open spec fn dflt_addr() -> AddrSpec {
    AddrSpec { host: HostSpec::H4(seq![127nat, 0nat, 0nat, 1nat]), port: 9090nat }
}

/// `127.0.0.1:9090` is the canonical text of loopback port 9090, and so
/// parses back to it.
pub proof fn lemma_dflt_round()
    ensures
        parse_sock(dflt_ctrl()) == Some(dflt_addr()),
        fmt_sock(dflt_addr()) == dflt_ctrl(),
{
    reveal_with_fuel(dec_text, 6);
    assert(dec_text(127nat) =~= seq!['1', '2', '7']);
    assert(dec_text(0nat) =~= seq!['0']);
    assert(dec_text(1nat) =~= seq!['1']);
    assert(dec_text(9090nat) =~= seq!['9', '0', '9', '0']);
    assert(fmt_sock(dflt_addr()) =~= dflt_ctrl());
    lemma_v4_canonical_roundtrip(dflt_addr());
}

/// The canonical text of an IPv4 socket address always reads back as
/// the same address, so the guard's canonicality check never rejects an
/// IPv4 address: its canonical form is final.
pub proof fn lemma_v4_canonical_roundtrip(a: AddrSpec)
    requires
        a.host matches HostSpec::H4(o) && o.len() == 4 && (forall|i: int|
            0 <= i < 4 ==> o[i] <= 255),
        a.port <= 65535,
    ensures
        parse_sock(fmt_sock(a)) == Some(a),
        checked_fmt(a) == fmt_sock(a),
{
    let o = a.host->H4_0;
    let t0 = dec_text(o[0]);
    let t1 = dec_text(o[1]);
    let t2 = dec_text(o[2]);
    let t3 = dec_text(o[3]);
    let tp = dec_text(a.port);
    lemma_dec_text_shape(o[0]);
    lemma_dec_text_shape(o[1]);
    lemma_dec_text_shape(o[2]);
    lemma_dec_text_shape(o[3]);
    lemma_dec_text_shape(a.port);
    lemma_dec_text_value(o[0]);
    lemma_dec_text_value(o[1]);
    lemma_dec_text_value(o[2]);
    lemma_dec_text_value(o[3]);
    lemma_dec_text_value(a.port);
    lemma_dec_text_le3(o[0]);
    lemma_dec_text_le3(o[1]);
    lemma_dec_text_le3(o[2]);
    lemma_dec_text_le3(o[3]);
    let dot = seq!['.'];
    let host = t0 + dot + t1 + dot + t2 + dot + t3;
    let f = fmt_sock(a);
    assert(f =~= host + seq![':'] + tp);
    // every character of the host text is a digit or a dot
    let b0 = t0.len() as int;
    let b1 = b0 + 1 + t1.len();
    let b2 = b1 + 1 + t2.len();
    assert forall|i: int| 0 <= i < host.len() implies is_dec_digit(#[trigger] host[i]) || host[i]
        == '.' by {
        if i < b0 {
            assert(host[i] == t0[i]);
        } else if i == b0 {
            assert(host[i] == '.');
        } else if i < b1 {
            assert(host[i] == t1[i - b0 - 1]);
        } else if i == b1 {
            assert(host[i] == '.');
        } else if i < b2 {
            assert(host[i] == t2[i - b1 - 1]);
        } else if i == b2 {
            assert(host[i] == '.');
        } else {
            assert(host[i] == t3[i - b2 - 1]);
        }
    }
    assert(forall|i: int| 0 <= i < host.len() ==> #[trigger] host[i] != ':');
    assert(forall|i: int| 0 <= i < tp.len() ==> #[trigger] tp[i] != ':');
    lemma_split_sep(host, tp, ':');
    lemma_split_nosep(tp, ':');
    let ps = split_on(f, ':');
    assert(f == host + seq![':'] + tp);
    assert(ps == seq![host] + seq![tp]);
    assert(ps.len() == 2 && ps[0] == host && ps[1] == tp);
    // the host splits into the four octet texts
    let r1 = t1 + dot + t2 + dot + t3;
    let r2 = t2 + dot + t3;
    assert(host =~= t0 + dot + r1);
    assert(r1 =~= t1 + dot + r2);
    assert(r2 =~= t2 + dot + t3);
    assert(forall|i: int| 0 <= i < t0.len() ==> #[trigger] t0[i] != '.');
    assert(forall|i: int| 0 <= i < t1.len() ==> #[trigger] t1[i] != '.');
    assert(forall|i: int| 0 <= i < t2.len() ==> #[trigger] t2[i] != '.');
    assert(forall|i: int| 0 <= i < t3.len() ==> #[trigger] t3[i] != '.');
    lemma_split_sep(t0, r1, '.');
    lemma_split_sep(t1, r2, '.');
    lemma_split_sep(t2, t3, '.');
    lemma_split_nosep(t3, '.');
    let hs = split_on(host, '.');
    assert(hs == seq![t0] + (seq![t1] + (seq![t2] + seq![t3])));
    assert(hs.len() == 4 && hs[0] == t0 && hs[1] == t1 && hs[2] == t2 && hs[3] == t3);
    // each octet text parses back to its octet
    assert forall|k: int| 0 <= k < 4 implies parse_octet(hs[k]) == Some(o[k] as nat) by {
        let t = hs[k];
        assert(t == dec_text(o[k]));
        if t.len() > 1 && t[0] == '0' {
            assert(o[k] == 0);
            assert(dec_text(0) =~= seq![crate::digits::dec_char(0)]);
        }
    }
    assert(parse_v4(host) == Some(seq![o[0], o[1], o[2], o[3]]));
    assert(parse_port_text(tp) == Some(a.port));
    assert(f[0] == t0[0]);
    assert(is_dec_digit(f[0]));
    assert(f[0] != '[');
    assert(f.len() > 0);
    assert(seq![o[0], o[1], o[2], o[3]] =~= o);
    assert(parse_sock(f) == Some(AddrSpec { host: HostSpec::H4(o), port: a.port }));
    assert(AddrSpec { host: HostSpec::H4(o), port: a.port } == a);
}

/// The canonical text of any address is nonempty, begins with a digit or
/// a bracket, and ends with a digit; so it holds no surrounding
/// whitespace and no leading colon.
pub proof fn lemma_fmt_shape(a: AddrSpec)
    ensures
        fmt_sock(a).len() > 0,
        !is_ws(fmt_sock(a)[0]),
        fmt_sock(a)[0] != ':',
        !is_ws(fmt_sock(a).last()),
{
    let f = fmt_sock(a);
    lemma_dec_text_shape(a.port);
    match a.host {
        HostSpec::H4(o) => {
            lemma_dec_text_shape(o[0]);
            assert(f[0] == dec_text(o[0])[0]);
            assert(is_dec_digit(f[0]));
            assert(f.last() == dec_text(a.port).last());
            assert(is_dec_digit(f.last()));
        },
        HostSpec::H6(g) => {
            assert(f[0] == '[');
            assert(f.last() == dec_text(a.port).last());
            assert(is_dec_digit(f.last()));
        },
    }
}

/// Normalizing an already-normalized controller value changes nothing.
pub proof fn lemma_norm_server_stable(v: Option<Val>)
    ensures
        norm_server(Some(Val::VStr(norm_server(v)))) == norm_server(v),
{
    lemma_dflt_round();
    let s1 = norm_server(v);
    let is_checked = match v {
        Some(Val::VStr(s0)) => {
            let t = trim_ws(s0);
            let u = if t.len() > 0 && t[0] == ':' {
                lb_prefix() + t
            } else {
                t
            };
            match parse_sock(u) {
                Some(a) => parse_sock(fmt_sock(a)) == Some(a),
                None => false,
            }
        },
        _ => false,
    };
    if is_checked {
        let s0 = v->Some_0->VStr_0;
        let t = trim_ws(s0);
        let u = if t.len() > 0 && t[0] == ':' {
            lb_prefix() + t
        } else {
            t
        };
        let a = parse_sock(u).unwrap();
        assert(s1 == fmt_sock(a));
        lemma_fmt_shape(a);
        lemma_trim_noop(s1);
        assert(norm_server(Some(Val::VStr(s1))) == checked_fmt(a));
        assert(checked_fmt(a) == s1);
    } else {
        assert(s1 == dflt_ctrl());
        let da = dflt_addr();
        assert(!is_ws(s1[0]) && !is_ws(s1.last()) && s1[0] != ':');
        lemma_trim_noop(s1);
        assert(parse_sock(s1) == Some(da));
        assert(checked_fmt(da) == s1);
        assert(norm_server(Some(Val::VStr(s1))) == s1);
    }
}

/// An integer port already in range, and nonzero, passes through the
/// port guard unchanged.
pub proof fn lemma_norm_port_in_range(p: u16)
    requires
        p != 0,
    ensures
        norm_port(Some(Val::VInt(p as int))) == p,
{
    assert((p as int) % 0x10000 == p as int);
}

/// The hexadecimal texts of a group sequence.
pub open spec fn group_texts(gs: Seq<nat>) -> Seq<Seq<char>> {
    Seq::new(gs.len(), |i: int| hex_text(gs[i]))
}

/// Joined groups hold only hexadecimal digits and colons.
pub proof fn lemma_join_chars(gs: Seq<nat>)
    ensures
        forall|i: int|
            0 <= i < join_hex(gs).len() ==> (is_hex_digit(#[trigger] join_hex(gs)[i]) || join_hex(
                gs,
            )[i] == ':'),
    decreases gs.len(),
{
    if gs.len() == 0 {
    } else if gs.len() == 1 {
        lemma_hex_text_shape(gs[0]);
    } else {
        lemma_hex_text_shape(gs[0]);
        lemma_join_chars(gs.drop_first());
        let t0 = hex_text(gs[0]);
        let j = join_hex(gs);
        assert forall|i: int| 0 <= i < j.len() implies (is_hex_digit(#[trigger] j[i]) || j[i]
            == ':') by {
            if i < t0.len() {
                assert(j[i] == t0[i]);
            } else if i == t0.len() {
                assert(j[i] == ':');
            } else {
                assert(j[i] == join_hex(gs.drop_first())[i - t0.len() - 1]);
            }
        }
    }
}

/// Splitting joined groups at the colons gives the group texts back.
pub proof fn lemma_join_split(gs: Seq<nat>)
    requires
        gs.len() >= 1,
    ensures
        split_on(join_hex(gs), ':') == group_texts(gs),
    decreases gs.len(),
{
    if gs.len() == 1 {
        lemma_hex_text_shape(gs[0]);
        assert(forall|i: int|
            0 <= i < hex_text(gs[0]).len() ==> #[trigger] hex_text(gs[0])[i] != ':');
        lemma_split_nosep(hex_text(gs[0]), ':');
        assert(split_on(join_hex(gs), ':') =~= group_texts(gs));
    } else {
        let t0 = hex_text(gs[0]);
        lemma_hex_text_shape(gs[0]);
        assert(forall|i: int| 0 <= i < t0.len() ==> #[trigger] t0[i] != ':');
        lemma_split_sep(t0, join_hex(gs.drop_first()), ':');
        lemma_join_split(gs.drop_first());
        assert(split_on(join_hex(gs), ':') == seq![t0] + group_texts(gs.drop_first()));
        assert(seq![t0] + group_texts(gs.drop_first()) =~= group_texts(gs));
    }
}

/// Splitting joined groups followed by a colon and a tail.
pub proof fn lemma_split_join_prefix(gs: Seq<nat>, x: Seq<char>)
    requires
        gs.len() >= 1,
    ensures
        split_on(join_hex(gs) + seq![':'] + x, ':') == group_texts(gs) + split_on(x, ':'),
    decreases gs.len(),
{
    let t0 = hex_text(gs[0]);
    lemma_hex_text_shape(gs[0]);
    assert(forall|i: int| 0 <= i < t0.len() ==> #[trigger] t0[i] != ':');
    if gs.len() == 1 {
        lemma_split_sep(t0, x, ':');
        assert(seq![t0] =~= group_texts(gs));
    } else {
        let rest = gs.drop_first();
        assert(join_hex(gs) + seq![':'] + x =~= t0 + seq![':'] + (join_hex(rest) + seq![':']
            + x));
        lemma_split_sep(t0, join_hex(rest) + seq![':'] + x, ':');
        lemma_split_join_prefix(rest, x);
        assert(split_on(join_hex(gs) + seq![':'] + x, ':') == seq![t0] + (group_texts(rest)
            + split_on(x, ':')));
        assert(seq![t0] + (group_texts(rest) + split_on(x, ':')) =~= group_texts(gs) + split_on(
            x,
            ':',
        ));
    }
}

/// Empty pieces add up across a concatenation.
pub proof fn lemma_count_empty_concat(xs: Seq<Seq<char>>, ys: Seq<Seq<char>>)
    ensures
        count_empty(xs + ys) == count_empty(xs) + count_empty(ys),
    decreases ys.len(),
{
    if ys.len() == 0 {
        assert(xs + ys =~= xs);
    } else {
        assert((xs + ys).drop_last() =~= xs + ys.drop_last());
        assert((xs + ys).last() == ys.last());
        lemma_count_empty_concat(xs, ys.drop_last());
    }
}

/// A sequence of nonempty pieces holds no empty piece.
pub proof fn lemma_count_empty_none(xs: Seq<Seq<char>>)
    requires
        forall|i: int| 0 <= i < xs.len() ==> xs[i].len() != 0,
    ensures
        count_empty(xs) == 0,
    decreases xs.len(),
{
    if xs.len() > 0 {
        lemma_count_empty_none(xs.drop_last());
    }
}

/// The zero run at `i` is in bounds and covers only zero groups.
pub proof fn lemma_zero_run_props(g: Seq<nat>, i: int)
    requires
        0 <= i <= g.len(),
    ensures
        0 <= zero_run(g, i),
        i + zero_run(g, i) <= g.len(),
        forall|j: int| i <= j < i + zero_run(g, i) ==> g[j] == 0,
    decreases g.len() - i,
{
    if i < g.len() && g[i] == 0 {
        lemma_zero_run_props(g, i + 1);
    }
}

/// The best run starts at or after `i` and has exactly the length of
/// the zero run at its start.
pub proof fn lemma_best_run_props(g: Seq<nat>, i: int)
    requires
        0 <= i <= g.len(),
    ensures
        i <= best_run(g, i).0 <= g.len(),
        best_run(g, i).1 == zero_run(g, best_run(g, i).0),
    decreases g.len() - i,
{
    if i < g.len() {
        lemma_best_run_props(g, i + 1);
    }
}

/// Facts shared by the compression cases: every group's text parses
/// back to the group, and the best run is a zero run in bounds.
proof fn lemma_v6_rt_prelude(g: Seq<nat>)
    requires
        g.len() == 8,
        forall|i: int| 0 <= i < 8 ==> g[i] < 65536,
    ensures
        forall|i: int|
            0 <= i < 8 ==> parse_group(hex_text(#[trigger] g[i])) == Some(g[i]) && hex_text(
                g[i],
            ).len() != 0,
        0 <= best_run(g, 0).0 <= g.len(),
        best_run(g, 0).1 == zero_run(g, best_run(g, 0).0),
        best_run(g, 0).0 + best_run(g, 0).1 <= g.len(),
        forall|j: int|
            best_run(g, 0).0 <= j < best_run(g, 0).0 + best_run(g, 0).1 ==> g[j] == 0,
        count_empty(seq![Seq::<char>::empty()]) == 1,
{
    assert forall|i: int| 0 <= i < 8 implies parse_group(hex_text(#[trigger] g[i])) == Some(g[i])
        && hex_text(g[i]).len() != 0 by {
        lemma_hex_text_shape(g[i]);
        lemma_hex_text_le4(g[i]);
        lemma_hex_text_value(g[i]);
    }
    lemma_best_run_props(g, 0);
    lemma_zero_run_props(g, best_run(g, 0).0);
    assert(seq![Seq::<char>::empty()].drop_last() =~= Seq::<Seq<char>>::empty());
    reveal_with_fuel(count_empty, 3);
}

/// A run strictly inside: the text is `left::right`.
#[verifier::rlimit(60)]
proof fn lemma_v6_rt_mid(g: Seq<nat>)
    requires
        g.len() == 8,
        forall|i: int| 0 <= i < 8 ==> g[i] < 65536,
        best_run(g, 0).1 >= 2,
        best_run(g, 0).0 > 0,
        best_run(g, 0).0 + best_run(g, 0).1 < 8,
    ensures
        parse_v6(fmt_v6(g)) == Some(g),
{
    lemma_v6_rt_prelude(g);
    let bs = best_run(g, 0).0;
    let bl = best_run(g, 0).1;
    let be = bs + bl;
    let e = Seq::<char>::empty();
    let left = g.take(bs);
    let right = g.skip(be);
    let lt = group_texts(left);
    let rt = group_texts(right);
    let f = fmt_v6(g);
    assert forall|i: int| 0 <= i < lt.len() implies #[trigger] lt[i].len() != 0 && parse_group(
        lt[i],
    ) == Some(left[i]) by {
        assert(lt[i] == hex_text(g[i]));
    }
    assert forall|i: int| 0 <= i < rt.len() implies #[trigger] rt[i].len() != 0 && parse_group(
        rt[i],
    ) == Some(right[i]) by {
        assert(rt[i] == hex_text(g[be + i]));
    }
    lemma_count_empty_none(lt);
    lemma_count_empty_none(rt);
    assert(f == join_hex(left) + seq![':', ':'] + join_hex(right));
    assert(f =~= join_hex(left) + seq![':'] + (seq![':'] + join_hex(right)));
    let s2 = seq![':'] + join_hex(right);
    lemma_split_join_prefix(left, s2);
    assert(s2[0] == ':');
    assert(s2.drop_first() =~= join_hex(right));
    lemma_join_split(right);
    assert(split_on(s2, ':') == seq![e] + rt);
    let ps = split_on(f, ':');
    assert(ps == lt + (seq![e] + rt));
    let n = ps.len() as int;
    assert(n == bs + 1 + (8 - be));
    lemma_count_empty_concat(lt, seq![e] + rt);
    lemma_count_empty_concat(seq![e], rt);
    assert(count_empty(ps) == 1);
    assert(ps[bs].len() == 0);
    assert forall|j: int| 0 <= j < bs implies ps[j].len() != 0 by {
        assert(ps[j] == lt[j]);
    }
    crate::addr::lemma_first_empty_found(ps, bs);
    assert(ps.take(bs) =~= lt);
    assert(ps.skip(bs + 1) =~= rt);
    assert(group_vals(lt) =~= left);
    assert(group_vals(rt) =~= right);
    assert(parse_v6(f) == Some(group_vals(lt) + zero_groups((8 - (n - 1)) as nat) + group_vals(
        rt,
    )));
    assert(group_vals(lt) + zero_groups((8 - (n - 1)) as nat) + group_vals(rt) =~= g);
}

/// A run at the front: the text is `::right`.
#[verifier::rlimit(60)]
proof fn lemma_v6_rt_start(g: Seq<nat>)
    requires
        g.len() == 8,
        forall|i: int| 0 <= i < 8 ==> g[i] < 65536,
        best_run(g, 0).1 >= 2,
        best_run(g, 0).0 == 0,
        best_run(g, 0).1 < 8,
    ensures
        parse_v6(fmt_v6(g)) == Some(g),
{
    lemma_v6_rt_prelude(g);
    reveal_with_fuel(split_on, 3);
    let be = best_run(g, 0).1;
    let e = Seq::<char>::empty();
    let left = g.take(0);
    let right = g.skip(be);
    let rt = group_texts(right);
    let f = fmt_v6(g);
    assert forall|i: int| 0 <= i < rt.len() implies #[trigger] rt[i].len() != 0 && parse_group(
        rt[i],
    ) == Some(right[i]) by {
        assert(rt[i] == hex_text(g[be + i]));
    }
    lemma_count_empty_none(rt);
    assert(f == join_hex(left) + seq![':', ':'] + join_hex(right));
    assert(left.len() == 0);
    assert(join_hex(left) == e);
    assert(f =~= seq![':'] + (seq![':'] + join_hex(right)));
    assert(f[0] == ':');
    assert(f.drop_first() =~= seq![':'] + join_hex(right));
    let s2 = seq![':'] + join_hex(right);
    assert(s2[0] == ':');
    assert(s2.drop_first() =~= join_hex(right));
    lemma_join_split(right);
    assert(split_on(s2, ':') == seq![e] + rt);
    let ps = split_on(f, ':');
    assert(ps == seq![e] + (seq![e] + rt));
    let n = ps.len() as int;
    assert(n == 2 + (8 - be));
    lemma_count_empty_concat(seq![e], seq![e] + rt);
    lemma_count_empty_concat(seq![e], rt);
    assert(count_empty(ps) == 2);
    assert(ps[0].len() == 0 && ps[1].len() == 0);
    assert(ps[n - 1] == rt[rt.len() - 1]);
    assert(ps[n - 1].len() != 0);
    assert(ps.skip(2) =~= rt);
    assert(group_vals(rt) =~= right);
    assert(parse_v6(f) == Some(zero_groups((8 - (n - 2)) as nat) + group_vals(rt)));
    assert(zero_groups((8 - (n - 2)) as nat) + group_vals(rt) =~= g);
}

/// A run at the back: the text is `left::`.
#[verifier::rlimit(60)]
proof fn lemma_v6_rt_end(g: Seq<nat>)
    requires
        g.len() == 8,
        forall|i: int| 0 <= i < 8 ==> g[i] < 65536,
        best_run(g, 0).1 >= 2,
        best_run(g, 0).0 > 0,
        best_run(g, 0).0 + best_run(g, 0).1 == 8,
    ensures
        parse_v6(fmt_v6(g)) == Some(g),
{
    lemma_v6_rt_prelude(g);
    reveal_with_fuel(split_on, 3);
    let bs = best_run(g, 0).0;
    let bl = best_run(g, 0).1;
    let e = Seq::<char>::empty();
    let left = g.take(bs);
    let right = g.skip(8);
    let lt = group_texts(left);
    let f = fmt_v6(g);
    assert forall|i: int| 0 <= i < lt.len() implies #[trigger] lt[i].len() != 0 && parse_group(
        lt[i],
    ) == Some(left[i]) by {
        assert(lt[i] == hex_text(g[i]));
    }
    lemma_count_empty_none(lt);
    assert(f == join_hex(left) + seq![':', ':'] + join_hex(right));
    assert(right.len() == 0);
    assert(join_hex(right) == e);
    assert(f =~= join_hex(left) + seq![':'] + seq![':']);
    lemma_split_join_prefix(left, seq![':']);
    assert(seq![':'][0] == ':');
    assert(seq![':'].drop_first() =~= e);
    assert(split_on(e, ':') == seq![e]);
    assert(split_on(seq![':'], ':') == seq![e] + seq![e]);
    let ps = split_on(f, ':');
    assert(ps == lt + (seq![e] + seq![e]));
    let n = ps.len() as int;
    assert(n == bs + 2);
    lemma_count_empty_concat(lt, seq![e] + seq![e]);
    lemma_count_empty_concat(seq![e], seq![e]);
    assert(count_empty(ps) == 2);
    assert(ps[0] == lt[0]);
    assert(ps[0].len() != 0);
    assert(ps[n - 1].len() == 0 && ps[n - 2].len() == 0);
    assert(ps.take(n - 2) =~= lt);
    assert(group_vals(lt) =~= left);
    assert(parse_v6(f) == Some(group_vals(lt) + zero_groups((8 - (n - 2)) as nat)));
    assert(group_vals(lt) + zero_groups((8 - (n - 2)) as nat) =~= g);
}

/// All zeros: the text is `::`.
#[verifier::rlimit(60)]
proof fn lemma_v6_rt_all(g: Seq<nat>)
    requires
        g.len() == 8,
        forall|i: int| 0 <= i < 8 ==> g[i] < 65536,
        best_run(g, 0).1 >= 2,
        best_run(g, 0).0 == 0,
        best_run(g, 0).1 == 8,
    ensures
        parse_v6(fmt_v6(g)) == Some(g),
{
    lemma_v6_rt_prelude(g);
    reveal_with_fuel(split_on, 4);
    reveal_with_fuel(count_empty, 4);
    let e = Seq::<char>::empty();
    let f = fmt_v6(g);
    assert(f == join_hex(g.take(0)) + seq![':', ':'] + join_hex(g.skip(8)));
    assert(g.take(0).len() == 0 && g.skip(8).len() == 0);
    assert(join_hex(g.take(0)) == e && join_hex(g.skip(8)) == e);
    assert(f =~= seq![':', ':']);
    assert(f[0] == ':');
    assert(f.drop_first() =~= seq![':']);
    assert(seq![':'][0] == ':');
    assert(seq![':'].drop_first() =~= e);
    assert(split_on(e, ':') == seq![e]);
    assert(split_on(seq![':'], ':') == seq![e] + seq![e]);
    let ps = split_on(f, ':');
    assert(ps == seq![e] + (seq![e] + seq![e]));
    assert(ps.len() == 3);
    lemma_count_empty_concat(seq![e], seq![e] + seq![e]);
    lemma_count_empty_concat(seq![e], seq![e]);
    assert(count_empty(ps) == 3);
    assert(zero_groups(8) =~= g);
}

/// The canonical text of eight groups parses back to the same groups.
pub proof fn lemma_v6_text_roundtrip(g: Seq<nat>)
    requires
        g.len() == 8,
        forall|i: int| 0 <= i < 8 ==> g[i] < 65536,
    ensures
        parse_v6(fmt_v6(g)) == Some(g),
{
    lemma_v6_rt_prelude(g);
    let bs = best_run(g, 0).0;
    let bl = best_run(g, 0).1;
    if bl < 2 {
        let f = fmt_v6(g);
        assert(f == join_hex(g));
        lemma_join_split(g);
        let ps = split_on(f, ':');
        assert(ps == group_texts(g));
        assert forall|i: int| 0 <= i < ps.len() implies #[trigger] ps[i].len() != 0 by {
            assert(ps[i] == hex_text(g[i]));
        }
        lemma_count_empty_none(ps);
        assert forall|i: int| 0 <= i < ps.len() implies parse_group(#[trigger] ps[i]) is Some by {
            assert(ps[i] == hex_text(g[i]));
        }
        assert(group_vals(ps) =~= g);
    } else if bs > 0 && bs + bl < 8 {
        lemma_v6_rt_mid(g);
    } else if bs == 0 && bl < 8 {
        lemma_v6_rt_start(g);
    } else if bs > 0 {
        lemma_v6_rt_end(g);
    } else {
        lemma_v6_rt_all(g);
    }
}

/// The canonical IPv6 text holds only hexadecimal digits and colons.
pub proof fn lemma_fmt_v6_chars(g: Seq<nat>)
    ensures
        forall|i: int|
            0 <= i < fmt_v6(g).len() ==> (is_hex_digit(#[trigger] fmt_v6(g)[i]) || fmt_v6(g)[i]
                == ':'),
{
    let b = best_run(g, 0);
    let f = fmt_v6(g);
    if b.1 >= 2 {
        let jl = join_hex(g.take(b.0));
        let jr = join_hex(g.skip(b.0 + b.1));
        lemma_join_chars(g.take(b.0));
        lemma_join_chars(g.skip(b.0 + b.1));
        assert(f == jl + seq![':', ':'] + jr);
        assert forall|i: int| 0 <= i < f.len() implies (is_hex_digit(#[trigger] f[i]) || f[i]
            == ':') by {
            if i < jl.len() {
                assert(f[i] == jl[i]);
            } else if i < jl.len() + 2 {
                assert(f[i] == ':');
            } else {
                assert(f[i] == jr[i - jl.len() - 2]);
            }
        }
    } else {
        lemma_join_chars(g);
    }
}

/// The canonical text of an IPv6 socket address always reads back as
/// the same address, so the guard's canonicality check never rejects an
/// IPv6 address: its canonical form is final.
pub proof fn lemma_v6_canonical_roundtrip(a: AddrSpec)
    requires
        a.host matches HostSpec::H6(g) && g.len() == 8 && (forall|i: int|
            0 <= i < 8 ==> g[i] < 65536),
        a.port <= 65535,
    ensures
        parse_sock(fmt_sock(a)) == Some(a),
        checked_fmt(a) == fmt_sock(a),
{
    let g = a.host->H6_0;
    lemma_v6_text_roundtrip(g);
    lemma_fmt_v6_chars(g);
    let fv = fmt_v6(g);
    let tp = dec_text(a.port);
    lemma_dec_text_shape(a.port);
    lemma_dec_text_value(a.port);
    let f = fmt_sock(a);
    assert(f == seq!['['] + fv + seq![']', ':'] + tp);
    assert(f[0] == '[');
    let rest = seq![':'] + tp;
    assert(f.drop_first() =~= fv + seq![']'] + rest);
    assert(forall|i: int| 0 <= i < fv.len() ==> #[trigger] fv[i] != ']');
    assert forall|i: int| 0 <= i < rest.len() implies #[trigger] rest[i] != ']' by {
        if i > 0 {
            assert(rest[i] == tp[i - 1]);
        }
    }
    lemma_split_sep(fv, rest, ']');
    lemma_split_nosep(rest, ']');
    let ps = split_on(f.drop_first(), ']');
    assert(ps == seq![fv] + seq![rest]);
    assert(ps.len() == 2 && ps[0] == fv && ps[1] == rest);
    assert(rest.len() >= 1 && rest[0] == ':');
    assert(rest.drop_first() =~= tp);
    assert(parse_port_text(tp) == Some(a.port));
    assert(parse_sock(f) == Some(AddrSpec { host: HostSpec::H6(g), port: a.port }));
    assert(AddrSpec { host: HostSpec::H6(g), port: a.port } == a);
}

/// A parsed IPv6 host always carries eight groups below 2^16.
pub proof fn lemma_parse_v6_wf(inner: Seq<char>)
    requires
        parse_v6(inner) is Some,
    ensures
        parse_v6(inner).unwrap().len() == 8,
        forall|i: int| 0 <= i < 8 ==> #[trigger] parse_v6(inner).unwrap()[i] < 65536,
{
    let ps = split_on(inner, ':');
    assert forall|p: Seq<char>| parse_group(p) is Some implies #[trigger] parse_group(
        p,
    ).unwrap() < 65536 by {
        lemma_hex_num_bound(p, 4);
    }
    let g = parse_v6(inner).unwrap();
    assert(g.len() == 8);
    assert forall|i: int| 0 <= i < 8 implies #[trigger] g[i] < 65536 by {
        let n = ps.len() as int;
        let ne = count_empty(ps) as int;
        if ne == 0 {
            assert(g[i] == parse_group(ps[i]).unwrap_or(0));
        } else if n == 3 && ne == 3 {
        } else if ne == 2 && n >= 3 && ps[0].len() == 0 && ps[1].len() == 0 && ps[n - 1].len()
            != 0 {
            let tail = ps.skip(2);
            if i >= 8 - (n - 2) {
                let j = i - (8 - (n - 2));
                assert(g[i] == parse_group(tail[j]).unwrap_or(0));
            }
        } else if ne == 2 && n >= 3 && ps[n - 1].len() == 0 && ps[n - 2].len() == 0
            && ps[0].len() != 0 {
            let head = ps.take(n - 2);
            if i < n - 2 {
                assert(g[i] == parse_group(head[i]).unwrap_or(0));
            }
        } else {
            let k = crate::addr::first_empty(ps);
            let left = ps.take(k);
            let right = ps.skip(k + 1);
            if i < k {
                assert(g[i] == parse_group(left[i]).unwrap_or(0));
            } else if i >= k + (8 - (n - 1)) {
                let j = i - k - (8 - (n - 1));
                assert(g[i] == parse_group(right[j]).unwrap_or(0));
            }
        }
    }
}

/// Whatever address a string parses to, its canonical text reads back
/// as the same address, and the guard's canonicality check accepts it:
/// the normalized controller value is always the canonical form of the
/// parsed address, never the fallback.
pub proof fn lemma_canonical_roundtrip(s: Seq<char>, a: AddrSpec)
    requires
        parse_sock(s) == Some(a),
    ensures
        parse_sock(fmt_sock(a)) == Some(a),
        checked_fmt(a) == fmt_sock(a),
{
    if s[0] == '[' {
        let ps = split_on(s.drop_first(), ']');
        lemma_parse_v6_wf(ps[0]);
        lemma_v6_canonical_roundtrip(a);
    } else {
        let ps = split_on(s, ':');
        let hs = split_on(ps[0], '.');
        assert(a.host matches HostSpec::H4(o) && o.len() == 4);
        lemma_v4_canonical_roundtrip(a);
    }
}

/// The normalized controller value of a raw value whose string parses
/// (after trimming and shorthand prefixing) is exactly the canonical
/// text of the parsed address; every other raw value normalizes to the
/// fallback.
pub proof fn lemma_norm_server_canonical(v: Option<Val>)
    ensures
        match v {
            Some(Val::VStr(s)) => {
                let t = trim_ws(s);
                let u = if t.len() > 0 && t[0] == ':' {
                    lb_prefix() + t
                } else {
                    t
                };
                match parse_sock(u) {
                    Some(a) => norm_server(v) == fmt_sock(a),
                    None => norm_server(v) == dflt_ctrl(),
                }
            },
            _ => norm_server(v) == dflt_ctrl(),
        },
{
    match v {
        Some(Val::VStr(s)) => {
            let t = trim_ws(s);
            let u = if t.len() > 0 && t[0] == ':' {
                lb_prefix() + t
            } else {
                t
            };
            if parse_sock(u) is Some {
                lemma_canonical_roundtrip(u, parse_sock(u).unwrap());
            }
        },
        _ => {},
    }
}

/// Guarding keeps the document's keys unique.
pub proof fn lemma_guard_preserves_wf(d: Seq<(Seq<char>, Val)>)
    requires
        doc_wf(d),
    ensures
        doc_wf(guard_spec(d)),
{
    let p = norm_port(dlookup(d, "mixed-port"@));
    let c = norm_server(dlookup(d, "external-controller"@));
    lemma_insert_wf(d, "mixed-port"@, Val::VInt(p as int));
    lemma_insert_wf(
        dinsert(d, "mixed-port"@, Val::VInt(p as int)),
        "external-controller"@,
        Val::VStr(c),
    );
}

/// Guarding is idempotent: guarding a guarded document is the identity.
pub proof fn lemma_guard_idempotent(d: Seq<(Seq<char>, Val)>)
    ensures
        guard_spec(guard_spec(d)) == guard_spec(d),
{
    let mp = "mixed-port"@;
    let ec = "external-controller"@;
    reveal_strlit("mixed-port");
    reveal_strlit("external-controller");
    assert(mp.len() == 10 && ec.len() == 19);
    assert(mp != ec);
    let p = norm_port(dlookup(d, mp));
    let c = norm_server(dlookup(d, ec));
    let d1 = dinsert(d, mp, Val::VInt(p as int));
    let d2 = dinsert(d1, ec, Val::VStr(c));
    assert(guard_spec(d) == d2);
    lemma_lookup_insert_same(d, mp, Val::VInt(p as int));
    lemma_lookup_insert_other(d1, ec, Val::VStr(c), mp);
    assert(dlookup(d2, mp) == Some(Val::VInt(p as int)));
    lemma_lookup_insert_same(d1, ec, Val::VStr(c));
    assert(dlookup(d2, ec) == Some(Val::VStr(c)));
    // the guarded values re-normalize to themselves
    assert(p != 0);
    lemma_norm_port_in_range(p);
    assert(norm_port(dlookup(d2, mp)) == p);
    lemma_norm_server_stable(dlookup(d, ec));
    assert(norm_server(dlookup(d2, ec)) == c);
    // so the second round of insertions changes nothing
    lemma_insert_same_value(d2, mp, Val::VInt(p as int));
    lemma_insert_same_value(d2, ec, Val::VStr(c));
    assert(guard_spec(d2) == d2);
}

} // verus!
