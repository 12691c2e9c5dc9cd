//! Socket addresses as text: parsing `host:port` with an IPv4 or a
//! bracketed IPv6 host, and re-serializing to the canonical textual form
//! (lower-case hexadecimal groups, longest zero run compressed, leftmost
//! on a tie).

use vstd::prelude::*;

use crate::digits::{
    all_dec_digits, all_hex_digits, dec_num, dec_text, dec_val_of, hex_num, hex_text, hex_val_of,
    lemma_dec_num_prefix_le, lemma_dec_num_snoc, lemma_hex_num_snoc, pow16, push_dec, push_hex,
};
use crate::text::{lemma_split_on_len, piece_views, split_from, split_on};

verus! {

/// The mathematical shape of a host: four octets or eight 16-bit groups.
pub enum HostSpec {
    H4(Seq<nat>),
    H6(Seq<nat>),
}

/// The mathematical shape of a socket address.
pub struct AddrSpec {
    pub host: HostSpec,
    pub port: nat,
}

/// An executable host address.
pub enum HostAddr {
    V4(u8, u8, u8, u8),
    V6(Vec<u16>),
}

/// An executable socket address.
pub struct SockAddr {
    pub host: HostAddr,
    pub port: u16,
}

impl SockAddr {
    /// An IPv6 host always carries exactly eight groups.
    pub open spec fn wf(&self) -> bool {
        match self.host {
            HostAddr::V4(_, _, _, _) => true,
            HostAddr::V6(g) => g@.len() == 8,
        }
    }
}

impl View for SockAddr {
    type V = AddrSpec;

    open spec fn view(&self) -> AddrSpec {
        AddrSpec {
            host: match self.host {
                HostAddr::V4(a, b, c, d) => HostSpec::H4(
                    seq![a as nat, b as nat, c as nat, d as nat],
                ),
                HostAddr::V6(g) => HostSpec::H6(g@.map_values(|x: u16| x as nat)),
            },
            port: self.port as nat,
        }
    }
}

// ------------------------------------------------------------------
// Parsing, specification level.
// ------------------------------------------------------------------
/// One dotted-decimal octet: one to three digits, no leading zero,
/// at most 255.
pub open spec fn parse_octet(p: Seq<char>) -> Option<nat> {
    if 1 <= p.len() <= 3 && all_dec_digits(p) && (p.len() > 1 ==> p[0] != '0') && dec_num(p)
        <= 255 {
        Some(dec_num(p))
    } else {
        None
    }
}

/// A port: one or more decimal digits (leading zeros allowed), at most
/// 65535.
pub open spec fn parse_port_text(p: Seq<char>) -> Option<nat> {
    if p.len() >= 1 && all_dec_digits(p) && dec_num(p) <= 65535 {
        Some(dec_num(p))
    } else {
        None
    }
}

/// A 16-bit number as its standard-library string form: an optional `+`
/// sign, then digits.
pub open spec fn parse_u16_text(p: Seq<char>) -> Option<nat> {
    if p.len() > 0 && p[0] == '+' {
        parse_port_text(p.drop_first())
    } else {
        parse_port_text(p)
    }
}

/// One IPv6 group: one to four hexadecimal digits of either case.
pub open spec fn parse_group(p: Seq<char>) -> Option<nat> {
    if 1 <= p.len() <= 4 && all_hex_digits(p) {
        Some(hex_num(p))
    } else {
        None
    }
}

/// A dotted-decimal IPv4 host: exactly four octets.
pub open spec fn parse_v4(h: Seq<char>) -> Option<Seq<nat>> {
    let ps = split_on(h, '.');
    if ps.len() == 4 && parse_octet(ps[0]) is Some && parse_octet(ps[1]) is Some && parse_octet(
        ps[2],
    ) is Some && parse_octet(ps[3]) is Some {
        Some(
            seq![
                parse_octet(ps[0]).unwrap(),
                parse_octet(ps[1]).unwrap(),
                parse_octet(ps[2]).unwrap(),
                parse_octet(ps[3]).unwrap(),
            ],
        )
    } else {
        None
    }
}

pub open spec fn groups_ok(ps: Seq<Seq<char>>) -> bool {
    forall|i: int| 0 <= i < ps.len() ==> parse_group(ps[i]) is Some
}

pub open spec fn group_vals(ps: Seq<Seq<char>>) -> Seq<nat> {
    Seq::new(ps.len(), |i: int| parse_group(ps[i]).unwrap_or(0))
}

pub open spec fn zero_groups(n: nat) -> Seq<nat> {
    Seq::new(n, |i: int| 0nat)
}

/// How many pieces are empty.
pub open spec fn count_empty(ps: Seq<Seq<char>>) -> nat
    decreases ps.len(),
{
    if ps.len() == 0 {
        0
    } else {
        count_empty(ps.drop_last()) + (if ps.last().len() == 0 {
            1nat
        } else {
            0nat
        })
    }
}

/// The index of the first empty piece, or `-1`.
pub open spec fn first_empty(ps: Seq<Seq<char>>) -> int
    decreases ps.len(),
{
    if ps.len() == 0 {
        -1
    } else if ps[0].len() == 0 {
        0
    } else {
        let r = first_empty(ps.drop_first());
        if r < 0 {
            -1
        } else {
            1 + r
        }
    }
}

/// An IPv6 host between brackets.  A double colon, which the piece
/// sequence shows as adjacent or lone empty pieces, stands for one or
/// more zero groups; without one there must be exactly eight groups.
/// A zone index and the embedded dotted-decimal notation are not part
/// of this grammar: a host written with them does not parse, and the
/// guard falls back to its default address.
pub open spec fn parse_v6(inner: Seq<char>) -> Option<Seq<nat>> {
    let ps = split_on(inner, ':');
    let n = ps.len() as int;
    let ne = count_empty(ps) as int;
    if ne == 0 {
        if n == 8 && groups_ok(ps) {
            Some(group_vals(ps))
        } else {
            None
        }
    } else if n == 3 && ne == 3 {
        Some(zero_groups(8))
    } else if ne == 2 && n >= 3 && ps[0].len() == 0 && ps[1].len() == 0 && ps[n - 1].len() != 0 {
        let tail = ps.skip(2);
        if n - 2 <= 7 && groups_ok(tail) {
            Some(zero_groups((8 - (n - 2)) as nat) + group_vals(tail))
        } else {
            None
        }
    } else if ne == 2 && n >= 3 && ps[n - 1].len() == 0 && ps[n - 2].len() == 0 && ps[0].len()
        != 0 {
        let head = ps.take(n - 2);
        if n - 2 <= 7 && groups_ok(head) {
            Some(group_vals(head) + zero_groups((8 - (n - 2)) as nat))
        } else {
            None
        }
    } else if ne == 1 {
        let k = first_empty(ps);
        if 1 <= k <= n - 2 && n - 1 <= 7 {
            let left = ps.take(k);
            let right = ps.skip(k + 1);
            if groups_ok(left) && groups_ok(right) {
                Some(group_vals(left) + zero_groups((8 - (n - 1)) as nat) + group_vals(right))
            } else {
                None
            }
        } else {
            None
        }
    } else {
        None
    }
}

/// A socket address as text: `host:port`, the host dotted decimal or a
/// bracketed IPv6 form.
pub open spec fn parse_sock(s: Seq<char>) -> Option<AddrSpec> {
    if s.len() == 0 {
        None
    } else if s[0] == '[' {
        let ps = split_on(s.drop_first(), ']');
        if ps.len() == 2 && ps[1].len() >= 1 && ps[1][0] == ':' {
            let g = parse_v6(ps[0]);
            let p = parse_port_text(ps[1].drop_first());
            if g is Some && p is Some {
                Some(AddrSpec { host: HostSpec::H6(g.unwrap()), port: p.unwrap() })
            } else {
                None
            }
        } else {
            None
        }
    } else {
        let ps = split_on(s, ':');
        if ps.len() == 2 {
            let h = parse_v4(ps[0]);
            let p = parse_port_text(ps[1]);
            if h is Some && p is Some {
                Some(AddrSpec { host: HostSpec::H4(h.unwrap()), port: p.unwrap() })
            } else {
                None
            }
        } else {
            None
        }
    }
}

// ------------------------------------------------------------------
// Formatting, specification level.
// ------------------------------------------------------------------
/// Hexadecimal groups joined with colons.
pub open spec fn join_hex(gs: Seq<nat>) -> Seq<char>
    decreases gs.len(),
{
    if gs.len() == 0 {
        Seq::<char>::empty()
    } else if gs.len() == 1 {
        hex_text(gs[0])
    } else {
        hex_text(gs[0]) + seq![':'] + join_hex(gs.drop_first())
    }
}

/// The length of the zero run beginning at `i`.
pub open spec fn zero_run(g: Seq<nat>, i: int) -> int
    decreases g.len() - i,
{
    if i < 0 || i >= g.len() || g[i] != 0 {
        0
    } else {
        1 + zero_run(g, i + 1)
    }
}

/// The start and length of the longest zero run beginning at or after
/// `i`; the leftmost wins a tie.
pub open spec fn best_run(g: Seq<nat>, i: int) -> (int, int)
    decreases g.len() - i,
{
    if i < 0 || i >= g.len() {
        (i, 0)
    } else {
        let cur = zero_run(g, i);
        let rest = best_run(g, i + 1);
        if cur >= rest.1 {
            (i, cur)
        } else {
            rest
        }
    }
}

/// Canonical IPv6 text: the longest run of two or more zero groups is
/// written `::`; otherwise all eight groups appear.
pub open spec fn fmt_v6(g: Seq<nat>) -> Seq<char> {
    let b = best_run(g, 0);
    if b.1 >= 2 {
        join_hex(g.take(b.0)) + seq![':', ':'] + join_hex(g.skip(b.0 + b.1))
    } else {
        join_hex(g)
    }
}

/// Canonical socket-address text.
pub open spec fn fmt_sock(a: AddrSpec) -> Seq<char> {
    match a.host {
        HostSpec::H4(o) => dec_text(o[0]) + seq!['.'] + dec_text(o[1]) + seq!['.'] + dec_text(
            o[2],
        ) + seq!['.'] + dec_text(o[3]) + seq![':'] + dec_text(a.port),
        HostSpec::H6(g) => seq!['['] + fmt_v6(g) + seq![']', ':'] + dec_text(a.port),
    }
}

/// The unspecified (wildcard) host: `0.0.0.0` or `::`.
pub open spec fn host_unspecified(h: HostSpec) -> bool {
    match h {
        HostSpec::H4(o) => o =~= seq![0nat, 0nat, 0nat, 0nat],
        HostSpec::H6(g) => g =~= zero_groups(8),
    }
}

// ------------------------------------------------------------------
// Parsing, executable level.
// ------------------------------------------------------------------
pub proof fn lemma_first_empty_found(ps: Seq<Seq<char>>, n: int)
    requires
        0 <= n < ps.len(),
        ps[n].len() == 0,
        forall|i: int| 0 <= i < n ==> ps[i].len() != 0,
    ensures
        first_empty(ps) == n,
    decreases ps.len(),
{
    if n > 0 {
        assert forall|i: int| 0 <= i < n - 1 implies ps.drop_first()[i].len() != 0 by {
            assert(ps.drop_first()[i] == ps[i + 1]);
        }
        assert(ps.drop_first()[n - 1] == ps[n]);
        lemma_first_empty_found(ps.drop_first(), n - 1);
    }
}

pub proof fn lemma_first_empty_missing(ps: Seq<Seq<char>>)
    requires
        forall|i: int| 0 <= i < ps.len() ==> ps[i].len() != 0,
    ensures
        first_empty(ps) == -1,
    decreases ps.len(),
{
    if ps.len() > 0 {
        assert forall|i: int| 0 <= i < ps.drop_first().len() implies ps.drop_first()[i].len()
            != 0 by {
            assert(ps.drop_first()[i] == ps[i + 1]);
        }
        lemma_first_empty_missing(ps.drop_first());
    }
}

/// Parses one octet piece.
pub fn parse_octet_exec(p: &Vec<char>) -> (r: Option<u8>)
    ensures
        match r {
            Some(v) => parse_octet(p@) == Some(v as nat),
            None => parse_octet(p@) is None,
        },
{
    let n = p.len();
    if n == 0 || n > 3 {
        return None;
    }
    if n > 1 && p[0] == '0' {
        return None;
    }
    let mut acc: u32 = 0;
    let mut i: usize = 0;
    while i < n
        invariant
            n == p@.len(),
            n <= 3,
            0 <= i <= n,
            acc == dec_num(p@.take(i as int)),
            i == 0 ==> acc == 0,
            i == 1 ==> acc <= 9,
            i == 2 ==> acc <= 99,
            i == 3 ==> acc <= 999,
            all_dec_digits(p@.take(i as int)),
        decreases n - i,
    {
        match dec_val_of(p[i]) {
            Some(d) => {
                proof {
                    lemma_dec_num_snoc(p@.take(i as int), p@[i as int]);
                    assert(p@.take(i as int + 1) =~= p@.take(i as int).push(p@[i as int]));
                }
                acc = acc * 10 + d as u32;
            },
            None => {
                return None;
            },
        }
        i += 1;
    }
    proof {
        assert(p@.take(n as int) =~= p@);
    }
    if acc > 255 {
        None
    } else {
        Some(acc as u8)
    }
}

/// Parses a port piece beginning at `start`.
pub fn parse_port_exec(p: &Vec<char>, start: usize) -> (r: Option<u16>)
    requires
        start <= p.len(),
    ensures
        match r {
            Some(v) => parse_port_text(p@.skip(start as int)) == Some(v as nat),
            None => parse_port_text(p@.skip(start as int)) is None,
        },
{
    let ghost s = p@.skip(start as int);
    let n = p.len();
    if start == n {
        return None;
    }
    let mut acc: u32 = 0;
    let mut i: usize = start;
    while i < n
        invariant
            n == p@.len(),
            start <= i <= n,
            s == p@.skip(start as int),
            acc == dec_num(s.take(i - start as int)),
            acc <= 65535,
            all_dec_digits(s.take(i - start as int)),
        decreases n - i,
    {
        match dec_val_of(p[i]) {
            Some(d) => {
                proof {
                    lemma_dec_num_snoc(s.take(i - start as int), p@[i as int]);
                    assert(s.take(i + 1 - start as int) =~= s.take(i - start as int).push(
                        p@[i as int],
                    ));
                }
                let next = acc * 10 + d as u32;
                if next > 65535 {
                    proof {
                        lemma_dec_num_prefix_le(s, i + 1 - start as int);
                    }
                    return None;
                }
                acc = next;
            },
            None => {
                proof {
                    assert(s[i - start as int] == p@[i as int]);
                }
                return None;
            },
        }
        i += 1;
    }
    proof {
        assert(s.take(n - start as int) =~= s);
    }
    Some(acc as u16)
}

/// Parses a 16-bit number in its standard string form (optional `+`).
pub fn parse_u16_exec(p: &Vec<char>) -> (r: Option<u16>)
    ensures
        match r {
            Some(v) => parse_u16_text(p@) == Some(v as nat),
            None => parse_u16_text(p@) is None,
        },
{
    if p.len() > 0 && p[0] == '+' {
        proof {
            assert(p@.drop_first() =~= p@.skip(1));
        }
        parse_port_exec(p, 1)
    } else {
        proof {
            assert(p@.skip(0) =~= p@);
        }
        parse_port_exec(p, 0)
    }
}

/// Parses one hexadecimal group piece.
pub fn parse_group_exec(p: &Vec<char>) -> (r: Option<u16>)
    ensures
        match r {
            Some(v) => parse_group(p@) == Some(v as nat),
            None => parse_group(p@) is None,
        },
{
    let n = p.len();
    if n == 0 || n > 4 {
        return None;
    }
    let mut acc: u32 = 0;
    let mut i: usize = 0;
    while i < n
        invariant
            n == p@.len(),
            n <= 4,
            0 <= i <= n,
            acc == hex_num(p@.take(i as int)),
            acc < pow16(i as nat),
            all_hex_digits(p@.take(i as int)),
        decreases n - i,
    {
        match hex_val_of(p[i]) {
            Some(d) => {
                proof {
                    lemma_hex_num_snoc(p@.take(i as int), p@[i as int]);
                    assert(p@.take(i as int + 1) =~= p@.take(i as int).push(p@[i as int]));
                }
                acc = acc * 16 + d as u32;
            },
            None => {
                return None;
            },
        }
        i += 1;
    }
    proof {
        assert(p@.take(n as int) =~= p@);
    }
    Some(acc as u16)
}

/// Parses the pieces in `[lo, hi)` as groups.
fn parse_groups_range(ps: &Vec<Vec<char>>, lo: usize, hi: usize) -> (r: Option<Vec<u16>>)
    requires
        lo <= hi <= ps.len(),
    ensures
        match r {
            Some(v) => {
                &&& groups_ok(piece_views(ps@).subrange(lo as int, hi as int))
                &&& v@.map_values(|x: u16| x as nat) == group_vals(
                    piece_views(ps@).subrange(lo as int, hi as int),
                )
                &&& v@.len() == hi - lo
            },
            None => !groups_ok(piece_views(ps@).subrange(lo as int, hi as int)),
        },
{
    let ghost sub = piece_views(ps@).subrange(lo as int, hi as int);
    let mut out: Vec<u16> = Vec::new();
    let mut i: usize = lo;
    while i < hi
        invariant
            lo <= i <= hi <= ps.len(),
            sub == piece_views(ps@).subrange(lo as int, hi as int),
            out@.len() == i - lo,
            forall|j: int|
                0 <= j < i - lo ==> parse_group(sub[j]) == Some(#[trigger] out@[j] as nat),
        decreases hi - i,
    {
        match parse_group_exec(&ps[i]) {
            Some(v) => {
                out.push(v);
            },
            None => {
                proof {
                    assert(sub[i - lo as int] == ps@[i as int]@);
                }
                return None;
            },
        }
        i += 1;
    }
    proof {
        assert forall|j: int| 0 <= j < sub.len() implies parse_group(sub[j]) is Some by {
            assert(parse_group(sub[j]) == Some(out@[j] as nat));
        }
        assert(out@.map_values(|x: u16| x as nat) =~= group_vals(sub));
    }
    Some(out)
}

/// Parses a bracketed IPv6 host's inner text.
pub fn parse_v6_exec(inner: &Vec<char>) -> (r: Option<Vec<u16>>)
    ensures
        match r {
            Some(g) => g@.len() == 8 && parse_v6(inner@) == Some(
                g@.map_values(|x: u16| x as nat),
            ),
            None => parse_v6(inner@) is None,
        },
{
    let ps = split_from(inner, 0, ':');
    let ghost psv = piece_views(ps@);
    proof {
        assert(inner@.skip(0) =~= inner@);
    }
    let n = ps.len();
    // count the empty pieces and find the first one
    let mut ne: usize = 0;
    let mut fe: usize = n;
    let mut i: usize = 0;
    while i < n
        invariant
            n == ps@.len(),
            psv == piece_views(ps@),
            0 <= i <= n,
            ne == count_empty(psv.take(i as int)),
            ne <= i,
            fe == n || fe < i,
            fe < n ==> psv[fe as int].len() == 0 && (forall|j: int|
                0 <= j < fe ==> psv[j].len() != 0),
            fe == n ==> forall|j: int| 0 <= j < i ==> psv[j].len() != 0,
        decreases n - i,
    {
        proof {
            assert(psv.take(i as int + 1).drop_last() =~= psv.take(i as int));
            assert(psv.take(i as int + 1).last() == psv[i as int]);
        }
        if ps[i].len() == 0 {
            if fe == n {
                fe = i;
            }
            ne += 1;
        }
        i += 1;
    }
    proof {
        assert(psv.take(n as int) =~= psv);
        if fe < n {
            lemma_first_empty_found(psv, fe as int);
        } else {
            lemma_first_empty_missing(psv);
        }
        lemma_split_on_len(inner@, ':');
    }
    if ne == 0 {
        if n != 8 {
            return None;
        }
        match parse_groups_range(&ps, 0, 8) {
            Some(g) => {
                proof {
                    assert(psv.subrange(0, 8) =~= psv);
                }
                Some(g)
            },
            None => {
                proof {
                    assert(psv.subrange(0, 8) =~= psv);
                }
                None
            },
        }
    } else if n == 3 && ne == 3 {
        let mut g: Vec<u16> = Vec::new();
        let mut k: usize = 0;
        while k < 8
            invariant
                0 <= k <= 8,
                g@.len() == k,
                forall|j: int| 0 <= j < k ==> g@[j] == 0u16,
            decreases 8 - k,
        {
            g.push(0);
            k += 1;
        }
        proof {
            assert(g@.map_values(|x: u16| x as nat) =~= zero_groups(8));
        }
        Some(g)
    } else if ne == 2 && n >= 3 && fe == 0 {
        // the two leading pieces are empty: "::groups"
        if ps[1].len() != 0 || ps[n - 1].len() == 0 {
            return None;
        }
        if n - 2 > 7 {
            return None;
        }
        match parse_groups_range(&ps, 2, n) {
            Some(tail) => {
                proof {
                    assert(psv.subrange(2, n as int) =~= psv.skip(2));
                }
                let mut g: Vec<u16> = Vec::new();
                let zn = 8 - (n - 2);
                let mut k: usize = 0;
                while k < zn
                    invariant
                        0 <= k <= zn,
                        g@.len() == k,
                        forall|j: int| 0 <= j < k ==> g@[j] == 0u16,
                    decreases zn - k,
                {
                    g.push(0);
                    k += 1;
                }
                let mut t = tail;
                let tn = t.len();
                let mut m: usize = 0;
                let ghost gz = g@;
                let ghost tv = t@;
                while m < tn
                    invariant
                        tn == tv.len(),
                        t@ == tv,
                        0 <= m <= tn,
                        g@ == gz + tv.take(m as int),
                    decreases tn - m,
                {
                    g.push(t[m]);
                    proof {
                        assert(gz + tv.take(m as int + 1) =~= (gz + tv.take(m as int)).push(
                            tv[m as int],
                        ));
                    }
                    m += 1;
                }
                proof {
                    assert(tv.take(tn as int) =~= tv);
                    assert(g@.map_values(|x: u16| x as nat) =~= zero_groups((8 - (n - 2)) as nat)
                        + group_vals(psv.skip(2)));
                }
                Some(g)
            },
            None => {
                proof {
                    assert(psv.subrange(2, n as int) =~= psv.skip(2));
                }
                None
            },
        }
    } else if ne == 2 && n >= 3 && fe == n - 2 {
        // the two trailing pieces are empty: "groups::"
        if ps[n - 1].len() != 0 {
            return None;
        }
        if n - 2 > 7 {
            return None;
        }
        match parse_groups_range(&ps, 0, n - 2) {
            Some(head) => {
                proof {
                    assert(psv.subrange(0, n - 2 as int) =~= psv.take(n - 2 as int));
                }
                let mut g = head;
                let hn = g.len();
                let ghost hv = g@;
                let zn = 8 - (n - 2);
                let mut k: usize = 0;
                while k < zn
                    invariant
                        0 <= k <= zn,
                        g@.len() == hn + k,
                        g@ == hv + g@.skip(hn as int),
                        hv.len() == hn,
                        forall|j: int| hn <= j < hn + k ==> g@[j] == 0u16,
                    decreases zn - k,
                {
                    g.push(0);
                    proof {
                        assert(g@ =~= hv + g@.skip(hn as int));
                    }
                    k += 1;
                }
                proof {
                    assert(g@.map_values(|x: u16| x as nat) =~= group_vals(
                        psv.take(n - 2 as int),
                    ) + zero_groups((8 - (n - 2)) as nat));
                }
                Some(g)
            },
            None => {
                proof {
                    assert(psv.subrange(0, n - 2 as int) =~= psv.take(n - 2 as int));
                }
                None
            },
        }
    } else if ne == 1 {
        // one empty piece strictly inside: "left::right"
        if fe < 1 || n < 2 || fe > n - 2 || n > 8 {
            return None;
        }
        let left = parse_groups_range(&ps, 0, fe);
        let right = parse_groups_range(&ps, fe + 1, n);
        proof {
            assert(psv.subrange(0, fe as int) =~= psv.take(fe as int));
            assert(psv.subrange(fe + 1 as int, n as int) =~= psv.skip(fe + 1 as int));
        }
        match (left, right) {
            (Some(lv), Some(rv)) => {
                let mut g = lv;
                let ghost lseq = g@;
                let zn = 8 - (n - 1);
                let mut k: usize = 0;
                while k < zn
                    invariant
                        0 <= k <= zn,
                        g@.len() == lseq.len() + k,
                        g@ == lseq + g@.skip(lseq.len() as int),
                        forall|j: int| lseq.len() <= j < g@.len() ==> g@[j] == 0u16,
                    decreases zn - k,
                {
                    g.push(0);
                    proof {
                        assert(g@ =~= lseq + g@.skip(lseq.len() as int));
                    }
                    k += 1;
                }
                let ghost mid = g@;
                let rn = rv.len();
                let ghost rvv = rv@;
                let mut m: usize = 0;
                while m < rn
                    invariant
                        rn == rvv.len(),
                        rv@ == rvv,
                        0 <= m <= rn,
                        g@ == mid + rvv.take(m as int),
                    decreases rn - m,
                {
                    g.push(rv[m]);
                    proof {
                        assert(mid + rvv.take(m as int + 1) =~= (mid + rvv.take(m as int)).push(
                            rvv[m as int],
                        ));
                    }
                    m += 1;
                }
                proof {
                    assert(rvv.take(rn as int) =~= rvv);
                    assert(g@.map_values(|x: u16| x as nat) =~= group_vals(psv.take(fe as int))
                        + zero_groups((8 - (n - 1)) as nat) + group_vals(
                        psv.skip(fe + 1 as int),
                    ));
                }
                Some(g)
            },
            _ => None,
        }
    } else {
        None
    }
}

/// Parses `host:port` text.
pub fn parse_sock_exec(s: &Vec<char>) -> (r: Option<SockAddr>)
    ensures
        match r {
            Some(a) => a.wf() && parse_sock(s@) == Some(a@),
            None => parse_sock(s@) is None,
        },
{
    let n = s.len();
    if n == 0 {
        return None;
    }
    if s[0] == '[' {
        let ps = split_from(s, 1, ']');
        proof {
            assert(s@.skip(1) =~= s@.drop_first());
        }
        if ps.len() != 2 {
            return None;
        }
        let rest_len = ps[1].len();
        if rest_len == 0 {
            return None;
        }
        if ps[1][0] != ':' {
            return None;
        }
        let g = parse_v6_exec(&ps[0]);
        proof {
            assert(piece_views(ps@)[0] == ps@[0]@);
            assert(piece_views(ps@)[1] == ps@[1]@);
        }
        match g {
            Some(gv) => {
                proof {
                    assert(ps@[1]@.drop_first() =~= ps@[1]@.skip(1));
                }
                match parse_port_exec(&ps[1], 1) {
                    Some(p) => {
                        let a = SockAddr { host: HostAddr::V6(gv), port: p };
                        Some(a)
                    },
                    None => None,
                }
            },
            None => None,
        }
    } else {
        let ps = split_from(s, 0, ':');
        proof {
            assert(s@.skip(0) =~= s@);
        }
        if ps.len() != 2 {
            return None;
        }
        let hp = split_from(&ps[0], 0, '.');
        proof {
            assert(piece_views(ps@)[0] == ps@[0]@);
            assert(piece_views(ps@)[1] == ps@[1]@);
            assert(ps@[0]@.skip(0) =~= ps@[0]@);
        }
        if hp.len() != 4 {
            return None;
        }
        let o0 = parse_octet_exec(&hp[0]);
        let o1 = parse_octet_exec(&hp[1]);
        let o2 = parse_octet_exec(&hp[2]);
        let o3 = parse_octet_exec(&hp[3]);
        proof {
            assert(piece_views(hp@)[0] == hp@[0]@);
            assert(piece_views(hp@)[1] == hp@[1]@);
            assert(piece_views(hp@)[2] == hp@[2]@);
            assert(piece_views(hp@)[3] == hp@[3]@);
        }
        match (o0, o1, o2, o3) {
            (Some(a), Some(b), Some(c), Some(d)) => {
                proof {
                    assert(ps@[1]@.skip(0) =~= ps@[1]@);
                }
                match parse_port_exec(&ps[1], 0) {
                    Some(p) => {
                        let r = SockAddr { host: HostAddr::V4(a, b, c, d), port: p };
                        proof {
                            assert(parse_v4(piece_views(ps@)[0]) == Some(
                                seq![a as nat, b as nat, c as nat, d as nat],
                            ));
                        }
                        Some(r)
                    },
                    None => None,
                }
            },
            _ => None,
        }
    }
}

// ------------------------------------------------------------------
// Formatting, executable level.
// ------------------------------------------------------------------
/// Length of the zero run at `i`.
fn zero_run_exec(g: &Vec<u16>, i: usize) -> (r: usize)
    requires
        i <= g.len(),
    ensures
        r == zero_run(g@.map_values(|x: u16| x as nat), i as int),
        i + r <= g.len(),
    decreases g.len() - i,
{
    if i == g.len() || g[i] != 0 {
        0
    } else {
        1 + zero_run_exec(g, i + 1)
    }
}

/// Best zero run at or after `i`.
fn best_run_exec(g: &Vec<u16>, i: usize) -> (r: (usize, usize))
    requires
        i <= g.len(),
    ensures
        (r.0 as int, r.1 as int) == best_run(g@.map_values(|x: u16| x as nat), i as int),
        r.0 + r.1 <= g.len(),
        i <= r.0,
    decreases g.len() - i,
{
    if i == g.len() {
        (i, 0)
    } else {
        let cur = zero_run_exec(g, i);
        let rest = best_run_exec(g, i + 1);
        if cur >= rest.1 {
            (i, cur)
        } else {
            rest
        }
    }
}

/// Appends the groups `[lo, hi)` joined with colons.
fn push_join_hex(g: &Vec<u16>, lo: usize, hi: usize, out: &mut Vec<char>)
    requires
        lo <= hi <= g.len(),
    ensures
        final (out)@ == old(out)@ + join_hex(
            g@.map_values(|x: u16| x as nat).subrange(lo as int, hi as int),
        ),
    decreases hi - lo,
{
    let ghost sub = g@.map_values(|x: u16| x as nat).subrange(lo as int, hi as int);
    if lo == hi {
        proof {
            assert(out@ =~= old(out)@ + join_hex(sub));
        }
    } else if lo + 1 == hi {
        push_hex(g[lo], out);
        proof {
            assert(out@ =~= old(out)@ + join_hex(sub));
        }
    } else {
        push_hex(g[lo], out);
        out.push(':');
        push_join_hex(g, lo + 1, hi, out);
        proof {
            assert(g@.map_values(|x: u16| x as nat).subrange(lo as int + 1, hi as int)
                =~= sub.drop_first());
            assert(out@ =~= old(out)@ + join_hex(sub));
        }
    }
}

/// Canonical text of an address.
pub fn fmt_sock_exec(a: &SockAddr) -> (r: Vec<char>)
    requires
        a.wf(),
    ensures
        r@ == fmt_sock(a@),
{
    let mut out: Vec<char> = Vec::new();
    match &a.host {
        HostAddr::V4(o0, o1, o2, o3) => {
            push_dec(*o0 as u128, &mut out);
            out.push('.');
            push_dec(*o1 as u128, &mut out);
            out.push('.');
            push_dec(*o2 as u128, &mut out);
            out.push('.');
            push_dec(*o3 as u128, &mut out);
            out.push(':');
            push_dec(a.port as u128, &mut out);
            proof {
                assert(out@ =~= fmt_sock(a@));
            }
        },
        HostAddr::V6(g) => {
            out.push('[');
            let b = best_run_exec(g, 0);
            let ghost gv = g@.map_values(|x: u16| x as nat);
            if b.1 >= 2 {
                push_join_hex(g, 0, b.0, &mut out);
                out.push(':');
                out.push(':');
                push_join_hex(g, b.0 + b.1, g.len(), &mut out);
                proof {
                    assert(gv.subrange(0, b.0 as int) =~= gv.take(b.0 as int));
                    assert(gv.subrange(b.0 + b.1 as int, gv.len() as int) =~= gv.skip(
                        b.0 + b.1 as int,
                    ));
                }
            } else {
                push_join_hex(g, 0, g.len(), &mut out);
                proof {
                    assert(gv.subrange(0, gv.len() as int) =~= gv);
                }
            }
            out.push(']');
            out.push(':');
            push_dec(a.port as u128, &mut out);
            proof {
                assert(out@ =~= fmt_sock(a@));
            }
        },
    }
    out
}

/// Whether two addresses are the same.
pub fn addr_eq(a: &SockAddr, b: &SockAddr) -> (r: bool)
    requires
        a.wf(),
        b.wf(),
    ensures
        r == (a@ == b@),
{
    if a.port != b.port {
        return false;
    }
    match (&a.host, &b.host) {
        (HostAddr::V4(a0, a1, a2, a3), HostAddr::V4(b0, b1, b2, b3)) => {
            let r = *a0 == *b0 && *a1 == *b1 && *a2 == *b2 && *a3 == *b3;
            proof {
                if r {
                    assert(a@.host =~= b@.host);
                } else {
                    assert(a@.host != b@.host);
                }
            }
            r
        },
        (HostAddr::V6(ga), HostAddr::V6(gb)) => {
            let mut i: usize = 0;
            while i < 8
                invariant
                    ga@.len() == 8,
                    gb@.len() == 8,
                    a.host == HostAddr::V6(*ga),
                    b.host == HostAddr::V6(*gb),
                    0 <= i <= 8,
                    forall|j: int| 0 <= j < i ==> ga@[j] == gb@[j],
                decreases 8 - i,
            {
                if ga[i] != gb[i] {
                    proof {
                        let va = ga@.map_values(|x: u16| x as nat);
                        let vb = gb@.map_values(|x: u16| x as nat);
                        assert(va[i as int] != vb[i as int]);
                    }
                    return false;
                }
                i += 1;
            }
            proof {
                assert(ga@.map_values(|x: u16| x as nat) =~= gb@.map_values(|x: u16| x as nat));
            }
            true
        },
        (HostAddr::V4(_, _, _, _), HostAddr::V6(_)) => false,
        (HostAddr::V6(_), HostAddr::V4(_, _, _, _)) => false,
    }
}

/// Whether the host is the unspecified (wildcard) address.
pub fn host_unspecified_exec(a: &SockAddr) -> (r: bool)
    requires
        a.wf(),
    ensures
        r == host_unspecified(a@.host),
{
    match &a.host {
        HostAddr::V4(a0, a1, a2, a3) => {
            let r = *a0 == 0 && *a1 == 0 && *a2 == 0 && *a3 == 0;
            proof {
                if r {
                    assert(a@.host matches HostSpec::H4(o) && o =~= seq![0nat, 0nat, 0nat, 0nat]);
                } else {
                    assert(a@.host matches HostSpec::H4(o) && !(o =~= seq![
                        0nat,
                        0nat,
                        0nat,
                        0nat,
                    ]));
                }
            }
            r
        },
        HostAddr::V6(g) => {
            let mut i: usize = 0;
            while i < 8
                invariant
                    g@.len() == 8,
                    a.host == HostAddr::V6(*g),
                    0 <= i <= 8,
                    forall|j: int| 0 <= j < i ==> g@[j] == 0u16,
                decreases 8 - i,
            {
                if g[i] != 0 {
                    proof {
                        let gv = g@.map_values(|x: u16| x as nat);
                        assert(gv[i as int] != 0);
                        assert(!(gv =~= zero_groups(8)));
                    }
                    return false;
                }
                i += 1;
            }
            proof {
                assert(g@.map_values(|x: u16| x as nat) =~= zero_groups(8));
            }
            true
        },
    }
}

} // verus!
