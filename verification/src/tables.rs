//! Tables of network interfaces and connections, as the system packs them.

use std::collections::HashMap;

use vstd::prelude::*;

use crate::order;
use crate::order::{Ordered, Ranked};
use crate::procs;
use crate::text;

verus! {

broadcast use vstd::std_specs::hash::group_hash_axioms;

/// Bytes of a row of the table of interfaces.
pub const IF_ROW: usize = 860;

/// The type of the loopback interface.
pub const IF_TYPE_LOOPBACK: u32 = 24;

/// Bytes of a row of the table of connections, and of that with long addresses.
pub const TCP_ROW: usize = 24;

pub const TCP6_ROW: usize = 56;

/// The state of a connection that is established.
pub const TCP_ESTABLISHED: u32 = 5;

/// An interface: its name, and the bytes that it has sent and received.
pub type Iface = (Seq<char>, u64, u64);

/// Interfaces without their representation.
pub open spec fn ifaces_view(v: Seq<(String, u64, u64)>) -> Seq<Iface> {
    v.map_values(|e: (String, u64, u64)| (e.0@, e.1, e.2))
}

/// How many rows a table has: as many as its first number says, as far as it holds them.
pub open spec fn row_count(b: Seq<u8>, row: int) -> int {
    if b.len() < 4 {
        0
    } else {
        let said = procs::le32(b, 0);
        let held = (b.len() - 4) / row;
        if said <= held {
            said
        } else {
            held
        }
    }
}

fn count_rows(b: &[u8], row: usize) -> (r: usize)
    requires
        0 < row <= 0x1000,
    ensures
        r == row_count(b@, row as int),
        4 + r * row <= b@.len() || r == 0,
{
    let n: usize = b.len();
    if n < 4 {
        return 0;
    }
    let said: u32 = procs::read32(b, 0);
    let held: usize = (n - 4) / row;
    proof {
        assert(held * row <= n - 4) by (nonlinear_arith)
            requires
                held == (n - 4) / row as int,
                row > 0,
                n >= 4,
        ;
    }
    if (said as u64) <= held as u64 {
        proof {
            assert(said * row <= held * row) by (nonlinear_arith)
                requires
                    said <= held,
                    row > 0,
            ;
        }
        said as usize
    } else {
        held
    }
}

/// The interfaces in the first `n` rows of a table, without the loopback: named by their
/// number, with the bytes that they have sent and received.
pub open spec fn ifaces_in(b: Seq<u8>, n: int) -> Seq<Iface>
    decreases n,
{
    if n <= 0 {
        Seq::empty()
    } else {
        let front = ifaces_in(b, n - 1);
        let at = 4 + (n - 1) * IF_ROW;
        if procs::le32(b, at + 516) == IF_TYPE_LOOPBACK {
            front
        } else {
            front.push(
                (
                    text::decimal(procs::le32(b, at + 512) as nat),
                    procs::le32(b, at + 556) as u64,
                    procs::le32(b, at + 552) as u64,
                ),
            )
        }
    }
}

/// The interfaces of a table of the system.
pub open spec fn ifaces_of_table(b: Seq<u8>) -> Seq<Iface> {
    ifaces_in(b, row_count(b, IF_ROW as int))
}

/// The interfaces of a table of the system, without the loopback: named by their number,
/// with the bytes that they have sent and received.
pub fn net_ifaces(table: &[u8]) -> (r: Vec<(String, u64, u64)>)
    ensures
        ifaces_view(r@) == ifaces_of_table(table@),
{
    let mut out: Vec<(String, u64, u64)> = Vec::new();
    let n: usize = count_rows(table, IF_ROW);
    assert(ifaces_view(out@) =~= ifaces_in(table@, 0));
    for i in 0..n
        invariant
            n > 0 ==> 4 + n * IF_ROW <= table@.len(),
            ifaces_view(out@) == ifaces_in(table@, i as int),
    {
        proof {
            assert((i + 1) * IF_ROW <= n * IF_ROW && i * IF_ROW + IF_ROW == (i + 1) * IF_ROW && i
                * IF_ROW >= 0) by (nonlinear_arith)
                requires
                    i + 1 <= n,
            ;
        }
        assert(table.len() == table@.len());
        let at: usize = 4 + i * IF_ROW;
        let ghost before = ifaces_view(out@);
        if procs::read32(table, at + 516) != IF_TYPE_LOOPBACK {
            let mut name = String::new();
            text::push_decimal(&mut name, procs::read32(table, at + 512) as u64);
            let ghost nv = name@;
            let sent: u64 = procs::read32(table, at + 556) as u64;
            let received: u64 = procs::read32(table, at + 552) as u64;
            out.push((name, sent, received));
            assert(nv =~= text::decimal(procs::le32(table@, at + 512) as nat));
            assert(ifaces_view(out@) =~= before.push((nv, sent, received)));
        }
    }
    out
}

/// The interfaces of a list that names one several times, without the loopback: the first
/// entry of each counts.
pub open spec fn unique_ifaces(list: Seq<Iface>) -> Seq<Iface>
    decreases list.len(),
{
    if list.len() == 0 {
        Seq::empty()
    } else {
        let front = unique_ifaces(list.drop_last());
        let e = list.last();
        if e.0 == "lo0"@ || iface_names(front).contains(e.0) {
            front
        } else {
            front.push(e)
        }
    }
}

/// The names of interfaces.
pub open spec fn iface_names(list: Seq<Iface>) -> Seq<Seq<char>> {
    list.map_values(|e: Iface| e.0)
}

/// The interfaces of a list that names each once for every kind of address.
pub fn ifaces_by_name(list: &[(String, u64, u64)]) -> (r: Vec<(String, u64, u64)>)
    ensures
        ifaces_view(r@) == unique_ifaces(ifaces_view(list@)),
{
    let mut out: Vec<(String, u64, u64)> = Vec::new();
    let ghost lv = ifaces_view(list@);
    assert(ifaces_view(out@) =~= unique_ifaces(lv.take(0))) by {
        assert(lv.take(0) =~= Seq::empty());
    }
    for i in 0..list.len()
        invariant
            lv == ifaces_view(list@),
            ifaces_view(out@) == unique_ifaces(lv.take(i as int)),
    {
        assert(lv.take(i + 1).drop_last() =~= lv.take(i as int));
        let ghost before = ifaces_view(out@);
        let mut known = text::same(list[i].0.as_str(), "lo0");
        for k in 0..out.len()
            invariant
                lv == ifaces_view(list@),
                i < list@.len(),
                before == ifaces_view(out@),
                known == (lv[i as int].0 == "lo0"@ || exists|j: int|
                    0 <= j < k && (#[trigger] before[j]).0 == lv[i as int].0),
        {
            if text::same(out[k].0.as_str(), list[i].0.as_str()) {
                known = true;
                assert(before[k as int].0 == lv[i as int].0);
            }
        }
        proof {
            assert(iface_names(before).contains(lv[i as int].0) == exists|j: int|
                0 <= j < before.len() && (#[trigger] before[j]).0 == lv[i as int].0) by {
                if iface_names(before).contains(lv[i as int].0) {
                    let j = choose|j: int|
                        0 <= j < before.len() && iface_names(before)[j] == lv[i as int].0;
                    assert(before[j].0 == lv[i as int].0);
                }
                if exists|j: int| 0 <= j < before.len() && (#[trigger] before[j]).0
                    == lv[i as int].0 {
                    let j = choose|j: int|
                        0 <= j < before.len() && (#[trigger] before[j]).0 == lv[i as int].0;
                    assert(iface_names(before)[j] == lv[i as int].0);
                }
            }
        }
        if !known {
            out.push((list[i].0.clone(), list[i].1, list[i].2));
            assert(ifaces_view(out@) =~= before.push(lv[i as int]));
        }
    }
    assert(lv.take(lv.len() as int) =~= lv);
    out
}

/// A port, of which the system gives the two bytes the other way round.
pub open spec fn port_of(p: u32) -> nat {
    ((p % 256) * 256 + (p / 256) % 256) as nat
}

/// An address of four bytes as text.
pub open spec fn ipv4_text(v: u32) -> Seq<char> {
    text::decimal((v % 256) as nat) + seq!['.'] + text::decimal(((v / 256) % 256) as nat) + seq![
        '.',
    ] + text::decimal(((v / 0x1_0000) % 256) as nat) + seq!['.'] + text::decimal(
        ((v / 0x100_0000) % 256) as nat,
    )
}

/// The first `n` groups of an address of sixteen bytes as text: four digits each, with
/// colons between.
pub open spec fn ipv6_groups(b: Seq<u8>, n: nat) -> Seq<char>
    decreases n,
{
    if n == 0 {
        Seq::empty()
    } else {
        let front = ipv6_groups(b, (n - 1) as nat);
        let sep = if n > 1 {
            seq![':']
        } else {
            Seq::empty()
        };
        front + sep + text::hex_pair(b[2 * (n - 1)]) + text::hex_pair(b[2 * (n - 1) + 1])
    }
}

fn push_ipv4(s: &mut String, v: u32)
    ensures
        final(s)@ == old(s)@ + ipv4_text(v),
{
    text::push_decimal(s, (v % 256) as u64);
    s.push('.');
    text::push_decimal(s, ((v / 256) % 256) as u64);
    s.push('.');
    text::push_decimal(s, ((v / 0x1_0000) % 256) as u64);
    s.push('.');
    text::push_decimal(s, ((v / 0x100_0000) % 256) as u64);
    assert(s@ =~= old(s)@ + ipv4_text(v));
}

fn push_ipv6(s: &mut String, b: &[u8], at: usize)
    requires
        at + 16 <= b.len(),
    ensures
        final(s)@ == old(s)@ + ipv6_groups(b@.subrange(at as int, at + 16), 8),
{
    let ghost addr = b@.subrange(at as int, at + 16);
    assert(old(s)@ + ipv6_groups(addr, 0) =~= old(s)@);
    for i in 0..8usize
        invariant
            at + 16 <= b.len(),
            addr == b@.subrange(at as int, at + 16),
            s@ == old(s)@ + ipv6_groups(addr, i as nat),
    {
        if i > 0 {
            s.push(':');
        }
        text::push_hex_pair(s, b[at + 2 * i]);
        text::push_hex_pair(s, b[at + 2 * i + 1]);
        assert(s@ =~= old(s)@ + ipv6_groups(addr, (i + 1) as nat));
    }
}

/// A connection: where it leads, and which process has it.
pub type Conn = (Seq<char>, u32);

/// Connections without their representation.
pub open spec fn conns_of(v: Seq<(String, u32)>) -> Seq<Conn> {
    v.map_values(|e: (String, u32)| (e.0@, e.1))
}

/// By address, then by process.
pub open spec fn conn_before(a: Conn, b: Conn) -> bool {
    text::lex_before(a.0, b.0) || (a.0 == b.0 && a.1 < b.1)
}

proof fn lemma_conn_order(a: Conn, b: Conn, c: Conn)
    ensures
        !conn_before(a, a),
        conn_before(a, b) && conn_before(b, c) ==> conn_before(a, c),
        !conn_before(a, b) && !conn_before(b, c) ==> !conn_before(a, c),
{
    text::lemma_lex_order(a.0, b.0, c.0);
    text::lemma_lex_order(c.0, b.0, a.0);
    text::lemma_lex_order(a.0, c.0, b.0);
}

impl Ordered for (String, u32) {
    open spec fn before(self, other: Self) -> bool {
        conn_before((self.0@, self.1), (other.0@, other.1))
    }

    proof fn strict_weak(a: Self, b: Self, c: Self) {
        lemma_conn_order((a.0@, a.1), (b.0@, b.1), (c.0@, c.1));
    }
}

impl Ranked for (String, u32) {
    fn is_before(&self, other: &Self) -> (r: bool) {
        let x = text::chars_of(self.0.as_str());
        let y = text::chars_of(other.0.as_str());
        if text::same_chars(&x, &y) {
            proof {
                text::lemma_lex_order(x@, y@, x@);
            }
            self.1 < other.1
        } else {
            text::precedes(&x, &y)
        }
    }
}

impl Ordered for (Seq<char>, u32) {
    open spec fn before(self, other: Self) -> bool {
        conn_before(self, other)
    }

    proof fn strict_weak(a: Self, b: Self, c: Self) {
        lemma_conn_order(a, b, c);
    }
}

/// Connections in order, each once.
pub open spec fn tidy(conns: Seq<Conn>) -> Seq<Conn> {
    order::without_repeats(order::ranked(conns))
}

fn tidied(conns: Vec<(String, u32)>) -> (r: Vec<(String, u32)>)
    ensures
        conns_of(r@) == tidy(conns_of(conns@)),
{
    proof {
        order::lemma_ranked_map(conns@, |e: (String, u32)| (e.0@, e.1));
    }
    let sorted = order::sort(conns);
    let ghost sv = conns_of(sorted@);
    let mut out: Vec<(String, u32)> = Vec::new();
    let n: usize = sorted.len();
    if n == 0 {
        assert(conns_of(out@) =~= order::without_repeats(sv));
        return out;
    }
    out.push((sorted[0].0.clone(), sorted[0].1));
    assert(conns_of(out@) =~= order::without_repeats(sv.take(1)));
    let mut i: usize = 1;
    while i < n
        invariant
            1 <= i <= n,
            n == sorted@.len(),
            sv == conns_of(sorted@),
            conns_of(out@) == order::without_repeats(sv.take(i as int)),
        decreases n - i,
    {
        assert(sv.take(i + 1).drop_last() =~= sv.take(i as int));
        let ghost before = conns_of(out@);
        let again = sorted[i].1 == sorted[i - 1].1 && text::same(
            sorted[i].0.as_str(),
            sorted[i - 1].0.as_str(),
        );
        assert(again == (sv[i as int] == sv[i - 1]));
        if !again {
            out.push((sorted[i].0.clone(), sorted[i].1));
            assert(conns_of(out@) =~= before.push(sv[i as int]));
        }
        i = i + 1;
    }
    assert(sv.take(n as int) =~= sv);
    out
}

/// The established connection in a row of the table.
pub open spec fn conn4_at(b: Seq<u8>, i: int) -> Option<Conn> {
    let at = 4 + i * TCP_ROW;
    if procs::le32(b, at) == TCP_ESTABLISHED {
        Some(
            (
                ipv4_text(procs::le32(b, at + 12) as u32) + seq![':'] + text::decimal(
                    port_of(procs::le32(b, at + 16) as u32),
                ),
                procs::le32(b, at + 20) as u32,
            ),
        )
    } else {
        None
    }
}

/// The established connection in a row of the table with long addresses.
pub open spec fn conn6_at(b: Seq<u8>, i: int) -> Option<Conn> {
    let at = 4 + i * TCP6_ROW;
    if procs::le32(b, at) == TCP_ESTABLISHED {
        Some(
            (
                seq!['['] + ipv6_groups(b.subrange(at + 28, at + 44), 8) + seq![']', ':']
                    + text::decimal(port_of(procs::le32(b, at + 48) as u32)),
                procs::le32(b, at + 52) as u32,
            ),
        )
    } else {
        None
    }
}

/// The established connections in the first `n` rows.
pub open spec fn conns4_in(b: Seq<u8>, n: int) -> Seq<Conn>
    decreases n,
{
    if n <= 0 {
        Seq::empty()
    } else {
        match conn4_at(b, n - 1) {
            Some(c) => conns4_in(b, n - 1).push(c),
            None => conns4_in(b, n - 1),
        }
    }
}

/// The established connections in the first `n` rows of the table with long addresses.
pub open spec fn conns6_in(b: Seq<u8>, n: int) -> Seq<Conn>
    decreases n,
{
    if n <= 0 {
        Seq::empty()
    } else {
        match conn6_at(b, n - 1) {
            Some(c) => conns6_in(b, n - 1).push(c),
            None => conns6_in(b, n - 1),
        }
    }
}

/// All established connections of the two tables.
pub open spec fn established(v4: Seq<u8>, v6: Seq<u8>) -> Seq<Conn> {
    conns4_in(v4, row_count(v4, TCP_ROW as int)) + conns6_in(v6, row_count(v6, TCP6_ROW as int))
}

/// The connections of the processes of a group, but for those of another.
pub open spec fn conns_in_group(conns: Seq<Conn>, group: Set<u32>, other: Set<u32>) -> Seq<Conn>
    decreases conns.len(),
{
    if conns.len() == 0 {
        Seq::empty()
    } else {
        let front = conns_in_group(conns.drop_last(), group, other);
        let c = conns.last();
        if group.contains(c.1) && !other.contains(c.1) {
            front.push(c)
        } else {
            front
        }
    }
}

fn push_port(s: &mut String, p: u32)
    ensures
        final(s)@ == old(s)@ + seq![':'] + text::decimal(port_of(p)),
{
    s.push(':');
    let port: u32 = (p % 256) * 256 + (p / 256) % 256;
    text::push_decimal(s, port as u64);
    assert(s@ =~= old(s)@ + seq![':'] + text::decimal(port_of(p)));
}

fn read_conns4(b: &[u8]) -> (r: Vec<(String, u32)>)
    ensures
        conns_of(r@) == conns4_in(b@, row_count(b@, TCP_ROW as int)),
{
    let mut out: Vec<(String, u32)> = Vec::new();
    let n: usize = count_rows(b, TCP_ROW);
    assert(conns_of(out@) =~= conns4_in(b@, 0));
    for i in 0..n
        invariant
            n > 0 ==> 4 + n * TCP_ROW <= b@.len(),
            conns_of(out@) == conns4_in(b@, i as int),
    {
        proof {
            assert((i + 1) * TCP_ROW <= n * TCP_ROW && i * TCP_ROW + TCP_ROW == (i + 1) * TCP_ROW
                && i * TCP_ROW >= 0) by (nonlinear_arith)
                requires
                    i + 1 <= n,
            ;
        }
        assert(b.len() == b@.len());
        let at: usize = 4 + i * TCP_ROW;
        let ghost before = conns_of(out@);
        if procs::read32(b, at) == TCP_ESTABLISHED {
            let mut s = String::new();
            push_ipv4(&mut s, procs::read32(b, at + 12));
            push_port(&mut s, procs::read32(b, at + 16));
            let ghost sv = s@;
            let pid: u32 = procs::read32(b, at + 20);
            out.push((s, pid));
            proof {
                assert(conn4_at(b@, i as int).unwrap().0 =~= sv);
                assert(conns_of(out@) =~= before.push((sv, pid)));
            }
        }
    }
    out
}

fn read_conns6(b: &[u8]) -> (r: Vec<(String, u32)>)
    ensures
        conns_of(r@) == conns6_in(b@, row_count(b@, TCP6_ROW as int)),
{
    let mut out: Vec<(String, u32)> = Vec::new();
    let n: usize = count_rows(b, TCP6_ROW);
    assert(conns_of(out@) =~= conns6_in(b@, 0));
    for i in 0..n
        invariant
            n > 0 ==> 4 + n * TCP6_ROW <= b@.len(),
            conns_of(out@) == conns6_in(b@, i as int),
    {
        proof {
            assert((i + 1) * TCP6_ROW <= n * TCP6_ROW && i * TCP6_ROW + TCP6_ROW == (i + 1)
                * TCP6_ROW && i * TCP6_ROW >= 0) by (nonlinear_arith)
                requires
                    i + 1 <= n,
            ;
        }
        assert(b.len() == b@.len());
        let at: usize = 4 + i * TCP6_ROW;
        let ghost before = conns_of(out@);
        if procs::read32(b, at) == TCP_ESTABLISHED {
            let mut s = String::new();
            s.push('[');
            push_ipv6(&mut s, b, at + 28);
            s.push(']');
            push_port(&mut s, procs::read32(b, at + 48));
            let ghost sv = s@;
            let pid: u32 = procs::read32(b, at + 52);
            out.push((s, pid));
            proof {
                assert(conn6_at(b@, i as int).unwrap().0 =~= sv);
                assert(conns_of(out@) =~= before.push((sv, pid)));
            }
        }
    }
    out
}

/// The established connections of the processes of two groups, from the tables of the
/// system: in order and each once. A process of both groups counts in the first. There is
/// nothing to tell where there are no tables.
pub fn zcode_conns(
    tables: Option<(&[u8], &[u8])>,
    cli_pids: &HashMap<u32, String>,
    app_pids: &HashMap<u32, String>,
) -> (r: Option<(Vec<(String, u32)>, Vec<(String, u32)>)>)
    ensures
        match (tables, r) {
            (Some((v4, v6)), Some((cli, app))) => {
                let all = established(v4@, v6@);
                &&& conns_of(cli@) == tidy(
                    conns_in_group(all, cli_pids@.dom(), Set::empty()),
                )
                &&& conns_of(app@) == tidy(
                    conns_in_group(all, app_pids@.dom(), cli_pids@.dom()),
                )
            },
            (None, None) => true,
            _ => false,
        },
{
    match tables {
        None => None,
        Some((v4, v6)) => {
            let mut all = read_conns4(v4);
            let mut more = read_conns6(v6);
            let ghost a0 = conns_of(all@);
            let ghost m0 = conns_of(more@);
            all.append(&mut more);
            let ghost av = conns_of(all@);
            assert(av =~= a0 + m0);
            let mut cli: Vec<(String, u32)> = Vec::new();
            let mut app: Vec<(String, u32)> = Vec::new();
            proof {
                assert(av.take(0) =~= Seq::empty());
                assert(conns_of(cli@) =~= Seq::empty());
                assert(conns_of(app@) =~= Seq::empty());
            }
            for i in 0..all.len()
                invariant
                    av == conns_of(all@),
                    conns_of(cli@) == conns_in_group(
                        av.take(i as int),
                        cli_pids@.dom(),
                        Set::empty(),
                    ),
                    conns_of(app@) == conns_in_group(
                        av.take(i as int),
                        app_pids@.dom(),
                        cli_pids@.dom(),
                    ),
            {
                assert(av.take(i + 1).drop_last() =~= av.take(i as int));
                let ghost c0 = conns_of(cli@);
                let ghost p0 = conns_of(app@);
                let pid: u32 = all[i].1;
                if cli_pids.contains_key(&pid) {
                    cli.push((all[i].0.clone(), pid));
                    assert(conns_of(cli@) =~= c0.push(av[i as int]));
                } else if app_pids.contains_key(&pid) {
                    app.push((all[i].0.clone(), pid));
                    assert(conns_of(app@) =~= p0.push(av[i as int]));
                }
            }
            assert(av.take(av.len() as int) =~= av);
            Some((tidied(cli), tidied(app)))
        },
    }
}

/// Each interface is listed once, as it first occurs, but for the loopback.
pub proof fn law_interfaces_are_listed_once(list: Seq<Iface>)
    ensures
        ({
            let r = unique_ifaces(list);
            &&& forall|i: int, j: int|
                0 <= i < j < r.len() ==> (#[trigger] r[i]).0 != (#[trigger] r[j]).0
            &&& forall|e: Iface| #[trigger]
                r.contains(e) <==> e.0 != "lo0"@ && exists|i: int|
                    0 <= i < list.len() && #[trigger] list[i] == e && forall|j: int|
                        0 <= j < i ==> (#[trigger] list[j]).0 != e.0
        }),
    decreases list.len(),
{
    let r = unique_ifaces(list);
    if list.len() > 0 {
        let d = list.drop_last();
        let front = unique_ifaces(d);
        let last = list.last();
        law_interfaces_are_listed_once(d);
        let names = iface_names(front);
        assert(names.contains(last.0) <==> exists|k: int|
            0 <= k < front.len() && (#[trigger] front[k]).0 == last.0) by {
            if names.contains(last.0) {
                let k = choose|k: int| 0 <= k < names.len() && names[k] == last.0;
                assert(front[k].0 == last.0);
            }
            if exists|k: int| 0 <= k < front.len() && (#[trigger] front[k]).0 == last.0 {
                let k = choose|k: int| 0 <= k < front.len() && (#[trigger] front[k]).0 == last.0;
                assert(names[k] == last.0);
            }
        }
        // A name that occurred, other than the loopback, is listed.
        assert forall|j: int| 0 <= j < d.len() && (#[trigger] d[j]).0 == last.0 && last.0
            != "lo0"@ implies names.contains(last.0) by {
            lemma_first_with_name(d, j);
            let k = choose|k: int|
                0 <= k <= j && d[k].0 == d[j].0 && forall|m: int| 0 <= m < k ==> (#[trigger] d[m]).0
                    != d[j].0;
            assert(d[k] == d[k]);
            assert(front.contains(d[k]));
            let n = choose|n: int| 0 <= n < front.len() && front[n] == d[k];
            assert(names[n] == last.0);
        }
        assert forall|e: Iface| #[trigger]
            r.contains(e) <==> e.0 != "lo0"@ && exists|i: int|
                0 <= i < list.len() && #[trigger] list[i] == e && forall|j: int|
                    0 <= j < i ==> (#[trigger] list[j]).0 != e.0 by {
            lemma_listed_step(list, e);
        }
    } else {
        assert(r.len() == 0);
    }
}

proof fn lemma_listed_step(list: Seq<Iface>, e: Iface)
    requires
        list.len() > 0,
        forall|x: Iface| #[trigger]
            unique_ifaces(list.drop_last()).contains(x) <==> x.0 != "lo0"@ && exists|i: int|
                0 <= i < list.len() - 1 && #[trigger] list.drop_last()[i] == x && forall|j: int|
                    0 <= j < i ==> (#[trigger] list.drop_last()[j]).0 != x.0,
        forall|j: int|
            0 <= j < list.len() - 1 && (#[trigger] list.drop_last()[j]).0 == list.last().0
                && list.last().0 != "lo0"@ ==> iface_names(
                unique_ifaces(list.drop_last()),
            ).contains(list.last().0),
    ensures
        unique_ifaces(list).contains(e) <==> e.0 != "lo0"@ && exists|i: int|
            0 <= i < list.len() && #[trigger] list[i] == e && forall|j: int|
                0 <= j < i ==> (#[trigger] list[j]).0 != e.0,
{
    let d = list.drop_last();
    let front = unique_ifaces(d);
    let names = iface_names(front);
    let r = unique_ifaces(list);
    let last = list.last();
    let n = list.len() - 1;
    if r.contains(e) {
        let k = choose|k: int| 0 <= k < r.len() && r[k] == e;
        if k < front.len() {
            assert(front[k] == e);
            assert(front.contains(e));
            let i = choose|i: int|
                0 <= i < n && #[trigger] d[i] == e && forall|j: int|
                    0 <= j < i ==> (#[trigger] d[j]).0 != e.0;
            assert(list[i] == e);
            assert forall|j: int| 0 <= j < i implies (#[trigger] list[j]).0 != e.0 by {
                assert(d[j].0 != e.0);
            }
        } else {
            assert(e == last);
            assert(list[n] == e);
            assert forall|j: int| 0 <= j < n implies (#[trigger] list[j]).0 != e.0 by {
                if list[j].0 == e.0 {
                    assert(d[j].0 == last.0);
                }
            }
        }
    }
    if e.0 != "lo0"@ && exists|i: int|
        0 <= i < list.len() && #[trigger] list[i] == e && forall|j: int|
            0 <= j < i ==> (#[trigger] list[j]).0 != e.0 {
        let i = choose|i: int|
            0 <= i < list.len() && #[trigger] list[i] == e && forall|j: int|
                0 <= j < i ==> (#[trigger] list[j]).0 != e.0;
        if i < n {
            assert(d[i] == e);
            assert forall|j: int| 0 <= j < i implies (#[trigger] d[j]).0 != e.0 by {
                assert(list[j].0 != e.0);
            }
            assert(front.contains(e));
            let k = choose|k: int| 0 <= k < front.len() && front[k] == e;
            assert(r[k] == e);
        } else {
            assert(!names.contains(e.0)) by {
                if names.contains(e.0) {
                    let k = choose|k: int| 0 <= k < names.len() && names[k] == e.0;
                    let x = front[k];
                    assert(front.contains(x));
                    let m = choose|m: int|
                        0 <= m < n && #[trigger] d[m] == x && forall|j: int|
                            0 <= j < m ==> (#[trigger] d[j]).0 != x.0;
                    assert(list[m].0 == e.0);
                }
            }
            assert(r[r.len() - 1] == e);
        }
    }
}

proof fn lemma_first_with_name(list: Seq<Iface>, j: int)
    requires
        0 <= j < list.len(),
    ensures
        exists|k: int|
            0 <= k <= j && (#[trigger] list[k]).0 == list[j].0 && forall|m: int|
                0 <= m < k ==> (#[trigger] list[m]).0 != list[j].0,
    decreases j,
{
    if exists|m: int| 0 <= m < j && (#[trigger] list[m]).0 == list[j].0 {
        let m = choose|m: int| 0 <= m < j && (#[trigger] list[m]).0 == list[j].0;
        lemma_first_with_name(list, m);
    } else {
        assert(list[j].0 == list[j].0);
    }
}

/// A port is stored with its highest byte first, and an address with its first part lowest.
pub proof fn law_addresses_are_read_in_order(a: u8, b: u8, c: u8, d: u8)
    ensures
        port_of((a + 256 * b) as u32) == 256 * a + b,
        ipv4_text((a + 256 * b + 0x1_0000 * c + 0x100_0000 * d) as u32) == text::decimal(a as nat)
            + seq!['.'] + text::decimal(b as nat) + seq!['.'] + text::decimal(c as nat) + seq!['.']
            + text::decimal(d as nat),
{
    let p = (a + 256 * b) as u32;
    assert(p % 256 == a && (p / 256) % 256 == b);
    let v = (a + 256 * b + 0x1_0000 * c + 0x100_0000 * d) as u32;
    assert(v == a + 256 * b + 0x1_0000 * c + 0x100_0000 * d);
    assert(v % 256 == a);
    assert(v / 256 == b + 256 * c + 0x1_0000 * d);
    assert((v / 256) % 256 == b);
    assert(v / 0x1_0000 == c + 256 * d);
    assert((v / 0x1_0000) % 256 == c);
    assert(v / 0x100_0000 == d);
    assert((v / 0x100_0000) % 256 == d);
}

/// The rows of a table are those that it says it has, as far as its bytes go.
pub proof fn law_rows_lie_in_the_table(b: Seq<u8>, row: int)
    requires
        row > 0,
        b.len() >= 4,
    ensures
        0 <= row_count(b, row) <= procs::le32(b, 0),
        4 + row_count(b, row) * row <= b.len(),
        row_count(b, row) < procs::le32(b, 0) ==> 4 + (row_count(b, row) + 1) * row > b.len(),
{
    let held = (b.len() - 4) / row;
    assert(held * row <= b.len() - 4 < (held + 1) * row && held >= 0) by (nonlinear_arith)
        requires
            row > 0,
            b.len() >= 4,
            held == (b.len() - 4) / row,
    ;
    let said = procs::le32(b, 0);
    if said <= held {
        assert(said * row <= held * row) by (nonlinear_arith)
            requires
                0 <= said <= held,
                row > 0,
        ;
    }
}

/// The connections of a group are those of its processes that no other group has.
pub proof fn law_connections_go_by_process(conns: Seq<Conn>, group: Set<u32>, other: Set<u32>)
    ensures
        conns_in_group(conns, group, other) == conns.filter(
            |c: Conn| group.contains(c.1) && !other.contains(c.1),
        ),
    decreases conns.len(),
{
    reveal(Seq::filter);
    let keep = |c: Conn| group.contains(c.1) && !other.contains(c.1);
    if conns.len() > 0 {
        law_connections_go_by_process(conns.drop_last(), group, other);
    } else {
        assert(conns.filter(keep) =~= conns);
    }
}

proof fn lemma_repeats(s: Seq<Conn>)
    requires
        order::in_order(s),
    ensures
        ({
            let r = order::without_repeats(s);
            &&& forall|c: Conn| #[trigger] r.contains(c) <==> s.contains(c)
            &&& forall|i: int, j: int|
                0 <= i < j < r.len() ==> conn_before(#[trigger] r[i], #[trigger] r[j])
            &&& s.len() > 0 ==> r.len() > 0 && r.last() == s.last()
        }),
    decreases s.len(),
{
    let r = order::without_repeats(s);
    if s.len() >= 2 {
        let d = s.drop_last();
        assert(order::in_order(d)) by {
            assert forall|i: int, j: int| 0 <= i < j < d.len() implies !(#[trigger] d[j]).before(
                #[trigger] d[i],
            ) by {
                assert(!s[j].before(s[i]));
            }
        }
        lemma_repeats(d);
        let front = order::without_repeats(d);
        let last = s.last();
        assert(d.last() == s[s.len() - 2]);
        assert(s[s.len() - 1] == last);
        assert forall|c: Conn| #[trigger] r.contains(c) <==> s.contains(c) by {
            assert(s =~= d.push(last));
            if s.contains(c) {
                let i = choose|i: int| 0 <= i < s.len() && s[i] == c;
                if i < d.len() {
                    assert(d[i] == c);
                    assert(d.contains(c));
                    assert(front.contains(c));
                    let k = choose|k: int| 0 <= k < front.len() && front[k] == c;
                    assert(r[k] == c);
                } else {
                    assert(r.last() == last);
                    assert(r[r.len() - 1] == c);
                }
            }
            if r.contains(c) {
                let k = choose|k: int| 0 <= k < r.len() && r[k] == c;
                if k < front.len() {
                    assert(front[k] == c);
                    assert(front.contains(c));
                    assert(d.contains(c));
                    let i = choose|i: int| 0 <= i < d.len() && d[i] == c;
                    assert(s[i] == c);
                } else {
                    assert(s[s.len() - 1] == c);
                }
            }
        }
        if d.last() != last {
            assert(!s[s.len() - 1].before(s[s.len() - 2]));
            text::lemma_lex_order(last.0, d.last().0, last.0);
            assert(conn_before(d.last(), last));
            assert forall|i: int, j: int| 0 <= i < j < r.len() implies conn_before(
                #[trigger] r[i],
                #[trigger] r[j],
            ) by {
                if j < front.len() {
                    assert(r[i] == front[i] && r[j] == front[j]);
                } else if i < front.len() - 1 {
                    assert(conn_before(front[i], front[front.len() - 1]));
                    Conn::strict_weak(r[i], d.last(), last);
                }
            }
        }
    }
}

/// The connections shown are all that there are, each once and in order.
pub proof fn law_connections_are_tidy(conns: Seq<Conn>)
    ensures
        forall|c: Conn| #[trigger] tidy(conns).contains(c) <==> conns.contains(c),
        forall|i: int, j: int|
            0 <= i < j < tidy(conns).len() ==> conn_before(
                #[trigger] tidy(conns)[i],
                #[trigger] tidy(conns)[j],
            ),
{
    broadcast use vstd::seq_lib::group_to_multiset_ensures;

    order::law_ranked_is_sorted_permutation(conns);
    let r = order::ranked(conns);
    lemma_repeats(r);
    assert forall|c: Conn| #[trigger] tidy(conns).contains(c) <==> conns.contains(c) by {
        assert(r.contains(c) <==> r.to_multiset().count(c) > 0);
        assert(conns.contains(c) <==> conns.to_multiset().count(c) > 0);
    }
}

/// Where the rows of a table begin.
pub open spec fn places(n: int, row: int) -> Seq<int> {
    Seq::new(
        if n > 0 {
            n as nat
        } else {
            0
        },
        |k: int| 4 + k * row,
    )
}

/// The interfaces are the rows of the table that are no loopback: the number of each, the bytes it
/// has sent and the bytes it has received.
pub proof fn law_interfaces_are_the_rows(b: Seq<u8>, n: int)
    ensures
        ifaces_in(b, n) == places(n, 860).filter(
            |at: int| procs::le32(b, at + 516) != 24,
        ).map_values(
            |at: int|
                (
                    text::decimal(procs::le32(b, at + 512) as nat),
                    procs::le32(b, at + 556) as u64,
                    procs::le32(b, at + 552) as u64,
                ),
        ),
    decreases n,
{
    reveal(Seq::filter);
    let keep = |at: int| procs::le32(b, at + 516) != 24;
    let f = |at: int|
        (
            text::decimal(procs::le32(b, at + 512) as nat),
            procs::le32(b, at + 556) as u64,
            procs::le32(b, at + 552) as u64,
        );
    let s = places(n, 860);
    if n > 0 {
        law_interfaces_are_the_rows(b, n - 1);
        let d = places(n - 1, 860);
        assert(s.drop_last() =~= d);
        assert(s.last() == 4 + (n - 1) * 860);
        if keep(s.last()) {
            assert(s.filter(keep).map_values(f) =~= d.filter(keep).map_values(f).push(f(s.last())));
        }
    } else {
        assert(s.filter(keep).map_values(f) =~= Seq::empty());
    }
}

/// The connections are the established ones of the two tables, each with the address and the port
/// of the other end and with its process.
pub proof fn law_connections_are_the_established_rows(b: Seq<u8>, n: int)
    ensures
        conns4_in(b, n) == places(n, 24).filter(|at: int| procs::le32(b, at) == 5).map_values(
            |at: int|
                (
                    ipv4_text(procs::le32(b, at + 12) as u32) + seq![':'] + text::decimal(
                        port_of(procs::le32(b, at + 16) as u32),
                    ),
                    procs::le32(b, at + 20) as u32,
                ),
        ),
        conns6_in(b, n) == places(n, 56).filter(|at: int| procs::le32(b, at) == 5).map_values(
            |at: int|
                (
                    seq!['['] + ipv6_groups(b.subrange(at + 28, at + 44), 8) + seq![']', ':']
                        + text::decimal(port_of(procs::le32(b, at + 48) as u32)),
                    procs::le32(b, at + 52) as u32,
                ),
        ),
    decreases n,
{
    reveal(Seq::filter);
    let keep = |at: int| procs::le32(b, at) == 5;
    let f = |at: int|
        (
            ipv4_text(procs::le32(b, at + 12) as u32) + seq![':'] + text::decimal(
                port_of(procs::le32(b, at + 16) as u32),
            ),
            procs::le32(b, at + 20) as u32,
        );
    let g = |at: int|
        (
            seq!['['] + ipv6_groups(b.subrange(at + 28, at + 44), 8) + seq![']', ':']
                + text::decimal(port_of(procs::le32(b, at + 48) as u32)),
            procs::le32(b, at + 52) as u32,
        );
    let s = places(n, 24);
    let t = places(n, 56);
    if n > 0 {
        law_connections_are_the_established_rows(b, n - 1);
        let d = places(n - 1, 24);
        let e = places(n - 1, 56);
        assert(s.drop_last() =~= d);
        assert(t.drop_last() =~= e);
        assert(s.last() == 4 + (n - 1) * 24);
        assert(t.last() == 4 + (n - 1) * 56);
        if keep(s.last()) {
            assert(s.filter(keep).map_values(f) =~= d.filter(keep).map_values(f).push(f(s.last())));
        }
        if keep(t.last()) {
            assert(t.filter(keep).map_values(g) =~= e.filter(keep).map_values(g).push(g(t.last())));
        }
    } else {
        assert(s.filter(keep).map_values(f) =~= Seq::empty());
        assert(t.filter(keep).map_values(g) =~= Seq::empty());
    }
}

} // verus!
