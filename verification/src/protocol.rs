//! Store semantics of the protocol: what each command does to the mapping
//! and what reply it earns. `store_after` and `reply_of` are the
//! specification; `apply` and `handle_request` are the executable side,
//! proved to follow them exactly. The laws at the end state the protocol's
//! guarantees over the specification alone.

use crate::num::{dec_str, format_i64, lemma_parse_dec_str, parse_i64, parse_int_spec};
use crate::parse::{lossy_of, parse, request_cmd, Cmd, CmdModel};
use crate::store::{clone_bytes, Store};
use vstd::prelude::*;

verus! {

/// The reply to a request that names no value: a bare newline.
pub open spec fn newline_reply() -> Seq<u8> {
    seq![10u8]
}

/// "OK" and newline.
pub open spec fn ok_reply() -> Seq<u8> {
    seq![79u8, 75u8, 10u8]
}

/// "0" and newline: DEL of an absent key.
pub open spec fn zero_reply() -> Seq<u8> {
    seq![48u8, 10u8]
}

/// "1" and newline: DEL of a present key.
pub open spec fn one_reply() -> Seq<u8> {
    seq![49u8, 10u8]
}

/// "ERR value is not an integer or out of range" and newline: INCR of a
/// value that does not denote an incrementable 64-bit integer.
pub open spec fn err_reply() -> Seq<u8> {
    seq![
        69u8, 82u8, 82u8, 32u8, 118u8, 97u8, 108u8, 117u8, 101u8, 32u8, 105u8, 115u8, 32u8, 110u8,
        111u8, 116u8, 32u8, 97u8, 110u8, 32u8, 105u8, 110u8, 116u8, 101u8, 103u8, 101u8, 114u8,
        32u8, 111u8, 114u8, 32u8, 111u8, 117u8, 116u8, 32u8, 111u8, 102u8, 32u8, 114u8, 97u8,
        110u8, 103u8, 101u8, 10u8,
    ]
}

/// The mapping after a command is applied. SET upserts; DEL removes; INCR
/// of an absent key stores the rendering of 1, of a stored in-range integer
/// below the 64-bit maximum the rendering of its successor, and of anything
/// else (non-numeric text, an out-of-range literal, or the maximum itself,
/// whose successor has no 64-bit form) changes nothing. The other commands
/// never touch the store.
pub open spec fn store_after(m: Map<Seq<u8>, Seq<u8>>, c: CmdModel) -> Map<Seq<u8>, Seq<u8>> {
    match c {
        CmdModel::Put { key, value } => m.insert(key, value),
        CmdModel::Del { key } => m.remove(key),
        CmdModel::Incr { key } => {
            if !m.dom().contains(key) {
                m.insert(key, dec_str(1))
            } else {
                match parse_int_spec(m[key]) {
                    Option::Some(n) => if n < i64::MAX {
                        m.insert(key, dec_str(n + 1))
                    } else {
                        m
                    },
                    Option::None => m,
                }
            }
        },
        _ => m,
    }
}

/// The reply a command earns against a given mapping. QUIT earns none: the
/// connection is torn down instead.
pub open spec fn reply_of(m: Map<Seq<u8>, Seq<u8>>, c: CmdModel) -> Seq<u8> {
    match c {
        CmdModel::Get { key } => if m.dom().contains(key) {
            m[key] + newline_reply()
        } else {
            newline_reply()
        },
        CmdModel::Put { key, value } => ok_reply(),
        CmdModel::Del { key } => if m.dom().contains(key) {
            one_reply()
        } else {
            zero_reply()
        },
        CmdModel::Incr { key } => {
            if !m.dom().contains(key) {
                dec_str(1) + newline_reply()
            } else {
                match parse_int_spec(m[key]) {
                    Option::Some(n) => if n < i64::MAX {
                        dec_str(n + 1) + newline_reply()
                    } else {
                        err_reply()
                    },
                    Option::None => err_reply(),
                }
            }
        },
        CmdModel::Quit => Seq::empty(),
        CmdModel::Other => ok_reply(),
        CmdModel::Malformed => newline_reply(),
    }
}

/// Whether the connection stays open after a command: always, except QUIT.
pub open spec fn keeps(c: CmdModel) -> bool {
    !(c is Quit)
}

fn reply_newline() -> (r: Vec<u8>)
    ensures
        r@ == newline_reply(),
{
    let mut r: Vec<u8> = Vec::new();
    r.push(10);
    proof {
        assert(r@ =~= newline_reply());
    }
    r
}

fn reply_ok() -> (r: Vec<u8>)
    ensures
        r@ == ok_reply(),
{
    let mut r: Vec<u8> = Vec::new();
    r.push(79);
    r.push(75);
    r.push(10);
    proof {
        assert(r@ =~= ok_reply());
    }
    r
}

fn reply_err() -> (r: Vec<u8>)
    ensures
        r@ == err_reply(),
{
    let r: Vec<u8> = vec![
        69u8, 82u8, 82u8, 32u8, 118u8, 97u8, 108u8, 117u8, 101u8, 32u8, 105u8, 115u8, 32u8, 110u8,
        111u8, 116u8, 32u8, 97u8, 110u8, 32u8, 105u8, 110u8, 116u8, 101u8, 103u8, 101u8, 114u8,
        32u8, 111u8, 114u8, 32u8, 111u8, 117u8, 116u8, 32u8, 111u8, 102u8, 32u8, 114u8, 97u8,
        110u8, 103u8, 101u8, 10u8,
    ];
    proof {
        assert(r@ =~= err_reply());
    }
    r
}

/// The stored value and the reply body for an increment's result.
fn render_value(n: i64) -> (r: (Vec<u8>, Vec<u8>))
    requires
        n > i64::MIN,
    ensures
        r.0@ == dec_str(n as int),
        r.1@ == dec_str(n as int) + newline_reply(),
{
    let stored = format_i64(n);
    let mut resp = clone_bytes(&stored);
    resp.push(10);
    proof {
        assert(resp@ =~= dec_str(n as int) + newline_reply());
    }
    (stored, resp)
}

/// Applies one command to the store: the new mapping is `store_after`, the
/// reply is `reply_of`, and the flag says whether the connection stays open.
pub fn apply(store: &mut Store, c: &Cmd) -> (r: (Vec<u8>, bool))
    requires
        old(store).wf(),
    ensures
        final(store).wf(),
        final(store)@ == store_after(old(store)@, c@),
        r.0@ == reply_of(old(store)@, c@),
        r.1 == keeps(c@),
{
    match c {
        Cmd::Get { key } => {
            match store.get(key.as_slice()) {
                Option::Some(v) => {
                    let mut resp = v;
                    resp.push(10);
                    proof {
                        assert(resp@ =~= store@[key@] + newline_reply());
                    }
                    (resp, true)
                },
                Option::None => (reply_newline(), true),
            }
        },
        Cmd::Put { key, value } => {
            store.set(clone_bytes(key), clone_bytes(value));
            (reply_ok(), true)
        },
        Cmd::Del { key } => {
            let was_there = store.del(key.as_slice());
            if was_there {
                let mut resp: Vec<u8> = Vec::new();
                resp.push(49);
                resp.push(10);
                proof {
                    assert(resp@ =~= one_reply());
                }
                (resp, true)
            } else {
                let mut resp: Vec<u8> = Vec::new();
                resp.push(48);
                resp.push(10);
                proof {
                    assert(resp@ =~= zero_reply());
                }
                (resp, true)
            }
        },
        Cmd::Incr { key } => {
            match store.get(key.as_slice()) {
                Option::None => {
                    proof {
                        assert(dec_str(1) =~= seq![49u8]);
                    }
                    let (stored, resp) = render_value(1);
                    store.set(clone_bytes(key), stored);
                    (resp, true)
                },
                Option::Some(v) => {
                    match parse_i64(v.as_slice()) {
                        Option::Some(n) => {
                            if n < i64::MAX {
                                let (stored, resp) = render_value(n + 1);
                                store.set(clone_bytes(key), stored);
                                (resp, true)
                            } else {
                                (reply_err(), true)
                            }
                        },
                        Option::None => (reply_err(), true),
                    }
                },
            }
        },
        Cmd::Quit => (Vec::new(), false),
        Cmd::Other => (reply_ok(), true),
        Cmd::Malformed => (reply_newline(), true),
    }
}

/// Serves one raw request as read from the wire: decodes it, applies the
/// one command its text denotes, and hands back the reply to send — or
/// nothing, when the command asks for the connection to be closed.
pub fn handle_request(store: &mut Store, buf: &[u8]) -> (r: Option<Vec<u8>>)
    requires
        old(store).wf(),
    ensures
        final(store).wf(),
        final(store)@ == store_after(old(store)@, request_cmd(lossy_of(buf@))),
        r matches Some(resp) ==> keeps(request_cmd(lossy_of(buf@))) && resp@ == reply_of(
            old(store)@,
            request_cmd(lossy_of(buf@)),
        ),
        r is None ==> !keeps(request_cmd(lossy_of(buf@))),
{
    let c = parse(buf);
    let (resp, keep) = apply(store, &c);
    if keep {
        Some(resp)
    } else {
        None
    }
}

/// GET of a key never stored answers the bare newline.
pub proof fn lemma_get_absent(m: Map<Seq<u8>, Seq<u8>>, k: Seq<u8>)
    requires
        !m.dom().contains(k),
    ensures
        reply_of(m, CmdModel::Get { key: k }) == newline_reply(),
        store_after(m, CmdModel::Get { key: k }) == m,
{
}

/// SET then GET: after a SET, GET of the same key answers exactly the value
/// just set, and no other key has moved.
pub proof fn lemma_set_then_get(m: Map<Seq<u8>, Seq<u8>>, k: Seq<u8>, v: Seq<u8>)
    ensures
        reply_of(store_after(m, CmdModel::Put { key: k, value: v }), CmdModel::Get { key: k }) == v
            + newline_reply(),
        forall|k2: Seq<u8>|
            k2 != k && m.dom().contains(k2) ==> store_after(
                m,
                CmdModel::Put { key: k, value: v },
            )[k2] == m[k2],
{
}

/// DEL answers "1" exactly when the key stood in the store just before, and
/// "0" otherwise; afterwards the key is gone, so GET of it answers the bare
/// newline.
pub proof fn lemma_del_then_get(m: Map<Seq<u8>, Seq<u8>>, k: Seq<u8>)
    ensures
        m.dom().contains(k) ==> reply_of(m, CmdModel::Del { key: k }) == one_reply(),
        !m.dom().contains(k) ==> reply_of(m, CmdModel::Del { key: k }) == zero_reply(),
        !store_after(m, CmdModel::Del { key: k }).dom().contains(k),
        reply_of(store_after(m, CmdModel::Del { key: k }), CmdModel::Get { key: k })
            == newline_reply(),
{
}

/// INCR of an absent key stores the rendering of 1 and answers it.
pub proof fn lemma_incr_absent(m: Map<Seq<u8>, Seq<u8>>, k: Seq<u8>)
    requires
        !m.dom().contains(k),
    ensures
        store_after(m, CmdModel::Incr { key: k })[k] == dec_str(1),
        store_after(m, CmdModel::Incr { key: k }).dom().contains(k),
        reply_of(m, CmdModel::Incr { key: k }) == dec_str(1) + newline_reply(),
{
}

/// INCR of a key holding the canonical rendering of `n` stores the
/// canonical rendering of `n + 1` and answers it.
pub proof fn lemma_incr_step(m: Map<Seq<u8>, Seq<u8>>, k: Seq<u8>, n: int)
    requires
        m.dom().contains(k),
        m[k] == dec_str(n),
        i64::MIN <= n < i64::MAX,
    ensures
        store_after(m, CmdModel::Incr { key: k })[k] == dec_str(n + 1),
        store_after(m, CmdModel::Incr { key: k }).dom().contains(k),
        reply_of(m, CmdModel::Incr { key: k }) == dec_str(n + 1) + newline_reply(),
{
    lemma_parse_dec_str(n);
}

/// The mapping after `j` INCRs of one key.
pub open spec fn incr_n(m: Map<Seq<u8>, Seq<u8>>, k: Seq<u8>, j: nat) -> Map<Seq<u8>, Seq<u8>>
    decreases j,
{
    if j == 0 {
        m
    } else {
        store_after(incr_n(m, k, (j - 1) as nat), CmdModel::Incr { key: k })
    }
}

/// Repeated INCR of a key that started absent counts: after `j` calls the
/// key holds the canonical rendering of `j`, and the `j`-th call answered
/// exactly that.
pub proof fn lemma_incr_repeat(m: Map<Seq<u8>, Seq<u8>>, k: Seq<u8>, j: nat)
    requires
        !m.dom().contains(k),
        1 <= j <= i64::MAX,
    ensures
        incr_n(m, k, j).dom().contains(k),
        incr_n(m, k, j)[k] == dec_str(j as int),
        reply_of(incr_n(m, k, (j - 1) as nat), CmdModel::Incr { key: k }) == dec_str(j as int)
            + newline_reply(),
    decreases j,
{
    if j == 1 {
        lemma_incr_absent(m, k);
        assert(incr_n(m, k, 0) == m);
        assert(incr_n(m, k, 1) == store_after(m, CmdModel::Incr { key: k }));
    } else {
        lemma_incr_repeat(m, k, (j - 1) as nat);
        lemma_incr_step(incr_n(m, k, (j - 1) as nat), k, j as int - 1);
        assert(incr_n(m, k, j) == store_after(
            incr_n(m, k, (j - 1) as nat),
            CmdModel::Incr { key: k },
        ));
    }
}

/// INCR of a key holding bytes that denote no in-range integer changes
/// nothing and answers the fixed error line.
pub proof fn lemma_incr_non_numeric(m: Map<Seq<u8>, Seq<u8>>, k: Seq<u8>)
    requires
        m.dom().contains(k),
        parse_int_spec(m[k]) is None,
    ensures
        store_after(m, CmdModel::Incr { key: k }) == m,
        reply_of(m, CmdModel::Incr { key: k }) == err_reply(),
{
}

/// QUIT touches nothing and is the one command after which the connection
/// does not stay open.
pub proof fn lemma_quit(m: Map<Seq<u8>, Seq<u8>>, c: CmdModel)
    ensures
        store_after(m, CmdModel::Quit) == m,
        !keeps(CmdModel::Quit),
        c is Quit || keeps(c),
{
}

} // verus!
