//! The command parser: one read buffer becomes one structured command.
//! The raw bytes are split on ASCII whitespace; the first token selects the
//! verb (case-sensitive), the remaining tokens are its arguments. A known
//! verb with too few arguments is malformed; any other first token — or an
//! empty request — is the permissive no-op command.

use crate::store::clone_bytes;
use vstd::prelude::*;

verus! {

/// The bytes the protocol treats as separators: ASCII whitespace.
pub open spec fn is_ws(b: u8) -> bool {
    b == 32 || b == 9 || b == 10 || b == 12 || b == 13
}

/// Executable test for a separator byte.
pub fn byte_is_ws(b: u8) -> (r: bool)
    ensures
        r == is_ws(b),
{
    b == 32 || b == 9 || b == 10 || b == 12 || b == 13
}

/// One splitting step: finished tokens so far and the token being built,
/// advanced by one byte.
pub open spec fn tok_step(acc: (Seq<Seq<u8>>, Seq<u8>), b: u8) -> (Seq<Seq<u8>>, Seq<u8>) {
    if is_ws(b) {
        if acc.1.len() == 0 {
            acc
        } else {
            (acc.0.push(acc.1), Seq::empty())
        }
    } else {
        (acc.0, acc.1.push(b))
    }
}

/// The splitting state after consuming all of `s`.
pub open spec fn tok_state(s: Seq<u8>) -> (Seq<Seq<u8>>, Seq<u8>)
    decreases s.len(),
{
    if s.len() == 0 {
        (Seq::empty(), Seq::empty())
    } else {
        tok_step(tok_state(s.drop_last()), s.last())
    }
}

/// The tokens of a request: maximal runs of non-separator bytes, in order.
/// Every token is non-empty.
pub open spec fn tokens_of(s: Seq<u8>) -> Seq<Seq<u8>> {
    let st = tok_state(s);
    if st.1.len() == 0 {
        st.0
    } else {
        st.0.push(st.1)
    }
}

/// A run free of separator bytes.
pub open spec fn ws_free(t: Seq<u8>) -> bool {
    forall|j: int| 0 <= j < t.len() ==> !is_ws(t[j])
}

spec fn state_ok(st: (Seq<Seq<u8>>, Seq<u8>)) -> bool {
    &&& forall|i: int| 0 <= i < st.0.len() ==> (#[trigger] st.0[i]).len() > 0 && ws_free(st.0[i])
    &&& ws_free(st.1)
}

proof fn lemma_tok_state_ok(s: Seq<u8>)
    ensures
        state_ok(tok_state(s)),
    decreases s.len(),
{
    if s.len() > 0 {
        lemma_tok_state_ok(s.drop_last());
        let st = tok_state(s.drop_last());
        let b = s.last();
        if is_ws(b) && st.1.len() > 0 {
            assert(forall|i: int|
                0 <= i < st.0.len() ==> #[trigger] st.0.push(st.1)[i] == st.0[i]);
            assert(st.0.push(st.1)[st.0.len() as int] == st.1);
        }
        if !is_ws(b) {
            assert(forall|j: int| 0 <= j < st.1.len() ==> st.1.push(b)[j] == st.1[j]);
            assert(st.1.push(b)[st.1.len() as int] == b);
        }
    }
}

/// Every token a request splits into — so every key and every value the
/// store ever sees — is non-empty and free of separator bytes.
pub proof fn lemma_tokens_wellformed(s: Seq<u8>)
    ensures
        forall|i: int|
            0 <= i < tokens_of(s).len() ==> (#[trigger] tokens_of(s)[i]).len() > 0 && ws_free(
                tokens_of(s)[i],
            ),
{
    lemma_tok_state_ok(s);
    let st = tok_state(s);
    if st.1.len() > 0 {
        assert(forall|i: int| 0 <= i < st.0.len() ==> #[trigger] st.0.push(st.1)[i] == st.0[i]);
        assert(st.0.push(st.1)[st.0.len() as int] == st.1);
    }
}

/// The byte strings a vector of tokens holds.
pub open spec fn views_of(ts: Seq<Vec<u8>>) -> Seq<Seq<u8>> {
    ts.map_values(|t: Vec<u8>| t@)
}

/// Splits a request into its tokens, per `tokens_of`.
pub fn tokenize(buf: &[u8]) -> (r: Vec<Vec<u8>>)
    ensures
        views_of(r@) == tokens_of(buf@),
{
    let mut toks: Vec<Vec<u8>> = Vec::new();
    let mut cur: Vec<u8> = Vec::new();
    let mut i: usize = 0;
    while i < buf.len()
        invariant
            0 <= i <= buf@.len(),
            views_of(toks@) == tok_state(buf@.take(i as int)).0,
            cur@ == tok_state(buf@.take(i as int)).1,
        decreases buf@.len() - i,
    {
        proof {
            assert(buf@.take(i as int + 1).drop_last() =~= buf@.take(i as int));
            assert(buf@.take(i as int + 1).last() == buf@[i as int]);
        }
        let ghost toks0 = toks@;
        let ghost cur0 = cur@;
        let b = buf[i];
        if byte_is_ws(b) {
            if cur.len() > 0 {
                toks.push(cur);
                cur = Vec::new();
                proof {
                    assert(views_of(toks@) =~= views_of(toks0).push(cur0));
                }
            }
        } else {
            cur.push(b);
        }
        i += 1;
    }
    proof {
        assert(buf@.take(buf@.len() as int) =~= buf@);
    }
    if cur.len() > 0 {
        let ghost toks0 = toks@;
        let ghost cur0 = cur@;
        toks.push(cur);
        proof {
            assert(views_of(toks@) =~= views_of(toks0).push(cur0));
        }
    }
    toks
}

/// What decoding a byte buffer as UTF-8 with lossy replacement yields, as
/// bytes again: a function of the input bytes alone.
pub uninterp spec fn lossy_of(s: Seq<u8>) -> Seq<u8>;

/// Relies on String::from_utf8_lossy: valid UTF-8 passes through unchanged
/// and every invalid sequence becomes the replacement character, so the
/// result depends on the bytes alone and decoding never fails a request.
#[verifier::external_body]
fn decode_lossy(buf: &[u8]) -> (r: Vec<u8>)
    ensures
        r@ == lossy_of(buf@),
{
    String::from_utf8_lossy(buf).into_owned().into_bytes()
}

/// A decoded request, holding its arguments.
pub enum Cmd {
    Get { key: Vec<u8> },
    Put { key: Vec<u8>, value: Vec<u8> },
    Del { key: Vec<u8> },
    Incr { key: Vec<u8> },
    Quit,
    Other,
    Malformed,
}

/// The mathematical shape of a decoded request.
pub enum CmdModel {
    Get { key: Seq<u8> },
    Put { key: Seq<u8>, value: Seq<u8> },
    Del { key: Seq<u8> },
    Incr { key: Seq<u8> },
    Quit,
    Other,
    Malformed,
}

impl View for Cmd {
    type V = CmdModel;

    open spec fn view(&self) -> CmdModel {
        match self {
            Cmd::Get { key } => CmdModel::Get { key: key@ },
            Cmd::Put { key, value } => CmdModel::Put { key: key@, value: value@ },
            Cmd::Del { key } => CmdModel::Del { key: key@ },
            Cmd::Incr { key } => CmdModel::Incr { key: key@ },
            Cmd::Quit => CmdModel::Quit,
            Cmd::Other => CmdModel::Other,
            Cmd::Malformed => CmdModel::Malformed,
        }
    }
}

pub open spec fn get_verb() -> Seq<u8> {
    seq![71u8, 69u8, 84u8]
}

pub open spec fn set_verb() -> Seq<u8> {
    seq![83u8, 69u8, 84u8]
}

pub open spec fn del_verb() -> Seq<u8> {
    seq![68u8, 69u8, 76u8]
}

pub open spec fn incr_verb() -> Seq<u8> {
    seq![73u8, 78u8, 67u8, 82u8]
}

pub open spec fn quit_verb() -> Seq<u8> {
    seq![81u8, 85u8, 73u8, 84u8]
}

/// Which command a token list denotes. GET, DEL and INCR ask for at least a
/// key; SET for at least a key and a value; extra tokens are ignored. QUIT
/// stands whatever follows it.
pub open spec fn cmd_of(toks: Seq<Seq<u8>>) -> CmdModel {
    if toks.len() == 0 {
        CmdModel::Other
    } else if toks[0] == get_verb() {
        if toks.len() >= 2 {
            CmdModel::Get { key: toks[1] }
        } else {
            CmdModel::Malformed
        }
    } else if toks[0] == set_verb() {
        if toks.len() >= 3 {
            CmdModel::Put { key: toks[1], value: toks[2] }
        } else {
            CmdModel::Malformed
        }
    } else if toks[0] == del_verb() {
        if toks.len() >= 2 {
            CmdModel::Del { key: toks[1] }
        } else {
            CmdModel::Malformed
        }
    } else if toks[0] == incr_verb() {
        if toks.len() >= 2 {
            CmdModel::Incr { key: toks[1] }
        } else {
            CmdModel::Malformed
        }
    } else if toks[0] == quit_verb() {
        CmdModel::Quit
    } else {
        CmdModel::Other
    }
}

/// The command one raw request denotes.
pub open spec fn request_cmd(s: Seq<u8>) -> CmdModel {
    cmd_of(tokens_of(s))
}

fn is_verb_get(t: &Vec<u8>) -> (r: bool)
    ensures
        r == (t@ == get_verb()),
{
    if t.len() == 3 && t[0] == 71 && t[1] == 69 && t[2] == 84 {
        proof {
            assert(t@ =~= get_verb());
        }
        true
    } else {
        false
    }
}

fn is_verb_set(t: &Vec<u8>) -> (r: bool)
    ensures
        r == (t@ == set_verb()),
{
    if t.len() == 3 && t[0] == 83 && t[1] == 69 && t[2] == 84 {
        proof {
            assert(t@ =~= set_verb());
        }
        true
    } else {
        false
    }
}

fn is_verb_del(t: &Vec<u8>) -> (r: bool)
    ensures
        r == (t@ == del_verb()),
{
    if t.len() == 3 && t[0] == 68 && t[1] == 69 && t[2] == 76 {
        proof {
            assert(t@ =~= del_verb());
        }
        true
    } else {
        false
    }
}

fn is_verb_incr(t: &Vec<u8>) -> (r: bool)
    ensures
        r == (t@ == incr_verb()),
{
    if t.len() == 4 && t[0] == 73 && t[1] == 78 && t[2] == 67 && t[3] == 82 {
        proof {
            assert(t@ =~= incr_verb());
        }
        true
    } else {
        false
    }
}

fn is_verb_quit(t: &Vec<u8>) -> (r: bool)
    ensures
        r == (t@ == quit_verb()),
{
    if t.len() == 4 && t[0] == 81 && t[1] == 85 && t[2] == 73 && t[3] == 84 {
        proof {
            assert(t@ =~= quit_verb());
        }
        true
    } else {
        false
    }
}

/// Decodes one raw request into the command it denotes: the bytes are
/// decoded as UTF-8 with lossy replacement — a request never fails for its
/// encoding — and the text is split into tokens.
pub fn parse(buf: &[u8]) -> (c: Cmd)
    ensures
        c@ == request_cmd(lossy_of(buf@)),
{
    let decoded = decode_lossy(buf);
    let toks = tokenize(decoded.as_slice());
    let ghost tv = tokens_of(lossy_of(buf@));
    proof {
        assert(tv.len() == toks@.len());
        assert(forall|i: int| 0 <= i < toks@.len() ==> tv[i] == (#[trigger] toks@[i])@);
    }
    if toks.len() == 0 {
        return Cmd::Other;
    }
    if is_verb_get(&toks[0]) {
        if toks.len() >= 2 {
            Cmd::Get { key: clone_bytes(&toks[1]) }
        } else {
            Cmd::Malformed
        }
    } else if is_verb_set(&toks[0]) {
        if toks.len() >= 3 {
            Cmd::Put { key: clone_bytes(&toks[1]), value: clone_bytes(&toks[2]) }
        } else {
            Cmd::Malformed
        }
    } else if is_verb_del(&toks[0]) {
        if toks.len() >= 2 {
            Cmd::Del { key: clone_bytes(&toks[1]) }
        } else {
            Cmd::Malformed
        }
    } else if is_verb_incr(&toks[0]) {
        if toks.len() >= 2 {
            Cmd::Incr { key: clone_bytes(&toks[1]) }
        } else {
            Cmd::Malformed
        }
    } else if is_verb_quit(&toks[0]) {
        Cmd::Quit
    } else {
        Cmd::Other
    }
}

} // verus!
