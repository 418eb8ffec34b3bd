//! Textual interchange form: each item serializes as a `0x`-prefixed
//! lower-case hex string of its exact binary encoding; a digest serializes
//! as an object holding the ordered list of those strings.

use vstd::prelude::*;
use vstd::string::StringExecFns;

use crate::digest::{models_wf, Digest};
use crate::item::{model_enc, model_wf, DigestItem, ItemModel};

verus! {

/// The lower-case character of one hex digit.
pub open spec fn hex_digit(n: int) -> char {
    if n == 0 { '0' } else if n == 1 { '1' } else if n == 2 { '2' } else if n == 3 { '3' }
    else if n == 4 { '4' } else if n == 5 { '5' } else if n == 6 { '6' } else if n == 7 { '7' }
    else if n == 8 { '8' } else if n == 9 { '9' } else if n == 10 { 'a' } else if n == 11 { 'b' }
    else if n == 12 { 'c' } else if n == 13 { 'd' } else if n == 14 { 'e' } else { 'f' }
}

/// Two hex characters per byte, high digit first.
pub open spec fn hex_chars(bytes: Seq<u8>) -> Seq<char>
    decreases bytes.len(),
{
    if bytes.len() == 0 {
        Seq::<char>::empty()
    } else {
        seq![hex_digit(bytes[0] as int / 16), hex_digit(bytes[0] as int % 16)]
            + hex_chars(bytes.subrange(1, bytes.len() as int))
    }
}

/// The `0x`-prefixed hex form of a byte string.
pub open spec fn hex_str(bytes: Seq<u8>) -> Seq<char> {
    seq!['0', 'x'] + hex_chars(bytes)
}

proof fn lemma_hex_chars_push(s: Seq<u8>, b: u8)
    ensures
        hex_chars(s.push(b)) == hex_chars(s)
            + seq![hex_digit(b as int / 16), hex_digit(b as int % 16)],
    decreases s.len(),
{
    if s.len() == 0 {
        assert(s.push(b).subrange(1, 1) =~= Seq::<u8>::empty());
        assert(s.push(b)[0] == b);
        assert(hex_chars(s.push(b)) == seq![hex_digit(b as int / 16), hex_digit(b as int % 16)]
            + hex_chars(Seq::<u8>::empty()));
        assert(hex_chars(s.push(b)) =~= hex_chars(s)
            + seq![hex_digit(b as int / 16), hex_digit(b as int % 16)]);
    } else {
        assert(s.push(b).subrange(1, s.len() as int + 1) =~= s.subrange(1, s.len() as int).push(b));
        lemma_hex_chars_push(s.subrange(1, s.len() as int), b);
        assert(hex_chars(s.push(b)) =~= hex_chars(s)
            + seq![hex_digit(b as int / 16), hex_digit(b as int % 16)]);
    }
}

/// Appends the character of one hex digit.
fn push_hex_digit(out: &mut String, n: u8)
    requires
        n < 16,
    ensures
        final(out)@ == old(out)@.push(hex_digit(n as int)),
{
    if n == 0 { out.append("0"); proof { reveal_strlit("0"); } }
    else if n == 1 { out.append("1"); proof { reveal_strlit("1"); } }
    else if n == 2 { out.append("2"); proof { reveal_strlit("2"); } }
    else if n == 3 { out.append("3"); proof { reveal_strlit("3"); } }
    else if n == 4 { out.append("4"); proof { reveal_strlit("4"); } }
    else if n == 5 { out.append("5"); proof { reveal_strlit("5"); } }
    else if n == 6 { out.append("6"); proof { reveal_strlit("6"); } }
    else if n == 7 { out.append("7"); proof { reveal_strlit("7"); } }
    else if n == 8 { out.append("8"); proof { reveal_strlit("8"); } }
    else if n == 9 { out.append("9"); proof { reveal_strlit("9"); } }
    else if n == 10 { out.append("a"); proof { reveal_strlit("a"); } }
    else if n == 11 { out.append("b"); proof { reveal_strlit("b"); } }
    else if n == 12 { out.append("c"); proof { reveal_strlit("c"); } }
    else if n == 13 { out.append("d"); proof { reveal_strlit("d"); } }
    else if n == 14 { out.append("e"); proof { reveal_strlit("e"); } }
    else { out.append("f"); proof { reveal_strlit("f"); } }
    proof {
        assert(out@ =~= old(out)@.push(hex_digit(n as int)));
    }
}

/// The `0x`-prefixed lower-case hex string of `bytes`.
pub fn to_hex_string(bytes: &Vec<u8>) -> (r: String)
    ensures
        r@ == hex_str(bytes@),
{
    let mut out = String::new();
    out.append("0x");
    proof {
        reveal_strlit("0x");
        assert(out@ =~= seq!['0', 'x'] + hex_chars(bytes@.subrange(0, 0)));
    }
    let mut i: usize = 0;
    while i < bytes.len()
        invariant
            i <= bytes@.len(),
            out@ == seq!['0', 'x'] + hex_chars(bytes@.subrange(0, i as int)),
        decreases bytes@.len() - i,
    {
        let b = bytes[i];
        push_hex_digit(&mut out, b / 16);
        push_hex_digit(&mut out, b % 16);
        i = i + 1;
        proof {
            assert(bytes@.subrange(0, i as int) =~= bytes@.subrange(0, i - 1).push(b));
            lemma_hex_chars_push(bytes@.subrange(0, i - 1), b);
            assert(out@ =~= seq!['0', 'x'] + hex_chars(bytes@.subrange(0, i as int)));
        }
    }
    proof {
        assert(bytes@.subrange(0, bytes@.len() as int) =~= bytes@);
    }
    out
}

/// The quoted hex forms of the logs, comma-separated, in order.
pub open spec fn logs_json(s: Seq<ItemModel>) -> Seq<char>
    decreases s.len(),
{
    if s.len() == 0 {
        Seq::<char>::empty()
    } else if s.len() == 1 {
        seq!['"'] + hex_str(model_enc(s[0])) + seq!['"']
    } else {
        seq!['"'] + hex_str(model_enc(s[0])) + seq!['"', ',']
            + logs_json(s.subrange(1, s.len() as int))
    }
}

/// The full JSON interchange form of a digest: an object with its ordered
/// list of logs, each a quoted hex string.
pub open spec fn digest_json(s: Seq<ItemModel>) -> Seq<char> {
    seq!['{', '"', 'l', 'o', 'g', 's', '"', ':', '['] + logs_json(s) + seq![']', '}']
}

proof fn lemma_logs_json_push(s: Seq<ItemModel>, m: ItemModel)
    ensures
        logs_json(s.push(m)) == logs_json(s)
            + (if s.len() == 0 { Seq::<char>::empty() } else { seq![','] })
            + seq!['"'] + hex_str(model_enc(m)) + seq!['"'],
    decreases s.len(),
{
    if s.len() == 0 {
        assert(s.push(m)[0] == m);
        assert(logs_json(s.push(m)) =~= logs_json(s) + Seq::<char>::empty()
            + seq!['"'] + hex_str(model_enc(m)) + seq!['"']);
    } else {
        assert(s.push(m).subrange(1, s.len() as int + 1) =~= s.subrange(1, s.len() as int).push(m));
        lemma_logs_json_push(s.subrange(1, s.len() as int), m);
        assert(logs_json(s.push(m)) =~= logs_json(s)
            + (if s.len() == 0 { Seq::<char>::empty() } else { seq![','] })
            + seq!['"'] + hex_str(model_enc(m)) + seq!['"']);
    }
}

impl DigestItem {
    /// The item's textual interchange form: the hex of its exact encoding.
    pub fn to_hex(&self) -> (r: String)
        requires
            model_wf(self@),
        ensures
            r@ == hex_str(model_enc(self@)),
    {
        let e = self.encode();
        to_hex_string(&e)
    }
}

impl Digest {
    /// The digest's textual interchange form: its logs as an ordered JSON
    /// list of quoted hex strings.
    #[verifier::loop_isolation(false)]
    pub fn to_json_string(&self) -> (r: String)
        requires
            models_wf(self@),
        ensures
            r@ == digest_json(self@),
    {
        let mut out = String::new();
        out.append("{\"logs\":[");
        proof {
            reveal_strlit("{\"logs\":[");
            assert(self@.subrange(0, 0) =~= Seq::<ItemModel>::empty());
            assert(out@ =~= seq!['{', '"', 'l', 'o', 'g', 's', '"', ':', '[']
                + logs_json(self@.subrange(0, 0)));
        }
        let mut i: usize = 0;
        while i < self.logs.len()
            invariant
                i <= self.logs@.len(),
                out@ == seq!['{', '"', 'l', 'o', 'g', 's', '"', ':', '[']
                    + logs_json(self@.subrange(0, i as int)),
            decreases self.logs@.len() - i,
        {
            if i > 0 {
                out.append(",");
                proof { reveal_strlit(","); }
            }
            out.append("\"");
            proof {
                assert(self@[i as int] == self.logs@[i as int]@);
                assert(model_wf(self@[i as int]));
            }
            let h = self.logs[i].to_hex();
            out.append(h.as_str());
            out.append("\"");
            i = i + 1;
            proof {
                reveal_strlit("\"");
                assert(self@.subrange(0, i as int) =~= self@.subrange(0, i - 1).push(self@[i - 1]));
                lemma_logs_json_push(self@.subrange(0, i - 1), self@[i - 1]);
                assert(out@ =~= seq!['{', '"', 'l', 'o', 'g', 's', '"', ':', '[']
                    + logs_json(self@.subrange(0, i as int)));
            }
        }
        out.append("]}");
        proof {
            reveal_strlit("]}");
            assert(self@.subrange(0, self@.len() as int) =~= self@);
            assert(out@ =~= digest_json(self@));
        }
        out
    }
}

} // verus!
