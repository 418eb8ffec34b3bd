//! The digest: an ordered log of digest items attached to a block header,
//! with its wire codec — a compact count of logs, then each item's encoding
//! in insertion order.

use vstd::prelude::*;

use crate::codec::{compact_enc, decode_compact_at, encode_compact_to, encode_raw_to, lemma_subrange_concat};
use crate::item::{lemma_model_enc_prefix_free, model_enc, model_wf, DigestItem, ItemModel};

verus! {

/// The models of a log sequence, in order.
pub open spec fn models_of(logs: Seq<DigestItem>) -> Seq<ItemModel> {
    logs.map_values(|it: DigestItem| it@)
}

/// Concatenated wire images of a sequence of items.
pub open spec fn items_enc(s: Seq<ItemModel>) -> Seq<u8>
    decreases s.len(),
{
    if s.len() == 0 {
        Seq::<u8>::empty()
    } else {
        model_enc(s[0]) + items_enc(s.subrange(1, s.len() as int))
    }
}

/// Every item of the sequence is well-formed.
pub open spec fn models_wf(s: Seq<ItemModel>) -> bool {
    forall|i: int| 0 <= i < s.len() ==> model_wf(#[trigger] s[i])
}

/// Wire image of a digest: compact log count, then the logs in order.
pub open spec fn digest_enc(s: Seq<ItemModel>) -> Seq<u8> {
    compact_enc(s.len() as u32) + items_enc(s)
}

pub proof fn lemma_items_enc_push(s: Seq<ItemModel>, m: ItemModel)
    ensures
        items_enc(s.push(m)) == items_enc(s) + model_enc(m),
    decreases s.len(),
{
    if s.len() == 0 {
        assert(s.push(m).subrange(1, 1) =~= Seq::<ItemModel>::empty());
        assert(s.push(m)[0] == m);
        assert(items_enc(s.push(m)) == model_enc(m) + items_enc(Seq::<ItemModel>::empty()));
        assert(items_enc(s.push(m)) =~= items_enc(s) + model_enc(m));
    } else {
        assert(s.push(m).subrange(1, s.len() as int + 1) =~= s.subrange(1, s.len() as int).push(m));
        lemma_items_enc_push(s.subrange(1, s.len() as int), m);
        assert(items_enc(s.push(m)) =~= items_enc(s) + model_enc(m));
    }
}

/// Two item sequences whose images open the same byte stream agree up to the
/// shorter one's length, because item encodings are prefix-free.
pub proof fn lemma_items_enc_align(x: Seq<ItemModel>, y: Seq<ItemModel>, s: Seq<u8>)
    requires
        models_wf(x),
        models_wf(y),
        x.len() <= y.len(),
        items_enc(x).len() <= s.len(),
        items_enc(y).len() <= s.len(),
        items_enc(x) == s.subrange(0, items_enc(x).len() as int),
        items_enc(y) == s.subrange(0, items_enc(y).len() as int),
    ensures
        x == y.subrange(0, x.len() as int),
        items_enc(x).len() + items_enc(y.subrange(x.len() as int, y.len() as int)).len()
            == items_enc(y).len(),
    decreases x.len(),
{
    if x.len() == 0 {
        assert(x =~= y.subrange(0, 0));
        assert(y.subrange(0, y.len() as int) =~= y);
    } else {
        let ex = items_enc(x);
        let ey = items_enc(y);
        let hx = model_enc(x[0]);
        let hy = model_enc(y[0]);
        // each head's image opens `s`
        assert(hx =~= s.subrange(0, hx.len() as int)) by {
            assert forall|i: int| 0 <= i < hx.len() implies hx[i] == s[i] by {
                assert(ex[i] == hx[i]);
                assert(ex[i] == s.subrange(0, ex.len() as int)[i]);
            }
        }
        assert(hy =~= s.subrange(0, hy.len() as int)) by {
            assert forall|i: int| 0 <= i < hy.len() implies hy[i] == s[i] by {
                assert(ey[i] == hy[i]);
                assert(ey[i] == s.subrange(0, ey.len() as int)[i]);
            }
        }
        lemma_model_enc_prefix_free(x[0], y[0], s);
        let xt = x.subrange(1, x.len() as int);
        let yt = y.subrange(1, y.len() as int);
        let st = s.subrange(hx.len() as int, s.len() as int);
        assert(items_enc(xt) =~= st.subrange(0, items_enc(xt).len() as int)) by {
            assert forall|i: int| 0 <= i < items_enc(xt).len() implies items_enc(xt)[i] == st[i] by {
                assert(ex[hx.len() + i] == items_enc(xt)[i]);
                assert(ex[hx.len() + i] == s.subrange(0, ex.len() as int)[hx.len() + i]);
            }
        }
        assert(items_enc(yt) =~= st.subrange(0, items_enc(yt).len() as int)) by {
            assert forall|i: int| 0 <= i < items_enc(yt).len() implies items_enc(yt)[i] == st[i] by {
                assert(ey[hy.len() + i] == items_enc(yt)[i]);
                assert(ey[hy.len() + i] == s.subrange(0, ey.len() as int)[hy.len() + i]);
            }
        }
        assert(models_wf(xt));
        assert(models_wf(yt));
        lemma_items_enc_align(xt, yt, st);
        assert(x =~= y.subrange(0, x.len() as int)) by {
            assert forall|i: int| 0 <= i < x.len() implies x[i] == y[i] by {
                if i > 0 {
                    assert(xt[i - 1] == yt.subrange(0, xt.len() as int)[i - 1]);
                }
            }
        }
        assert(yt.subrange(xt.len() as int, yt.len() as int)
            =~= y.subrange(x.len() as int, y.len() as int));
    }
}

/// Ordered log of digest items attached to a block header. Insertion order
/// is significant and preserved; duplicates are legal.
#[derive(PartialEq, Eq, Clone, Debug)]
pub struct Digest {
    /// The logs, in insertion order.
    pub logs: Vec<DigestItem>,
}

impl View for Digest {
    type V = Seq<ItemModel>;

    open spec fn view(&self) -> Seq<ItemModel> {
        models_of(self.logs@)
    }
}

impl Default for Digest {
    /// The empty digest.
    fn default() -> (r: Self)
        ensures
            r.logs@.len() == 0,
            r@ == Seq::<ItemModel>::empty(),
    {
        let d = Digest { logs: Vec::new() };
        proof {
            assert(d@ =~= Seq::<ItemModel>::empty());
        }
        d
    }
}

impl Digest {
    /// Order-preserving view of the full log sequence.
    pub fn logs(&self) -> (r: &[DigestItem])
        ensures
            r@ == self.logs@,
    {
        self.logs.as_slice()
    }

    /// Appends `item` at the end of the logs; no validation, no
    /// deduplication.
    pub fn push(&mut self, item: DigestItem)
        ensures
            final(self).logs@ == old(self).logs@.push(item),
            final(self)@ == old(self)@.push(item@),
    {
        let ghost it = item@;
        self.logs.push(item);
        proof {
            assert(self@ =~= old(self)@.push(it));
        }
    }

    /// Removes and returns the last item; `None` on an empty digest, which
    /// is a normal outcome, not an error.
    pub fn pop(&mut self) -> (r: Option<DigestItem>)
        ensures
            old(self).logs@.len() == 0 ==> r is None && final(self).logs@ == old(self).logs@,
            old(self).logs@.len() > 0 ==> {
                &&& r matches Some(it) && it == old(self).logs@.last()
                &&& final(self).logs@ == old(self).logs@.drop_last()
                &&& final(self)@ == old(self)@.drop_last()
            },
    {
        let r = self.logs.pop();
        proof {
            if old(self).logs@.len() > 0 {
                assert(self@ =~= old(self)@.drop_last());
            }
        }
        r
    }

    /// Wire image of the digest: compact log count, then each log's image in
    /// insertion order.
    pub fn encode(&self) -> (r: Vec<u8>)
        requires
            models_wf(self@),
            self@.len() < 0x100000000,
        ensures
            r@ == digest_enc(self@),
    {
        let mut v: Vec<u8> = Vec::new();
        encode_compact_to(self.logs.len() as u32, &mut v);
        let mut i: usize = 0;
        while i < self.logs.len()
            invariant
                i <= self.logs@.len(),
                models_wf(self@),
                self@.len() == self.logs@.len() < 0x100000000,
                v@ == compact_enc(self@.len() as u32) + items_enc(self@.subrange(0, i as int)),
            decreases self.logs@.len() - i,
        {
            proof {
                assert(self@[i as int] == self.logs@[i as int]@);
                assert(model_wf(self@[i as int]));
            }
            let e = self.logs[i].encode();
            encode_raw_to(&e, &mut v);
            i = i + 1;
            proof {
                assert(self@.subrange(0, i as int) =~= self@.subrange(0, i - 1).push(self@[i - 1]));
                lemma_items_enc_push(self@.subrange(0, i - 1), self@[i - 1]);
                assert(v@ =~= compact_enc(self@.len() as u32) + items_enc(self@.subrange(0, i as int)));
            }
        }
        proof {
            assert(self@.subrange(0, self@.len() as int) =~= self@);
            assert(v@ =~= digest_enc(self@));
        }
        v
    }

    /// Reads a digest at `pos`: the log count, then exactly that many items.
    /// Returns `Some` exactly when the bytes at `pos` carry the encoding of
    /// some digest of well-formed items, and then returns that digest (order
    /// preserved) and the position just past its last byte.
    #[verifier::rlimit(60)]
    #[verifier::loop_isolation(false)]
    pub fn decode_at(buf: &Vec<u8>, pos: usize) -> (r: Option<(Digest, usize)>)
        requires
            pos <= buf@.len(),
        ensures
            r matches Some((d, p)) ==> {
                &&& models_wf(d@)
                &&& d@.len() < 0x100000000
                &&& pos < p <= buf@.len()
                &&& p == pos + digest_enc(d@).len()
                &&& buf@.subrange(pos as int, p as int) == digest_enc(d@)
            },
            forall|s: Seq<ItemModel>| #![trigger digest_enc(s)]
                models_wf(s)
                && s.len() < 0x100000000
                && pos + digest_enc(s).len() <= buf@.len()
                && buf@.subrange(pos as int, pos + digest_enc(s).len()) == digest_enc(s)
                ==> (r matches Some((d, p)) && d@ == s && p == pos + digest_enc(s).len()),
    {
        let ghost matching = |s: Seq<ItemModel>|
            models_wf(s)
            && s.len() < 0x100000000
            && pos + digest_enc(s).len() <= buf@.len()
            && buf@.subrange(pos as int, pos + digest_enc(s).len()) == digest_enc(s);
        let rc = decode_compact_at(buf, pos);
        match rc {
            None => {
                proof {
                    assert forall|s: Seq<ItemModel>| #![trigger digest_enc(s)] matching(s) implies false by {
                        lemma_subrange_concat(buf@, pos as int, compact_enc(s.len() as u32), items_enc(s));
                    }
                }
                None
            },
            Some((n, p1)) => {
                proof {
                    assert forall|s: Seq<ItemModel>| #![trigger digest_enc(s)] matching(s)
                        implies n == s.len() && p1 == pos + compact_enc(s.len() as u32).len()
                            && items_enc(s) == buf@.subrange(p1 as int, p1 + items_enc(s).len()) by {
                        lemma_subrange_concat(buf@, pos as int, compact_enc(s.len() as u32), items_enc(s));
                    }
                }
                let count = n as usize;
                let mut logs: Vec<DigestItem> = Vec::new();
                let mut p = p1;
                let mut i: usize = 0;
                let ghost tail = buf@.subrange(p1 as int, buf@.len() as int);
                while i < count
                    invariant
                        pos <= buf@.len(),
                        i <= count,
                        count == n,
                        p1 <= p <= buf@.len(),
                        pos < p1 <= buf@.len(),
                        logs@.len() == i,
                        models_wf(models_of(logs@)),
                        tail == buf@.subrange(p1 as int, buf@.len() as int),
                        buf@.subrange(p1 as int, p as int) == items_enc(models_of(logs@)),
                        p == p1 + items_enc(models_of(logs@)).len(),
                        forall|s: Seq<ItemModel>| #![trigger digest_enc(s)] matching(s)
                            ==> n == s.len() && p1 == pos + compact_enc(s.len() as u32).len()
                                && items_enc(s) == buf@.subrange(p1 as int, p1 + items_enc(s).len()),
                    decreases count - i,
                {
                    let ghost prevmodels = models_of(logs@);
                    proof {
                        assert(items_enc(prevmodels) =~= tail.subrange(0, items_enc(prevmodels).len() as int));
                        assert forall|s: Seq<ItemModel>| #![trigger digest_enc(s)] matching(s)
                            implies prevmodels == s.subrange(0, i as int)
                                && p + model_enc(s[i as int]).len() <= buf@.len()
                                && buf@.subrange(p as int, p + model_enc(s[i as int]).len())
                                    == model_enc(s[i as int]) by {
                            assert(items_enc(s) =~= tail.subrange(0, items_enc(s).len() as int));
                            lemma_items_enc_align(prevmodels, s, tail);
                            // the remaining target items start exactly at `p`
                            let rest = s.subrange(i as int, s.len() as int);
                            lemma_items_enc_split(s, i as int);
                            assert(s.subrange(0, i as int) == prevmodels);
                            assert(items_enc(s) == items_enc(prevmodels) + items_enc(rest));
                            assert(rest.len() > 0);
                            assert(rest[0] == s[i as int]);
                            lemma_items_enc_push_front(s[i as int], rest);
                            let l0 = model_enc(s[i as int]).len() as int;
                            assert(l0 <= items_enc(rest).len());
                            assert(p + l0 <= buf@.len());
                            assert forall|j: int| 0 <= j < l0
                                implies buf@[p + j] == model_enc(s[i as int])[j] by {
                                assert(items_enc(rest)[j] == model_enc(s[i as int])[j]);
                                assert(items_enc(s)[items_enc(prevmodels).len() + j] == items_enc(rest)[j]);
                                assert(items_enc(s)[items_enc(prevmodels).len() + j]
                                    == tail.subrange(0, items_enc(s).len() as int)[items_enc(prevmodels).len() + j]);
                                assert(tail[items_enc(prevmodels).len() + j]
                                    == buf@[p1 + items_enc(prevmodels).len() + j]);
                            }
                            assert(buf@.subrange(p as int, p + l0) =~= model_enc(s[i as int]));
                        }
                    }
                    match DigestItem::decode_at(buf, p) {
                        None => {
                            proof {
                                assert forall|s: Seq<ItemModel>| #![trigger digest_enc(s)] matching(s)
                                    implies false by {
                                    assert(model_wf(s[i as int]));
                                }
                            }
                            return None;
                        },
                        Some((it, p2)) => {
                            let ghost itm = it@;
                            logs.push(it);
                            proof {
                                assert(models_of(logs@) =~= prevmodels.push(itm));
                                lemma_items_enc_push(prevmodels, itm);
                                assert(buf@.subrange(p1 as int, p2 as int) =~=
                                    buf@.subrange(p1 as int, p as int) + buf@.subrange(p as int, p2 as int));
                            }
                            p = p2;
                            i = i + 1;
                        },
                    }
                }
                proof {
                    let fin = models_of(logs@);
                    assert forall|s: Seq<ItemModel>| #![trigger digest_enc(s)] matching(s)
                        implies fin == s && p == pos + digest_enc(s).len() by {
                        assert(items_enc(fin) =~= tail.subrange(0, items_enc(fin).len() as int));
                        assert(items_enc(s) =~= tail.subrange(0, items_enc(s).len() as int));
                        lemma_items_enc_align(fin, s, tail);
                        assert(s.subrange(0, s.len() as int) =~= s);
                    }
                    assert(buf@.subrange(pos as int, p as int) =~=
                        buf@.subrange(pos as int, p1 as int) + buf@.subrange(p1 as int, p as int));
                    assert(buf@.subrange(pos as int, p as int) =~= digest_enc(models_of(logs@)));
                }
                Some((Digest { logs }, p))
            },
        }
    }
}

/// The image of an item sequence splits at any index into the images of the
/// two halves.
pub proof fn lemma_items_enc_split(s: Seq<ItemModel>, k: int)
    requires
        0 <= k <= s.len(),
    ensures
        items_enc(s) == items_enc(s.subrange(0, k)) + items_enc(s.subrange(k, s.len() as int)),
    decreases k,
{
    if k == 0 {
        assert(items_enc(s.subrange(0, 0)) =~= Seq::<u8>::empty());
        assert(s.subrange(0, s.len() as int) =~= s);
        assert(items_enc(s) =~= items_enc(s.subrange(0, 0)) + items_enc(s.subrange(0, s.len() as int)));
    } else {
        let t = s.subrange(1, s.len() as int);
        lemma_items_enc_split(t, k - 1);
        assert(t.subrange(0, k - 1) =~= s.subrange(1, k));
        assert(t.subrange(k - 1, t.len() as int) =~= s.subrange(k, s.len() as int));
        lemma_items_enc_push_front(s[0], s.subrange(0, k));
        assert(s.subrange(0, k)[0] == s[0]);
        assert(s.subrange(0, k).subrange(1, k) =~= s.subrange(1, k));
        assert(items_enc(s) =~=
            items_enc(s.subrange(0, k)) + items_enc(s.subrange(k, s.len() as int)));
    }
}

/// Unfolding helper: the image of a nonempty sequence is its head's image
/// followed by its tail's.
proof fn lemma_items_enc_push_front(m: ItemModel, s: Seq<ItemModel>)
    requires
        s.len() > 0,
        s[0] == m,
    ensures
        items_enc(s) == model_enc(m) + items_enc(s.subrange(1, s.len() as int)),
{
}

} // verus!
