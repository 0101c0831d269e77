use vstd::prelude::*;
use crate::model::{GlobalModel, ModelView, Participant, ids_ascending, total_contributed};

verus! {

/// First byte of every encoded model: the version of the format.
pub const FORMAT_VERSION: u8 = 1;

/// Why bytes could not be read as a model.
#[derive(Clone, Copy, Debug, PartialEq, Eq, Structural)]
pub enum DecodeError {
    /// The first byte names a format this library does not know.
    UnknownVersion,
    /// The bytes are not the encoding of a well-formed model.
    Malformed,
}

/// Byte `k` (0 = least significant) of `w`.
pub open spec fn byte_of(w: u64, k: int) -> u8 {
    ((w >> ((8 * k) as u64)) & 0xff) as u8
}

/// The little-endian `u64` in `b[pos..pos + 8]`.
pub open spec fn read_u64(b: Seq<u8>, pos: int) -> u64 {
    (b[pos] as u64) | ((b[pos + 1] as u64) << 8u64) | ((b[pos + 2] as u64) << 16u64) | ((b[pos + 3] as u64)
        << 24u64) | ((b[pos + 4] as u64) << 32u64) | ((b[pos + 5] as u64) << 40u64) | ((b[pos + 6] as u64)
        << 48u64) | ((b[pos + 7] as u64) << 56u64)
}

/// Field `k` of a participant as a word: id, samples, rewards.
pub open spec fn participant_word(p: Participant, k: int) -> u64 {
    if k == 0 {
        p.id
    } else if k == 1 {
        p.samples_contributed
    } else {
        p.rewards_issued
    }
}

/// The model as words: weight count, weights, sample count, participant
/// count, then each participant's three fields.
pub open spec fn model_words(m: ModelView) -> Seq<u64> {
    let n = m.weights.len();
    let p = m.participants.len();
    seq![n as u64] + Seq::new(n, |i: int| m.weights[i] as u64) + seq![m.num_samples, p as u64]
        + Seq::new(3 * p, |j: int| participant_word(m.participants[j / 3], j % 3))
}

/// Each word as eight little-endian bytes.
pub open spec fn words_to_bytes(w: Seq<u64>) -> Seq<u8> {
    Seq::new(8 * w.len(), |j: int| byte_of(w[j / 8], j % 8))
}

/// The encoding of a model: the format version, then its words.
pub open spec fn encode_model(m: ModelView) -> Seq<u8> {
    seq![FORMAT_VERSION] + words_to_bytes(model_words(m))
}

/// Bytes read back as words, eight at a time.
pub open spec fn bytes_to_words(b: Seq<u8>) -> Seq<u64> {
    Seq::new(b.len() / 8, |i: int| read_u64(b, 8 * i))
}

/// The model laid out in `w`, if the counts in `w` fit its length.
pub open spec fn words_to_model(w: Seq<u64>) -> Option<ModelView> {
    if w.len() < 3 {
        None
    } else {
        let n = w[0] as int;
        if w.len() < n + 3 {
            None
        } else {
            let p = w[n + 2] as int;
            if w.len() != n + 3 + 3 * p {
                None
            } else {
                Some(
                    ModelView {
                        weights: Seq::new(n as nat, |i: int| w[1 + i] as i64),
                        num_samples: w[n + 1],
                        participants: Seq::new(
                            p as nat,
                            |i: int|
                                Participant {
                                    id: w[n + 3 + 3 * i],
                                    samples_contributed: w[n + 4 + 3 * i],
                                    rewards_issued: w[n + 5 + 3 * i],
                                },
                        ),
                    },
                )
            }
        }
    }
}

/// The well-formed model that `b` encodes, if any.
pub open spec fn decode_model(b: Seq<u8>) -> Option<ModelView> {
    if b.len() == 0 || b[0] != FORMAT_VERSION || (b.len() - 1) % 8 != 0 {
        None
    } else {
        match words_to_model(bytes_to_words(b.drop_first())) {
            Some(m) => if m.wf() { Some(m) } else { None },
            None => None,
        }
    }
}

proof fn lemma_word_bytes(w: u64)
    ensures
        read_u64(seq![byte_of(w, 0), byte_of(w, 1), byte_of(w, 2), byte_of(w, 3), byte_of(w, 4), byte_of(w, 5), byte_of(w, 6), byte_of(w, 7)], 0) == w,
{
    let b = seq![byte_of(w, 0), byte_of(w, 1), byte_of(w, 2), byte_of(w, 3), byte_of(w, 4), byte_of(w, 5), byte_of(w, 6), byte_of(w, 7)];
    assert(w >> 0u64 == w) by (bit_vector);
    assert(b[0] == (w & 0xff) as u8);
    assert(b[1] == ((w >> 8u64) & 0xff) as u8);
    assert(b[2] == ((w >> 16u64) & 0xff) as u8);
    assert(b[3] == ((w >> 24u64) & 0xff) as u8);
    assert(b[4] == ((w >> 32u64) & 0xff) as u8);
    assert(b[5] == ((w >> 40u64) & 0xff) as u8);
    assert(b[6] == ((w >> 48u64) & 0xff) as u8);
    assert(b[7] == ((w >> 56u64) & 0xff) as u8);
    assert(((w & 0xff) as u8 as u64) | ((((w >> 8u64) & 0xff) as u8 as u64) << 8u64) | ((((w >> 16u64)
        & 0xff) as u8 as u64) << 16u64) | ((((w >> 24u64) & 0xff) as u8 as u64) << 24u64) | ((((w
        >> 32u64) & 0xff) as u8 as u64) << 32u64) | ((((w >> 40u64) & 0xff) as u8 as u64) << 40u64)
        | ((((w >> 48u64) & 0xff) as u8 as u64) << 48u64) | ((((w >> 56u64) & 0xff) as u8 as u64)
        << 56u64) == w) by (bit_vector);
}

proof fn lemma_words_round_trip(w: Seq<u64>)
    ensures
        bytes_to_words(words_to_bytes(w)) =~= w,
{
    let b = words_to_bytes(w);
    assert(b.len() / 8 == w.len());
    assert forall|i: int| 0 <= i < w.len() implies read_u64(b, 8 * i) == w[i] by {
        let c = seq![byte_of(w[i], 0), byte_of(w[i], 1), byte_of(w[i], 2), byte_of(w[i], 3), byte_of(w[i], 4), byte_of(w[i], 5), byte_of(w[i], 6), byte_of(w[i], 7)];
        assert forall|k: int| 0 <= k < 8 implies b[8 * i + k] == c[k] by {
            assert((8 * i + k) / 8 == i);
            assert((8 * i + k) % 8 == k);
        }
        lemma_word_bytes(w[i]);
    }
}

proof fn lemma_model_words(m: ModelView)
    requires
        m.weights.len() <= u64::MAX,
        m.participants.len() <= u64::MAX,
    ensures
        ({
            let w = model_words(m);
            let n = m.weights.len() as int;
            let p = m.participants.len() as int;
            &&& w.len() == n + 3 + 3 * p
            &&& w[0] == n
            &&& w[n + 1] == m.num_samples
            &&& w[n + 2] == p
            &&& forall|i: int| 0 <= i < n ==> #[trigger] w[1 + i] == m.weights[i] as u64
            &&& forall|i: int|
                0 <= i < p ==> #[trigger] w[n + 3 + 3 * i] == m.participants[i].id && w[n + 4 + 3 * i]
                    == m.participants[i].samples_contributed && w[n + 5 + 3 * i]
                    == m.participants[i].rewards_issued
        }),
{
    let w = model_words(m);
    let n = m.weights.len() as int;
    let p = m.participants.len() as int;
    assert forall|i: int| 0 <= i < p implies #[trigger] w[n + 3 + 3 * i] == m.participants[i].id && w[n
        + 4 + 3 * i] == m.participants[i].samples_contributed && w[n + 5 + 3 * i]
        == m.participants[i].rewards_issued by {
        assert((3 * i) / 3 == i && (3 * i) % 3 == 0);
        assert((3 * i + 1) / 3 == i && (3 * i + 1) % 3 == 1);
        assert((3 * i + 2) / 3 == i && (3 * i + 2) % 3 == 2);
    }
}

proof fn lemma_words_to_model(m: ModelView)
    requires
        m.weights.len() <= u64::MAX,
        m.participants.len() <= u64::MAX,
    ensures
        words_to_model(model_words(m)) == Some(m),
{
    let w = model_words(m);
    lemma_model_words(m);
    let n = m.weights.len() as int;
    let p = m.participants.len() as int;
    let d = words_to_model(w)->Some_0;
    assert(d.weights =~= m.weights) by {
        assert forall|i: int| 0 <= i < n implies d.weights[i] == m.weights[i] by {
            let x = m.weights[i];
            assert(w[1 + i] == x as u64);
            assert((x as u64) as i64 == x) by (bit_vector);
        }
    }
    assert(d.participants =~= m.participants) by {
        assert forall|i: int| 0 <= i < p implies d.participants[i] == m.participants[i] by {
            assert(w[n + 3 + 3 * i] == m.participants[i].id);
        }
    }
}

/// Round trip: decoding the encoding of a well-formed model gives it back.
pub proof fn lemma_round_trip(m: ModelView)
    requires
        m.wf(),
        m.weights.len() <= u64::MAX,
        m.participants.len() <= u64::MAX,
    ensures
        decode_model(encode_model(m)) == Some(m),
{
    let w = model_words(m);
    let e = encode_model(m);
    assert(e.drop_first() =~= words_to_bytes(w));
    lemma_words_round_trip(w);
    lemma_words_to_model(m);
}

proof fn lemma_words_to_bytes_push(ws: Seq<u64>, w: u64)
    ensures
        words_to_bytes(ws.push(w)) =~= words_to_bytes(ws) + seq![byte_of(w, 0), byte_of(w, 1), byte_of(w, 2), byte_of(w, 3), byte_of(w, 4), byte_of(w, 5), byte_of(w, 6), byte_of(w, 7)],
{
    let l = ws.len() as int;
    let a = words_to_bytes(ws.push(w));
    assert forall|j: int| 0 <= j < 8 * l implies a[j] == words_to_bytes(ws)[j] by {
        assert(j / 8 < l) by (nonlinear_arith)
            requires 0 <= j < 8 * l;
    }
    assert forall|k: int| 0 <= k < 8 implies a[8 * l + k] == byte_of(w, k) by {
        assert((8 * l + k) / 8 == l);
        assert((8 * l + k) % 8 == k);
    }
}

fn push_word(out: &mut Vec<u8>, w: u64)
    ensures
        final(out)@ == old(out)@ + seq![byte_of(w, 0), byte_of(w, 1), byte_of(w, 2), byte_of(w, 3), byte_of(w, 4), byte_of(w, 5), byte_of(w, 6), byte_of(w, 7)],
{
    let ghost start = out@;
    let mut k: u64 = 0;
    while k < 8
        invariant
            k <= 8,
            out@ =~= start + seq![byte_of(w, 0), byte_of(w, 1), byte_of(w, 2), byte_of(w, 3), byte_of(w, 4), byte_of(w, 5), byte_of(w, 6), byte_of(w, 7)].subrange(0, k as int),
        decreases 8 - k,
    {
        out.push(((w >> (8 * k)) & 0xff) as u8);
        k = k + 1;
    }
}

fn words_of(m: &GlobalModel) -> (r: Vec<u64>)
    ensures
        r@ == model_words(m@),
{
    let n = m.weights.len();
    let p = m.participants.len();
    let mut w: Vec<u64> = Vec::new();
    w.push(n as u64);
    let mut i: usize = 0;
    while i < n
        invariant
            i <= n,
            n == m.weights.len(),
            w@ =~= seq![n as u64] + Seq::new(n as nat, |i: int| m@.weights[i] as u64).subrange(0, i as int),
        decreases n - i,
    {
        w.push(m.weights[i] as u64);
        i = i + 1;
    }
    w.push(m.num_samples);
    w.push(p as u64);
    let ghost head = w@;
    let ghost fields = Seq::new(3 * p as nat, |j: int| participant_word(m@.participants[j / 3], j % 3));
    let mut i: usize = 0;
    while i < p
        invariant
            i <= p,
            p == m.participants.len(),
            fields == Seq::new(3 * p as nat, |j: int| participant_word(m@.participants[j / 3], j % 3)),
            w@ =~= head + fields.subrange(0, 3 * i as int),
        decreases p - i,
    {
        let q = m.participants[i];
        proof {
            assert((3 * i as int) / 3 == i && (3 * i as int) % 3 == 0);
            assert((3 * i as int + 1) / 3 == i && (3 * i as int + 1) % 3 == 1);
            assert((3 * i as int + 2) / 3 == i && (3 * i as int + 2) % 3 == 2);
            assert(fields.subrange(0, 3 * i as int + 3) =~= fields.subrange(0, 3 * i as int).push(q.id).push(
                q.samples_contributed,
            ).push(q.rewards_issued));
        }
        w.push(q.id);
        w.push(q.samples_contributed);
        w.push(q.rewards_issued);
        i = i + 1;
    }
    assert(fields.subrange(0, 3 * p as int) =~= fields);
    assert(w@ =~= model_words(m@));
    w
}

/// Encodes a model as bytes: the format version, then every count and value
/// as a little-endian `u64` (weights in two's complement).
pub fn encode(m: &GlobalModel) -> (r: Vec<u8>)
    ensures
        r@ == encode_model(m@),
{
    let words = words_of(m);
    let mut out: Vec<u8> = Vec::new();
    out.push(FORMAT_VERSION);
    let mut i: usize = 0;
    while i < words.len()
        invariant
            i <= words.len(),
            out@ =~= seq![FORMAT_VERSION] + words_to_bytes(words@.subrange(0, i as int)),
        decreases words.len() - i,
    {
        proof {
            lemma_words_to_bytes_push(words@.subrange(0, i as int), words@[i as int]);
            assert(words@.subrange(0, i as int + 1) =~= words@.subrange(0, i as int).push(words@[i as int]));
        }
        push_word(&mut out, words[i]);
        i = i + 1;
    }
    assert(words@.subrange(0, words@.len() as int) =~= words@);
    out
}

fn read_word(b: &Vec<u8>, pos: usize) -> (r: u64)
    requires
        pos + 8 <= b.len(),
    ensures
        r == read_u64(b@, pos as int),
{
    (b[pos] as u64) | ((b[pos + 1] as u64) << 8u64) | ((b[pos + 2] as u64) << 16u64) | ((b[pos + 3] as u64)
        << 24u64) | ((b[pos + 4] as u64) << 32u64) | ((b[pos + 5] as u64) << 40u64) | ((b[pos + 6] as u64)
        << 48u64) | ((b[pos + 7] as u64) << 56u64)
}

fn model_of_words(w: &Vec<u64>) -> (r: Option<GlobalModel>)
    ensures
        match words_to_model(w@) {
            Some(m) => r is Some && r->Some_0@ == m,
            None => r is None,
        },
{
    let wl = w.len();
    if wl < 3 {
        return None;
    }
    let n64 = w[0];
    if n64 > (wl - 3) as u64 {
        return None;
    }
    let n = n64 as usize;
    let p64 = w[n + 2];
    let rest = wl - 3 - n;
    if rest % 3 != 0 || (rest / 3) as u64 != p64 {
        return None;
    }
    let p = rest / 3;
    let mut weights: Vec<i64> = Vec::new();
    let mut i: usize = 0;
    while i < n
        invariant
            i <= n,
            n + 3 <= wl,
            wl == w@.len(),
            weights@ =~= Seq::new(n as nat, |k: int| w@[1 + k] as i64).subrange(0, i as int),
        decreases n - i,
    {
        weights.push(w[1 + i] as i64);
        i = i + 1;
    }
    let ghost ps = Seq::new(
        p as nat,
        |k: int|
            Participant {
                id: w@[n + 3 + 3 * k],
                samples_contributed: w@[n + 4 + 3 * k],
                rewards_issued: w@[n + 5 + 3 * k],
            },
    );
    let mut participants: Vec<Participant> = Vec::new();
    let mut i: usize = 0;
    while i < p
        invariant
            i <= p,
            n + 3 + 3 * p == wl,
            wl == w@.len(),
            ps == Seq::new(
                p as nat,
                |k: int|
                    Participant {
                        id: w@[n + 3 + 3 * k],
                        samples_contributed: w@[n + 4 + 3 * k],
                        rewards_issued: w@[n + 5 + 3 * k],
                    },
            ),
            participants@ =~= ps.subrange(0, i as int),
        decreases p - i,
    {
        let base = n + 3 + 3 * i;
        participants.push(Participant { id: w[base], samples_contributed: w[base + 1], rewards_issued: w[base + 2] });
        i = i + 1;
    }
    let m = GlobalModel { weights, num_samples: w[n + 1], participants };
    assert(m@.weights =~= words_to_model(w@)->Some_0.weights);
    assert(m@.participants =~= words_to_model(w@)->Some_0.participants);
    Some(m)
}

fn is_well_formed(m: &GlobalModel) -> (r: bool)
    ensures
        r == m@.wf(),
{
    let ps = &m.participants;
    let mut i: usize = 0;
    let mut total: u128 = 0;
    while i < ps.len()
        invariant
            i <= ps.len(),
            ps@ == m@.participants,
            ids_ascending(ps@.subrange(0, i as int)),
            total == total_contributed(ps@.subrange(0, i as int)),
            total <= i * (u64::MAX as int),
        decreases ps.len() - i,
    {
        if i > 0 && ps[i - 1].id >= ps[i].id {
            proof {
                let a = i as int - 1;
                let c = i as int;
                if ids_ascending(ps@) {
                    assert(ps@[a].id < ps@[c].id);
                }
            }
            return false;
        }
        assert(ps@.subrange(0, i as int + 1).drop_last() =~= ps@.subrange(0, i as int));
        assert((i + 1) * (u64::MAX as int) <= 0x1_0000_0000_0000_0000 * (u64::MAX as int)) by (nonlinear_arith)
            requires i < 0x1_0000_0000_0000_0000int;
        assert(i * (u64::MAX as int) + u64::MAX == (i + 1) * (u64::MAX as int)) by (nonlinear_arith);
        total = total + ps[i].samples_contributed as u128;
        assert(ids_ascending(ps@.subrange(0, i as int + 1))) by {
            let s = ps@.subrange(0, i as int + 1);
            assert forall|a: int, b: int| 0 <= a < b < s.len() implies #[trigger] s[a].id < #[trigger] s[b].id by {
                if b < i {
                    assert(ps@.subrange(0, i as int)[a] == s[a]);
                    assert(ps@.subrange(0, i as int)[b] == s[b]);
                } else if a < i - 1 {
                    assert(ps@.subrange(0, i as int)[a] == s[a]);
                    assert(ps@.subrange(0, i as int)[i - 1] == s[i - 1]);
                }
            }
        }
        i = i + 1;
    }
    assert(ps@.subrange(0, ps.len() as int) =~= ps@);
    total == m.num_samples as u128
}

/// Decodes bytes made by `encode`. Refuses an unknown format version, bytes
/// that do not lay out a model, and a model that is not well formed (ids not
/// strictly ascending, or a sample count that differs from what the
/// participants contributed).
pub fn decode(b: &Vec<u8>) -> (r: Result<GlobalModel, DecodeError>)
    ensures
        b@.len() > 0 && b@[0] != FORMAT_VERSION ==> r == Err::<GlobalModel, DecodeError>(
            DecodeError::UnknownVersion,
        ),
        decode_model(b@) matches Some(m) ==> r is Ok && r->Ok_0@ == m,
        (b@.len() == 0 || b@[0] == FORMAT_VERSION) && decode_model(b@) is None ==> r == Err::<
            GlobalModel,
            DecodeError,
        >(DecodeError::Malformed),
{
    if b.len() == 0 {
        return Err(DecodeError::Malformed);
    }
    if b[0] != FORMAT_VERSION {
        return Err(DecodeError::UnknownVersion);
    }
    if (b.len() - 1) % 8 != 0 {
        return Err(DecodeError::Malformed);
    }
    let blen = b.len();
    let count = (blen - 1) / 8;
    let ghost body = b@.drop_first();
    let mut words: Vec<u64> = Vec::new();
    let mut i: usize = 0;
    while i < count
        invariant
            i <= count,
            count == (blen - 1) / 8,
            blen == b@.len(),
            body == b@.drop_first(),
            words@ =~= bytes_to_words(body).subrange(0, i as int),
        decreases count - i,
    {
        assert(8 * i + 8 <= blen - 1) by (nonlinear_arith)
            requires i < count, count == (blen - 1) / 8, blen >= 1;
        let x = read_word(b, 1 + 8 * i);
        assert(read_u64(body, 8 * i as int) == x);
        words.push(x);
        i = i + 1;
    }
    assert(bytes_to_words(body).subrange(0, count as int) =~= bytes_to_words(body));
    match model_of_words(&words) {
        Some(m) => {
            if is_well_formed(&m) {
                Ok(m)
            } else {
                Err(DecodeError::Malformed)
            }
        },
        None => Err(DecodeError::Malformed),
    }
}

} // verus!
