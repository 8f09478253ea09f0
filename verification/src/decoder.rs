//! Sequence Decoder: turns a per-timestep class-probability matrix into a
//! decoded string and a confidence score, by CTC-style greedy collapsing.
//!
//! Class index 0 is the reserved blank symbol. Each timestep contributes the
//! class of maximum probability; a class is emitted only when it is non-blank,
//! differs from the previous timestep's class, and has a vocabulary entry.
//! The confidence is the arithmetic mean of the emitted classes'
//! probabilities, in fixed-point thousandths.

use vstd::prelude::*;
use vstd::string::StringExecFns;

use crate::Error;
use crate::PROB_SCALE;

verus! {

/// The index of the first maximal score in a row; 0 for an empty row.
pub open spec fn row_argmax(row: Seq<u32>) -> int
    decreases row.len(),
{
    if row.len() <= 1 {
        0
    } else {
        let p = row_argmax(row.drop_last());
        if row.last() > row[p] {
            row.len() - 1
        } else {
            p
        }
    }
}

pub proof fn lemma_row_argmax_bounds(row: Seq<u32>)
    requires
        row.len() >= 1,
    ensures
        0 <= row_argmax(row) < row.len(),
    decreases row.len(),
{
    if row.len() > 1 {
        lemma_row_argmax_bounds(row.drop_last());
    }
}

/// A [timestep x class] grid of fixed-point probability scores, each in
/// `[0, PROB_SCALE]`, with class 0 reserved as the CTC blank.
pub struct ProbMatrix {
    pub classes: usize,
    pub rows: Vec<Vec<u32>>,
}

impl ProbMatrix {
    pub open spec fn wf(self) -> bool {
        &&& self.classes >= 1
        &&& forall|t: int|
            0 <= t < self.rows@.len() ==> (#[trigger] self.rows@[t])@.len() == self.classes
        &&& forall|t: int, c: int|
            0 <= t < self.rows@.len() && 0 <= c < self.rows@[t]@.len() ==> (#[trigger] self.rows@[t]@[c])
                <= PROB_SCALE
    }

    /// The class chosen at timestep `t`: the first index of maximal score.
    pub open spec fn step_index(self, t: int) -> int {
        row_argmax(self.rows@[t]@)
    }

    /// The score of the chosen class at timestep `t`.
    pub open spec fn step_prob(self, t: int) -> u32 {
        self.rows@[t]@[row_argmax(self.rows@[t]@)]
    }

    /// The per-timestep chosen classes.
    pub open spec fn indices(self) -> Seq<int> {
        Seq::new(self.rows@.len(), |t: int| self.step_index(t))
    }

    /// The per-timestep chosen scores.
    pub open spec fn probs(self) -> Seq<u32> {
        Seq::new(self.rows@.len(), |t: int| self.step_prob(t))
    }

    /// Validates a raw grid: there must be at least the blank class, every
    /// row must have one score per class, and scores must not exceed
    /// `PROB_SCALE`.
    pub fn new(classes: usize, rows: Vec<Vec<u32>>) -> (r: Result<ProbMatrix, Error>)
        ensures
            r is Ok <==> (ProbMatrix { classes, rows }).wf(),
            r is Ok ==> r->Ok_0 == (ProbMatrix { classes, rows }),
            r is Err ==> r->Err_0 == Error::DecodeFailure,
    {
        if classes == 0 {
            return Err(Error::DecodeFailure);
        }
        let n = rows.len();
        for t in 0..n
            invariant
                n == rows@.len(),
                classes >= 1,
                forall|u: int| 0 <= u < t ==> (#[trigger] rows@[u])@.len() == classes,
                forall|u: int, c: int|
                    0 <= u < t && 0 <= c < rows@[u]@.len() ==> (#[trigger] rows@[u]@[c])
                        <= PROB_SCALE,
        {
            let row = &rows[t];
            if row.len() != classes {
                proof {
                    let mx = ProbMatrix { classes, rows };
                    assert(!mx.wf()) by {
                        assert(mx.rows@[t as int]@.len() != classes);
                    }
                }
                return Err(Error::DecodeFailure);
            }
            let m = row.len();
            for c in 0..m
                invariant
                    t < rows@.len(),
                    m == row@.len(),
                    row@ == rows@[t as int]@,
                    forall|d: int| 0 <= d < c ==> (#[trigger] row@[d]) <= PROB_SCALE,
            {
                if row[c] > PROB_SCALE {
                    proof {
                        let mx = ProbMatrix { classes, rows };
                        assert(!mx.wf()) by {
                            assert(mx.rows@[t as int]@[c as int] > PROB_SCALE);
                        }
                    }
                    return Err(Error::DecodeFailure);
                }
            }
        }
        Ok(ProbMatrix { classes, rows })
    }
}

/// Whether class `i` is emitted when the previous timestep chose `last`:
/// it must be non-blank, differ from `last`, and name a vocabulary entry.
pub open spec fn ctc_emits(vocab: Seq<Seq<char>>, i: int, last: int) -> bool {
    i > 0 && i != last && i - 1 < vocab.len()
}

/// The text produced by CTC-collapsing the index sequence `idxs`, where the
/// timestep before `idxs[0]` chose `last`.
pub open spec fn ctc_text(vocab: Seq<Seq<char>>, idxs: Seq<int>, last: int) -> Seq<char>
    decreases idxs.len(),
{
    if idxs.len() == 0 {
        Seq::empty()
    } else {
        let rest = ctc_text(vocab, idxs.drop_first(), idxs[0]);
        if ctc_emits(vocab, idxs[0], last) {
            vocab[idxs[0] - 1] + rest
        } else {
            rest
        }
    }
}

/// The sum of the emitted classes' scores.
pub open spec fn ctc_conf_sum(
    vocab: Seq<Seq<char>>,
    idxs: Seq<int>,
    probs: Seq<u32>,
    last: int,
) -> int
    decreases idxs.len(),
{
    if idxs.len() == 0 {
        0
    } else {
        let rest = ctc_conf_sum(vocab, idxs.drop_first(), probs.drop_first(), idxs[0]);
        if ctc_emits(vocab, idxs[0], last) {
            probs[0] + rest
        } else {
            rest
        }
    }
}

/// The number of emitted classes.
pub open spec fn ctc_count(vocab: Seq<Seq<char>>, idxs: Seq<int>, last: int) -> int
    decreases idxs.len(),
{
    if idxs.len() == 0 {
        0
    } else {
        let rest = ctc_count(vocab, idxs.drop_first(), idxs[0]);
        if ctc_emits(vocab, idxs[0], last) {
            1 + rest
        } else {
            rest
        }
    }
}

/// The index of the first maximal score in a row, computed; ties keep the
/// earliest index.
pub fn argmax(row: &Vec<u32>) -> (r: usize)
    requires
        row@.len() >= 1,
    ensures
        r == row_argmax(row@),
        r < row@.len(),
{
    let mut best: usize = 0;
    let n = row.len();
    for c in 1..n
        invariant
            n == row@.len(),
            best < c <= n,
            best == row_argmax(row@.take(c as int)),
    {
        proof {
            assert(row@.take(c as int + 1).drop_last() =~= row@.take(c as int));
            lemma_row_argmax_bounds(row@.take(c as int));
        }
        if row[c] > row[best] {
            best = c;
        }
    }
    proof {
        assert(row@.take(n as int) =~= row@);
        lemma_row_argmax_bounds(row@);
    }
    best
}

/// CTC greedy decode: picks each timestep's maximal class, drops blanks,
/// collapses immediate repeats, looks up vocabulary entries at `index - 1`,
/// and averages the emitted scores into a confidence. An input that emits
/// nothing yields the empty text with confidence 0; this is not an error.
pub fn decode(vocab: &Vec<String>, matrix: &ProbMatrix) -> (r: (String, u32))
    requires
        matrix.wf(),
        matrix.rows@.len() <= 1_000_000_000,
    ensures
        r.0@ == ctc_text(vocab.deep_view(), matrix.indices(), 0),
        ctc_count(vocab.deep_view(), matrix.indices(), 0) == 0 ==> r.1 == 0,
        ctc_count(vocab.deep_view(), matrix.indices(), 0) > 0 ==> r.1 == ctc_conf_sum(
            vocab.deep_view(),
            matrix.indices(),
            matrix.probs(),
            0,
        ) / ctc_count(vocab.deep_view(), matrix.indices(), 0),
        r.1 <= PROB_SCALE,
{
    let ghost gvocab = vocab.deep_view();
    let ghost idxs = matrix.indices();
    let ghost gprobs = matrix.probs();
    let mut text = String::new();
    let mut sum: u64 = 0;
    let mut count: u64 = 0;
    let mut last: usize = 0;
    let n = matrix.rows.len();
    proof {
        assert(idxs.skip(0) =~= idxs);
        assert(gprobs.skip(0) =~= gprobs);
    }
    for t in 0..n
        invariant
            matrix.wf(),
            n == matrix.rows@.len(),
            n <= 1_000_000_000,
            gvocab == vocab.deep_view(),
            idxs == matrix.indices(),
            gprobs == matrix.probs(),
            ctc_text(gvocab, idxs, 0) == text@ + ctc_text(gvocab, idxs.skip(t as int), last as int),
            ctc_conf_sum(gvocab, idxs, gprobs, 0) == sum + ctc_conf_sum(
                gvocab,
                idxs.skip(t as int),
                gprobs.skip(t as int),
                last as int,
            ),
            ctc_count(gvocab, idxs, 0) == count + ctc_count(gvocab, idxs.skip(t as int), last as int),
            count <= t,
            sum <= PROB_SCALE * count,
    {
        let row = &matrix.rows[t];
        proof {
            lemma_row_argmax_bounds(row@);
        }
        let mi = argmax(row);
        let p = row[mi];
        proof {
            assert(idxs.skip(t as int)[0] == idxs[t as int]);
            assert(idxs[t as int] == mi as int);
            assert(gprobs.skip(t as int)[0] == gprobs[t as int]);
            assert(gprobs[t as int] == p);
            assert(idxs.skip(t as int).drop_first() =~= idxs.skip(t as int + 1));
            assert(gprobs.skip(t as int).drop_first() =~= gprobs.skip(t as int + 1));
        }
        if mi > 0 && mi != last {
            if mi - 1 < vocab.len() {
                proof {
                    assert(gvocab[mi - 1] == vocab@[mi - 1]@);
                    assert((text@ + gvocab[mi - 1]) + ctc_text(
                        gvocab,
                        idxs.skip(t as int + 1),
                        mi as int,
                    ) =~= text@ + (gvocab[mi - 1] + ctc_text(
                        gvocab,
                        idxs.skip(t as int + 1),
                        mi as int,
                    )));
                }
                text.append(vocab[mi - 1].as_str());
                sum = sum + p as u64;
                count = count + 1;
            }
        }
        last = mi;
    }
    proof {
        assert(idxs.skip(n as int) =~= Seq::<int>::empty());
        assert(gprobs.skip(n as int) =~= Seq::<u32>::empty());
        assert(text@ + Seq::<char>::empty() =~= text@);
    }
    let confidence: u32 = if count == 0 {
        0
    } else {
        proof {
            vstd::arithmetic::div_mod::lemma_div_is_ordered(
                sum as int,
                PROB_SCALE * count,
                count as int,
            );
            vstd::arithmetic::div_mod::lemma_div_multiples_vanish(
                PROB_SCALE as int,
                count as int,
            );
            vstd::arithmetic::div_mod::lemma_div_is_ordered(0, sum as int, count as int);
            assert(0int / (count as int) == 0) by {
                vstd::arithmetic::div_mod::lemma_basic_div(0, count as int);
            }
        }
        (sum / count) as u32
    };
    (text, confidence)
}

/// A matrix whose every timestep chooses the blank class decodes to the
/// empty text with no emissions, hence confidence 0.
pub proof fn lemma_ctc_all_blank(vocab: Seq<Seq<char>>, idxs: Seq<int>, probs: Seq<u32>, last: int)
    requires
        forall|t: int| 0 <= t < idxs.len() ==> #[trigger] idxs[t] == 0,
    ensures
        ctc_text(vocab, idxs, last) == Seq::<char>::empty(),
        ctc_count(vocab, idxs, last) == 0,
        ctc_conf_sum(vocab, idxs, probs, last) == 0,
    decreases idxs.len(),
{
    if idxs.len() > 0 {
        lemma_ctc_all_blank(vocab, idxs.drop_first(), probs.drop_first(), idxs[0]);
    }
}

/// Every timestep of `m` chooses the blank class: decoding emits nothing.
pub proof fn lemma_decode_all_blank(vocab: Seq<Seq<char>>, m: ProbMatrix)
    requires
        forall|t: int| 0 <= t < m.rows@.len() ==> #[trigger] m.step_index(t) == 0,
    ensures
        ctc_text(vocab, m.indices(), 0) == Seq::<char>::empty(),
        ctc_count(vocab, m.indices(), 0) == 0,
{
    lemma_ctc_all_blank(vocab, m.indices(), m.probs(), 0);
}

proof fn lemma_ctc_constant_run(vocab: Seq<Seq<char>>, idxs: Seq<int>, i: int)
    requires
        forall|t: int| 0 <= t < idxs.len() ==> #[trigger] idxs[t] == i,
    ensures
        ctc_text(vocab, idxs, i) == Seq::<char>::empty(),
        ctc_count(vocab, idxs, i) == 0,
    decreases idxs.len(),
{
    if idxs.len() > 0 {
        lemma_ctc_constant_run(vocab, idxs.drop_first(), i);
    }
}

/// A matrix whose every timestep chooses the same non-blank class `i`
/// decodes to that class's single vocabulary entry: repeated frames
/// collapse into one emission.
pub proof fn lemma_ctc_single_symbol(vocab: Seq<Seq<char>>, idxs: Seq<int>, i: int)
    requires
        idxs.len() >= 1,
        1 <= i,
        i - 1 < vocab.len(),
        forall|t: int| 0 <= t < idxs.len() ==> #[trigger] idxs[t] == i,
    ensures
        ctc_text(vocab, idxs, 0) == vocab[i - 1],
        ctc_count(vocab, idxs, 0) == 1,
{
    lemma_ctc_constant_run(vocab, idxs.drop_first(), i);
    assert(vocab[i - 1] + Seq::<char>::empty() =~= vocab[i - 1]);
}

/// Every timestep's class is non-blank, in the vocabulary, and differs from
/// its predecessor (the predecessor of the first being `last`).
pub open spec fn all_emitting(vocab: Seq<Seq<char>>, idxs: Seq<int>, last: int) -> bool {
    forall|t: int|
        0 <= t < idxs.len() ==> ctc_emits(
            vocab,
            #[trigger] idxs[t],
            if t == 0 {
                last
            } else {
                idxs[t - 1]
            },
        )
}

/// The concatenation of every timestep's vocabulary entry, with no collapsing.
pub open spec fn emitted_all(vocab: Seq<Seq<char>>, idxs: Seq<int>) -> Seq<char>
    decreases idxs.len(),
{
    if idxs.len() == 0 {
        Seq::empty()
    } else {
        vocab[idxs[0] - 1] + emitted_all(vocab, idxs.drop_first())
    }
}

/// When consecutive timesteps always choose distinct non-blank classes,
/// nothing collapses: each timestep emits its own symbol.
pub proof fn lemma_ctc_no_collapse(vocab: Seq<Seq<char>>, idxs: Seq<int>, last: int)
    requires
        all_emitting(vocab, idxs, last),
    ensures
        ctc_text(vocab, idxs, last) == emitted_all(vocab, idxs),
        ctc_count(vocab, idxs, last) == idxs.len(),
    decreases idxs.len(),
{
    if idxs.len() > 0 {
        assert(ctc_emits(vocab, idxs[0], last));
        assert forall|t: int| 0 <= t < idxs.drop_first().len() implies ctc_emits(
            vocab,
            #[trigger] idxs.drop_first()[t],
            if t == 0 {
                idxs[0]
            } else {
                idxs.drop_first()[t - 1]
            },
        ) by {
            assert(idxs.drop_first()[t] == idxs[t + 1]);
            if t > 0 {
                assert(idxs.drop_first()[t - 1] == idxs[t]);
            }
            assert(ctc_emits(vocab, idxs[t + 1], idxs[t]));
        }
        lemma_ctc_no_collapse(vocab, idxs.drop_first(), idxs[0]);
    }
}

} // verus!
