//! Reading many lines: from the answers of the model to the texts, in the order asked for.
use crate::ocr::text::batch::Batch;
use crate::ocr::text::line::{ctc_decode, ctc_decode_compact, LineInput};
use crate::raster::RgbImage;
use crate::single::Single;
use vstd::prelude::*;
use vstd::slice::slice_subrange;

verus! {

/// What the model answers for pictures that are fed together.
#[derive(Debug)]
pub enum LineOutput {
    /// The likeliest class and its probability, `steps` of them for each picture.
    Compact { steps: usize, ids: Vec<i64>, probs: Vec<Single> },
    /// The probabilities of all classes, `steps` rows of them for each picture.
    Full { steps: usize, classes: usize, logits: Vec<Single> },
}

/// The product of two sizes fits into twice their bits.
proof fn lemma_wide_product(a: usize, b: usize)
    ensures
        0 <= a * b <= u128::MAX,
{
    assert(0 <= a * b <= 0xffff_ffff_ffff_ffff * 0xffff_ffff_ffff_ffff) by (nonlinear_arith)
        requires
            0 <= a <= 0xffff_ffff_ffff_ffff,
            0 <= b <= 0xffff_ffff_ffff_ffff,
    ;
}

impl LineOutput {
    /// All steps are there.
    pub open spec fn complete(self) -> bool {
        match self {
            LineOutput::Compact { steps, ids, probs } => true,
            LineOutput::Full { steps, classes, logits } => steps * classes <= logits@.len(),
        }
    }

    /// There is an answer for each of `n` pictures.
    pub open spec fn answers(self, n: int) -> bool {
        match self {
            LineOutput::Compact { steps, ids, probs } => n * steps <= ids@.len() && n * steps
                <= probs@.len(),
            LineOutput::Full { steps, classes, logits } => n * (steps * classes) <= logits@.len(),
        }
    }

    /// Whether all steps are there.
    pub fn is_complete(&self) -> (r: bool)
        ensures
            r == self.complete(),
    {
        match self {
            LineOutput::Compact { steps, ids, probs } => true,
            LineOutput::Full { steps, classes, logits } => {
                proof {
                    lemma_wide_product(*steps, *classes);
                }
                *steps as u128 * *classes as u128 <= logits.len() as u128
            },
        }
    }

    /// Whether there is an answer for each of `n` pictures.
    pub fn has_answers(&self, n: usize) -> (r: bool)
        ensures
            r == self.answers(n as int),
    {
        match self {
            LineOutput::Compact { steps, ids, probs } => {
                proof {
                    lemma_wide_product(n, *steps);
                }
                let length: u128 = n as u128 * *steps as u128;
                length <= ids.len() as u128 && length <= probs.len() as u128
            },
            LineOutput::Full { steps, classes, logits } => {
                proof {
                    lemma_wide_product(*steps, *classes);
                }
                let size: u128 = *steps as u128 * *classes as u128;
                if size > logits.len() as u128 {
                    proof {
                        let (a, b): (int, int) = (n as int, size as int);
                        assert(a >= 1 ==> a * b >= b) by (nonlinear_arith)
                            requires
                                b >= 0,
                        ;
                        assert(a == 0 ==> a * b == 0) by (nonlinear_arith);
                    }
                    n == 0
                } else {
                    proof {
                        lemma_wide_product(n, size as usize);
                    }
                    n as u128 * size <= logits.len() as u128
                }
            },
        }
    }
}

/// The texts and their confidences.
pub open spec fn readings(v: Seq<(String, Single)>) -> Seq<(Seq<char>, Single)> {
    v.map_values(|r: (String, Single)| (r.0@, r.1))
}

/// No text, with no confidence.
pub open spec fn unread() -> (Seq<char>, Single) {
    (Seq::empty(), Single { bits: 0 })
}

/// What picture `m` of an answer says.
pub open spec fn row_reading(dict: Seq<Seq<char>>, output: LineOutput, m: int) -> (
    Seq<char>,
    Single,
) {
    match output {
        LineOutput::Compact { steps, ids, probs } => {
            let from = m * steps;
            crate::ocr::text::line::decoded(
                dict,
                crate::ocr::text::line::whole_ids(ids@.subrange(from, from + steps)),
                probs@.subrange(from, from + steps),
            )
        },
        LineOutput::Full { steps, classes, logits } => {
            let size = steps * classes;
            let row = logits@.subrange(m * size, m * size + size);
            crate::ocr::text::line::decoded(
                dict,
                crate::ocr::text::line::best_ids(row, steps as int, classes as int),
                crate::ocr::text::line::best_probs(row, steps as int, classes as int),
            )
        },
    }
}

/// What the answer for a single picture says.
pub open spec fn single_reading(dict: Seq<Seq<char>>, output: LineOutput) -> (Seq<char>, Single) {
    match output {
        LineOutput::Compact { steps, ids, probs } => crate::ocr::text::line::decoded(
            dict,
            crate::ocr::text::line::whole_ids(ids@),
            probs@,
        ),
        LineOutput::Full { steps, classes, logits } => crate::ocr::text::line::decoded(
            dict,
            crate::ocr::text::line::best_ids(logits@, steps as int, classes as int),
            crate::ocr::text::line::best_probs(logits@, steps as int, classes as int),
        ),
    }
}

/// The readings after the first `n` members of a batch got theirs.
pub open spec fn with_members(
    dict: Seq<Seq<char>>,
    before: Seq<(Seq<char>, Single)>,
    members: Seq<usize>,
    output: LineOutput,
    n: nat,
) -> Seq<(Seq<char>, Single)>
    decreases n,
{
    if n == 0 {
        before
    } else {
        with_members(dict, before, members, output, (n - 1) as nat).update(
            members[n - 1] as int,
            row_reading(dict, output, n - 1),
        )
    }
}

/// The readings of `count` pictures after the first `n` batches.
pub open spec fn with_batches(
    dict: Seq<Seq<char>>,
    count: nat,
    groups: Seq<Seq<usize>>,
    outputs: Seq<LineOutput>,
    n: nat,
) -> Seq<(Seq<char>, Single)>
    decreases n,
{
    if n == 0 {
        Seq::new(count, |i: int| unread())
    } else {
        with_members(
            dict,
            with_batches(dict, count, groups, outputs, (n - 1) as nat),
            groups[n - 1],
            outputs[n - 1],
            groups[n - 1].len(),
        )
    }
}

/// Pieces of a sequence hold its entries in order.
proof fn lemma_chunk_entry(s: Seq<usize>, size: nat, k: int, m: int)
    requires
        size > 0,
        0 <= k < crate::ocr::text::batch::chunks(s, size).len(),
        0 <= m < crate::ocr::text::batch::chunks(s, size)[k].len(),
    ensures
        0 <= k * size + m < s.len(),
        crate::ocr::text::batch::chunks(s, size)[k][m] == s[k * size + m],
        m < size,
    decreases s.len(),
{
    let all: Seq<Seq<usize>> = crate::ocr::text::batch::chunks(s, size);
    if s.len() > size && k > 0 {
        let rest: Seq<usize> = s.skip(size as int);
        assert(all[k] == crate::ocr::text::batch::chunks(rest, size)[k - 1]);
        lemma_chunk_entry(rest, size, k - 1, m);
        let z: int = size as int;
        assert((k - 1) * z + m + z == k * z + m) by (nonlinear_arith);
        assert(rest[(k - 1) * size + m] == s[(k - 1) * size + m + size]);
    } else {
        assert(k == 0);
        assert(0 * size == 0) by (nonlinear_arith);
    }
}

/// Different places in the pieces of a sequence are different places in the sequence.
proof fn lemma_chunk_places(size: nat, k: int, m: int, j: int, l: int)
    requires
        size > 0,
        0 <= m < size,
        0 <= l < size,
        k * size + m == j * size + l,
    ensures
        k == j,
        m == l,
{
    let z: int = size as int;
    assert(k == j) by (nonlinear_arith)
        requires
            0 <= m < z,
            0 <= l < z,
            k * z + m == j * z + l,
    ;
}

proof fn lemma_with_members(
    dict: Seq<Seq<char>>,
    before: Seq<(Seq<char>, Single)>,
    members: Seq<usize>,
    output: LineOutput,
    n: nat,
    i: int,
)
    requires
        n <= members.len(),
        members.no_duplicates(),
        forall|m: int| 0 <= m < members.len() ==> (#[trigger] members[m]) < before.len(),
        0 <= i < before.len(),
    ensures
        with_members(dict, before, members, output, n).len() == before.len(),
        (forall|m: int| 0 <= m < n ==> #[trigger] members[m] != i) ==> with_members(
            dict,
            before,
            members,
            output,
            n,
        )[i] == before[i],
        forall|m: int|
            0 <= m < n && #[trigger] members[m] == i ==> with_members(
                dict,
                before,
                members,
                output,
                n,
            )[i] == row_reading(dict, output, m),
    decreases n,
{
    if n > 0 {
        lemma_with_members(dict, before, members, output, (n - 1) as nat, i);
    }
}

proof fn lemma_with_batches(
    dict: Seq<Seq<char>>,
    count: nat,
    s: Seq<usize>,
    size: nat,
    outputs: Seq<LineOutput>,
    n: nat,
    i: int,
)
    requires
        size > 0,
        s.no_duplicates(),
        forall|p: int| 0 <= p < s.len() ==> (#[trigger] s[p]) < count,
        n <= crate::ocr::text::batch::chunks(s, size).len(),
        0 <= i < count,
    ensures
        ({
            let groups = crate::ocr::text::batch::chunks(s, size);
            let r = with_batches(dict, count, groups, outputs, n);
            &&& r.len() == count
            &&& (forall|k: int, m: int|
                0 <= k < n && 0 <= m < groups[k].len() ==> #[trigger] groups[k][m] != i) ==> r[i]
                == unread()
            &&& forall|k: int, m: int|
                0 <= k < n && 0 <= m < groups[k].len() && #[trigger] groups[k][m] == i ==> r[i]
                    == row_reading(dict, outputs[k], m)
        }),
    decreases n,
{
    let groups: Seq<Seq<usize>> = crate::ocr::text::batch::chunks(s, size);
    if n > 0 {
        lemma_with_batches(dict, count, s, size, outputs, (n - 1) as nat, i);
        let before: Seq<(Seq<char>, Single)> = with_batches(
            dict,
            count,
            groups,
            outputs,
            (n - 1) as nat,
        );
        let group: Seq<usize> = groups[n - 1];
        assert forall|m: int| 0 <= m < group.len() implies (#[trigger] group[m]) < before.len() by {
            lemma_chunk_entry(s, size, n - 1, m);
        }
        assert(group.no_duplicates()) by {
            assert forall|m: int, l: int|
                0 <= m < group.len() && 0 <= l < group.len() && m != l implies group[m]
                != group[l] by {
                lemma_chunk_entry(s, size, n - 1, m);
                lemma_chunk_entry(s, size, n - 1, l);
            }
        }
        lemma_with_members(dict, before, group, outputs[n - 1], group.len(), i);
        let r: Seq<(Seq<char>, Single)> = with_batches(dict, count, groups, outputs, n);
        assert forall|k: int, m: int|
            0 <= k < n && 0 <= m < groups[k].len() && #[trigger] groups[k][m] == i implies r[i]
            == row_reading(dict, outputs[k], m) by {
            if k < n - 1 {
                // the picture is in no other batch
                assert forall|l: int| 0 <= l < group.len() implies #[trigger] group[l] != i by {
                    lemma_chunk_entry(s, size, n - 1, l);
                    lemma_chunk_entry(s, size, k, m);
                    if group[l] == i {
                        lemma_chunk_places(size, k, m, n - 1, l);
                    }
                }
            }
        }
        if forall|k: int, m: int|
            0 <= k < n && 0 <= m < groups[k].len() ==> #[trigger] groups[k][m] != i {
            assert forall|l: int| 0 <= l < group.len() implies #[trigger] group[l] != i by {
                assert(groups[n - 1][l] != i);
            }
        }
    }
}

/// Every picture gets the reading that the model gave for it, wherever it was fed; pictures
/// without pixels get none.
pub proof fn lemma_readings_in_order(
    dict: Seq<Seq<char>>,
    inputs: Seq<Option<LineInput>>,
    size: nat,
    outputs: Seq<LineOutput>,
)
    requires
        size > 0,
        crate::ocr::text::batch::well_formed(inputs),
        inputs.len() <= usize::MAX,
    ensures
        ({
            let groups = crate::ocr::text::batch::chunks(
                crate::ocr::text::batch::queue(inputs),
                size,
            );
            let r = with_batches(dict, inputs.len(), groups, outputs, groups.len());
            &&& r.len() == inputs.len()
            &&& forall|i: int| 0 <= i < inputs.len() && inputs[i] is None ==> #[trigger] r[i] == unread()
            &&& forall|k: int, m: int|
                0 <= k < groups.len() && 0 <= m < groups[k].len() ==> r[#[trigger] groups[k][m] as int]
                    == row_reading(dict, outputs[k], m)
        }),
{
    let s: Seq<usize> = crate::ocr::text::batch::queue(inputs);
    let groups: Seq<Seq<usize>> = crate::ocr::text::batch::chunks(s, size);
    let r: Seq<(Seq<char>, Single)> = with_batches(
        dict,
        inputs.len(),
        groups,
        outputs,
        groups.len(),
    );
    crate::ocr::text::batch::lemma_queue(inputs);
    assert forall|p: int| 0 <= p < s.len() implies (#[trigger] s[p]) < inputs.len() by {
        assert(s.contains(s[p]));
    }
    assert forall|i: int| 0 <= i < inputs.len() && inputs[i] is None implies #[trigger] r[i]
        == unread() by {
        lemma_with_batches(dict, inputs.len(), s, size, outputs, groups.len(), i);
        assert forall|k: int, m: int|
            0 <= k < groups.len() && 0 <= m < groups[k].len() implies #[trigger] groups[k][m]
            != i by {
            lemma_chunk_entry(s, size, k, m);
            assert(s.contains(s[k * size + m]));
        }
    }
    assert forall|k: int, m: int|
        0 <= k < groups.len() && 0 <= m < groups[k].len() implies r[#[trigger] groups[k][m] as int]
        == row_reading(dict, outputs[k], m) by {
        lemma_chunk_entry(s, size, k, m);
        lemma_with_batches(
            dict,
            inputs.len(),
            s,
            size,
            outputs,
            groups.len(),
            groups[k][m] as int,
        );
    }
    if inputs.len() > 0 {
        lemma_with_batches(dict, inputs.len(), s, size, outputs, groups.len(), 0);
    } else {
        assert(crate::ocr::text::batch::present(inputs, 0).len() == 0);
        assert(groups.len() == 0);
    }
}

/// Reads text lines.
#[derive(Debug)]
pub struct TextRecognizer {
    /// Whether the model answers with the likeliest classes only.
    pub compact_output: bool,
    /// How many pictures are fed at once.
    pub batch_size: usize,
    /// The characters: entry `i` is class `i + 1`.
    pub dict: Vec<String>,
}

impl TextRecognizer {
    /// At least one picture is fed at once.
    pub open spec fn wf(&self) -> bool {
        self.batch_size >= 1
    }

    /// A reader for a model with the given outputs, and a dictionary with one entry per line.
    pub fn new(output_names: &Vec<String>, dict: &str) -> (r: TextRecognizer)
        ensures
            r.wf(),
            r.compact_output <==> exists|i: int|
                0 <= i < output_names@.len() && (#[trigger] output_names@[i])@ == "token_ids"@,
            r.batch_size == crate::ocr::text::line::DEFAULT_BATCH_SIZE,
            crate::strings::texts(r.dict@) == crate::strings::lines_of(dict@),
    {
        let mut compact: bool = false;
        let mut i: usize = 0;
        while i < output_names.len()
            invariant
                i <= output_names.len(),
                compact <==> exists|k: int|
                    0 <= k < i && (#[trigger] output_names@[k])@ == "token_ids"@,
            decreases output_names.len() - i,
        {
            let found: bool = crate::strings::same_text(output_names[i].as_str(), "token_ids");
            if found {
                assert(output_names@[i as int]@ == "token_ids"@);
                compact = true;
            }
            i = i + 1;
        }
        TextRecognizer {
            compact_output: compact,
            batch_size: crate::ocr::text::line::DEFAULT_BATCH_SIZE,
            dict: crate::strings::split_lines(dict),
        }
    }

    /// Sets how many pictures are fed at once, at least one.
    pub fn with_batch_size(self, batch_size: usize) -> (r: TextRecognizer)
        ensures
            r.wf(),
            r.compact_output == self.compact_output,
            r.batch_size == (if batch_size < 1 {
                1
            } else {
                batch_size
            }),
            r.dict == self.dict,
    {
        let size: usize = if batch_size < 1 {
            1
        } else {
            batch_size
        };
        TextRecognizer { compact_output: self.compact_output, batch_size: size, dict: self.dict }
    }

    /// What the model is fed for a single picture: nothing for one without pixels, whose
    /// reading is no text with no confidence.
    pub fn input(&self, image: &RgbImage) -> (r: Option<LineInput>)
        requires
            crate::ocr::text::line::readable(*image),
        ensures
            r is None <==> image.empty(),
            r matches Some(input) ==> crate::ocr::text::line::is_line_input(*image, input),
    {
        if image.width == 0 || image.height == 0 {
            None
        } else {
            Some(crate::ocr::text::line::resize_norm(image))
        }
    }

    /// What the answer for a single picture says.
    pub fn read_single(&self, output: &LineOutput) -> (r: (String, Single))
        requires
            output.complete(),
        ensures
            (r.0@, r.1) == single_reading(crate::strings::texts(self.dict@), *output),
    {
        match output {
            LineOutput::Compact { steps, ids, probs } => {
                ctc_decode_compact(&self.dict, ids.as_slice(), probs.as_slice())
            },
            LineOutput::Full { steps, classes, logits } => {
                ctc_decode(&self.dict, logits.as_slice(), *steps, *classes)
            },
        }
    }

    /// What picture `m` of an answer for `n` pictures says.
    fn read_row(&self, output: &LineOutput, m: usize, n: usize) -> (r: (String, Single))
        requires
            m < n,
            output.answers(n as int),
        ensures
            (r.0@, r.1) == row_reading(crate::strings::texts(self.dict@), *output, m as int),
    {
        match output {
            LineOutput::Compact { steps, ids, probs } => {
                let size: usize = *steps;
                proof {
                    lemma_row_fits(m as int, n as int, size as int, ids@.len() as int);
                    lemma_row_fits(m as int, n as int, size as int, probs@.len() as int);
                    assert(ids.len() <= usize::MAX);
                }
                let from: usize = m * size;
                ctc_decode_compact(
                    &self.dict,
                    slice_subrange(ids.as_slice(), from, from + size),
                    slice_subrange(probs.as_slice(), from, from + size),
                )
            },
            LineOutput::Full { steps, classes, logits } => {
                proof {
                    let size: int = *steps * *classes;
                    assert(size >= 0) by (nonlinear_arith)
                        requires
                            size == *steps * *classes,
                    ;
                    lemma_row_fits(m as int, n as int, size, logits@.len() as int);
                    assert(logits.len() <= usize::MAX);
                    assert(size <= n * size) by (nonlinear_arith)
                        requires
                            n >= 1,
                            size >= 0,
                    ;
                }
                let size: usize = *steps * *classes;
                let from: usize = m * size;
                let row: &[Single] = slice_subrange(logits.as_slice(), from, from + size);
                ctc_decode(&self.dict, row, *steps, *classes)
            },
        }
    }

    /// Notes the readings of the members of a batch.
    fn note(&self, results: &mut Vec<(String, Single)>, members: &Vec<usize>, output: &LineOutput)
        requires
            output.answers(members@.len() as int),
            forall|m: int|
                0 <= m < members@.len() ==> (#[trigger] members@[m]) < old(results)@.len(),
        ensures
            final(results)@.len() == old(results)@.len(),
            readings(final(results)@) == with_members(
                crate::strings::texts(self.dict@),
                readings(old(results)@),
                members@,
                *output,
                members@.len(),
            ),
    {
        let ghost before: Seq<(Seq<char>, Single)> = readings(results@);
        let mut m: usize = 0;
        while m < members.len()
            invariant
                m <= members.len(),
                output.answers(members@.len() as int),
                results@.len() == before.len(),
                forall|m: int| 0 <= m < members@.len() ==> (#[trigger] members@[m]) < before.len(),
                readings(results@) == with_members(
                    crate::strings::texts(self.dict@),
                    before,
                    members@,
                    *output,
                    m as nat,
                ),
            decreases members.len() - m,
        {
            let ghost now: Seq<(Seq<char>, Single)> = readings(results@);
            let row: (String, Single) = self.read_row(output, m, members.len());
            let at: usize = members[m];
            results.set(at, row);
            assert(readings(results@) =~= now.update(at as int, (row.0@, row.1)));
            m = m + 1;
        }
    }

    /// The readings of `count` pictures from the answers for their batches, in the order of
    /// the pictures.
    pub fn read_batches(&self, count: usize, batches: &Vec<Batch>, outputs: &Vec<LineOutput>) -> (r:
        Vec<(String, Single)>)
        requires
            outputs@.len() == batches@.len(),
            forall|k: int|
                0 <= k < batches@.len() ==> (#[trigger] outputs@[k]).answers(
                    batches@[k].members@.len() as int,
                ),
            forall|k: int, m: int|
                0 <= k < batches@.len() && 0 <= m < batches@[k].members@.len() ==> (
                #[trigger] batches@[k].members@[m]) < count,
        ensures
            r@.len() == count,
            readings(r@) == with_batches(
                crate::strings::texts(self.dict@),
                count as nat,
                crate::ocr::text::batch::members_of(batches@),
                outputs@,
                batches@.len(),
            ),
    {
        let ghost groups: Seq<Seq<usize>> = crate::ocr::text::batch::members_of(batches@);
        let mut r: Vec<(String, Single)> = Vec::new();
        let mut i: usize = 0;
        while i < count
            invariant
                i <= count,
                r@.len() == i,
                readings(r@) == Seq::new(i as nat, |i: int| unread()),
            decreases count - i,
        {
            let none: (String, Single) = (String::new(), Single::from_bits(0));
            assert(none.0@ =~= Seq::<char>::empty());
            let ghost before: Seq<(Seq<char>, Single)> = readings(r@);
            r.push(none);
            assert(readings(r@) =~= before.push(unread()));
            i = i + 1;
        }
        let mut k: usize = 0;
        while k < batches.len()
            invariant
                k <= batches.len(),
                outputs@.len() == batches@.len(),
                groups == crate::ocr::text::batch::members_of(batches@),
                forall|k: int|
                    0 <= k < batches@.len() ==> (#[trigger] outputs@[k]).answers(
                        batches@[k].members@.len() as int,
                    ),
                forall|k: int, m: int|
                    0 <= k < batches@.len() && 0 <= m < batches@[k].members@.len() ==> (
                    #[trigger] batches@[k].members@[m]) < count,
                r@.len() == count,
                readings(r@) == with_batches(
                    crate::strings::texts(self.dict@),
                    count as nat,
                    groups,
                    outputs@,
                    k as nat,
                ),
            decreases batches.len() - k,
        {
            assert(groups[k as int] == batches@[k as int].members@);
            self.note(&mut r, &batches[k].members, &outputs[k]);
            k = k + 1;
        }
        r
    }
}

proof fn lemma_row_fits(m: int, n: int, size: int, limit: int)
    requires
        0 <= m < n,
        size >= 0,
        n * size <= limit,
    ensures
        0 <= m * size,
        m * size + size <= limit,
{
    assert(0 <= m * size && m * size + size <= n * size) by (nonlinear_arith)
        requires
            0 <= m,
            m + 1 <= n,
            size >= 0,
    ;
}

} // verus!
