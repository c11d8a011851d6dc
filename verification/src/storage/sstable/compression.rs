//! Block compression: none, or run-length encoding.

use vstd::prelude::*;

use crate::error::CompressionError;
use crate::format::slices::copy_bytes;

verus! {

/// How the blocks of a table are compressed.
#[derive(Debug, Clone, Copy, PartialEq, Eq, Structural)]
pub enum SstableBlockCompression {
    /// Not at all.
    Uncompressed,
    /// As pairs of a run length and a byte.
    Rle,
}

impl Default for SstableBlockCompression {
    fn default() -> (r: Self)
        ensures
            r == SstableBlockCompression::Uncompressed,
    {
        SstableBlockCompression::Uncompressed
    }
}

/// The length of the run of equal bytes at `i`, of which `seen` are known, up to 255.
pub open spec fn run_from(input: Seq<u8>, i: int, seen: nat) -> nat
    decreases 255 - seen,
{
    if seen < 255 && i + seen < input.len() && input[i + seen] == input[i] {
        run_from(input, i, seen + 1)
    } else {
        seen
    }
}

/// The runs of `input` from `i` on: each its length, then its byte.
pub open spec fn runs_from(input: Seq<u8>, i: int) -> Seq<u8>
    decreases input.len() - i,
{
    if i < 0 || i >= input.len() {
        Seq::empty()
    } else {
        proof {
            run_bounds(input, i, 1);
        }
        let run = run_from(input, i, 1);
        seq![run as u8, input[i]] + runs_from(input, i + run)
    }
}

/// A byte repeated.
pub open spec fn repeated(byte: u8, n: nat) -> Seq<u8> {
    Seq::new(n, |i: int| byte)
}

/// What the pairs from `i` on add to `out`, which may hold `limit` bytes at most.
pub open spec fn unrolled(input: Seq<u8>, i: int, out: Seq<u8>, limit: nat) -> Result<
    Seq<u8>,
    CompressionError,
>
    decreases input.len() - i,
{
    if i < 0 || i + 2 > input.len() {
        if out.len() == limit {
            Ok(out)
        } else {
            Err(
                CompressionError::RleLength {
                    expected: limit as usize,
                    actual: out.len() as usize,
                },
            )
        }
    } else if input[i] == 0 {
        Err(CompressionError::RleZeroRun)
    } else if out.len() + input[i] > limit {
        Err(
            CompressionError::RleOverflow {
                expected: limit as usize,
                actual: if out.len() + input[i] > usize::MAX {
                    usize::MAX
                } else {
                    (out.len() + input[i]) as usize
                },
            },
        )
    } else {
        unrolled(input, i + 2, out + repeated(input[i + 1], input[i] as nat), limit)
    }
}

/// The compressed form of `input`.
pub open spec fn compressed(kind: SstableBlockCompression, input: Seq<u8>) -> Seq<u8> {
    match kind {
        SstableBlockCompression::Uncompressed => input,
        SstableBlockCompression::Rle => runs_from(input, 0),
    }
}

/// What `input` stands for, where it should be `len` bytes.
pub open spec fn decompressed(kind: SstableBlockCompression, input: Seq<u8>, len: nat) -> Result<
    Seq<u8>,
    CompressionError,
> {
    match kind {
        SstableBlockCompression::Uncompressed => if input.len() == len {
            Ok(input)
        } else {
            Err(
                CompressionError::NoneLength {
                    expected: len as usize,
                    actual: input.len() as usize,
                },
            )
        },
        SstableBlockCompression::Rle => if input.len() % 2 != 0 {
            Err(CompressionError::RleOddLength(input.len() as usize))
        } else {
            unrolled(input, 0, Seq::empty(), len)
        },
    }
}

/// The tag of a compression.
pub open spec fn tag_of(kind: SstableBlockCompression) -> u8 {
    match kind {
        SstableBlockCompression::Uncompressed => 0,
        SstableBlockCompression::Rle => 1,
    }
}

/// The compression of a tag.
pub open spec fn kind_of_tag(tag: u8) -> Result<SstableBlockCompression, CompressionError> {
    if tag == 0 {
        Ok(SstableBlockCompression::Uncompressed)
    } else if tag == 1 {
        Ok(SstableBlockCompression::Rle)
    } else {
        Err(CompressionError::UnknownTag(tag))
    }
}

/// A run is no longer than 255, ends inside the input and holds one byte only.
pub proof fn run_bounds(input: Seq<u8>, i: int, seen: nat)
    requires
        0 <= i,
        1 <= seen <= 255,
        i + seen <= input.len(),
        forall|j: int| i <= j < i + seen ==> #[trigger] input[j] == input[i],
    ensures
        seen <= run_from(input, i, seen) <= 255,
        i + run_from(input, i, seen) <= input.len(),
        forall|j: int| i <= j < i + run_from(input, i, seen) ==> #[trigger] input[j] == input[i],
    decreases 255 - seen,
{
    if seen < 255 && i + seen < input.len() && input[i + seen] == input[i] {
        run_bounds(input, i, seen + 1);
    }
}

proof fn lemma_unroll_runs(input: Seq<u8>, i: int, coded: Seq<u8>, at: int)
    requires
        0 <= i <= input.len() <= usize::MAX,
        0 <= at <= coded.len(),
        coded.subrange(at, coded.len() as int) == runs_from(input, i),
    ensures
        unrolled(coded, at, input.subrange(0, i), input.len()) == Ok::<Seq<u8>, CompressionError>(
            input,
        ),
        (coded.len() - at) % 2 == 0,
    decreases input.len() - i,
{
    let tail = coded.subrange(at, coded.len() as int);
    if i == input.len() {
        assert(tail.len() == 0);
        assert(input.subrange(0, i) =~= input);
    } else {
        run_bounds(input, i, 1);
        let run = run_from(input, i, 1);
        let rest = runs_from(input, i + run);
        assert(tail == seq![run as u8, input[i]] + rest);
        assert(coded[at] == tail[0]);
        assert(coded[at + 1] == tail[1]);
        assert(coded.subrange(at + 2, coded.len() as int) =~= tail.subrange(2, tail.len() as int));
        assert(tail.subrange(2, tail.len() as int) =~= rest);
        assert(input.subrange(0, i) + repeated(input[i], run) =~= input.subrange(0, i + run));
        lemma_unroll_runs(input, i + run, coded, at + 2);
    }
}

/// Decompressing what was compressed gives the input back.
pub proof fn compression_round_trip(kind: SstableBlockCompression, input: Seq<u8>)
    requires
        input.len() <= usize::MAX,
    ensures
        decompressed(kind, compressed(kind, input), input.len()) == Ok::<
            Seq<u8>,
            CompressionError,
        >(input),
{
    if kind is Rle {
        let coded = runs_from(input, 0);
        assert(coded.subrange(0, coded.len() as int) =~= coded);
        assert(input.subrange(0, 0) =~= Seq::empty());
        lemma_unroll_runs(input, 0, coded, 0);
    }
}

/// A run is as long as equal bytes follow, up to 255.
proof fn lemma_run_reaches(input: Seq<u8>, i: int, seen: nat, run: nat)
    requires
        0 <= i,
        1 <= seen <= run <= 255,
        i + run <= input.len(),
        forall|j: int| i <= j < i + run ==> #[trigger] input[j] == input[i],
    ensures
        run_from(input, i, seen) >= run,
    decreases 255 - seen,
{
    if seen < run {
        assert(input[i + seen] == input[i]);
        lemma_run_reaches(input, i, seen + 1, run);
    } else if run < 255 && i + run < input.len() && input[i + run] == input[i] {
        run_bounds(input, i, run);
    }
}

/// From a later place there are no more runs.
proof fn lemma_runs_shrink(input: Seq<u8>, i: int, j: int)
    requires
        0 <= i <= j <= input.len(),
    ensures
        runs_from(input, j).len() <= runs_from(input, i).len(),
    decreases input.len() - i,
{
    if i < j {
        run_bounds(input, i, 1);
        let end = i + run_from(input, i, 1);
        if j >= end {
            lemma_runs_shrink(input, end, j);
        } else {
            assert forall|k: int| j <= k < end implies #[trigger] input[k] == input[j] by {
                assert(input[j] == input[i]);
                assert(input[k] == input[i]);
            }
            lemma_run_reaches(input, j, 1, (end - j) as nat);
            run_bounds(input, j, 1);
            lemma_runs_shrink(input, end, j + run_from(input, j, 1));
        }
    }
}

/// What pairs add to is what they give in the end, at its front.
proof fn lemma_unrolled_front(coded: Seq<u8>, at: int, out: Seq<u8>, limit: nat)
    requires
        unrolled(coded, at, out, limit) is Ok,
    ensures
        ({
            let all = unrolled(coded, at, out, limit)->Ok_0;
            &&& all.len() == limit
            &&& out.len() <= limit
            &&& all.subrange(0, out.len() as int) == out
        }),
    decreases coded.len() - at,
{
    let all = unrolled(coded, at, out, limit)->Ok_0;
    if at < 0 || at + 2 > coded.len() {
        assert(all.subrange(0, out.len() as int) =~= out);
    } else {
        let more = out + repeated(coded[at + 1], coded[at] as nat);
        lemma_unrolled_front(coded, at + 2, more, limit);
        assert(all.subrange(0, out.len() as int) =~= all.subrange(
            0,
            more.len() as int,
        ).subrange(0, out.len() as int));
        assert(more.subrange(0, out.len() as int) =~= out);
    }
}

/// Pairs that add the rest of an input are no fewer than its runs from there.
proof fn lemma_no_fewer_pairs(input: Seq<u8>, i: int, coded: Seq<u8>, at: int)
    requires
        0 <= i <= input.len(),
        0 <= at <= coded.len(),
        unrolled(coded, at, input.subrange(0, i), input.len()) == Ok::<Seq<u8>, CompressionError>(
            input,
        ),
    ensures
        runs_from(input, i).len() <= coded.len() - at,
    decreases coded.len() - at,
{
    let out = input.subrange(0, i);
    if at + 2 > coded.len() {
        assert(i == input.len());
    } else {
        let run = coded[at] as nat;
        let more = out + repeated(coded[at + 1], run);
        lemma_unrolled_front(coded, at + 2, more, input.len());
        assert(more =~= input.subrange(0, i + run));
        assert forall|k: int| i <= k < i + run implies #[trigger] input[k] == coded[at + 1] by {
            assert(input[k] == input.subrange(0, i + run)[k]);
            assert(more[k] == coded[at + 1]);
        }
        assert(input[i] == coded[at + 1]);
        lemma_no_fewer_pairs(input, i + run, coded, at + 2);
        lemma_run_reaches(input, i, 1, run);
        run_bounds(input, i, 1);
        lemma_runs_shrink(input, i + run, i + run_from(input, i, 1));
    }
}

/// No shorter payload of runs stands for the same bytes.
pub proof fn compressed_is_shortest(input: Seq<u8>, payload: Seq<u8>)
    requires
        decompressed(SstableBlockCompression::Rle, payload, input.len()) == Ok::<
            Seq<u8>,
            CompressionError,
        >(input),
    ensures
        compressed(SstableBlockCompression::Rle, input).len() <= payload.len(),
{
    assert(input.subrange(0, 0) =~= Seq::empty());
    lemma_no_fewer_pairs(input, 0, payload, 0);
}

/// The sum of the run lengths of pairs from `i` on.
pub open spec fn run_total(input: Seq<u8>, i: int) -> int
    decreases input.len() - i,
{
    if i < 0 || i + 2 > input.len() {
        0
    } else {
        input[i] + run_total(input, i + 2)
    }
}

/// No run from pair `i` on is empty.
pub open spec fn no_empty_run(input: Seq<u8>, i: int) -> bool {
    forall|k: int| i <= 2 * k && 2 * k + 2 <= input.len() ==> #[trigger] input[2 * k] != 0
}

proof fn lemma_total_bounds(input: Seq<u8>, i: int)
    ensures
        run_total(input, i) >= 0,
    decreases input.len() - i,
{
    if i >= 0 && i + 2 <= input.len() {
        lemma_total_bounds(input, i + 2);
    }
}

proof fn lemma_unrolled_iff(input: Seq<u8>, i: int, out: Seq<u8>, limit: nat)
    requires
        0 <= i,
        i % 2 == 0,
    ensures
        unrolled(input, i, out, limit) is Ok <==> no_empty_run(input, i) && out.len() + run_total(
            input,
            i,
        ) == limit,
    decreases input.len() - i,
{
    if i + 2 <= input.len() {
        let more = out + repeated(input[i + 1], input[i] as nat);
        lemma_unrolled_iff(input, i + 2, more, limit);
        lemma_total_bounds(input, i + 2);
        assert(input[2 * (i / 2)] == input[i]);
        if input[i] != 0 && no_empty_run(input, i + 2) {
            assert forall|k: int| i <= 2 * k && 2 * k + 2 <= input.len() implies
                #[trigger] input[2 * k] != 0 by {
                if 2 * k != i {
                    assert(i + 2 <= 2 * k);
                }
            }
        }
    }
}

/// What stands for bytes and what does not. Uncompressed bytes stand for themselves where they
/// are as many as expected. Runs stand for bytes exactly where they are whole pairs, none is of
/// no bytes, and together they are as many bytes as expected.
pub proof fn decompressed_iff_lengths_agree(
    kind: SstableBlockCompression,
    input: Seq<u8>,
    len: nat,
)
    ensures
        ({
            let r = decompressed(kind, input, len);
            &&& r matches Ok(out) ==> out.len() == len
            &&& kind == SstableBlockCompression::Uncompressed ==> (r is Ok <==> input.len() == len)
                && (r matches Ok(out) ==> out == input)
            &&& kind == SstableBlockCompression::Rle ==> (r is Ok <==> input.len() % 2 == 0
                && no_empty_run(input, 0) && run_total(input, 0) == len)
        }),
{
    lemma_unrolled_iff(input, 0, Seq::empty(), len);
    if kind == SstableBlockCompression::Rle && decompressed(kind, input, len) is Ok {
        lemma_unrolled_front(input, 0, Seq::empty(), len);
    }
}

/// Each pair stands for its byte as often as it says: what the first pair stands for comes
/// first, then what the other pairs stand for.
pub proof fn first_run_comes_first(input: Seq<u8>, len: nat)
    requires
        input.len() >= 2,
        decompressed(SstableBlockCompression::Rle, input, len) is Ok,
    ensures
        ({
            let out = decompressed(SstableBlockCompression::Rle, input, len)->Ok_0;
            let n = input[0] as int;
            let rest = input.subrange(2, input.len() as int);
            &&& n <= len
            &&& forall|i: int| 0 <= i < n ==> #[trigger] out[i] == input[1]
            &&& decompressed(SstableBlockCompression::Rle, rest, (len - n) as nat) == Ok::<
                Seq<u8>,
                CompressionError,
            >(out.subrange(n, len as int))
        }),
{
    let out = decompressed(SstableBlockCompression::Rle, input, len)->Ok_0;
    let n = input[0] as int;
    let first = repeated(input[1], n as nat);
    assert(Seq::<u8>::empty() + first =~= first);
    lemma_unrolled_front(input, 2, first, len);
    assert forall|i: int| 0 <= i < n implies #[trigger] out[i] == input[1] by {
        assert(out.subrange(0, n)[i] == first[i]);
    }
    assert(first + Seq::<u8>::empty() =~= first);
    lemma_unrolled_shift(input, 2, first, Seq::empty(), len, n as nat);
}

/// Pairs add the same to whatever stands before.
proof fn lemma_unrolled_shift(
    input: Seq<u8>,
    i: int,
    head: Seq<u8>,
    out: Seq<u8>,
    limit: nat,
    n: nat,
)
    requires
        2 <= i <= input.len(),
        head.len() == n <= limit,
        unrolled(input, i, head + out, limit) is Ok,
    ensures
        unrolled(input.subrange(2, input.len() as int), i - 2, out, (limit - n) as nat) == Ok::<
            Seq<u8>,
            CompressionError,
        >(unrolled(input, i, head + out, limit)->Ok_0.subrange(n as int, limit as int)),
    decreases input.len() - i,
{
    let rest = input.subrange(2, input.len() as int);
    if i + 2 > input.len() {
        assert((head + out).len() == limit);
        assert((head + out).subrange(n as int, limit as int) =~= out);
    } else {
        let more = repeated(input[i + 1], input[i] as nat);
        assert(rest[i - 2] == input[i] && rest[i - 1] == input[i + 1]);
        assert((head + out) + more =~= head + (out + more));
        lemma_unrolled_shift(input, i + 2, head, out + more, limit, n);
    }
}

/// A tag gives its compression back.
pub proof fn tag_round_trip(kind: SstableBlockCompression)
    ensures
        kind_of_tag(tag_of(kind)) == Ok::<SstableBlockCompression, CompressionError>(kind),
{
}

impl SstableBlockCompression {
    /// The tag that stands for the compression.
    pub fn as_tag(self) -> (r: u8)
        ensures
            r == tag_of(self),
    {
        match self {
            SstableBlockCompression::Uncompressed => 0,
            SstableBlockCompression::Rle => 1,
        }
    }

    /// The compression of a tag.
    pub fn from_tag(tag: u8) -> (r: Result<SstableBlockCompression, CompressionError>)
        ensures
            r == kind_of_tag(tag),
    {
        if tag == 0 {
            Ok(SstableBlockCompression::Uncompressed)
        } else if tag == 1 {
            Ok(SstableBlockCompression::Rle)
        } else {
            Err(CompressionError::UnknownTag(tag))
        }
    }

    /// Compresses `input`.
    pub fn compress(self, input: &[u8]) -> (r: Vec<u8>)
        ensures
            r@ == compressed(self, input@),
    {
        match self {
            SstableBlockCompression::Uncompressed => copy_bytes(input),
            SstableBlockCompression::Rle => rle_encode(input),
        }
    }

    /// Decompresses `input`, which stands for `expected_uncompressed_len` bytes.
    pub fn decompress(self, input: &[u8], expected_uncompressed_len: usize) -> (r: Result<
        Vec<u8>,
        CompressionError,
    >)
        ensures
            match decompressed(self, input@, expected_uncompressed_len as nat) {
                Ok(out) => r is Ok && r->Ok_0@ == out,
                Err(e) => r is Err && r->Err_0 == e,
            },
    {
        match self {
            SstableBlockCompression::Uncompressed => {
                if input.len() != expected_uncompressed_len {
                    return Err(
                        CompressionError::NoneLength {
                            expected: expected_uncompressed_len,
                            actual: input.len(),
                        },
                    );
                }
                Ok(copy_bytes(input))
            },
            SstableBlockCompression::Rle => rle_decode(input, expected_uncompressed_len),
        }
    }
}

fn rle_encode(input: &[u8]) -> (r: Vec<u8>)
    ensures
        r@ == runs_from(input@, 0),
{
    let mut out: Vec<u8> = Vec::new();
    let mut i: usize = 0;
    assert(out@ + runs_from(input@, 0) =~= runs_from(input@, 0));
    while i < input.len()
        invariant
            i <= input@.len(),
            out@ + runs_from(input@, i as int) == runs_from(input@, 0),
        decreases input.len() - i,
    {
        let byte: u8 = input[i];
        let mut run: usize = 1;
        proof {
            run_bounds(input@, i as int, 1);
        }
        while run < 255 && run < input.len() - i && input[i + run] == byte
            invariant
                i < input@.len(),
                1 <= run <= 255,
                i + run <= input@.len(),
                byte == input@[i as int],
                run_from(input@, i as int, run as nat) == run_from(input@, i as int, 1),
            decreases 255 - run,
        {
            run = run + 1;
        }
        let ghost before = out@;
        out.push(run as u8);
        out.push(byte);
        assert(out@ =~= before + seq![run as u8, byte]);
        assert(out@ + runs_from(input@, i + run) =~= before + (seq![run as u8, byte] + runs_from(
            input@,
            i + run,
        )));
        i = i + run;
    }
    assert(out@ + runs_from(input@, i as int) =~= out@);
    out
}

fn rle_decode(input: &[u8], expected_uncompressed_len: usize) -> (r: Result<
    Vec<u8>,
    CompressionError,
>)
    ensures
        match decompressed(
            SstableBlockCompression::Rle,
            input@,
            expected_uncompressed_len as nat,
        ) {
            Ok(out) => r is Ok && r->Ok_0@ == out,
            Err(e) => r is Err && r->Err_0 == e,
        },
{
    if input.len() % 2 != 0 {
        return Err(CompressionError::RleOddLength(input.len()));
    }
    let mut out: Vec<u8> = Vec::new();
    let mut i: usize = 0;
    while i < input.len()
        invariant
            i <= input.len(),
            i % 2 == 0,
            input.len() % 2 == 0,
            out@.len() <= expected_uncompressed_len,
            unrolled(input@, i as int, out@, expected_uncompressed_len as nat) == unrolled(
                input@,
                0,
                Seq::empty(),
                expected_uncompressed_len as nat,
            ),
        decreases input.len() - i,
    {
        let run: usize = input[i] as usize;
        if run == 0 {
            return Err(CompressionError::RleZeroRun);
        }
        let byte: u8 = input[i + 1];
        let new_len: usize = out.len().saturating_add(run);
        if run > expected_uncompressed_len - out.len() {
            return Err(
                CompressionError::RleOverflow {
                    expected: expected_uncompressed_len,
                    actual: new_len,
                },
            );
        }
        let ghost before = out@;
        out.resize(new_len, byte);
        assert(out@ =~= before + repeated(byte, run as nat)) by {
            assert(out@.subrange(0, before.len() as int) == before);
            assert forall|j: int| 0 <= j < before.len() implies out@[j] == before[j] by {
                assert(out@[j] == out@.subrange(0, before.len() as int)[j]);
            }
        }
        i = i + 2;
    }
    if out.len() != expected_uncompressed_len {
        return Err(
            CompressionError::RleLength {
                expected: expected_uncompressed_len,
                actual: out.len(),
            },
        );
    }
    Ok(out)
}

} // verus!
