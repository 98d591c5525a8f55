use vstd::prelude::*;

verus! {

/// The sum of the first `i` values.
pub open spec fn prefix_sum(s: Seq<i32>, i: int) -> int
    decreases i,
{
    if i <= 0 {
        0
    } else {
        prefix_sum(s, i - 1) + s[i - 1]
    }
}

/// Decodes a delta-coded run: each output value is the running total of
/// the input up to and including its place.
pub fn deltas(values: &Vec<i32>) -> (r: Vec<i32>)
    requires
        forall|i: int|
            1 <= i <= values@.len() ==> i32::MIN <= #[trigger] prefix_sum(values@, i) <= i32::MAX,
    ensures
        r@.len() == values@.len(),
        forall|i: int| 0 <= i < r@.len() ==> r@[i] == prefix_sum(values@, i + 1),
{
    let mut out: Vec<i32> = Vec::new();
    let mut acc: i32 = 0;
    let n = values.len();
    let mut i: usize = 0;
    #[verifier::loop_isolation(false)]
    while i < n
        invariant
            i <= n,
            out@.len() == i,
            acc == prefix_sum(values@, i as int),
            forall|j: int| 0 <= j < i ==> out@[j] == prefix_sum(values@, j + 1),
        decreases n - i,
    {
        proof {
            assert(prefix_sum(values@, i + 1) == prefix_sum(values@, i as int) + values@[i as int]);
        }
        acc = acc + values[i];
        out.push(acc);
        i = i + 1;
    }
    out
}

/// The kinds of chunk a video container holds.
#[derive(Debug, Clone, Copy, PartialEq, Eq, Structural)]
pub enum ChunkType {
    InitAudio,
    AudioOnly,
    InitVideo,
    VideoChunk,
    ShutdownChunk,
    EndChunk,
}

impl ChunkType {
    /// The chunk kind a tag word names, if any.
    pub fn from_int(i: i32) -> (r: Option<ChunkType>)
        ensures
            i == 0 ==> r == Some(ChunkType::InitAudio),
            i == 1 ==> r == Some(ChunkType::AudioOnly),
            i == 2 ==> r == Some(ChunkType::InitVideo),
            i == 3 ==> r == Some(ChunkType::VideoChunk),
            i == 4 ==> r == Some(ChunkType::ShutdownChunk),
            i == 5 ==> r == Some(ChunkType::EndChunk),
            i < 0 || i > 5 ==> r is None,
    {
        match i {
            0 => Some(ChunkType::InitAudio),
            1 => Some(ChunkType::AudioOnly),
            2 => Some(ChunkType::InitVideo),
            3 => Some(ChunkType::VideoChunk),
            4 => Some(ChunkType::ShutdownChunk),
            5 => Some(ChunkType::EndChunk),
            _ => None,
        }
    }
}

} // verus!
