//! SPIR-V shader code: the byte stream of a compiled shader read as the
//! 32-bit little-endian words that `vkCreateShaderModule` takes.
use vstd::prelude::*;

verus! {

/// The byte stream is not a whole number of words.
#[derive(Debug, Clone, Copy, PartialEq, Eq)]
pub struct NotWordAligned {
    /// The length of the stream in bytes.
    pub len: usize,
}

/// The little-endian word made of four bytes.
pub open spec fn le_word(b0: u8, b1: u8, b2: u8, b3: u8) -> int {
    b0 + b1 * 0x100 + b2 * 0x1_0000 + b3 * 0x100_0000
}

/// Word `k` of a byte stream.
pub open spec fn word_at(bytes: Seq<u8>, k: int) -> int {
    le_word(bytes[4 * k], bytes[4 * k + 1], bytes[4 * k + 2], bytes[4 * k + 3])
}

/// Reads `spv` as little-endian 32-bit words; a stream whose length is not a
/// multiple of 4 is refused.
pub fn spirv_words(spv: &[u8]) -> (r: Result<Vec<u32>, NotWordAligned>)
    ensures
        spv@.len() % 4 != 0 ==> r == Err::<Vec<u32>, NotWordAligned>(
            NotWordAligned { len: spv@.len() as usize },
        ),
        spv@.len() % 4 == 0 ==> (r matches Ok(words) && words@.len() * 4 == spv@.len()
            && forall|k: int| 0 <= k < words@.len() ==> #[trigger] words@[k] == word_at(spv@, k)),
{
    if spv.len() % 4 != 0 {
        return Err(NotWordAligned { len: spv.len() });
    }
    let n = spv.len() / 4;
    let mut words: Vec<u32> = Vec::with_capacity(n);
    let mut k: usize = 0;
    while k < n
        invariant
            k <= n,
            n * 4 == spv.len(),
            words@.len() == k,
            forall|j: int| 0 <= j < k ==> #[trigger] words@[j] == word_at(spv@, j),
        decreases n - k,
    {
        let p = 4 * k;
        let b0 = spv[p] as u32;
        let b1 = spv[p + 1] as u32;
        let b2 = spv[p + 2] as u32;
        let b3 = spv[p + 3] as u32;
        proof {
            assert(b0 + b1 * 0x100 + b2 * 0x1_0000 + b3 * 0x100_0000 <= u32::MAX)
                by (nonlinear_arith)
                requires
                    b0 <= 255,
                    b1 <= 255,
                    b2 <= 255,
                    b3 <= 255,
            ;
        }
        words.push(b0 + b1 * 0x100 + b2 * 0x1_0000 + b3 * 0x100_0000);
        k = k + 1;
    }
    Ok(words)
}

/// A word read from four bytes gives those bytes back, lowest first.
pub proof fn lemma_le_word_bytes(b0: u8, b1: u8, b2: u8, b3: u8)
    ensures
        le_word(b0, b1, b2, b3) % 0x100 == b0,
        (le_word(b0, b1, b2, b3) / 0x100) % 0x100 == b1,
        (le_word(b0, b1, b2, b3) / 0x1_0000) % 0x100 == b2,
        le_word(b0, b1, b2, b3) / 0x100_0000 == b3,
{
    let w = le_word(b0, b1, b2, b3);
    assert(w % 0x100 == b0) by (nonlinear_arith)
        requires
            w == b0 + b1 * 0x100 + b2 * 0x1_0000 + b3 * 0x100_0000,
            0 <= b0 <= 255,
            0 <= b1 <= 255,
            0 <= b2 <= 255,
            0 <= b3 <= 255,
    ;
    assert((w / 0x100) % 0x100 == b1) by (nonlinear_arith)
        requires
            w == b0 + b1 * 0x100 + b2 * 0x1_0000 + b3 * 0x100_0000,
            0 <= b0 <= 255,
            0 <= b1 <= 255,
            0 <= b2 <= 255,
            0 <= b3 <= 255,
    ;
    assert((w / 0x1_0000) % 0x100 == b2) by (nonlinear_arith)
        requires
            w == b0 + b1 * 0x100 + b2 * 0x1_0000 + b3 * 0x100_0000,
            0 <= b0 <= 255,
            0 <= b1 <= 255,
            0 <= b2 <= 255,
            0 <= b3 <= 255,
    ;
    assert(w / 0x100_0000 == b3) by (nonlinear_arith)
        requires
            w == b0 + b1 * 0x100 + b2 * 0x1_0000 + b3 * 0x100_0000,
            0 <= b0 <= 255,
            0 <= b1 <= 255,
            0 <= b2 <= 255,
            0 <= b3 <= 255,
    ;
}

} // verus!
