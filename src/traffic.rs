use vstd::prelude::*;

use rand::Rng;

use crate::lines::{concat, lemma_concat_push, views};

verus! {

/// Relies on rand::Rng::gen_range with an inclusive range, drawn from the
/// thread-local generator: the value lies within the range (it panics only
/// on an empty range, which `requires` excludes).
#[verifier::external_body]
fn random_in_range(low: u64, high: u64) -> (r: u64)
    requires
        low <= high,
    ensures
        low <= r <= high,
{
    rand::thread_rng().gen_range(low..=high)
}

/// Parameters of the load-generating client: how often the message is sent
/// whole and then in random chunks, the longest pause between chunks, and
/// the message itself.
pub struct TrafficConfig {
    pub chunk_count: u32,
    pub max_delay_microseconds: u64,
    pub message: Vec<u8>,
}

impl TrafficConfig {
    /// The client's usual load: a fixed line, a hundred times each way, with
    /// pauses below one second.
    pub fn new() -> (r: TrafficConfig)
        ensures
            r.chunk_count == 100,
            r.max_delay_microseconds == 1_000_000,
            r.message@ == "Hello World, UIC CS463 was here!\n"@.map_values(|c: char| c as u8),
    {
        let text = "Hello World, UIC CS463 was here!\n";
        proof {
            reveal_strlit("Hello World, UIC CS463 was here!\n");
        }
        let message = ascii_bytes(text);
        TrafficConfig { chunk_count: 100, max_delay_microseconds: 1_000_000, message }
    }

    /// Cuts the message into non-empty chunks of random sizes which, sent in
    /// order, make up the message again.
    pub fn random_chunks(&self) -> (chunks: Vec<Vec<u8>>)
        ensures
            concat(views(chunks@)) == self.message@,
            forall|k: int| 0 <= k < chunks@.len() ==> (#[trigger] chunks@[k])@.len() > 0,
    {
        let n = self.message.len();
        let mut chunks: Vec<Vec<u8>> = Vec::new();
        let mut offset: usize = 0;
        while offset < n
            invariant
                offset <= n,
                n == self.message@.len(),
                concat(views(chunks@)) == self.message@.subrange(0, offset as int),
                forall|k: int| 0 <= k < chunks@.len() ==> (#[trigger] chunks@[k])@.len() > 0,
            decreases n - offset,
        {
            let size = random_in_range(1, (n - offset) as u64) as usize;
            let mut chunk: Vec<u8> = Vec::new();
            let mut k: usize = 0;
            while k < size
                invariant
                    k <= size,
                    offset + size <= n,
                    n == self.message@.len(),
                    chunk@ == self.message@.subrange(offset as int, offset + k),
                decreases size - k,
            {
                chunk.push(self.message[offset + k]);
                k = k + 1;
                assert(chunk@ =~= self.message@.subrange(offset as int, offset + k));
            }
            let ghost before = views(chunks@);
            chunks.push(chunk);
            proof {
                assert(views(chunks@) =~= before.push(chunks@.last()@));
                lemma_concat_push(before, chunks@.last()@);
                assert(self.message@.subrange(0, offset as int) + self.message@.subrange(
                    offset as int,
                    offset + size,
                ) =~= self.message@.subrange(0, offset + size));
            }
            offset = offset + size;
        }
        assert(self.message@.subrange(0, n as int) =~= self.message@);
        chunks
    }

    /// A random pause before the next chunk, below the configured maximum.
    pub fn random_delay(&self) -> (r: u64)
        requires
            self.max_delay_microseconds > 0,
        ensures
            r < self.max_delay_microseconds,
    {
        random_in_range(0, self.max_delay_microseconds - 1)
    }
}

/// The bytes of an ASCII text.
pub fn ascii_bytes(text: &str) -> (r: Vec<u8>)
    requires
        text.is_ascii(),
    ensures
        r@ == text@.map_values(|c: char| c as u8),
{
    let mut r: Vec<u8> = Vec::new();
    let n = text.unicode_len();
    let mut i: usize = 0;
    while i < n
        invariant
            i <= n,
            n == text@.len(),
            text.is_ascii(),
            r@ == text@.subrange(0, i as int).map_values(|c: char| c as u8),
        decreases n - i,
    {
        r.push(text.get_ascii(i));
        i = i + 1;
        assert(r@ =~= text@.subrange(0, i as int).map_values(|c: char| c as u8));
    }
    assert(text@.subrange(0, n as int) =~= text@);
    r
}

} // verus!
