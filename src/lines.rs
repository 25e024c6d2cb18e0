use vstd::prelude::*;

verus! {

pub const NEWLINE: u8 = 10u8;

/// The byte sequences held by a list of buffers.
pub open spec fn views(parts: Seq<Vec<u8>>) -> Seq<Seq<u8>> {
    parts.map_values(|p: Vec<u8>| p@)
}

/// All parts, one after the other.
pub open spec fn concat(parts: Seq<Seq<u8>>) -> Seq<u8>
    decreases parts.len(),
{
    if parts.len() == 0 {
        Seq::empty()
    } else {
        concat(parts.drop_last()) + parts.last()
    }
}

pub open spec fn has_no_newline(s: Seq<u8>) -> bool {
    forall|i: int| 0 <= i < s.len() ==> s[i] != NEWLINE
}

/// One complete line: a newline at the end and nowhere else.
pub open spec fn is_line(l: Seq<u8>) -> bool {
    &&& l.len() > 0
    &&& l.last() == NEWLINE
    &&& has_no_newline(l.drop_last())
}

pub proof fn lemma_concat_push(parts: Seq<Seq<u8>>, p: Seq<u8>)
    ensures
        concat(parts.push(p)) == concat(parts) + p,
{
    assert(parts.push(p).drop_last() =~= parts);
}

pub proof fn lemma_concat_append(a: Seq<Seq<u8>>, b: Seq<Seq<u8>>)
    ensures
        concat(a + b) == concat(a) + concat(b),
    decreases b.len(),
{
    if b.len() == 0 {
        assert(a + b =~= a);
        assert(concat(b) =~= Seq::<u8>::empty());
        assert(concat(a) + concat(b) =~= concat(a));
    } else {
        lemma_concat_append(a, b.drop_last());
        assert((a + b).drop_last() =~= a + b.drop_last());
        assert(concat(a) + concat(b) =~= concat(a) + concat(b.drop_last()) + b.last());
    }
}

/// Receiver-side reassembly of newline-terminated lines from byte chunks
/// that may split lines anywhere.
pub struct LineAssembler {
    pending: Vec<u8>,
}

impl View for LineAssembler {
    type V = Seq<u8>;

    /// The bytes received after the last complete line.
    closed spec fn view(&self) -> Seq<u8> {
        self.pending@
    }
}

impl LineAssembler {
    pub open spec fn wf(&self) -> bool {
        has_no_newline(self@)
    }

    /// `lines` and `rest` are `data` cut after each newline.
    pub open spec fn splits(data: Seq<u8>, lines: Seq<Seq<u8>>, rest: Seq<u8>) -> bool {
        &&& concat(lines) + rest == data
        &&& forall|k: int| 0 <= k < lines.len() ==> is_line(#[trigger] lines[k])
        &&& has_no_newline(rest)
    }

    pub fn new() -> (r: LineAssembler)
        ensures
            r.wf(),
            r@ == Seq::<u8>::empty(),
    {
        LineAssembler { pending: Vec::new() }
    }

    /// Takes the next chunk of received bytes and returns the lines it
    /// completed, in order; an unfinished line is kept for the next chunk.
    pub fn push(&mut self, bytes: &[u8]) -> (lines: Vec<Vec<u8>>)
        requires
            old(self).wf(),
        ensures
            final(self).wf(),
            Self::splits(old(self)@ + bytes@, views(lines@), final(self)@),
    {
        let mut data: Vec<u8> = Vec::new();
        let mut i: usize = 0;
        while i < self.pending.len()
            invariant
                i <= self.pending@.len(),
                data@ == self.pending@.subrange(0, i as int),
            decreases self.pending@.len() - i,
        {
            data.push(self.pending[i]);
            i = i + 1;
            assert(data@ =~= self.pending@.subrange(0, i as int));
        }
        let mut i: usize = 0;
        while i < bytes.len()
            invariant
                i <= bytes@.len(),
                data@ == old(self)@ + bytes@.subrange(0, i as int),
                self.pending@ == old(self)@,
            decreases bytes@.len() - i,
        {
            data.push(bytes[i]);
            i = i + 1;
            assert(data@ =~= old(self)@ + bytes@.subrange(0, i as int));
        }
        assert(bytes@.subrange(0, bytes@.len() as int) =~= bytes@);
        let mut lines: Vec<Vec<u8>> = Vec::new();
        let mut line: Vec<u8> = Vec::new();
        let mut i: usize = 0;
        while i < data.len()
            invariant
                i <= data@.len(),
                concat(views(lines@)) + line@ == data@.subrange(0, i as int),
                forall|k: int| 0 <= k < lines@.len() ==> is_line(#[trigger] views(lines@)[k]),
                has_no_newline(line@),
            decreases data@.len() - i,
        {
            let b = data[i];
            let ghost prev_line = line@;
            line.push(b);
            i = i + 1;
            assert(data@.subrange(0, i as int) =~= data@.subrange(0, i - 1).push(b));
            assert(concat(views(lines@)) + line@ =~= concat(views(lines@)) + prev_line + seq![b]);
            assert(concat(views(lines@)) + line@ =~= data@.subrange(0, i as int));
            if b == NEWLINE {
                let ghost before = views(lines@);
                assert(line@.drop_last() =~= line@.subrange(0, line@.len() - 1));
                lines.push(line);
                line = Vec::new();
                proof {
                    assert(views(lines@) =~= before.push(lines@.last()@));
                    lemma_concat_push(before, lines@.last()@);
                    assert(concat(views(lines@)) + line@ =~= concat(views(lines@)));
                }
            }
        }
        assert(data@.subrange(0, data@.len() as int) =~= data@);
        self.pending = line;
        lines
    }

    /// The bytes of the unfinished line.
    pub fn pending(&self) -> (r: &[u8])
        ensures
            r@ == self@,
    {
        self.pending.as_slice()
    }
}

/// Whether a received line is the expected message.
pub fn line_matches(line: &[u8], expected: &[u8]) -> (r: bool)
    ensures
        r == (line@ == expected@),
{
    if line.len() != expected.len() {
        return false;
    }
    let mut i: usize = 0;
    while i < line.len()
        invariant
            i <= line@.len(),
            line@.len() == expected@.len(),
            forall|k: int| 0 <= k < i ==> line@[k] == expected@[k],
        decreases line@.len() - i,
    {
        if line[i] != expected[i] {
            return false;
        }
        i = i + 1;
    }
    assert(line@ =~= expected@);
    true
}

/// Reassembly keeps order across chunks: feeding two chunks one after the
/// other yields lines and a remainder that together are the earlier
/// remainder followed by both chunks, in the order they came.
pub proof fn lemma_reassembly_in_order(
    start: Seq<u8>,
    first: Seq<u8>,
    lines_a: Seq<Seq<u8>>,
    mid: Seq<u8>,
    second: Seq<u8>,
    lines_b: Seq<Seq<u8>>,
    rest: Seq<u8>,
)
    requires
        LineAssembler::splits(start + first, lines_a, mid),
        LineAssembler::splits(mid + second, lines_b, rest),
    ensures
        LineAssembler::splits(start + first + second, lines_a + lines_b, rest),
{
    lemma_concat_append(lines_a, lines_b);
    assert(start + first + second =~= concat(lines_a) + (mid + second));
    assert(concat(lines_a) + (mid + second) =~= concat(lines_a) + (concat(lines_b) + rest));
    assert(concat(lines_a) + (concat(lines_b) + rest) =~= concat(lines_a + lines_b) + rest);
    assert forall|k: int| 0 <= k < (lines_a + lines_b).len() implies is_line(#[trigger] (lines_a + lines_b)[k]) by {
        if k < lines_a.len() {
            assert(is_line(lines_a[k]));
        } else {
            assert(is_line(lines_b[k - lines_a.len()]));
        }
    }
}

} // verus!
