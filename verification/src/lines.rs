//! Byte strings that consist of lines.

use vstd::prelude::*;

verus! {

/// The number of bytes of the first line, its line break included.
pub open spec fn line_len(bytes: Seq<u8>) -> nat
    decreases bytes.len(),
{
    if bytes.len() == 0 {
        0
    } else if bytes[0] == 0x0a {
        1
    } else {
        1 + line_len(bytes.drop_first())
    }
}

/// A line is not empty and not longer than the whole.
pub proof fn lemma_line_len_bounds(bytes: Seq<u8>)
    ensures
        line_len(bytes) <= bytes.len(),
        bytes.len() > 0 ==> line_len(bytes) > 0,
    decreases bytes.len(),
{
    if bytes.len() > 0 && bytes[0] != 0x0a {
        lemma_line_len_bounds(bytes.drop_first());
    }
}

/// The first line ends with the first line break, or with the last byte.
pub proof fn lemma_line_len(bytes: Seq<u8>, len: int)
    requires
        0 < len <= bytes.len(),
        forall|i: int| 0 <= i < len - 1 ==> #[trigger] bytes[i] != 0x0a,
        bytes[len - 1] == 0x0a || len == bytes.len(),
    ensures
        line_len(bytes) == len,
    decreases bytes.len(),
{
    if bytes[0] != 0x0a {
        let rest = bytes.drop_first();
        if len > 1 {
            assert forall|i: int| 0 <= i < len - 2 implies #[trigger] rest[i] != 0x0a by {
                assert(bytes[i + 1] != 0x0a);
            }
            lemma_line_len(rest, len - 1);
        } else {
            assert(rest.len() == 0);
        }
    } else if len > 1 {
        assert(bytes[0] != 0x0a);
    }
}

/// What follows the first line break has no part in the first line.
pub proof fn lemma_line_len_append(bytes: Seq<u8>, more: Seq<u8>)
    requires
        bytes.len() > 0,
        bytes[line_len(bytes) - 1] == 0x0a,
    ensures
        line_len(bytes + more) == line_len(bytes),
    decreases bytes.len(),
{
    lemma_line_len_bounds(bytes);
    if bytes[0] != 0x0a {
        let rest = bytes.drop_first();
        lemma_line_len_bounds(rest);
        assert(rest.len() > 0);
        assert(rest[line_len(rest) - 1] == bytes[line_len(bytes) - 1]);
        lemma_line_len_append(rest, more);
        assert((bytes + more).drop_first() =~= rest + more);
    }
}

/// The first line ends with its line break, where there is one, and holds no other; without a
/// line break it is the whole.
pub proof fn law_line_ends_at_its_break(bytes: Seq<u8>)
    ensures
        ({
            let len = line_len(bytes) as int;
            &&& forall|i: int| 0 <= i < len - 1 ==> #[trigger] bytes[i] != 0x0a
            &&& len < bytes.len() ==> bytes[len - 1] == 0x0a
            &&& bytes.contains(0x0a) ==> bytes[len - 1] == 0x0a
            &&& len <= bytes.len()
            &&& bytes.len() > 0 ==> len > 0
        }),
    decreases bytes.len(),
{
    lemma_line_len_bounds(bytes);
    if bytes.len() > 0 && bytes[0] != 0x0a {
        let rest = bytes.drop_first();
        let len = line_len(bytes) as int;
        law_line_ends_at_its_break(rest);
        assert forall|i: int| 0 <= i < len - 1 implies #[trigger] bytes[i] != 0x0a by {
            if i > 0 {
                assert(rest[i - 1] == bytes[i]);
            }
        }
        if len < bytes.len() {
            if rest.len() > 0 {
                assert(rest[line_len(rest) - 1] == bytes[len - 1]);
            }
        }
        if bytes.contains(0x0a) {
            let k = choose|k: int| 0 <= k < bytes.len() && bytes[k] == 0x0a;
            assert(rest[k - 1] == 0x0a);
            assert(rest[line_len(rest) - 1] == bytes[len - 1]);
        }
    }
}

/// The end of the line that begins at a place.
pub fn line_end(bytes: &[u8], from: usize) -> (end: usize)
    requires
        from <= bytes@.len(),
    ensures
        from <= end <= bytes@.len(),
        end == from + line_len(bytes@.skip(from as int)),
{
    let mut end: usize = from;
    while end < bytes.len() && bytes[end] != 0x0a
        invariant
            from <= end <= bytes@.len(),
            forall|i: int| from <= i < end ==> #[trigger] bytes@[i] != 0x0a,
        decreases bytes@.len() - end,
    {
        end += 1;
    }
    if end < bytes.len() {
        end += 1;
    }
    proof {
        let rest = bytes@.skip(from as int);
        lemma_line_len_bounds(rest);
        if rest.len() > 0 {
            lemma_line_len(rest, end - from);
        }
    }
    end
}

/// A part of a byte string.
pub fn copy_bytes(bytes: &[u8], from: usize, to: usize) -> (part: Vec<u8>)
    requires
        from <= to <= bytes@.len(),
    ensures
        part@ == bytes@.subrange(from as int, to as int),
{
    let mut part: Vec<u8> = Vec::new();
    let mut i: usize = from;
    assert(part@ =~= bytes@.subrange(from as int, from as int));
    while i < to
        invariant
            from <= i <= to <= bytes@.len(),
            part@ == bytes@.subrange(from as int, i as int),
        decreases to - i,
    {
        part.push(bytes[i]);
        assert(bytes@.subrange(from as int, i + 1) =~= bytes@.subrange(from as int, i as int).push(
            bytes@[i as int],
        ));
        i += 1;
    }
    part
}

} // verus!
