//! How the content of a file is cut into chunks for upload.

use crate::text::{decimal, decimal_text, decimal_value, lemma_decimal_reads_back};
use vstd::prelude::*;
use vstd::slice::slice_subrange;

verus! {

/// The most bytes that one chunk holds.
pub const MAX_CHUNK_SIZE: usize = 1_900_000;

/// How many chunks `len` bytes of content make. Empty content is still sent, as one empty chunk.
pub open spec fn chunk_count(len: nat) -> nat {
    if len == 0 {
        1
    } else {
        ((len - 1) / MAX_CHUNK_SIZE as int + 1) as nat
    }
}

/// Where chunk `i` ends in `len` bytes of content.
pub open spec fn chunk_end(len: nat, i: int) -> int {
    if (i + 1) * MAX_CHUNK_SIZE < len {
        (i + 1) * MAX_CHUNK_SIZE
    } else {
        len as int
    }
}

/// Chunk `i` of `content`.
pub open spec fn chunk(content: Seq<u8>, i: int) -> Seq<u8> {
    content.subrange(i * MAX_CHUNK_SIZE, chunk_end(content.len(), i))
}

/// All the chunks of `content`, in order.
pub open spec fn chunks(content: Seq<u8>) -> Seq<Seq<u8>> {
    Seq::new(chunk_count(content.len()), |i: int| chunk(content, i))
}

/// The line that announces the upload of chunk `i` of `content`, a file known as `key`.
pub open spec fn progress(key: Seq<char>, content: Seq<u8>, i: int) -> Seq<char> {
    "  "@ + key + " "@ + decimal((i + 1) as nat) + "/"@ + decimal(chunk_count(content.len())) + " ("@
        + decimal(chunk(content, i).len()) + " bytes)"@
}

/// Chunk `i` lies within the content: it starts before the content ends, unless the content is
/// empty, and it ends where the next chunk starts or where the content ends.
pub proof fn lemma_chunk_bounds(len: nat, i: int)
    requires
        0 <= i < chunk_count(len),
    ensures
        0 <= i * MAX_CHUNK_SIZE <= chunk_end(len, i) <= len,
        len > 0 ==> i * MAX_CHUNK_SIZE < len,
        chunk_end(len, i) - i * MAX_CHUNK_SIZE <= MAX_CHUNK_SIZE,
        i + 1 < chunk_count(len) ==> chunk_end(len, i) == (i + 1) * MAX_CHUNK_SIZE,
        i + 1 == chunk_count(len) ==> chunk_end(len, i) == len,
{
}

/// A file is sent whole and in order: its chunks, one after the other, are its content.
pub proof fn lemma_chunks_make_up_content(content: Seq<u8>)
    ensures
        chunks(content).flatten() == content,
{
    let n = chunk_count(content.len()) as int;
    lemma_first_chunks(content, n);
    lemma_chunk_bounds(content.len(), n - 1);
    assert(chunks(content).take(n) =~= chunks(content));
    assert(content.take(content.len() as int) =~= content);
}

proof fn lemma_first_chunks(content: Seq<u8>, n: int)
    requires
        0 < n <= chunk_count(content.len()),
    ensures
        chunks(content).take(n).flatten() == content.take(chunk_end(content.len(), n - 1)),
    decreases n,
{
    lemma_chunk_bounds(content.len(), n - 1);
    let before = chunks(content).take(n - 1);
    assert(chunks(content).take(n) =~= before.push(chunk(content, n - 1)));
    before.lemma_flatten_push(chunk(content, n - 1));
    if n == 1 {
        assert(before =~= Seq::<Seq<u8>>::empty());
        assert(before.flatten() =~= Seq::<u8>::empty());
    } else {
        lemma_first_chunks(content, n - 1);
        lemma_chunk_bounds(content.len(), n - 2);
    }
    assert(before.flatten() + chunk(content, n - 1) =~= content.take(
        chunk_end(content.len(), n - 1),
    ));
}

/// No chunk is larger than [`MAX_CHUNK_SIZE`], every chunk but the last is exactly that large, and
/// only the one chunk of an empty file is empty.
pub proof fn lemma_chunk_sizes(content: Seq<u8>, i: int)
    requires
        0 <= i < chunks(content).len(),
    ensures
        chunks(content)[i].len() <= MAX_CHUNK_SIZE,
        i + 1 < chunks(content).len() ==> chunks(content)[i].len() == MAX_CHUNK_SIZE,
        chunks(content)[i].len() == 0 <==> content.len() == 0,
        content.len() == 0 ==> chunks(content).len() == 1,
{
    lemma_chunk_bounds(content.len(), i);
}

/// There are as many chunks as it takes to hold the content, and no more, but always one.
pub proof fn lemma_chunk_count(len: nat)
    ensures
        chunk_count(len) >= 1,
        len <= chunk_count(len) * MAX_CHUNK_SIZE,
        chunk_count(len) > 1 ==> (chunk_count(len) - 1) * MAX_CHUNK_SIZE < len,
{
}

/// Chunk `i` is what stands in the content from `i` times the size of a chunk on, as far as a chunk
/// goes or the content goes.
pub proof fn lemma_chunk_is_part_of_content(content: Seq<u8>, i: int, k: int)
    requires
        0 <= i < chunk_count(content.len()),
        0 <= k < MAX_CHUNK_SIZE,
    ensures
        k < chunk(content, i).len() <==> i * MAX_CHUNK_SIZE + k < content.len(),
        k < chunk(content, i).len() ==> chunk(content, i)[k] == content[i * MAX_CHUNK_SIZE + k],
{
    lemma_chunk_bounds(content.len(), i);
}

/// How many chunks the content is sent in.
pub fn num_chunks(content: &[u8]) -> (n: usize)
    ensures
        n == chunk_count(content@.len()),
        n >= 1,
        content@.len() <= n * MAX_CHUNK_SIZE,
        n > 1 ==> (n - 1) * MAX_CHUNK_SIZE < content@.len(),
{
    let len: usize = content.len();
    if len == 0 {
        1
    } else {
        (len - 1) / MAX_CHUNK_SIZE + 1
    }
}

/// Chunk `i` of the content.
pub fn data_chunk(content: &[u8], i: usize) -> (data: &[u8])
    requires
        i < chunk_count(content@.len()),
    ensures
        data@ == chunk(content@, i as int),
        0 <= i * MAX_CHUNK_SIZE <= content@.len(),
        data@ == content@.subrange(
            i * MAX_CHUNK_SIZE,
            if content@.len() - i * MAX_CHUNK_SIZE > MAX_CHUNK_SIZE {
                (i + 1) * MAX_CHUNK_SIZE
            } else {
                content@.len() as int
            },
        ),
{
    let len: usize = content.len();
    proof {
        lemma_chunk_bounds(content@.len(), i as int);
    }
    let start: usize = i * MAX_CHUNK_SIZE;
    if len - start > MAX_CHUNK_SIZE {
        slice_subrange(content, start, start + MAX_CHUNK_SIZE)
    } else {
        slice_subrange(content, start, len)
    }
}

/// The line that announces the upload of chunk `i` of the content.
pub fn progress_line(key: &str, content: &[u8], i: usize) -> (line: String)
    requires
        i < chunk_count(content@.len()),
    ensures
        line@ == progress(key@, content@, i as int),
        exists|number: Seq<char>, count: Seq<char>, size: Seq<char>|
            {
                &&& line@ == "  "@ + key@ + " "@ + number + "/"@ + count + " ("@ + size
                    + " bytes)"@
                &&& forall|k: int| 0 <= k < number.len() ==> '0' <= #[trigger] number[k] <= '9'
                &&& forall|k: int| 0 <= k < count.len() ==> '0' <= #[trigger] count[k] <= '9'
                &&& forall|k: int| 0 <= k < size.len() ==> '0' <= #[trigger] size[k] <= '9'
                &&& number.len() > 0 && number[0] != '0'
                &&& count.len() > 0 && count[0] != '0'
                &&& size.len() > 0 && (size[0] == '0' ==> size.len() == 1)
                &&& #[trigger] decimal_value(number) == i + 1
                &&& (#[trigger] decimal_value(count) - 1) * MAX_CHUNK_SIZE < content@.len()
                    || decimal_value(count) == 1
                &&& content@.len() <= decimal_value(count) * MAX_CHUNK_SIZE
                &&& #[trigger] decimal_value(size) == if content@.len() - i * MAX_CHUNK_SIZE
                    > MAX_CHUNK_SIZE {
                    MAX_CHUNK_SIZE as int
                } else {
                    content@.len() - i * MAX_CHUNK_SIZE
                }
            },
{
    proof {
        let count = chunk_count(content@.len());
        let size = chunk(content@, i as int).len();
        lemma_chunk_bounds(content@.len(), i as int);
        lemma_decimal_reads_back((i + 1) as nat);
        lemma_decimal_reads_back(count);
        lemma_decimal_reads_back(size);
        assert(decimal_value(decimal((i + 1) as nat)) == i + 1);
        assert(decimal_value(decimal(count)) == count);
        assert(decimal_value(decimal(size)) == size);
    }
    let n: usize = num_chunks(content);
    let mut line = "  ".to_owned();
    line.append(key);
    line.append(" ");
    line.append(decimal_text(i + 1).as_str());
    line.append("/");
    line.append(decimal_text(n).as_str());
    line.append(" (");
    line.append(decimal_text(data_chunk(content, i).len()).as_str());
    line.append(" bytes)");
    line
}

} // verus!
