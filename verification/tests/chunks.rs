use dfx::chunks::{data_chunk, num_chunks, progress_line, MAX_CHUNK_SIZE};
use dfx::text::decimal_text;

fn content(len: usize) -> Vec<u8> {
    (0..len).map(|i| (i % 251) as u8).collect()
}

fn sizes(len: usize) -> Vec<usize> {
    let content = content(len);
    (0..num_chunks(&content)).map(|i| data_chunk(&content, i).len()).collect()
}

#[test]
fn max_chunk_size_is_under_two_megabytes() {
    assert_eq!(MAX_CHUNK_SIZE, 1_900_000);
}

#[test]
fn empty_content_is_one_empty_chunk() {
    assert_eq!(sizes(0), vec![0]);
}

#[test]
fn chunk_sizes_around_the_limit() {
    assert_eq!(sizes(1), vec![1]);
    assert_eq!(sizes(MAX_CHUNK_SIZE - 1), vec![MAX_CHUNK_SIZE - 1]);
    assert_eq!(sizes(MAX_CHUNK_SIZE), vec![MAX_CHUNK_SIZE]);
    assert_eq!(sizes(MAX_CHUNK_SIZE + 1), vec![MAX_CHUNK_SIZE, 1]);
    assert_eq!(sizes(2 * MAX_CHUNK_SIZE), vec![MAX_CHUNK_SIZE, MAX_CHUNK_SIZE]);
    assert_eq!(sizes(2 * MAX_CHUNK_SIZE + 7), vec![MAX_CHUNK_SIZE, MAX_CHUNK_SIZE, 7]);
}

#[test]
fn chunks_are_those_of_std() {
    let content = content(3 * MAX_CHUNK_SIZE + 12345);
    let expected: Vec<&[u8]> = content.chunks(MAX_CHUNK_SIZE).collect();
    assert_eq!(num_chunks(&content), expected.len());
    for i in 0..expected.len() {
        assert_eq!(data_chunk(&content, i), expected[i]);
    }
}

#[test]
fn chunks_put_together_are_the_content() {
    let content = content(2 * MAX_CHUNK_SIZE + 99);
    let mut together: Vec<u8> = vec![];
    for i in 0..num_chunks(&content) {
        together.extend_from_slice(data_chunk(&content, i));
    }
    assert_eq!(together, content);
}

#[test]
fn progress_of_a_large_file() {
    let content = content(MAX_CHUNK_SIZE + 42);
    assert_eq!(progress_line("/a.png", &content, 0), "  /a.png 1/2 (1900000 bytes)");
    assert_eq!(progress_line("/a.png", &content, 1), "  /a.png 2/2 (42 bytes)");
}

#[test]
fn progress_of_an_empty_file() {
    assert_eq!(progress_line("/empty.txt", &[], 0), "  /empty.txt 1/1 (0 bytes)");
}

#[test]
fn decimal_numbers() {
    for n in [0usize, 1, 9, 10, 11, 99, 100, 1234567890, 1900000, 60708, usize::MAX] {
        assert_eq!(decimal_text(n), n.to_string());
    }
}
