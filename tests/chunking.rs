use namel3ss_native::chunk_plan::{plan_chunks, plan_to_json, ChunkEntry};

fn summary(chunks: &[ChunkEntry]) -> Vec<(u32, u32, u32, u32)> {
    chunks.iter().map(|c| (c.index, c.paragraph_index, c.start, c.length)).collect()
}

#[test]
fn empty_text_has_no_chunks() {
    let plan = plan_chunks("", 800, 100);
    assert_eq!(plan.max_chars, 800);
    assert_eq!(plan.overlap, 100);
    assert!(plan.chunks.is_empty());
}

#[test]
fn paragraphs_are_cut_into_windows() {
    let plan = plan_chunks("Hello world, this is text.\n\n\n  Second  para  \n\n   \n\nz", 10, 3);
    assert_eq!(plan.overlap, 3);
    assert_eq!(
        summary(&plan.chunks),
        vec![(0, 0, 0, 10), (1, 0, 7, 10), (2, 0, 14, 10), (3, 0, 21, 5), (4, 1, 0, 10), (5, 1, 8, 4), (6, 2, 0, 1)]
    );
    assert!(plan.chunks.iter().all(|c| c.chars == c.length && c.reason_code == 1 && c.score == 0));
}

#[test]
fn overlap_too_large_falls_back_to_a_quarter() {
    let plan = plan_chunks("abcdefghij", 4, 8);
    assert_eq!(plan.overlap, 1);
    assert_eq!(summary(&plan.chunks), vec![(0, 0, 0, 4), (1, 0, 3, 4), (2, 0, 6, 4)]);
}

#[test]
fn zero_window_keeps_whole_paragraphs() {
    let plan = plan_chunks("one\n\ntwo", 0, 5);
    assert_eq!(plan.overlap, 0);
    assert_eq!(summary(&plan.chunks), vec![(0, 0, 0, 3), (1, 1, 0, 3)]);
}

#[test]
fn plan_as_json() {
    let plan = plan_chunks("one\n\ntwo", 0, 5);
    let json = String::from_utf8(plan_to_json(&plan)).unwrap();
    assert_eq!(
        json,
        "{\"chunks\":[{\"chars\":3,\"index\":0,\"length\":3,\"paragraph_index\":0,\"reason_code\":1,\"score\":0,\"start\":0},\
{\"chars\":3,\"index\":1,\"length\":3,\"paragraph_index\":1,\"reason_code\":1,\"score\":0,\"start\":0}],\
\"max_chars\":0,\"overlap\":0}"
    );
}
