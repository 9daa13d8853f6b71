use compdb_merge::merge::{merge_all, Merger};
use compdb_merge::interior::extract_interior;

fn merged(fragments: &[&[u8]]) -> Vec<u8> {
    let frags: Vec<Vec<u8>> = fragments.iter().map(|f| f.to_vec()).collect();
    merge_all(&frags)
}

#[test]
fn single_fragment_passes_through() {
    assert_eq!(merged(&[b"[{\"a\":1}]"]), b"[{\"a\":1}]".to_vec());
}

#[test]
fn two_fragments_joined_by_one_comma() {
    assert_eq!(merged(&[b"[{\"a\":1}]", b"[{\"b\":2}]"]), b"[{\"a\":1},{\"b\":2}]".to_vec());
}

#[test]
fn two_fragments_other_arrival_order() {
    assert_eq!(merged(&[b"[{\"b\":2}]", b"[{\"a\":1}]"]), b"[{\"b\":2},{\"a\":1}]".to_vec());
}

#[test]
fn empty_fragment_contributes_nothing() {
    assert_eq!(merged(&[b"[]", b"[{\"a\":1}]"]), b"[{\"a\":1}]".to_vec());
    assert_eq!(merged(&[b"[{\"a\":1}]", b"[]"]), b"[{\"a\":1}]".to_vec());
}

#[test]
fn zero_fragments_yield_empty_array() {
    assert_eq!(merged(&[]), b"[]".to_vec());
}

#[test]
fn multi_element_fragments_keep_inner_order() {
    assert_eq!(merged(&[b"[1,2]", b"[3]"]), b"[1,2,3]".to_vec());
}

#[test]
fn rerun_on_same_fragments_reproduces_output() {
    let first = merged(&[b"[1]", b"[2]", b"[]", b"[3]"]);
    let second = merged(&[b"[1]", b"[2]", b"[]", b"[3]"]);
    assert_eq!(first, second);
    assert_eq!(first, b"[1,2,3]".to_vec());
}

#[test]
fn streaming_chunks_concatenate_to_whole_output() {
    let (mut m, mut out) = Merger::new();
    assert_eq!(out, b"[".to_vec());
    let mut chunk = m.add_fragment(&b"[1]".to_vec());
    assert_eq!(chunk, b"1".to_vec());
    out.append(&mut chunk);
    let mut chunk = m.add_fragment(&b"[]".to_vec());
    assert_eq!(chunk, b"".to_vec());
    out.append(&mut chunk);
    let mut chunk = m.add_fragment(&b"[2]".to_vec());
    assert_eq!(chunk, b",2".to_vec());
    out.append(&mut chunk);
    let mut tail = m.finish();
    assert_eq!(tail, b"]".to_vec());
    out.append(&mut tail);
    assert_eq!(out, b"[1,2]".to_vec());
}

#[test]
fn interior_of_plain_array() {
    assert_eq!(extract_interior(&b"[{\"a\":1}]".to_vec()), b"{\"a\":1}".to_vec());
}

#[test]
fn interior_ignores_leading_bytes_before_bracket() {
    assert_eq!(extract_interior(&b"  \n[1,2]".to_vec()), b"1,2".to_vec());
}

#[test]
fn interior_drops_trailing_bytes_after_last_close() {
    assert_eq!(extract_interior(&b"[1,2] \n trailing".to_vec()), b"1,2".to_vec());
}

#[test]
fn interior_of_nested_arrays_keeps_inner_brackets() {
    assert_eq!(extract_interior(&b"[[1],[2]]".to_vec()), b"[1],[2]".to_vec());
}

#[test]
fn interior_without_open_bracket_is_empty() {
    assert_eq!(extract_interior(&b"no array here".to_vec()), Vec::<u8>::new());
}

#[test]
fn interior_without_close_after_open_is_empty() {
    assert_eq!(extract_interior(&b"[1,2".to_vec()), Vec::<u8>::new());
}

#[test]
fn interior_of_empty_input_is_empty() {
    assert_eq!(extract_interior(&Vec::new()), Vec::<u8>::new());
}

#[test]
fn interior_of_empty_array_is_empty() {
    assert_eq!(extract_interior(&b"[]".to_vec()), Vec::<u8>::new());
}

#[test]
fn close_bracket_before_any_open_does_not_count() {
    assert_eq!(extract_interior(&b"]1[2".to_vec()), Vec::<u8>::new());
    assert_eq!(extract_interior(&b"1]2".to_vec()), Vec::<u8>::new());
}

#[test]
fn only_the_last_close_bracket_ends_the_interior() {
    assert_eq!(extract_interior(&b"[1]2]3".to_vec()), b"1]2".to_vec());
}

#[test]
fn merge_strips_leading_and_trailing_noise_per_fragment() {
    assert_eq!(merged(&[b"note [1] trailing", b"[2]\n"]), b"[1,2]".to_vec());
}
