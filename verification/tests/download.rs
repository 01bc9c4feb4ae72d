use printcore::download::inner_download;

#[test]
fn concatenates_chunks_in_order() {
    let chunks: Vec<Vec<u8>> = vec![vec![1, 2], vec![3], vec![], vec![4, 5]];
    assert_eq!(inner_download(&chunks), vec![1, 2, 3, 4, 5]);
}

#[test]
fn empty_stream_yields_empty_bytes() {
    let chunks: Vec<Vec<u8>> = Vec::new();
    assert_eq!(inner_download(&chunks), Vec::<u8>::new());
}
