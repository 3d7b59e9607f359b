use streaming_garbler::chunked::Chunked;

#[test]
fn elements_survive_the_end_of_a_chunk() {
    const CHUNK: usize = 1 << 22;
    let mut array: Chunked<u8> = Chunked::new();
    assert!(array.is_empty());
    for i in 0..CHUNK + 3 {
        assert_eq!(array.len(), i);
        array.push((i % 251) as u8);
    }
    assert!(!array.is_empty());
    assert_eq!(array.len(), CHUNK + 3);
    for i in [0, 1, 250, 251, CHUNK - 1, CHUNK, CHUNK + 2] {
        assert_eq!(array.get(i), (i % 251) as u8);
        assert_eq!(array[i], (i % 251) as u8);
    }
    array.set(CHUNK, 255);
    array.set(CHUNK - 1, 254);
    assert_eq!(array.get(CHUNK), 255);
    assert_eq!(array.get(CHUNK - 1), 254);
    assert_eq!(array.get(CHUNK + 1), ((CHUNK + 1) % 251) as u8);
    assert_eq!((array[CHUNK], array[CHUNK - 1]), (255, 254));
    assert_eq!(array.get(0), 0);
    assert_eq!(array.len(), CHUNK + 3);
}
