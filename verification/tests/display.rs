use bitfount::display::write_green_channel;

#[test]
fn green_channel_written() {
    let mut pixels = vec![9u8; 12];
    write_green_channel(&mut pixels, &vec![1, 2, 3]);
    assert_eq!(pixels, vec![9, 1, 9, 9, 9, 2, 9, 9, 9, 3, 9, 9]);
}

#[test]
fn green_channel_partial_row() {
    let mut pixels = vec![0u8; 8];
    write_green_channel(&mut pixels, &vec![200]);
    assert_eq!(pixels, vec![0, 200, 0, 0, 0, 0, 0, 0]);
    write_green_channel(&mut pixels, &vec![]);
    assert_eq!(pixels, vec![0, 200, 0, 0, 0, 0, 0, 0]);
    let mut tight = vec![0u8; 6];
    write_green_channel(&mut tight, &vec![4, 5]);
    assert_eq!(tight, vec![0, 4, 0, 0, 0, 5]);
}
