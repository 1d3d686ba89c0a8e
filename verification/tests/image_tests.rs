use tilemachine::utils::ImageData;

#[test]
fn test_new_image_dimensions() {
    let img = ImageData::<u8>::new(4, 3, 2);
    assert_eq!(img.width, 4);
    assert_eq!(img.height, 3);
    assert_eq!(img.channels, 2);
    assert_eq!(img.data.len(), 24);
}

#[test]
fn test_from_vec_keeps_buffer() {
    let img = ImageData::<u8>::from_vec(2, 1, 2, vec![9, 8, 7, 6]);
    assert_eq!(img.data, vec![9, 8, 7, 6]);
}

#[test]
fn test_pixel_data_is_row_major_pixel_interleaved() {
    let img = ImageData::<u8>::from_vec(2, 2, 2, vec![0, 1, 2, 3, 4, 5, 6, 7]);
    assert_eq!(img.pixel_data(0, 0), &[0, 1]);
    assert_eq!(img.pixel_data(0, 1), &[2, 3]);
    assert_eq!(img.pixel_data(1, 0), &[4, 5]);
    assert_eq!(img.pixel_data(1, 1), &[6, 7]);
}

#[test]
fn test_to_png_round_trip() {
    let samples: Vec<u8> = vec![
        255, 0, 0, 255, 0, 255, 0, 255, 0, 0, 255, 255, 1, 2, 3, 4,
    ];
    let img = ImageData::<u8>::from_vec(2, 2, 4, samples.clone());
    let bytes = img.to_png();
    assert_eq!(&bytes[..8], &[137, 80, 78, 71, 13, 10, 26, 10]);
    assert_ne!(bytes, samples);

    let decoder = png::Decoder::new(std::io::Cursor::new(bytes));
    let mut reader = decoder.read_info().unwrap();
    let mut buf = vec![0u8; reader.output_buffer_size().unwrap()];
    let info = reader.next_frame(&mut buf).unwrap();
    assert_eq!(info.width, 2);
    assert_eq!(info.height, 2);
    assert_eq!(info.color_type, png::ColorType::Rgba);
    assert_eq!(&buf[..info.buffer_size()], &samples[..]);
}

#[test]
fn test_set_band_interleaves_samples() {
    let mut img = ImageData::<u8>::new(2, 2, 2);
    img.set_band(0, &vec![1, 2, 3, 4]);
    img.set_band(1, &vec![9, 8, 7, 6]);
    assert_eq!(img.data, vec![1, 9, 2, 8, 3, 7, 4, 6]);
    img.set_band(1, &vec![0, 0, 0, 0]);
    assert_eq!(img.data, vec![1, 0, 2, 0, 3, 0, 4, 0]);
}
