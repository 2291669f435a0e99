use led_visualizer::frames::UdpFrameProcessor;
use led_visualizer::preview::FrameProcessor;

#[test]
fn frame_processor_test_downscale() {
    let mut processor = UdpFrameProcessor::new();
    let src = vec![255u8; 128 * 128 * 3];

    processor.downscale_frame(&src, 128, 64, 64);

    assert_eq!(processor.frame_buffer().len(), 64 * 64 * 3);
    assert!(processor.frame_buffer().iter().all(|&x| x == 255));
}

#[test]
fn test_compression() {
    let mut processor = UdpFrameProcessor::new();
    let data = vec![0u8; 1024];

    let compressed = processor.compress_data(&data);
    assert!(compressed.is_some());

    let compressed_data = compressed.unwrap();
    assert!(compressed_data.len() < data.len());
}

#[test]
fn test_frame_processor_hash() {
    let data1 = vec![1, 2, 3, 4, 5];
    let data2 = vec![1, 2, 3, 4, 5];
    let data3 = vec![1, 2, 3, 4, 6];

    let hash1 = FrameProcessor::fast_hash(&data1);
    let hash2 = FrameProcessor::fast_hash(&data2);
    let hash3 = FrameProcessor::fast_hash(&data3);

    assert_eq!(hash1, hash2);
    assert_ne!(hash1, hash3);
}

#[test]
fn websocket_test_downscale() {
    let mut processor = FrameProcessor::new();
    let src = vec![255u8; 128 * 128 * 3];

    processor.downscale_frame(&src, 128, 64, 64);

    assert_eq!(processor.preview_buffer().len(), 64 * 64 * 3);
    assert!(processor.preview_buffer().iter().all(|&x| x == 255));
}
