use draw_mixer::sink::{aligned_block, frame_padding, FileSink, SinkError, WavFormat};

#[test]
fn padding_completes_frames() {
    assert_eq!(frame_padding(0, 2), 0);
    assert_eq!(frame_padding(5, 2), 1);
    assert_eq!(frame_padding(7, 4), 1);
    assert_eq!(frame_padding(6, 4), 2);
    assert_eq!(frame_padding(9, 1), 0);
}

#[test]
fn aligned_block_takes_count_and_pads() {
    let data = [1i16, 2, 3, 4, 5];
    assert_eq!(aligned_block(&data, 3, 2, 0), vec![1, 2, 3, 0]);
    assert_eq!(aligned_block(&data, 10, 2, 0), vec![1, 2, 3, 4, 5, 0]);
    assert_eq!(aligned_block(&data, 4, 2, 0), vec![1, 2, 3, 4]);
    assert_eq!(aligned_block(&data, 0, 3, 0), Vec::<i16>::new());
}

#[test]
fn closed_sink_refuses_writes_and_second_close() {
    let mut sink = FileSink::new(WavFormat { channels: 2, sample_rate: 48000 });
    assert_eq!(sink.save_to_wav(&[0.5f32, 0.25, 0.125], 3, 0.0), Ok(vec![0.5, 0.25, 0.125, 0.0]));
    assert_eq!(sink.close_file(), Ok(()));
    assert_eq!(sink.close_file(), Err(SinkError::Closed));
    assert_eq!(sink.save_to_wav(&[0.5f32], 1, 0.0), Err(SinkError::Closed));
}

#[test]
fn wav_round_trip_within_one_step() {
    let samples_in = [0.0f32, 0.5, -0.5, 0.999, -1.0, 1.0, 0.123, 2.0, -3.0];
    let spec = hound::WavSpec {
        channels: 2,
        sample_rate: 8000,
        bits_per_sample: 16,
        sample_format: hound::SampleFormat::Int,
    };
    let sink = FileSink::new(WavFormat { channels: 2, sample_rate: 8000 });
    let block = sink.save_to_wav(&samples_in, samples_in.len(), 0.0).unwrap();
    assert_eq!(block.len(), 10);
    let mut bytes = std::io::Cursor::new(Vec::new());
    {
        let mut writer = hound::WavWriter::new(&mut bytes, spec).unwrap();
        for s in &block {
            writer.write_sample((s.clamp(-1.0, 1.0) * i16::MAX as f32).round() as i16).unwrap();
        }
        writer.finalize().unwrap();
    }
    bytes.set_position(0);
    let mut reader = hound::WavReader::new(bytes).unwrap();
    let back: Vec<f32> = reader.samples::<i16>().map(|s| s.unwrap() as f32 / i16::MAX as f32).collect();
    assert_eq!(back.len(), 10);
    for (o, b) in samples_in.iter().zip(back.iter()) {
        assert!((o.clamp(-1.0, 1.0) - b).abs() <= 1.0 / 32767.0);
    }
    assert_eq!(back[9], 0.0);
}
