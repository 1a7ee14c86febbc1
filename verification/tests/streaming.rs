use wavio::blocks::{block_at, block_starts, can_make, cut_blocks};
use wavio::stream::Chunker;
use wavio::{export, stream, stream_lazy, try_stream, AudioData, AudioError, WavFile};

/// Samples 1, 2, 3, ... as tiny patterns, which clamping leaves alone.
fn file(n: u32) -> WavFile {
    let samples: Vec<u32> = (1..n + 1).collect();
    WavFile::Contents(export(&AudioData::new(samples, 100, 1)).unwrap())
}

fn lazily(n: u32, limit: usize, frame: usize, hop: Option<usize>) -> Vec<Vec<u32>> {
    let mut opened = stream_lazy(file(n), limit, frame, hop).unwrap();
    assert!(opened.is_ready());
    let mut blocks: Vec<Vec<u32>> = Vec::new();
    while let Some(batch) = opened.next_blocks() {
        assert!(!batch.is_empty());
        blocks.extend(batch);
    }
    assert!(opened.next_blocks().is_none());
    blocks
}

fn at_once(n: u32, limit: usize, frame: usize, hop: Option<usize>) -> Vec<Vec<u32>> {
    stream(file(n), limit, frame, hop).unwrap()
}

/// The blocks at some starts, written with iterators.
fn windows(n: u32, starts: Vec<usize>, limit: usize, frame: usize) -> Vec<Vec<u32>> {
    let samples: Vec<u32> = (1..n + 1).collect();
    starts
        .into_iter()
        .take(limit)
        .map(|start| {
            let end = (start + frame).min(samples.len());
            let mut block = samples[start..end].to_vec();
            block.resize(frame, 0);
            block
        })
        .collect()
}

/// Where the blocks of a lazy stream start, found by gathering chunks.
fn gathered_starts(n: usize, frame: usize, hop: usize) -> Vec<usize> {
    let mut starts: Vec<usize> = Vec::new();
    let mut chunk_start = 0;
    for read in 1..n + 1 {
        let len = read - chunk_start;
        if len >= frame && len % hop == 0 {
            starts.extend((chunk_start..read).step_by(hop));
            chunk_start = read;
        }
    }
    if chunk_start < n {
        starts.push(chunk_start);
    }
    starts
}

#[test]
fn blocks_hop_and_are_padded() {
    assert_eq!(at_once(5, 10, 2, None), vec![vec![1, 2], vec![3, 4], vec![5, 0]]);
    assert_eq!(
        at_once(5, 10, 3, Some(2)),
        vec![vec![1, 2, 3], vec![3, 4, 5], vec![5, 0, 0]]
    );
    assert_eq!(at_once(5, 10, 1, Some(3)), vec![vec![1], vec![4]]);
    assert_eq!(at_once(5, 2, 2, None), vec![vec![1, 2], vec![3, 4]]);
    assert_eq!(at_once(5, 0, 2, None), Vec::<Vec<u32>>::new());
    assert_eq!(at_once(0, 3, 2, None), Vec::<Vec<u32>>::new());
    assert_eq!(at_once(3, 5, 0, Some(2)), vec![Vec::<u32>::new(), Vec::new()]);
}

#[test]
fn lazy_blocks_overlap() {
    assert_eq!(
        lazily(6, 3, 4, Some(2)),
        vec![vec![1, 2, 3, 4], vec![3, 4, 5, 6], vec![5, 6, 0, 0]]
    );
    assert_eq!(
        lazily(8, 10, 4, Some(2)),
        vec![vec![1, 2, 3, 4], vec![3, 4, 5, 6], vec![5, 6, 7, 8], vec![7, 8, 0, 0]]
    );
    assert_eq!(lazily(8, 3, 4, Some(2)).len(), 3);
    assert_eq!(lazily(8, 0, 4, Some(2)), Vec::<Vec<u32>>::new());
}

#[test]
fn lazy_blocks_start_a_hop_apart() {
    assert_eq!(lazily(7, 2, 2, Some(5)), vec![vec![1, 2], vec![6, 7]]);
    assert_eq!(lazily(4, 2, 2, Some(5)), vec![vec![1, 2]]);
    assert_eq!(lazily(5, 2, 2, Some(5)), vec![vec![1, 2]]);
    assert_eq!(lazily(6, 2, 2, Some(5)), vec![vec![1, 2], vec![6, 0]]);
    assert_eq!(lazily(3, 5, 0, Some(2)), vec![Vec::<u32>::new(), Vec::new()]);
    assert_eq!(lazily(3, 5, 2, Some(usize::MAX)), vec![vec![1, 2]]);
}

#[test]
fn the_largest_count_is_no_limit() {
    let expected = vec![vec![1, 2], vec![3, 4], vec![5, 6]];
    assert_eq!(lazily(6, usize::MAX, 2, Some(2)), expected);
    assert_eq!(at_once(6, usize::MAX, 2, Some(2)), expected);
}

#[test]
fn what_is_left_of_a_chunk_is_one_lazy_block() {
    assert_eq!(lazily(3, 10, 4, Some(2)), vec![vec![1, 2, 3, 0]]);
    assert_eq!(
        lazily(7, 10, 4, Some(2)),
        vec![vec![1, 2, 3, 4], vec![3, 4, 5, 6], vec![5, 6, 7, 0]]
    );
    assert_eq!(lazily(5, 10, 4, Some(3)), vec![vec![1, 2, 3, 4]]);
    assert_eq!(lazily(6, 10, 4, Some(3)), vec![vec![1, 2, 3, 4], vec![4, 5, 6, 0]]);
    assert_eq!(
        lazily(4, 10, 4, Some(1)),
        vec![vec![1, 2, 3, 4], vec![2, 3, 4, 0], vec![3, 4, 0, 0], vec![4, 0, 0, 0]]
    );
}

#[test]
fn blocks_are_those_at_the_starts() {
    for n in 0..16 {
        for limit in 0..8 {
            for frame in 0..7 {
                for hop in 1..9 {
                    let all: Vec<usize> = (0..n as usize).step_by(hop).collect();
                    let expected = windows(n, all, limit, frame);
                    assert_eq!(at_once(n, limit, frame, Some(hop)), expected);
                    let gathered = gathered_starts(n as usize, frame, hop);
                    let expected = windows(n, gathered, limit, frame);
                    assert_eq!(lazily(n, limit, frame, Some(hop)), expected);
                }
            }
        }
    }
}

#[test]
fn both_ways_agree_where_nothing_longer_than_a_hop_is_left() {
    for n in 0..16u32 {
        for limit in 0..8usize {
            for frame in 0..7usize {
                for hop in 1..9usize {
                    let hops = (frame.max(1) + hop - 1) / hop;
                    let left = n as usize % (hops * hop);
                    let whole = n as usize / (hops * hop) * hops;
                    let count = if left > 0 { whole + 1 } else { whole };
                    let all = at_once(n, limit, frame, Some(hop));
                    let lazy = lazily(n, limit, frame, Some(hop));
                    assert_eq!(lazy[..], all[..count.min(all.len())]);
                    assert_eq!(lazy == all, left <= hop || limit <= count);
                    assert!(lazy == all || hop < frame);
                }
            }
        }
    }
}

#[test]
fn no_hop_is_a_frame() {
    for n in 0..9 {
        for frame in 1..5 {
            assert_eq!(at_once(n, 9, frame, None), at_once(n, 9, frame, Some(frame)));
            assert_eq!(lazily(n, 9, frame, None), at_once(n, 9, frame, Some(frame)));
        }
    }
}

#[test]
fn the_count_only_caps() {
    let all = at_once(9, 20, 4, Some(2));
    assert_eq!(all.len(), 5);
    for limit in 0..8 {
        let expected: Vec<Vec<u32>> = all.iter().take(limit).cloned().collect();
        assert_eq!(at_once(9, limit, 4, Some(2)), expected);
        assert_eq!(lazily(9, limit, 4, Some(2)), expected);
    }
}

#[test]
fn blocks_that_cannot_be_cut_are_none() {
    assert!(try_stream(file(3), 2, 2, Some(0)).is_none());
    assert!(try_stream(file(3), 2, 0, None).is_none());
    assert!(try_stream(file(0), 2, 2, Some(0)).is_none());
    assert!(try_stream(file(3), 2, usize::MAX, Some(1)).is_none());
    assert!(try_stream(file(3), 1, isize::MAX as usize / 4 + 1, None).is_none());
    let cut = try_stream(file(3), 2, 2, None).unwrap().unwrap();
    assert_eq!(cut, vec![vec![1, 2], vec![3, 0]]);
    let missing = WavFile::Missing("gone".to_string());
    let r = try_stream(missing, 2, 2, Some(0));
    assert!(matches!(r, Some(Err(AudioError::FileNotFound(path))) if path == "gone"));
}

#[test]
fn any_frame_will_do_where_no_block_is_made() {
    let none: Vec<Vec<u32>> = Vec::new();
    assert_eq!(at_once(0, 5, usize::MAX, None), none);
    assert_eq!(at_once(4, 0, usize::MAX, Some(3)), none);
    assert_eq!(try_stream(file(0), 5, usize::MAX, None).unwrap().unwrap(), none);
    assert_eq!(try_stream(file(4), 0, usize::MAX, Some(3)).unwrap().unwrap(), none);
    assert_eq!(lazily(0, 5, usize::MAX, None), none);
    assert_eq!(lazily(4, 0, usize::MAX, Some(3)), none);
    assert_eq!(lazily(0, 5, 2, Some(0)), none);
    assert_eq!(lazily(4, 0, 2, Some(0)), none);
}

#[test]
fn lazy_streams_say_whether_they_are_ready() {
    let ready = |n: u32, limit: usize, frame: usize, hop: Option<usize>| {
        stream_lazy(file(n), limit, frame, hop).unwrap().is_ready()
    };
    assert!(ready(3, 2, 2, Some(1)));
    assert!(!ready(3, 2, 2, Some(0)));
    assert!(!ready(3, 2, 3, Some(0)));
    assert!(!ready(3, 2, 0, None));
    assert!(!ready(3, 2, usize::MAX, Some(1)));
    assert!(ready(3, 2, 4, Some(0)));
    assert_eq!(lazily(3, 2, 4, Some(0)), vec![vec![1, 2, 3, 0]]);
}

#[test]
fn exported_samples_stream_back() {
    let values: Vec<u32> =
        [0.5f32, -2.0, 0.25, 3.0, 0.125].iter().map(|v| v.to_bits()).collect();
    let clamped: Vec<u32> =
        [0.5f32, -1.0, 0.25, 1.0, 0.125].iter().map(|v| v.to_bits()).collect();
    let bytes = export(&AudioData::new(values, 100, 1)).unwrap();
    let blocks = stream(WavFile::Contents(bytes), 3, 3, Some(2)).unwrap();
    for i in 0..5 {
        assert_eq!(blocks[i / 2][i % 2], clamped[i]);
    }
}

#[test]
fn every_sample_is_in_a_block() {
    for n in 1..14u32 {
        for hop in 1..4usize {
            let blocks = at_once(n, 20, 4, Some(hop));
            for i in 0..n as usize {
                assert_eq!(blocks[i / hop][i % hop], i as u32 + 1);
            }
        }
    }
}

#[test]
fn chunkers_cut_when_a_frame_is_whole() {
    let mut chunker = Chunker::new(4, 4, 3);
    for sample in 1..4 {
        assert!(chunker.push(sample).is_empty());
    }
    assert_eq!(chunker.push(4), vec![vec![1, 2, 3, 4]]);
    assert!(chunker.push(5).is_empty());
    assert!(chunker.push(6).is_empty());
    assert_eq!(chunker.push(7), vec![vec![4, 5, 6, 7]]);
    assert!(!chunker.is_done());
    assert_eq!(chunker.finish(), vec![vec![7, 0, 0, 0]]);
    assert!(!chunker.is_done());
    assert!(chunker.finish().is_empty());
}

#[test]
fn chunkers_finish_by_the_chunk() {
    let mut chunker = Chunker::new(9, 6, 2);
    for sample in 1..6 {
        assert!(chunker.push(sample).is_empty());
    }
    assert_eq!(chunker.finish(), vec![vec![1, 2, 3, 4, 5, 0]]);
    assert!(chunker.finish().is_empty());

    let filled = || {
        let mut chunker = Chunker::new(9, 6, 2);
        for sample in 1..6 {
            assert!(chunker.push(sample).is_empty());
        }
        assert_eq!(chunker.push(6), vec![vec![1, 2, 3, 4, 5, 6]]);
        chunker
    };
    let mut chunker = filled();
    assert_eq!(chunker.finish(), vec![vec![3, 4, 5, 6, 0, 0], vec![5, 6, 0, 0, 0, 0]]);
    let mut chunker = filled();
    assert!(chunker.push(7).is_empty());
    assert_eq!(
        chunker.finish(),
        vec![vec![3, 4, 5, 6, 7, 0], vec![5, 6, 7, 0, 0, 0], vec![7, 0, 0, 0, 0, 0]]
    );
}

#[test]
fn chunkers_pass_over_what_lies_between_blocks() {
    let mut chunker = Chunker::new(9, 2, 5);
    assert!(chunker.push(1).is_empty());
    assert_eq!(chunker.push(2), vec![vec![1, 2]]);
    for sample in 3..7 {
        assert!(chunker.push(sample).is_empty());
    }
    assert_eq!(chunker.finish(), vec![vec![6, 0]]);
    assert!(chunker.finish().is_empty());
}

#[test]
fn starts_are_the_multiples_below() {
    assert_eq!(block_starts(7, 3, 9), vec![0, 3, 6]);
    assert_eq!(block_starts(6, 3, 9), vec![0, 3]);
    assert_eq!(block_starts(6, 3, 1), vec![0]);
    assert_eq!(block_starts(0, 3, 1), Vec::<usize>::new());
    assert_eq!(block_starts(5, usize::MAX, 4), vec![0]);
    assert_eq!(block_starts(5, 0, 4), vec![0]);
    assert_eq!(block_starts(0, 0, 4), Vec::<usize>::new());
}

#[test]
fn frames_fit_in_a_vector_or_are_not_made() {
    assert!(can_make(1, 1, isize::MAX as usize / 4));
    assert!(!can_make(1, 1, isize::MAX as usize / 4 + 1));
    assert!(can_make(0, 1, usize::MAX));
    assert!(can_make(1, 0, usize::MAX));
}

#[test]
fn blocks_are_cut_in_order() {
    let samples: Vec<u32> = (0..1000).collect();
    let blocks = cut_blocks(&samples, 5000, 2, 1);
    assert_eq!(blocks.len(), 1000);
    for i in 0..999u32 {
        assert_eq!(blocks[i as usize], vec![i, i + 1]);
    }
    assert_eq!(blocks[999], vec![999, 0]);
    assert_eq!(block_at(&samples, 998, 3), vec![998, 999, 0]);
}

#[test]
fn samples_that_are_missing_count_as_zero() {
    let mut bytes = export(&AudioData::new(vec![1, 2, 3, 4, 5], 100, 1)).unwrap();
    bytes.truncate(bytes.len() - 9);
    let mut opened = stream_lazy(WavFile::Contents(bytes), 9, 2, None).unwrap();
    let mut blocks: Vec<Vec<u32>> = Vec::new();
    while let Some(batch) = opened.next_blocks() {
        blocks.extend(batch);
    }
    assert_eq!(blocks, vec![vec![1, 2], vec![0, 0], vec![0, 0]]);
}
