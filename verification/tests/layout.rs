use bittorrent_client::layout::{lay_out, Layout, MAX_BLOCK_LENGTH};

fn places(layout: &Layout) -> Vec<(usize, usize, usize, usize)> {
    layout
        .blocks
        .iter()
        .map(|b| (b.file_index, b.piece_index, b.begin, b.length))
        .collect()
}

#[test]
fn files_are_cut_at_piece_and_block_boundaries() {
    let layout = lay_out(20000, &vec![30000, 10000]);
    assert_eq!(
        places(&layout),
        vec![(0, 0, 0, 16384), (0, 0, 16384, 3616), (0, 1, 0, 10000), (1, 1, 10000, 10000)]
    );
    assert_eq!(layout.piece_lengths, vec![20000, 20000]);
    assert_eq!(layout.file_blocks[0].len(), 3);
    assert_eq!(layout.file_blocks[0][1].offset, 16384);
    assert_eq!(layout.file_blocks[0][2].offset, 20000);
    assert_eq!(layout.file_blocks[1][0].offset, 0);
}

#[test]
fn the_last_piece_is_shorter() {
    let layout = lay_out(4, &vec![3, 7]);
    assert_eq!(layout.piece_lengths, vec![4, 4, 2]);
    assert_eq!(
        places(&layout),
        vec![(0, 0, 0, 3), (1, 0, 3, 1), (1, 1, 0, 4), (1, 2, 0, 2)]
    );
}

#[test]
fn blocks_cover_the_torrent_without_gaps() {
    let piece_length = 40000;
    let lengths = vec![1, 16384, 0, 100000, 7];
    let layout = lay_out(piece_length, &lengths);
    let mut position = 0;
    for block in &layout.blocks {
        assert_eq!(block.piece_index * piece_length + block.begin, position);
        assert!(block.length <= MAX_BLOCK_LENGTH);
        position += block.length;
    }
    assert_eq!(position, lengths.iter().sum::<usize>());
    assert_eq!(layout.piece_lengths.iter().sum::<usize>(), position);
}

#[test]
fn an_empty_file_gives_its_place_to_the_next() {
    let layout = lay_out(4, &vec![0, 4]);
    assert_eq!(places(&layout), vec![(1, 0, 0, 4)]);
    assert_eq!(layout.file_blocks[0].len(), 1);
    assert_eq!(layout.file_blocks[0][0].length, 0);
}

#[test]
fn an_empty_file_at_the_end_can_have_a_piece_of_its_own() {
    let layout = lay_out(4, &vec![4, 0]);
    assert_eq!(places(&layout), vec![(0, 0, 0, 4), (1, 1, 0, 0)]);
    assert_eq!(layout.piece_lengths, vec![4, 0]);
}

#[test]
fn empty_files_need_no_piece_length() {
    let layout = lay_out(0, &vec![0, 0]);
    assert_eq!(places(&layout), vec![(0, 0, 0, 0), (1, 1, 0, 0)]);
    assert_eq!(layout.piece_lengths, vec![0, 0]);
}
