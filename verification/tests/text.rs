use mpi_util::grid::MPIinfo;
use mpi_util::text::{cell, file_name, tag};

#[test]
fn cells_are_padded_to_three_digits() {
    assert_eq!(cell(0), b" 000".to_vec());
    assert_eq!(cell(5), b" 005".to_vec());
    assert_eq!(cell(42), b" 042".to_vec());
    assert_eq!(cell(999), b" 999".to_vec());
    assert_eq!(cell(1000), b" 1000".to_vec());
    assert_eq!(cell(-5), b" -05".to_vec());
    assert_eq!(cell(-42), b" -42".to_vec());
    assert_eq!(cell(-123), b" -123".to_vec());
    assert_eq!(cell(i32::MAX), b" 2147483647".to_vec());
    assert_eq!(cell(i32::MIN), b" -2147483648".to_vec());
}

#[test]
fn cells_read_as_the_formatter_writes_them() {
    for x in -1200..1200 {
        assert_eq!(cell(x), format!(" {:03}", x).into_bytes());
    }
    for x in [i32::MIN, i32::MIN + 1, -100000, 99999, 100000, i32::MAX - 1, i32::MAX] {
        assert_eq!(cell(x), format!(" {:03}", x).into_bytes());
    }
}

#[test]
fn tag_names_the_rank() {
    assert_eq!(tag(0), b"rank=0\n".to_vec());
    assert_eq!(tag(3), b"rank=3\n".to_vec());
    assert_eq!(tag(12), b"rank=12\n".to_vec());
    assert_eq!(tag(-1), b"rank=-1\n".to_vec());
    for r in [0, 7, 10, 255, 65536, i32::MAX, i32::MIN] {
        assert_eq!(tag(r), format!("rank={}\n", r).into_bytes());
    }
}

#[test]
fn file_names_count_in_three_digits() {
    assert_eq!(file_name("conf", 0), b"conf000.dat".to_vec());
    assert_eq!(file_name("conf", 7), b"conf007.dat".to_vec());
    assert_eq!(file_name("data", 99), b"data099.dat".to_vec());
    assert_eq!(file_name("data", 100), b"data100.dat".to_vec());
    assert_eq!(file_name("data", 1000), b"data1000.dat".to_vec());
    assert_eq!(file_name("", 5), b"005.dat".to_vec());
    for i in [0usize, 1, 9, 10, 123, 999, 1000, 123456, usize::MAX] {
        assert_eq!(file_name("conf", i), format!("conf{:03}.dat", i).into_bytes());
    }
}

fn joined(pieces: &[Vec<u8>]) -> String {
    String::from_utf8(pieces.concat()).unwrap()
}

#[test]
fn dump_of_a_tile_shows_the_halo() {
    let mi = MPIinfo::new(1, 4, 4).unwrap();
    let mut tile = vec![0; mi.tile_len()];
    mi.init(&mut tile);
    let pieces = mi.dump_local_sub(1, &tile);
    // the tag, four rows of four cells and a line end, the empty line
    assert_eq!(pieces.len(), 1 + 4 * 5 + 1);
    assert_eq!(pieces[0], b"rank=1\n".to_vec());
    assert_eq!(pieces[1], b" 000".to_vec());
    assert_eq!(pieces[5], b"\n".to_vec());
    assert_eq!(
        joined(&pieces),
        "rank=1\n 000 000 000 000\n 000 004 005 000\n 000 006 007 000\n 000 000 000 000\n\n"
    );
    // the turn is named by the argument, not by the rank of the tile
    assert_eq!(mi.dump_local_sub(3, &tile)[0], b"rank=3\n".to_vec());
}

#[test]
fn dump_of_all_tiles_takes_the_ranks_in_order() {
    let mi = MPIinfo::new(2, 4, 4).unwrap();
    let mut tile = vec![0; mi.tile_len()];
    mi.init(&mut tile);
    let turns = mi.dump_local(&tile);
    assert_eq!(turns.len(), 4);
    for (i, turn) in turns.iter().enumerate() {
        assert_eq!(turn.rank, i as i32);
        assert_eq!(turn.pieces, mi.dump_local_sub(i as i32, &tile));
    }
}

#[test]
fn dump_of_the_global_grid() {
    let mi = MPIinfo::new(0, 4, 4).unwrap();
    let global: Vec<i32> = (0..16).collect();
    let pieces = mi.dump_global(&global);
    assert_eq!(pieces.len(), 4 * 5 + 1);
    assert_eq!(
        joined(&pieces),
        " 000 001 002 003\n 004 005 006 007\n 008 009 010 011\n 012 013 014 015\n\n"
    );
}

#[test]
fn dump_of_an_empty_grid() {
    let mi = MPIinfo::new(0, 1, 0).unwrap();
    assert_eq!(joined(&mi.dump_global(&Vec::new())), "\n");
    let tile = vec![7; mi.tile_len()];
    assert_eq!(joined(&mi.dump_local_sub(0, &tile)), "rank=0\n 007 007\n 007 007\n\n");
}
