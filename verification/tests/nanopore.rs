use readfish_tools::nanopore::{
    generate_flowcell, get_coords, get_flowcell_array, ChannelLayouts,
};
use std::collections::HashMap;

/// A table for the 512 channels: eight blocks of 64 channels, each four
/// columns wide; the first half of a block fills the lower eight rows
/// upwards, the second half the upper eight rows downwards.
fn minion() -> HashMap<usize, (usize, usize)> {
    let mut table = HashMap::new();
    for channel in 1..=512usize {
        let block = (channel - 1) / 64;
        let within = (channel - 1) % 64;
        let top = if block == 0 { 31 } else { 4 * block - 1 };
        let place = if within < 32 {
            (top - within / 8, within % 8)
        } else {
            (top - (within - 32) / 8, 15 - within % 8)
        };
        table.insert(channel, place);
    }
    table
}

fn layouts() -> ChannelLayouts {
    let mut flongle = HashMap::new();
    flongle.insert(2, (1, 9));
    flongle.insert(5, (4, 9));
    ChannelLayouts { flongle, minion: minion() }
}

#[test]
fn test_generate_flowcell() {
    let x = generate_flowcell(512, 2, 1, false, &layouts());
    assert_eq!(x.len(), 2);
    assert_eq!(x[0][0], 121_usize);
    assert_eq!(x[1][0], 377_usize)
}

#[test]
fn test_generate_flowcell_odd_even() {
    let x = generate_flowcell(512, 0, 0, true, &layouts());
    assert_eq!(x.len(), 2);
    assert_eq!(x[0][0], 1);
    assert_eq!(x[1][0], 2)
}

#[test]
fn test_get_flowcell_array() {
    let fa = get_flowcell_array(512, &layouts());
    assert_eq!(fa[0][0], 121_usize)
}

#[test]
fn flowcell_in_quarters_by_columns() {
    let x = generate_flowcell(512, 4, 1, false, &layouts());
    assert_eq!(x.len(), 4);
    assert_eq!(x[0].len(), 128);
    assert_eq!(x[0][..8], [121, 113, 105, 97, 185, 177, 169, 161]);
    assert_eq!(x[0][127], 129);
    assert_eq!(x[1][..8], [249, 241, 233, 225, 313, 305, 297, 289]);
    assert_eq!(x[1][127], 257);
    assert_eq!(x[2][..8], [377, 369, 361, 353, 441, 433, 425, 417]);
    assert_eq!(x[2][127], 385);
    assert_eq!(x[3][..8], [505, 497, 489, 481, 57, 49, 41, 33]);
    assert_eq!(x[3][127], 1);
}

#[test]
fn flowcell_in_halves_by_rows() {
    let x = generate_flowcell(512, 2, 0, false, &layouts());
    assert_eq!(x.len(), 2);
    assert_eq!(x[0].len(), 256);
    assert_eq!(x[0][0], 121);
    assert_eq!(x[0][31], 33);
    assert_eq!(x[0][32], 122);
    assert_eq!(x[1][255], 1);
    let whole = generate_flowcell(512, 1, 0, false, &layouts());
    assert_eq!(whole.len(), 1);
    assert_eq!(whole[0].len(), 512);
    let mut seen = whole[0].clone();
    seen.sort();
    assert_eq!(seen, (1..=512).collect::<Vec<usize>>());
}

#[test]
fn flowcell_array_shape() {
    let fa = get_flowcell_array(512, &layouts());
    assert_eq!(fa.len(), 16);
    assert!(fa.iter().all(|row| row.len() == 32));
    assert_eq!(fa[15][31], 1);
    let big = get_flowcell_array(3000, &layouts());
    assert_eq!(big.len(), 25);
    assert!(big.iter().all(|row| row.len() == 120));
    assert_eq!(big[24][0], 1);
    assert_eq!(big[24][119], 2760);
    assert_eq!(big[0][0], 241);
}

#[test]
fn odd_and_even_channels() {
    let x = generate_flowcell(5, 0, 0, true, &layouts());
    assert_eq!(x, vec![vec![1, 3, 5], vec![2, 4]]);
    let x = generate_flowcell(0, 0, 0, true, &layouts());
    assert_eq!(x, vec![Vec::<usize>::new(), Vec::new()]);
    let x = generate_flowcell(1, 3, 7, true, &layouts());
    assert_eq!(x, vec![vec![1], Vec::new()]);
}

#[test]
fn test_get_coords() {
    let tables = layouts();
    assert_eq!(get_coords(2, 512, &tables).unwrap(), (31_usize, 1_usize));
    assert_eq!(get_coords(2, 126, &tables).unwrap(), (1_usize, 9_usize));
    assert_eq!(get_coords(2, 3000, &tables).unwrap(), (1_usize, 0_usize));
}

#[test]
#[should_panic]
fn test_get_coords_panics() {
    get_coords(10000, 10, &layouts()).unwrap();
}

#[test]
#[should_panic]
fn test_get_coords_panics_size() {
    get_coords(10, 127, &layouts()).unwrap();
}

#[test]
fn coords_on_the_largest_flowcell() {
    let tables = layouts();
    assert_eq!(get_coords(1, 3000, &tables), Ok((0, 0)));
    assert_eq!(get_coords(10, 3000, &tables), Ok((9, 0)));
    assert_eq!(get_coords(11, 3000, &tables), Ok((0, 1)));
    assert_eq!(get_coords(250, 3000, &tables), Ok((9, 24)));
    assert_eq!(get_coords(251, 3000, &tables), Ok((10, 0)));
    assert_eq!(get_coords(300, 3000, &tables), Ok((19, 4)));
    assert_eq!(get_coords(3000, 3000, &tables), Ok((119, 24)));
}

#[test]
fn coords_errors() {
    let tables = layouts();
    assert_eq!(
        get_coords(0, 512, &tables),
        Err("channel cannot be less than one or above flowcell_size".to_string())
    );
    assert_eq!(
        get_coords(513, 512, &tables),
        Err("channel cannot be less than one or above flowcell_size".to_string())
    );
    assert_eq!(get_coords(1, 513, &tables), Err("flowcell_size is not recognized".to_string()));
    assert_eq!(
        get_coords(3, 126, &tables),
        Err("channel not found in FLONGLE_CHANNELS".to_string())
    );
    assert_eq!(get_coords(5, 126, &tables), Ok((4, 9)));
    assert_eq!(get_coords(121, 512, &tables), Ok((0, 15)));
    let mut sparse = layouts();
    sparse.minion.remove(&3);
    assert_eq!(
        get_coords(3, 512, &sparse),
        Err("channel not found in MINION_CHANNELS".to_string())
    );
}
