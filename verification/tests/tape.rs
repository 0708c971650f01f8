use band_interpreter::console::Console;
use band_interpreter::tape::Band;

#[test]
fn new_band_is_blank() {
    let mut band = Band::new();
    assert_eq!(*band.get(), 0);
    band.move_right();
    assert_eq!(*band.get(), 0);
    band.move_left();
    band.move_left();
    assert_eq!(*band.get(), 0);
}

#[test]
fn set_then_get() {
    let mut band = Band::new();
    band.set(42);
    assert_eq!(*band.get(), 42);
    band.move_right();
    band.set(7);
    assert_eq!(*band.get(), 7);
    band.move_left();
    band.move_left();
    band.set(9);
    assert_eq!(*band.get(), 9);
    band.move_right();
    assert_eq!(*band.get(), 42);
}

#[test]
fn increment_wraps_at_255() {
    let mut band = Band::new();
    band.set(255);
    band.inc();
    assert_eq!(*band.get(), 0);
}

#[test]
fn decrement_wraps_at_0() {
    let mut band = Band::new();
    band.dec();
    assert_eq!(*band.get(), 255);
}

#[test]
fn full_cycle_of_increments_restores_cell() {
    for start in [0u8, 1, 17, 128, 255] {
        let mut band = Band::new();
        band.set(start);
        for _ in 0..256 {
            band.inc();
        }
        assert_eq!(*band.get(), start);
    }
}

#[test]
fn k_increments_from_zero_give_k_mod_256() {
    for k in [0usize, 1, 2, 255, 256, 257, 300, 1000] {
        let mut band = Band::new();
        for _ in 0..k {
            band.inc();
        }
        assert_eq!(*band.get() as usize, k % 256);
    }
    let mut band = Band::new();
    for _ in 0..300 {
        band.inc();
    }
    assert_eq!(*band.get(), 44);
}

#[test]
fn increment_then_decrement_restores_cell() {
    let mut band = Band::new();
    band.set(200);
    band.inc();
    band.dec();
    assert_eq!(*band.get(), 200);
    band.dec();
    band.inc();
    assert_eq!(*band.get(), 200);
}

#[test]
fn cells_on_the_left_wrap_too() {
    let mut band = Band::new();
    band.move_left();
    band.move_left();
    band.move_left();
    band.dec();
    assert_eq!(*band.get(), 255);
    band.inc();
    band.inc();
    assert_eq!(*band.get(), 1);
}

#[test]
fn revisited_cell_keeps_last_value() {
    let mut band = Band::new();
    band.set(11);
    for _ in 0..5 {
        band.move_right();
    }
    band.set(22);
    for _ in 0..9 {
        band.move_left();
    }
    band.set(33);
    // back to the origin
    for _ in 0..4 {
        band.move_right();
    }
    assert_eq!(*band.get(), 11);
    // on to position 5
    for _ in 0..5 {
        band.move_right();
    }
    assert_eq!(*band.get(), 22);
    // far out to the right and back to position -4
    for _ in 0..20 {
        band.move_right();
    }
    for _ in 0..29 {
        band.move_left();
    }
    assert_eq!(*band.get(), 33);
}

#[test]
fn moves_do_not_touch_cells() {
    let mut band = Band::new();
    for value in 1..=10u8 {
        band.set(value);
        band.move_right();
    }
    for value in (1..=10u8).rev() {
        band.move_left();
        assert_eq!(*band.get(), value);
    }
    for value in 1..=10u8 {
        assert_eq!(*band.get(), value);
        band.move_right();
    }
}

#[test]
fn output_writes_current_cell() {
    let mut band = Band::new();
    let mut console = Console::new(Vec::new());
    band.set(65);
    band.output(&mut console);
    band.inc();
    band.output(&mut console);
    assert_eq!(console.output(), &vec![65u8, 66]);
    assert_eq!(*band.get(), 66);
}

#[test]
fn input_reads_into_current_cell() {
    let mut band = Band::new();
    let mut console = Console::new(vec![5, 6]);
    assert!(band.input(&mut console).is_ok());
    assert_eq!(*band.get(), 5);
    band.move_right();
    assert!(band.input(&mut console).is_ok());
    assert_eq!(*band.get(), 6);
    band.move_left();
    assert_eq!(*band.get(), 5);
    assert_eq!(console.pending(), 0);
}

#[test]
fn console_reads_in_order_and_reports_the_end() {
    let mut console = Console::new(vec![1, 2, 3]);
    assert_eq!(console.pending(), 3);
    assert_eq!(console.read(), Some(1));
    assert_eq!(console.read(), Some(2));
    assert_eq!(console.pending(), 1);
    assert_eq!(console.read(), Some(3));
    assert_eq!(console.read(), None);
    assert_eq!(console.read(), None);
    assert_eq!(console.pending(), 0);
    assert!(console.output().is_empty());
}

#[test]
fn console_keeps_output_in_order() {
    let mut console = Console::new(vec![9]);
    console.write(3);
    console.write(1);
    console.write(2);
    assert_eq!(console.output(), &vec![3u8, 1, 2]);
    assert_eq!(console.pending(), 1);
}

#[test]
fn new_band_has_no_cells_beside_the_origin() {
    assert_eq!(Band::new().extent(), (0, 0));
}

#[test]
fn move_right_grows_the_right_half_beyond_its_end_only() {
    let mut band = Band::new();
    band.move_right();
    assert_eq!(band.extent(), (0, 1));
    band.move_right();
    band.move_right();
    assert_eq!(band.extent().1, 3);
    band.move_left();
    band.move_left();
    band.move_right();
    band.move_right();
    assert_eq!(band.extent().1, 3);
    band.move_right();
    assert_eq!(band.extent().1, 4);
}

#[test]
fn move_right_left_of_the_origin_grows_nothing() {
    let mut band = Band::new();
    band.move_left();
    band.move_left();
    band.move_left();
    assert_eq!(band.extent(), (3, 0));
    band.move_right();
    band.move_right();
    band.move_right();
    assert_eq!(band.extent(), (3, 0));
    band.move_right();
    assert_eq!(band.extent(), (3, 1));
}

#[test]
fn move_left_grows_the_left_half_by_distance_from_the_origin() {
    // Two moves right, one move left: the new position is 1, the left half
    // is empty, so it gains a cell.
    let mut band = Band::new();
    band.move_right();
    band.move_right();
    assert_eq!(band.extent(), (0, 2));
    band.move_left();
    assert_eq!(band.extent(), (1, 2));
    assert_eq!(*band.get(), 0);
    // On to the origin: distance 0, nothing is added.
    band.move_left();
    assert_eq!(band.extent(), (1, 2));
    // To position -1: the half already holds that cell.
    band.move_left();
    assert_eq!(band.extent(), (1, 2));
    // To position -2: beyond the half.
    band.move_left();
    assert_eq!(band.extent(), (2, 2));
}

#[test]
fn move_left_far_right_of_the_origin_grows_one_cell_a_move() {
    let mut band = Band::new();
    for _ in 0..10 {
        band.move_right();
    }
    assert_eq!(band.extent(), (0, 10));
    // New positions 9, 8, 7: each further out than the left half is long.
    for grown in 1..=3usize {
        band.move_left();
        assert_eq!(band.extent(), (grown, 10));
    }
    band.move_left();
    band.move_left();
    // New positions 6 and 5: the half holds 4, then 5 cells.
    assert_eq!(band.extent(), (5, 10));
    // New position 4: no longer further out than the half is long.
    band.move_left();
    assert_eq!(band.extent(), (5, 10));
    for _ in 0..9 {
        band.move_left();
    }
    // Position -5 is the last cell of the half.
    assert_eq!(band.extent(), (5, 10));
    band.move_left();
    assert_eq!(band.extent(), (6, 10));
}

#[test]
fn cells_added_on_the_way_back_hold_zero_and_keep_what_is_written() {
    let mut band = Band::new();
    band.set(1);
    band.move_right();
    band.set(2);
    band.move_right();
    band.set(3);
    band.move_left();
    band.move_left();
    band.move_left();
    assert_eq!(*band.get(), 0);
    band.set(9);
    band.move_right();
    assert_eq!(*band.get(), 1);
    band.move_right();
    assert_eq!(*band.get(), 2);
    band.move_right();
    assert_eq!(*band.get(), 3);
    band.move_left();
    band.move_left();
    band.move_left();
    assert_eq!(*band.get(), 9);
}

#[test]
fn writes_do_not_change_the_extent() {
    let mut band = Band::new();
    band.move_right();
    band.move_left();
    band.move_left();
    let before = band.extent();
    band.set(7);
    band.inc();
    band.dec();
    band.dec();
    assert_eq!(band.extent(), before);
}
