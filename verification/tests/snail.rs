use quests::snail::{checked_crt, crt, get_xy, mod_inverse, Device};

fn device(snails: &[(i64, i64)]) -> Device {
    let mut device = Device::default();
    for (x, y) in snails {
        device.add(*x, *y);
    }
    device
}

#[test]
fn add_keeps_one_snail_per_place_and_widens_the_grid() {
    let mut d = Device::default();
    assert_eq!(d.size, 0);
    d.add(1, 2);
    assert_eq!(d.size, 4);
    d.add(1, 2);
    assert_eq!(d.snails, vec![(1, 2)]);
    d.add(3, 1);
    assert_eq!(d.snails, vec![(1, 2), (3, 1)]);
    assert_eq!(d.size, 5);
    d.add(1, 1);
    assert_eq!(d.size, 5);
    assert_eq!(d.contains(3, 1), true);
    assert_eq!(d.contains(1, 3), false);
}

#[test]
fn value_is_the_sum_of_x_and_a_hundred_y() {
    assert_eq!(device(&[]).value(), 0);
    assert_eq!(device(&[(1, 2)]).value(), 201);
    assert_eq!(device(&[(1, 2), (3, 1), (2, 4)]).value(), 201 + 103 + 402);
    let big = i64::MAX / 2 - 1;
    assert_eq!(device(&[(big, 1), (1, big)]).checked_value(), None);
}

#[test]
fn step_moves_up_the_diagonal_and_wraps_at_the_top() {
    let mut d = device(&[(1, 3), (2, 1), (3, 2), (1, 1)]);
    d.step();
    assert_eq!(d.snails, vec![(2, 2), (1, 2), (4, 1), (1, 1)]);
    assert_eq!(d.size, 6);
    d.step();
    assert_eq!(d.snails, vec![(3, 1), (2, 1), (1, 4), (1, 1)]);
    d.step();
    assert_eq!(d.snails, vec![(1, 3), (1, 2), (2, 3), (1, 1)]);
}

#[test]
fn a_snail_is_back_after_as_many_steps_as_its_diagonal_is_long() {
    let mut d = device(&[(2, 3)]);
    for _ in 0..4 {
        d.step();
    }
    assert_eq!(d.snails, vec![(2, 3)]);
}

#[test]
fn render_draws_rows_that_get_shorter() {
    assert_eq!(device(&[]).render(), "");
    // size 4: row 1 has columns 1..3, row 2 column 1, row 3 none
    assert_eq!(device(&[(1, 2)]).render(), "..\n@\n\n");
    assert_eq!(device(&[(2, 1), (1, 2)]).render(), ".@\n@\n\n");
    // size 5: rows 1 to 4 with 3, 2, 1 and 0 columns
    assert_eq!(device(&[(1, 1), (3, 1)]).render(), "@.@\n..\n.\n\n");
}

#[test]
fn get_xy_reads_two_assignments() {
    assert_eq!(get_xy("x=1 y=2"), Some((1, 2)));
    assert_eq!(get_xy("x=-1 y=+20"), Some((-1, 20)));
    assert_eq!(get_xy("a=b=3 y=4"), None);
    assert_eq!(get_xy("x=1"), None);
    assert_eq!(get_xy("x=1 y=2 z=3"), None);
    assert_eq!(get_xy("x=1  y=2"), Some((1, 2)));
    assert_eq!(get_xy("x=1 y= 2"), None);
    assert_eq!(get_xy("1 2"), None);
    assert_eq!(get_xy("=1 =2"), Some((1, 2)));
}

#[test]
fn mod_inverse_under_a_prime() {
    assert_eq!(mod_inverse(3, 7), 5);
    assert_eq!(mod_inverse(10, 7), 5);
    assert_eq!(mod_inverse(1, 2), 1);
    assert_eq!(mod_inverse(6, 3), 0);
    assert_eq!(mod_inverse(3, 1), 0);
    assert_eq!(mod_inverse(3, 0), 0);
    assert_eq!(mod_inverse(3, -5), 0);
    for n in 1..13 {
        assert_eq!((n * mod_inverse(n, 13)) % 13, 1);
    }
}

#[test]
fn crt_solves_the_remainders() {
    assert_eq!(crt(&[3, 5, 7], &[2, 3, 2]), 23);
    assert_eq!(crt(&[5, 7], &[0, 0]), 0);
    assert_eq!(crt(&[], &[]), 0);
    assert_eq!(crt(&[7], &[3, 9]), 3);
    let r = crt(&[11, 13, 17, 19], &[10, 4, 12, 0]);
    assert_eq!((r % 11, r % 13, r % 17, r % 19), (10, 4, 12, 0));
}

#[test]
fn crt_has_no_value_out_of_range() {
    assert_eq!(checked_crt(&[3, 0], &[1, 1]), None);
    assert_eq!(checked_crt(&[3, -5], &[1, 1]), None);
    assert_eq!(checked_crt(&[3, 5], &[1, -1]), None);
    assert_eq!(checked_crt(&[i64::MAX, 2], &[1, 1]), None);
    assert_eq!(checked_crt(&[3037000493, 3037000507], &[3037000000, 3037000000]), None);
    assert_eq!(checked_crt(&[3, 5, 7], &[2, 3, 2]), Some(23));
}
