use raytracer::math::{factors, floor_sqrt, rounded_sqrt};

#[test]
fn check_factors() {
    let known_factors: [&[u32]; 33] = [
        /*  0 => */ &[],
        /*  1 => */ &[1],
        /*  2 => */ &[1, 2],
        /*  3 => */ &[1, 3],
        /*  4 => */ &[1, 2, 4],
        /*  5 => */ &[1, 5],
        /*  6 => */ &[1, 2, 3, 6],
        /*  7 => */ &[1, 7],
        /*  8 => */ &[1, 2, 4, 8],
        /*  9 => */ &[1, 3, 9],
        /* 10 => */ &[1, 2, 5, 10],
        /* 11 => */ &[1, 11],
        /* 12 => */ &[1, 2, 3, 4, 6, 12],
        /* 13 => */ &[1, 13],
        /* 14 => */ &[1, 2, 7, 14],
        /* 15 => */ &[1, 3, 5, 15],
        /* 16 => */ &[1, 2, 4, 8, 16],
        /* 17 => */ &[1, 17],
        /* 18 => */ &[1, 2, 3, 6, 9, 18],
        /* 19 => */ &[1, 19],
        /* 20 => */ &[1, 2, 4, 5, 10, 20],
        /* 21 => */ &[1, 3, 7, 21],
        /* 22 => */ &[1, 2, 11, 22],
        /* 23 => */ &[1, 23],
        /* 24 => */ &[1, 2, 3, 4, 6, 8, 12, 24],
        /* 25 => */ &[1, 5, 25],
        /* 26 => */ &[1, 2, 13, 26],
        /* 27 => */ &[1, 3, 9, 27],
        /* 28 => */ &[1, 2, 4, 7, 14, 28],
        /* 29 => */ &[1, 29],
        /* 30 => */ &[1, 2, 3, 5, 6, 10, 15, 30],
        /* 31 => */ &[1, 31],
        /* 32 => */ &[1, 2, 4, 8, 16, 32],
    ];
    for (num, known) in known_factors.iter().cloned().enumerate() {
        let ours: Vec<u32> = factors(num as u32);
        assert_eq!(ours, known);
    }
}

#[test]
fn floor_sqrt_of_squares_and_neighbours() {
    assert_eq!(floor_sqrt(0), 0);
    assert_eq!(floor_sqrt(1), 1);
    assert_eq!(floor_sqrt(3), 1);
    assert_eq!(floor_sqrt(4), 2);
    assert_eq!(floor_sqrt(99), 9);
    assert_eq!(floor_sqrt(100), 10);
    assert_eq!(floor_sqrt(1 << 66), 1 << 33);
    assert_eq!(floor_sqrt((1 << 66) - 1), (1 << 33) - 1);
    assert_eq!(floor_sqrt(u128::MAX), u64::MAX);
}

#[test]
fn rounded_sqrt_rounds_halves_up() {
    // sqrt(12) = 3.46..
    assert_eq!(rounded_sqrt(12, 1), 3);
    // sqrt(9/4) = 1.5 exactly
    assert_eq!(rounded_sqrt(9, 4), 2);
    // sqrt(1/4) = 0.5 exactly
    assert_eq!(rounded_sqrt(1, 4), 1);
    // just below a half
    assert_eq!(rounded_sqrt(24, 100), 0);
    assert_eq!(rounded_sqrt(0, 7), 0);
    // sqrt(6.25) = 2.5, sqrt(6.24) = 2.49..
    assert_eq!(rounded_sqrt(625, 100), 3);
    assert_eq!(rounded_sqrt(624, 100), 2);
}
