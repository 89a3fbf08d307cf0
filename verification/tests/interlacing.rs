use simple_png::interlacing::Adam7Iter;

#[test]
fn adam7iter_correctly_calculates_pass_dimensions() {
    let mut adam7 = Adam7Iter::new(8, 8);
    let expected_dimensions = [(1, 1), (1, 1), (2, 1), (2, 2), (4, 2), (4, 4), (8, 4)];
    for expected in expected_dimensions {
        let pass = adam7.next().unwrap();
        assert_eq!((pass.width, pass.height), expected);
    }

    let mut adam7 = Adam7Iter::new(9, 9);
    let expected_dimensions = [(2, 2), (1, 2), (3, 1), (2, 3), (5, 2), (4, 5), (9, 4)];
    for expected in expected_dimensions {
        let pass = adam7.next().unwrap();
        assert_eq!((pass.width, pass.height), expected);
    }

    let mut adam7 = Adam7Iter::new(16, 16);
    let expected_dimensions = [(2, 2), (2, 2), (4, 2), (4, 4), (8, 4), (8, 8), (16, 8)];
    for expected in expected_dimensions {
        let pass = adam7.next().unwrap();
        assert_eq!((pass.width, pass.height), expected);
    }

    let mut adam7 = Adam7Iter::new(4, 4);
    let expected_dimensions = [(1, 1), (1, 1), (2, 1), (2, 2), (4, 2)];
    for expected in expected_dimensions {
        let pass = adam7.next().unwrap();
        assert_eq!((pass.width, pass.height), expected);
    }
}

#[test]
fn adam7iter_returns_iterator_over_pixel_indices() {
    let mut adam7 = Adam7Iter::new(8, 8);
    let expected_indices: [&[usize]; 7] = [
        &[0],
        &[4],
        &[32, 36],
        &[2, 6, 34, 38],
        &[16, 18, 20, 22, 48, 50, 52, 54],
        &[1, 3, 5, 7, 17, 19, 21, 23, 33, 35, 37, 39, 49, 51, 53, 55],
        &[
            8, 9, 10, 11, 12, 13, 14, 15, 24, 25, 26, 27, 28, 29, 30, 31, 40, 41, 42, 43, 44,
            45, 46, 47, 56, 57, 58, 59, 60, 61, 62, 63,
        ],
    ];
    for expected in expected_indices {
        let mut pass = adam7.next().unwrap();
        assert_eq!(pass.pixel_indices.collect_remaining(), expected.to_vec());
    }

    let mut adam7 = Adam7Iter::new(9, 9);
    let expected_lengths = [4, 2, 3, 6, 10, 20, 36];
    for expected in expected_lengths {
        let mut pass = adam7.next().unwrap();
        assert_eq!(pass.pixel_indices.collect_remaining().len(), expected);
    }

    let mut adam7 = Adam7Iter::new(4, 4);
    let expected_lengths = [1, 1, 2, 4, 8];
    for expected in expected_lengths {
        let mut pass = adam7.next().unwrap();
        assert_eq!(pass.pixel_indices.collect_remaining().len(), expected);
    }

    let mut adam7 = Adam7Iter::new(32, 32);
    let expected_lengths = [16, 16, 32, 64, 128, 256, 512];
    for expected in expected_lengths {
        let mut pass = adam7.next().unwrap();
        assert_eq!(pass.pixel_indices.collect_remaining().len(), expected);
    }
}

#[test]
fn adam7_passes_cover_each_pixel_once() {
    for (w, h) in [(1usize, 7usize), (4, 9), (7, 1), (8, 16), (9, 4), (16, 32), (32, 8)] {
        let mut seen = vec![0usize; w * h];
        let mut adam7 = Adam7Iter::new(w, h);
        while let Some(mut pass) = adam7.next() {
            for idx in pass.pixel_indices.collect_remaining() {
                seen[idx] += 1;
            }
        }
        assert!(seen.iter().all(|&c| c == 1));
    }
}
