use simple_png::filters::{inner_filter_scanlines, inner_reconstruct_scanlines, Filter};

#[test]
fn reconstruct_undoes_filter() {
    let mut data: Vec<u8> = vec![
        1, 255, 255, 255, 255, 255, 255, 255, 255, 255, 255, 255, 255, 255, 255, 255, 255, 1,
        0, 0, 0, 0, 0, 0, 255, 255, 0, 0, 0, 0, 0, 0, 255, 255,
    ];
    let orig_copy = data.clone();
    inner_filter_scanlines(&mut data, 0, 17, 2, 8);
    assert_eq!(
        data,
        vec![
            1, 255, 255, 255, 255, 255, 255, 255, 255, 0, 0, 0, 0, 0, 0, 0,
            0, // End scanline
            1, 0, 0, 0, 0, 0, 0, 255, 255, 0, 0, 0, 0, 0, 0, 0, 0,
        ]
    );
    inner_reconstruct_scanlines(&mut data, 0, 17, 2, 8);
    assert_eq!(data, orig_copy);
}

#[test]
fn real_test() {
    // Two 257-byte scanlines: the first is white with one transparent black
    // pixel at its end, the second is white with two.
    let mut data: Vec<u8> = Vec::new();
    data.push(1);
    for _ in 0..248 {
        data.push(255);
    }
    for _ in 0..6 {
        data.push(0);
    }
    data.push(255);
    data.push(255);
    data.push(1);
    for _ in 0..240 {
        data.push(255);
    }
    for _ in 0..2 {
        for _ in 0..6 {
            data.push(0);
        }
        data.push(255);
        data.push(255);
    }
    assert_eq!(data.len(), 514);
    let orig_copy = data.clone();
    inner_filter_scanlines(&mut data, 0, 257, 2, 8);
    inner_reconstruct_scanlines(&mut data, 0, 257, 2, 8);
    assert_eq!(data, orig_copy);
}

#[test]
fn average_actually_averages_a_and_b() {
    assert_eq!(Filter::Average.filter(50, 50, 50, 0), 0);
    assert_eq!(Filter::Average.filter(75, 100, 50, 0), 0);
    assert_eq!(Filter::Average.filter(254, 255, 253, 0), 0);
}
