use document_file::mask::Mask;
use document_file::stencil::{Channel, Extent2, Stencil2};

#[test]
fn stencil2_test_from_buffer() {
    let s = Stencil2::from_buffer(Extent2 { w: 2, h: 2 }, Channel::A, &[1u8, 2, 3, 4]);
    assert_eq!(s.mask.to_bits(), vec![true, true, true, true]);
    assert_eq!(s.data, vec![1u8, 2, 3, 4]);
}

#[test]
fn test_iter() {
    let a = Stencil2 {
        size: Extent2 { w: 2, h: 2 },
        mask: Mask::from_bits(&[true, true, true, true]),
        channels: Channel::A,
        data: vec![1u8, 2, 3, 4],
    };
    let mut i = a.iter();
    assert_eq!(i.next(), Some((0, 0, &[1u8][..])));
    assert_eq!(i.next(), Some((1, 0, &[2u8][..])));
    assert_eq!(i.next(), Some((0, 1, &[3u8][..])));
    assert_eq!(i.next(), Some((1, 1, &[4u8][..])));
    assert_eq!(i.next(), None);

    let a = Stencil2 {
        size: Extent2 { w: 2, h: 2 },
        mask: Mask::from_bits(&[true, false, false, true]),
        channels: Channel::A,
        data: vec![1u8, 4],
    };
    let mut i = a.iter();
    assert_eq!(i.next(), Some((0, 0, &[1u8][..])));
    assert_eq!(i.next(), Some((1, 1, &[4u8][..])));
    assert_eq!(i.next(), None);
}

#[test]
fn stencil2_new_is_zeroed_and_full() {
    let s = Stencil2::new(Extent2 { w: 3, h: 1 }, Channel::Lumaa);
    assert_eq!(s.mask.to_bits(), vec![true, true, true]);
    assert_eq!(s.data, vec![0u8; 6]);
    assert_eq!(Channel::Rgba.len(), 4);
}

#[test]
fn stencil2_iter_wide_pixels() {
    let a = Stencil2 {
        size: Extent2 { w: 3, h: 1 },
        mask: Mask::from_bits(&[false, true, true]),
        channels: Channel::Lumaa,
        data: vec![1u8, 2, 3, 4],
    };
    let mut i = a.iter();
    assert_eq!(i.next(), Some((1, 0, &[1u8, 2][..])));
    assert_eq!(i.next(), Some((2, 0, &[3u8, 4][..])));
    assert_eq!(i.next(), None);
}

#[test]
fn stencil2_empty_has_no_pixels() {
    let s = Stencil2::new(Extent2 { w: 0, h: 4 }, Channel::A);
    assert!(s.mask.to_bits().is_empty());
    assert_eq!(s.iter().next(), None);
}

#[test]
fn stencil2_test_debug() {
    let s = Stencil2::new(Extent2 { w: 3, h: 1 }, Channel::A);
    assert_eq!(s.debug_string(), "Stencil2 (A, ⠉⠁ )");
    let s = Stencil2::new(Extent2 { w: 1, h: 3 }, Channel::A);
    assert_eq!(s.debug_string(), "Stencil2 (A, ⠇ )");
}

#[test]
fn test_combine() {
    let a = Stencil2 {
        size: Extent2 { w: 2, h: 2 },
        mask: Mask::from_bits(&[true, false, false, true]),
        channels: Channel::A,
        data: vec![1u8, 4],
    };
    assert_eq!(a.debug_string(), "Stencil2 (A, ⠑ )");
    let b = Stencil2 {
        size: Extent2 { w: 2, h: 2 },
        mask: Mask::from_bits(&[false, true, true, false]),
        channels: Channel::A,
        data: vec![2u8, 3],
    };
    assert_eq!(b.debug_string(), "Stencil2 (A, ⠊ )");
    let c = a.add(b);
    assert_eq!(c.mask.to_bits(), vec![true, true, true, true]);
    assert_eq!(c.data, vec![1u8, 2, 3, 4]);
    assert_eq!(c.debug_string(), "Stencil2 (A, ⠛ )");

    let a = Stencil2 {
        size: Extent2 { w: 1, h: 2 },
        mask: Mask::from_bits(&[true, true]),
        channels: Channel::A,
        data: vec![1u8, 3],
    };
    assert_eq!(a.debug_string(), "Stencil2 (A, ⠃ )");
    let b = Stencil2 {
        size: Extent2 { w: 2, h: 2 },
        mask: Mask::from_bits(&[false, true, false, true]),
        channels: Channel::A,
        data: vec![2u8, 4],
    };
    assert_eq!(b.debug_string(), "Stencil2 (A, ⠘ )");
    let c = a.add(b);
    assert_eq!(c.mask.to_bits(), vec![true, true, true, true]);
    assert_eq!(c.data, vec![1u8, 2, 3, 4]);
    assert_eq!(c.debug_string(), "Stencil2 (A, ⠛ )");
}

#[test]
fn stencil2_add_prefers_the_upper_layer() {
    let a = Stencil2::from_buffer(Extent2 { w: 2, h: 1 }, Channel::Lumaa, &[1u8, 1, 2, 2]);
    let b = Stencil2 {
        size: Extent2 { w: 3, h: 2 },
        mask: Mask::from_bits(&[false, true, false, false, false, true]),
        channels: Channel::Lumaa,
        data: vec![7u8, 7, 9, 9],
    };
    let c = a.add(b);
    assert_eq!(c.size, Extent2 { w: 3, h: 2 });
    assert_eq!(c.mask.to_bits(), vec![true, true, false, false, false, true]);
    assert_eq!(c.data, vec![1u8, 1, 7, 7, 9, 9]);
}

#[test]
fn stencil2_debug_two_rows() {
    let s = Stencil2::new(Extent2 { w: 1, h: 5 }, Channel::A);
    assert_eq!(s.debug_string(), "Stencil2 (A, ⡇\n               ⠁ )");
}
