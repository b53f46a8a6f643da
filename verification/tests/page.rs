use lodestone::allocator::page::{signed_word, word_signed, FlexibleMemory, Page};

#[test]
fn test_transmute_whole() {
    let mut p: Page = vec![0u8; 0x1000];
    {
        // signed, then unsigned
        p.transmute_page_mut(signed_word(-17));
        p.transmute_segment_mut(8, 56);
    }

    assert_eq!([239, 255, 255, 255, 255, 255, 255, 255][..], p[0..8]);
    assert_eq!([56, 0, 0, 0, 0, 0, 0, 0][..], p[8..16]);
    assert_eq!(-17, word_signed(p.transmute_page()));
    assert_eq!(56, p.transmute_segment(8));
}

#[test]
fn test_transmute_part() {
    let mut p: Page = vec![0u8; 0x1000];
    {
        p.transmute_segment_mut(64, signed_word(-17));
        p.transmute_segment_mut(72, 56);
    }

    assert_eq!([239, 255, 255, 255, 255, 255, 255, 255][..], p[64..72]);
    assert_eq!([56, 0, 0, 0, 0, 0, 0, 0][..], p[72..80]);
    assert_eq!(-17, word_signed(p.transmute_segment(64)));
    assert_eq!(56, p.transmute_segment(72));
    assert_eq!([0u8; 8][..], p[80..88]);
}
