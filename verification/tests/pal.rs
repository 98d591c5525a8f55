use datkit::pal::PalFile;

#[test]
fn palette_scaling() {
    let mut d = vec![0u8; 3 * 256 + 32768];
    // the first color is taken as stored, even below 64
    d[0] = 10;
    d[1] = 20;
    d[2] = 30;
    // a later color scales channels below 64 by four
    d[3] = 10;
    d[4] = 70;
    d[5] = 63;
    // one conversion table entry
    d[3 * 256] = 42;

    let pal = PalFile::open(&d).unwrap();
    let c0 = pal.colors[0];
    assert_eq!((c0.red, c0.green, c0.blue), (10, 20, 30));
    let c1 = pal.colors[1];
    assert_eq!((c1.red, c1.green, c1.blue), (40, 70, 252));
    assert_eq!(pal.conversion_table[0], 42);
    assert_eq!(pal.conversion_table.len(), 32768);
}

#[test]
fn palette_rejects_short_data() {
    assert!(PalFile::open(&vec![0u8; 100]).is_none());
}
