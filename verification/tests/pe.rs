//! Sections of a PE image.

use kbuild::bytes::{get_le32, put_le16 as put_u16, put_le32 as put_u32};
use kbuild::pe::{
    add_section, stamp, Headers, COFF_HEADER, DATA_SECTION, E_LFANEW, FILE_ALIGNMENT, NUMBER_OF_SECTIONS, OPT_MAGIC,
    PE32PLUS, SECTION_ALIGNMENT, SECTION_HEADER, SEC_POINTER_TO_RAW_DATA, SEC_SIZE_OF_RAW_DATA, SEC_VIRTUAL_ADDRESS,
    SEC_VIRTUAL_SIZE, SIZE_OF_HEADERS, SIZE_OF_IMAGE, SIZE_OF_OPTIONAL_HEADER,
};

/// A PE32+ image with `sections` sections and room in its headers, laid out the way
/// lld-link lays one out: headers padded to SizeOfHeaders, sections at increasing
/// addresses.
fn image(sections: usize, size_of_headers: u32) -> Vec<u8> {
    let pe = 0x80usize;
    let optional = 240usize;
    let table = pe + 4 + COFF_HEADER + optional;
    let mut v = vec![0u8; size_of_headers as usize];
    v[..2].copy_from_slice(b"MZ");
    put_u32(&mut v, E_LFANEW, pe as u32);
    v[pe..pe + 4].copy_from_slice(b"PE\0\0");
    let coff = pe + 4;
    put_u16(&mut v, coff + NUMBER_OF_SECTIONS, sections as u16);
    put_u16(&mut v, coff + SIZE_OF_OPTIONAL_HEADER, optional as u16);
    let opt = coff + COFF_HEADER;
    put_u16(&mut v, opt + OPT_MAGIC, PE32PLUS);
    put_u32(&mut v, opt + SECTION_ALIGNMENT, 0x1000);
    put_u32(&mut v, opt + FILE_ALIGNMENT, 0x200);
    put_u32(&mut v, opt + SIZE_OF_HEADERS, size_of_headers);
    for i in 0..sections {
        let h = table + i * SECTION_HEADER;
        let name = format!(".s{i}");
        v[h..h + name.len()].copy_from_slice(name.as_bytes());
        put_u32(&mut v, h + SEC_VIRTUAL_ADDRESS, 0x1000 * (i as u32 + 1));
        put_u32(&mut v, h + SEC_VIRTUAL_SIZE, 0x40);
        put_u32(&mut v, h + SEC_SIZE_OF_RAW_DATA, 0x200);
        put_u32(&mut v, h + SEC_POINTER_TO_RAW_DATA, size_of_headers + 0x200 * i as u32);
    }
    put_u32(&mut v, opt + SIZE_OF_IMAGE, 0x1000 * (sections as u32 + 1));
    // Raw data for each section, so the file is as long as its headers describe.
    v.resize(size_of_headers as usize + 0x200 * sections, 0);
    v
}

#[test]
fn an_added_section_is_where_the_headers_say_it_is() {
    let before = image(4, 0x400);
    let data: Vec<u8> = (0..1000u32).map(|i| i as u8).collect();
    let (after, rva) = add_section(&before, ".kernel", &data, DATA_SECTION).unwrap();
    let h = Headers::parse(&after).unwrap();
    assert_eq!(h.sections, 5, "the section count grew by one");
    let (name, va, size) = h.sections(&after).unwrap().pop().unwrap();
    assert_eq!((name.as_str(), va, size), (".kernel", rva, data.len() as u32));
    // The raw data is where the header points, and the bytes are the ones given.
    let head = h.section_table + 4 * SECTION_HEADER;
    let ptr = get_le32(&after, head + SEC_POINTER_TO_RAW_DATA) as usize;
    assert_eq!(&after[ptr..ptr + data.len()], &data[..]);
    assert_eq!(ptr % 0x200, 0, "raw data is file-aligned");
    assert_eq!(rva % 0x1000, 0, "the address is section-aligned");
    assert!(h.size_of_image >= rva + data.len() as u32, "SizeOfImage covers the section");
    assert_eq!(h.size_of_image % 0x1000, 0, "SizeOfImage is section-aligned");
}

#[test]
fn a_full_header_area_is_refused_rather_than_grown() {
    // Headers sized to hold exactly the sections already there.
    let pe = 0x80 + 4 + COFF_HEADER + 240;
    let full = (pe + 4 * SECTION_HEADER) as u32;
    let before = image(4, full);
    let e = add_section(&before, ".kernel", b"x", DATA_SECTION).unwrap_err();
    assert!(e.contains("no room in the PE headers"), "{e}");
}

#[test]
fn a_second_section_of_the_same_name_is_refused() {
    let before = image(2, 0x400);
    let (once, _) = add_section(&before, ".kernel", b"x", DATA_SECTION).unwrap();
    let e = add_section(&once, ".kernel", b"y", DATA_SECTION).unwrap_err();
    assert!(e.contains("already has"), "{e}");
}

#[test]
fn only_a_pe32_plus_image_is_edited() {
    let mut v = image(1, 0x400);
    let opt = 0x80 + 4 + COFF_HEADER;
    put_u16(&mut v, opt + OPT_MAGIC, 0x10b);
    let e = Headers::parse(&v).unwrap_err();
    assert!(e.contains("not PE32+"), "{e}");
    let e = Headers::parse(b"not an image at all").unwrap_err();
    assert!(e.contains("no MZ signature"), "{e}");
}

#[test]
fn stamping_needs_exactly_one_marker() {
    const M: &[u8] = b"KinTane-KRN:";
    let mut one = M.to_vec();
    one.extend_from_slice(&[0u8; 16]);
    stamp(&mut one, M, &[0x1234, 0x5678]).unwrap();
    assert_eq!(&one[M.len()..M.len() + 8], &0x1234u64.to_le_bytes());
    assert_eq!(&one[M.len() + 8..M.len() + 16], &0x5678u64.to_le_bytes());

    let mut none = vec![0u8; 32];
    assert!(
        stamp(&mut none, M, &[1])
            .unwrap_err()
            .contains("no `KinTane-KRN:` marker")
    );

    let mut twice = one.clone();
    twice.extend_from_slice(M);
    twice.extend_from_slice(&[0u8; 16]);
    assert!(
        stamp(&mut twice, M, &[1])
            .unwrap_err()
            .contains("2 `KinTane-KRN:` markers")
    );
}

#[test]
fn stamping_past_the_end_is_refused() {
    const M: &[u8] = b"KinTane-KRN:";
    let mut short = M.to_vec();
    short.extend_from_slice(&[0u8; 4]);
    assert!(
        stamp(&mut short, M, &[1])
            .unwrap_err()
            .contains("too close to the end")
    );
}
