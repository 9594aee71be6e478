//! What a check of a FAT volume shows.

use kbuild::fat16::{volume, File, Params, Volume};

fn params() -> Params {
    Params {
        sectors: 8192,
        sectors_per_cluster: 1,
        reserved_sectors: 1,
        fats: 2,
        root_entries: 64,
        hidden_sectors: 0,
        label: *b"TEST       ",
        volume_id: 7,
        what: "a test volume",
    }
}

fn written() -> Vec<u8> {
    let files = [
        File { path: "A.BIN", data: &[1; 1200] },
        File { path: "DIR/B.BIN", data: &[2; 700] },
    ];
    volume(&files, &params()).unwrap()
}

/// The first table begins behind the reserved sector.
fn set_entry(v: &mut [u8], cluster: usize, value: u16) {
    let at = 512 + cluster * 2;
    v[at..at + 2].copy_from_slice(&value.to_le_bytes());
}

#[test]
fn a_written_volume_has_nothing_wrong() {
    let v = written();
    let r = Volume::open(&v).unwrap().check().unwrap();
    assert_eq!((r.files, r.dirs, r.lost, r.fats_differ), (2, 1, 0, 0));
}

#[test]
fn every_kind_of_damage_is_found() {
    let clean = written();
    let first = |name: &str| {
        let at = clean.windows(11).position(|w| w == name.as_bytes()).unwrap();
        usize::from(u16::from_le_bytes([clean[at + 26], clean[at + 27]]))
    };
    let (a, b) = (first("A       BIN"), first("B       BIN"));
    let error = |v: &[u8]| Volume::open(v).unwrap().check().unwrap_err();

    let mut v = clean.clone();
    set_entry(&mut v, a, 0);
    assert!(error(&v).contains("a chain through free cluster"), "{}", error(&v));

    let mut v = clean.clone();
    set_entry(&mut v, a, 0xFFF7);
    assert!(error(&v).contains("a chain through bad cluster"));

    let mut v = clean.clone();
    set_entry(&mut v, a, b as u16);
    assert!(error(&v).contains("is claimed twice"));

    let mut v = clean.clone();
    set_entry(&mut v, a, a as u16);
    assert!(error(&v).contains("a chain that loops"));

    let mut v = clean.clone();
    set_entry(&mut v, a, 0xFFFF);
    assert!(error(&v).contains("clusters hold a 1200-byte file"));

    let mut v = clean.clone();
    set_entry(&mut v, a, 0xF000);
    assert!(error(&v).contains("a chain entry outside the volume"));

    // What no chain claims is lost, and a table that says otherwise than the first is counted.
    let mut v = clean.clone();
    set_entry(&mut v, 4000, 0xFFFF);
    let r = Volume::open(&v).unwrap().check().unwrap();
    assert_eq!((r.lost, r.fats_differ), (1, 1));
}

#[test]
fn a_volume_is_the_same_in_whatever_order_its_files_come() {
    let files = || {
        vec![
            File { path: "Z.TXT", data: b"last" },
            File { path: "DIR/SUB/A.BIN", data: &[1; 900] },
            File { path: "A.TXT", data: b"first" },
            File { path: "DIR/B.BIN", data: &[2; 600] },
        ]
    };
    let one = volume(&files(), &params()).unwrap();
    for turn in 1..4 {
        let mut other = files();
        other.rotate_left(turn);
        assert_eq!(volume(&other, &params()).unwrap(), one, "{turn}");
        other.reverse();
        assert_eq!(volume(&other, &params()).unwrap(), one, "{turn}, reversed");
    }
}

#[test]
fn a_file_is_no_directory() {
    let v = written();
    let vol = Volume::open(&v).unwrap();
    assert_eq!(vol.files_in("A.BIN"), Ok(None));
    assert_eq!(vol.files_in("DIR/B.BIN"), Ok(None));
    assert_eq!(vol.files_in("NOPE"), Ok(None));
    assert_eq!(vol.files_in("dir").unwrap().unwrap().len(), 1);
}

#[test]
fn a_path_leads_to_a_file_or_a_directory_or_nothing() {
    let files = [
        File { path: "A.BIN", data: &[1; 1200] },
        File { path: "DIR/SUB/B.BIN", data: &[2; 700] },
        File { path: "DIR/NOEXT.", data: b"found without its dot" },
    ];
    let v = volume(&files, &params()).unwrap();
    let vol = Volume::open(&v).unwrap();
    for path in ["DIR", "/dir", "DIR/SUB", "dir/Sub/"] {
        assert_eq!(vol.read(path), Err(format!("{path} is a directory")));
    }
    for path in ["", "/", "NOPE", "A.BIN/X", "DIR/B.BIN", "DIR/SUB/B", "DIR/NOEXT.", "a name too long to store"] {
        assert_eq!(vol.read(path), Ok(None), "{path}");
    }
    assert_eq!(vol.read("//dir/sub//b.bin"), Ok(Some(vec![2; 700])));
    assert_eq!(vol.read("DIR/noext"), Ok(Some(b"found without its dot".to_vec())));
}
