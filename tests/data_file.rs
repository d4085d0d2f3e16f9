use bigbang::{parse_entities, write_data, DataFileError, Entity, GravTree, ParseError, Theta, TreeError};

fn theta() -> Theta {
    Theta { numerator: 1, denominator: 5 }
}

#[test]
fn entity_as_string() {
    let e = Entity { vx: 4, vy: -5, vz: 6, x: 1, y: -2, z: 30, radius: 8, mass: 7 };
    assert_eq!(e.as_string(), "1 -2 30 4 -5 6 7 8");
    let zero = Entity::default();
    assert_eq!(zero.as_string(), "0 0 0 0 0 0 0 0");
}

#[test]
fn write_then_parse_round_trip() {
    let es = vec![
        Entity { vx: 4, vy: -5, vz: 6, x: 1, y: -2, z: 30, radius: 8, mass: 7 },
        Entity { vx: i32::MIN, vy: i32::MAX, vz: 0, x: -1, y: 0, z: 1, radius: u32::MAX, mass: 1 },
    ];
    let text = write_data(&es);
    assert_eq!(
        String::from_utf8(text.clone()).unwrap(),
        "1 -2 30 4 -5 6 7 8\n-1 0 1 -2147483648 2147483647 0 1 4294967295\n"
    );
    let back = parse_entities(&text).unwrap();
    assert_eq!(back.len(), 2);
    for (a, b) in back.iter().zip(es.iter()) {
        assert_eq!((a.x, a.y, a.z, a.vx, a.vy, a.vz, a.mass, a.radius), (b.x, b.y, b.z, b.vx, b.vy, b.vz, b.mass, b.radius));
    }
    assert_eq!(write_data(&[]).len(), 0);
    assert_eq!(parse_entities(b"").unwrap().len(), 0);
}

#[test]
fn malformed_texts_are_rejected() {
    let bad: [&[u8]; 10] = [
        b"1 2 3 4 5 6 7 8",
        b"1 2 3 4 5 6 7\n",
        b"1 2 3 4 5 6 7 8 9\n",
        b" 1 2 3 4 5 6 7 8\n",
        b"01 2 3 4 5 6 7 8\n",
        b"-0 2 3 4 5 6 7 8\n",
        b"1 2 3 4 5 6 -7 8\n",
        b"2147483648 2 3 4 5 6 7 8\n",
        b"1 2 3 4 5 6 7 4294967296\n",
        b"1.5 2 3 4 5 6 7 8\n",
    ];
    for t in bad.iter() {
        assert_eq!(parse_entities(t).err(), Some(ParseError::Malformed));
    }
    assert_eq!(parse_entities(b"1 2 3 4 5 6 7 8 \n").err(), Some(ParseError::Malformed));
    assert!(parse_entities(b"1 2 3 4 5 6 7 8\n-2147483648 0 0 0 0 0 4294967295 0\n").is_ok());
}

#[test]
fn runs_of_spaces_and_tabs_separate_fields() {
    let spaced = parse_entities(b"1  2\t3 \t 4\t\t5 6 7 8\n-1\t0 0 0 0 0 9 10\n").unwrap();
    let single = parse_entities(b"1 2 3 4 5 6 7 8\n-1 0 0 0 0 0 9 10\n").unwrap();
    assert_eq!(spaced.len(), 2);
    for (a, b) in spaced.iter().zip(single.iter()) {
        assert_eq!((a.x, a.y, a.z, a.vx, a.vy, a.vz, a.mass, a.radius), (b.x, b.y, b.z, b.vx, b.vy, b.vz, b.mass, b.radius));
    }
    assert_eq!((spaced[0].x, spaced[0].y, spaced[0].z, spaced[0].vx), (1, 2, 3, 4));
    assert_eq!((spaced[1].x, spaced[1].mass, spaced[1].radius), (-1, 9, 10));
}

#[test]
fn tree_from_stored_text() {
    let text = b"0 0 0 0 0 0 5 10\n0 0 1 0 0 0 5 10\n0 1000 0 0 0 0 5 10\n";
    let tree = GravTree::from_data_text(text, 1, 3, theta()).unwrap();
    assert_eq!(tree.get_number_of_entities(), 3);
    assert_eq!(tree.root.as_ref().unwrap().total_mass, 15);
    let written = tree.write_data_text();
    let again = GravTree::from_data_text(&written, 1, 3, theta()).unwrap();
    assert_eq!(again.get_number_of_entities(), 3);
    assert_eq!(again.root.as_ref().unwrap().moment, tree.root.as_ref().unwrap().moment);
    assert_eq!(
        GravTree::from_data_text(b"0 0 0 0 0 0 0 10\n", 1, 3, theta()).err(),
        Some(DataFileError::Tree(TreeError::InvalidMass))
    );
    assert_eq!(GravTree::from_data_text(b"0 0 0\n", 1, 3, theta()).err(), Some(DataFileError::Malformed));
}
