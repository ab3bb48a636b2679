use cook_book::cdn::Cdn;
use cook_book::cdn::CdnError;
use cook_book::index::MetaEntry;
use cook_book::index::MetaIndex;
use std::collections::BTreeMap;
use std::collections::HashMap;

fn sample_index() -> MetaIndex {
    let entries = vec![
        MetaEntry { name: "pasta".to_string(), next_id: 3 },
        MetaEntry { name: "cake".to_string(), next_id: 0 },
        MetaEntry { name: "tea".to_string(), next_id: 300 },
        MetaEntry { name: "big".to_string(), next_id: u32::MAX },
        MetaEntry { name: "crème brûlée".to_string(), next_id: 26 },
    ];
    MetaIndex::from_entry_list(entries).unwrap()
}

#[test]
fn snapshot_round_trips_exactly() {
    let cdn = Cdn::new("root/".to_string(), sample_index());
    let bytes = cdn.serialize_index();
    let reloaded = Cdn::load_index(&bytes).unwrap();
    assert_eq!(reloaded.len(), 5);
    assert_eq!(reloaded.get("pasta"), Some(3));
    assert_eq!(reloaded.get("cake"), Some(0));
    assert_eq!(reloaded.get("tea"), Some(300));
    assert_eq!(reloaded.get("big"), Some(u32::MAX));
    assert_eq!(reloaded.get("crème brûlée"), Some(26));
    assert_eq!(reloaded.get("ghost"), None);
    // the reloaded index serializes to the identical bytes
    let cdn2 = Cdn::new("root/".to_string(), reloaded);
    assert_eq!(cdn2.serialize_index(), bytes);
}

#[test]
fn empty_snapshot_is_one_empty_map() {
    let cdn = Cdn::new("root/".to_string(), MetaIndex::new());
    let bytes = cdn.serialize_index();
    assert_eq!(bytes, vec![0xa0]);
    assert_eq!(Cdn::load_index(&bytes).unwrap().len(), 0);
}

#[test]
fn reload_after_mutations_matches_committed_state() {
    let mut cdn = Cdn::new("root/".to_string(), MetaIndex::new());
    for name in ["Pasta", "Cake", "Tea"] {
        let low = cdn.create_recipe_prepare(name).unwrap();
        cdn.create_recipe_commit(low, true).unwrap();
    }
    cdn.upload_image_begin("pasta").unwrap();
    cdn.upload_image_begin("pasta").unwrap();
    cdn.upload_image_begin("tea").unwrap();
    cdn.delete_recipe_prepare("cake").unwrap();
    cdn.delete_recipe_commit("cake", true).unwrap();
    let reloaded = Cdn::load_index(&cdn.serialize_index()).unwrap();
    assert_eq!(reloaded.len(), 2);
    assert_eq!(reloaded.get("pasta"), Some(2));
    assert_eq!(reloaded.get("cake"), None);
    assert_eq!(reloaded.get("tea"), Some(1));
}

#[test]
fn snapshot_is_readable_by_a_cbor_library() {
    let cdn = Cdn::new("root/".to_string(), sample_index());
    let bytes = cdn.serialize_index();
    let map: HashMap<String, u32> = ciborium::de::from_reader(bytes.as_slice()).unwrap();
    assert_eq!(map.len(), 5);
    assert_eq!(map["pasta"], 3);
    assert_eq!(map["big"], u32::MAX);
    assert_eq!(map["crème brûlée"], 26);
}

#[test]
fn snapshot_written_by_a_cbor_library_is_readable() {
    let mut map = BTreeMap::new();
    map.insert("pasta".to_string(), 7u32);
    map.insert("soup".to_string(), 0u32);
    map.insert("übermäßig".to_string(), 65536u32);
    let mut bytes = Vec::new();
    ciborium::ser::into_writer(&map, &mut bytes).unwrap();
    let reloaded = Cdn::load_index(&bytes).unwrap();
    assert_eq!(reloaded.len(), 3);
    assert_eq!(reloaded.get("pasta"), Some(7));
    assert_eq!(reloaded.get("soup"), Some(0));
    assert_eq!(reloaded.get("übermäßig"), Some(65536));
}

#[test]
fn corrupt_snapshots_are_refused() {
    // empty file
    assert_eq!(Cdn::load_index(&[]).unwrap_err(), CdnError::InternalError);
    // not a map
    assert_eq!(Cdn::load_index(&[0x80]).unwrap_err(), CdnError::InternalError);
    // map of one entry, but truncated
    assert_eq!(Cdn::load_index(&[0xa1, 0x61]).unwrap_err(), CdnError::InternalError);
    // trailing garbage after a valid empty map
    assert_eq!(Cdn::load_index(&[0xa0, 0x00]).unwrap_err(), CdnError::InternalError);
    // key is not valid utf-8
    assert_eq!(
        Cdn::load_index(&[0xa1, 0x61, 0xff, 0x00]).unwrap_err(),
        CdnError::InternalError
    );
    // non-minimal header form for the key length
    assert_eq!(
        Cdn::load_index(&[0xa1, 0x78, 0x01, 0x61, 0x00]).unwrap_err(),
        CdnError::InternalError
    );
    // value does not fit a 32-bit counter
    assert_eq!(
        Cdn::load_index(&[0xa1, 0x61, 0x61, 0x1b, 0x00, 0x00, 0x00, 0x01, 0x00, 0x00, 0x00, 0x00])
            .unwrap_err(),
        CdnError::InternalError
    );
    // duplicate keys
    assert_eq!(
        Cdn::load_index(&[0xa2, 0x61, 0x61, 0x00, 0x61, 0x61, 0x01]).unwrap_err(),
        CdnError::InternalError
    );
}

#[test]
fn duplicate_entries_are_refused_when_rebuilding() {
    let entries = vec![
        MetaEntry { name: "pasta".to_string(), next_id: 1 },
        MetaEntry { name: "pasta".to_string(), next_id: 2 },
    ];
    assert!(MetaIndex::from_entry_list(entries).is_none());
}
