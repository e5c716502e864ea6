use std::collections::BTreeMap;

use grop::chunk_inventory::{ChunkInventory, ChunkInventoryBuilder, ChunkInventoryRef};
use grop::chunk_list::ChunkListRef;
use grop::inner_layer::{three_layer_builder, three_layer_ref_from_bytes, NextLayerBuilder,
    NextLayerRef};
use grop::leaf_layer::{LeafLayerBuilder, LeafLayerRef};

fn list_ids(r: ChunkListRef<'_>) -> Vec<u64> {
    let mut it = r.into_iter();
    let mut out = Vec::new();
    while let Some(v) = it.next() {
        out.push(v.unwrap());
    }
    out
}

fn test_layer() -> (Vec<u8>, ChunkInventory) {
    let mut b = three_layer_builder();
    let mut inventory = ChunkInventory::builder();

    b.get(b'a').get(b'a').get(&mut inventory, b'a').add(0);
    b.get(b'a').get(b'a').get(&mut inventory, b'b').add(0);
    b.get(b'a').get(b'a').get(&mut inventory, b'c').add(0);
    b.get(b'a').get(b'b').get(&mut inventory, b'a').add(0);
    b.get(b'a').get(b'z').get(&mut inventory, b'z').add(0);
    b.get(b'c').get(b'z').get(&mut inventory, b'z').add(0);

    b.get(b'a').get(b'a').get(&mut inventory, b'a').add(1);
    b.get(b'a').get(b'a').get(&mut inventory, b'b').add(1);
    b.get(b'a').get(b'z').get(&mut inventory, b'z').add(1);

    let mut bytes = vec![];
    b.write(&mut bytes);
    (bytes, inventory.build())
}

#[test]
fn size() {
    let (map_bytes, _) = test_layer();
    assert!(map_bytes.len() > 0);
}

#[test]
fn inner_layer_iter() {
    let (bytes, _) = test_layer();
    let map = three_layer_ref_from_bytes(&bytes);
    let mut all = vec![];
    for (k0, v) in map.iter() {
        for (k1, v) in v.iter() {
            for (k2, v) in v.iter() {
                all.push((format!("{}{}{}", k0 as char, k1 as char, k2 as char), v));
            }
        }
    }
    assert_eq!(
        vec![
            ("aaa".to_string(), 0),
            ("aab".to_string(), 1),
            ("aac".to_string(), 2),
            ("aba".to_string(), 3),
            ("azz".to_string(), 4),
            ("czz".to_string(), 5),
        ],
        all
    );
}

#[test]
fn get() {
    let (bytes, _) = test_layer();
    let map = three_layer_ref_from_bytes(&bytes);
    assert_eq!(Some(0), map.get(b'a').unwrap().get(b'a').unwrap().get(b'a'));
    assert_eq!(Some(2), map.get(b'a').unwrap().get(b'a').unwrap().get(b'c'));
    assert!(map.get(b'a').unwrap().get(b'f').is_none());
    assert!(map.get(b'z').is_none());
}

#[test]
fn inner_layer_debug() {
    let (bytes, _) = test_layer();
    let map = three_layer_ref_from_bytes(&bytes);
    let mut all: BTreeMap<String, usize> = BTreeMap::new();
    for (k0, v) in map.iter() {
        for (k1, v) in v.iter() {
            for (k2, v) in v.iter() {
                all.insert(format!("{}{}{}", k0 as char, k1 as char, k2 as char), v);
            }
        }
    }
    assert_eq!(
        r#"{
    "aaa": 0,
    "aab": 1,
    "aac": 2,
    "aba": 3,
    "azz": 4,
    "czz": 5,
}"#,
        format!("{:#?}", all)
    );
}

#[test]
fn inventory() {
    let (_, built) = test_layer();
    let mut bytes = vec![];
    built.write(&mut bytes);
    let (i, _) = ChunkInventoryRef::from(&bytes);
    assert_eq!(i.len(), 6);
    assert_eq!(vec![0, 1], list_ids(i.get(0)));
    assert_eq!(vec![0, 1], list_ids(i.get(1)));
    assert_eq!(vec![0], list_ids(i.get(2)));
    assert_eq!(vec![0], list_ids(i.get(3)));
    assert_eq!(vec![0, 1], list_ids(i.get(4)));
    assert_eq!(vec![0], list_ids(i.get(5)));
}

#[test]
fn leaf_layer_test() {
    let mut inventory: ChunkInventoryBuilder = ChunkInventory::builder();
    let mut b = LeafLayerBuilder::new();

    b.get(&mut inventory, b'a').add(0);
    b.get(&mut inventory, b'b').add(0);
    b.get(&mut inventory, b'a').add(1);
    b.get(&mut inventory, b'd').add(2);
    b.get(&mut inventory, b'c').add(1);
    b.get(&mut inventory, b'd').add(3);

    let mut leaf_bytes = vec![];
    NextLayerBuilder::write(&b, &mut leaf_bytes);
    assert_eq!(4 * (1 + 4), leaf_bytes.len());
    let leaf = LeafLayerRef::from_bytes(&leaf_bytes);
    assert_eq!(
        vec![(b'a', 0), (b'b', 1), (b'c', 3), (b'd', 2)],
        leaf.iter()
    );
    assert_eq!(Some(0), leaf.get(b'a'));
    assert_eq!(None, leaf.get(b'z'));

    let mut inventory_bytes = vec![];
    inventory.build().write(&mut inventory_bytes);
    let (i, _) = ChunkInventoryRef::from(&inventory_bytes);
    assert_eq!(4, i.len());
    assert_eq!(vec![0, 1], list_ids(i.get(0)));
    assert_eq!(vec![0], list_ids(i.get(1)));
    assert_eq!(vec![2, 3], list_ids(i.get(2)));
    assert_eq!(vec![1], list_ids(i.get(3)));
}
