use cmprsr_rs::lookup::{bytes_eq, LookupTable};
use cmprsr_rs::symbol_map::SymbolMap;

#[test]
fn symbol_map_keeps_its_entries_in_the_order_of_the_symbols() {
    let mut map: SymbolMap<u64> = SymbolMap::new();
    map.insert('m', 1);
    map.insert('z', 2);
    map.insert('a', 3);
    map.insert('n', 4);
    assert_eq!(map.len(), 4);
    assert_eq!(map.as_slice(), &[('a', 3), ('m', 1), ('n', 4), ('z', 2)]);
}

#[test]
fn symbol_map_replaces_the_value_of_a_known_symbol() {
    let mut map: SymbolMap<u64> = SymbolMap::new();
    map.insert('a', 1);
    map.insert('b', 2);
    map.insert('a', 7);
    assert_eq!(map.len(), 2);
    assert_eq!(map.get('a'), Some(&7));
    assert_eq!(map.get('b'), Some(&2));
    assert_eq!(map.get('c'), None);
}

#[test]
fn symbol_map_does_not_depend_on_the_order_of_insertion() {
    let mut one: SymbolMap<u64> = SymbolMap::new();
    let mut other: SymbolMap<u64> = SymbolMap::new();
    for (c, n) in [('x', 1), ('b', 2), ('q', 3), ('a', 4)] {
        one.insert(c, n);
    }
    for (c, n) in [('a', 4), ('q', 3), ('b', 2), ('x', 1)] {
        other.insert(c, n);
    }
    assert_eq!(one.as_slice(), other.as_slice());
}

#[test]
fn symbol_map_orders_by_code_point() {
    let mut map: SymbolMap<u64> = SymbolMap::new();
    map.insert('\u{1F600}', 1);
    map.insert('\u{e9}', 2);
    map.insert('Z', 3);
    map.insert('\u{4f60}', 4);
    assert_eq!(
        map.as_slice(),
        &[('Z', 3), ('\u{e9}', 2), ('\u{4f60}', 4), ('\u{1F600}', 1)]
    );
}

#[test]
fn empty_symbol_map_finds_nothing() {
    let map: SymbolMap<u64> = SymbolMap::new();
    assert_eq!(map.len(), 0);
    assert_eq!(map.get('a'), None);
    assert!(map.as_slice().is_empty());
}

#[test]
fn lookup_table_finds_what_was_stored() {
    let mut table = LookupTable::new();
    assert_eq!(table.len(), 0);
    table.insert(vec![0x01, 0x02], 'A');
    table.insert(vec![0x01], 'B');
    table.insert(vec![], 'C');
    assert_eq!(table.len(), 3);
    assert_eq!(table.get(&[0x01, 0x02]), Some('A'));
    assert_eq!(table.get(&[0x01]), Some('B'));
    assert_eq!(table.get(&[]), Some('C'));
    assert_eq!(table.get(&[0x02]), None);
}

#[test]
fn lookup_table_replaces_the_symbol_of_a_known_key() {
    let mut table = LookupTable::new();
    table.insert(vec![0x80], 'A');
    table.insert(vec![0x80], 'B');
    assert_eq!(table.len(), 1);
    assert_eq!(table.get(&[0x80]), Some('B'));
}

#[test]
fn byte_strings_are_compared_byte_by_byte() {
    assert!(bytes_eq(&[], &[]));
    assert!(bytes_eq(&[1, 2, 3], &[1, 2, 3]));
    assert!(!bytes_eq(&[1, 2, 3], &[1, 2]));
    assert!(!bytes_eq(&[1, 2, 3], &[1, 2, 4]));
}
