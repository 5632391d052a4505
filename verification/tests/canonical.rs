use cmprsr_rs::canonical::{assign_canonical, canonical_code_list, sort_lengths, Canonical};
use cmprsr_rs::encoder::Code;
use cmprsr_rs::generate_canonical_codes;
use cmprsr_rs::symbol_map::SymbolMap;

fn code(c: char, bits: &str) -> Code {
    Code { code: String::from(bits), c }
}

fn listed(codes: &[Code]) -> Vec<(char, &str)> {
    codes.iter().map(|code| (code.c, code.code.as_str())).collect()
}

fn is_prefix(a: &str, b: &str) -> bool {
    b.starts_with(a)
}

#[test]
fn codes_are_given_out_by_length_then_symbol() {
    let base = vec![
        code('a', "000"),
        code('b', "001"),
        code('c', "010"),
        code('d', "011"),
        code('e', "100"),
        code('f', "11"),
        code('g', "1010"),
        code('h', "1011"),
    ];
    let canon = generate_canonical_codes(base);
    assert_eq!(
        listed(&canon),
        vec![
            ('f', "00"),
            ('a', "010"),
            ('b', "011"),
            ('c', "100"),
            ('d', "101"),
            ('e', "110"),
            ('g', "1110"),
            ('h', "1111"),
        ]
    );
}

#[test]
fn first_code_is_all_zeros() {
    let canon = generate_canonical_codes(vec![code('x', "1"), code('y', "01"), code('z', "00")]);
    assert_eq!(listed(&canon), vec![('x', "0"), ('y', "10"), ('z', "11")]);
}

#[test]
fn code_is_shifted_by_the_difference_of_the_lengths() {
    let canon = generate_canonical_codes(vec![
        code('a', "0"),
        code('b', "100"),
        code('c', "10100"),
        code('d', "10101"),
    ]);
    assert_eq!(
        listed(&canon),
        vec![('a', "0"), ('b', "100"), ('c', "10100"), ('d', "10101")]
    );
}

#[test]
fn only_the_lengths_of_the_base_codes_count() {
    let one = generate_canonical_codes(vec![code('a', "0"), code('b', "10"), code('c', "11")]);
    let other = generate_canonical_codes(vec![code('c', "01"), code('a', "1"), code('b', "00")]);
    assert_eq!(one, other);
    assert_eq!(listed(&one), vec![('a', "0"), ('b', "10"), ('c', "11")]);
}

#[test]
fn no_base_codes_give_no_canonical_codes() {
    assert!(generate_canonical_codes(Vec::new()).is_empty());
    assert!(canonical_code_list(&Vec::new()).is_empty());
}

#[test]
fn single_code_of_one_bit_is_zero() {
    let canon = generate_canonical_codes(vec![code('q', "1")]);
    assert_eq!(listed(&canon), vec![('q', "0")]);
}

#[test]
fn canonical_codes_are_as_long_as_the_base_codes() {
    let base = vec![code('a', "110"), code('b', "0"), code('c', "111"), code('d', "10")];
    let canon = generate_canonical_codes(base.clone());
    for entry in &base {
        let found = canon.iter().find(|c| c.c == entry.c).unwrap();
        assert_eq!(found.code.len(), entry.code.len());
    }
}

#[test]
fn canonical_codes_are_prefix_free() {
    let base = vec![
        code('a', "1111"),
        code('b', "1110"),
        code('c', "110"),
        code('d', "10"),
        code('e', "0"),
    ];
    let canon = generate_canonical_codes(base);
    for (i, a) in canon.iter().enumerate() {
        for (j, b) in canon.iter().enumerate() {
            if i != j {
                assert!(!is_prefix(&a.code, &b.code), "{:?} is a prefix of {:?}", a, b);
            }
        }
    }
}

#[test]
fn code_lengths_of_a_full_tree_fill_the_code_space() {
    let base = vec![
        code('a', "1111"),
        code('b', "1110"),
        code('c', "110"),
        code('d', "10"),
        code('e', "0"),
    ];
    let canon = generate_canonical_codes(base);
    // Sum of 2^(4 - length) over all codes is 2^4.
    let sum: u32 = canon.iter().map(|c| 1u32 << (4 - c.code.len())).sum();
    assert_eq!(sum, 16);
}

#[test]
fn codes_wrap_where_the_lengths_overfill_the_code_space() {
    // Three codes of one bit cannot be told apart: the third starts over.
    let canon = generate_canonical_codes(vec![code('a', "0"), code('b', "1"), code('c', "0")]);
    assert_eq!(listed(&canon), vec![('a', "0"), ('b', "1"), ('c', "0")]);
}

#[test]
fn empty_base_code_stays_empty() {
    let canon = generate_canonical_codes(vec![code('a', "")]);
    assert_eq!(listed(&canon), vec![('a', "")]);
}

#[test]
fn lengths_are_sorted_into_canonical_order() {
    let pairs = vec![(3, 'b'), (1, 'z'), (3, 'a'), (2, 'm'), (1, 'c')];
    assert_eq!(
        sort_lengths(&pairs),
        vec![(1, 'c'), (1, 'z'), (2, 'm'), (3, 'a'), (3, 'b')]
    );
}

#[test]
fn sorted_lengths_are_assigned_in_their_order() {
    let sorted = vec![(1, 'c'), (2, 'm'), (3, 'a'), (3, 'b')];
    let codes = assign_canonical(&sorted);
    assert_eq!(listed(&codes), vec![('c', "0"), ('m', "10"), ('a', "110"), ('b', "111")]);
}

#[test]
fn long_codes_do_not_overflow() {
    let mut long = String::from("1");
    while long.len() < 200 {
        long.push('0');
    }
    let canon = generate_canonical_codes(vec![code('a', "0"), code('b', &long)]);
    assert_eq!(canon[0].code, "0");
    assert_eq!(canon[1].code, long);
}

#[test]
fn canonical_table_is_filled_from_the_base_codes() {
    let mut canonical = Canonical::default();
    canonical.base_codes.insert('a', String::from("11"));
    canonical.base_codes.insert('b', String::from("0"));
    canonical.base_codes.insert('c', String::from("10"));
    canonical.generate_canon_codes();

    assert_eq!(canonical.code_lens, vec![2, 1, 2]);
    assert_eq!(canonical.code_chars, vec!['a', 'b', 'c']);
    assert_eq!(
        canonical.canon_codes.as_slice(),
        &[
            ('a', String::from("10")),
            ('b', String::from("0")),
            ('c', String::from("11")),
        ]
    );
    assert_eq!(canonical.base_codes.len(), 3);
}

#[test]
fn canonical_code_takes_the_place_of_an_earlier_one() {
    let mut canonical = Canonical::default();
    canonical.canon_codes.insert('b', String::from("stale"));
    canonical.canon_codes.insert('z', String::from("kept"));
    canonical.base_codes.insert('b', String::from("1"));
    canonical.generate_canon_codes();
    let expected: SymbolMap<String> = {
        let mut map = SymbolMap::new();
        map.insert('b', String::from("0"));
        map.insert('z', String::from("kept"));
        map
    };
    assert_eq!(canonical.canon_codes.as_slice(), expected.as_slice());
}
