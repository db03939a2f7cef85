use ex_merge_sort_by_key::reverse_sort_by_key;
use ex_merge_sort_by_key::sort_by_key;
use ex_merge_sort_by_key::sort_by_key_with_order;

const LINES: [&str; 12] = [
    "5,Mike,110",
    "21,Bravo,111",
    "6,Whiskey,116",
    "11,Zulu,118",
    "17,Lima,121",
    "9,India,125",
    "8,Echo,132",
    "7,Hotel,137",
    "4,Papa,138",
    "24,Oscar,141",
    "14,Alpha,149",
    "1,Yankee,157",
];

const CAPACITIES: [u64; 8] = [0, 1, 10, 13, 40, 70, 150, 1 << 20];

fn third_field(line: &Vec<u8>) -> u32 {
    let line = std::str::from_utf8(line).unwrap();
    line.trim_end().split(',').nth(2).unwrap().parse::<u32>().unwrap()
}

fn initial(line: &Vec<u8>) -> u8 {
    line[0]
}

fn length(line: &Vec<u8>) -> usize {
    line.len()
}

fn whole(line: &Vec<u8>) -> Vec<u8> {
    line.clone()
}

/// The lines in a fixed scrambled order, each with its delimiter.
fn scrambled() -> Vec<u8> {
    let mut out = Vec::new();
    for i in 0..LINES.len() {
        out.extend_from_slice(LINES[(i * 5) % LINES.len()].as_bytes());
        out.push(b'\n');
    }
    out
}

fn lines_of(bytes: &[u8]) -> Vec<Vec<u8>> {
    bytes.split_inclusive(|b| *b == b'\n').map(|l| l.to_vec()).collect()
}

fn sorted(input: &str, cap: u64, rev: bool, key: fn(&Vec<u8>) -> u8) -> String {
    let mut out = Vec::new();
    sort_by_key_with_order(input.as_bytes().to_vec(), &mut out, cap, rev, key);
    String::from_utf8(out).unwrap()
}

#[test]
fn keys_of_the_output_never_step_back() {
    for cap in CAPACITIES {
        let mut out = Vec::new();
        sort_by_key(scrambled(), &mut out, cap, third_field);
        let keys: Vec<u32> = lines_of(&out).iter().map(third_field).collect();
        assert_eq!(vec![110, 111, 116, 118, 121, 125, 132, 137, 138, 141, 149, 157], keys);

        let mut out = Vec::new();
        reverse_sort_by_key(scrambled(), &mut out, cap, third_field);
        let keys: Vec<u32> = lines_of(&out).iter().map(third_field).collect();
        assert_eq!(vec![157, 149, 141, 138, 137, 132, 125, 121, 118, 116, 111, 110], keys);
    }
}

#[test]
fn lower_third_field_comes_first() {
    let mut out = Vec::new();
    sort_by_key(b"21,Bravo,111\n5,Mike,110\n".to_vec(), &mut out, 1024, third_field);
    assert_eq!(b"5,Mike,110\n21,Bravo,111\n".to_vec(), out);
}

#[test]
fn higher_key_comes_first_when_descending() {
    let mut out = Vec::new();
    reverse_sort_by_key(b"1,Yankee,157\n10,Delta,170\n".to_vec(), &mut out, 1024, third_field);
    assert_eq!(b"10,Delta,170\n1,Yankee,157\n".to_vec(), out);
}

#[test]
fn output_holds_the_lines_of_the_input() {
    let mut expected = lines_of(&scrambled());
    expected.sort();
    for cap in CAPACITIES {
        for rev in [false, true] {
            let mut out = Vec::new();
            sort_by_key_with_order(scrambled(), &mut out, cap, rev, initial);
            let mut got = lines_of(&out);
            got.sort();
            assert_eq!(expected, got);
        }
    }
}

#[test]
fn tied_lines_keep_their_order_in_both_modes() {
    let input = "b1\na1\nc1\nb2\na2\nb3\nc2\na3\na4\nb4\n";
    for cap in CAPACITIES {
        assert_eq!("a1\na2\na3\na4\nb1\nb2\nb3\nb4\nc1\nc2\n", sorted(input, cap, false, initial));
        assert_eq!("c1\nc2\nb1\nb2\nb3\nb4\na1\na2\na3\na4\n", sorted(input, cap, true, initial));
    }
}

#[test]
fn sorting_the_output_again_changes_nothing() {
    for cap in CAPACITIES {
        for rev in [false, true] {
            let mut once = Vec::new();
            sort_by_key_with_order(scrambled(), &mut once, cap, rev, initial);
            for again in CAPACITIES {
                let mut twice = Vec::new();
                sort_by_key_with_order(once.clone(), &mut twice, again, rev, initial);
                assert_eq!(once, twice);
            }
        }
    }
}

#[test]
fn capacity_has_no_bearing_on_the_output() {
    for rev in [false, true] {
        let mut in_memory = Vec::new();
        sort_by_key_with_order(scrambled(), &mut in_memory, 1 << 20, rev, third_field);
        for cap in CAPACITIES {
            let mut out = Vec::new();
            sort_by_key_with_order(scrambled(), &mut out, cap, rev, third_field);
            assert_eq!(in_memory, out);
        }
    }
}

#[test]
fn split_and_merge_match_the_sort_in_memory() {
    let input = scrambled();
    assert!(input.len() > 40);
    let mut small = Vec::new();
    sort_by_key(input.clone(), &mut small, 40, third_field);
    let mut large = Vec::new();
    sort_by_key(input.clone(), &mut large, 1 + input.len() as u64, third_field);
    assert_eq!(large, small);
    assert_eq!(
        "5,Mike,110\n21,Bravo,111\n6,Whiskey,116\n11,Zulu,118\n17,Lima,121\n9,India,125\n\
         8,Echo,132\n7,Hotel,137\n4,Papa,138\n24,Oscar,141\n14,Alpha,149\n1,Yankee,157\n",
        String::from_utf8(small).unwrap()
    );
}

#[test]
fn last_line_without_delimiter_stays_without_one() {
    for cap in CAPACITIES {
        // The line without delimiter sorts last: it stays the last line.
        assert_eq!("a\nb\nc", sorted("b\na\nc", cap, false, initial));
        assert_eq!("c\nb\na", sorted("c\nb\na", cap, true, initial));
        // Tied with the others, it stays last as well.
        assert_eq!("a1\na2\na3", sorted("a1\na2\na3", cap, false, initial));
        assert_eq!("a1\na2\na3", sorted("a1\na2\na3", cap, true, initial));
    }
}

#[test]
fn line_without_delimiter_is_copied_byte_for_byte_wherever_it_lands() {
    // In memory the three lines come out as "a", "b\n", "c\n".
    let mut out = Vec::new();
    sort_by_key(b"b\nc\na".to_vec(), &mut out, 1024, whole);
    assert_eq!(b"ab\nc\n".to_vec(), out);

    // With capacity 1 the second half gives "a" and "c\n", which is read back as the one
    // line "ac\n" and merged with "b\n".
    let mut out = Vec::new();
    sort_by_key(b"b\nc\na".to_vec(), &mut out, 1, whole);
    assert_eq!(b"ac\nb\n".to_vec(), out);

    // The line without delimiter is written as it is, wherever its key puts it.
    let mut out = Vec::new();
    sort_by_key(b"xx\nyy\na".to_vec(), &mut out, 1024, length);
    assert_eq!(b"axx\nyy\n".to_vec(), out);

    // Read back, that output has other lines than the input, with other keys.
    let mut again = Vec::new();
    sort_by_key(out, &mut again, 1024, length);
    assert_eq!(b"yy\naxx\n".to_vec(), again);
}

#[test]
fn output_is_appended_to_the_sink() {
    let mut out = b"header\n".to_vec();
    sort_by_key(b"b\na\n".to_vec(), &mut out, 1024, whole);
    assert_eq!(b"header\na\nb\n".to_vec(), out);
}

#[test]
fn empty_lines_are_lines() {
    let mut out = Vec::new();
    sort_by_key(b"b\n\na\n\n".to_vec(), &mut out, 2, whole);
    assert_eq!(b"\n\na\nb\n".to_vec(), out);
}

#[test]
fn empty_input_gives_empty_output() {
    for cap in CAPACITIES {
        let mut out = Vec::new();
        reverse_sort_by_key(Vec::new(), &mut out, cap, whole);
        assert_eq!(Vec::<u8>::new(), out);
    }
}

#[test]
fn single_line_is_its_own_sort() {
    for cap in CAPACITIES {
        let mut out = Vec::new();
        sort_by_key(b"0,Golf,189\n".to_vec(), &mut out, cap, third_field);
        assert_eq!(b"0,Golf,189\n".to_vec(), out);
        let mut out = Vec::new();
        reverse_sort_by_key(b"0,Golf,189".to_vec(), &mut out, cap, third_field);
        assert_eq!(b"0,Golf,189".to_vec(), out);
    }
}
