use ex_merge_sort_by_key::reverse_sort_by_key;
use ex_merge_sort_by_key::sort_by_key;
use std::str;

const CSV: &str = "\
    0,Golf,189\n\
    1,Yankee,157\n\
    10,Delta,170\n\
    11,Zulu,118\n\
    12,Sierra,186\n\
    13,Charlie,195\n\
    14,Alpha,149\n\
    15,November,190\n\
    16,Tango,194\n\
    17,Lima,121\n\
    18,Victor,163\n\
    19,Romeo,191\n\
    2,Uniform,158\n\
    20,Foxtrot,188\n\
    21,Bravo,111\n\
    22,Kilo,161\n\
    23,X-ray,167\n\
    24,Oscar,141\n\
    25,Quebec,179\n\
    3,Juliet,178\n\
    4,Papa,138\n\
    5,Mike,110\n\
    6,Whiskey,116\n\
    7,Hotel,137\n\
    8,Echo,132\n\
    9,India,125\n\
    ";

fn columns(line: &Vec<u8>) -> Vec<String> {
    let line = str::from_utf8(line).unwrap();
    line.split(',').map(|col| col.to_string()).collect::<Vec<String>>()
}

#[test]
fn test_sort_in_buf1() {
    let fin = CSV.as_bytes().to_vec();
    let mut buf = Vec::new();

    sort_by_key(fin, &mut buf, 1024, |line: &Vec<u8>| columns(line)[1].to_string());

    assert_eq!(
        "\
        14,Alpha,149\n\
        21,Bravo,111\n\
        13,Charlie,195\n\
        10,Delta,170\n\
        8,Echo,132\n\
        20,Foxtrot,188\n\
        0,Golf,189\n\
        7,Hotel,137\n\
        9,India,125\n\
        3,Juliet,178\n\
        22,Kilo,161\n\
        17,Lima,121\n\
        5,Mike,110\n\
        15,November,190\n\
        24,Oscar,141\n\
        4,Papa,138\n\
        25,Quebec,179\n\
        19,Romeo,191\n\
        12,Sierra,186\n\
        16,Tango,194\n\
        2,Uniform,158\n\
        18,Victor,163\n\
        6,Whiskey,116\n\
        23,X-ray,167\n\
        1,Yankee,157\n\
        11,Zulu,118\n\
        ",
        str::from_utf8(&buf).unwrap()
    );
}

#[test]
fn test_sort_in_buf2() {
    let fin = CSV.as_bytes().to_vec();
    let mut buf = Vec::new();

    sort_by_key(fin, &mut buf, 1024, |line: &Vec<u8>| columns(line)[2].to_string());

    assert_eq!(
        "\
        5,Mike,110\n\
        21,Bravo,111\n\
        6,Whiskey,116\n\
        11,Zulu,118\n\
        17,Lima,121\n\
        9,India,125\n\
        8,Echo,132\n\
        7,Hotel,137\n\
        4,Papa,138\n\
        24,Oscar,141\n\
        14,Alpha,149\n\
        1,Yankee,157\n\
        2,Uniform,158\n\
        22,Kilo,161\n\
        18,Victor,163\n\
        23,X-ray,167\n\
        10,Delta,170\n\
        3,Juliet,178\n\
        25,Quebec,179\n\
        12,Sierra,186\n\
        20,Foxtrot,188\n\
        0,Golf,189\n\
        15,November,190\n\
        19,Romeo,191\n\
        16,Tango,194\n\
        13,Charlie,195\n\
        ",
        str::from_utf8(&buf).unwrap()
    );
}

#[test]
fn test_reverse_sort_in_buf() {
    let fin = CSV.as_bytes().to_vec();
    let mut buf = Vec::new();

    reverse_sort_by_key(fin, &mut buf, 1024, |line: &Vec<u8>| columns(line)[1].to_string());

    assert_eq!(
        "\
        11,Zulu,118\n\
        1,Yankee,157\n\
        23,X-ray,167\n\
        6,Whiskey,116\n\
        18,Victor,163\n\
        2,Uniform,158\n\
        16,Tango,194\n\
        12,Sierra,186\n\
        19,Romeo,191\n\
        25,Quebec,179\n\
        4,Papa,138\n\
        24,Oscar,141\n\
        15,November,190\n\
        5,Mike,110\n\
        17,Lima,121\n\
        22,Kilo,161\n\
        3,Juliet,178\n\
        9,India,125\n\
        7,Hotel,137\n\
        0,Golf,189\n\
        20,Foxtrot,188\n\
        8,Echo,132\n\
        10,Delta,170\n\
        13,Charlie,195\n\
        21,Bravo,111\n\
        14,Alpha,149\n\
        ",
        str::from_utf8(&buf).unwrap()
    );
}

#[test]
fn test_sort_by_num_in_buf() {
    let fin = CSV.as_bytes().to_vec();
    let mut buf = Vec::new();

    sort_by_key(fin, &mut buf, 1024, |line: &Vec<u8>| columns(line)[0].parse::<i32>().unwrap());

    assert_eq!(
        "\
        0,Golf,189\n\
        1,Yankee,157\n\
        2,Uniform,158\n\
        3,Juliet,178\n\
        4,Papa,138\n\
        5,Mike,110\n\
        6,Whiskey,116\n\
        7,Hotel,137\n\
        8,Echo,132\n\
        9,India,125\n\
        10,Delta,170\n\
        11,Zulu,118\n\
        12,Sierra,186\n\
        13,Charlie,195\n\
        14,Alpha,149\n\
        15,November,190\n\
        16,Tango,194\n\
        17,Lima,121\n\
        18,Victor,163\n\
        19,Romeo,191\n\
        20,Foxtrot,188\n\
        21,Bravo,111\n\
        22,Kilo,161\n\
        23,X-ray,167\n\
        24,Oscar,141\n\
        25,Quebec,179\n\
        ",
        str::from_utf8(&buf).unwrap()
    );
}

#[test]
fn test_reverse_sort_by_num_in_buf() {
    let fin = CSV.as_bytes().to_vec();
    let mut buf = Vec::new();

    reverse_sort_by_key(fin, &mut buf, 1024, |line: &Vec<u8>| columns(line)[0].parse::<i32>().unwrap());

    assert_eq!(
        "\
        25,Quebec,179\n\
        24,Oscar,141\n\
        23,X-ray,167\n\
        22,Kilo,161\n\
        21,Bravo,111\n\
        20,Foxtrot,188\n\
        19,Romeo,191\n\
        18,Victor,163\n\
        17,Lima,121\n\
        16,Tango,194\n\
        15,November,190\n\
        14,Alpha,149\n\
        13,Charlie,195\n\
        12,Sierra,186\n\
        11,Zulu,118\n\
        10,Delta,170\n\
        9,India,125\n\
        8,Echo,132\n\
        7,Hotel,137\n\
        6,Whiskey,116\n\
        5,Mike,110\n\
        4,Papa,138\n\
        3,Juliet,178\n\
        2,Uniform,158\n\
        1,Yankee,157\n\
        0,Golf,189\n\
        ",
        str::from_utf8(&buf).unwrap()
    );
}

#[test]
fn test_sort_using_file1() {
    let fin = CSV.as_bytes().to_vec();
    let mut buf = Vec::new();

    sort_by_key(fin, &mut buf, 10, |line: &Vec<u8>| columns(line)[1].to_string());

    assert_eq!(
        "\
        14,Alpha,149\n\
        21,Bravo,111\n\
        13,Charlie,195\n\
        10,Delta,170\n\
        8,Echo,132\n\
        20,Foxtrot,188\n\
        0,Golf,189\n\
        7,Hotel,137\n\
        9,India,125\n\
        3,Juliet,178\n\
        22,Kilo,161\n\
        17,Lima,121\n\
        5,Mike,110\n\
        15,November,190\n\
        24,Oscar,141\n\
        4,Papa,138\n\
        25,Quebec,179\n\
        19,Romeo,191\n\
        12,Sierra,186\n\
        16,Tango,194\n\
        2,Uniform,158\n\
        18,Victor,163\n\
        6,Whiskey,116\n\
        23,X-ray,167\n\
        1,Yankee,157\n\
        11,Zulu,118\n\
        ",
        str::from_utf8(&buf).unwrap()
    );
}

#[test]
fn test_sort_using_file2() {
    let fin = CSV.as_bytes().to_vec();
    let mut buf = Vec::new();

    sort_by_key(fin, &mut buf, 10, |line: &Vec<u8>| columns(line)[2].to_string());

    assert_eq!(
        "\
        5,Mike,110\n\
        21,Bravo,111\n\
        6,Whiskey,116\n\
        11,Zulu,118\n\
        17,Lima,121\n\
        9,India,125\n\
        8,Echo,132\n\
        7,Hotel,137\n\
        4,Papa,138\n\
        24,Oscar,141\n\
        14,Alpha,149\n\
        1,Yankee,157\n\
        2,Uniform,158\n\
        22,Kilo,161\n\
        18,Victor,163\n\
        23,X-ray,167\n\
        10,Delta,170\n\
        3,Juliet,178\n\
        25,Quebec,179\n\
        12,Sierra,186\n\
        20,Foxtrot,188\n\
        0,Golf,189\n\
        15,November,190\n\
        19,Romeo,191\n\
        16,Tango,194\n\
        13,Charlie,195\n\
        ",
        str::from_utf8(&buf).unwrap()
    );
}

#[test]
fn reverse_test_sort_using_file() {
    let fin = CSV.as_bytes().to_vec();
    let mut buf = Vec::new();

    reverse_sort_by_key(fin, &mut buf, 10, |line: &Vec<u8>| columns(line)[1].to_string());

    assert_eq!(
        "\
        11,Zulu,118\n\
        1,Yankee,157\n\
        23,X-ray,167\n\
        6,Whiskey,116\n\
        18,Victor,163\n\
        2,Uniform,158\n\
        16,Tango,194\n\
        12,Sierra,186\n\
        19,Romeo,191\n\
        25,Quebec,179\n\
        4,Papa,138\n\
        24,Oscar,141\n\
        15,November,190\n\
        5,Mike,110\n\
        17,Lima,121\n\
        22,Kilo,161\n\
        3,Juliet,178\n\
        9,India,125\n\
        7,Hotel,137\n\
        0,Golf,189\n\
        20,Foxtrot,188\n\
        8,Echo,132\n\
        10,Delta,170\n\
        13,Charlie,195\n\
        21,Bravo,111\n\
        14,Alpha,149\n\
        ",
        str::from_utf8(&buf).unwrap()
    );
}

#[test]
fn test_sort_by_num_using_file() {
    let fin = CSV.as_bytes().to_vec();
    let mut buf = Vec::new();

    sort_by_key(fin, &mut buf, 10, |line: &Vec<u8>| columns(line)[0].parse::<i32>().unwrap());

    assert_eq!(
        "\
        0,Golf,189\n\
        1,Yankee,157\n\
        2,Uniform,158\n\
        3,Juliet,178\n\
        4,Papa,138\n\
        5,Mike,110\n\
        6,Whiskey,116\n\
        7,Hotel,137\n\
        8,Echo,132\n\
        9,India,125\n\
        10,Delta,170\n\
        11,Zulu,118\n\
        12,Sierra,186\n\
        13,Charlie,195\n\
        14,Alpha,149\n\
        15,November,190\n\
        16,Tango,194\n\
        17,Lima,121\n\
        18,Victor,163\n\
        19,Romeo,191\n\
        20,Foxtrot,188\n\
        21,Bravo,111\n\
        22,Kilo,161\n\
        23,X-ray,167\n\
        24,Oscar,141\n\
        25,Quebec,179\n\
        ",
        str::from_utf8(&buf).unwrap()
    );
}

#[test]
fn test_reverse_sort_by_num_using_file() {
    let fin = CSV.as_bytes().to_vec();
    let mut buf = Vec::new();

    reverse_sort_by_key(fin, &mut buf, 10, |line: &Vec<u8>| columns(line)[0].parse::<i32>().unwrap());

    assert_eq!(
        "\
        25,Quebec,179\n\
        24,Oscar,141\n\
        23,X-ray,167\n\
        22,Kilo,161\n\
        21,Bravo,111\n\
        20,Foxtrot,188\n\
        19,Romeo,191\n\
        18,Victor,163\n\
        17,Lima,121\n\
        16,Tango,194\n\
        15,November,190\n\
        14,Alpha,149\n\
        13,Charlie,195\n\
        12,Sierra,186\n\
        11,Zulu,118\n\
        10,Delta,170\n\
        9,India,125\n\
        8,Echo,132\n\
        7,Hotel,137\n\
        6,Whiskey,116\n\
        5,Mike,110\n\
        4,Papa,138\n\
        3,Juliet,178\n\
        2,Uniform,158\n\
        1,Yankee,157\n\
        0,Golf,189\n\
        ",
        str::from_utf8(&buf).unwrap()
    );
}

#[test]
fn test_sort_empty() {
    let fin = "".as_bytes().to_vec();
    let mut buf = Vec::new();

    sort_by_key(fin, &mut buf, 50, |line: &Vec<u8>| columns(line)[2].to_string());

    assert_eq!(
        "",
        str::from_utf8(&buf).unwrap()
    );
}

#[test]
fn test_sort_one_line() {
    let fin = "0,Golf,189\n".as_bytes().to_vec();
    let mut buf = Vec::new();

    sort_by_key(fin, &mut buf, 50, |line: &Vec<u8>| columns(line)[2].to_string());

    assert_eq!(
        "0,Golf,189\n",
        str::from_utf8(&buf).unwrap()
    );
}

#[test]
fn test_sort_two_lines() {
    let fin = "0,Golf,189\n1,Yankee,157\n".as_bytes().to_vec();
    let mut buf = Vec::new();

    sort_by_key(fin, &mut buf, 50, |line: &Vec<u8>| columns(line)[2].to_string());

    assert_eq!(
        "1,Yankee,157\n0,Golf,189\n",
        str::from_utf8(&buf).unwrap()
    );
}

#[test]
fn test_sort_three_lines() {
    let fin = "0,Golf,189\n1,Yankee,157\n10,Delta,170\n".as_bytes().to_vec();
    let mut buf = Vec::new();

    sort_by_key(fin, &mut buf, 50, |line: &Vec<u8>| columns(line)[2].to_string());

    assert_eq!(
        "1,Yankee,157\n10,Delta,170\n0,Golf,189\n",
        str::from_utf8(&buf).unwrap()
    );
}
