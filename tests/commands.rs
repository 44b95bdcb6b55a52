use fat_forensics::commands::Command;

#[test]
fn blank_line_is_empty() {
    assert!(matches!(Command::from_string(""), Command::Empty));
    assert!(matches!(Command::from_string("  \t\n"), Command::Empty));
}

#[test]
fn simple_commands() {
    assert!(matches!(Command::from_string("quit\n"), Command::Quit));
    assert!(matches!(Command::from_string("  print  "), Command::Print));
    assert!(matches!(Command::from_string("skip"), Command::Skip));
    assert!(matches!(Command::from_string("tree"), Command::Tree));
}

#[test]
fn open_takes_a_path() {
    match Command::from_string("open  disk.img extra\n") {
        Command::Open(p) => assert_eq!(p, "disk.img"),
        other => panic!("unexpected {:?}", other),
    }
    match Command::from_string("open") {
        Command::Invalid(m) => {
            assert_eq!(m, "Missing arg: 'open' expects the path to a '.img' file.")
        }
        other => panic!("unexpected {:?}", other),
    }
}

#[test]
fn part_takes_a_byte() {
    assert!(matches!(Command::from_string("part 3"), Command::Partition(3)));
    assert!(matches!(Command::from_string("part +255"), Command::Partition(255)));
    match Command::from_string("part 256") {
        Command::Invalid(m) => assert_eq!(
            m,
            "Arg parsing error: 'part' expects the partition number as an unsigned integer."
        ),
        other => panic!("unexpected {:?}", other),
    }
    assert!(matches!(Command::from_string("part -1"), Command::Invalid(_)));
    assert!(matches!(Command::from_string("part +"), Command::Invalid(_)));
    match Command::from_string("part") {
        Command::Invalid(m) => assert_eq!(m, "Missing arg: 'part' expects the partition number."),
        other => panic!("unexpected {:?}", other),
    }
}

#[test]
fn write_takes_a_file_and_a_sector() {
    match Command::from_string("write flag.txt 18446744073709551615") {
        Command::Write((f, s)) => {
            assert_eq!(f, "flag.txt");
            assert_eq!(s, u64::MAX);
        }
        other => panic!("unexpected {:?}", other),
    }
    match Command::from_string("write flag.txt 18446744073709551616") {
        Command::Invalid(m) => assert_eq!(
            m,
            "Arg parsing error: 'write' expects the starting sector as an unsigned integer."
        ),
        other => panic!("unexpected {:?}", other),
    }
    match Command::from_string("write flag.txt") {
        Command::Invalid(m) => assert_eq!(
            m,
            "Missing arg: 'write' expects the file and the starting sector to write it."
        ),
        other => panic!("unexpected {:?}", other),
    }
}

#[test]
fn unknown_word() {
    match Command::from_string("  frobnicate now") {
        Command::Unknown(w) => assert_eq!(w, "frobnicate"),
        other => panic!("unexpected {:?}", other),
    }
    match Command::from_string("QUIT") {
        Command::Unknown(w) => assert_eq!(w, "QUIT"),
        other => panic!("unexpected {:?}", other),
    }
}

#[test]
fn unicode_whitespace_separates_words() {
    match Command::from_string("open\u{3000}é.img") {
        Command::Open(p) => assert_eq!(p, "é.img"),
        other => panic!("unexpected {:?}", other),
    }
}
