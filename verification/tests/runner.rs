use advent::runner::{
    add_day, entry, fill_template, input_path, input_url, is_multiline, module_line, replace_all,
    runs, source_path, YEAR,
};

#[test]
fn names_of_the_files() {
    assert_eq!(YEAR, 2023);
    assert_eq!(input_path(2023, 1, false), "inputs/2023-01.txt");
    assert_eq!(input_path(2023, 9, true), "inputs/2023-09-example.txt");
    assert_eq!(input_path(2023, 10, false), "inputs/2023-10.txt");
    assert_eq!(input_path(0, 255, true), "inputs/0-255-example.txt");
    assert_eq!(source_path(8), "src/day8.rs");
    assert_eq!(source_path(25), "src/day25.rs");
    assert_eq!(input_url(3), "https://adventofcode.com/2023/day/3/input");
    assert_eq!(entry(7), "Box::new(day7::Day7)");
    assert_eq!(module_line(12), "mod day12;");
}

#[test]
fn text_with_one_word_for_another() {
    assert_eq!(replace_all(b"a-b-c", b"-", b"+"), b"a+b+c");
    assert_eq!(replace_all(b"aaaa", b"aa", b"b"), b"bb");
    assert_eq!(replace_all(b"aaa", b"aa", b"b"), b"ba");
    assert_eq!(replace_all(b"abc", b"x", b"y"), b"abc");
    assert_eq!(replace_all(b"abc", b"abc", b""), b"");
    assert_eq!(replace_all(b"", b"abc", b"x"), b"");
    assert_eq!(replace_all(b"xabcx", b"abc", b"012345"), b"x012345x");
    for (text, from, to) in [("a-b-c", "-", "+"), ("day {{ $day }}", "{{ $day }}", "7"), ("ababab", "aba", "c")] {
        assert_eq!(replace_all(text.as_bytes(), from.as_bytes(), to.as_bytes()), text.replace(from, to).as_bytes());
    }
}

#[test]
fn source_of_a_new_day() {
    let template = "pub struct Day{{ $day }};\nfn day(&self) -> u8 { {{ $day }} }\n";
    assert_eq!(
        fill_template(template, 8),
        b"pub struct Day8;\nfn day(&self) -> u8 { 8 }\n"
    );
    let main_src = "mod day6;\nmod day7;\nmod traits;\nvec![Box::new(day6::Day6), Box::new(day7::Day7)]\n";
    assert_eq!(
        String::from_utf8(add_day(main_src, 8)).unwrap(),
        "mod day6;\nmod day7;\nmod day8;\nmod traits;\nvec![Box::new(day6::Day6), Box::new(day7::Day7), Box::new(day8::Day8)]\n"
    );
    // a source that does not name the day before stays as it is
    assert_eq!(String::from_utf8(add_day(main_src, 3)).unwrap().matches("day3").count(), 0);
}

#[test]
fn days_and_parts_that_run() {
    assert!(runs(None, 1));
    assert!(runs(None, 25));
    assert!(runs(Some(2), 2));
    assert!(!runs(Some(2), 1));
    assert!(!is_multiline(""));
    assert!(!is_multiline("42"));
    assert!(!is_multiline("42\n"));
    assert!(is_multiline("#..#\n.##.\n"));
    assert!(is_multiline("a\n\nb"));
}
