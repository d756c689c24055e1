use coil::number::{to_decimal, to_hexadecimal, to_integer};
use coil::order::before;
use coil::path::{
    ancestors_of, components_of, file_name, is_absolute, join, parent, same, starts_with,
    strip_prefix,
};
use std::path::Path;

const SPELLINGS: [&str; 18] = [
    "", "/", ".", "..", "a", "/a", "./a", "a/", "a//b", "a/./b", "/a/../b", "a/b/c", "//a//", "./",
    "a/.", "/.", "../a", "a b/é",
];

#[test]
fn parts_are_those_of_the_path() {
    for text in SPELLINGS {
        let parts: Vec<String> = Path::new(text)
            .components()
            .map(|part| part.as_os_str().to_str().unwrap().to_string())
            .collect();
        assert_eq!(components_of(text), parts, "{text:?}");
        let name = Path::new(text).file_name().map(|name| name.to_str().unwrap().to_string());
        assert_eq!(file_name(text), name, "{text:?}");
        let above = Path::new(text).parent().map(|above| above.to_str().unwrap().to_string());
        assert_eq!(parent(text), above, "{text:?}");
        assert_eq!(is_absolute(text), Path::new(text).is_absolute(), "{text:?}");
    }
}

#[test]
fn two_paths_are_put_together_and_taken_apart() {
    for a in SPELLINGS {
        for b in SPELLINGS {
            let (one, two) = (Path::new(a), Path::new(b));
            assert_eq!(join(a, b), one.join(two).to_str().unwrap(), "{a:?} {b:?}");
            assert_eq!(same(a, b), one == two, "{a:?} {b:?}");
            assert_eq!(starts_with(a, b), one.starts_with(two), "{a:?} {b:?}");
            let rest = one.strip_prefix(two).ok().map(|rest| rest.to_str().unwrap().to_string());
            assert_eq!(strip_prefix(a, b), rest, "{a:?} {b:?}");
        }
    }
}

#[test]
fn the_directories_above_a_path_up_to_the_root() {
    assert_eq!(ancestors_of("/r", "/r/a/b/c"), ["/r/a/b", "/r/a"]);
    assert_eq!(ancestors_of("/x", "/r/a"), ["/r", "/"]);
    assert!(ancestors_of("/r", "/r/a").is_empty());
}

#[test]
fn names_come_in_order() {
    assert!(before("a", "b") && before("a", "ab") && before("Z", "a") && before("z", "é"));
    assert!(!before("a", "a") && !before("b", "a") && !before("a", ""));
}

#[test]
fn numbers_are_written_and_read() {
    assert_eq!(to_decimal(0), "0");
    assert_eq!(to_decimal(u64::MAX), u64::MAX.to_string());
    assert_eq!(to_hexadecimal(0xabc, 16), "0000000000000abc");
    for text in ["0", "-1", "+7", "", "-", "1x", "9223372036854775807", "9223372036854775808",
        "-9223372036854775808"] {
        assert_eq!(to_integer(text), text.parse::<i64>().ok(), "{text:?}");
    }
}

#[test]
fn a_path_taken_apart_joins_back() {
    for path in ["/r/a/b", "/r//a/./b/", "/r/a/../b", "/r"] {
        let rest = strip_prefix(path, "/r").unwrap();
        assert!(same(&join("/r", &rest), path), "{path:?}");
    }
}
