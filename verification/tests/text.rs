use passkey::bytes::{put_bytes, put_u16_le, put_u32_le, read_be16, read_be32, read_le16, read_le32};
use passkey::number::{decimal, hexadecimal, read_number};
use passkey::text::{
    contains, join, lines, replace, same, space, split, squeeze, starts_with, strip_prefix,
    strip_suffix, trim, trim_start, words,
};

const SAMPLES: [&str; 12] = [
    "",
    "\n",
    "\n\n",
    "a",
    "a\nb",
    "a\r\nb\r\n\r\n",
    "a\rb\n",
    "a\r\r\n",
    "  two  words\t \n",
    "\u{a0}\u{2003}wide\u{3000}space\u{85}",
    "a:b::c:",
    ":\u{e9}:\u{1f600}",
];

#[test]
fn white_space_is_unicodes() {
    for c in '\0'..=char::MAX {
        assert_eq!(space(c), c.is_whitespace(), "{c:?}");
    }
}

#[test]
fn lines_are_those_of_std() {
    for text in SAMPLES {
        assert_eq!(lines(text), text.lines().collect::<Vec<_>>(), "{text:?}");
    }
}

#[test]
fn fields_are_those_of_std() {
    for text in SAMPLES {
        assert_eq!(split(text, ':'), text.split(':').collect::<Vec<_>>(), "{text:?}");
        assert_eq!(join(&split(text, ':'), ":"), text);
    }
}

#[test]
fn words_are_those_of_std() {
    for text in SAMPLES {
        let expected = text.split_whitespace().collect::<Vec<_>>();
        assert_eq!(words(text), expected, "{text:?}");
        assert_eq!(squeeze(text), expected.join(" "));
        assert_eq!(trim(text), text.trim(), "{text:?}");
        assert_eq!(trim_start(text), text.trim_start(), "{text:?}");
    }
}

#[test]
fn parts_are_those_of_std() {
    for text in SAMPLES {
        for part in ["", "a", ":", "b\n", " ", "\u{e9}", "longer than any"] {
            assert_eq!(contains(text, part), text.contains(part));
            assert_eq!(starts_with(text, part), text.starts_with(part));
            assert_eq!(same(text, part), text == part);
            assert_eq!(strip_prefix(text, part).as_deref(), text.strip_prefix(part));
            assert_eq!(strip_suffix(text, part).as_deref(), text.strip_suffix(part));
        }
        assert_eq!(replace(text, &[':', '\n'], '_'), text.replace([':', '\n'], "_"));
    }
}

#[test]
fn numbers_are_those_of_std() {
    for number in [0_u64, 7, 10, 99, 12345, u64::MAX] {
        assert_eq!(decimal(number as u128), number.to_string());
        assert_eq!(hexadecimal(number), format!("{number:x}"));
    }
    assert_eq!(decimal(u128::MAX), u128::MAX.to_string());
    let texts = [
        "", "+", "-", "0", "+0", "-0", "007", "42", "+42", "++1", "1 ", " 1", "1a", "\u{663}",
        "4294967295", "4294967296", "99999999999999999999",
    ];
    for text in texts {
        let expected = text.parse::<u32>().ok().map(u64::from);
        assert_eq!(read_number(text, 10, u32::MAX as u64), expected, "{text:?}");
    }
    for text in ["ff", "FF", "fg", "+1F", "", "12345"] {
        let expected = u64::from_str_radix(text, 16).ok();
        assert_eq!(read_number(text, 16, u64::MAX), expected, "{text:?}");
    }
}

#[test]
fn integers_in_bytes() {
    let mut buffer = [9; 8];
    put_u16_le(&mut buffer, 1, 0x1234);
    put_u32_le(&mut buffer, 3, 0x89abcdef);
    assert_eq!(buffer, [9, 0x34, 0x12, 0xef, 0xcd, 0xab, 0x89, 9]);
    assert_eq!(read_le16(&buffer, 1), 0x1234);
    assert_eq!(read_le32(&buffer, 3), 0x89abcdef);
    assert_eq!(read_be16(&buffer, 1), 0x3412);
    assert_eq!(read_be32(&buffer, 3), 0xefcdab89);
    put_bytes(&mut buffer, 6, &[1, 2]);
    assert_eq!(buffer[5..], [0xab, 1, 2]);
}
